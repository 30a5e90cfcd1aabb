//! Ticket text as lines: a ticket splits at its line breaks, and a merge joins two
//! texts with one.
use vstd::prelude::*;
use vstd::std_specs::iter::IteratorSpec;

verus! {

/// The lines of `s`, split at each `'\n'`; an empty text is one empty line.
pub open spec fn lines(s: Seq<char>) -> Seq<Seq<char>>
    decreases s.len(),
{
    if s.len() == 0 {
        seq![Seq::empty()]
    } else {
        let prev = lines(s.drop_last());
        if s.last() == '\n' {
            prev.push(Seq::empty())
        } else {
            prev.update(prev.len() - 1, prev.last().push(s.last()))
        }
    }
}

/// The lines joined with `'\n'` between neighbours.
pub open spec fn join_lines(segs: Seq<Seq<char>>) -> Seq<char>
    decreases segs.len(),
{
    if segs.len() == 0 {
        Seq::empty()
    } else if segs.len() == 1 {
        segs[0]
    } else {
        join_lines(segs.drop_last()) + seq!['\n'] + segs.last()
    }
}

/// The characters of `s`, in order.
pub fn chars_of(s: &String) -> (r: Vec<char>)
    ensures
        r@ == s@,
{
    let mut it = s.as_str().chars();
    let mut r: Vec<char> = Vec::new();
    loop
        invariant
            r@ + it.remaining() == s@,
            it.decrease() is Some,
        ensures
            r@ == s@,
        decreases it.decrease()->0,
    {
        match it.next() {
            Some(c) => r.push(c),
            None => break,
        }
    }
    r
}

/// Relies on std's `String::from_iter`, which collects the characters in order.
#[verifier::external_body]
pub(crate) fn string_from_chars(v: Vec<char>) -> (r: String)
    ensures
        r@ == v@,
{
    String::from_iter(v)
}

/// The lines of `s`.
pub fn split_lines(s: &Vec<char>) -> (r: Vec<Vec<char>>)
    ensures
        r@.map_values(|x: Vec<char>| x@) == lines(s@),
{
    let mut done: Vec<Vec<char>> = Vec::new();
    let mut cur: Vec<char> = Vec::new();
    let mut i: usize = 0;
    assert(s@.take(0) =~= Seq::<char>::empty());
    assert(done@.map_values(|x: Vec<char>| x@).push(cur@) =~= lines(s@.take(0)));
    while i < s.len()
        invariant
            i <= s@.len(),
            done@.map_values(|x: Vec<char>| x@).push(cur@) == lines(s@.take(i as int)),
        decreases s@.len() - i,
    {
        let ch = s[i];
        proof {
            assert(s@.take(i as int + 1).drop_last() =~= s@.take(i as int));
        }
        if ch == '\n' {
            let line = cur;
            cur = Vec::new();
            done.push(line);
            proof {
                assert(done@.map_values(|x: Vec<char>| x@).push(cur@) =~= lines(s@.take(i as int + 1)));
            }
        } else {
            let ghost before = done@.map_values(|x: Vec<char>| x@).push(cur@);
            cur.push(ch);
            proof {
                assert(done@.map_values(|x: Vec<char>| x@).push(cur@) =~= before.update(
                    before.len() - 1,
                    before.last().push(ch),
                ));
            }
        }
        i += 1;
    }
    done.push(cur);
    assert(s@.take(s@.len() as int) =~= s@);
    done
}

/// `segs` joined with `'\n'` between neighbours.
pub fn join_segments(segs: &Vec<Vec<char>>) -> (r: Vec<char>)
    ensures
        r@ == join_lines(segs@.map_values(|x: Vec<char>| x@)),
{
    let ghost all = segs@.map_values(|x: Vec<char>| x@);
    let mut out: Vec<char> = Vec::new();
    let mut i: usize = 0;
    while i < segs.len()
        invariant
            i <= segs@.len(),
            all == segs@.map_values(|x: Vec<char>| x@),
            out@ == join_lines(all.take(i as int)),
        decreases segs@.len() - i,
    {
        let seg = &segs[i];
        if i > 0 {
            out.push('\n');
        }
        let mut j: usize = 0;
        let ghost base = out@;
        while j < seg.len()
            invariant
                j <= seg@.len(),
                out@ == base + seg@.take(j as int),
            decreases seg@.len() - j,
        {
            out.push(seg[j]);
            j += 1;
            assert(out@ =~= base + seg@.take(j as int));
        }
        proof {
            assert(seg@.take(seg@.len() as int) =~= seg@);
            assert(all.take(i as int + 1).drop_last() =~= all.take(i as int));
            if i == 0 {
                assert(out@ =~= join_lines(all.take(1)));
            } else {
                assert(out@ =~= join_lines(all.take(i as int + 1)));
            }
        }
        i += 1;
    }
    assert(all.take(segs@.len() as int) =~= all);
    out
}

/// The text made of the lines of `s` other than line `index`, and line `index` itself.
pub fn split_off_line(s: &String, index: usize) -> (r: (String, String))
    requires
        index < lines(s@).len(),
    ensures
        r.0@ == join_lines(lines(s@).remove(index as int)),
        r.1@ == lines(s@)[index as int],
{
    let cs = chars_of(s);
    let mut segs = split_lines(&cs);
    let line = segs.remove(index);
    proof {
        assert(segs@.map_values(|x: Vec<char>| x@) =~= lines(s@).remove(index as int));
    }
    let rest = join_segments(&segs);
    (string_from_chars(rest), string_from_chars(line))
}

/// Number of lines of `s`.
pub fn line_count(s: &String) -> (r: usize)
    ensures
        r == lines(s@).len(),
{
    let cs = chars_of(s);
    let segs = split_lines(&cs);
    segs.len()
}

/// The Unicode `White_Space` characters, which `char::is_whitespace` recognises and
/// `str::trim` strips.
pub open spec fn white_space(c: char) -> bool {
    ('\u{9}' <= c <= '\u{d}') || c == ' ' || c == '\u{85}' || c == '\u{a0}' || c == '\u{1680}'
        || ('\u{2000}' <= c <= '\u{200a}') || c == '\u{2028}' || c == '\u{2029}' || c == '\u{202f}'
        || c == '\u{205f}' || c == '\u{3000}'
}

/// Whether `c` is a white-space character.
pub fn is_white_space(c: char) -> (r: bool)
    ensures
        r == white_space(c),
{
    ('\u{9}' <= c && c <= '\u{d}') || c == ' ' || c == '\u{85}' || c == '\u{a0}' || c == '\u{1680}'
        || ('\u{2000}' <= c && c <= '\u{200a}') || c == '\u{2028}' || c == '\u{2029}' || c == '\u{202f}'
        || c == '\u{205f}' || c == '\u{3000}'
}

/// `s` is empty once trimmed: every character is white space.
pub open spec fn blank(s: Seq<char>) -> bool {
    forall|i: int| 0 <= i < s.len() ==> white_space(#[trigger] s[i])
}

/// Whether `s` is empty once trimmed.
pub fn is_blank(s: &String) -> (r: bool)
    ensures
        r == blank(s@),
{
    let cs = chars_of(s);
    let mut i: usize = 0;
    while i < cs.len()
        invariant
            i <= cs@.len(),
            cs@ == s@,
            forall|j: int| 0 <= j < i ==> white_space(#[trigger] s@[j]),
        decreases cs@.len() - i,
    {
        if !is_white_space(cs[i]) {
            return false;
        }
        i += 1;
    }
    true
}

} // verus!
