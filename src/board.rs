//! Operations on one board: the store-level mutations that the command
//! dispatcher is built from.
use vstd::prelude::*;
use crate::text::{lines, join_lines, line_count, split_off_line};
use crate::model::{
    oldest_first, time_ordered,
    BoardModel, TicketModel, ColumnModel, Board, Ticket, valid_pos, ticket_at, has_ticket,
    unique_ids, locate, ticket_of, has_column, column_index, id_set, no_dup_ids,
};

verus! {

/// The board with the ticket at `(c, k)` replaced by `t`.
pub open spec fn set_ticket(b: BoardModel, c: int, k: int, t: TicketModel) -> BoardModel {
    BoardModel {
        columns: b.columns.update(c, ColumnModel { tickets: b.columns[c].tickets.update(k, t), ..b.columns[c] }),
        ..b
    }
}

/// The board with the content of ticket `id` replaced.
pub open spec fn edited(b: BoardModel, id: Seq<char>, content: Seq<char>) -> BoardModel {
    set_ticket(b, locate(b, id).0, locate(b, id).1, TicketModel { content, ..ticket_of(b, id) })
}

/// If `(c, k)` holds `id`, then `locate` finds exactly that position.
pub proof fn lemma_locate(b: BoardModel, c: int, k: int, id: Seq<char>)
    requires
        unique_ids(b),
        ticket_at(b, c, k, id),
    ensures
        has_ticket(b, id),
        locate(b, id) == (c, k),
{
    assert(ticket_at(b, c, k, id));
    let ck = locate(b, id);
    assert(ticket_at(b, ck.0, ck.1, id));
    assert(b.columns[c].tickets[k] == b.columns[c].tickets[k]);
    assert(b.columns[ck.0].tickets[ck.1].id == b.columns[c].tickets[k].id);
}

/// If column `c` has id `col`, then `column_index` finds exactly `c`.
pub proof fn lemma_column_index(b: BoardModel, c: int, col: Seq<char>)
    requires
        unique_ids(b),
        0 <= c < b.columns.len(),
        b.columns[c].id == col,
    ensures
        has_column(b, col),
        column_index(b, col) == c,
{
    let ci = column_index(b, col);
    assert(b.columns[ci].id == b.columns[c].id);
}

/// The ticket with participant `p`'s vote added if absent, removed if present.
pub open spec fn toggled(t: TicketModel, p: Seq<char>) -> TicketModel {
    TicketModel {
        votes: if t.votes.contains(p) { t.votes.remove(p) } else { t.votes.insert(p) },
        ..t
    }
}

/// The board after participant `p` toggles a vote on ticket `id`.
pub open spec fn vote_toggled(b: BoardModel, id: Seq<char>, p: Seq<char>) -> BoardModel {
    set_ticket(b, locate(b, id).0, locate(b, id).1, toggled(ticket_of(b, id), p))
}

/// The board without ticket `id`.
pub open spec fn removed(b: BoardModel, id: Seq<char>) -> BoardModel {
    BoardModel {
        columns: b.columns.update(
            locate(b, id).0,
            ColumnModel {
                tickets: b.columns[locate(b, id).0].tickets.remove(locate(b, id).1),
                ..b.columns[locate(b, id).0]
            },
        ),
        ..b
    }
}

/// Index of the first ticket created after time `t` (the length when there is none).
pub open spec fn first_later(ts: Seq<TicketModel>, t: int) -> int
    decreases ts.len(),
{
    if ts.len() == 0 {
        0
    } else if ts[0].created_at > t {
        0
    } else {
        1 + first_later(ts.drop_first(), t)
    }
}

/// A ticket created at time `t` can stand at `pos` without breaking the oldest-first order.
pub open spec fn fits(ts: Seq<TicketModel>, pos: int, t: int) -> bool {
    &&& 0 <= pos <= ts.len()
    &&& (pos == 0 || ts[pos - 1].created_at <= t)
    &&& (pos == ts.len() || t <= ts[pos].created_at)
}

/// The board with ticket `t` placed in column `c` by its creation time: after every
/// ticket created no later than it.
pub open spec fn placed(b: BoardModel, c: int, t: TicketModel) -> BoardModel {
    inserted(b, c, first_later(b.columns[c].tickets, t.created_at), t)
}

/// `k` is the index of the first ticket created after `t`.
pub proof fn lemma_first_later_at(ts: Seq<TicketModel>, t: int, k: int)
    requires
        0 <= k <= ts.len(),
        forall|j: int| 0 <= j < k ==> (#[trigger] ts[j]).created_at <= t,
        k < ts.len() ==> ts[k].created_at > t,
    ensures
        first_later(ts, t) == k,
    decreases k,
{
    if ts.len() > 0 && k > 0 {
        assert(ts[0].created_at <= t);
        let rest = ts.drop_first();
        assert forall|j: int| 0 <= j < k - 1 implies (#[trigger] rest[j]).created_at <= t by {
            assert(rest[j] == ts[j + 1]);
        }
        lemma_first_later_at(rest, t, k - 1);
    }
}

/// The first later ticket's index is a place where a ticket of time `t` fits.
pub proof fn lemma_first_later_fits(ts: Seq<TicketModel>, t: int)
    ensures
        fits(ts, first_later(ts, t), t),
        forall|j: int| 0 <= j < first_later(ts, t) ==> (#[trigger] ts[j]).created_at <= t,
    decreases ts.len(),
{
    if ts.len() > 0 && ts[0].created_at <= t {
        let rest = ts.drop_first();
        lemma_first_later_fits(rest, t);
        assert forall|j: int| 0 <= j < first_later(ts, t) implies (#[trigger] ts[j]).created_at <= t by {
            if j > 0 {
                assert(ts[j] == rest[j - 1]);
            }
        }
        let f = first_later(ts, t);
        if f < ts.len() {
            assert(ts[f] == rest[f - 1]);
        }
    }
}

/// Inserting a ticket where it fits keeps a column oldest first.
pub proof fn lemma_insert_oldest_first(ts: Seq<TicketModel>, pos: int, t: TicketModel)
    requires
        oldest_first(ts),
        fits(ts, pos, t.created_at),
    ensures
        oldest_first(ts.insert(pos, t)),
{
    let u = ts.insert(pos, t);
    assert forall|i: int, j: int| 0 <= i < j < u.len() implies #[trigger] u[i].created_at <= #[trigger] u[j].created_at by {
        if i < pos && j < pos {
            assert(u[i] == ts[i] && u[j] == ts[j]);
        } else if i < pos && j == pos {
            assert(u[i] == ts[i]);
            assert(ts[i].created_at <= ts[pos - 1].created_at);
        } else if i < pos {
            assert(u[i] == ts[i] && u[j] == ts[j - 1]);
        } else if i == pos {
            assert(u[j] == ts[j - 1]);
            assert(ts[pos].created_at <= ts[j - 1].created_at);
        } else {
            assert(u[i] == ts[i - 1] && u[j] == ts[j - 1]);
        }
    }
}

/// A fresh ticket with no votes.
pub open spec fn new_ticket(
    id: Seq<char>,
    content: Seq<char>,
    author_id: Seq<char>,
    author_name: Seq<char>,
    created_at: int,
) -> TicketModel {
    TicketModel { id, content, author_id, author_name, votes: Set::empty(), created_at }
}

/// Appending a new id to a duplicate-free vote list adds it to the set.
pub proof fn lemma_id_set_push(v: Seq<String>, s: String)
    requires
        no_dup_ids(v),
        !id_set(v).contains(s@),
    ensures
        no_dup_ids(v.push(s)),
        id_set(v.push(s)) == id_set(v).insert(s@),
{
    let w = v.push(s);
    assert forall|i: int, j: int| 0 <= i < w.len() && 0 <= j < w.len() && i != j implies #[trigger] w[i]@ != #[trigger] w[j]@ by {
        if i == v.len() {
            assert(!(0 <= j < v.len() && v[j]@ == s@));
        } else if j == v.len() {
            assert(!(0 <= i < v.len() && v[i]@ == s@));
        }
    }
    assert forall|p: Seq<char>| id_set(w).contains(p) <==> id_set(v).insert(s@).contains(p) by {
        if id_set(v).contains(p) {
            let i = choose|i: int| 0 <= i < v.len() && #[trigger] v[i]@ == p;
            assert(w[i]@ == p);
        }
        if p == s@ {
            assert(w[v.len() as int]@ == p);
        }
        if id_set(w).contains(p) {
            let i = choose|i: int| 0 <= i < w.len() && #[trigger] w[i]@ == p;
            if i < v.len() {
                assert(v[i]@ == p);
            }
        }
    }
    assert(id_set(w) =~= id_set(v).insert(s@));
}

/// Removing an entry of a duplicate-free vote list removes its id from the set.
pub proof fn lemma_id_set_remove(v: Seq<String>, i: int)
    requires
        no_dup_ids(v),
        0 <= i < v.len(),
    ensures
        no_dup_ids(v.remove(i)),
        id_set(v.remove(i)) == id_set(v).remove(v[i]@),
{
    let w = v.remove(i);
    assert forall|a: int, b: int| 0 <= a < w.len() && 0 <= b < w.len() && a != b implies #[trigger] w[a]@ != #[trigger] w[b]@ by {
        let a2 = if a < i { a } else { a + 1 };
        let b2 = if b < i { b } else { b + 1 };
        assert(w[a] == v[a2]);
        assert(w[b] == v[b2]);
        assert(v[a2]@ != v[b2]@);
    }
    assert forall|p: Seq<char>| id_set(w).contains(p) <==> id_set(v).remove(v[i]@).contains(p) by {
        if id_set(w).contains(p) {
            let a = choose|a: int| 0 <= a < w.len() && #[trigger] w[a]@ == p;
            let a2 = if a < i { a } else { a + 1 };
            assert(w[a] == v[a2]);
            assert(v[a2]@ != v[i]@);
            assert(v[a2]@ == p);
        }
        if id_set(v).remove(v[i]@).contains(p) {
            let a2 = choose|a: int| 0 <= a < v.len() && #[trigger] v[a]@ == p;
            assert(a2 != i);
            let a = if a2 < i { a2 } else { a2 - 1 };
            assert(w[a] == v[a2]);
            assert(w[a]@ == p);
        }
    }
    assert(id_set(w) =~= id_set(v).remove(v[i]@));
}

/// Number of tickets in `ts` that carry participant `p`'s vote.
pub open spec fn votes_in(ts: Seq<TicketModel>, p: Seq<char>) -> nat
    decreases ts.len(),
{
    if ts.len() == 0 {
        0
    } else {
        votes_in(ts.drop_last(), p) + if ts.last().votes.contains(p) { 1nat } else { 0nat }
    }
}

/// Replacing one ticket changes a participant's count only by that ticket's vote.
pub proof fn lemma_votes_in_update(ts: Seq<TicketModel>, k: int, t: TicketModel, p: Seq<char>)
    requires
        0 <= k < ts.len(),
    ensures
        votes_in(ts.update(k, t), p) + (if ts[k].votes.contains(p) { 1int } else { 0int })
            == votes_in(ts, p) + (if t.votes.contains(p) { 1int } else { 0int }),
    decreases ts.len(),
{
    let u = ts.update(k, t);
    if k == ts.len() - 1 {
        assert(u.drop_last() =~= ts.drop_last());
    } else {
        assert(u.drop_last() =~= ts.drop_last().update(k, t));
        lemma_votes_in_update(ts.drop_last(), k, t, p);
    }
}

/// Inserting a ticket changes a participant's count only by that ticket's vote.
pub proof fn lemma_votes_in_insert(ts: Seq<TicketModel>, k: int, t: TicketModel, p: Seq<char>)
    requires
        0 <= k <= ts.len(),
    ensures
        votes_in(ts.insert(k, t), p) == votes_in(ts, p) + (if t.votes.contains(p) { 1int } else { 0int }),
    decreases ts.len(),
{
    if k == ts.len() {
        assert(ts.insert(k, t).drop_last() =~= ts);
    } else {
        assert(ts.insert(k, t).drop_last() =~= ts.drop_last().insert(k, t));
        lemma_votes_in_insert(ts.drop_last(), k, t, p);
    }
}

/// The text of a merged ticket: the target's text, a line break, the source's text.
pub open spec fn merged_content(target: Seq<char>, source: Seq<char>) -> Seq<char> {
    target + seq!['\n'] + source
}

/// What a merge records so that one undo can restore the merged-away ticket.
pub struct SnapshotModel {
    pub source: TicketModel,
    pub source_column_id: Seq<char>,
    pub source_position: int,
    pub target_id: Seq<char>,
    pub target_original_content: Seq<char>,
}

/// Saved state of the most recent merge on a board.
#[derive(Debug, Clone)]
pub struct MergeSnapshot {
    pub source_id: String,
    pub source_column_id: String,
    pub source_position: usize,
    pub source_content: String,
    pub source_author_id: String,
    pub source_author_name: String,
    pub source_created_at: i64,
    pub source_votes: Vec<String>,
    pub target_id: String,
    pub target_original_content: String,
}

impl View for MergeSnapshot {
    type V = SnapshotModel;

    open spec fn view(&self) -> SnapshotModel {
        SnapshotModel {
            source: TicketModel {
                id: self.source_id@,
                content: self.source_content@,
                author_id: self.source_author_id@,
                author_name: self.source_author_name@,
                votes: id_set(self.source_votes@),
                created_at: self.source_created_at as int,
            },
            source_column_id: self.source_column_id@,
            source_position: self.source_position as int,
            target_id: self.target_id@,
            target_original_content: self.target_original_content@,
        }
    }
}

impl MergeSnapshot {
    /// The saved vote list names no participant twice.
    pub open spec fn wf(&self) -> bool {
        no_dup_ids(self.source_votes@)
    }
}

/// The target ticket after the source is folded into it.
pub open spec fn merged_target(source: TicketModel, target: TicketModel) -> TicketModel {
    TicketModel {
        content: merged_content(target.content, source.content),
        votes: target.votes.union(source.votes),
        ..target
    }
}

/// The board after ticket `src` is merged into ticket `tgt`.
pub open spec fn merged(b: BoardModel, src: Seq<char>, tgt: Seq<char>) -> BoardModel {
    let (cs, ks) = locate(b, src);
    let (ct, kt) = locate(b, tgt);
    let b1 = set_ticket(b, ct, kt, merged_target(ticket_of(b, src), ticket_of(b, tgt)));
    BoardModel {
        columns: b1.columns.update(cs, ColumnModel { tickets: b1.columns[cs].tickets.remove(ks), ..b1.columns[cs] }),
        ..b1
    }
}

/// The snapshot recorded by merging `src` into `tgt`.
pub open spec fn snapshot_of(b: BoardModel, src: Seq<char>, tgt: Seq<char>) -> SnapshotModel {
    SnapshotModel {
        source: ticket_of(b, src),
        source_column_id: b.columns[locate(b, src).0].id,
        source_position: locate(b, src).1,
        target_id: tgt,
        target_original_content: ticket_of(b, tgt).content,
    }
}

/// The board with ticket `t` inserted at position `k` of column `c`.
pub open spec fn inserted(b: BoardModel, c: int, k: int, t: TicketModel) -> BoardModel {
    BoardModel {
        columns: b.columns.update(c, ColumnModel { tickets: b.columns[c].tickets.insert(k, t), ..b.columns[c] }),
        ..b
    }
}

/// Where an undo puts the restored ticket: its old position if it still fits the
/// oldest-first order there, else after every ticket created no later than it.
pub open spec fn restore_position(b: BoardModel, s: SnapshotModel) -> int {
    let ts = b.columns[column_index(b, s.source_column_id)].tickets;
    if fits(ts, s.source_position, s.source.created_at) {
        s.source_position
    } else {
        first_later(ts, s.source.created_at)
    }
}

/// The board after undoing the merge that `s` recorded: the source ticket is back in
/// its column and the target, if it still exists, has its earlier text.
pub open spec fn unmerged(b: BoardModel, s: SnapshotModel) -> BoardModel {
    let b1 = inserted(b, column_index(b, s.source_column_id), restore_position(b, s), s.source);
    if has_ticket(b1, s.target_id) {
        edited(b1, s.target_id, s.target_original_content)
    } else {
        b1
    }
}

/// Replacing a ticket by one with the same id keeps ids unique and every ticket's position.
pub proof fn lemma_set_ticket_same_id(b: BoardModel, c: int, k: int, t: TicketModel)
    requires
        unique_ids(b),
        valid_pos(b, c, k),
        t.id == b.columns[c].tickets[k].id,
    ensures
        unique_ids(set_ticket(b, c, k, t)),
{
    let nb = set_ticket(b, c, k, t);
    assert forall|c1: int, k1: int| valid_pos(nb, c1, k1) implies #[trigger] nb.columns[c1].tickets[k1].id
        == b.columns[c1].tickets[k1].id && valid_pos(b, c1, k1) by {
        if c1 == c && k1 == k {
        } else {
            assert(nb.columns[c1].tickets[k1] == b.columns[c1].tickets[k1]);
        }
    }
    assert forall|c1: int, k1: int, c2: int, k2: int|
        valid_pos(nb, c1, k1) && valid_pos(nb, c2, k2)
            && #[trigger] nb.columns[c1].tickets[k1].id == #[trigger] nb.columns[c2].tickets[k2].id
            implies c1 == c2 && k1 == k2 by {
        assert(b.columns[c1].tickets[k1].id == b.columns[c2].tickets[k2].id);
    }
    assert forall|c1: int, c2: int|
        0 <= c1 < nb.columns.len() && 0 <= c2 < nb.columns.len()
            && #[trigger] nb.columns[c1].id == #[trigger] nb.columns[c2].id implies c1 == c2 by {
        assert(nb.columns[c1].id == b.columns[c1].id);
        assert(nb.columns[c2].id == b.columns[c2].id);
    }
}

/// Replacing a ticket by one with the same id keeps every ticket where it was.
pub proof fn lemma_set_ticket_locate(b: BoardModel, c: int, k: int, t: TicketModel, id: Seq<char>)
    requires
        unique_ids(b),
        valid_pos(b, c, k),
        t.id == b.columns[c].tickets[k].id,
        has_ticket(b, id),
    ensures
        has_ticket(set_ticket(b, c, k, t), id),
        locate(set_ticket(b, c, k, t), id) == locate(b, id),
{
    let nb = set_ticket(b, c, k, t);
    lemma_set_ticket_same_id(b, c, k, t);
    let (c1, k1) = locate(b, id);
    assert(ticket_at(b, c1, k1, id));
    if c1 == c && k1 == k {
    } else {
        assert(nb.columns[c1].tickets[k1] == b.columns[c1].tickets[k1]);
    }
    lemma_locate(nb, c1, k1, id);
}

/// Merging ticket `src` into ticket `tgt` and then undoing with the snapshot that the
/// merge recorded succeeds, brings `src` back identical (id, text, author, votes,
/// time, place) and gives `tgt` its earlier text; the board differs from the one
/// before the merge only in that `tgt` keeps the votes it gained.
pub proof fn law_merge_then_undo(b: BoardModel, src: Seq<char>, tgt: Seq<char>)
    requires
        unique_ids(b),
        time_ordered(b),
        has_ticket(b, src),
        has_ticket(b, tgt),
        src != tgt,
    ensures
        ({
            let b1 = merged(b, src, tgt);
            let snap = snapshot_of(b, src, tgt);
            let b2 = unmerged(b1, snap);
            &&& has_column(b1, snap.source_column_id)
            &&& !has_ticket(b1, snap.source.id)
            &&& has_ticket(b2, src)
            &&& ticket_of(b2, src) == ticket_of(b, src)
            &&& has_ticket(b2, tgt)
            &&& ticket_of(b2, tgt).content == ticket_of(b, tgt).content
            &&& b2 == set_ticket(
                b,
                locate(b, tgt).0,
                locate(b, tgt).1,
                TicketModel { votes: ticket_of(b, tgt).votes.union(ticket_of(b, src).votes), ..ticket_of(b, tgt) },
            )
        }),
{
    let (cs, ks) = locate(b, src);
    let (ct, kt) = locate(b, tgt);
    assert(ticket_at(b, cs, ks, src));
    assert(ticket_at(b, ct, kt, tgt));
    let st = ticket_of(b, src);
    let tt = ticket_of(b, tgt);
    let b1 = merged(b, src, tgt);
    let snap = snapshot_of(b, src, tgt);
    let col = b.columns[cs].id;
    // the merged board keeps every column, with the same ids
    assert(b1.columns.len() == b.columns.len());
    assert forall|c: int| 0 <= c < b1.columns.len() implies #[trigger] b1.columns[c].id == b.columns[c].id by {}
    assert(b1.columns[cs].id == col);
    let ci = column_index(b1, col);
    assert(b.columns[ci].id == b.columns[cs].id);
    assert(ci == cs);
    // the source id is gone from the merged board
    assert forall|c: int, k: int| !ticket_at(b1, c, k, src) by {
        if valid_pos(b1, c, k) {
            let o = if c == cs && k >= ks { k + 1 } else { k };
            assert(b1.columns[c].tickets[k].id == b.columns[c].tickets[o].id);
            assert(valid_pos(b, c, o));
            if b1.columns[c].tickets[k].id == src {
                assert(b.columns[c].tickets[o].id == b.columns[cs].tickets[ks].id);
            }
        }
    }
    // the source's old place still fits the oldest-first order
    let ts = b.columns[cs].tickets;
    let ts1 = b1.columns[cs].tickets;
    assert(oldest_first(ts));
    if ks > 0 {
        assert(ts1[ks - 1].created_at == ts[ks - 1].created_at);
        assert(ts[ks - 1].created_at <= ts[ks].created_at);
    }
    if ks < ts1.len() {
        assert(ts1[ks].created_at == ts[ks + 1].created_at);
        assert(ts[ks].created_at <= ts[ks + 1].created_at);
    }
    assert(restore_position(b1, snap) == ks);
    let mt = merged_target(st, tt);
    let bi = inserted(b1, cs, ks, st);
    let bm = set_ticket(b, ct, kt, mt);
    assert(bi.columns[cs].tickets =~= bm.columns[cs].tickets);
    assert(bi.columns =~= bm.columns);
    assert(bi == bm);
    lemma_set_ticket_locate(b, ct, kt, mt, tgt);
    assert(has_ticket(bi, tgt));
    assert(locate(bi, tgt) == (ct, kt));
    let want = TicketModel { votes: tt.votes.union(st.votes), ..tt };
    let b2 = unmerged(b1, snap);
    assert(b2 == set_ticket(bi, ct, kt, want));
    assert(set_ticket(bi, ct, kt, want).columns[ct].tickets =~= set_ticket(b, ct, kt, want).columns[ct].tickets);
    assert(set_ticket(bi, ct, kt, want).columns =~= set_ticket(b, ct, kt, want).columns);
    lemma_set_ticket_locate(b, ct, kt, want, src);
    lemma_set_ticket_locate(b, ct, kt, want, tgt);
    assert(locate(b2, src) == (cs, ks));
    assert(locate(b2, tgt) == (ct, kt));
}

/// Line `index` can be split off ticket text `content`: the text has at least two
/// lines and `index` names one of them.
pub open spec fn split_valid(content: Seq<char>, index: int) -> bool {
    lines(content).len() >= 2 && 0 <= index < lines(content).len()
}

/// The board after line `index` of ticket `id` becomes a new ticket `t` at the end of
/// the same column, and the ticket keeps its other lines.
pub open spec fn split(b: BoardModel, id: Seq<char>, index: int, t: TicketModel) -> BoardModel {
    placed(
        edited(b, id, join_lines(lines(ticket_of(b, id).content).remove(index))),
        locate(b, id).0,
        TicketModel { content: lines(ticket_of(b, id).content)[index], ..t },
    )
}

/// Index of the first ticket in `ts` created after time `t` (the length when none is).
pub fn time_position(ts: &Vec<Ticket>, t: i64) -> (r: usize)
    ensures
        r == first_later(ts@.map_values(|x: Ticket| x@), t as int),
{
    let mut k: usize = 0;
    while k < ts.len() && ts[k].created_at <= t
        invariant
            k <= ts@.len(),
            forall|j: int| 0 <= j < k ==> (#[trigger] ts@[j]).created_at <= t,
        decreases ts@.len() - k,
    {
        k += 1;
    }
    proof {
        let m = ts@.map_values(|x: Ticket| x@);
        assert forall|j: int| 0 <= j < k implies (#[trigger] m[j]).created_at <= t by {
            assert(m[j] == ts@[j]@);
        }
        lemma_first_later_at(m, t as int, k as int);
    }
    k
}

/// Copies a vote list entry by entry.
pub fn copy_ids(v: &Vec<String>) -> (r: Vec<String>)
    ensures
        r@ == v@,
{
    let mut r: Vec<String> = Vec::new();
    let mut i: usize = 0;
    while i < v.len()
        invariant
            i <= v@.len(),
            r@ == v@.take(i as int),
        decreases v@.len() - i,
    {
        r.push(v[i].clone());
        i += 1;
        assert(r@ =~= v@.take(i as int));
    }
    assert(v@.take(v@.len() as int) =~= v@);
    r
}

/// Adds to `dst` each id of `src` that it does not hold yet.
pub fn union_ids(dst: &mut Vec<String>, src: &Vec<String>)
    requires
        no_dup_ids(old(dst)@),
    ensures
        no_dup_ids(final(dst)@),
        id_set(final(dst)@) == id_set(old(dst)@).union(id_set(src@)),
{
    let mut i: usize = 0;
    while i < src.len()
        invariant
            i <= src@.len(),
            no_dup_ids(dst@),
            id_set(dst@) == id_set(old(dst)@).union(id_set(src@.take(i as int))),
        decreases src@.len() - i,
    {
        let mut present = false;
        let mut j: usize = 0;
        while j < dst.len()
            invariant
                i < src@.len(),
                j <= dst@.len(),
                present <==> exists|m: int| 0 <= m < j && #[trigger] dst@[m]@ == src@[i as int]@,
            decreases dst@.len() - j,
        {
            if dst[j] == src[i] {
                present = true;
            }
            j += 1;
        }
        let ghost before = dst@;
        if !present {
            let s = src[i].clone();
            proof {
                lemma_id_set_push(before, s);
            }
            dst.push(s);
        }
        proof {
            let p = src@[i as int]@;
            assert(src@.take(i as int + 1) =~= src@.take(i as int).push(src@[i as int]));
            assert forall|q: Seq<char>| id_set(src@.take(i as int + 1)).contains(q) <==> id_set(src@.take(i as int)).insert(p).contains(q) by {
                let t1 = src@.take(i as int + 1);
                let t0 = src@.take(i as int);
                if id_set(t1).contains(q) {
                    let m = choose|m: int| 0 <= m < t1.len() && #[trigger] t1[m]@ == q;
                    if m < i {
                        assert(t0[m]@ == q);
                    }
                }
                if id_set(t0).contains(q) {
                    let m = choose|m: int| 0 <= m < t0.len() && #[trigger] t0[m]@ == q;
                    assert(t1[m]@ == q);
                }
                if q == p {
                    assert(t1[i as int]@ == q);
                }
            }
            assert(id_set(src@.take(i as int + 1)) =~= id_set(src@.take(i as int)).insert(p));
            if present {
                let m = choose|m: int| 0 <= m < before.len() && #[trigger] before[m]@ == p;
                assert(id_set(before).contains(p));
            }
            assert(id_set(dst@) =~= id_set(old(dst)@).union(id_set(src@.take(i as int + 1))));
        }
        i += 1;
    }
    assert(src@.take(src@.len() as int) =~= src@);
}

impl Ticket {
    /// Index of participant `p` in the vote list, if they voted.
    pub fn find_vote(&self, p: &String) -> (r: Option<usize>)
        ensures
            match r {
                Some(i) => i < self.votes@.len() && self.votes@[i as int]@ == p@ && self@.votes.contains(p@),
                None => !self@.votes.contains(p@),
            },
    {
        let mut i: usize = 0;
        while i < self.votes.len()
            invariant
                i <= self.votes@.len(),
                forall|j: int| 0 <= j < i ==> self.votes@[j]@ != p@,
            decreases self.votes@.len() - i,
        {
            if self.votes[i] == *p {
                assert(self.votes@[i as int]@ == p@);
                return Some(i);
            }
            i += 1;
        }
        None
    }
}

impl Board {
    /// Position of the ticket with id `id`, if the board holds one.
    pub fn find_ticket(&self, id: &String) -> (r: Option<(usize, usize)>)
        requires
            self.wf(),
        ensures
            match r {
                Some((c, k)) => ticket_at(self@, c as int, k as int, id@) && locate(self@, id@) == (
                c as int, k as int),
                None => !has_ticket(self@, id@),
            },
    {
        let mut c: usize = 0;
        while c < self.columns.len()
            invariant
                self.wf(),
                c <= self.columns@.len(),
                forall|c2: int, k2: int| 0 <= c2 < c && valid_pos(self@, c2, k2) ==> !ticket_at(self@, c2, k2, id@),
            decreases self.columns@.len() - c,
        {
            let col = &self.columns[c];
            let mut k: usize = 0;
            while k < col.tickets.len()
                invariant
                    self.wf(),
                    c < self.columns@.len(),
                    col == self.columns@[c as int],
                    k <= col.tickets@.len(),
                    forall|k2: int| 0 <= k2 < k ==> !ticket_at(self@, c as int, k2, id@),
                decreases col.tickets@.len() - k,
            {
                if col.tickets[k].id == *id {
                    proof {
                        lemma_locate(self@, c as int, k as int, id@);
                    }
                    return Some((c, k));
                }
                k += 1;
            }
            c += 1;
        }
        None
    }

    /// Index of the column with id `col`, if the board has one.
    pub fn find_column(&self, col: &String) -> (r: Option<usize>)
        requires
            self.wf(),
        ensures
            match r {
                Some(c) => c < self.columns@.len() && self.columns@[c as int].id@ == col@ && has_column(self@, col@)
                    && column_index(self@, col@) == c,
                None => !has_column(self@, col@),
            },
    {
        let mut c: usize = 0;
        while c < self.columns.len()
            invariant
                self.wf(),
                c <= self.columns@.len(),
                forall|c2: int| 0 <= c2 < c ==> self@.columns[c2].id != col@,
            decreases self.columns@.len() - c,
        {
            if self.columns[c].id == *col {
                proof {
                    lemma_column_index(self@, c as int, col@);
                }
                return Some(c);
            }
            c += 1;
        }
        None
    }

    /// The author id of ticket `id`; `None` when no such ticket exists.
    pub fn get_ticket_author(&self, id: &String) -> (r: Option<String>)
        requires
            self.wf(),
        ensures
            match r {
                Some(a) => has_ticket(self@, id@) && a@ == ticket_of(self@, id@).author_id,
                None => !has_ticket(self@, id@),
            },
    {
        match self.find_ticket(id) {
            Some((c, k)) => Some(self.columns[c].tickets[k].author_id.clone()),
            None => None,
        }
    }

    /// Replaces the content of ticket `id`; false, with no change, when there is no such ticket.
    pub fn edit_ticket(&mut self, id: &String, content: String) -> (r: bool)
        requires
            old(self).wf(),
        ensures
            final(self).wf(),
            r == has_ticket(old(self)@, id@),
            r ==> final(self)@ == edited(old(self)@, id@, content@),
            !r ==> final(self)@ == old(self)@,
    {
        match self.find_ticket(id) {
            Some((c, k)) => {
                self.columns[c].tickets[k].content = content;
                proof {
                    assert(self@.columns[c as int].tickets =~= edited(old(self)@, id@, content@).columns[c as int].tickets);
                    assert(self@.columns =~= edited(old(self)@, id@, content@).columns);
                }
                true
            },
            None => false,
        }
    }

    /// Whether participant `p` has voted on ticket `id` (false when there is no such ticket).
    pub fn has_vote(&self, id: &String, p: &String) -> (r: bool)
        requires
            self.wf(),
        ensures
            r == (has_ticket(self@, id@) && ticket_of(self@, id@).votes.contains(p@)),
    {
        match self.find_ticket(id) {
            Some((c, k)) => self.columns[c].tickets[k].find_vote(p).is_some(),
            None => false,
        }
    }

    /// Adds participant `p`'s vote to ticket `id` if absent, removes it if present;
    /// false, with no change, when there is no such ticket.
    pub fn toggle_vote(&mut self, id: &String, p: &String) -> (r: bool)
        requires
            old(self).wf(),
        ensures
            final(self).wf(),
            r == has_ticket(old(self)@, id@),
            r ==> final(self)@ == vote_toggled(old(self)@, id@, p@),
            !r ==> final(self)@ == old(self)@,
    {
        match self.find_ticket(id) {
            Some((c, k)) => {
                let ghost old_votes = self.columns@[c as int].tickets@[k as int].votes@;
                match self.columns[c].tickets[k].find_vote(p) {
                    Some(i) => {
                        self.columns[c].tickets[k].votes.remove(i);
                        proof {
                            lemma_id_set_remove(old_votes, i as int);
                        }
                    },
                    None => {
                        let pv = p.clone();
                        proof {
                            lemma_id_set_push(old_votes, pv);
                        }
                        self.columns[c].tickets[k].votes.push(pv);
                    },
                }
                proof {
                    let want = vote_toggled(old(self)@, id@, p@);
                    assert(self@.columns[c as int].tickets =~= want.columns[c as int].tickets);
                    assert(self@.columns =~= want.columns);
                    assert forall|c2: int, k2: int|
                        0 <= c2 < self.columns@.len() && 0 <= k2 < self.columns@[c2].tickets@.len()
                            implies (#[trigger] self.columns@[c2].tickets@[k2]).wf() by {
                        if c2 != c || k2 != k {
                            assert(self.columns@[c2].tickets@[k2] == old(self).columns@[c2].tickets@[k2]);
                        }
                    }
                }
                true
            },
            None => false,
        }
    }

    /// Deletes ticket `id`; false, with no change, when there is no such ticket.
    pub fn remove_ticket(&mut self, id: &String) -> (r: bool)
        requires
            old(self).wf(),
        ensures
            final(self).wf(),
            r == has_ticket(old(self)@, id@),
            r ==> final(self)@ == removed(old(self)@, id@),
            !r ==> final(self)@ == old(self)@,
    {
        match self.find_ticket(id) {
            Some((c, k)) => {
                self.columns[c].tickets.remove(k);
                proof {
                    let ob = old(self)@;
                    let want = removed(ob, id@);
                    assert(self@.columns[c as int].tickets =~= want.columns[c as int].tickets);
                    assert(self@.columns =~= want.columns);
                    let nb = self@;
                    assert forall|c1: int, k1: int, c2: int, k2: int|
                        valid_pos(nb, c1, k1) && valid_pos(nb, c2, k2)
                            && #[trigger] nb.columns[c1].tickets[k1].id == #[trigger] nb.columns[c2].tickets[k2].id
                            implies c1 == c2 && k1 == k2 by {
                        let o1 = if c1 == c && k1 >= k { k1 + 1 } else { k1 };
                        let o2 = if c2 == c && k2 >= k { k2 + 1 } else { k2 };
                        assert(nb.columns[c1].tickets[k1] == ob.columns[c1].tickets[o1]);
                        assert(nb.columns[c2].tickets[k2] == ob.columns[c2].tickets[o2]);
                        assert(valid_pos(ob, c1, o1) && valid_pos(ob, c2, o2));
                    }
                    assert forall|c1: int, c2: int|
                        0 <= c1 < nb.columns.len() && 0 <= c2 < nb.columns.len()
                            && #[trigger] nb.columns[c1].id == #[trigger] nb.columns[c2].id implies c1 == c2 by {
                        assert(nb.columns[c1].id == ob.columns[c1].id);
                        assert(nb.columns[c2].id == ob.columns[c2].id);
                    }
                    assert forall|c2: int, k2: int|
                        0 <= c2 < self.columns@.len() && 0 <= k2 < self.columns@[c2].tickets@.len()
                            implies (#[trigger] self.columns@[c2].tickets@[k2]).wf() by {
                        let o2 = if c2 == c && k2 >= k { k2 + 1 } else { k2 };
                        assert(self.columns@[c2].tickets@[k2] == old(self).columns@[c2].tickets@[o2]);
                    }
                }
                true
            },
            None => false,
        }
    }

    /// Appends a new ticket without votes to column `column_id`; false, with no change,
    /// when the board has no such column or already holds a ticket with id `id`.
    pub fn add_ticket(
        &mut self,
        id: String,
        column_id: &String,
        content: String,
        author_id: String,
        author_name: String,
        created_at: i64,
    ) -> (r: bool)
        requires
            old(self).wf(),
        ensures
            final(self).wf(),
            r == (has_column(old(self)@, column_id@) && !has_ticket(old(self)@, id@)),
            r ==> final(self)@ == placed(
                old(self)@,
                column_index(old(self)@, column_id@),
                new_ticket(id@, content@, author_id@, author_name@, created_at as int),
            ),
            !r ==> final(self)@ == old(self)@,
    {
        if self.find_ticket(&id).is_some() {
            return false;
        }
        match self.find_column(column_id) {
            Some(c) => {
                let t = Ticket { id, content, author_id, author_name, votes: Vec::new(), created_at };
                proof {
                    assert(t@.votes =~= Set::<Seq<char>>::empty());
                }
                let pos = time_position(&self.columns[c].tickets, created_at);
                proof {
                    lemma_first_later_fits(old(self)@.columns[c as int].tickets, created_at as int);
                }
                self.insert_fresh(c, pos, t);
                true
            },
            None => false,
        }
    }

    /// Folds ticket `source` into ticket `target`: the target's text gains a line break
    /// and the source's text, its votes gain the source's votes, and the source is
    /// deleted. Returns what an undo needs; `None`, with no change, unless both tickets
    /// exist and differ.
    pub fn merge_tickets(&mut self, source: &String, target: &String) -> (r: Option<MergeSnapshot>)
        requires
            old(self).wf(),
        ensures
            final(self).wf(),
            r is Some == (has_ticket(old(self)@, source@) && has_ticket(old(self)@, target@)
                && source@ != target@),
            r matches Some(snap) ==> final(self)@ == merged(old(self)@, source@, target@)
                && snap@ == snapshot_of(old(self)@, source@, target@) && snap.wf(),
            r is None ==> final(self)@ == old(self)@,
    {
        if *source == *target {
            return None;
        }
        let (cs, ks) = match self.find_ticket(source) {
            Some(p) => p,
            None => return None,
        };
        let (ct, kt) = match self.find_ticket(target) {
            Some(p) => p,
            None => return None,
        };
        let ghost ob = self@;
        let snap = {
            let st = &self.columns[cs].tickets[ks];
            MergeSnapshot {
                source_id: st.id.clone(),
                source_column_id: self.columns[cs].id.clone(),
                source_position: ks,
                source_content: st.content.clone(),
                source_author_id: st.author_id.clone(),
                source_author_name: st.author_name.clone(),
                source_created_at: st.created_at,
                source_votes: copy_ids(&st.votes),
                target_id: target.clone(),
                target_original_content: self.columns[ct].tickets[kt].content.clone(),
            }
        };
        proof {
            assert(snap@.source == ob.columns[cs as int].tickets[ks as int]);
            reveal_strlit("\n");
        }
        let new_content = self.columns[ct].tickets[kt].content.clone().concat("\n").concat(snap.source_content.as_str());
        let src_votes = copy_ids(&snap.source_votes);
        self.columns[ct].tickets[kt].content = new_content;
        union_ids(&mut self.columns[ct].tickets[kt].votes, &src_votes);
        let ghost b1 = self@;
        proof {
            let tt = ob.columns[ct as int].tickets[kt as int];
            let st = ob.columns[cs as int].tickets[ks as int];
            assert(ticket_of(ob, source@) == st);
            assert(ticket_of(ob, target@) == tt);
            assert(b1.columns[ct as int].tickets[kt as int].content == merged_content(tt.content, st.content));
            assert(b1.columns[ct as int].tickets[kt as int].votes == tt.votes.union(st.votes));
            assert(b1.columns[ct as int].tickets[kt as int] == merged_target(st, tt));
            let want1 = set_ticket(ob, ct as int, kt as int, merged_target(ticket_of(ob, source@), ticket_of(ob, target@)));
            assert(b1.columns[ct as int].tickets =~= want1.columns[ct as int].tickets);
            assert(b1.columns =~= want1.columns);
        }
        self.columns[cs].tickets.remove(ks);
        proof {
            let want = merged(ob, source@, target@);
            assert(self@.columns[cs as int].tickets =~= want.columns[cs as int].tickets);
            assert(self@.columns =~= want.columns);
            let nb = self@;
            assert forall|c1: int, k1: int, c2: int, k2: int|
                valid_pos(nb, c1, k1) && valid_pos(nb, c2, k2)
                    && #[trigger] nb.columns[c1].tickets[k1].id == #[trigger] nb.columns[c2].tickets[k2].id
                    implies c1 == c2 && k1 == k2 by {
                let o1 = if c1 == cs && k1 >= ks { k1 + 1 } else { k1 };
                let o2 = if c2 == cs && k2 >= ks { k2 + 1 } else { k2 };
                assert(nb.columns[c1].tickets[k1].id == ob.columns[c1].tickets[o1].id);
                assert(nb.columns[c2].tickets[k2].id == ob.columns[c2].tickets[o2].id);
                assert(valid_pos(ob, c1, o1) && valid_pos(ob, c2, o2));
            }
            assert forall|c1: int, c2: int|
                0 <= c1 < nb.columns.len() && 0 <= c2 < nb.columns.len()
                    && #[trigger] nb.columns[c1].id == #[trigger] nb.columns[c2].id implies c1 == c2 by {
                assert(nb.columns[c1].id == ob.columns[c1].id);
                assert(nb.columns[c2].id == ob.columns[c2].id);
            }
            assert forall|c2: int, k2: int|
                0 <= c2 < self.columns@.len() && 0 <= k2 < self.columns@[c2].tickets@.len()
                    implies (#[trigger] self.columns@[c2].tickets@[k2]).wf() by {
                let o2 = if c2 == cs && k2 >= ks { k2 + 1 } else { k2 };
                if c2 != ct || o2 != kt {
                    assert(self.columns@[c2].tickets@[k2] == old(self).columns@[c2].tickets@[o2]);
                }
            }
        }
        Some(snap)
    }

    /// Undoes the merge that `snap` recorded. False, with no change, when the source's
    /// column is gone or a ticket with the source's id exists again.
    pub fn undo_merge(&mut self, snap: &MergeSnapshot) -> (r: bool)
        requires
            old(self).wf(),
            snap.wf(),
        ensures
            final(self).wf(),
            r == (has_column(old(self)@, snap@.source_column_id) && !has_ticket(old(self)@, snap@.source.id)),
            r ==> final(self)@ == unmerged(old(self)@, snap@),
            !r ==> final(self)@ == old(self)@,
    {
        if self.find_ticket(&snap.source_id).is_some() {
            return false;
        }
        let c = match self.find_column(&snap.source_column_id) {
            Some(c) => c,
            None => return false,
        };
        let t = Ticket {
            id: snap.source_id.clone(),
            content: snap.source_content.clone(),
            author_id: snap.source_author_id.clone(),
            author_name: snap.source_author_name.clone(),
            votes: copy_ids(&snap.source_votes),
            created_at: snap.source_created_at,
        };
        let ts = &self.columns[c].tickets;
        let len = ts.len();
        let at = snap.source_created_at;
        let p = snap.source_position;
        let keep = p <= len && (p == 0 || ts[p - 1].created_at <= at) && (p == len || at <= ts[p].created_at);
        let pos = if keep { p } else { time_position(ts, at) };
        proof {
            lemma_first_later_fits(self@.columns[c as int].tickets, at as int);
        }
        self.insert_fresh(c, pos, t);
        self.edit_ticket(&snap.target_id, snap.target_original_content.clone());
        true
    }

    /// Moves line `index` of ticket `id` into a new ticket `new_id` (no votes, authored
    /// by `author_id`/`author_name`, created at `created_at`) at the end of the same
    /// column. False, with no change, unless the ticket exists, `index` is a valid
    /// split point of its text, and `new_id` is not in use.
    pub fn split_ticket(
        &mut self,
        id: &String,
        index: usize,
        new_id: String,
        author_id: String,
        author_name: String,
        created_at: i64,
    ) -> (r: bool)
        requires
            old(self).wf(),
        ensures
            final(self).wf(),
            r == (has_ticket(old(self)@, id@) && split_valid(ticket_of(old(self)@, id@).content, index as int)
                && !has_ticket(old(self)@, new_id@)),
            r ==> final(self)@ == split(
                old(self)@,
                id@,
                index as int,
                new_ticket(new_id@, Seq::empty(), author_id@, author_name@, created_at as int),
            ),
            !r ==> final(self)@ == old(self)@,
    {
        let (c, k) = match self.find_ticket(id) {
            Some(p) => p,
            None => return false,
        };
        if self.find_ticket(&new_id).is_some() {
            return false;
        }
        let n = line_count(&self.columns[c].tickets[k].content);
        if n < 2 || index >= n {
            return false;
        }
        let (rest, line) = split_off_line(&self.columns[c].tickets[k].content, index);
        let col_id = self.columns[c].id.clone();
        let ghost ob = self@;
        self.edit_ticket(id, rest);
        let ghost b1 = self@;
        proof {
            assert(b1.columns[c as int].id == ob.columns[c as int].id);
            lemma_column_index(b1, c as int, col_id@);
            assert forall|c2: int, k2: int| !ticket_at(b1, c2, k2, new_id@) by {
                if valid_pos(b1, c2, k2) && !(c2 == c && k2 == k) {
                    assert(b1.columns[c2].tickets[k2] == ob.columns[c2].tickets[k2]);
                    assert(!ticket_at(ob, c2, k2, new_id@));
                }
            }
        }
        let ok = self.add_ticket(new_id, &col_id, line, author_id, author_name, created_at);
        assert(ok);
        true
    }

    /// Number of tickets in column `column_id` that carry participant `p`'s vote
    /// (0 when the board has no such column).
    pub fn count_votes_in_column(&self, column_id: &String, p: &String) -> (r: usize)
        requires
            self.wf(),
        ensures
            has_column(self@, column_id@) ==> r == votes_in(self@.columns[column_index(self@, column_id@)].tickets, p@),
            !has_column(self@, column_id@) ==> r == 0,
    {
        match self.find_column(column_id) {
            Some(c) => self.votes_in_column_at(c, p),
            None => 0,
        }
    }

    /// Number of tickets in the column at index `c` that carry participant `p`'s vote.
    pub fn votes_in_column_at(&self, c: usize, p: &String) -> (r: usize)
        requires
            c < self.columns@.len(),
        ensures
            r == votes_in(self@.columns[c as int].tickets, p@),
    {
        let ts = &self.columns[c].tickets;
        let ghost all = self@.columns[c as int].tickets;
        let mut count: usize = 0;
        let mut k: usize = 0;
        while k < ts.len()
            invariant
                k <= ts@.len(),
                all == ts@.map_values(|t: Ticket| t@),
                count == votes_in(all.take(k as int), p@),
                count <= k,
            decreases ts@.len() - k,
        {
            proof {
                assert(all.take(k as int + 1).drop_last() =~= all.take(k as int));
            }
            if ts[k].find_vote(p).is_some() {
                count += 1;
            }
            k += 1;
        }
        assert(all.take(ts@.len() as int) =~= all);
        count
    }

    /// Id of the column that holds ticket `id`.
    pub fn get_ticket_column_id(&self, id: &String) -> (r: Option<String>)
        requires
            self.wf(),
        ensures
            match r {
                Some(col) => has_ticket(self@, id@) && col@ == self@.columns[locate(self@, id@).0].id,
                None => !has_ticket(self@, id@),
            },
    {
        match self.find_ticket(id) {
            Some((c, _k)) => Some(self.columns[c].id.clone()),
            None => None,
        }
    }

    /// Whether the board's tickets are blurred.
    pub fn get_blur_state(&self) -> (r: bool)
        ensures
            r == self.is_blurred,
    {
        self.is_blurred
    }

    /// Sets whether the board's tickets are blurred; nothing else changes.
    pub fn set_blur(&mut self, is_blurred: bool)
        ensures
            final(self)@ == (BoardModel { is_blurred, ..old(self)@ }),
            final(self).columns == old(self).columns,
    {
        self.is_blurred = is_blurred;
    }

    /// Whether the board has a column with id `column_id`.
    pub fn column_belongs_to_board(&self, column_id: &String) -> (r: bool)
        requires
            self.wf(),
        ensures
            r == has_column(self@, column_id@),
    {
        self.find_column(column_id).is_some()
    }

    /// Inserts ticket `t`, whose id is not in use, at position `pos` of column `c`,
    /// where it fits the oldest-first order.
    fn insert_fresh(&mut self, c: usize, pos: usize, t: Ticket)
        requires
            old(self).wf(),
            c < old(self).columns@.len(),
            t.wf(),
            !has_ticket(old(self)@, t@.id),
            fits(old(self)@.columns[c as int].tickets, pos as int, t.created_at as int),
        ensures
            final(self).wf(),
            final(self)@ == inserted(old(self)@, c as int, pos as int, t@),
    {
        let ghost tv = t@;
        let ghost ob = self@;
        self.columns[c].tickets.insert(pos, t);
        proof {
            let want = inserted(ob, c as int, pos as int, tv);
            assert(self@.columns[c as int].tickets =~= want.columns[c as int].tickets);
            assert(self@.columns =~= want.columns);
            let nb = self@;
            assert forall|c1: int, k1: int, c2: int, k2: int|
                valid_pos(nb, c1, k1) && valid_pos(nb, c2, k2)
                    && #[trigger] nb.columns[c1].tickets[k1].id == #[trigger] nb.columns[c2].tickets[k2].id
                    implies c1 == c2 && k1 == k2 by {
                let n1 = c1 == c && k1 == pos;
                let n2 = c2 == c && k2 == pos;
                let o1 = if c1 == c && k1 > pos { k1 - 1 } else { k1 };
                let o2 = if c2 == c && k2 > pos { k2 - 1 } else { k2 };
                if !n1 {
                    assert(nb.columns[c1].tickets[k1] == ob.columns[c1].tickets[o1]);
                    assert(valid_pos(ob, c1, o1));
                }
                if !n2 {
                    assert(nb.columns[c2].tickets[k2] == ob.columns[c2].tickets[o2]);
                    assert(valid_pos(ob, c2, o2));
                }
                if n1 && !n2 {
                    assert(!ticket_at(ob, c2, o2, tv.id));
                }
                if n2 && !n1 {
                    assert(!ticket_at(ob, c1, o1, tv.id));
                }
            }
            assert forall|c1: int, c2: int|
                0 <= c1 < nb.columns.len() && 0 <= c2 < nb.columns.len()
                    && #[trigger] nb.columns[c1].id == #[trigger] nb.columns[c2].id implies c1 == c2 by {
                assert(nb.columns[c1].id == ob.columns[c1].id);
                assert(nb.columns[c2].id == ob.columns[c2].id);
            }
            assert forall|c2: int, k2: int|
                0 <= c2 < self.columns@.len() && 0 <= k2 < self.columns@[c2].tickets@.len()
                    implies (#[trigger] self.columns@[c2].tickets@[k2]).wf() by {
                let o2 = if c2 == c && k2 > pos { k2 - 1 } else { k2 };
                if c2 != c || k2 != pos {
                    assert(self.columns@[c2].tickets@[k2] == old(self).columns@[c2].tickets@[o2]);
                }
            }
            lemma_insert_oldest_first(ob.columns[c as int].tickets, pos as int, tv);
            assert forall|c2: int| 0 <= c2 < nb.columns.len() implies oldest_first(#[trigger] nb.columns[c2].tickets) by {
                if c2 != c {
                    assert(nb.columns[c2] == ob.columns[c2]);
                }
            }
        }
    }
}

} // verus!
