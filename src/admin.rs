//! The administration surface: the admin-token check, counts over all boards, and
//! the rules for board templates.
use vstd::prelude::*;
use crate::error::AppError;
use crate::model::{Board, Column, Ticket, Template, MyBoardSummary};
use crate::state::AppState;
use crate::text::{blank, is_blank, chars_of, string_from_chars};

verus! {

/// Whether `h` parses as a PHC password-hash string.
pub uninterp spec fn phc_parses(h: Seq<char>) -> bool;

/// Whether Argon2 accepts password `token` against PHC hash string `hash`.
pub uninterp spec fn argon2_accepts(token: Seq<char>, hash: Seq<char>) -> bool;

/// Relies on `password_hash::PasswordHash::new`: whether the string parses as a PHC
/// hash; the answer depends on the string alone.
#[verifier::external_body]
fn hash_parses(hash: &String) -> (r: bool)
    ensures
        r == phc_parses(hash@),
{
    argon2::password_hash::PasswordHash::new(hash.as_str()).is_ok()
}

/// Relies on `argon2::Argon2::verify_password` with Argon2's default parameters, on the
/// parsed form of `hash`: whether `token` is the password hashed there; the answer
/// depends on the two strings alone.
#[verifier::external_body]
fn argon2_verifies(token: &String, hash: &String) -> (r: bool)
    requires
        phc_parses(hash@),
    ensures
        r == argon2_accepts(token@, hash@),
{
    match argon2::password_hash::PasswordHash::new(hash.as_str()) {
        Ok(parsed) => argon2::PasswordVerifier::verify_password(&argon2::Argon2::default(), token.as_bytes(), &parsed)
            .is_ok(),
        Err(_) => false,
    }
}

/// The scheme word that an `Authorization` header starts with.
pub open spec fn bearer() -> Seq<char> {
    seq!['B', 'e', 'a', 'r', 'e', 'r', ' ']
}

/// `h` starts with `"Bearer "`.
pub open spec fn has_bearer(h: Seq<char>) -> bool {
    h.len() >= 7 && h.take(7) == bearer()
}

/// The token after `"Bearer "` in an `Authorization` header, if it starts so.
pub fn bearer_token(header: &String) -> (r: Option<String>)
    ensures
        match r {
            Some(t) => has_bearer(header@) && t@ == header@.skip(7),
            None => !has_bearer(header@),
        },
{
    let cs = chars_of(header);
    let p: [char; 7] = ['B', 'e', 'a', 'r', 'e', 'r', ' '];
    if cs.len() < 7 {
        return None;
    }
    let mut i: usize = 0;
    while i < 7
        invariant
            cs@ == header@,
            cs@.len() >= 7,
            p@ == bearer(),
            i <= 7,
            forall|j: int| 0 <= j < i ==> cs@[j] == bearer()[j],
        decreases 7 - i,
    {
        if cs[i] != p[i] {
            proof {
                assert(header@.take(7)[i as int] != bearer()[i as int]);
            }
            return None;
        }
        i += 1;
    }
    assert(header@.take(7) =~= bearer());
    let mut rest: Vec<char> = Vec::new();
    let mut k: usize = 7;
    while k < cs.len()
        invariant
            cs@ == header@,
            7 <= k <= cs@.len(),
            rest@ == cs@.subrange(7, k as int),
        decreases cs@.len() - k,
    {
        rest.push(cs[k]);
        k += 1;
        assert(rest@ =~= cs@.subrange(7, k as int));
    }
    assert(rest@ =~= header@.skip(7));
    Some(string_from_chars(rest))
}

/// Proof that a request carries the admin token.
#[derive(Debug, Clone, Copy)]
pub struct AdminAuth;

impl AdminAuth {
    /// Checks the `Authorization` header `header` against the stored admin token hash
    /// `hash`: `NotFound` when administration is off (no hash), `Unauthorized` when the
    /// header is missing, not of the form `Bearer <token>`, or the token does not match,
    /// `Internal` when the stored hash does not parse.
    pub fn authorize(hash: &Option<String>, header: &Option<String>) -> (r: Result<AdminAuth, AppError>)
        ensures
            hash is None ==> (r matches Err(AppError::NotFound(m)) && m@ == "Admin interface not enabled"@),
            hash is Some && header is None ==> (r matches Err(AppError::Unauthorized(m)) && m@ == "Missing Authorization header"@),
            hash is Some && header is Some && !has_bearer(header->0@) ==> (r matches Err(AppError::Unauthorized(m)) && m@ == "Invalid Authorization format"@),
            hash is Some && header is Some && has_bearer(header->0@) ==> ({
                if !phc_parses(hash->0@) {
                    (r matches Err(AppError::Internal(m)) && m@ == "Invalid stored hash"@)
                } else if argon2_accepts(header->0@.skip(7), hash->0@) {
                    r is Ok
                } else {
                    (r matches Err(AppError::Unauthorized(m)) && m@ == "Invalid admin token"@)
                }
            }),
    {
        let hash = match hash {
            Some(h) => h,
            None => return Err(AppError::NotFound(String::from_str("Admin interface not enabled"))),
        };
        let header = match header {
            Some(h) => h,
            None => return Err(AppError::Unauthorized(String::from_str("Missing Authorization header"))),
        };
        let token = match bearer_token(header) {
            Some(t) => t,
            None => return Err(AppError::Unauthorized(String::from_str("Invalid Authorization format"))),
        };
        if !hash_parses(hash) {
            return Err(AppError::Internal(String::from_str("Invalid stored hash")));
        }
        if argon2_verifies(&token, hash) {
            Ok(AdminAuth)
        } else {
            Err(AppError::Unauthorized(String::from_str("Invalid admin token")))
        }
    }
}

/// Counts over every board.
#[derive(Debug, Clone)]
pub struct AdminStatsRow {
    pub board_count: i64,
    pub ticket_count: i64,
    pub vote_count: i64,
}

/// Counts over every board, and how many participants are connected in all.
#[derive(Debug, Clone)]
pub struct GlobalStats {
    pub board_count: i64,
    pub ticket_count: i64,
    pub vote_count: i64,
    pub online_participants: usize,
}

/// One board in the administrator's list.
#[derive(Debug, Clone)]
pub struct AdminBoardRow {
    pub id: String,
    pub title: String,
    pub is_blurred: bool,
    pub created_at: i64,
    pub column_count: i64,
    pub ticket_count: i64,
    pub vote_count: i64,
}

/// One board in the administrator's list, with its connected participants.
#[derive(Debug, Clone)]
pub struct AdminBoardSummary {
    pub id: String,
    pub title: String,
    pub is_blurred: bool,
    pub created_at: i64,
    pub column_count: i64,
    pub ticket_count: i64,
    pub vote_count: i64,
    pub online_participants: usize,
}

/// A column in the administrator's view of a board.
#[derive(Debug, Clone)]
pub struct AdminColumnDetail {
    pub id: String,
    pub name: String,
    pub ticket_count: usize,
}

/// The administrator's view of a board, secret token included.
#[derive(Debug, Clone)]
pub struct AdminBoardDetail {
    pub id: String,
    pub title: String,
    pub is_blurred: bool,
    pub created_at: i64,
    pub facilitator_token: String,
    pub columns: Vec<AdminColumnDetail>,
    pub online_participants: usize,
}

/// A request to add a template.
#[derive(Debug, Clone)]
pub struct CreateTemplateRequest {
    pub id: String,
    pub name: String,
    pub description: String,
    pub columns: Vec<String>,
    pub position: i32,
}

/// A request to change a template.
#[derive(Debug, Clone)]
pub struct UpdateTemplateRequest {
    pub name: String,
    pub description: String,
    pub columns: Vec<String>,
    pub position: i32,
}

/// `x` capped at `i64::MAX`.
pub open spec fn cap(x: int) -> int {
    if x <= i64::MAX { x } else { i64::MAX as int }
}

/// Number of tickets in the columns.
pub open spec fn tickets_in(cols: Seq<Column>) -> int
    decreases cols.len(),
{
    if cols.len() == 0 { 0 } else { tickets_in(cols.drop_last()) + cols.last().tickets@.len() }
}

/// Number of votes on the tickets.
pub open spec fn votes_on(ts: Seq<Ticket>) -> int
    decreases ts.len(),
{
    if ts.len() == 0 { 0 } else { votes_on(ts.drop_last()) + ts.last().votes@.len() }
}

/// Number of votes on the tickets of the columns.
pub open spec fn votes_in_columns(cols: Seq<Column>) -> int
    decreases cols.len(),
{
    if cols.len() == 0 { 0 } else { votes_in_columns(cols.drop_last()) + votes_on(cols.last().tickets@) }
}

/// Adds `n` to a count capped at `i64::MAX`.
fn add_capped(acc: i64, n: usize) -> (r: i64)
    requires
        acc >= 0,
    ensures
        r == cap(acc + n),
{
    if n as u64 >= i64::MAX as u64 || acc > i64::MAX - n as i64 {
        i64::MAX
    } else {
        acc + n as i64
    }
}

/// Ticket and vote counts are never negative.
proof fn lemma_counts_nonneg(cols: Seq<Column>)
    ensures
        tickets_in(cols) >= 0,
        votes_in_columns(cols) >= 0,
    decreases cols.len(),
{
    if cols.len() > 0 {
        lemma_counts_nonneg(cols.drop_last());
        lemma_votes_nonneg(cols.last().tickets@);
    }
}

/// Vote counts are never negative.
proof fn lemma_votes_nonneg(ts: Seq<Ticket>)
    ensures
        votes_on(ts) >= 0,
    decreases ts.len(),
{
    if ts.len() > 0 {
        lemma_votes_nonneg(ts.drop_last());
    }
}

impl Board {
    /// Number of tickets on the board, capped at `i64::MAX`.
    pub fn ticket_count(&self) -> (r: i64)
        ensures
            r == cap(tickets_in(self.columns@)),
    {
        let mut acc: i64 = 0;
        let mut c: usize = 0;
        while c < self.columns.len()
            invariant
                c <= self.columns@.len(),
                acc == cap(tickets_in(self.columns@.take(c as int))),
            decreases self.columns@.len() - c,
        {
            proof {
                assert(self.columns@.take(c as int + 1).drop_last() =~= self.columns@.take(c as int));
                lemma_counts_nonneg(self.columns@.take(c as int));
            }
            acc = add_capped(acc, self.columns[c].tickets.len());
            c += 1;
        }
        assert(self.columns@.take(self.columns@.len() as int) =~= self.columns@);
        acc
    }

    /// Number of votes on the board, capped at `i64::MAX`.
    pub fn vote_count(&self) -> (r: i64)
        ensures
            r == cap(votes_in_columns(self.columns@)),
    {
        let mut acc: i64 = 0;
        let mut c: usize = 0;
        while c < self.columns.len()
            invariant
                c <= self.columns@.len(),
                acc == cap(votes_in_columns(self.columns@.take(c as int))),
            decreases self.columns@.len() - c,
        {
            let ts = &self.columns[c].tickets;
            let ghost before = votes_in_columns(self.columns@.take(c as int));
            let mut k: usize = 0;
            proof {
                lemma_counts_nonneg(self.columns@.take(c as int));
                assert(ts@.take(0) =~= Seq::<Ticket>::empty());
            }
            while k < ts.len()
                invariant
                    k <= ts@.len(),
                    before >= 0,
                    acc == cap(before + votes_on(ts@.take(k as int))),
                decreases ts@.len() - k,
            {
                proof {
                    assert(ts@.take(k as int + 1).drop_last() =~= ts@.take(k as int));
                    lemma_votes_nonneg(ts@.take(k as int));
                }
                acc = add_capped(acc, ts[k].votes.len());
                k += 1;
            }
            proof {
                assert(ts@.take(ts@.len() as int) =~= ts@);
                assert(self.columns@.take(c as int + 1).drop_last() =~= self.columns@.take(c as int));
            }
            c += 1;
        }
        assert(self.columns@.take(self.columns@.len() as int) =~= self.columns@);
        acc
    }
}

/// `x` capped at `usize::MAX`.
pub open spec fn cap_usize(x: int) -> int {
    if x <= usize::MAX { x } else { usize::MAX as int }
}

/// Number of tickets over the boards.
pub open spec fn tickets_over(es: Seq<(String, Board)>) -> int
    decreases es.len(),
{
    if es.len() == 0 { 0 } else { tickets_over(es.drop_last()) + tickets_in(es.last().1.columns@) }
}

/// Number of votes over the boards.
pub open spec fn votes_over(es: Seq<(String, Board)>) -> int
    decreases es.len(),
{
    if es.len() == 0 { 0 } else { votes_over(es.drop_last()) + votes_in_columns(es.last().1.columns@) }
}

/// Number of participants over the registry's lists.
pub open spec fn online_over(es: Seq<(String, Vec<crate::model::Participant>)>) -> int
    decreases es.len(),
{
    if es.len() == 0 { 0 } else { online_over(es.drop_last()) + es.last().1@.len() }
}

/// Totals over boards are never negative.
proof fn lemma_over_nonneg(es: Seq<(String, Board)>)
    ensures
        tickets_over(es) >= 0,
        votes_over(es) >= 0,
    decreases es.len(),
{
    if es.len() > 0 {
        lemma_over_nonneg(es.drop_last());
        lemma_counts_nonneg(es.last().1.columns@);
    }
}

/// The participant total is never negative.
proof fn lemma_online_nonneg(es: Seq<(String, Vec<crate::model::Participant>)>)
    ensures
        online_over(es) >= 0,
    decreases es.len(),
{
    if es.len() > 0 {
        lemma_online_nonneg(es.drop_last());
    }
}

/// Adds a capped count to a capped count.
fn add_capped_i64(acc: i64, n: i64) -> (r: i64)
    requires
        acc >= 0,
        n >= 0,
    ensures
        r == cap(acc + n),
{
    if acc > i64::MAX - n {
        i64::MAX
    } else {
        acc + n
    }
}

/// `row` describes board `b`.
pub open spec fn row_of(row: AdminBoardRow, b: Board) -> bool {
    &&& row.id@ == b.id@
    &&& row.title@ == b.title@
    &&& row.is_blurred == b.is_blurred
    &&& row.created_at == b.created_at
    &&& row.column_count == cap(b.columns@.len() as int)
    &&& row.ticket_count == cap(tickets_in(b.columns@))
    &&& row.vote_count == cap(votes_in_columns(b.columns@))
}

/// `s` summarises board `b` for its facilitator.
pub open spec fn summary_of(s: MyBoardSummary, b: Board) -> bool {
    &&& s.id@ == b.id@
    &&& s.title@ == b.title@
    &&& s.created_at == b.created_at
    &&& s.column_count == cap(b.columns@.len() as int)
    &&& s.ticket_count == cap(tickets_in(b.columns@))
    &&& s.is_anonymous == b.is_anonymous
}

/// The boards of `es` whose facilitator identity is `fid`, in stored order.
pub open spec fn owned_by(es: Seq<(String, Board)>, fid: Seq<char>) -> Seq<Board>
    decreases es.len(),
{
    if es.len() == 0 {
        Seq::empty()
    } else if es.last().1.facilitator_id matches Some(f) && f@ == fid {
        owned_by(es.drop_last(), fid).push(es.last().1)
    } else {
        owned_by(es.drop_last(), fid)
    }
}

/// Index of the first board in `bs` created no later than time `t` (the length when
/// none is).
pub open spec fn first_not_newer(bs: Seq<Board>, t: int) -> int
    decreases bs.len(),
{
    if bs.len() == 0 {
        0
    } else if bs[0].created_at <= t {
        0
    } else {
        1 + first_not_newer(bs.drop_first(), t)
    }
}

/// `bs` ordered by creation time, newest first; of two boards created at the same
/// time, the one stored later comes first.
pub open spec fn newest_first(bs: Seq<Board>) -> Seq<Board>
    decreases bs.len(),
{
    if bs.len() == 0 {
        Seq::empty()
    } else {
        let r = newest_first(bs.drop_last());
        r.insert(first_not_newer(r, bs.last().created_at as int), bs.last())
    }
}

/// Boards listed newest first.
pub open spec fn newest_to_oldest(bs: Seq<Board>) -> bool {
    forall|i: int, j: int| 0 <= i < j < bs.len() ==> #[trigger] bs[i].created_at >= #[trigger] bs[j].created_at
}

/// `k` is the index of the first board created no later than `t`.
proof fn lemma_first_not_newer_at(bs: Seq<Board>, t: int, k: int)
    requires
        0 <= k <= bs.len(),
        forall|j: int| 0 <= j < k ==> (#[trigger] bs[j]).created_at > t,
        k < bs.len() ==> bs[k].created_at <= t,
    ensures
        first_not_newer(bs, t) == k,
    decreases k,
{
    if bs.len() > 0 && k > 0 {
        let rest = bs.drop_first();
        assert forall|j: int| 0 <= j < k - 1 implies (#[trigger] rest[j]).created_at > t by {
            assert(rest[j] == bs[j + 1]);
        }
        lemma_first_not_newer_at(rest, t, k - 1);
    }
}

/// Where `first_not_newer` points, everything before is newer and the rest is not.
proof fn lemma_first_not_newer_props(bs: Seq<Board>, t: int)
    ensures
        0 <= first_not_newer(bs, t) <= bs.len(),
        forall|j: int| 0 <= j < first_not_newer(bs, t) ==> (#[trigger] bs[j]).created_at > t,
        first_not_newer(bs, t) < bs.len() ==> bs[first_not_newer(bs, t)].created_at <= t,
    decreases bs.len(),
{
    if bs.len() > 0 && bs[0].created_at > t {
        let rest = bs.drop_first();
        lemma_first_not_newer_props(rest, t);
        assert forall|j: int| 0 <= j < first_not_newer(bs, t) implies (#[trigger] bs[j]).created_at > t by {
            if j > 0 {
                assert(bs[j] == rest[j - 1]);
            }
        }
        let f = first_not_newer(bs, t);
        if f < bs.len() {
            assert(bs[f] == rest[f - 1]);
        }
    }
}

/// `newest_first` lists exactly the boards it is given (as a multiset), newest first.
pub proof fn lemma_newest_first(bs: Seq<Board>)
    ensures
        newest_first(bs).to_multiset() == bs.to_multiset(),
        newest_to_oldest(newest_first(bs)),
        newest_first(bs).len() == bs.len(),
    decreases bs.len(),
{
    broadcast use vstd::seq_lib::to_multiset_insert, vstd::seq_lib::to_multiset_build;
    if bs.len() == 0 {
        assert(newest_first(bs) =~= bs);
    } else {
        let p = bs.drop_last();
        lemma_newest_first(p);
        let r = newest_first(p);
        let x = bs.last();
        let t = x.created_at as int;
        lemma_first_not_newer_props(r, t);
        let k = first_not_newer(r, t);
        assert(p.push(x) =~= bs);
        let u = r.insert(k, x);
        assert forall|i: int, j: int| 0 <= i < j < u.len() implies #[trigger] u[i].created_at >= #[trigger] u[j].created_at by {
            if i < k && j < k {
                assert(u[i] == r[i] && u[j] == r[j]);
            } else if i < k && j == k {
                assert(u[i] == r[i]);
            } else if i < k {
                assert(u[i] == r[i] && u[j] == r[j - 1]);
            } else if i == k {
                assert(u[j] == r[j - 1]);
                assert(r[k].created_at >= r[j - 1].created_at);
            } else {
                assert(u[i] == r[i - 1] && u[j] == r[j - 1]);
            }
        }
    }
}

/// Template request fields that make it refused: a blank name, or no columns.
pub open spec fn template_refused(name: Seq<char>, columns: Seq<String>) -> bool {
    blank(name) || columns.len() == 0
}

impl Board {
    /// The administrator's line for this board.
    pub fn admin_row(&self) -> (r: AdminBoardRow)
        ensures
            row_of(r, *self),
    {
        AdminBoardRow {
            id: self.id.clone(),
            title: self.title.clone(),
            is_blurred: self.is_blurred,
            created_at: self.created_at,
            column_count: add_capped(0, self.columns.len()),
            ticket_count: self.ticket_count(),
            vote_count: self.vote_count(),
        }
    }

    /// The facilitator's line for this board.
    pub fn summary(&self) -> (r: MyBoardSummary)
        ensures
            summary_of(r, *self),
    {
        MyBoardSummary {
            id: self.id.clone(),
            title: self.title.clone(),
            created_at: self.created_at,
            column_count: add_capped(0, self.columns.len()),
            ticket_count: self.ticket_count(),
            is_anonymous: self.is_anonymous,
        }
    }
}

impl AppState {
    /// Counts over every board, each capped at `i64::MAX`.
    pub fn admin_global_stats(&self) -> (r: AdminStatsRow)
        ensures
            r.board_count == cap(self.boards.entries@.len() as int),
            r.ticket_count == cap(tickets_over(self.boards.entries@)),
            r.vote_count == cap(votes_over(self.boards.entries@)),
    {
        let es = &self.boards.entries;
        let mut tickets: i64 = 0;
        let mut votes: i64 = 0;
        let mut i: usize = 0;
        while i < es.len()
            invariant
                i <= es@.len(),
                tickets == cap(tickets_over(es@.take(i as int))),
                votes == cap(votes_over(es@.take(i as int))),
            decreases es@.len() - i,
        {
            proof {
                assert(es@.take(i as int + 1).drop_last() =~= es@.take(i as int));
                lemma_over_nonneg(es@.take(i as int));
                lemma_counts_nonneg(es@[i as int].1.columns@);
            }
            tickets = add_capped_i64(tickets, es[i].1.ticket_count());
            votes = add_capped_i64(votes, es[i].1.vote_count());
            i += 1;
        }
        assert(es@.take(es@.len() as int) =~= es@);
        AdminStatsRow { board_count: add_capped(0, es.len()), ticket_count: tickets, vote_count: votes }
    }

    /// Counts over every board, and the number of connected participants over all
    /// boards (capped at `usize::MAX`).
    pub fn global_stats(&self) -> (r: GlobalStats)
        ensures
            r.board_count == cap(self.boards.entries@.len() as int),
            r.ticket_count == cap(tickets_over(self.boards.entries@)),
            r.vote_count == cap(votes_over(self.boards.entries@)),
            r.online_participants == cap_usize(online_over(self.participants.entries@)),
    {
        let stats = self.admin_global_stats();
        let es = &self.participants.entries;
        let mut online: usize = 0;
        let mut i: usize = 0;
        while i < es.len()
            invariant
                i <= es@.len(),
                online == cap_usize(online_over(es@.take(i as int))),
            decreases es@.len() - i,
        {
            proof {
                assert(es@.take(i as int + 1).drop_last() =~= es@.take(i as int));
                lemma_online_nonneg(es@.take(i as int));
            }
            let n = es[i].1.len();
            online = if online > usize::MAX - n { usize::MAX } else { online + n };
            i += 1;
        }
        assert(es@.take(es@.len() as int) =~= es@);
        GlobalStats {
            board_count: stats.board_count,
            ticket_count: stats.ticket_count,
            vote_count: stats.vote_count,
            online_participants: online,
        }
    }

    /// One line per board, the most recently created (last stored) first.
    pub fn admin_list_boards(&self) -> (r: Vec<AdminBoardRow>)
        ensures
            r@.len() == self.boards.entries@.len(),
            forall|j: int| 0 <= j < r@.len() ==> row_of(#[trigger] r@[j], self.boards.entries@[r@.len() - 1 - j].1),
    {
        let es = &self.boards.entries;
        let n = es.len();
        let mut r: Vec<AdminBoardRow> = Vec::new();
        let mut i: usize = n;
        while i > 0
            invariant
                n == es@.len(),
                i <= n,
                r@.len() == n - i,
                forall|j: int| 0 <= j < r@.len() ==> row_of(#[trigger] r@[j], es@[n - 1 - j].1),
            decreases i,
        {
            i -= 1;
            r.push(es[i].1.admin_row());
        }
        r
    }

    /// One line per board with its connected participants, the most recently created
    /// first.
    pub fn list_boards(&self) -> (r: Vec<AdminBoardSummary>)
        requires
            self.wf(),
        ensures
            r@.len() == self.boards.entries@.len(),
            forall|j: int| 0 <= j < r@.len() ==> ({
                let b = self.boards.entries@[r@.len() - 1 - j].1;
                let s = #[trigger] r@[j];
                &&& row_of(
                    AdminBoardRow {
                        id: s.id,
                        title: s.title,
                        is_blurred: s.is_blurred,
                        created_at: s.created_at,
                        column_count: s.column_count,
                        ticket_count: s.ticket_count,
                        vote_count: s.vote_count,
                    },
                    b,
                )
                &&& s.online_participants == self.participants_of(b.id@).len()
            }),
    {
        let rows = self.admin_list_boards();
        let n = rows.len();
        let mut r: Vec<AdminBoardSummary> = Vec::new();
        let mut j: usize = 0;
        while j < n
            invariant
                self.wf(),
                n == rows@.len(),
                n == self.boards.entries@.len(),
                j <= n,
                r@.len() == j,
                forall|a: int| 0 <= a < n ==> row_of(#[trigger] rows@[a], self.boards.entries@[n - 1 - a].1),
                forall|a: int| 0 <= a < j ==> ({
                    let b = self.boards.entries@[n - 1 - a].1;
                    let s = #[trigger] r@[a];
                    &&& row_of(
                        AdminBoardRow {
                            id: s.id,
                            title: s.title,
                            is_blurred: s.is_blurred,
                            created_at: s.created_at,
                            column_count: s.column_count,
                            ticket_count: s.ticket_count,
                            vote_count: s.vote_count,
                        },
                        b,
                    )
                    &&& s.online_participants == self.participants_of(b.id@).len()
                }),
            decreases n - j,
        {
            let row = &rows[j];
            let online = self.participant_count(&row.id);
            r.push(AdminBoardSummary {
                id: row.id.clone(),
                title: row.title.clone(),
                is_blurred: row.is_blurred,
                created_at: row.created_at,
                column_count: row.column_count,
                ticket_count: row.ticket_count,
                vote_count: row.vote_count,
                online_participants: online,
            });
            j += 1;
        }
        r
    }

    /// The administrator's view of board `board_id`; `NotFound` when there is none.
    pub fn get_board_detail(&self, board_id: &String) -> (r: Result<AdminBoardDetail, AppError>)
        requires
            self.wf(),
        ensures
            !self.boards@.contains_key(board_id@) ==> (r matches Err(AppError::NotFound(m)) && m@ == "Board not found"@),
            self.boards@.contains_key(board_id@) ==> (r matches Ok(d) && ({
                let b = self.boards@[board_id@];
                &&& d.id@ == b.id@
                &&& d.title@ == b.title@
                &&& d.is_blurred == b.is_blurred
                &&& d.created_at == b.created_at
                &&& d.facilitator_token@ == b.facilitator_token@
                &&& d.online_participants == self.participants_of(board_id@).len()
                &&& d.columns@.len() == b.columns@.len()
                &&& forall|c: int| 0 <= c < d.columns@.len() ==> (#[trigger] d.columns@[c]).id@ == b.columns@[c].id@
                    && d.columns@[c].name@ == b.columns@[c].name@
                    && d.columns@[c].ticket_count == b.columns@[c].tickets@.len()
            })),
    {
        let b = match self.boards.get(board_id) {
            Some(b) => b,
            None => return Err(AppError::NotFound(String::from_str("Board not found"))),
        };
        let mut columns: Vec<AdminColumnDetail> = Vec::new();
        let mut c: usize = 0;
        while c < b.columns.len()
            invariant
                c <= b.columns@.len(),
                columns@.len() == c,
                forall|a: int| 0 <= a < c ==> (#[trigger] columns@[a]).id@ == b.columns@[a].id@
                    && columns@[a].name@ == b.columns@[a].name@
                    && columns@[a].ticket_count == b.columns@[a].tickets@.len(),
            decreases b.columns@.len() - c,
        {
            columns.push(AdminColumnDetail {
                id: b.columns[c].id.clone(),
                name: b.columns[c].name.clone(),
                ticket_count: b.columns[c].tickets.len(),
            });
            c += 1;
        }
        Ok(AdminBoardDetail {
            id: b.id.clone(),
            title: b.title.clone(),
            is_blurred: b.is_blurred,
            created_at: b.created_at,
            facilitator_token: b.facilitator_token.clone(),
            columns,
            online_participants: self.participant_count(board_id),
        })
    }

    /// The boards whose facilitator identity is `facilitator_id`, newest first by
    /// creation time: exactly those boards, each once.
    pub fn get_boards_by_facilitator_id(&self, facilitator_id: &String) -> (r: Vec<MyBoardSummary>)
        ensures
            r@.len() == owned_by(self.boards.entries@, facilitator_id@).len(),
            forall|j: int| 0 <= j < r@.len() ==> summary_of(
                #[trigger] r@[j],
                newest_first(owned_by(self.boards.entries@, facilitator_id@))[j],
            ),
            newest_first(owned_by(self.boards.entries@, facilitator_id@)).to_multiset() == owned_by(
                self.boards.entries@,
                facilitator_id@,
            ).to_multiset(),
            forall|i: int, j: int| 0 <= i < j < r@.len() ==> #[trigger] r@[i].created_at >= #[trigger] r@[j].created_at,
    {
        let es = &self.boards.entries;
        let n = es.len();
        let ghost fid = facilitator_id@;
        let mut r: Vec<MyBoardSummary> = Vec::new();
        let mut i: usize = 0;
        proof {
            assert(es@.take(0) =~= Seq::<(String, Board)>::empty());
        }
        while i < n
            invariant
                n == es@.len(),
                i <= n,
                fid == facilitator_id@,
                r@.len() == newest_first(owned_by(es@.take(i as int), fid)).len(),
                forall|j: int| 0 <= j < r@.len() ==> summary_of(
                    #[trigger] r@[j],
                    newest_first(owned_by(es@.take(i as int), fid))[j],
                ),
            decreases n - i,
        {
            let ghost prev = owned_by(es@.take(i as int), fid);
            let ghost nf = newest_first(prev);
            proof {
                assert(es@.take(i as int + 1).drop_last() =~= es@.take(i as int));
                lemma_newest_first(prev);
            }
            let owned = match &es[i].1.facilitator_id {
                Some(f) => *f == *facilitator_id,
                None => false,
            };
            if owned {
                let s = es[i].1.summary();
                let mut k: usize = 0;
                while k < r.len() && r[k].created_at > s.created_at
                    invariant
                        k <= r@.len(),
                        r@.len() == nf.len(),
                        forall|j: int| 0 <= j < r@.len() ==> summary_of(#[trigger] r@[j], nf[j]),
                        forall|j: int| 0 <= j < k ==> (#[trigger] nf[j]).created_at > s.created_at,
                    decreases r@.len() - k,
                {
                    proof {
                        assert(summary_of(r@[k as int], nf[k as int]));
                    }
                    k += 1;
                }
                proof {
                    if k < r@.len() {
                        assert(summary_of(r@[k as int], nf[k as int]));
                    }
                    lemma_first_not_newer_at(nf, s.created_at as int, k as int);
                }
                let ghost before = r@;
                r.insert(k, s);
                proof {
                    let b = es@[i as int].1;
                    let nf2 = newest_first(owned_by(es@.take(i as int + 1), fid));
                    assert(owned_by(es@.take(i as int + 1), fid) =~= prev.push(b));
                    assert(prev.push(b).drop_last() =~= prev);
                    assert(nf2 == nf.insert(k as int, b));
                    assert forall|j: int| 0 <= j < r@.len() implies summary_of(#[trigger] r@[j], nf2[j]) by {
                        if j < k {
                            assert(r@[j] == before[j]);
                        } else if j > k {
                            assert(r@[j] == before[j - 1]);
                        }
                    }
                }
            } else {
                proof {
                    assert(owned_by(es@.take(i as int + 1), fid) == prev);
                }
            }
            i += 1;
        }
        proof {
            assert(es@.take(n as int) =~= es@);
            let all = owned_by(es@, fid);
            lemma_newest_first(all);
            let nf = newest_first(all);
            assert forall|a: int, b: int| 0 <= a < b < r@.len() implies #[trigger] r@[a].created_at >= #[trigger] r@[b].created_at by {
                assert(summary_of(r@[a], nf[a]));
                assert(summary_of(r@[b], nf[b]));
            }
        }
        r
    }

    /// The boards of the facilitator identity `identity`; none without an identity.
    pub fn my_boards(&self, identity: &Option<String>) -> (r: Vec<MyBoardSummary>)
        ensures
            identity is None ==> r@.len() == 0,
            identity matches Some(fid) ==> r@.len() == owned_by(self.boards.entries@, fid@).len()
                && forall|j: int| 0 <= j < r@.len() ==> summary_of(
                #[trigger] r@[j],
                newest_first(owned_by(self.boards.entries@, fid@))[j],
            ),
    {
        match identity {
            Some(fid) => self.get_boards_by_facilitator_id(fid),
            None => Vec::new(),
        }
    }

    /// The stored templates with their positions, in the order they were first stored.
    pub fn list_templates(&self) -> (r: Vec<Template>)
        ensures
            r@.len() == self.templates.entries@.len(),
            forall|j: int| 0 <= j < r@.len() ==> (#[trigger] r@[j]).id@ == self.templates.entries@[j].0@
                && r@[j].name@ == self.templates.entries@[j].1.0.name@
                && r@[j].description@ == self.templates.entries@[j].1.0.description@
                && r@[j].columns@ == self.templates.entries@[j].1.0.columns@,
    {
        let es = &self.templates.entries;
        let mut r: Vec<Template> = Vec::new();
        let mut i: usize = 0;
        while i < es.len()
            invariant
                i <= es@.len(),
                r@.len() == i,
                forall|j: int| 0 <= j < i ==> (#[trigger] r@[j]).id@ == es@[j].0@ && r@[j].name@ == es@[j].1.0.name@
                    && r@[j].description@ == es@[j].1.0.description@ && r@[j].columns@ == es@[j].1.0.columns@,
            decreases es@.len() - i,
        {
            let t = &es[i].1.0;
            r.push(Template {
                id: es[i].0.clone(),
                name: t.name.clone(),
                description: t.description.clone(),
                columns: crate::model::copy_strings(&t.columns),
            });
            i += 1;
        }
        r
    }

    /// Stores a new template. A blank id or name, or no columns, is a `BadRequest`; an
    /// id already in use an `Internal` error; then nothing changes.
    pub fn create_template(&mut self, req: CreateTemplateRequest) -> (r: Result<(), AppError>)
        requires
            old(self).wf(),
        ensures
            final(self).wf(),
            blank(req.id@) || blank(req.name@) ==> (r matches Err(AppError::BadRequest(m)) && m@ == "ID and name are required"@),
            !blank(req.id@) && !blank(req.name@) && req.columns@.len() == 0 ==> (r matches Err(AppError::BadRequest(m)) && m@ == "At least one column is required"@),
            !blank(req.id@) && !template_refused(req.name@, req.columns@) && old(self).templates@.contains_key(req.id@)
                ==> (r matches Err(AppError::Internal(m)) && m@ == "Internal server error"@),
            r is Ok == (!blank(req.id@) && !template_refused(req.name@, req.columns@)
                && !old(self).templates@.contains_key(req.id@)),
            r is Err ==> *final(self) == *old(self),
            r is Ok ==> final(self).templates@.contains_key(req.id@) && ({
                let (t, pos) = final(self).templates@[req.id@];
                &&& t.id@ == req.id@
                &&& t.name@ == req.name@
                &&& t.description@ == req.description@
                &&& t.columns@ == req.columns@
                &&& pos == req.position
                &&& final(self).templates@.remove(req.id@) == old(self).templates@
            }),
    {
        if is_blank(&req.id) || is_blank(&req.name) {
            return Err(AppError::BadRequest(String::from_str("ID and name are required")));
        }
        if req.columns.len() == 0 {
            return Err(AppError::BadRequest(String::from_str("At least one column is required")));
        }
        if self.templates.index_of(&req.id).is_some() {
            return Err(AppError::Internal(String::from_str("Internal server error")));
        }
        let key = req.id.clone();
        let t = Template { id: req.id, name: req.name, description: req.description, columns: req.columns };
        self.templates.insert(key, (t, req.position));
        proof {
            assert(self.templates@.remove(req.id@) =~= old(self).templates@);
        }
        Ok(())
    }

    /// Replaces template `template_id`'s name, description, columns and position. A
    /// blank name or no columns is a `BadRequest`, an unknown id `NotFound`; then nothing
    /// changes.
    pub fn update_template(&mut self, template_id: &String, req: UpdateTemplateRequest) -> (r: Result<
        (),
        AppError,
    >)
        requires
            old(self).wf(),
        ensures
            final(self).wf(),
            blank(req.name@) ==> (r matches Err(AppError::BadRequest(m)) && m@ == "Name is required"@),
            !blank(req.name@) && req.columns@.len() == 0 ==> (r matches Err(AppError::BadRequest(m)) && m@ == "At least one column is required"@),
            !template_refused(req.name@, req.columns@) && !old(self).templates@.contains_key(template_id@)
                ==> (r matches Err(AppError::NotFound(m)) && m@ == "Template not found"@),
            r is Ok == (!template_refused(req.name@, req.columns@) && old(self).templates@.contains_key(template_id@)),
            r is Err ==> *final(self) == *old(self),
            r is Ok ==> final(self).templates@.contains_key(template_id@) && ({
                let (t, pos) = final(self).templates@[template_id@];
                &&& t.id@ == template_id@
                &&& t.name@ == req.name@
                &&& t.description@ == req.description@
                &&& t.columns@ == req.columns@
                &&& pos == req.position
                &&& final(self).templates@.remove(template_id@) == old(self).templates@.remove(template_id@)
            }),
    {
        if is_blank(&req.name) {
            return Err(AppError::BadRequest(String::from_str("Name is required")));
        }
        if req.columns.len() == 0 {
            return Err(AppError::BadRequest(String::from_str("At least one column is required")));
        }
        if self.templates.index_of(template_id).is_none() {
            return Err(AppError::NotFound(String::from_str("Template not found")));
        }
        let t = Template { id: template_id.clone(), name: req.name, description: req.description, columns: req.columns };
        self.templates.insert(template_id.clone(), (t, req.position));
        proof {
            assert(self.templates@.remove(template_id@) =~= old(self).templates@.remove(template_id@));
        }
        Ok(())
    }

    /// Deletes template `template_id`; `NotFound`, with no change, when there is none.
    pub fn delete_template(&mut self, template_id: &String) -> (r: Result<(), AppError>)
        requires
            old(self).wf(),
        ensures
            final(self).wf(),
            r is Ok == old(self).templates@.contains_key(template_id@),
            r is Err ==> ((r matches Err(AppError::NotFound(m)) && m@ == "Template not found"@) && *final(self) == *old(self)),
            final(self).templates@ == old(self).templates@.remove(template_id@),
    {
        match self.templates.remove(template_id) {
            Some(_) => Ok(()),
            None => Err(AppError::NotFound(String::from_str("Template not found"))),
        }
    }
}

} // verus!
