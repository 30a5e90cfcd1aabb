//! The per-connection rules: who a joining participant is, and what each command
//! does to a board and to its pending merge snapshot.
use vstd::prelude::*;
use crate::model::{
    BoardModel, Board, has_ticket, has_column, column_index, ticket_of, locate, opt_int32,
    unique_ids,
};
use crate::board::{
    MergeSnapshot, SnapshotModel, placed, new_ticket, removed, edited, vote_toggled, merged,
    snapshot_of, unmerged, split, split_valid, votes_in, lemma_column_index,
};
use crate::board::{
    first_later, lemma_first_later_fits, lemma_votes_in_insert, law_merge_then_undo, set_ticket, toggled,
    inserted, restore_position, merged_target, lemma_set_ticket_locate, lemma_votes_in_update,
};
use crate::model::{TicketModel, valid_pos, ticket_at, time_ordered};
use crate::protocol::ClientMessage;

verus! {

/// What a connection is bound to once its join has succeeded.
#[derive(Debug, Clone)]
pub struct Connection {
    pub board_id: String,
    pub participant_id: String,
    pub participant_name: String,
    pub is_facilitator: bool,
}

/// An optional snapshot as its abstract value.
pub open spec fn snap_view(o: Option<MergeSnapshot>) -> Option<SnapshotModel> {
    match o {
        Some(s) => Some(s@),
        None => None,
    }
}

/// A present snapshot is well formed.
pub open spec fn snap_wf(o: Option<MergeSnapshot>) -> bool {
    match o {
        Some(s) => s.wf(),
        None => true,
    }
}

/// Participant `who` may edit ticket `id`: it exists and they wrote it.
pub open spec fn may_edit(b: BoardModel, id: Seq<char>, who: Seq<char>) -> bool {
    has_ticket(b, id) && ticket_of(b, id).author_id == who
}

/// Participant `who` may remove (or split) ticket `id`: it exists and they wrote it
/// or facilitate the board.
pub open spec fn may_remove(b: BoardModel, id: Seq<char>, who: Seq<char>, fac: bool) -> bool {
    has_ticket(b, id) && (ticket_of(b, id).author_id == who || fac)
}

/// Participant `who` may toggle their vote on ticket `id`: it exists, and either the
/// toggle takes a vote back, or the board has no per-column limit, or `who` holds
/// fewer votes than the limit in the ticket's column.
pub open spec fn vote_allowed(b: BoardModel, id: Seq<char>, who: Seq<char>) -> bool {
    has_ticket(b, id) && (ticket_of(b, id).votes.contains(who) || match b.vote_limit_per_column {
        None => true,
        Some(l) => votes_in(b.columns[locate(b, id).0].tickets, who) < l,
    })
}

/// The author name that new tickets of participant `name` get on board `b`: empty on
/// an anonymous board.
pub open spec fn shown_name(b: BoardModel, name: Seq<char>) -> Seq<char> {
    if b.is_anonymous { Seq::empty() } else { name }
}

/// Whether a timer length in seconds is accepted.
pub open spec fn valid_duration(d: int) -> bool {
    1 <= d <= 3600
}

/// The effect of command `msg` from participant `who` (display name `name`,
/// facilitator if `fac`) on board `b` with pending snapshot `last`: the new board,
/// the new pending snapshot, and whether anything changed. `fresh` is the id a new
/// ticket gets, `now` the current time in milliseconds.
pub open spec fn step(
    b: BoardModel,
    last: Option<SnapshotModel>,
    who: Seq<char>,
    name: Seq<char>,
    fac: bool,
    msg: ClientMessage,
    fresh: Seq<char>,
    now: int,
) -> (BoardModel, Option<SnapshotModel>, bool) {
    match msg {
        ClientMessage::Join { .. } => (b, last, false),
        ClientMessage::AddTicket { column_id, content } => {
            if has_column(b, column_id@) && !has_ticket(b, fresh) {
                (
                    placed(b, column_index(b, column_id@), new_ticket(fresh, content@, who, shown_name(b, name), now)),
                    last,
                    true,
                )
            } else {
                (b, last, false)
            }
        },
        ClientMessage::RemoveTicket { ticket_id } => {
            if may_remove(b, ticket_id@, who, fac) {
                (removed(b, ticket_id@), last, true)
            } else {
                (b, last, false)
            }
        },
        ClientMessage::EditTicket { ticket_id, content } => {
            if may_edit(b, ticket_id@, who) {
                (edited(b, ticket_id@, content@), last, true)
            } else {
                (b, last, false)
            }
        },
        ClientMessage::ToggleVote { ticket_id } => {
            if vote_allowed(b, ticket_id@, who) {
                (vote_toggled(b, ticket_id@, who), last, true)
            } else {
                (b, last, false)
            }
        },
        ClientMessage::ToggleBlur => {
            if fac {
                (BoardModel { is_blurred: !b.is_blurred, ..b }, last, true)
            } else {
                (b, last, false)
            }
        },
        ClientMessage::ToggleHideVotes => {
            if fac {
                (BoardModel { hide_votes: !b.hide_votes, ..b }, last, true)
            } else {
                (b, last, false)
            }
        },
        ClientMessage::MergeTickets { source_ticket_id, target_ticket_id } => {
            if has_ticket(b, source_ticket_id@) && has_ticket(b, target_ticket_id@)
                && source_ticket_id@ != target_ticket_id@ {
                (
                    merged(b, source_ticket_id@, target_ticket_id@),
                    Some(snapshot_of(b, source_ticket_id@, target_ticket_id@)),
                    true,
                )
            } else {
                (b, last, false)
            }
        },
        ClientMessage::UndoMerge => {
            match last {
                Some(s) => {
                    if has_column(b, s.source_column_id) && !has_ticket(b, s.source.id) {
                        (unmerged(b, s), None, true)
                    } else {
                        (b, None, false)
                    }
                },
                None => (b, None, false),
            }
        },
        ClientMessage::SplitTicket { ticket_id, segment_index } => {
            if may_remove(b, ticket_id@, who, fac) && split_valid(
                ticket_of(b, ticket_id@).content,
                segment_index as int,
            ) && !has_ticket(b, fresh) {
                (
                    split(b, ticket_id@, segment_index as int, new_ticket(fresh, Seq::empty(), who, shown_name(b, name), now)),
                    last,
                    true,
                )
            } else {
                (b, last, false)
            }
        },
        ClientMessage::SetVoteLimit { limit } => {
            if fac && match limit {
                Some(l) => l >= 1,
                None => true,
            } {
                (BoardModel { vote_limit_per_column: opt_int32(limit), ..b }, last, true)
            } else {
                (b, last, false)
            }
        },
        ClientMessage::StartTimer { duration_secs } => {
            if fac && valid_duration(duration_secs as int) && now + duration_secs * 1000 <= i64::MAX {
                (BoardModel { timer_end: Some(now + duration_secs * 1000), ..b }, last, true)
            } else {
                (b, last, false)
            }
        },
        ClientMessage::StopTimer => {
            if fac {
                (BoardModel { timer_end: None, ..b }, last, true)
            } else {
                (b, last, false)
            }
        },
    }
}

/// The author name for a new ticket by `conn` on `board`.
fn author_name(board: &Board, conn: &Connection) -> (r: String)
    ensures
        r@ == shown_name(board@, conn.participant_name@),
{
    if board.is_anonymous {
        String::new()
    } else {
        conn.participant_name.clone()
    }
}

/// Applies command `msg` from connection `conn` to `board` and its pending merge
/// snapshot `last`; returns whether the board changed (and so must be broadcast).
/// A new ticket gets id `fresh_id` and time `now`.
pub fn handle_message(
    board: &mut Board,
    last: &mut Option<MergeSnapshot>,
    conn: &Connection,
    msg: ClientMessage,
    fresh_id: String,
    now: i64,
) -> (r: bool)
    requires
        old(board).wf(),
        snap_wf(*old(last)),
    ensures
        final(board).wf(),
        snap_wf(*final(last)),
        (final(board)@, snap_view(*final(last)), r) == step(
            old(board)@,
            snap_view(*old(last)),
            conn.participant_id@,
            conn.participant_name@,
            conn.is_facilitator,
            msg,
            fresh_id@,
            now as int,
        ),
{
    let who = &conn.participant_id;
    let fac = conn.is_facilitator;
    match msg {
        ClientMessage::Join { .. } => false,
        ClientMessage::AddTicket { column_id, content } => {
            if !board.column_belongs_to_board(&column_id) {
                return false;
            }
            let name = author_name(board, conn);
            board.add_ticket(fresh_id, &column_id, content, who.clone(), name, now)
        },
        ClientMessage::RemoveTicket { ticket_id } => {
            match board.get_ticket_author(&ticket_id) {
                Some(author) => {
                    if author == *who || fac {
                        board.remove_ticket(&ticket_id)
                    } else {
                        false
                    }
                },
                None => false,
            }
        },
        ClientMessage::EditTicket { ticket_id, content } => {
            match board.get_ticket_author(&ticket_id) {
                Some(author) => {
                    if author == *who {
                        board.edit_ticket(&ticket_id, content)
                    } else {
                        false
                    }
                },
                None => false,
            }
        },
        ClientMessage::ToggleVote { ticket_id } => {
            let already = board.has_vote(&ticket_id, who);
            if !already {
                match board.vote_limit_per_column {
                    Some(limit) => {
                        let col = match board.get_ticket_column_id(&ticket_id) {
                            Some(c) => c,
                            None => return false,
                        };
                        let count = board.count_votes_in_column(&col, who);
                        proof {
                            let (c, k) = locate(old(board)@, ticket_id@);
                            lemma_column_index(old(board)@, c, col@);
                        }
                        if limit <= 0 || count >= limit as usize {
                            return false;
                        }
                    },
                    None => {},
                }
            }
            board.toggle_vote(&ticket_id, who)
        },
        ClientMessage::ToggleBlur => {
            if !fac {
                return false;
            }
            let current = board.get_blur_state();
            board.set_blur(!current);
            true
        },
        ClientMessage::ToggleHideVotes => {
            if !fac {
                return false;
            }
            board.hide_votes = !board.hide_votes;
            true
        },
        ClientMessage::MergeTickets { source_ticket_id, target_ticket_id } => {
            match board.merge_tickets(&source_ticket_id, &target_ticket_id) {
                Some(snap) => {
                    *last = Some(snap);
                    true
                },
                None => false,
            }
        },
        ClientMessage::UndoMerge => {
            let taken = last.take();
            match taken {
                Some(snap) => board.undo_merge(&snap),
                None => false,
            }
        },
        ClientMessage::SplitTicket { ticket_id, segment_index } => {
            match board.get_ticket_author(&ticket_id) {
                Some(author) => {
                    if author == *who || fac {
                        let name = author_name(board, conn);
                        board.split_ticket(&ticket_id, segment_index, fresh_id, who.clone(), name, now)
                    } else {
                        false
                    }
                },
                None => false,
            }
        },
        ClientMessage::SetVoteLimit { limit } => {
            if !fac {
                return false;
            }
            match limit {
                Some(l) => {
                    if l < 1 {
                        return false;
                    }
                },
                None => {},
            }
            board.vote_limit_per_column = limit;
            true
        },
        ClientMessage::StartTimer { duration_secs } => {
            if !fac {
                return false;
            }
            if duration_secs < 1 || duration_secs > 3600 {
                return false;
            }
            match now.checked_add(duration_secs * 1000) {
                Some(end) => {
                    board.timer_end = Some(end);
                    true
                },
                None => false,
            }
        },
        ClientMessage::StopTimer => {
            if !fac {
                return false;
            }
            board.timer_end = None;
            true
        },
    }
}


/// Whether a joining participant facilitates the board: the token they supplied equals
/// the board's token, or their long-lived identity equals the board's facilitator
/// identity. Either proof alone suffices.
pub fn is_facilitator(
    supplied_token: &Option<String>,
    board_token: &String,
    identity: &Option<String>,
    board_facilitator_id: &Option<String>,
) -> (r: bool)
    ensures
        r == (facilitator_by_token(*supplied_token, board_token@) || facilitator_by_identity(
            *identity,
            *board_facilitator_id,
        )),
{
    let by_token = match supplied_token {
        Some(t) => *t == *board_token,
        None => false,
    };
    let by_identity = match (identity, board_facilitator_id) {
        (Some(a), Some(b)) => *a == *b,
        _ => false,
    };
    by_token || by_identity
}

/// The supplied token equals the board's token.
pub open spec fn facilitator_by_token(supplied: Option<String>, board_token: Seq<char>) -> bool {
    supplied matches Some(t) && t@ == board_token
}

/// The requester's long-lived identity equals the board's facilitator identity.
pub open spec fn facilitator_by_identity(identity: Option<String>, board_id: Option<String>) -> bool {
    identity matches Some(a) && board_id matches Some(b) && a@ == b@
}

/// The participant id a join resolves to: the one the client supplied if non-empty,
/// else `fresh`.
pub fn resolve_participant_id(supplied: Option<String>, fresh: String) -> (r: String)
    ensures
        r@ == (if supplied matches Some(s) && s@.len() > 0 { supplied->0@ } else { fresh@ }),
{
    match supplied {
        Some(s) => {
            if !s.as_str().is_empty() {
                s
            } else {
                fresh
            }
        },
        None => fresh,
    }
}

/// The name a participant is known by: on an anonymous board, always empty.
pub fn effective_name(anonymous: bool, name: String) -> (r: String)
    ensures
        r@ == (if anonymous { Seq::<char>::empty() } else { name@ }),
{
    if anonymous {
        String::new()
    } else {
        name
    }
}

/// No command ever changes a board's facilitator token or facilitator identity.
pub proof fn law_facilitator_token_fixed(
    b: BoardModel,
    last: Option<SnapshotModel>,
    who: Seq<char>,
    name: Seq<char>,
    fac: bool,
    msg: ClientMessage,
    fresh: Seq<char>,
    now: int,
)
    ensures
        step(b, last, who, name, fac, msg, fresh, now).0.facilitator_token == b.facilitator_token,
        step(b, last, who, name, fac, msg, fresh, now).0.facilitator_id == b.facilitator_id,
{
}

/// Only a ticket's author can edit it; removing it succeeds exactly for its author and
/// for a facilitator, and is a no-op for anyone else.
pub proof fn law_edit_remove_rights(
    b: BoardModel,
    last: Option<SnapshotModel>,
    who: Seq<char>,
    name: Seq<char>,
    fac: bool,
    ticket_id: String,
    content: String,
    fresh: Seq<char>,
    now: int,
)
    ensures
        ({
            let e = step(b, last, who, name, fac, ClientMessage::EditTicket { ticket_id, content }, fresh, now);
            &&& e.2 == (has_ticket(b, ticket_id@) && ticket_of(b, ticket_id@).author_id == who)
            &&& !e.2 ==> e.0 == b && e.1 == last
        }),
        ({
            let d = step(b, last, who, name, fac, ClientMessage::RemoveTicket { ticket_id }, fresh, now);
            &&& d.2 == (has_ticket(b, ticket_id@) && (ticket_of(b, ticket_id@).author_id == who || fac))
            &&& !d.2 ==> d.0 == b && d.1 == last
        }),
{
}

/// With no vote limit, a vote toggled twice by the same participant on the same ticket
/// restores the board: so vote, unvote, vote leaves exactly the state after the first
/// vote, and each of the three toggles succeeds.
pub proof fn law_toggle_vote_twice(
    b: BoardModel,
    last: Option<SnapshotModel>,
    who: Seq<char>,
    name: Seq<char>,
    fac: bool,
    ticket_id: String,
    fresh: Seq<char>,
    now: int,
)
    requires
        unique_ids(b),
        has_ticket(b, ticket_id@),
        b.vote_limit_per_column is None,
    ensures
        ({
            let msg = ClientMessage::ToggleVote { ticket_id };
            let s1 = step(b, last, who, name, fac, msg, fresh, now);
            let s2 = step(s1.0, s1.1, who, name, fac, msg, fresh, now);
            let s3 = step(s2.0, s2.1, who, name, fac, msg, fresh, now);
            &&& s1.2 && s2.2 && s3.2
            &&& s2.0 == b
            &&& s3.0 == s1.0
            &&& has_ticket(s3.0, ticket_id@)
            &&& ticket_of(s3.0, ticket_id@).votes == ticket_of(s1.0, ticket_id@).votes
        }),
{
    let id = ticket_id@;
    let (c, k) = locate(b, id);
    assert(ticket_at(b, c, k, id));
    let t = ticket_of(b, id);
    let t1 = toggled(t, who);
    let b1 = set_ticket(b, c, k, t1);
    lemma_set_ticket_locate(b, c, k, t1, id);
    crate::board::lemma_set_ticket_same_id(b, c, k, t1);
    assert(ticket_of(b1, id) == t1);
    let t2 = toggled(t1, who);
    assert(t2.votes =~= t.votes);
    assert(t2 == t);
    let b2 = set_ticket(b1, c, k, t2);
    assert(b2.columns[c].tickets =~= b.columns[c].tickets);
    assert(b2.columns =~= b.columns);
    assert(b2 == b);
}

/// Every ticket's author name is empty.
pub open spec fn names_hidden(b: BoardModel) -> bool {
    forall|c: int, k: int| valid_pos(b, c, k) ==> (#[trigger] b.columns[c].tickets[k]).author_name == Seq::<char>::empty()
}


/// Under a per-column vote limit `l`, no command lifts any participant's vote count in
/// any column above `l`: a vote is only added below the limit, and the other commands
/// add no votes. Merging and undoing a merge move votes between tickets, and setting the
/// limit changes `l`; those three are left out.
pub proof fn law_vote_limit_kept(
    b: BoardModel,
    last: Option<SnapshotModel>,
    who: Seq<char>,
    name: Seq<char>,
    fac: bool,
    msg: ClientMessage,
    fresh: Seq<char>,
    now: int,
    l: int,
    q: Seq<char>,
)
    requires
        unique_ids(b),
        b.vote_limit_per_column == Some(l),
        forall|c: int| 0 <= c < b.columns.len() ==> votes_in(#[trigger] b.columns[c].tickets, q) <= l,
        !(msg is MergeTickets),
        !(msg is UndoMerge),
        !(msg is SetVoteLimit),
    ensures
        ({
            let b2 = step(b, last, who, name, fac, msg, fresh, now).0;
            &&& b2.vote_limit_per_column == Some(l)
            &&& forall|c: int| 0 <= c < b2.columns.len() ==> votes_in(#[trigger] b2.columns[c].tickets, q) <= l
        }),
{
    match msg {
        ClientMessage::AddTicket { column_id, content } => {
            if has_column(b, column_id@) && !has_ticket(b, fresh) {
                lemma_placed_votes(
                    b,
                    column_index(b, column_id@),
                    new_ticket(fresh, content@, who, shown_name(b, name), now),
                    q,
                    l,
                );
            }
        },
        ClientMessage::RemoveTicket { ticket_id } => {
            if may_remove(b, ticket_id@, who, fac) {
                let (c, k) = locate(b, ticket_id@);
                assert(ticket_at(b, c, k, ticket_id@));
                let b2 = removed(b, ticket_id@);
                assert forall|c2: int| 0 <= c2 < b2.columns.len() implies votes_in(#[trigger] b2.columns[c2].tickets, q) <= l by {
                    if c2 == c {
                        lemma_votes_in_remove(b.columns[c].tickets, k, q);
                    } else {
                        assert(b2.columns[c2] == b.columns[c2]);
                    }
                }
            }
        },
        ClientMessage::EditTicket { ticket_id, content } => {
            if may_edit(b, ticket_id@, who) {
                lemma_same_votes(b, ticket_id@, TicketModel { content: content@, ..ticket_of(b, ticket_id@) }, q, l);
            }
        },
        ClientMessage::ToggleVote { ticket_id } => {
            let id = ticket_id@;
            if vote_allowed(b, id, who) {
                let (c, k) = locate(b, id);
                assert(ticket_at(b, c, k, id));
                let t = ticket_of(b, id);
                let t1 = toggled(t, who);
                let b2 = set_ticket(b, c, k, t1);
                lemma_votes_in_update(b.columns[c].tickets, k, t1, q);
                assert(b2.columns[c].tickets == b.columns[c].tickets.update(k, t1));
                assert forall|c2: int| 0 <= c2 < b2.columns.len() implies votes_in(#[trigger] b2.columns[c2].tickets, q) <= l by {
                    if c2 != c {
                        assert(b2.columns[c2] == b.columns[c2]);
                    } else {
                        assert(votes_in(b.columns[c2].tickets, q) <= l);
                        if q == who {
                            if t.votes.contains(who) {
                                assert(!t1.votes.contains(q));
                            } else {
                                assert(t1.votes.contains(q));
                            }
                        } else {
                            assert(t1.votes.contains(q) == t.votes.contains(q));
                        }
                    }
                }
            }
        },
        ClientMessage::SplitTicket { ticket_id, segment_index } => {
            let id = ticket_id@;
            if may_remove(b, id, who, fac) && split_valid(ticket_of(b, id).content, segment_index as int)
                && !has_ticket(b, fresh) {
                let (c, k) = locate(b, id);
                assert(ticket_at(b, c, k, id));
                let rest = crate::text::join_lines(crate::text::lines(ticket_of(b, id).content).remove(segment_index as int));
                lemma_same_votes(b, id, TicketModel { content: rest, ..ticket_of(b, id) }, q, l);
                let b1 = edited(b, id, rest);
                let nt = new_ticket(fresh, Seq::empty(), who, shown_name(b, name), now);
                lemma_placed_votes(b1, c, TicketModel { content: crate::text::lines(ticket_of(b, id).content)[segment_index as int], ..nt }, q, l);
            }
        },
        _ => {},
    }
}

/// Removing a ticket never raises a participant's count.
proof fn lemma_votes_in_remove(ts: Seq<TicketModel>, k: int, q: Seq<char>)
    requires
        0 <= k < ts.len(),
    ensures
        votes_in(ts.remove(k), q) <= votes_in(ts, q),
    decreases ts.len(),
{
    if k == ts.len() - 1 {
        assert(ts.remove(k) =~= ts.drop_last());
    } else {
        assert(ts.remove(k).drop_last() =~= ts.drop_last().remove(k));
        lemma_votes_in_remove(ts.drop_last(), k, q);
    }
}

/// Replacing ticket `id` by one with the same votes keeps every count.
proof fn lemma_same_votes(b: BoardModel, id: Seq<char>, t: TicketModel, q: Seq<char>, l: int)
    requires
        has_ticket(b, id),
        t.votes == ticket_of(b, id).votes,
        forall|c: int| 0 <= c < b.columns.len() ==> votes_in(#[trigger] b.columns[c].tickets, q) <= l,
    ensures
        ({
            let b2 = set_ticket(b, locate(b, id).0, locate(b, id).1, t);
            forall|c: int| 0 <= c < b2.columns.len() ==> votes_in(#[trigger] b2.columns[c].tickets, q) <= l
        }),
{
    let (c, k) = locate(b, id);
    assert(ticket_at(b, c, k, id));
    let b2 = set_ticket(b, c, k, t);
    lemma_votes_in_update(b.columns[c].tickets, k, t, q);
    assert forall|c2: int| 0 <= c2 < b2.columns.len() implies votes_in(#[trigger] b2.columns[c2].tickets, q) <= l by {
        if c2 != c {
            assert(b2.columns[c2] == b.columns[c2]);
        } else {
            assert(b2.columns[c].tickets == b.columns[c].tickets.update(k, t));
        }
    }
}

/// Placing a ticket without votes keeps every count.
proof fn lemma_placed_votes(b: BoardModel, ci: int, t: TicketModel, q: Seq<char>, l: int)
    requires
        0 <= ci < b.columns.len(),
        t.votes == Set::<Seq<char>>::empty(),
        forall|c: int| 0 <= c < b.columns.len() ==> votes_in(#[trigger] b.columns[c].tickets, q) <= l,
    ensures
        ({
            let b2 = placed(b, ci, t);
            forall|c: int| 0 <= c < b2.columns.len() ==> votes_in(#[trigger] b2.columns[c].tickets, q) <= l
        }),
{
    let b2 = placed(b, ci, t);
    let ts = b.columns[ci].tickets;
    lemma_first_later_fits(ts, t.created_at);
    lemma_votes_in_insert(ts, first_later(ts, t.created_at), t, q);
    assert forall|c2: int| 0 <= c2 < b2.columns.len() implies votes_in(#[trigger] b2.columns[c2].tickets, q) <= l by {
        if c2 != ci {
            assert(b2.columns[c2] == b.columns[c2]);
        }
    }
}

/// A merge command that succeeds, followed at once by an undo command, gives back the
/// merged-away ticket identical (id, text, author, votes, time) and the target's
/// earlier text, whoever sends the two commands; the undo succeeds and consumes the
/// snapshot.
pub proof fn law_merge_undo_commands(
    b: BoardModel,
    last: Option<SnapshotModel>,
    who: Seq<char>,
    name: Seq<char>,
    fac: bool,
    who2: Seq<char>,
    name2: Seq<char>,
    fac2: bool,
    source: String,
    target: String,
    fresh: Seq<char>,
    now: int,
)
    requires
        unique_ids(b),
        time_ordered(b),
    ensures
        ({
            let s1 = step(b, last, who, name, fac, ClientMessage::MergeTickets { source_ticket_id: source, target_ticket_id: target }, fresh, now);
            let s2 = step(s1.0, s1.1, who2, name2, fac2, ClientMessage::UndoMerge, fresh, now);
            s1.2 ==> {
                &&& s2.2
                &&& s2.1 is None
                &&& has_ticket(s2.0, source@)
                &&& ticket_of(s2.0, source@) == ticket_of(b, source@)
                &&& has_ticket(s2.0, target@)
                &&& ticket_of(s2.0, target@).content == ticket_of(b, target@).content
            }
        }),
{
    if has_ticket(b, source@) && has_ticket(b, target@) && source@ != target@ {
        law_merge_then_undo(b, source@, target@);
    }
}

/// A second merge before any undo replaces the pending snapshot, so the first merge
/// can no longer be undone: the next undo reverts only the second merge and consumes
/// its snapshot, and an undo after that changes nothing.
pub proof fn law_second_merge_supersedes(
    b: BoardModel,
    last: Option<SnapshotModel>,
    who: Seq<char>,
    name: Seq<char>,
    fac: bool,
    first: ClientMessage,
    source2: String,
    target2: String,
    fresh: Seq<char>,
    now: int,
)
    requires
        first is MergeTickets,
    ensures
        ({
            let s1 = step(b, last, who, name, fac, first, fresh, now);
            let s2 = step(s1.0, s1.1, who, name, fac, ClientMessage::MergeTickets { source_ticket_id: source2, target_ticket_id: target2 }, fresh, now);
            let s3 = step(s2.0, s2.1, who, name, fac, ClientMessage::UndoMerge, fresh, now);
            let s4 = step(s3.0, s3.1, who, name, fac, ClientMessage::UndoMerge, fresh, now);
            let snap2 = snapshot_of(s1.0, source2@, target2@);
            &&& s2.2 ==> s2.1 == Some(snap2)
            &&& s2.2 ==> s3.0 == (if has_column(s2.0, snap2.source_column_id) && !has_ticket(s2.0, snap2.source.id) {
                unmerged(s2.0, snap2)
            } else {
                s2.0
            })
            &&& s3.1 is None
            &&& s4 == (s3.0, None::<SnapshotModel>, false)
        }),
{
}

/// On an anonymous board where no ticket shows an author name and the pending snapshot
/// shows none either, every command, whatever name its sender gave, keeps every author
/// name empty, in the board and in the snapshot, and the board stays anonymous.
pub proof fn law_names_stay_hidden(
    b: BoardModel,
    last: Option<SnapshotModel>,
    who: Seq<char>,
    name: Seq<char>,
    fac: bool,
    msg: ClientMessage,
    fresh: Seq<char>,
    now: int,
)
    requires
        unique_ids(b),
        b.is_anonymous,
        names_hidden(b),
        last matches Some(s) ==> s.source.author_name == Seq::<char>::empty(),
    ensures
        ({
            let s = step(b, last, who, name, fac, msg, fresh, now);
            &&& s.0.is_anonymous
            &&& names_hidden(s.0)
            &&& s.1 matches Some(sn) ==> sn.source.author_name == Seq::<char>::empty()
        }),
{
    let e = Seq::<char>::empty();
    match msg {
        ClientMessage::AddTicket { column_id, content } => {
            if has_column(b, column_id@) && !has_ticket(b, fresh) {
                lemma_placed_hidden(b, column_index(b, column_id@), new_ticket(fresh, content@, who, e, now));
            }
        },
        ClientMessage::RemoveTicket { ticket_id } => {
            if may_remove(b, ticket_id@, who, fac) {
                let (c, k) = locate(b, ticket_id@);
                assert(ticket_at(b, c, k, ticket_id@));
                lemma_removed_hidden(b, c, k);
            }
        },
        ClientMessage::EditTicket { ticket_id, content } => {
            if may_edit(b, ticket_id@, who) {
                lemma_edited_hidden(b, ticket_id@, content@);
            }
        },
        ClientMessage::ToggleVote { ticket_id } => {
            if vote_allowed(b, ticket_id@, who) {
                let (c, k) = locate(b, ticket_id@);
                assert(ticket_at(b, c, k, ticket_id@));
                lemma_set_hidden(b, c, k, toggled(ticket_of(b, ticket_id@), who));
            }
        },
        ClientMessage::MergeTickets { source_ticket_id, target_ticket_id } => {
            let src = source_ticket_id@;
            let tgt = target_ticket_id@;
            if has_ticket(b, src) && has_ticket(b, tgt) && src != tgt {
                let (cs, ks) = locate(b, src);
                let (ct, kt) = locate(b, tgt);
                assert(ticket_at(b, cs, ks, src));
                assert(ticket_at(b, ct, kt, tgt));
                let b1 = set_ticket(b, ct, kt, merged_target(ticket_of(b, src), ticket_of(b, tgt)));
                lemma_set_hidden(b, ct, kt, merged_target(ticket_of(b, src), ticket_of(b, tgt)));
                assert(valid_pos(b1, cs, ks));
                lemma_removed_hidden(b1, cs, ks);
            }
        },
        ClientMessage::UndoMerge => {
            if let Some(sn) = last {
                if has_column(b, sn.source_column_id) && !has_ticket(b, sn.source.id) {
                    let ci = column_index(b, sn.source_column_id);
                    let pos = restore_position(b, sn);
                    lemma_first_later_fits(b.columns[ci].tickets, sn.source.created_at);
                    lemma_inserted_hidden(b, ci, pos, sn.source);
                    let b1 = inserted(b, ci, pos, sn.source);
                    if has_ticket(b1, sn.target_id) {
                        lemma_edited_hidden(b1, sn.target_id, sn.target_original_content);
                    }
                }
            }
        },
        ClientMessage::SplitTicket { ticket_id, segment_index } => {
            let id = ticket_id@;
            if may_remove(b, id, who, fac) && split_valid(ticket_of(b, id).content, segment_index as int)
                && !has_ticket(b, fresh) {
                let (c, k) = locate(b, id);
                assert(ticket_at(b, c, k, id));
                let rest = crate::text::join_lines(crate::text::lines(ticket_of(b, id).content).remove(segment_index as int));
                lemma_edited_hidden(b, id, rest);
                let b1 = edited(b, id, rest);
                let nt = new_ticket(fresh, Seq::empty(), who, e, now);
                lemma_placed_hidden(b1, c, TicketModel { content: crate::text::lines(ticket_of(b, id).content)[segment_index as int], ..nt });
            }
        },
        _ => {},
    }
}

/// Replacing one ticket by a nameless one keeps names hidden.
proof fn lemma_set_hidden(b: BoardModel, c: int, k: int, t: TicketModel)
    requires
        names_hidden(b),
        valid_pos(b, c, k),
        t.author_name == Seq::<char>::empty(),
    ensures
        names_hidden(set_ticket(b, c, k, t)),
{
    let nb = set_ticket(b, c, k, t);
    assert forall|c1: int, k1: int| valid_pos(nb, c1, k1) implies (#[trigger] nb.columns[c1].tickets[k1]).author_name
        == Seq::<char>::empty() by {
        if c1 != c || k1 != k {
            assert(nb.columns[c1].tickets[k1] == b.columns[c1].tickets[k1]);
        }
    }
}

/// Editing a ticket's text keeps names hidden.
proof fn lemma_edited_hidden(b: BoardModel, id: Seq<char>, content: Seq<char>)
    requires
        names_hidden(b),
        has_ticket(b, id),
    ensures
        names_hidden(edited(b, id, content)),
{
    let (c, k) = locate(b, id);
    assert(ticket_at(b, c, k, id));
    lemma_set_hidden(b, c, k, TicketModel { content, ..ticket_of(b, id) });
}

/// Removing a ticket keeps names hidden.
proof fn lemma_removed_hidden(b: BoardModel, c: int, k: int)
    requires
        names_hidden(b),
        valid_pos(b, c, k),
    ensures
        names_hidden(BoardModel {
            columns: b.columns.update(c, crate::model::ColumnModel { tickets: b.columns[c].tickets.remove(k), ..b.columns[c] }),
            ..b
        }),
{
    let nb = BoardModel {
        columns: b.columns.update(c, crate::model::ColumnModel { tickets: b.columns[c].tickets.remove(k), ..b.columns[c] }),
        ..b
    };
    assert forall|c1: int, k1: int| valid_pos(nb, c1, k1) implies (#[trigger] nb.columns[c1].tickets[k1]).author_name
        == Seq::<char>::empty() by {
        let o = if c1 == c && k1 >= k { k1 + 1 } else { k1 };
        assert(nb.columns[c1].tickets[k1] == b.columns[c1].tickets[o]);
        assert(valid_pos(b, c1, o));
    }
}

/// Placing a nameless ticket keeps names hidden.
proof fn lemma_placed_hidden(b: BoardModel, c: int, t: TicketModel)
    requires
        names_hidden(b),
        0 <= c < b.columns.len(),
        t.author_name == Seq::<char>::empty(),
    ensures
        names_hidden(placed(b, c, t)),
{
    lemma_first_later_fits(b.columns[c].tickets, t.created_at);
    lemma_inserted_hidden(b, c, first_later(b.columns[c].tickets, t.created_at), t);
}

/// Inserting a nameless ticket keeps names hidden.
proof fn lemma_inserted_hidden(b: BoardModel, c: int, pos: int, t: TicketModel)
    requires
        names_hidden(b),
        0 <= c < b.columns.len(),
        0 <= pos <= b.columns[c].tickets.len(),
        t.author_name == Seq::<char>::empty(),
    ensures
        names_hidden(inserted(b, c, pos, t)),
{
    let nb = inserted(b, c, pos, t);
    assert forall|c1: int, k1: int| valid_pos(nb, c1, k1) implies (#[trigger] nb.columns[c1].tickets[k1]).author_name
        == Seq::<char>::empty() by {
        if !(c1 == c && k1 == pos) {
            let o = if c1 == c && k1 > pos { k1 - 1 } else { k1 };
            assert(nb.columns[c1].tickets[k1] == b.columns[c1].tickets[o]);
            assert(valid_pos(b, c1, o));
        }
    }
}

} // verus!
