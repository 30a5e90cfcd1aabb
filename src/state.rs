//! Process-wide state: the boards, who is connected to each, and each board's pending
//! merge snapshot.
use vstd::prelude::*;
use crate::keyed::Keyed;
use crate::model::{
    Board, BoardModel, BoardView, Column, Participant, CreateBoardRequest, CreateBoardResponse, Template,
    fresh_columns, all_distinct, no_dup_ids, opt_view, time_ordered,
};
use crate::text::{blank, is_blank};
use crate::ids::random_uuid;
use crate::board::MergeSnapshot;
use crate::session::{
    Connection, handle_message, step, snap_view, is_facilitator, facilitator_by_token,
    facilitator_by_identity, resolve_participant_id, effective_name,
};
use crate::protocol::{ClientMessage, ServerMessage};
use crate::error::AppError;
use crate::ids::{random_id, now_millis};

verus! {

/// Index of the first record with participant id `pid`, or the length when none has it.
pub open spec fn first_with(ps: Seq<Participant>, pid: Seq<char>) -> int
    decreases ps.len(),
{
    if ps.len() == 0 {
        0
    } else if ps[0].id@ == pid {
        0
    } else {
        1 + first_with(ps.drop_first(), pid)
    }
}

/// The participant records of a board after one connection of participant `pid`
/// closes: the first record with that id goes, and the others stay, so a participant
/// with another open connection stays listed.
pub open spec fn without_one(ps: Seq<Participant>, pid: Seq<char>) -> Seq<Participant> {
    if first_with(ps, pid) < ps.len() {
        ps.remove(first_with(ps, pid))
    } else {
        ps
    }
}

/// `i` is where the first record with id `pid` is (or the length, when none is).
pub proof fn lemma_first_with(ps: Seq<Participant>, pid: Seq<char>, i: int)
    requires
        0 <= i <= ps.len(),
        forall|j: int| 0 <= j < i ==> (#[trigger] ps[j]).id@ != pid,
        i < ps.len() ==> ps[i].id@ == pid,
    ensures
        first_with(ps, pid) == i,
    decreases i,
{
    if ps.len() > 0 && i > 0 {
        assert(ps[0].id@ != pid);
        let rest = ps.drop_first();
        assert forall|j: int| 0 <= j < i - 1 implies (#[trigger] rest[j]).id@ != pid by {
            assert(rest[j] == ps[j + 1]);
        }
        lemma_first_with(rest, pid, i - 1);
    }
}

/// Process-wide state shared by all connections.
pub struct AppState {
    pub boards: Keyed<Board>,
    pub participants: Keyed<Vec<Participant>>,
    pub last_merge: Keyed<MergeSnapshot>,
    pub templates: Keyed<(Template, i32)>,
    pub admin_token_hash: Option<String>,
}

impl AppState {
    /// Maps are well formed, every board is well formed and stored under its own id,
    /// every pending snapshot is well formed, and no board has an empty participant list.
    pub open spec fn wf(&self) -> bool {
        &&& self.boards.wf()
        &&& self.participants.wf()
        &&& self.last_merge.wf()
        &&& self.templates.wf()
        &&& forall|k: Seq<char>| #[trigger] self.boards@.contains_key(k) ==> self.boards@[k].wf() && self.boards@[k].id@ == k
        &&& forall|k: Seq<char>| #[trigger] self.last_merge@.contains_key(k) ==> self.last_merge@[k].wf()
        &&& forall|k: Seq<char>| #[trigger] self.participants@.contains_key(k) ==> self.participants@[k]@.len() > 0
    }

    /// The participants connected to board `k`.
    pub open spec fn participants_of(&self, k: Seq<char>) -> Seq<Participant> {
        if self.participants@.contains_key(k) { self.participants@[k]@ } else { Seq::empty() }
    }

    /// The pending merge snapshot of board `k`.
    pub open spec fn pending_merge(&self, k: Seq<char>) -> Option<MergeSnapshot> {
        if self.last_merge@.contains_key(k) { Some(self.last_merge@[k]) } else { None }
    }

    /// Empty state.
    pub fn new(admin_token_hash: Option<String>) -> (r: AppState)
        ensures
            r.wf(),
            r.boards@ == Map::<Seq<char>, Board>::empty(),
            r.participants@ == Map::<Seq<char>, Vec<Participant>>::empty(),
            r.last_merge@ == Map::<Seq<char>, MergeSnapshot>::empty(),
            r.templates@ == Map::<Seq<char>, (Template, i32)>::empty(),
            r.admin_token_hash == admin_token_hash,
    {
        AppState {
            boards: Keyed::new(),
            participants: Keyed::new(),
            last_merge: Keyed::new(),
            templates: Keyed::new(),
            admin_token_hash,
        }
    }

    /// Number of participants connected to board `board_id`.
    pub fn participant_count(&self, board_id: &String) -> (r: usize)
        requires
            self.wf(),
        ensures
            r == self.participants_of(board_id@).len(),
    {
        match self.participants.get(board_id) {
            Some(list) => list.len(),
            None => 0,
        }
    }

    /// Registers participant `p` as connected to board `board_id`.
    pub fn add_participant(&mut self, board_id: &String, p: Participant)
        requires
            old(self).wf(),
        ensures
            final(self).wf(),
            final(self).participants_of(board_id@) == old(self).participants_of(board_id@).push(p),
            forall|k: Seq<char>| k != board_id@ ==> final(self).participants_of(k) == old(self).participants_of(k),
            final(self).boards == old(self).boards,
            final(self).last_merge == old(self).last_merge,
            final(self).templates == old(self).templates,
            final(self).admin_token_hash == old(self).admin_token_hash,
    {
        let mut list = match self.participants.remove(board_id) {
            Some(l) => l,
            None => Vec::new(),
        };
        list.push(p);
        self.participants.insert(board_id.clone(), list);
        proof {
            assert forall|k: Seq<char>| k != board_id@ implies self.participants_of(k) == old(self).participants_of(k) by {
                assert(self.participants@.contains_key(k) == old(self).participants@.contains_key(k));
            }
        }
    }

    /// Unregisters one connection of participant `participant_id` from board
    /// `board_id`: exactly one of their records goes (none when they have none), so
    /// they stay listed while another of their connections is open. The board's entry
    /// goes once its list is empty.
    pub fn remove_participant(&mut self, board_id: &String, participant_id: &String)
        requires
            old(self).wf(),
        ensures
            final(self).wf(),
            final(self).participants_of(board_id@) == without_one(
                old(self).participants_of(board_id@),
                participant_id@,
            ),
            final(self).participants@.contains_key(board_id@) == (final(self).participants_of(board_id@).len() > 0),
            forall|k: Seq<char>| k != board_id@ ==> final(self).participants_of(k) == old(self).participants_of(k),
            final(self).boards == old(self).boards,
            final(self).last_merge == old(self).last_merge,
            final(self).templates == old(self).templates,
            final(self).admin_token_hash == old(self).admin_token_hash,
    {
        let mut list = match self.participants.remove(board_id) {
            Some(l) => l,
            None => {
                proof {
                    lemma_first_with(Seq::<Participant>::empty(), participant_id@, 0);
                    assert(self.participants@ =~= old(self).participants@);
                }
                return;
            },
        };
        let mut i: usize = 0;
        while i < list.len() && list[i].id != *participant_id
            invariant
                i <= list@.len(),
                forall|j: int| 0 <= j < i ==> (#[trigger] list@[j]).id@ != participant_id@,
            decreases list@.len() - i,
        {
            i += 1;
        }
        proof {
            lemma_first_with(list@, participant_id@, i as int);
        }
        if i < list.len() {
            list.remove(i);
        }
        if list.len() > 0 {
            self.participants.insert(board_id.clone(), list);
        }
        proof {
            assert forall|k: Seq<char>| k != board_id@ implies self.participants_of(k) == old(self).participants_of(k) by {
                assert(self.participants@.contains_key(k) == old(self).participants@.contains_key(k));
            }
        }
    }

    /// The facilitator token of board `board_id`, if the board exists.
    pub fn get_board_facilitator_token(&self, board_id: &String) -> (r: Option<String>)
        requires
            self.wf(),
        ensures
            match r {
                Some(t) => self.boards@.contains_key(board_id@) && t@ == self.boards@[board_id@].facilitator_token@,
                None => !self.boards@.contains_key(board_id@),
            },
    {
        match self.boards.get(board_id) {
            Some(b) => Some(b.facilitator_token.clone()),
            None => None,
        }
    }

    /// The facilitator identity of board `board_id`, if the board exists and has one.
    pub fn get_board_facilitator_id(&self, board_id: &String) -> (r: Option<String>)
        requires
            self.wf(),
        ensures
            match r {
                Some(f) => self.boards@.contains_key(board_id@) && opt_view(self.boards@[board_id@].facilitator_id) == Some(f@),
                None => !self.boards@.contains_key(board_id@) || self.boards@[board_id@].facilitator_id is None,
            },
    {
        match self.boards.get(board_id) {
            Some(b) => match &b.facilitator_id {
                Some(f) => Some(f.clone()),
                None => None,
            },
            None => None,
        }
    }

    /// Whether board `board_id` is anonymous, if the board exists.
    pub fn get_board_anonymous(&self, board_id: &String) -> (r: Option<bool>)
        requires
            self.wf(),
        ensures
            match r {
                Some(a) => self.boards@.contains_key(board_id@) && a == self.boards@[board_id@].is_anonymous,
                None => !self.boards@.contains_key(board_id@),
            },
    {
        match self.boards.get(board_id) {
            Some(b) => Some(b.is_anonymous),
            None => None,
        }
    }

    /// The handshake: a connection's first message must be `Join`. On a `Join` for an
    /// existing board the participant is registered and the connection's identity is
    /// returned: the supplied participant id if non-empty, else `fresh_id`; the name,
    /// emptied on an anonymous board; facilitator status by token or by `identity`.
    /// Any other first message is refused with `BadRequest`, and a missing board with
    /// `NotFound`; then nothing changes.
    pub fn join(
        &mut self,
        board_id: &String,
        msg: ClientMessage,
        identity: &Option<String>,
        fresh_id: String,
    ) -> (r: Result<Connection, AppError>)
        requires
            old(self).wf(),
        ensures
            final(self).wf(),
            !(msg is Join) ==> ((r matches Err(AppError::BadRequest(m)) && m@ == "Must send Join first"@) && *final(self) == *old(self)),
            msg is Join && !old(self).boards@.contains_key(board_id@) ==> ((r matches Err(AppError::NotFound(m)) && m@ == "Board not found"@)
                && *final(self) == *old(self)),
            (msg is Join && old(self).boards@.contains_key(board_id@)) == r is Ok,
            r is Ok ==> ({
                let conn = r->Ok_0;
                let participant_name = msg->Join_participant_name;
                let facilitator_token = msg->Join_facilitator_token;
                let participant_id = msg->Join_participant_id;
                let b = old(self).boards@[board_id@];
                &&& conn.board_id@ == board_id@
                &&& conn.participant_id@ == (if participant_id matches Some(s) && s@.len() > 0 {
                    participant_id->0@
                } else {
                    fresh_id@
                })
                &&& conn.participant_name@ == (if b.is_anonymous { Seq::<char>::empty() } else { participant_name@ })
                &&& conn.is_facilitator == (facilitator_by_token(facilitator_token, b.facilitator_token@)
                    || facilitator_by_identity(*identity, b.facilitator_id))
                &&& final(self).participants_of(board_id@) == old(self).participants_of(board_id@).push(
                    Participant { id: conn.participant_id, name: conn.participant_name },
                )
                &&& forall|k: Seq<char>| k != board_id@ ==> final(self).participants_of(k) == old(self).participants_of(k)
                &&& final(self).boards == old(self).boards
                &&& final(self).last_merge == old(self).last_merge
                &&& final(self).templates == old(self).templates
                &&& final(self).admin_token_hash == old(self).admin_token_hash
            }),
    {
        let (participant_name, facilitator_token, participant_id) = match msg {
            ClientMessage::Join { participant_name, facilitator_token, participant_id } => (
                participant_name,
                facilitator_token,
                participant_id,
            ),
            _ => return Err(AppError::BadRequest(String::from_str("Must send Join first"))),
        };
        let token = match self.get_board_facilitator_token(board_id) {
            Some(t) => t,
            None => return Err(AppError::NotFound(String::from_str("Board not found"))),
        };
        let pid = resolve_participant_id(participant_id, fresh_id);
        let board_fid = self.get_board_facilitator_id(board_id);
        let fac = is_facilitator(&facilitator_token, &token, identity, &board_fid);
        let anonymous = match self.get_board_anonymous(board_id) {
            Some(a) => a,
            None => false,
        };
        let name = effective_name(anonymous, participant_name);
        let p = Participant { id: pid.clone(), name: name.clone() };
        self.add_participant(board_id, p);
        Ok(Connection { board_id: board_id.clone(), participant_id: pid, participant_name: name, is_facilitator: fac })
    }

    /// `join` with a fresh random participant id for a client that supplies none.
    pub fn join_now(&mut self, board_id: &String, msg: ClientMessage, identity: &Option<String>) -> (r: Result<
        Connection,
        AppError,
    >)
        requires
            old(self).wf(),
        ensures
            final(self).wf(),
            !(msg is Join) ==> ((r matches Err(AppError::BadRequest(m)) && m@ == "Must send Join first"@) && *final(self) == *old(self)),
            msg is Join && !old(self).boards@.contains_key(board_id@) ==> ((r matches Err(AppError::NotFound(m)) && m@ == "Board not found"@)
                && *final(self) == *old(self)),
            (msg is Join && old(self).boards@.contains_key(board_id@)) == r is Ok,
            r is Ok ==> ({
                let conn = r->Ok_0;
                let participant_name = msg->Join_participant_name;
                let facilitator_token = msg->Join_facilitator_token;
                let participant_id = msg->Join_participant_id;
                let b = old(self).boards@[board_id@];
                &&& conn.board_id@ == board_id@
                &&& (if participant_id matches Some(s) && s@.len() > 0 {
                    conn.participant_id@ == participant_id->0@
                } else {
                    conn.participant_id@.len() == 8
                })
                &&& conn.participant_name@ == (if b.is_anonymous { Seq::<char>::empty() } else { participant_name@ })
                &&& conn.is_facilitator == (facilitator_by_token(facilitator_token, b.facilitator_token@)
                    || facilitator_by_identity(*identity, b.facilitator_id))
                &&& final(self).participants_of(board_id@) == old(self).participants_of(board_id@).push(
                    Participant { id: conn.participant_id, name: conn.participant_name },
                )
                &&& forall|k: Seq<char>| k != board_id@ ==> final(self).participants_of(k) == old(self).participants_of(k)
                &&& final(self).boards == old(self).boards
                &&& final(self).last_merge == old(self).last_merge
                &&& final(self).templates == old(self).templates
                &&& final(self).admin_token_hash == old(self).admin_token_hash
            }),
    {
        let fresh = random_id(8);
        self.join(board_id, msg, identity, fresh)
    }

    /// The `Authenticated` reply for a joined connection.
    pub fn authenticated(conn: &Connection) -> (r: ServerMessage)
        ensures
            r matches ServerMessage::Authenticated { is_facilitator, participant_id }
                && is_facilitator == conn.is_facilitator && participant_id@ == conn.participant_id@,
    {
        ServerMessage::Authenticated { is_facilitator: conn.is_facilitator, participant_id: conn.participant_id.clone() }
    }

    /// The `BoardState` message for board `board_id`, with its current participant count.
    pub fn board_state(&self, board_id: &String) -> (r: Option<ServerMessage>)
        requires
            self.wf(),
        ensures
            !self.boards@.contains_key(board_id@) ==> r is None,
            self.boards@.contains_key(board_id@) ==> (r matches Some(ServerMessage::BoardState { board })
                && view_of(board, self.boards@[board_id@], self.participants_of(board_id@).len() as int)),
    {
        match self.boards.get(board_id) {
            Some(b) => {
                let count = self.participant_count(board_id);
                Some(ServerMessage::BoardState { board: b.to_view_with_participants(count) })
            },
            None => None,
        }
    }

    /// Applies command `msg` from connection `conn` to its board, as `step` describes;
    /// true when the board changed. False, with no change, when the board is gone.
    pub fn dispatch(&mut self, conn: &Connection, msg: ClientMessage, fresh_id: String, now: i64) -> (r: bool)
        requires
            old(self).wf(),
        ensures
            final(self).wf(),
            final(self).participants == old(self).participants,
            final(self).admin_token_hash == old(self).admin_token_hash,
            !old(self).boards@.contains_key(conn.board_id@) ==> !r && *final(self) == *old(self),
            final(self).boards@.dom() == old(self).boards@.dom(),
            forall|j: Seq<char>| #[trigger] old(self).boards@.contains_key(j)
                ==> final(self).boards@[j].facilitator_token@ == old(self).boards@[j].facilitator_token@,
            old(self).boards@.contains_key(conn.board_id@) ==> ({
                let k = conn.board_id@;
                &&& final(self).boards@.dom() == old(self).boards@.dom()
                &&& forall|j: Seq<char>| j != k && #[trigger] old(self).boards@.contains_key(j)
                    ==> final(self).boards@[j] == old(self).boards@[j]
                &&& forall|j: Seq<char>| j != k ==> #[trigger] final(self).pending_merge(j) == old(self).pending_merge(j)
                &&& (final(self).boards@[k]@, snap_view(final(self).pending_merge(k)), r) == step(
                    old(self).boards@[k]@,
                    snap_view(old(self).pending_merge(k)),
                    conn.participant_id@,
                    conn.participant_name@,
                    conn.is_facilitator,
                    msg,
                    fresh_id@,
                    now as int,
                )
            }),
    {
        let i = match self.boards.index_of(&conn.board_id) {
            Some(i) => i,
            None => return false,
        };
        let ghost ob = self.boards;
        let ghost k = conn.board_id@;
        let mut last = self.last_merge.remove(&conn.board_id);
        let r = handle_message(&mut self.boards.entries[i].1, &mut last, conn, msg, fresh_id, now);
        proof {
            assert(self.boards.entries@ == ob.entries@.update(i as int, self.boards.entries@[i as int]));
            assert forall|a: int, b: int|
                0 <= a < self.boards.entries@.len() && 0 <= b < self.boards.entries@.len() && a != b
                    implies #[trigger] self.boards.entries@[a].0@ != #[trigger] self.boards.entries@[b].0@ by {
                assert(self.boards.entries@[a].0@ == ob.entries@[a].0@);
                assert(self.boards.entries@[b].0@ == ob.entries@[b].0@);
            }
            self.boards.lemma_map_after_set(ob, i as int);
        }
        match last {
            Some(s) => self.last_merge.insert(conn.board_id.clone(), s),
            None => {},
        }
        proof {
            assert forall|j: Seq<char>| j != k implies #[trigger] self.pending_merge(j) == old(self).pending_merge(j) by {
                assert(self.last_merge@.contains_key(j) == old(self).last_merge@.contains_key(j));
            }
            assert(self.boards@.dom() =~= old(self).boards@.dom());
            crate::session::law_facilitator_token_fixed(
                old(self).boards@[k]@,
                snap_view(old(self).pending_merge(k)),
                conn.participant_id@,
                conn.participant_name@,
                conn.is_facilitator,
                msg,
                fresh_id@,
                now as int,
            );
        }
        r
    }

    /// `dispatch` with a fresh random id for a new ticket and the current time.
    pub fn dispatch_now(&mut self, conn: &Connection, msg: ClientMessage) -> (r: bool)
        requires
            old(self).wf(),
        ensures
            final(self).wf(),
            final(self).participants == old(self).participants,
            !old(self).boards@.contains_key(conn.board_id@) ==> !r && *final(self) == *old(self),
            forall|j: Seq<char>| #[trigger] old(self).boards@.contains_key(j)
                ==> final(self).boards@[j].facilitator_token@ == old(self).boards@[j].facilitator_token@,
            old(self).boards@.contains_key(conn.board_id@) ==> exists|fresh: Seq<char>, now: int|
                (#[trigger] final(self).boards@[conn.board_id@]@, snap_view(final(self).pending_merge(conn.board_id@)), r)
                    == step(
                    old(self).boards@[conn.board_id@]@,
                    snap_view(old(self).pending_merge(conn.board_id@)),
                    conn.participant_id@,
                    conn.participant_name@,
                    conn.is_facilitator,
                    msg,
                    fresh,
                    now,
                ),
    {
        let fresh = random_id(8);
        let now = now_millis();
        self.dispatch(conn, msg, fresh, now)
    }
}

/// `v` shows board `b` with `count` connected participants.
pub open spec fn view_of(v: BoardView, b: Board, count: int) -> bool {
    &&& v.id@ == b.id@
    &&& v.title@ == b.title@
    &&& v.columns@.map_values(|c: Column| c@) == b@.columns
    &&& v.is_blurred == b.is_blurred
    &&& v.is_anonymous == b.is_anonymous
    &&& v.hide_votes == b.hide_votes
    &&& v.created_at == b.created_at
    &&& v.participant_count == count
    &&& v.vote_limit_per_column == b.vote_limit_per_column
    &&& v.timer_end == b.timer_end
}


/// Why a board creation request is refused before anything is stored: a blank title
/// or no columns.
pub open spec fn creation_refused(req: CreateBoardRequest) -> bool {
    blank(req.title@) || req.columns@.len() == 0
}

impl AppState {
    /// Creates a board from `req` with the given ids, token, facilitator identity and
    /// creation time. A blank title or an empty column list is a `BadRequest`; a board
    /// id already in use, or column ids that are not one distinct id per column, an
    /// `Internal` error. On success the board is stored under `board_id` as `Board::new`
    /// builds it, and the answer shows it with no participants, with the token.
    pub fn create_board_with(
        &mut self,
        req: CreateBoardRequest,
        facilitator_id: String,
        board_id: String,
        facilitator_token: String,
        column_ids: Vec<String>,
        now: i64,
    ) -> (r: Result<CreateBoardResponse, AppError>)
        requires
            old(self).wf(),
        ensures
            final(self).wf(),
            blank(req.title@) ==> (r matches Err(AppError::BadRequest(m)) && m@ == "Title is required"@),
            !blank(req.title@) && req.columns@.len() == 0 ==> (r matches Err(AppError::BadRequest(m)) && m@ == "At least one column is required"@),
            !creation_refused(req) && (old(self).boards@.contains_key(board_id@) || column_ids@.len() != req.columns@.len()
                || !no_dup_ids(column_ids@)) ==> (r matches Err(AppError::Internal(m)) && m@ == "Internal server error"@),
            r is Ok == (!creation_refused(req) && !old(self).boards@.contains_key(board_id@)
                && column_ids@.len() == req.columns@.len() && no_dup_ids(column_ids@)),
            r is Err ==> *final(self) == *old(self),
            r is Ok ==> ({
                let resp = r->Ok_0;
                let b = final(self).boards@[board_id@];
                &&& final(self).boards@ == old(self).boards@.insert(board_id@, b)
                &&& b@ == (BoardModel {
                    id: board_id@,
                    title: req.title@,
                    columns: fresh_columns(column_ids@, req.columns@),
                    is_blurred: false,
                    is_anonymous: req.is_anonymous,
                    hide_votes: false,
                    created_at: now as int,
                    facilitator_token: facilitator_token@,
                    facilitator_id: Some(facilitator_id@),
                    vote_limit_per_column: None,
                    timer_end: None,
                })
                &&& view_of(resp.board, b, 0)
                &&& resp.facilitator_token@ == facilitator_token@
                &&& final(self).participants == old(self).participants
                &&& final(self).last_merge == old(self).last_merge
                &&& final(self).templates == old(self).templates
                &&& final(self).admin_token_hash == old(self).admin_token_hash
            }),
    {
        if is_blank(&req.title) {
            return Err(AppError::BadRequest(String::from_str("Title is required")));
        }
        if req.columns.len() == 0 {
            return Err(AppError::BadRequest(String::from_str("At least one column is required")));
        }
        if self.boards.index_of(&board_id).is_some() || column_ids.len() != req.columns.len() || !all_distinct(
            &column_ids,
        ) {
            return Err(AppError::Internal(String::from_str("Internal server error")));
        }
        let board = Board::new(
            board_id.clone(),
            req.title,
            &column_ids,
            &req.columns,
            facilitator_token.clone(),
            facilitator_id,
            now,
            req.is_anonymous,
        );
        let view = board.to_view_with_participants(0);
        let ghost bv = board;
        self.boards.insert(board_id, board);
        proof {
            assert(self.boards@[bv.id@] == bv);
            assert forall|k: Seq<char>| #[trigger] self.boards@.contains_key(k) implies self.boards@[k].wf()
                && self.boards@[k].id@ == k by {
                if k != bv.id@ {
                    assert(old(self).boards@.contains_key(k));
                }
            }
        }
        Ok(CreateBoardResponse { board: view, facilitator_token })
    }

    /// Creates a board from `req` for the facilitator identity `identity`, or for a new
    /// random identity when there is none; ids, token and time are drawn afresh (a
    /// 10-character board id, a 32-character token, 8-character column ids). Returns the
    /// answer and the facilitator identity used.
    pub fn create_board(&mut self, req: CreateBoardRequest, identity: Option<String>) -> (r: Result<
        (CreateBoardResponse, String),
        AppError,
    >)
        requires
            old(self).wf(),
        ensures
            final(self).wf(),
            blank(req.title@) ==> (r matches Err(AppError::BadRequest(m)) && m@ == "Title is required"@),
            !blank(req.title@) && req.columns@.len() == 0 ==> (r matches Err(AppError::BadRequest(m)) && m@ == "At least one column is required"@),
            r is Err ==> *final(self) == *old(self),
            r is Ok ==> ({
                let (resp, fid) = r->Ok_0;
                let b = final(self).boards@[resp.board.id@];
                &&& !creation_refused(req)
                &&& !old(self).boards@.contains_key(resp.board.id@)
                &&& final(self).boards@ == old(self).boards@.insert(resp.board.id@, b)
                &&& identity matches Some(i) ==> fid@ == i@
                &&& b@.facilitator_id == Some(fid@)
                &&& b.title@ == req.title@
                &&& b.is_anonymous == req.is_anonymous
                &&& b@.columns.len() == req.columns@.len()
                &&& forall|i: int| 0 <= i < req.columns@.len() ==> (#[trigger] b@.columns[i]).name == req.columns@[i]@
                    && b@.columns[i].tickets.len() == 0
                &&& b.facilitator_token@ == resp.facilitator_token@
                &&& b.facilitator_token@.len() == 32
                &&& b.id@.len() == 10
                &&& !b.is_blurred
                &&& !b.hide_votes
                &&& b.vote_limit_per_column is None
                &&& b.timer_end is None
                &&& b.created_at >= 0
                &&& final(self).participants == old(self).participants
                &&& final(self).last_merge == old(self).last_merge
                &&& final(self).templates == old(self).templates
                &&& view_of(resp.board, b, 0)
            }),
    {
        let fid = match identity {
            Some(i) => i,
            None => random_uuid(),
        };
        let board_id = random_id(10);
        let token = random_id(32);
        let mut column_ids: Vec<String> = Vec::new();
        let mut i: usize = 0;
        while i < req.columns.len()
            invariant
                i <= req.columns@.len(),
                column_ids@.len() == i,
            decreases req.columns@.len() - i,
        {
            column_ids.push(random_id(8));
            i += 1;
        }
        let now = now_millis();
        let ghost old_boards = self.boards@;
        match self.create_board_with(req, fid.clone(), board_id, token, column_ids, now) {
            Ok(resp) => {
                proof {
                    let b = self.boards@[resp.board.id@];
                    assert(resp.board.id@ == board_id@);
                    assert(!old_boards.contains_key(board_id@));
                    assert(b@.created_at == now);
                }
                Ok((resp, fid))
            },
            Err(e) => Err(e),
        }
    }

    /// The board `board_id` as clients see it, with its participant count; each column
    /// lists its tickets oldest first.
    pub fn get_board(&self, board_id: &String) -> (r: Result<BoardView, AppError>)
        requires
            self.wf(),
        ensures
            !self.boards@.contains_key(board_id@) ==> (r matches Err(AppError::NotFound(m)) && m@ == "Board not found"@),
            self.boards@.contains_key(board_id@) ==> (r matches Ok(v) && view_of(
                v,
                self.boards@[board_id@],
                self.participants_of(board_id@).len() as int,
            )),
            self.boards@.contains_key(board_id@) ==> time_ordered(self.boards@[board_id@]@),
    {
        match self.boards.get(board_id) {
            Some(b) => Ok(b.to_view_with_participants(self.participant_count(board_id))),
            None => Err(AppError::NotFound(String::from_str("Board not found"))),
        }
    }

    /// Deletes board `board_id` with its participant list and pending snapshot;
    /// `NotFound`, with no change, when there is no such board.
    pub fn delete_board(&mut self, board_id: &String) -> (r: Result<(), AppError>)
        requires
            old(self).wf(),
        ensures
            final(self).wf(),
            r is Ok == old(self).boards@.contains_key(board_id@),
            r is Err ==> ((r matches Err(AppError::NotFound(m)) && m@ == "Board not found"@) && *final(self) == *old(self)),
            r is Ok ==> final(self).boards@ == old(self).boards@.remove(board_id@)
                && final(self).participants@ == old(self).participants@.remove(board_id@)
                && final(self).last_merge@ == old(self).last_merge@.remove(board_id@),
    {
        match self.boards.remove(board_id) {
            Some(_) => {
                self.participants.remove(board_id);
                self.last_merge.remove(board_id);
                Ok(())
            },
            None => Err(AppError::NotFound(String::from_str("Board not found"))),
        }
    }
}

} // verus!
