use vstd::prelude::*;

verus! {

/// Abstract value of a ticket: its votes are a set of participant ids.
pub struct TicketModel {
    pub id: Seq<char>,
    pub content: Seq<char>,
    pub author_id: Seq<char>,
    pub author_name: Seq<char>,
    pub votes: Set<Seq<char>>,
    pub created_at: int,
}

/// A sticky note. `created_at` is in milliseconds since the Unix epoch.
#[derive(Debug, Clone)]
pub struct Ticket {
    pub id: String,
    pub content: String,
    pub author_id: String,
    pub author_name: String,
    pub votes: Vec<String>,
    pub created_at: i64,
}

/// The participant ids of a vote list, as a set.
pub open spec fn id_set(v: Seq<String>) -> Set<Seq<char>> {
    Set::new(|p: Seq<char>| exists|i: int| 0 <= i < v.len() && #[trigger] v[i]@ == p)
}

/// No participant id occurs twice in the list.
pub open spec fn no_dup_ids(v: Seq<String>) -> bool {
    forall|i: int, j: int| 0 <= i < v.len() && 0 <= j < v.len() && i != j ==> #[trigger] v[i]@ != #[trigger] v[j]@
}

impl View for Ticket {
    type V = TicketModel;

    open spec fn view(&self) -> TicketModel {
        TicketModel {
            id: self.id@,
            content: self.content@,
            author_id: self.author_id@,
            author_name: self.author_name@,
            votes: id_set(self.votes@),
            created_at: self.created_at as int,
        }
    }
}

impl Ticket {
    /// A ticket's vote list never names a participant twice.
    pub open spec fn wf(&self) -> bool {
        no_dup_ids(self.votes@)
    }
}

/// Abstract value of a column: its tickets in display order.
pub struct ColumnModel {
    pub id: Seq<char>,
    pub name: Seq<char>,
    pub tickets: Seq<TicketModel>,
}

/// A named column of tickets; tickets keep the order in which they were added.
#[derive(Debug, Clone)]
pub struct Column {
    pub id: String,
    pub name: String,
    pub tickets: Vec<Ticket>,
}

impl View for Column {
    type V = ColumnModel;

    open spec fn view(&self) -> ColumnModel {
        ColumnModel {
            id: self.id@,
            name: self.name@,
            tickets: self.tickets@.map_values(|t: Ticket| t@),
        }
    }
}

/// An optional string as an optional character sequence.
pub open spec fn opt_view(o: Option<String>) -> Option<Seq<char>> {
    match o {
        Some(s) => Some(s@),
        None => None,
    }
}

/// An optional `i32` as an optional integer.
pub open spec fn opt_int32(o: Option<i32>) -> Option<int> {
    match o {
        Some(v) => Some(v as int),
        None => None,
    }
}

/// An optional `i64` as an optional integer.
pub open spec fn opt_int64(o: Option<i64>) -> Option<int> {
    match o {
        Some(v) => Some(v as int),
        None => None,
    }
}

/// Abstract value of a board.
pub struct BoardModel {
    pub id: Seq<char>,
    pub title: Seq<char>,
    pub columns: Seq<ColumnModel>,
    pub is_blurred: bool,
    pub is_anonymous: bool,
    pub hide_votes: bool,
    pub created_at: int,
    pub facilitator_token: Seq<char>,
    pub facilitator_id: Option<Seq<char>>,
    pub vote_limit_per_column: Option<int>,
    pub timer_end: Option<int>,
}

/// A retrospective board. Times are milliseconds since the Unix epoch.
#[derive(Debug, Clone)]
pub struct Board {
    pub id: String,
    pub title: String,
    pub columns: Vec<Column>,
    pub is_blurred: bool,
    pub is_anonymous: bool,
    pub hide_votes: bool,
    pub created_at: i64,
    pub facilitator_token: String,
    pub facilitator_id: Option<String>,
    pub vote_limit_per_column: Option<i32>,
    pub timer_end: Option<i64>,
}

impl View for Board {
    type V = BoardModel;

    open spec fn view(&self) -> BoardModel {
        BoardModel {
            id: self.id@,
            title: self.title@,
            columns: self.columns@.map_values(|c: Column| c@),
            is_blurred: self.is_blurred,
            is_anonymous: self.is_anonymous,
            hide_votes: self.hide_votes,
            created_at: self.created_at as int,
            facilitator_token: self.facilitator_token@,
            facilitator_id: opt_view(self.facilitator_id),
            vote_limit_per_column: opt_int32(self.vote_limit_per_column),
            timer_end: opt_int64(self.timer_end),
        }
    }
}

/// `(c, k)` addresses a ticket of the board.
pub open spec fn valid_pos(b: BoardModel, c: int, k: int) -> bool {
    0 <= c < b.columns.len() && 0 <= k < b.columns[c].tickets.len()
}

/// The ticket at `(c, k)` has id `id`.
pub open spec fn ticket_at(b: BoardModel, c: int, k: int, id: Seq<char>) -> bool {
    valid_pos(b, c, k) && b.columns[c].tickets[k].id == id
}

/// Some ticket of the board has id `id`.
pub open spec fn has_ticket(b: BoardModel, id: Seq<char>) -> bool {
    exists|c: int, k: int| ticket_at(b, c, k, id)
}

/// No two tickets of the board share an id, and no two columns share an id.
pub open spec fn unique_ids(b: BoardModel) -> bool {
    &&& forall|c1: int, k1: int, c2: int, k2: int|
        #![trigger b.columns[c1].tickets[k1], b.columns[c2].tickets[k2]]
        valid_pos(b, c1, k1) && valid_pos(b, c2, k2)
            && b.columns[c1].tickets[k1].id == b.columns[c2].tickets[k2].id ==> c1 == c2 && k1 == k2
    &&& forall|c1: int, c2: int|
        #![trigger b.columns[c1], b.columns[c2]]
        0 <= c1 < b.columns.len() && 0 <= c2 < b.columns.len() && b.columns[c1].id == b.columns[c2].id
            ==> c1 == c2
}

/// Position of the ticket with id `id` (meaningful when `has_ticket(b, id)`).
pub open spec fn locate(b: BoardModel, id: Seq<char>) -> (int, int) {
    choose|c: int, k: int| ticket_at(b, c, k, id)
}

/// The ticket with id `id` (meaningful when `has_ticket(b, id)`).
pub open spec fn ticket_of(b: BoardModel, id: Seq<char>) -> TicketModel {
    b.columns[locate(b, id).0].tickets[locate(b, id).1]
}

/// Some column of the board has id `col`.
pub open spec fn has_column(b: BoardModel, col: Seq<char>) -> bool {
    exists|c: int| 0 <= c < b.columns.len() && #[trigger] b.columns[c].id == col
}

/// Index of the column with id `col` (meaningful when `has_column(b, col)`).
pub open spec fn column_index(b: BoardModel, col: Seq<char>) -> int {
    choose|c: int| 0 <= c < b.columns.len() && #[trigger] b.columns[c].id == col
}

/// The tickets are listed oldest first.
pub open spec fn oldest_first(ts: Seq<TicketModel>) -> bool {
    forall|i: int, j: int| 0 <= i < j < ts.len() ==> #[trigger] ts[i].created_at <= #[trigger] ts[j].created_at
}

/// Every column lists its tickets oldest first.
pub open spec fn time_ordered(b: BoardModel) -> bool {
    forall|c: int| 0 <= c < b.columns.len() ==> oldest_first(#[trigger] b.columns[c].tickets)
}

impl Board {
    /// Well-formed: ids are unique, every column lists its tickets oldest first, and no
    /// vote list repeats a participant.
    pub open spec fn wf(&self) -> bool {
        &&& unique_ids(self@)
        &&& time_ordered(self@)
        &&& forall|c: int, k: int|
            0 <= c < self.columns@.len() && 0 <= k < self.columns@[c].tickets@.len()
                ==> (#[trigger] self.columns@[c].tickets@[k]).wf()
    }
}

/// A connected participant of a board.
#[derive(Debug, Clone)]
pub struct Participant {
    pub id: String,
    pub name: String,
}

impl Participant {
    /// A field-by-field copy.
    pub fn copy(&self) -> (r: Participant)
        ensures
            r == *self,
    {
        Participant { id: self.id.clone(), name: self.name.clone() }
    }
}

/// What clients see of a board: everything but the facilitator secrets, plus the
/// number of connected participants.
#[derive(Debug, Clone)]
pub struct BoardView {
    pub id: String,
    pub title: String,
    pub columns: Vec<Column>,
    pub is_blurred: bool,
    pub is_anonymous: bool,
    pub hide_votes: bool,
    pub created_at: i64,
    pub participant_count: usize,
    pub vote_limit_per_column: Option<i32>,
    pub timer_end: Option<i64>,
}

/// A request to create a board.
#[derive(Debug, Clone)]
pub struct CreateBoardRequest {
    pub title: String,
    pub columns: Vec<String>,
    pub is_anonymous: bool,
}

/// The answer to a board creation: the board as clients see it, and the secret
/// facilitator token, shown to its creator only.
#[derive(Debug, Clone)]
pub struct CreateBoardResponse {
    pub board: BoardView,
    pub facilitator_token: String,
}

/// One line of a facilitator's board list.
#[derive(Debug, Clone)]
pub struct MyBoardSummary {
    pub id: String,
    pub title: String,
    pub created_at: i64,
    pub column_count: i64,
    pub ticket_count: i64,
    pub is_anonymous: bool,
}

/// A named set of column names to start a board from.
#[derive(Debug, Clone)]
pub struct Template {
    pub id: String,
    pub name: String,
    pub description: String,
    pub columns: Vec<String>,
}

/// Copies a list of ids entry by entry.
pub fn copy_strings(v: &Vec<String>) -> (r: Vec<String>)
    ensures
        r@ == v@,
{
    let mut r: Vec<String> = Vec::new();
    let mut i: usize = 0;
    while i < v.len()
        invariant
            i <= v@.len(),
            r@ == v@.take(i as int),
        decreases v@.len() - i,
    {
        r.push(v[i].clone());
        i += 1;
        assert(r@ =~= v@.take(i as int));
    }
    assert(v@.take(v@.len() as int) =~= v@);
    r
}

impl Ticket {
    /// A field-by-field copy.
    pub fn copy(&self) -> (r: Ticket)
        ensures
            r@ == self@,
            r.wf() == self.wf(),
    {
        Ticket {
            id: self.id.clone(),
            content: self.content.clone(),
            author_id: self.author_id.clone(),
            author_name: self.author_name.clone(),
            votes: copy_strings(&self.votes),
            created_at: self.created_at,
        }
    }
}

impl Column {
    /// A deep copy.
    pub fn copy(&self) -> (r: Column)
        ensures
            r@ == self@,
    {
        let mut tickets: Vec<Ticket> = Vec::new();
        let mut k: usize = 0;
        while k < self.tickets.len()
            invariant
                k <= self.tickets@.len(),
                tickets@.len() == k,
                tickets@.map_values(|t: Ticket| t@) == self@.tickets.take(k as int),
            decreases self.tickets@.len() - k,
        {
            let t = self.tickets[k].copy();
            let ghost prev = tickets@;
            tickets.push(t);
            proof {
                assert(tickets@ == prev.push(t));
                assert(prev.map_values(|t: Ticket| t@) == self@.tickets.take(k as int));
                assert forall|j: int| 0 <= j <= k implies #[trigger] tickets@[j]@ == self@.tickets[j] by {
                    if j < k {
                        assert(tickets@[j] == prev[j]);
                        assert(prev.map_values(|t: Ticket| t@)[j] == self@.tickets.take(k as int)[j]);
                    }
                }
                assert(tickets@.map_values(|t: Ticket| t@) =~= self@.tickets.take(k as int + 1));
            }
            k += 1;
        }
        assert(self@.tickets.take(self.tickets@.len() as int) =~= self@.tickets);
        Column { id: self.id.clone(), name: self.name.clone(), tickets }
    }
}

/// A deep copy of a list of columns.
pub fn copy_columns(cols: &Vec<Column>) -> (r: Vec<Column>)
    ensures
        r@.map_values(|c: Column| c@) == cols@.map_values(|c: Column| c@),
{
    let mut r: Vec<Column> = Vec::new();
    let mut c: usize = 0;
    while c < cols.len()
        invariant
            c <= cols@.len(),
            r@.len() == c,
            r@.map_values(|x: Column| x@) == cols@.map_values(|x: Column| x@).take(c as int),
        decreases cols@.len() - c,
    {
        let col = cols[c].copy();
        let ghost prev = r@;
        r.push(col);
        proof {
            assert(prev.map_values(|x: Column| x@) == cols@.map_values(|x: Column| x@).take(c as int));
            assert forall|j: int| 0 <= j <= c implies #[trigger] r@[j]@ == cols@[j]@ by {
                if j < c {
                    assert(r@[j] == prev[j]);
                    assert(prev.map_values(|x: Column| x@)[j] == cols@.map_values(|x: Column| x@).take(c as int)[j]);
                }
            }
            assert(r@.map_values(|x: Column| x@) =~= cols@.map_values(|x: Column| x@).take(c as int + 1));
        }
        c += 1;
    }
    assert(cols@.map_values(|x: Column| x@).take(cols@.len() as int) =~= cols@.map_values(|x: Column| x@));
    r
}

impl Board {
    /// The client-facing view of the board with `count` connected participants.
    pub fn to_view_with_participants(&self, count: usize) -> (r: BoardView)
        ensures
            r.id@ == self.id@,
            r.title@ == self.title@,
            r.columns@.map_values(|c: Column| c@) == self@.columns,
            r.is_blurred == self.is_blurred,
            r.is_anonymous == self.is_anonymous,
            r.hide_votes == self.hide_votes,
            r.created_at == self.created_at,
            r.participant_count == count,
            r.vote_limit_per_column == self.vote_limit_per_column,
            r.timer_end == self.timer_end,
    {
        BoardView {
            id: self.id.clone(),
            title: self.title.clone(),
            columns: copy_columns(&self.columns),
            is_blurred: self.is_blurred,
            is_anonymous: self.is_anonymous,
            hide_votes: self.hide_votes,
            created_at: self.created_at,
            participant_count: count,
            vote_limit_per_column: self.vote_limit_per_column,
            timer_end: self.timer_end,
        }
    }
}

/// Columns with the given ids and names, and no tickets.
pub open spec fn fresh_columns(ids: Seq<String>, names: Seq<String>) -> Seq<ColumnModel> {
    Seq::new(names.len(), |i: int| ColumnModel { id: ids[i]@, name: names[i]@, tickets: Seq::empty() })
}

/// Whether no id occurs twice in `v`.
pub fn all_distinct(v: &Vec<String>) -> (r: bool)
    ensures
        r == no_dup_ids(v@),
{
    let mut i: usize = 0;
    while i < v.len()
        invariant
            i <= v@.len(),
            forall|a: int, b: int| 0 <= a < i && 0 <= b < v@.len() && a != b ==> #[trigger] v@[a]@ != #[trigger] v@[b]@,
        decreases v@.len() - i,
    {
        let mut j: usize = 0;
        while j < v.len()
            invariant
                i < v@.len(),
                j <= v@.len(),
                forall|a: int, b: int| 0 <= a < i && 0 <= b < v@.len() && a != b ==> #[trigger] v@[a]@ != #[trigger] v@[b]@,
                forall|b: int| 0 <= b < j && b != i ==> v@[i as int]@ != #[trigger] v@[b]@,
            decreases v@.len() - j,
        {
            if j != i && v[i] == v[j] {
                return false;
            }
            j += 1;
        }
        i += 1;
    }
    true
}

impl Board {
    /// A new board: not blurred, votes shown, no vote limit, no timer, and one empty column
    /// per id and name.
    pub fn new(
        id: String,
        title: String,
        column_ids: &Vec<String>,
        column_names: &Vec<String>,
        facilitator_token: String,
        facilitator_id: String,
        created_at: i64,
        is_anonymous: bool,
    ) -> (r: Board)
        requires
            column_ids@.len() == column_names@.len(),
            no_dup_ids(column_ids@),
        ensures
            r.wf(),
            r@ == (BoardModel {
                id: id@,
                title: title@,
                columns: fresh_columns(column_ids@, column_names@),
                is_blurred: false,
                is_anonymous,
                hide_votes: false,
                created_at: created_at as int,
                facilitator_token: facilitator_token@,
                facilitator_id: Some(facilitator_id@),
                vote_limit_per_column: None,
                timer_end: None,
            }),
    {
        let mut columns: Vec<Column> = Vec::new();
        let mut i: usize = 0;
        while i < column_names.len()
            invariant
                column_ids@.len() == column_names@.len(),
                i <= column_names@.len(),
                columns@.len() == i,
                columns@.map_values(|c: Column| c@) =~= fresh_columns(column_ids@, column_names@).take(i as int),
            decreases column_names@.len() - i,
        {
            let col = Column { id: column_ids[i].clone(), name: column_names[i].clone(), tickets: Vec::new() };
            proof {
                assert(col@.tickets =~= Seq::<TicketModel>::empty());
            }
            let ghost prev = columns@;
            columns.push(col);
            proof {
                assert forall|j: int| 0 <= j <= i implies #[trigger] columns@[j]@ == fresh_columns(column_ids@, column_names@)[j] by {
                    if j < i {
                        assert(columns@[j] == prev[j]);
                        assert(prev.map_values(|c: Column| c@)[j] == fresh_columns(column_ids@, column_names@).take(i as int)[j]);
                    }
                }
                assert(columns@.map_values(|c: Column| c@) =~= fresh_columns(column_ids@, column_names@).take(i as int + 1));
            }
            i += 1;
        }
        let b = Board {
            id,
            title,
            columns,
            is_blurred: false,
            is_anonymous,
            hide_votes: false,
            created_at,
            facilitator_token,
            facilitator_id: Some(facilitator_id),
            vote_limit_per_column: None,
            timer_end: None,
        };
        proof {
            let fc = fresh_columns(column_ids@, column_names@);
            assert(fc.take(fc.len() as int) =~= fc);
            assert(b@.columns =~= fc);
            assert forall|c: int| 0 <= c < b.columns@.len() implies #[trigger] b.columns@[c].tickets@.len() == 0 by {
                assert(b@.columns[c].tickets.len() == 0);
            }
            assert forall|c1: int, k1: int| !valid_pos(b@, c1, k1) by {
                if 0 <= c1 < b@.columns.len() {
                    assert(b@.columns[c1].tickets.len() == 0);
                }
            }
            assert forall|c1: int, c2: int|
                0 <= c1 < b@.columns.len() && 0 <= c2 < b@.columns.len() && #[trigger] b@.columns[c1].id == #[trigger] b@.columns[c2].id
                    implies c1 == c2 by {
                assert(b@.columns[c1].id == column_ids@[c1]@);
                assert(b@.columns[c2].id == column_ids@[c2]@);
            }
        }
        b
    }
}

} // verus!
