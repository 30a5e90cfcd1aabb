//! Messages of the live-session protocol.
use vstd::prelude::*;
use crate::model::BoardView;

verus! {

/// A command from a client. `Join` must come first on a connection.
#[derive(Debug, Clone)]
pub enum ClientMessage {
    Join { participant_name: String, facilitator_token: Option<String>, participant_id: Option<String> },
    AddTicket { column_id: String, content: String },
    RemoveTicket { ticket_id: String },
    EditTicket { ticket_id: String, content: String },
    ToggleVote { ticket_id: String },
    ToggleBlur,
    ToggleHideVotes,
    MergeTickets { source_ticket_id: String, target_ticket_id: String },
    UndoMerge,
    SplitTicket { ticket_id: String, segment_index: usize },
    SetVoteLimit { limit: Option<i32> },
    StartTimer { duration_secs: i64 },
    StopTimer,
}

/// A message from the server to a client.
#[derive(Debug, Clone)]
pub enum ServerMessage {
    BoardState { board: BoardView },
    Authenticated { is_facilitator: bool, participant_id: String },
    Error { message: String },
}

} // verus!
