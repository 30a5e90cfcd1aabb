use retroboard::board::MergeSnapshot;
use retroboard::error::AppError;
use retroboard::model::{Board, CreateBoardRequest};
use retroboard::protocol::{ClientMessage, ServerMessage};
use retroboard::session::{handle_message, Connection};
use retroboard::state::AppState;

fn s(x: &str) -> String {
    x.to_string()
}

fn new_state_with_board(anonymous: bool) -> AppState {
    let mut st = AppState::new(None);
    let req = CreateBoardRequest {
        title: s("Sprint 12"),
        columns: vec![s("Went well"), s("To improve")],
        is_anonymous: anonymous,
    };
    let resp = st
        .create_board_with(req, s("owner-1"), s("board-1"), s("tok-secret"), vec![s("col-a"), s("col-b")], 1000)
        .ok()
        .unwrap();
    assert_eq!(resp.facilitator_token, "tok-secret");
    st
}

fn join(st: &mut AppState, name: &str, token: Option<&str>, pid: &str) -> Connection {
    let msg = ClientMessage::Join {
        participant_name: s(name),
        facilitator_token: token.map(|t| t.to_string()),
        participant_id: Some(s(pid)),
    };
    st.join(&s("board-1"), msg, &None, s("unused")).ok().unwrap()
}

fn ticket_ids(st: &AppState, col: usize) -> Vec<String> {
    let view = st.get_board(&s("board-1")).ok().unwrap();
    view.columns[col].tickets.iter().map(|t| t.id.clone()).collect()
}

fn board(st: &AppState) -> Board {
    st.boards.get(&s("board-1")).unwrap().clone()
}

#[test]
fn example_scenario_blur_and_ticket_broadcast() {
    let mut st = new_state_with_board(false);
    let p1 = join(&mut st, "Alice", None, "p1");
    assert!(!p1.is_facilitator);
    assert!(st.dispatch(&p1, ClientMessage::AddTicket { column_id: s("col-a"), content: s("Good standup") }, s("t1"), 5));
    let p2 = join(&mut st, "Bob", Some("tok-secret"), "p2");
    assert!(p2.is_facilitator);
    assert!(st.dispatch(&p2, ClientMessage::ToggleBlur, s("x"), 6));
    match st.board_state(&s("board-1")) {
        Some(ServerMessage::BoardState { board }) => {
            assert!(board.is_blurred);
            assert_eq!(board.participant_count, 2);
            assert_eq!(board.columns[0].name, "Went well");
            assert_eq!(board.columns[0].tickets.len(), 1);
            let t = &board.columns[0].tickets[0];
            assert_eq!(t.content, "Good standup");
            assert_eq!(t.author_id, "p1");
            assert_eq!(t.author_name, "Alice");
        }
        _ => panic!("expected a board state"),
    }
}

#[test]
fn join_token_or_identity_makes_facilitator() {
    let mut st = new_state_with_board(false);
    let by_token = join(&mut st, "A", Some("tok-secret"), "a");
    assert!(by_token.is_facilitator);
    let wrong = join(&mut st, "B", Some("tok-wrong"), "b");
    assert!(!wrong.is_facilitator);
    let msg = ClientMessage::Join { participant_name: s("C"), facilitator_token: None, participant_id: None };
    let by_identity = st.join(&s("board-1"), msg, &Some(s("owner-1")), s("fresh-c")).ok().unwrap();
    assert!(by_identity.is_facilitator);
    assert_eq!(by_identity.participant_id, "fresh-c");
    let msg = ClientMessage::Join { participant_name: s("D"), facilitator_token: None, participant_id: Some(s("")) };
    let other = st.join(&s("board-1"), msg, &Some(s("someone-else")), s("fresh-d")).ok().unwrap();
    assert!(!other.is_facilitator);
    assert_eq!(other.participant_id, "fresh-d");
    assert_eq!(st.participant_count(&s("board-1")), 4);
}

#[test]
fn join_errors_leave_state_unchanged() {
    let mut st = new_state_with_board(false);
    let r = st.join(&s("board-1"), ClientMessage::ToggleBlur, &None, s("f"));
    assert!(matches!(r, Err(AppError::BadRequest(_))));
    let msg = ClientMessage::Join { participant_name: s("A"), facilitator_token: None, participant_id: None };
    let r = st.join(&s("no-such-board"), msg, &None, s("f"));
    assert!(matches!(r, Err(AppError::NotFound(_))));
    assert_eq!(st.participant_count(&s("board-1")), 0);
}

#[test]
fn join_now_draws_eight_character_id() {
    let mut st = new_state_with_board(false);
    let msg = ClientMessage::Join { participant_name: s("A"), facilitator_token: None, participant_id: None };
    let c = st.join_now(&s("board-1"), msg, &None).ok().unwrap();
    assert_eq!(c.participant_id.chars().count(), 8);
    let msg = ClientMessage::Join { participant_name: s("B"), facilitator_token: None, participant_id: Some(s("keep")) };
    let c = st.join_now(&s("board-1"), msg, &None).ok().unwrap();
    assert_eq!(c.participant_id, "keep");
}

#[test]
fn anonymous_board_hides_names() {
    let mut st = new_state_with_board(true);
    let p = join(&mut st, "Alice", None, "p1");
    assert_eq!(p.participant_name, "");
    assert_eq!(st.participants.get(&s("board-1")).unwrap()[0].name, "");
    assert!(st.dispatch(&p, ClientMessage::AddTicket { column_id: s("col-a"), content: s("hi") }, s("t1"), 1));
    let view = st.get_board(&s("board-1")).ok().unwrap();
    assert_eq!(view.columns[0].tickets[0].author_name, "");
    assert_eq!(view.columns[0].tickets[0].author_id, "p1");
}

#[test]
fn toggle_vote_three_times_equals_once() {
    let mut st = new_state_with_board(false);
    let p = join(&mut st, "A", None, "p1");
    assert!(st.dispatch(&p, ClientMessage::AddTicket { column_id: s("col-a"), content: s("x") }, s("t1"), 1));
    assert!(st.dispatch(&p, ClientMessage::ToggleVote { ticket_id: s("t1") }, s("u"), 2));
    let after_first = board(&st).columns[0].tickets[0].votes.clone();
    assert_eq!(after_first, vec![s("p1")]);
    assert!(st.dispatch(&p, ClientMessage::ToggleVote { ticket_id: s("t1") }, s("u"), 3));
    assert!(board(&st).columns[0].tickets[0].votes.is_empty());
    assert!(st.dispatch(&p, ClientMessage::ToggleVote { ticket_id: s("t1") }, s("u"), 4));
    assert_eq!(board(&st).columns[0].tickets[0].votes, after_first);
}

#[test]
fn vote_limit_caps_votes_per_column() {
    let mut st = new_state_with_board(false);
    let fac = join(&mut st, "F", Some("tok-secret"), "f");
    let p = join(&mut st, "A", None, "p1");
    for (id, col) in [("t1", "col-a"), ("t2", "col-a"), ("t3", "col-b")] {
        assert!(st.dispatch(&p, ClientMessage::AddTicket { column_id: s(col), content: s(id) }, s(id), 1));
    }
    assert!(!st.dispatch(&p, ClientMessage::SetVoteLimit { limit: Some(1) }, s("u"), 1));
    assert!(!st.dispatch(&fac, ClientMessage::SetVoteLimit { limit: Some(0) }, s("u"), 1));
    assert!(st.dispatch(&fac, ClientMessage::SetVoteLimit { limit: Some(1) }, s("u"), 1));
    assert_eq!(board(&st).vote_limit_per_column, Some(1));
    assert!(st.dispatch(&p, ClientMessage::ToggleVote { ticket_id: s("t1") }, s("u"), 2));
    assert!(!st.dispatch(&p, ClientMessage::ToggleVote { ticket_id: s("t2") }, s("u"), 3));
    assert!(st.dispatch(&p, ClientMessage::ToggleVote { ticket_id: s("t3") }, s("u"), 4));
    assert_eq!(board(&st).count_votes_in_column(&s("col-a"), &s("p1")), 1);
    assert!(st.dispatch(&p, ClientMessage::ToggleVote { ticket_id: s("t1") }, s("u"), 5));
    assert!(st.dispatch(&p, ClientMessage::ToggleVote { ticket_id: s("t2") }, s("u"), 6));
    assert!(st.dispatch(&fac, ClientMessage::SetVoteLimit { limit: None }, s("u"), 7));
    assert!(st.dispatch(&p, ClientMessage::ToggleVote { ticket_id: s("t1") }, s("u"), 8));
    assert_eq!(board(&st).count_votes_in_column(&s("col-a"), &s("p1")), 2);
    assert!(!st.dispatch(&p, ClientMessage::ToggleVote { ticket_id: s("missing") }, s("u"), 9));
}

#[test]
fn merge_then_undo_restores_tickets() {
    let mut st = new_state_with_board(false);
    let a = join(&mut st, "Ann", None, "pa");
    let b = join(&mut st, "Ben", None, "pb");
    assert!(st.dispatch(&a, ClientMessage::AddTicket { column_id: s("col-a"), content: s("first") }, s("t1"), 10));
    assert!(st.dispatch(&b, ClientMessage::AddTicket { column_id: s("col-a"), content: s("second") }, s("t2"), 20));
    assert!(st.dispatch(&b, ClientMessage::AddTicket { column_id: s("col-b"), content: s("target") }, s("t3"), 30));
    assert!(st.dispatch(&b, ClientMessage::ToggleVote { ticket_id: s("t1") }, s("u"), 31));
    let before = board(&st);
    assert!(st.dispatch(&b, ClientMessage::MergeTickets { source_ticket_id: s("t1"), target_ticket_id: s("t3") }, s("u"), 40));
    assert_eq!(ticket_ids(&st, 0), vec![s("t2")]);
    let merged = board(&st).columns[1].tickets[0].clone();
    assert_eq!(merged.content, "target\nfirst");
    assert_eq!(merged.votes, vec![s("pb")]);
    assert!(st.dispatch(&a, ClientMessage::UndoMerge, s("u"), 50));
    let after = board(&st);
    assert_eq!(ticket_ids(&st, 0), vec![s("t1"), s("t2")]);
    let restored = &after.columns[0].tickets[0];
    let original = &before.columns[0].tickets[0];
    assert_eq!(restored.id, original.id);
    assert_eq!(restored.content, original.content);
    assert_eq!(restored.author_id, original.author_id);
    assert_eq!(restored.author_name, original.author_name);
    assert_eq!(restored.votes, original.votes);
    assert_eq!(restored.created_at, original.created_at);
    assert_eq!(after.columns[1].tickets[0].content, "target");
    assert!(!st.dispatch(&a, ClientMessage::UndoMerge, s("u"), 60));
}

#[test]
fn second_merge_makes_first_permanent() {
    let mut st = new_state_with_board(false);
    let a = join(&mut st, "Ann", None, "pa");
    for (id, text) in [("t1", "one"), ("t2", "two"), ("t3", "three"), ("t4", "four")] {
        assert!(st.dispatch(&a, ClientMessage::AddTicket { column_id: s("col-a"), content: s(text) }, s(id), 1));
    }
    assert!(st.dispatch(&a, ClientMessage::MergeTickets { source_ticket_id: s("t1"), target_ticket_id: s("t2") }, s("u"), 2));
    assert!(st.dispatch(&a, ClientMessage::MergeTickets { source_ticket_id: s("t3"), target_ticket_id: s("t4") }, s("u"), 3));
    assert!(st.dispatch(&a, ClientMessage::UndoMerge, s("u"), 4));
    assert_eq!(ticket_ids(&st, 0), vec![s("t2"), s("t3"), s("t4")]);
    let b = board(&st);
    assert_eq!(b.columns[0].tickets[0].content, "two\none");
    assert_eq!(b.columns[0].tickets[2].content, "four");
    assert!(!st.dispatch(&a, ClientMessage::UndoMerge, s("u"), 5));
    assert_eq!(ticket_ids(&st, 0), vec![s("t2"), s("t3"), s("t4")]);
}

#[test]
fn merge_refuses_same_or_missing_ticket() {
    let mut st = new_state_with_board(false);
    let a = join(&mut st, "Ann", None, "pa");
    assert!(st.dispatch(&a, ClientMessage::AddTicket { column_id: s("col-a"), content: s("one") }, s("t1"), 1));
    assert!(!st.dispatch(&a, ClientMessage::MergeTickets { source_ticket_id: s("t1"), target_ticket_id: s("t1") }, s("u"), 2));
    assert!(!st.dispatch(&a, ClientMessage::MergeTickets { source_ticket_id: s("t1"), target_ticket_id: s("nope") }, s("u"), 2));
    assert!(!st.dispatch(&a, ClientMessage::UndoMerge, s("u"), 3));
    assert_eq!(ticket_ids(&st, 0), vec![s("t1")]);
}

#[test]
fn edit_and_remove_rights() {
    let mut st = new_state_with_board(false);
    let author = join(&mut st, "Ann", None, "pa");
    let other = join(&mut st, "Ben", None, "pb");
    let fac = join(&mut st, "Fay", Some("tok-secret"), "pf");
    assert!(st.dispatch(&author, ClientMessage::AddTicket { column_id: s("col-a"), content: s("one") }, s("t1"), 1));
    assert!(st.dispatch(&author, ClientMessage::AddTicket { column_id: s("col-a"), content: s("two") }, s("t2"), 1));
    assert!(!st.dispatch(&other, ClientMessage::EditTicket { ticket_id: s("t1"), content: s("hacked") }, s("u"), 2));
    assert!(!st.dispatch(&fac, ClientMessage::EditTicket { ticket_id: s("t1"), content: s("hacked") }, s("u"), 2));
    assert!(st.dispatch(&author, ClientMessage::EditTicket { ticket_id: s("t1"), content: s("edited") }, s("u"), 2));
    assert_eq!(board(&st).columns[0].tickets[0].content, "edited");
    assert!(!st.dispatch(&other, ClientMessage::RemoveTicket { ticket_id: s("t1") }, s("u"), 3));
    assert!(st.dispatch(&fac, ClientMessage::RemoveTicket { ticket_id: s("t1") }, s("u"), 3));
    assert!(st.dispatch(&author, ClientMessage::RemoveTicket { ticket_id: s("t2") }, s("u"), 3));
    assert!(!st.dispatch(&author, ClientMessage::RemoveTicket { ticket_id: s("t2") }, s("u"), 3));
    assert!(ticket_ids(&st, 0).is_empty());
}

#[test]
fn facilitator_only_settings_and_timer() {
    let mut st = new_state_with_board(false);
    let fac = join(&mut st, "F", Some("tok-secret"), "f");
    let p = join(&mut st, "A", None, "p");
    assert!(!st.dispatch(&p, ClientMessage::ToggleBlur, s("u"), 1));
    assert!(!st.dispatch(&p, ClientMessage::ToggleHideVotes, s("u"), 1));
    assert!(st.dispatch(&fac, ClientMessage::ToggleHideVotes, s("u"), 1));
    assert!(board(&st).hide_votes);
    assert!(!st.dispatch(&p, ClientMessage::StartTimer { duration_secs: 60 }, s("u"), 1000));
    assert!(!st.dispatch(&fac, ClientMessage::StartTimer { duration_secs: 0 }, s("u"), 1000));
    assert!(!st.dispatch(&fac, ClientMessage::StartTimer { duration_secs: 3601 }, s("u"), 1000));
    assert!(!st.dispatch(&fac, ClientMessage::StartTimer { duration_secs: 10 }, s("u"), i64::MAX - 5));
    assert!(st.dispatch(&fac, ClientMessage::StartTimer { duration_secs: 3600 }, s("u"), 1000));
    assert_eq!(board(&st).timer_end, Some(1000 + 3_600_000));
    assert!(!st.dispatch(&p, ClientMessage::StopTimer, s("u"), 1));
    assert!(st.dispatch(&fac, ClientMessage::StopTimer, s("u"), 1));
    assert_eq!(board(&st).timer_end, None);
    assert!(!st.dispatch(&fac, ClientMessage::Join { participant_name: s("x"), facilitator_token: None, participant_id: None }, s("u"), 1));
}

#[test]
fn facilitator_token_survives_every_command() {
    let mut st = new_state_with_board(false);
    let fac = join(&mut st, "F", Some("tok-secret"), "f");
    let msgs = vec![
        ClientMessage::AddTicket { column_id: s("col-a"), content: s("a\nb") },
        ClientMessage::ToggleBlur,
        ClientMessage::ToggleVote { ticket_id: s("t1") },
        ClientMessage::SplitTicket { ticket_id: s("t1"), segment_index: 1 },
        ClientMessage::MergeTickets { source_ticket_id: s("t2"), target_ticket_id: s("t1") },
        ClientMessage::UndoMerge,
        ClientMessage::RemoveTicket { ticket_id: s("t1") },
    ];
    let mut n = 0;
    for m in msgs {
        n += 1;
        st.dispatch(&fac, m, format!("t{}", n), n);
        assert_eq!(board(&st).facilitator_token, "tok-secret");
    }
}

#[test]
fn split_ticket_moves_one_line() {
    let mut st = new_state_with_board(false);
    let a = join(&mut st, "Ann", None, "pa");
    let other = join(&mut st, "Ben", None, "pb");
    assert!(st.dispatch(&a, ClientMessage::AddTicket { column_id: s("col-b"), content: s("alpha\nbeta\ngamma") }, s("t1"), 1));
    assert!(!st.dispatch(&other, ClientMessage::SplitTicket { ticket_id: s("t1"), segment_index: 1 }, s("t2"), 2));
    assert!(!st.dispatch(&a, ClientMessage::SplitTicket { ticket_id: s("t1"), segment_index: 3 }, s("t2"), 2));
    assert!(st.dispatch(&a, ClientMessage::SplitTicket { ticket_id: s("t1"), segment_index: 1 }, s("t2"), 2));
    let b = board(&st);
    assert_eq!(b.columns[1].tickets[0].content, "alpha\ngamma");
    assert_eq!(b.columns[1].tickets[1].id, "t2");
    assert_eq!(b.columns[1].tickets[1].content, "beta");
    assert_eq!(b.columns[1].tickets[1].author_id, "pa");
    assert!(st.dispatch(&a, ClientMessage::AddTicket { column_id: s("col-b"), content: s("single") }, s("t3"), 3));
    assert!(!st.dispatch(&a, ClientMessage::SplitTicket { ticket_id: s("t3"), segment_index: 0 }, s("t4"), 4));
}

#[test]
fn add_ticket_needs_board_column_and_fresh_id() {
    let mut st = new_state_with_board(false);
    let a = join(&mut st, "Ann", None, "pa");
    assert!(!st.dispatch(&a, ClientMessage::AddTicket { column_id: s("col-z"), content: s("x") }, s("t1"), 1));
    assert!(st.dispatch(&a, ClientMessage::AddTicket { column_id: s("col-a"), content: s("x") }, s("t1"), 1));
    assert!(!st.dispatch(&a, ClientMessage::AddTicket { column_id: s("col-a"), content: s("y") }, s("t1"), 1));
    let stale = Connection { board_id: s("gone"), participant_id: s("pa"), participant_name: s("Ann"), is_facilitator: true };
    assert!(!st.dispatch(&stale, ClientMessage::ToggleBlur, s("u"), 1));
}

#[test]
fn dispatch_now_stamps_current_time() {
    let mut st = new_state_with_board(false);
    let a = join(&mut st, "Ann", None, "pa");
    assert!(st.dispatch_now(&a, ClientMessage::AddTicket { column_id: s("col-a"), content: s("now") }));
    let t = board(&st).columns[0].tickets[0].clone();
    assert!(t.created_at > 1_600_000_000_000);
    assert_eq!(t.id.chars().count(), 8);
}

#[test]
fn leave_removes_participant_and_empty_entry() {
    let mut st = new_state_with_board(false);
    join(&mut st, "A", None, "p1");
    join(&mut st, "B", None, "p2");
    st.remove_participant(&s("board-1"), &s("p1"));
    assert_eq!(st.participant_count(&s("board-1")), 1);
    st.remove_participant(&s("board-1"), &s("p2"));
    assert_eq!(st.participant_count(&s("board-1")), 0);
    assert!(st.participants.get(&s("board-1")).is_none());
}

#[test]
fn handle_message_consumes_snapshot_even_when_undo_fails() {
    let mut b = Board::new(s("b"), s("t"), &vec![s("c")], &vec![s("C")], s("tok"), s("fid"), 0, false);
    let conn = Connection { board_id: s("b"), participant_id: s("p"), participant_name: s("P"), is_facilitator: false };
    let snap = MergeSnapshot {
        source_id: s("x"),
        source_column_id: s("missing-column"),
        source_position: 0,
        source_content: s("c"),
        source_author_id: s("p"),
        source_author_name: s("P"),
        source_created_at: 0,
        source_votes: vec![],
        target_id: s("y"),
        target_original_content: s("z"),
    };
    let mut last = Some(snap);
    assert!(!handle_message(&mut b, &mut last, &conn, ClientMessage::UndoMerge, s("f"), 0));
    assert!(last.is_none());
}

#[test]
fn anonymous_board_blanks_names_of_any_connection() {
    let mut st = new_state_with_board(true);
    let named = Connection { board_id: s("board-1"), participant_id: s("p9"), participant_name: s("Zed"), is_facilitator: false };
    assert!(st.dispatch(&named, ClientMessage::AddTicket { column_id: s("col-b"), content: s("one\ntwo") }, s("t1"), 1));
    assert!(st.dispatch(&named, ClientMessage::SplitTicket { ticket_id: s("t1"), segment_index: 0 }, s("t2"), 2));
    let b = board(&st);
    assert_eq!(b.columns[1].tickets.len(), 2);
    assert!(b.columns[1].tickets.iter().all(|t| t.author_name.is_empty()));
}

#[test]
fn gateway_queries_report_board_settings() {
    let mut st = new_state_with_board(true);
    assert_eq!(st.get_board_facilitator_token(&s("board-1")), Some(s("tok-secret")));
    assert_eq!(st.get_board_facilitator_id(&s("board-1")), Some(s("owner-1")));
    assert_eq!(st.get_board_anonymous(&s("board-1")), Some(true));
    assert_eq!(st.get_board_facilitator_token(&s("nope")), None);
    assert_eq!(st.get_board_anonymous(&s("nope")), None);
    let mut b = board(&st);
    assert!(b.column_belongs_to_board(&s("col-b")));
    assert!(!b.column_belongs_to_board(&s("col-x")));
    assert!(!b.get_blur_state());
    b.set_blur(true);
    assert!(b.get_blur_state());
    let fac = join(&mut st, "F", Some("tok-secret"), "f");
    assert!(st.dispatch(&fac, ClientMessage::ToggleBlur, s("u"), 1));
    assert!(st.dispatch(&fac, ClientMessage::ToggleBlur, s("u"), 2));
    assert!(!board(&st).is_blurred);
}

#[test]
fn undo_puts_ticket_back_in_creation_order() {
    let mut st = new_state_with_board(false);
    let a = join(&mut st, "Ann", None, "pa");
    for (id, at) in [("x", 10), ("y", 20), ("z", 30)] {
        assert!(st.dispatch(&a, ClientMessage::AddTicket { column_id: s("col-a"), content: s(id) }, s(id), at));
    }
    assert!(st.dispatch(&a, ClientMessage::MergeTickets { source_ticket_id: s("y"), target_ticket_id: s("z") }, s("u"), 40));
    assert!(st.dispatch(&a, ClientMessage::RemoveTicket { ticket_id: s("x") }, s("u"), 41));
    assert!(st.dispatch(&a, ClientMessage::UndoMerge, s("u"), 42));
    assert_eq!(ticket_ids(&st, 0), vec![s("y"), s("z")]);
}

#[test]
fn tickets_are_listed_oldest_first() {
    let mut st = new_state_with_board(false);
    let a = join(&mut st, "Ann", None, "pa");
    assert!(st.dispatch(&a, ClientMessage::AddTicket { column_id: s("col-a"), content: s("late") }, s("t2"), 200));
    assert!(st.dispatch(&a, ClientMessage::AddTicket { column_id: s("col-a"), content: s("early") }, s("t1"), 100));
    assert!(st.dispatch(&a, ClientMessage::AddTicket { column_id: s("col-a"), content: s("same") }, s("t3"), 200));
    assert_eq!(ticket_ids(&st, 0), vec![s("t1"), s("t2"), s("t3")]);
}

#[test]
fn participant_with_two_connections_stays_listed() {
    let mut st = new_state_with_board(false);
    join(&mut st, "A", None, "p1");
    join(&mut st, "A", None, "p1");
    join(&mut st, "B", None, "p2");
    st.remove_participant(&s("board-1"), &s("p1"));
    assert_eq!(st.participant_count(&s("board-1")), 2);
    assert_eq!(st.participants.get(&s("board-1")).unwrap()[0].id, "p1");
    st.remove_participant(&s("board-1"), &s("p1"));
    assert_eq!(st.participant_count(&s("board-1")), 1);
    st.remove_participant(&s("board-1"), &s("p1"));
    assert_eq!(st.participant_count(&s("board-1")), 1);
}

#[test]
fn error_messages_are_fixed() {
    let mut st = new_state_with_board(false);
    match st.join(&s("board-1"), ClientMessage::UndoMerge, &None, s("f")) {
        Err(AppError::BadRequest(m)) => assert_eq!(m, "Must send Join first"),
        _ => panic!("expected BadRequest"),
    }
    let msg = ClientMessage::Join { participant_name: s("A"), facilitator_token: None, participant_id: None };
    match st.join(&s("none"), msg, &None, s("f")) {
        Err(AppError::NotFound(m)) => assert_eq!(m, "Board not found"),
        _ => panic!("expected NotFound"),
    }
    match st.get_board(&s("none")) {
        Err(AppError::NotFound(m)) => assert_eq!(m, "Board not found"),
        _ => panic!("expected NotFound"),
    }
}
