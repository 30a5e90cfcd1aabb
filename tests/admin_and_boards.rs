use argon2::password_hash::{PasswordHasher, SaltString};
use retroboard::admin::{bearer_token, AdminAuth, CreateTemplateRequest, UpdateTemplateRequest};
use retroboard::error::AppError;
use retroboard::model::CreateBoardRequest;
use retroboard::protocol::ClientMessage;
use retroboard::state::AppState;
use retroboard::text::{is_blank, line_count, split_off_line};

fn s(x: &str) -> String {
    x.to_string()
}

fn request(title: &str, cols: &[&str]) -> CreateBoardRequest {
    CreateBoardRequest { title: s(title), columns: cols.iter().map(|c| s(c)).collect(), is_anonymous: false }
}

#[test]
fn create_board_validates_request() {
    let mut st = AppState::new(None);
    let r = st.create_board_with(request("  \t", &["a"]), s("f"), s("b"), s("t"), vec![s("c")], 0);
    assert!(matches!(r, Err(AppError::BadRequest(_))));
    let r = st.create_board_with(request("Title", &[]), s("f"), s("b"), s("t"), vec![], 0);
    assert!(matches!(r, Err(AppError::BadRequest(_))));
    let r = st.create_board_with(request("Title", &["a", "b"]), s("f"), s("b"), s("t"), vec![s("c"), s("c")], 0);
    assert!(matches!(r, Err(AppError::Internal(_))));
    let r = st.create_board_with(request("Title", &["a", "b"]), s("f"), s("b"), s("t"), vec![s("c")], 0);
    assert!(matches!(r, Err(AppError::Internal(_))));
    assert!(st.boards.entries.is_empty());
    let resp = st.create_board_with(request("Title", &["a", "b"]), s("f"), s("b"), s("t"), vec![s("c1"), s("c2")], 7).ok().unwrap();
    assert_eq!(resp.board.id, "b");
    assert_eq!(resp.board.participant_count, 0);
    assert!(!resp.board.is_blurred);
    assert!(!resp.board.hide_votes);
    assert_eq!(resp.board.created_at, 7);
    assert_eq!(resp.board.columns.len(), 2);
    assert_eq!(resp.board.columns[1].id, "c2");
    assert_eq!(resp.board.columns[1].name, "b");
    let r = st.create_board_with(request("Other", &["a"]), s("f"), s("b"), s("t2"), vec![s("c9")], 8);
    assert!(matches!(r, Err(AppError::Internal(_))));
}

#[test]
fn create_board_draws_ids_and_identity() {
    let mut st = AppState::new(None);
    let (resp, fid) = st.create_board(request("Retro", &["x", "y", "z"]), None).ok().unwrap();
    assert_eq!(fid.chars().count(), 36);
    assert_eq!(resp.facilitator_token.chars().count(), 32);
    assert_eq!(resp.board.id.chars().count(), 10);
    assert_eq!(resp.board.columns.len(), 3);
    assert!(resp.board.columns.iter().all(|c| c.id.chars().count() == 8));
    assert!(resp.board.created_at > 1_600_000_000_000);
    let stored = st.boards.get(&resp.board.id).unwrap();
    assert_eq!(stored.facilitator_id, Some(fid.clone()));
    let (_, fid2) = st.create_board(request("Mine", &["x"]), Some(s("me"))).ok().unwrap();
    assert_eq!(fid2, "me");
    assert_eq!(st.my_boards(&Some(s("me"))).len(), 1);
    assert_eq!(st.my_boards(&Some(s("me")))[0].title, "Mine");
    assert!(st.my_boards(&None).is_empty());
    let r = st.create_board(request("", &["x"]), None);
    assert!(matches!(r, Err(AppError::BadRequest(_))));
}

#[test]
fn boards_by_facilitator_latest_first() {
    let mut st = AppState::new(None);
    st.create_board_with(request("First", &["a"]), s("me"), s("b1"), s("t"), vec![s("c")], 1).ok().unwrap();
    st.create_board_with(request("Theirs", &["a"]), s("you"), s("b2"), s("t"), vec![s("c")], 2).ok().unwrap();
    st.create_board_with(request("Second", &["a", "b"]), s("me"), s("b3"), s("t"), vec![s("c"), s("d")], 3).ok().unwrap();
    let mine = st.get_boards_by_facilitator_id(&s("me"));
    assert_eq!(mine.len(), 2);
    assert_eq!(mine[0].id, "b3");
    assert_eq!(mine[0].column_count, 2);
    assert_eq!(mine[1].id, "b1");
}

#[test]
fn get_and_delete_board() {
    let mut st = AppState::new(None);
    assert!(matches!(st.get_board(&s("b")), Err(AppError::NotFound(_))));
    st.create_board_with(request("T", &["a"]), s("f"), s("b"), s("t"), vec![s("c")], 1).ok().unwrap();
    let msg = ClientMessage::Join { participant_name: s("A"), facilitator_token: None, participant_id: Some(s("p")) };
    st.join(&s("b"), msg, &None, s("x")).ok().unwrap();
    assert_eq!(st.get_board(&s("b")).ok().unwrap().participant_count, 1);
    assert!(st.delete_board(&s("b")).is_ok());
    assert!(matches!(st.get_board(&s("b")), Err(AppError::NotFound(_))));
    assert_eq!(st.participant_count(&s("b")), 0);
    assert!(matches!(st.delete_board(&s("b")), Err(AppError::NotFound(_))));
}

#[test]
fn global_stats_and_board_lists_count_everything() {
    let mut st = AppState::new(None);
    st.create_board_with(request("One", &["a", "b"]), s("f"), s("b1"), s("t"), vec![s("c1"), s("c2")], 1).ok().unwrap();
    st.create_board_with(request("Two", &["a"]), s("f"), s("b2"), s("t"), vec![s("c3")], 2).ok().unwrap();
    let msg = ClientMessage::Join { participant_name: s("A"), facilitator_token: None, participant_id: Some(s("p")) };
    let conn = st.join(&s("b1"), msg, &None, s("x")).ok().unwrap();
    assert!(st.dispatch(&conn, ClientMessage::AddTicket { column_id: s("c1"), content: s("x") }, s("t1"), 3));
    assert!(st.dispatch(&conn, ClientMessage::AddTicket { column_id: s("c2"), content: s("y") }, s("t2"), 3));
    assert!(st.dispatch(&conn, ClientMessage::ToggleVote { ticket_id: s("t1") }, s("u"), 4));
    let g = st.global_stats();
    assert_eq!((g.board_count, g.ticket_count, g.vote_count, g.online_participants), (2, 2, 1, 1));
    let rows = st.admin_list_boards();
    assert_eq!(rows.len(), 2);
    assert_eq!(rows[0].id, "b2");
    assert_eq!((rows[1].column_count, rows[1].ticket_count, rows[1].vote_count), (2, 2, 1));
    let list = st.list_boards();
    assert_eq!(list[1].online_participants, 1);
    assert_eq!(list[0].online_participants, 0);
    let d = st.get_board_detail(&s("b1")).ok().unwrap();
    assert_eq!(d.facilitator_token, "t");
    assert_eq!(d.columns[0].ticket_count, 1);
    assert_eq!(d.online_participants, 1);
    assert!(matches!(st.get_board_detail(&s("zz")), Err(AppError::NotFound(_))));
}

#[test]
fn templates_rules() {
    let mut st = AppState::new(None);
    let req = |id: &str, name: &str, cols: &[&str]| CreateTemplateRequest {
        id: s(id),
        name: s(name),
        description: s("d"),
        columns: cols.iter().map(|c| s(c)).collect(),
        position: 2,
    };
    assert!(matches!(st.create_template(req(" ", "n", &["a"])), Err(AppError::BadRequest(_))));
    assert!(matches!(st.create_template(req("i", "", &["a"])), Err(AppError::BadRequest(_))));
    assert!(matches!(st.create_template(req("i", "n", &[])), Err(AppError::BadRequest(_))));
    assert!(st.create_template(req("i", "n", &["a", "b"])).is_ok());
    assert!(matches!(st.create_template(req("i", "n2", &["a"])), Err(AppError::Internal(_))));
    let list = st.list_templates();
    assert_eq!(list.len(), 1);
    assert_eq!(list[0].columns, vec![s("a"), s("b")]);
    let upd = |name: &str, cols: &[&str]| UpdateTemplateRequest {
        name: s(name),
        description: s("e"),
        columns: cols.iter().map(|c| s(c)).collect(),
        position: 1,
    };
    assert!(matches!(st.update_template(&s("i"), upd("", &["a"])), Err(AppError::BadRequest(_))));
    assert!(matches!(st.update_template(&s("i"), upd("n", &[])), Err(AppError::BadRequest(_))));
    assert!(matches!(st.update_template(&s("zz"), upd("n", &["a"])), Err(AppError::NotFound(_))));
    assert!(st.update_template(&s("i"), upd("New", &["c"])).is_ok());
    assert_eq!(st.list_templates()[0].name, "New");
    assert!(st.delete_template(&s("i")).is_ok());
    assert!(matches!(st.delete_template(&s("i")), Err(AppError::NotFound(_))));
}

#[test]
fn admin_auth_checks_header_and_hash() {
    let salt = SaltString::from_b64("c29tZXNhbHR2YWx1ZQ").unwrap();
    let hash = argon2::Argon2::default().hash_password(b"letmein", &salt).unwrap().to_string();
    assert!(matches!(AdminAuth::authorize(&None, &Some(s("Bearer letmein"))), Err(AppError::NotFound(_))));
    assert!(matches!(AdminAuth::authorize(&Some(hash.clone()), &None), Err(AppError::Unauthorized(_))));
    assert!(matches!(AdminAuth::authorize(&Some(hash.clone()), &Some(s("Basic letmein"))), Err(AppError::Unauthorized(_))));
    assert!(matches!(AdminAuth::authorize(&Some(s("not a hash")), &Some(s("Bearer letmein"))), Err(AppError::Internal(_))));
    assert!(matches!(AdminAuth::authorize(&Some(hash.clone()), &Some(s("Bearer wrong"))), Err(AppError::Unauthorized(_))));
    assert!(AdminAuth::authorize(&Some(hash), &Some(s("Bearer letmein"))).is_ok());
}

#[test]
fn bearer_token_strips_scheme() {
    assert_eq!(bearer_token(&s("Bearer abc")), Some(s("abc")));
    assert_eq!(bearer_token(&s("Bearer ")), Some(s("")));
    assert_eq!(bearer_token(&s("Bearer")), None);
    assert_eq!(bearer_token(&s("bearer abc")), None);
}

#[test]
fn text_lines_and_blank() {
    assert!(is_blank(&s("")));
    assert!(is_blank(&s(" \t\n\u{3000}")));
    assert!(!is_blank(&s(" x ")));
    assert_eq!(line_count(&s("")), 1);
    assert_eq!(line_count(&s("a\n\nb")), 3);
    assert_eq!(split_off_line(&s("a\nbé\nc"), 1), (s("a\nc"), s("bé")));
    assert_eq!(split_off_line(&s("a\n"), 1), (s("a"), s("")));
}

#[test]
fn facilitator_boards_ordered_by_creation_time() {
    let mut st = AppState::new(None);
    st.create_board_with(request("Later", &["a"]), s("me"), s("b1"), s("t"), vec![s("c")], 50).ok().unwrap();
    st.create_board_with(request("Earlier", &["a"]), s("me"), s("b2"), s("t"), vec![s("c")], 10).ok().unwrap();
    st.create_board_with(request("Latest", &["a"]), s("me"), s("b3"), s("t"), vec![s("c")], 90).ok().unwrap();
    st.create_board_with(request("Tie", &["a"]), s("me"), s("b4"), s("t"), vec![s("c")], 50).ok().unwrap();
    let ids: Vec<String> = st.get_boards_by_facilitator_id(&s("me")).into_iter().map(|b| b.id).collect();
    assert_eq!(ids, vec![s("b3"), s("b4"), s("b1"), s("b2")]);
}

#[test]
fn admin_error_messages_are_fixed() {
    let mut st = AppState::new(None);
    let msg = |r: Result<(), AppError>| match r {
        Err(AppError::BadRequest(m)) | Err(AppError::NotFound(m)) | Err(AppError::Internal(m)) | Err(AppError::Unauthorized(m)) => m,
        Ok(()) => s("ok"),
    };
    let create = |id: &str, name: &str, cols: &[&str]| CreateTemplateRequest {
        id: s(id),
        name: s(name),
        description: s(""),
        columns: cols.iter().map(|c| s(c)).collect(),
        position: 0,
    };
    assert_eq!(msg(st.create_template(create("", "n", &["a"]))), "ID and name are required");
    assert_eq!(msg(st.create_template(create("i", "n", &[]))), "At least one column is required");
    assert_eq!(msg(st.create_template(create("i", "n", &["a"]))), "ok");
    assert_eq!(msg(st.create_template(create("i", "n", &["a"]))), "Internal server error");
    let upd = |name: &str| UpdateTemplateRequest { name: s(name), description: s(""), columns: vec![s("a")], position: 0 };
    assert_eq!(msg(st.update_template(&s("i"), upd(" "))), "Name is required");
    assert_eq!(msg(st.update_template(&s("zz"), upd("n"))), "Template not found");
    assert_eq!(msg(st.delete_template(&s("zz"))), "Template not found");
    assert_eq!(msg(st.delete_board(&s("zz"))), "Board not found");
    let r = st.create_board_with(request(" ", &["a"]), s("f"), s("b"), s("t"), vec![s("c")], 0);
    assert!(matches!(r, Err(AppError::BadRequest(m)) if m == "Title is required"));
    let r = st.create_board_with(request("T", &[]), s("f"), s("b"), s("t"), vec![], 0);
    assert!(matches!(r, Err(AppError::BadRequest(m)) if m == "At least one column is required"));
    assert!(matches!(st.get_board_detail(&s("zz")), Err(AppError::NotFound(m)) if m == "Board not found"));
    assert!(matches!(AdminAuth::authorize(&None, &None), Err(AppError::NotFound(m)) if m == "Admin interface not enabled"));
    assert!(matches!(AdminAuth::authorize(&Some(s("h")), &None), Err(AppError::Unauthorized(m)) if m == "Missing Authorization header"));
    assert!(matches!(AdminAuth::authorize(&Some(s("h")), &Some(s("Basic x"))), Err(AppError::Unauthorized(m)) if m == "Invalid Authorization format"));
    assert!(matches!(AdminAuth::authorize(&Some(s("h")), &Some(s("Bearer x"))), Err(AppError::Internal(m)) if m == "Invalid stored hash"));
}
