use nbreact::session::{AppState, NavError, Question, Session};

fn q(id: &str, title: &str) -> Question {
    Question {
        id: id.to_string(),
        title: title.to_string(),
        description: format!("solve {}", title),
        requirements: vec!["be correct".to_string(), "be fast".to_string()],
        examples: "input -> output".to_string(),
        starter_code: "fn main() {}".to_string(),
        difficulty: "easy".to_string(),
        topic: "arrays".to_string(),
    }
}

fn session(cursor: usize, n: usize) -> Session {
    let mut questions = Vec::new();
    for i in 0..n {
        questions.push(q(&format!("q{}", i), &format!("Question {}", i)));
    }
    Session {
        session_id: "s-1".to_string(),
        topic: "arrays".to_string(),
        difficulty: "easy".to_string(),
        questions_per_session: n,
        current_question_index: cursor,
        questions,
        start_time: "2024-01-01T00:00:00Z".to_string(),
        scores: vec![b"85.0".to_vec(), b"90.5".to_vec()],
    }
}

#[test]
fn advance_at_last_fails_and_keeps_cursor() {
    let mut st: AppState<u32> = AppState::new();
    st.install_session(session(2, 3));
    let r = st.advance_session();
    assert_eq!(r, Err(NavError::NoMoreItems));
    assert_eq!(st.session.as_ref().unwrap().current_question_index, 2);
}

#[test]
fn advance_moves_cursor_and_returns_next() {
    let mut st: AppState<u32> = AppState::new();
    st.install_session(session(0, 3));
    let r = st.advance_session().unwrap();
    assert_eq!(r.id, "q1");
    assert_eq!(st.session.as_ref().unwrap().current_question_index, 1);
}

#[test]
fn retreat_at_first_fails_and_keeps_cursor() {
    let mut st: AppState<u32> = AppState::new();
    st.install_session(session(0, 3));
    let r = st.previous_session();
    assert_eq!(r, Err(NavError::AlreadyAtFirst));
    assert_eq!(st.session.as_ref().unwrap().current_question_index, 0);
}

#[test]
fn retreat_moves_cursor_and_returns_previous() {
    let mut st: AppState<u32> = AppState::new();
    st.install_session(session(2, 3));
    let r = st.previous_session().unwrap();
    assert_eq!(r.id, "q1");
    assert_eq!(st.session.as_ref().unwrap().current_question_index, 1);
}

#[test]
fn no_session_fails_everywhere() {
    let mut st: AppState<u32> = AppState::new();
    assert_eq!(st.get_current_question(), Err(NavError::NoActiveSession));
    assert_eq!(st.advance_session(), Err(NavError::NoActiveSession));
    assert_eq!(st.previous_session(), Err(NavError::NoActiveSession));
    assert_eq!(NavError::NoActiveSession.message(), "No active session");
    assert_eq!(NavError::NoMoreItems.message(), "No more questions in session");
    assert_eq!(NavError::AlreadyAtFirst.message(), "Already at first question");
}

#[test]
fn out_of_range_cursor_returns_last_without_correction() {
    let mut st: AppState<u32> = AppState::new();
    st.install_session(session(9, 3));
    let r = st.get_current_question().unwrap();
    assert_eq!(r.id, "q2");
    assert_eq!(st.session.as_ref().unwrap().current_question_index, 9);
}

#[test]
fn empty_sequence_is_no_active_session() {
    let mut st: AppState<u32> = AppState::new();
    st.install_session(session(0, 0));
    assert_eq!(st.get_current_question(), Err(NavError::NoActiveSession));
}

#[test]
fn persisted_document_reflects_new_cursor_and_reads_back() {
    let mut st: AppState<u32> = AppState::new();
    st.install_session(session(0, 3));
    st.advance_session().unwrap();
    let doc = st.session_document().unwrap();
    let mut st2: AppState<u32> = AppState::new();
    let (loaded, _) = st2.load_session(&doc);
    let loaded = loaded.unwrap();
    assert_eq!(loaded.current_question_index, 1);
    assert_eq!(&loaded, st.session.as_ref().unwrap());
    // the in-memory copy was replaced wholesale too
    assert_eq!(st2.session.as_ref().unwrap(), st.session.as_ref().unwrap());
    // and a second save round-trips to the same bytes
    assert_eq!(st2.session_document().unwrap(), doc);
}

#[test]
fn malformed_document_rejected() {
    let mut st: AppState<u32> = AppState::new();
    let (r, _) = st.load_session(b"{\"session_id\":42}");
    assert_eq!(r, Err("Failed to parse session JSON"));
    assert!(st.session.is_none());
    let (r2, _) = st.load_session(b"not json at all");
    assert_eq!(r2, Err("Failed to parse session JSON"));
}

#[test]
fn load_replaces_wholesale_and_keeps_unicode() {
    let mut first = session(1, 2);
    first.topic = "caf\u{e9} arrays".to_string();
    first.questions[0].title = "Gr\u{fc}\u{df}e".to_string();
    let mut st: AppState<u32> = AppState::new();
    st.install_session(first);
    let doc = st.session_document().unwrap();
    let mut st2: AppState<u32> = AppState::new();
    st2.install_session(session(0, 1));
    let (loaded, _) = st2.load_session(&doc);
    let loaded = loaded.unwrap();
    assert_eq!(loaded.topic, "caf\u{e9} arrays");
    assert_eq!(loaded.questions[0].title, "Gr\u{fc}\u{df}e");
    assert_eq!(&loaded, st.session.as_ref().unwrap());
}

#[test]
fn scores_keep_their_decimal_text() {
    let mut st: AppState<u32> = AppState::new();
    st.install_session(session(0, 2));
    let doc = st.session_document().unwrap();
    let text = String::from_utf8(doc.clone()).unwrap();
    assert!(text.contains("\"scores\":[85.0,90.5]"));
    let mut st2: AppState<u32> = AppState::new();
    let (loaded, _) = st2.load_session(&doc);
    assert_eq!(loaded.unwrap().scores, vec![b"85.0".to_vec(), b"90.5".to_vec()]);
}

#[test]
fn pretty_printed_document_loads() {
    let doc = "{\n  \"session_id\": \"s-9\",\n  \"topic\": \"arrays\",\n  \"difficulty\": \"easy\",\n  \"questions_per_session\": 1,\n  \"current_question_index\": 0,\n  \"questions\": [\n    {\n      \"id\": \"q0\",\n      \"title\": \"T\",\n      \"description\": \"D\",\n      \"requirements\": [\"r1\"],\n      \"examples\": \"E\",\n      \"starter_code\": \"S\",\n      \"difficulty\": \"easy\",\n      \"topic\": \"arrays\"\n    }\n  ],\n  \"start_time\": \"t0\",\n  \"scores\": [85.5]\n}";
    let mut st: AppState<u32> = AppState::new();
    let (loaded, _) = st.load_session(doc.as_bytes());
    let loaded = loaded.unwrap();
    assert_eq!(loaded.session_id, "s-9");
    assert_eq!(loaded.current_question_index, 0);
    assert_eq!(loaded.questions.len(), 1);
    assert_eq!(loaded.questions[0].title, "T");
    assert_eq!(loaded.scores, vec![b"85.5".to_vec()]);
}
