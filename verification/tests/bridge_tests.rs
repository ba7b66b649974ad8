use nbreact::session::AppState;
use nbreact::bridge::{call_frontend, submit_mcp_response};
use nbreact::dispatch::{bridged_response, serialize_response};
use nbreact::value::JsonValue;
use nbreact::codec::serialize_value;

#[test]
fn issued_id_completes_exactly_once() {
    let mut st: AppState<u32> = AppState::new();
    let (id, _notification) = call_frontend(&mut st, 7u32, b"notebook_start".to_vec(), None);
    assert_eq!(id.len(), 36);
    let first = submit_mcp_response(&mut st, &id);
    assert_eq!(first, Ok(7u32));
    let second = submit_mcp_response(&mut st, &id);
    assert_eq!(second, Err("Request ID not found"));
}

#[test]
fn unknown_id_fails_not_found() {
    let mut st: AppState<u32> = AppState::new();
    let r = submit_mcp_response(&mut st, b"never-issued-id");
    assert_eq!(r, Err("Request ID not found"));
}

#[test]
fn two_live_ids_complete_independently() {
    let mut st: AppState<u32> = AppState::new();
    let (id1, _) = call_frontend(&mut st, 1u32, b"notebook_start".to_vec(), None);
    let (id2, _) = call_frontend(&mut st, 2u32, b"notebook_evaluate".to_vec(), None);
    assert_ne!(id1, id2);
    assert_eq!(submit_mcp_response(&mut st, &id2), Ok(2u32));
    assert_eq!(submit_mcp_response(&mut st, &id1), Ok(1u32));
    assert_eq!(submit_mcp_response(&mut st, &id1), Err("Request ID not found"));
}

#[test]
fn notification_carries_id_method_params() {
    let mut st: AppState<u32> = AppState::new();
    let (id, notification) = call_frontend(&mut st, 5u32, b"notebook_start".to_vec(), None);
    let text = String::from_utf8(serialize_value(&notification)).unwrap();
    let expected = format!(
        "{{\"id\":\"{}\",\"method\":\"notebook_start\",\"params\":null}}",
        String::from_utf8(id).unwrap()
    );
    assert_eq!(text, expected);
}

#[test]
fn bridge_completion_resolves_to_submitted_value() {
    // A bridged call for notebook_start, completed with {"ok":true}: the
    // reply wraps the stringified value as one text content item.
    let mut st: AppState<JsonValue> = AppState::new();
    let (id, _) = call_frontend(&mut st, JsonValue::Null, b"notebook_start".to_vec(), None);
    // the slot placeholder stands for the waiting caller; completion finds it
    let slot = submit_mcp_response(&mut st, &id);
    assert!(slot.is_ok());
    let resolved = JsonValue::Obj(vec![(b"ok".to_vec(), JsonValue::Bool(true))]);
    let resp = bridged_response(Some(JsonValue::Num(b"9".to_vec())), Ok(resolved));
    let line = String::from_utf8(serialize_response(resp)).unwrap();
    assert_eq!(
        line,
        "{\"jsonrpc\":\"2.0\",\"result\":{\"content\":[{\"type\":\"text\",\"text\":\"{\\\"ok\\\":true}\"}]},\"error\":null,\"id\":9}"
    );
}

#[test]
fn bridged_reply_is_single_line() {
    let resolved = JsonValue::Str(b"two\nlines".to_vec());
    let resp = bridged_response(Some(JsonValue::Num(b"3".to_vec())), Ok(resolved));
    let line = serialize_response(resp);
    assert!(!line.contains(&b'\n'));
    assert!(!line.contains(&b'\r'));
}

#[test]
fn bridge_failure_reported_with_is_error() {
    let resp = bridged_response(None, Err(b"Frontend disconnected".to_vec()));
    let line = String::from_utf8(serialize_response(resp)).unwrap();
    assert_eq!(
        line,
        "{\"jsonrpc\":\"2.0\",\"result\":{\"error\":\"Frontend disconnected\",\"isError\":true},\"error\":null,\"id\":null}"
    );
}
