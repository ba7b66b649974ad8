use nbreact::dispatch::{process_line, LineOutcome};

fn respond_text(line: &str) -> String {
    let (outcome, _) = process_line(line.as_bytes());
    match outcome {
        LineOutcome::Respond(out) => String::from_utf8(out).unwrap(),
        _ => panic!("expected a local response"),
    }
}

#[test]
fn ping_round_trip() {
    let out = respond_text("{\"jsonrpc\":\"2.0\",\"method\":\"ping\",\"id\":1}");
    assert_eq!(out, "{\"jsonrpc\":\"2.0\",\"result\":{},\"error\":null,\"id\":1}");
}

#[test]
fn unknown_tool_reported_in_result() {
    let out = respond_text(
        "{\"jsonrpc\":\"2.0\",\"method\":\"tools/call\",\"params\":{\"name\":\"bogus_tool\"},\"id\":2}",
    );
    assert_eq!(
        out,
        "{\"jsonrpc\":\"2.0\",\"result\":{\"error\":\"Unknown tool\"},\"error\":null,\"id\":2}"
    );
}

#[test]
fn missing_params_reported_in_result() {
    let out = respond_text("{\"jsonrpc\":\"2.0\",\"method\":\"tools/call\",\"id\":3}");
    assert_eq!(
        out,
        "{\"jsonrpc\":\"2.0\",\"result\":{\"error\":\"Missing params\"},\"error\":null,\"id\":3}"
    );
}

#[test]
fn unknown_method_reported_in_result() {
    let out = respond_text("{\"jsonrpc\":\"2.0\",\"method\":\"frobnicate\",\"id\":4}");
    assert_eq!(
        out,
        "{\"jsonrpc\":\"2.0\",\"result\":{\"error\":\"Method not found\"},\"error\":null,\"id\":4}"
    );
}

#[test]
fn initialize_payload_exact() {
    let out = respond_text("{\"jsonrpc\":\"2.0\",\"method\":\"initialize\",\"id\":1}");
    assert_eq!(
        out,
        "{\"jsonrpc\":\"2.0\",\"result\":{\"protocolVersion\":\"2024-11-05\",\"capabilities\":{\"tools\":{\"listChanged\":true}},\"serverInfo\":{\"name\":\"nbreact-tauri\",\"version\":\"1.0.0\"}},\"error\":null,\"id\":1}"
    );
}

#[test]
fn tools_list_names_both_tools() {
    let out = respond_text("{\"jsonrpc\":\"2.0\",\"method\":\"tools/list\",\"id\":1}");
    assert_eq!(
        out,
        "{\"jsonrpc\":\"2.0\",\"result\":{\"tools\":[{\"name\":\"notebook_start\",\"description\":\"Start a new practice session\",\"inputSchema\":{\"type\":\"object\",\"properties\":{\"topic\":{\"type\":\"string\"},\"difficulty\":{\"type\":\"string\"}}}},{\"name\":\"notebook_evaluate\",\"description\":\"Evaluate user code\",\"inputSchema\":{\"type\":\"object\",\"properties\":{\"code\":{\"type\":\"string\"}}}}]},\"error\":null,\"id\":1}"
    );
}

#[test]
fn notification_acknowledged_with_null() {
    let out = respond_text(
        "{\"jsonrpc\":\"2.0\",\"method\":\"notifications/initialized\"}",
    );
    assert_eq!(out, "{\"jsonrpc\":\"2.0\",\"result\":null,\"error\":null,\"id\":null}");
}

#[test]
fn blank_line_skipped() {
    let (outcome, _) = process_line(b"   \r\n");
    assert!(matches!(outcome, LineOutcome::Skip));
}

#[test]
fn malformed_line_skipped() {
    let (outcome, _) = process_line(b"{\"jsonrpc\":");
    assert!(matches!(outcome, LineOutcome::Skip));
    let (outcome2, _) = process_line(b"{\"method\":\"ping\",\"id\":1}");
    assert!(matches!(outcome2, LineOutcome::Skip));
}

#[test]
fn spaced_request_served() {
    // ordinary spaces between tokens, as many JSON writers emit
    let out = respond_text("{\"jsonrpc\": \"2.0\", \"method\": \"ping\", \"id\": 1}");
    assert_eq!(out, "{\"jsonrpc\":\"2.0\",\"result\":{},\"error\":null,\"id\":1}");
}

#[test]
fn spaces_inside_strings_kept() {
    let out = respond_text(
        "{ \"jsonrpc\" : \"2.0\" , \"method\" : \"tools/call\" , \"params\" : { \"name\" : \"a b\" } , \"id\" : 5 }",
    );
    assert_eq!(
        out,
        "{\"jsonrpc\":\"2.0\",\"result\":{\"error\":\"Unknown tool\"},\"error\":null,\"id\":5}"
    );
}

#[test]
fn surrounding_whitespace_tolerated() {
    let out = respond_text("  {\"jsonrpc\":\"2.0\",\"method\":\"ping\",\"id\":7}\n");
    assert_eq!(out, "{\"jsonrpc\":\"2.0\",\"result\":{},\"error\":null,\"id\":7}");
}

#[test]
fn bridged_tool_call_handed_to_bridge() {
    let (outcome, _) = process_line(
        "{\"jsonrpc\":\"2.0\",\"method\":\"tools/call\",\"params\":{\"name\":\"notebook_start\",\"arguments\":{\"topic\":\"arrays\"}},\"id\":9}"
            .as_bytes(),
    );
    match outcome {
        LineOutcome::Bridge { tool, args, id } => {
            assert_eq!(tool, b"notebook_start".to_vec());
            assert!(args.is_some());
            assert!(id.is_some());
        }
        _ => panic!("expected a bridged call"),
    }
}
