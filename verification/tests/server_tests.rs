use db_server::{
    handle_request, parse_request, render_response, Response, ServerError, Storage, str_eq,
};

#[test]
fn status_lines_follow_the_outcome() {
    assert_eq!(
        Response::GetSuccess(String::from("v")).status_line(),
        "HTTP/1.1 200 OK\r\n\r\n"
    );
    assert_eq!(Response::SetSuccess.status_line(), "HTTP/1.1 200 OK\r\n\r\n");
    assert_eq!(Response::NotFound.status_line(), "HTTP/1.1 404 NOT FOUND\r\n\r\n");
}

#[test]
fn body_filenames_follow_the_outcome() {
    assert_eq!(Response::GetSuccess(String::from("v")).body_filename(), "get_success.html");
    assert_eq!(Response::SetSuccess.body_filename(), "set_success.html");
    assert_eq!(Response::NotFound.body_filename(), "404.html");
}

#[test]
fn a_retrieved_value_is_appended_verbatim() {
    let out = render_response(&Response::GetSuccess(String::from("red")), "<p>found</p>");
    assert_eq!(out, "HTTP/1.1 200 OK\r\n\r\n<p>found</p>red");
}

#[test]
fn a_write_acknowledgement_has_no_value_appended() {
    let out = render_response(&Response::SetSuccess, "<p>stored</p>");
    assert_eq!(out, "HTTP/1.1 200 OK\r\n\r\n<p>stored</p>");
}

#[test]
fn a_miss_renders_the_not_found_fragment() {
    let out = render_response(&Response::NotFound, "<p>no such key</p>");
    assert_eq!(out, "HTTP/1.1 404 NOT FOUND\r\n\r\n<p>no such key</p>");
}

#[test]
fn an_unrecognized_request_gets_no_response() {
    assert!(!ServerError::InvalidRequest.sends_response());
    assert!(ServerError::ParseError { reason: String::from("x") }.sends_response());
    assert!(ServerError::NoRequestFound.sends_response());
}

#[test]
fn str_eq_compares_contents() {
    assert!(str_eq("abc", "abc"));
    assert!(!str_eq("abc", "abd"));
    assert!(!str_eq("abc", "ab"));
    assert!(str_eq("", ""));
}

#[test]
fn full_scenario_over_an_empty_snapshot() {
    // Start from an empty snapshot.
    let mut st = Storage::load("").expect("an empty snapshot must load");

    // A client stores a value.
    let request = parse_request("GET /set?color=red HTTP/1.1\r\nHost: example\r\n\r\n").unwrap();
    let response = handle_request(request, &mut st);
    let out = render_response(&response, "<p>stored</p>");
    assert_eq!(out, "HTTP/1.1 200 OK\r\n\r\n<p>stored</p>");

    // The value is readable, appended after the success fragment.
    let request = parse_request("GET /get?key=color HTTP/1.1\r\nHost: example\r\n\r\n").unwrap();
    let response = handle_request(request, &mut st);
    let out = render_response(&response, "<p>found</p>");
    assert_eq!(out, "HTTP/1.1 200 OK\r\n\r\n<p>found</p>red");

    // A key never stored reports a miss.
    let request = parse_request("GET /get?key=missing HTTP/1.1\r\nHost: example\r\n\r\n").unwrap();
    let response = handle_request(request, &mut st);
    let out = render_response(&response, "<p>no such key</p>");
    assert_eq!(out, "HTTP/1.1 404 NOT FOUND\r\n\r\n<p>no such key</p>");

    // The state survives a save and a fresh load.
    let text = st.save();
    let mut reloaded = Storage::load(&text).expect("a saved snapshot must load");
    let request = parse_request("GET /get?key=color HTTP/1.1\r\nHost: example\r\n\r\n").unwrap();
    let response = handle_request(request, &mut reloaded);
    let out = render_response(&response, "<p>found</p>");
    assert_eq!(out, "HTTP/1.1 200 OK\r\n\r\n<p>found</p>red");
}
