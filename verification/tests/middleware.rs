use porkbun_webhook::middleware::{
    has_failed, set_trace_request_bodies, show_body, traces_body, truncate_body, BodyTracing,
};

#[test]
fn only_changes_are_traced() {
    let mut tracing = BodyTracing { enabled: false };
    assert!(!traces_body(&tracing, "POST", "/records"));
    set_trace_request_bodies(&mut tracing, true);
    assert!(traces_body(&tracing, "POST", "/records"));
    assert!(!traces_body(&tracing, "GET", "/records"));
    assert!(!traces_body(&tracing, "POST", "/adjustendpoints"));
    set_trace_request_bodies(&mut tracing, false);
    assert!(!traces_body(&tracing, "POST", "/records"));
}

#[test]
fn short_bodies_are_shown_whole() {
    let body = "x".repeat(4096);
    assert_eq!(truncate_body(&body), body);
    assert_eq!(show_body(b"{}"), "{}");
}

#[test]
fn long_bodies_are_cut() {
    let body = "x".repeat(5000);
    assert_eq!(
        truncate_body(&body),
        format!("{}... (truncated, 5000 bytes total)", "x".repeat(4096))
    );
}

#[test]
fn no_character_is_cut_in_two() {
    let body = format!("x{}", "\u{20ac}".repeat(1400));
    assert_eq!(
        show_body(body.as_bytes()),
        format!(
            "x{}... (truncated, 4201 bytes total)",
            "\u{20ac}".repeat(1365)
        )
    );
}

#[test]
fn what_is_no_text_is_replaced() {
    assert_eq!(show_body(&[b'a', 0xff, b'b']), "a\u{fffd}b");
}

#[test]
fn client_and_server_errors_count_as_failed() {
    assert!(!has_failed(204));
    assert!(!has_failed(399));
    assert!(has_failed(400));
    assert!(has_failed(422));
    assert!(has_failed(599));
    assert!(!has_failed(600));
}
