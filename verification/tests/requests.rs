use apollo_router::request::{
    decode_query, get_action, is_html, prefers_html, redirect_if_valid, redirect_to_studio,
    studio_address_of, GetAction,
};

#[test]
fn a_browser_prefers_html() {
    assert!(prefers_html("text/html"));
    assert!(prefers_html("application/json, text/html"));
    assert!(prefers_html("text/html,application/xhtml+xml,application/xml;q=0.9,*/*;q=0.8"));
    assert!(prefers_html(" text/html \t, x"));
    assert!(prefers_html("x,\u{a0}text/html\u{2003}"));
}

#[test]
fn other_clients_do_not_prefer_html() {
    assert!(!prefers_html(""));
    assert!(!prefers_html("application/json"));
    assert!(!prefers_html("text/html;q=0.9"));
    assert!(!prefers_html("TEXT/HTML"));
    assert!(!prefers_html("text/ html"));
    assert!(!prefers_html("text/htmlx, xtext/html"));
    assert!(!prefers_html("text/html; ,"));
}

#[test]
fn html_is_told_by_the_whole_media_type() {
    assert!(is_html("text/html"));
    assert!(!is_html(" text/html"));
    assert!(!is_html("text/htm"));
    assert!(!is_html(""));
}

#[test]
fn the_sandbox_is_given_the_address_of_the_endpoint() {
    assert_eq!(
        studio_address_of("127.0.0.1:4000"),
        "https://studio.apollographql.com/sandbox?endpoint=http://127.0.0.1:4000"
    );
    assert_eq!(
        studio_address_of(""),
        "https://studio.apollographql.com/sandbox?endpoint=http://"
    );
}

#[test]
fn a_valid_address_is_redirected_to() {
    assert_eq!(
        redirect_if_valid("https://example.com/".to_string(), true),
        GetAction::Redirect("https://example.com/".to_string())
    );
    assert_eq!(
        redirect_if_valid("https://example.com/".to_string(), false),
        GetAction::InvalidHost
    );
}

#[test]
fn redirect_needs_a_host() {
    assert_eq!(redirect_to_studio(None), GetAction::InvalidHost);
    assert_eq!(
        redirect_to_studio(Some("localhost:4000")),
        GetAction::Redirect(
            "https://studio.apollographql.com/sandbox?endpoint=http://localhost:4000".to_string()
        )
    );
    assert_eq!(redirect_to_studio(Some("local host")), GetAction::InvalidHost);
}

#[test]
fn the_query_is_decoded() {
    assert_eq!(
        decode_query(b"%7B%22query%22%3A+%22%7B+me+%7D%22%7D"),
        b"{\"query\": \"{ me }\"}".to_vec()
    );
    assert_eq!(decode_query(b""), Vec::<u8>::new());
    assert_eq!(decode_query(b"a+b"), b"a b".to_vec());
    assert_eq!(decode_query(b"a%2Bb"), b"a+b".to_vec());
    assert_eq!(decode_query(b"%C3%A9"), "é".as_bytes().to_vec());
    assert_eq!(decode_query(b"100%"), b"100%".to_vec());
    assert_eq!(decode_query(b"%zz+"), b"%zz ".to_vec());
}

#[test]
fn a_browser_is_sent_to_the_sandbox() {
    assert_eq!(
        get_action(Some("text/html"), Some("127.0.0.1:4000"), b"query=%7B"),
        GetAction::Redirect(
            "https://studio.apollographql.com/sandbox?endpoint=http://127.0.0.1:4000".to_string()
        )
    );
    assert_eq!(get_action(Some("text/html"), None, b""), GetAction::InvalidHost);
}

#[test]
fn another_client_has_its_query_run() {
    assert_eq!(
        get_action(Some("application/json"), Some("127.0.0.1:4000"), b"%7B%22query%22%3A%22x%22%7D"),
        GetAction::Run(b"{\"query\":\"x\"}".to_vec())
    );
    assert_eq!(get_action(None, None, b"a+b"), GetAction::Run(b"a b".to_vec()));
    assert_eq!(get_action(None, Some("h"), b"Garbage"), GetAction::Run(b"Garbage".to_vec()));
}
