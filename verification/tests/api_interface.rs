use message_board::api::Client;
use message_board::interface::{
    FetchLatestUpdateDateForm, HttpMethod, SendMessageForm, SendMessageResponse,
    UnknownHttpMethod,
};

#[test]
fn with_server_drops_one_trailing_slash() {
    let client = Client::with_server(String::from("http://example.net:3000/"));
    assert_eq!(client.server_url(), "http://example.net:3000");
}

#[test]
fn with_server_keeps_url_without_slash() {
    let client = Client::with_server(String::from("http://example.net:3000"));
    assert_eq!(client.server_url(), "http://example.net:3000");
}

#[test]
fn with_server_edge_urls() {
    assert_eq!(Client::with_server(String::new()).server_url(), "");
    assert_eq!(Client::with_server(String::from("/")).server_url(), "");
    assert_eq!(Client::with_server(String::from("a//")).server_url(), "a/");
}

#[test]
fn default_client_points_at_localhost() {
    let client = Client::default();
    assert_eq!(client.server_url(), "http://127.0.0.1:3000");
}

#[test]
fn canned_send_message_responses() {
    assert!(SendMessageResponse::ok().ok);
    assert!(!SendMessageResponse::not_ok().ok);
    assert_eq!(SendMessageResponse::ok(), SendMessageResponse { ok: true });
}

#[test]
fn interface_types_hold_their_data() {
    let form = SendMessageForm { content: String::from("hello there") };
    assert_eq!(form.content, "hello there");
    let _empty_form = FetchLatestUpdateDateForm {};
    assert_eq!(UnknownHttpMethod, UnknownHttpMethod);
    assert_eq!(HttpMethod::Get, HttpMethod::Get);
    assert_ne!(HttpMethod::Get, HttpMethod::Unknown);
    assert!(matches!(HttpMethod::Post, HttpMethod::Post));
}
