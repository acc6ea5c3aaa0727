use chat_server::chat::{record, render};
use chat_server::method::Method;
use chat_server::request::{parse_request, Request};

#[test]
fn only_a_post_request_submits() {
    let mut r = Request::default();
    assert_eq!(r.submission(), None);
    r.data = Some("hi".to_string());
    assert_eq!(r.submission(), None);
    r.method = Method::POST;
    assert_eq!(r.submission(), Some(&"hi".to_string()));
    r.data = None;
    assert_eq!(r.submission(), None);
}

#[test]
fn a_get_request_with_data_submits_nothing() {
    let r = parse_request("GET / HTTP/1.1\r\n\r\ndata=hello").unwrap();
    assert_eq!(r.data, Some("hello".to_string()));
    assert_eq!(r.submission(), None);
}

#[test]
fn record_appends_one_entry() {
    let mut chat: Vec<String> = vec![];
    record(&mut chat, "127.0.0.1:50000", "hello");
    assert_eq!(chat, vec!["127.0.0.1:50000 says: hello"]);
    record(&mut chat, "[::1]:8080", "");
    assert_eq!(chat, vec!["127.0.0.1:50000 says: hello", "[::1]:8080 says: "]);
    record(&mut chat, "", "x says: y");
    assert_eq!(chat.len(), 3);
    assert_eq!(chat[2], " says: x says: y");
}

#[test]
fn render_closes_every_entry_with_a_line_break() {
    let chat = vec!["a says: 1".to_string(), "b says: 2".to_string()];
    let shown: String = render(&chat).into_iter().collect();
    assert_eq!(shown, "a says: 1<br>b says: 2<br>");
}

#[test]
fn render_of_an_empty_log_is_empty() {
    assert_eq!(render(&vec![]), Vec::<char>::new());
    let shown: String = render(&vec![String::new()]).into_iter().collect();
    assert_eq!(shown, "<br>");
}
