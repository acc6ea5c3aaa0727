use chat_server::content::content_type;

#[test]
fn style_sheets_are_css() {
    assert_eq!(content_type("/website/style.css"), "text/css");
}

#[test]
fn images_have_their_own_types() {
    assert_eq!(content_type("/website/logo.png"), "image/png");
    assert_eq!(content_type("/website/logo.svg"), "image/svg+xml");
    assert_eq!(content_type("/website/favicon.ico"), "image/x-icon");
}

#[test]
fn everything_else_is_html() {
    for target in [
        "/website/index.html",
        "/website/",
        "/website",
        "/website/script.js",
        "/website/notes.txt",
        "/website/a.PNG",
        "/website/a.css ",
        "/website/a.css/",
        "/website/a.",
        "",
    ] {
        assert_eq!(content_type(target), "text/html", "{:?}", target);
    }
}

#[test]
fn only_the_last_dot_counts() {
    assert_eq!(content_type("/website/a.png.css"), "text/css");
    assert_eq!(content_type("/website/a.css.png"), "image/png");
    assert_eq!(content_type("/website/a.css.bak"), "text/html");
    assert_eq!(content_type("/website/v1.2/logo.svg"), "image/svg+xml");
    assert_eq!(content_type("/website/v1.css/logo"), "text/html");
}

#[test]
fn a_target_without_a_dot_is_its_own_extension() {
    assert_eq!(content_type("css"), "text/css");
    assert_eq!(content_type("ico"), "image/x-icon");
    assert_eq!(content_type("/css"), "text/html");
}
