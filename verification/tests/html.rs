use cipherant::html::parse_html;

#[test]
fn test_html_extraction_title_and_paragraphs() {
    let html = "<html><head><title>Test Page</title></head><body><p>First</p><p>Second</p></body></html>";
    let page = parse_html("https://example.com", html);
    assert_eq!(page.url, "https://example.com".to_string());
    assert_eq!(page.title, Some("Test Page".to_string()));
    assert_eq!(page.text, "First\n\nSecond".to_string());
}

#[test]
fn test_html_extraction_missing_title() {
    let page = parse_html("https://example.com", "<html><body><p>Hi</p></body></html>");
    assert_eq!(page.title, None);
    assert_eq!(page.text, "Hi".to_string());
}

#[test]
fn test_html_extraction_is_pure() {
    let html = "<html><head><title>T</title></head><body><p>A</p></body></html>";
    let a = parse_html("https://example.com", html);
    let b = parse_html("https://example.com", html);
    assert_eq!(a.url, b.url);
    assert_eq!(a.title, b.title);
    assert_eq!(a.text, b.text);
}

#[test]
fn test_html_nested_elements_contribute_text() {
    let page = parse_html(
        "https://example.com",
        "<p>one <b>bold</b> word</p><p>two</p>",
    );
    assert_eq!(page.text, "one bold word\n\ntwo".to_string());
}

#[test]
fn test_html_new_paragraph_closes_open_one() {
    let page = parse_html("https://example.com", "<p>first<p>second</p>");
    assert_eq!(page.text, "first\n\nsecond".to_string());
}

#[test]
fn test_html_text_outside_paragraphs_ignored() {
    let page = parse_html(
        "https://example.com",
        "<div>chrome</div><p>kept</p><footer>boilerplate</footer>",
    );
    assert_eq!(page.text, "kept".to_string());
}

#[test]
fn test_html_title_whitespace_preserved() {
    let page = parse_html("https://example.com", "<title> Spaced  Title </title>");
    assert_eq!(page.title, Some(" Spaced  Title ".to_string()));
}

#[test]
fn test_html_pre_tag_is_not_p() {
    let page = parse_html("https://example.com", "<pre>code</pre><p>para</p>");
    assert_eq!(page.text, "para".to_string());
}

#[test]
fn test_html_no_paragraphs_gives_empty_text() {
    let page = parse_html("https://example.com", "<html><body>plain</body></html>");
    assert_eq!(page.text, "".to_string());
}
