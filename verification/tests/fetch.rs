use cipherant::fetch::{WebFetch, WebFetchError};
use cipherant::http::ScriptedHttpClient;

#[test]
fn test_web_fetch_allowed_page() {
    let mut client = ScriptedHttpClient::new()
        .with_response("https://example.com/robots.txt", "User-agent: *\nAllow: /")
        .with_response(
            "https://example.com/page",
            "<html><head><title>Test Page</title></head><body><p>First</p><p>Second</p></body></html>",
        );
    let mut tool = WebFetch::new();
    let page = tool.call(&mut client, "https://example.com/page").unwrap();
    assert_eq!(page.url, "https://example.com/page".to_string());
    assert_eq!(page.title, Some("Test Page".to_string()));
    assert_eq!(page.text, "First\n\nSecond".to_string());
}

#[test]
fn test_web_fetch_disallowed_not_fetched() {
    let mut client = ScriptedHttpClient::new()
        .with_response(
            "https://example.com/robots.txt",
            "User-agent: *\nDisallow: /secret",
        )
        .with_response("https://example.com/secret", "<p>hidden</p>");
    let mut tool = WebFetch::new();
    let r = tool.call(&mut client, "https://example.com/secret");
    match r {
        Err(WebFetchError::DisallowedByRobots(u)) => {
            assert_eq!(u, "https://example.com/secret".to_string());
        }
        _ => panic!("expected DisallowedByRobots"),
    }
    // Only the robots.txt was requested; the resource itself was not.
    assert_eq!(client.get_count(), 1);
}

#[test]
fn test_web_fetch_invalid_url() {
    let mut client = ScriptedHttpClient::new();
    let mut tool = WebFetch::new();
    assert!(matches!(
        tool.call(&mut client, "not-a-url"),
        Err(WebFetchError::InvalidUrl)
    ));
    assert!(matches!(
        tool.call(&mut client, "ftp://example.com/file"),
        Err(WebFetchError::InvalidUrl)
    ));
    assert_eq!(client.get_count(), 0);
}

#[test]
fn test_web_fetch_transport_failure() {
    // Robots allows everything (no robots entry => allow), but the page
    // itself has no scripted response.
    let mut client = ScriptedHttpClient::new();
    let mut tool = WebFetch::new();
    let r = tool.call(&mut client, "https://example.com/page");
    assert!(matches!(r, Err(WebFetchError::FetchFailed(_))));
}

#[test]
fn test_web_fetch_caches_robots_across_calls() {
    let mut client = ScriptedHttpClient::new()
        .with_response(
            "https://example.com/robots.txt",
            "User-agent: *\nDisallow: /blocked",
        )
        .with_response("https://example.com/ok", "<p>fine</p>")
        .with_response("https://example.com/also-ok", "<p>fine too</p>");
    let mut tool = WebFetch::new();
    assert!(tool.call(&mut client, "https://example.com/ok").is_ok());
    assert!(tool.call(&mut client, "https://example.com/also-ok").is_ok());
    assert!(matches!(
        tool.call(&mut client, "https://example.com/blocked/x"),
        Err(WebFetchError::DisallowedByRobots(_))
    ));
    // One robots.txt GET plus one GET per allowed page.
    assert_eq!(client.get_count(), 3);
}
