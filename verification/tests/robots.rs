use cipherant::http::ScriptedHttpClient;
use cipherant::robots::RobotsCache;

#[test]
fn test_allowed_when_robots_txt_permits() {
    let mut client = ScriptedHttpClient::new()
        .with_response("https://example.com/robots.txt", "User-agent: *\nAllow: /");
    let mut cache = RobotsCache::new();

    assert!(cache.is_allowed(&mut client, "https://example.com/page"));
}

#[test]
fn test_blocked_when_robots_txt_disallows() {
    let mut client = ScriptedHttpClient::new().with_response(
        "https://example.com/robots.txt",
        "User-agent: *\nDisallow: /secret",
    );
    let mut cache = RobotsCache::new();

    assert!(!cache.is_allowed(&mut client, "https://example.com/secret/page"));
}

#[test]
fn test_allowed_when_robots_txt_fetch_fails() {
    // No scripted response for robots.txt => fetch fails => graceful fallback to allow
    let mut client = ScriptedHttpClient::new();
    let mut cache = RobotsCache::new();

    assert!(cache.is_allowed(&mut client, "https://example.com/page"));
}

#[test]
fn test_cache_reuses_robots_txt_for_same_origin() {
    let mut client = ScriptedHttpClient::new().with_response(
        "https://example.com/robots.txt",
        "User-agent: *\nDisallow: /blocked",
    );
    let mut cache = RobotsCache::new();

    // First call fetches robots.txt
    assert!(cache.is_allowed(&mut client, "https://example.com/ok"));
    // Second call should reuse cached robots.txt (same origin)
    assert!(!cache.is_allowed(&mut client, "https://example.com/blocked/page"));
    // Only one entry in cache, and exactly one GET was issued
    assert_eq!(cache.len(), 1);
    assert_eq!(client.get_count(), 1);
}

#[test]
fn test_no_http_call_without_origin() {
    let mut client = ScriptedHttpClient::new();
    let mut cache = RobotsCache::new();

    assert!(cache.is_allowed(&mut client, "not-a-url"));
    assert_eq!(client.get_count(), 0);
    assert_eq!(cache.len(), 0);
}

#[test]
fn test_empty_robots_allows_everything() {
    let mut client =
        ScriptedHttpClient::new().with_response("https://example.com/robots.txt", "");
    let mut cache = RobotsCache::new();

    assert!(cache.is_allowed(&mut client, "https://example.com/"));
    assert!(cache.is_allowed(&mut client, "https://example.com/anything/at/all"));
}

#[test]
fn test_disallow_root_denies_all_paths() {
    let mut client = ScriptedHttpClient::new()
        .with_response("https://example.com/robots.txt", "User-agent: *\nDisallow: /");
    let mut cache = RobotsCache::new();

    assert!(!cache.is_allowed(&mut client, "https://example.com/"));
    assert!(!cache.is_allowed(&mut client, "https://example.com/a"));
    assert!(!cache.is_allowed(&mut client, "https://example.com/a/b?c=d"));
}

#[test]
fn test_allow_beats_disallow_on_equal_length() {
    let mut client = ScriptedHttpClient::new().with_response(
        "https://example.com/robots.txt",
        "User-agent: *\nDisallow: /a\nAllow: /a",
    );
    let mut cache = RobotsCache::new();

    assert!(cache.is_allowed(&mut client, "https://example.com/a"));
}

#[test]
fn test_longest_match_wins() {
    let mut client = ScriptedHttpClient::new().with_response(
        "https://example.com/robots.txt",
        "User-agent: *\nDisallow: /a\nAllow: /a/b",
    );
    let mut cache = RobotsCache::new();

    assert!(cache.is_allowed(&mut client, "https://example.com/a/b/c"));
    assert!(!cache.is_allowed(&mut client, "https://example.com/a/c"));
}

#[test]
fn test_wildcard_and_anchor_patterns() {
    let mut client = ScriptedHttpClient::new().with_response(
        "https://example.com/robots.txt",
        "User-agent: *\nDisallow: /*.pdf$",
    );
    let mut cache = RobotsCache::new();

    assert!(!cache.is_allowed(&mut client, "https://example.com/docs/file.pdf"));
    assert!(cache.is_allowed(&mut client, "https://example.com/docs/file.pdfx"));
}

#[test]
fn test_specific_agent_group_preferred_over_star() {
    let mut client = ScriptedHttpClient::new().with_response(
        "https://example.com/robots.txt",
        "User-agent: cipherant\nDisallow: /x\n\nUser-agent: *\nDisallow: /",
    );
    let mut cache = RobotsCache::new();

    // The cipherant group governs this library's user-agent.
    assert!(!cache.is_allowed(&mut client, "https://example.com/x/1"));
    assert!(cache.is_allowed(&mut client, "https://example.com/y"));
}

#[test]
fn test_field_names_case_insensitive_and_comments_stripped() {
    let mut client = ScriptedHttpClient::new().with_response(
        "https://example.com/robots.txt",
        "# a comment\nUSER-AGENT: *  # trailing\n DISALLOW : /secret\n",
    );
    let mut cache = RobotsCache::new();

    assert!(!cache.is_allowed(&mut client, "https://example.com/secret"));
    assert!(cache.is_allowed(&mut client, "https://example.com/open"));
}

#[test]
fn test_empty_disallow_value_is_no_rule() {
    let mut client = ScriptedHttpClient::new()
        .with_response("https://example.com/robots.txt", "User-agent: *\nDisallow:");
    let mut cache = RobotsCache::new();

    assert!(cache.is_allowed(&mut client, "https://example.com/anything"));
}

#[test]
fn test_distinct_origins_fetched_separately() {
    let mut client = ScriptedHttpClient::new()
        .with_response("https://a.example/robots.txt", "User-agent: *\nDisallow: /")
        .with_response("https://b.example/robots.txt", "User-agent: *\nAllow: /");
    let mut cache = RobotsCache::new();

    assert!(!cache.is_allowed(&mut client, "https://a.example/p"));
    assert!(cache.is_allowed(&mut client, "https://b.example/p"));
    assert_eq!(cache.len(), 2);
    assert_eq!(client.get_count(), 2);
}

#[test]
fn test_disallow_specific_path_allows_others() {
    let mut client = ScriptedHttpClient::new().with_response(
        "https://example.com/robots.txt",
        "User-agent: *\nDisallow: /secret",
    );
    let mut cache = RobotsCache::new();

    assert!(cache.is_allowed(&mut client, "https://example.com/public"));
}
