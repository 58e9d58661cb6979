use cipherant::cli::{classify_input, fits_on_screen, Cli, ReplAction};
use cipherant::llm::{default_model, join_lines, LlmClient, RigClient};
use cipherant::fetch::WebFetch;
use cipherant::tools::{PdfContent, PdfRead, PdfReadOutput, SearchResult, WebSearch, WebSearchOutput};

#[test]
fn test_default_model_ollama() {
    assert_eq!(default_model("ollama"), "qwen3");
}

#[test]
fn test_default_model_gemini() {
    assert_eq!(default_model("gemini"), "gemini-2.5-flash");
}

#[test]
fn test_default_model_unknown_fallback() {
    assert_eq!(default_model("unknown"), "qwen3");
}

struct MockLlmClient;

impl LlmClient for MockLlmClient {
    fn complete(&self, prompt: &str) -> Result<String, String> {
        Ok(format!("LLM Response: {}", prompt))
    }
}

#[test]
fn test_send_query_to_llm() {
    let llm = MockLlmClient {};
    let response = llm.complete("test message").unwrap();

    assert_eq!(response, "LLM Response: test message");
}

#[test]
fn test_rig_client_keeps_model_name() {
    let client = RigClient::new("llama3.2");
    assert_eq!(client.model(), "llama3.2");
}

#[test]
fn test_join_lines() {
    let parts = vec!["first".to_string(), "second".to_string()];
    assert_eq!(join_lines(&parts), "first\nsecond".to_string());
    let empty: Vec<String> = vec![];
    assert_eq!(join_lines(&empty), "".to_string());
    let one = vec!["only".to_string()];
    assert_eq!(join_lines(&one), "only".to_string());
}

#[test]
fn test_classify_input() {
    assert!(matches!(classify_input("exit"), ReplAction::Quit));
    assert!(matches!(classify_input("  quit  "), ReplAction::Quit));
    assert!(matches!(classify_input(""), ReplAction::Skip));
    assert!(matches!(classify_input("   "), ReplAction::Skip));
    match classify_input("  hello world ") {
        ReplAction::Ask(s) => assert_eq!(s, "hello world".to_string()),
        _ => panic!("expected Ask"),
    }
}

#[test]
fn test_fits_on_screen() {
    // One short line wraps to a single row, plus the constant row.
    assert!(fits_on_screen("abc", 80, 24));
    // Two lines at width 1: "ab" takes 2/1+1 = 3 rows, "c" takes 1/1+1 = 2.
    assert!(fits_on_screen("ab\nc", 1, 6));
    assert!(!fits_on_screen("ab\nc", 1, 5));
    // Nothing fits on a zero-height screen.
    assert!(!fits_on_screen("", 80, 0));
}

#[test]
fn test_cli_record() {
    let cli = Cli { interactive: false, prompt: Some("what is verus".to_string()) };
    assert!(!cli.interactive);
    assert_eq!(cli.prompt, Some("what is verus".to_string()));
}

#[test]
fn test_pdf_content_wraps_text() {
    let c = PdfContent::new("/tmp/doc.pdf", "the text".to_string());
    assert_eq!(c.path, "/tmp/doc.pdf".to_string());
    assert_eq!(c.title, None);
    assert_eq!(c.text, "the text".to_string());

    let o = PdfReadOutput::of_content(c);
    assert_eq!(o.path, "/tmp/doc.pdf".to_string());
    assert_eq!(o.title, None);
    assert_eq!(o.content, "the text".to_string());
}

#[test]
fn test_search_result_record() {
    let out = WebSearchOutput {
        results: vec![SearchResult {
            title: "Title1".to_string(),
            url: "http://example.com1".to_string(),
            snippet: "This is a example page1".to_string(),
        }],
    };
    assert_eq!(out.results.len(), 1);
    assert_eq!(out.results[0].title, "Title1");
}

#[test]
fn test_tool_definitions() {
    let wf = WebFetch::definition();
    assert_eq!(wf.name, "web_fetch");
    assert!(wf.parameters.contains("\"url\""));
    let pr = PdfRead::definition();
    assert_eq!(pr.name, "pdf_read");
    assert!(pr.parameters.contains("\"file_path\""));
    let ws = WebSearch::definition();
    assert_eq!(ws.name, "web_search");
    assert!(ws.parameters.contains("\"query\""));
}
