//! Argument and output records of the peer tools (PDF reading and web
//! search).  Their I/O lives outside this library; these are the plain
//! values it exchanges with them.

use vstd::prelude::*;
use vstd::string::*;

verus! {

/// What a tool exposes to the agent: its name, a description, and the JSON
/// schema of its parameters.
pub struct ToolDefinition {
    pub name: String,
    pub description: String,
    pub parameters: String,
}

/// Extracted content of a PDF file.
pub struct PdfContent {
    /// The file path the PDF was read from.
    pub path: String,
    /// The title from the PDF metadata, when available.
    pub title: Option<String>,
    /// The extracted text.
    pub text: String,
}

impl PdfContent {
    /// Wrap freshly extracted text: the path is echoed unchanged and no
    /// title is claimed.
    pub fn new(path: &str, text: String) -> (c: Self)
        ensures
            c.path@ == path@,
            c.title is None,
            c.text == text,
    {
        PdfContent { path: String::from_str(path), title: None, text }
    }
}

/// Arguments of the PDF-reading tool.
pub struct PdfReadArgs {
    pub file_path: String,
}

/// Output of the PDF-reading tool.
pub struct PdfReadOutput {
    pub path: String,
    pub title: Option<String>,
    pub content: String,
}

impl PdfReadOutput {
    /// The tool's output is the extracted content, field for field.
    pub fn of_content(c: PdfContent) -> (o: Self)
        ensures
            o.path == c.path,
            o.title == c.title,
            o.content == c.text,
    {
        PdfReadOutput { path: c.path, title: c.title, content: c.text }
    }
}

/// The PDF-reading tool marker.
pub struct PdfRead;

impl PdfRead {
    /// How the tool presents itself to the agent.
    pub fn definition() -> (d: ToolDefinition)
        ensures
            d.name@ == "pdf_read"@,
            d.description@ == "Reads a local PDF file and extracts its text content"@,
            d.parameters@
                == "{\"type\":\"object\",\"properties\":{\"file_path\":{\"type\":\"string\",\"description\":\"The local file path to the PDF\"}},\"required\":[\"file_path\"]}"@,
    {
        ToolDefinition {
            name: String::from_str("pdf_read"),
            description: String::from_str("Reads a local PDF file and extracts its text content"),
            parameters: String::from_str(
                "{\"type\":\"object\",\"properties\":{\"file_path\":{\"type\":\"string\",\"description\":\"The local file path to the PDF\"}},\"required\":[\"file_path\"]}",
            ),
        }
    }
}

/// Arguments of the web-search tool.
pub struct WebSearchArgs {
    pub query: String,
}

/// A single search result.
pub struct SearchResult {
    pub title: String,
    pub url: String,
    pub snippet: String,
}

/// Output of the web-search tool.
pub struct WebSearchOutput {
    pub results: Vec<SearchResult>,
}

/// Why a web search failed.
#[derive(Debug)]
pub enum WebSearchError {
    /// No API key was configured for the search provider.
    ApiKeyNotFound,
    /// The search request failed; the transport message is carried.
    SearchError(String),
}

/// The web-search tool marker.
pub struct WebSearch;

impl WebSearch {
    /// How the tool presents itself to the agent.
    pub fn definition() -> (d: ToolDefinition)
        ensures
            d.name@ == "web_search"@,
            d.description@ == "Searches the web for information using a query"@,
            d.parameters@
                == "{\"type\":\"object\",\"properties\":{\"query\":{\"type\":\"string\",\"description\":\"The search query\"}},\"required\":[\"query\"]}"@,
    {
        ToolDefinition {
            name: String::from_str("web_search"),
            description: String::from_str("Searches the web for information using a query"),
            parameters: String::from_str(
                "{\"type\":\"object\",\"properties\":{\"query\":{\"type\":\"string\",\"description\":\"The search query\"}},\"required\":[\"query\"]}",
            ),
        }
    }
}

} // verus!
