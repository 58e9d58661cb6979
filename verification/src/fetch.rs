//! The web-fetch tool: validate the URL, gate on the robots decision, fetch
//! the resource, and extract its page content.  The robots check strictly
//! precedes the resource fetch, and a disallowed URL is never fetched.

use vstd::prelude::*;
use vstd::string::*;

use crate::html::{page_text, page_title, parse_html, PageContent};
use crate::http::{user_agent_model, HttpClient};
use crate::origin::{origin_of, path_of};
use crate::robots::{entry_allows, fetched_entry, robots_url, EntryModel, RobotsCache};
use crate::text::{chars_of, is_prefix_of};

verus! {

/// Why a web fetch failed.
#[derive(Debug)]
pub enum WebFetchError {
    /// The input is not an absolute HTTP(S) URL.
    InvalidUrl,
    /// The origin's robots policy denies this URL; the URL is echoed.
    DisallowedByRobots(String),
    /// The HTTP GET for the resource failed; the transport message is carried.
    FetchFailed(String),
}

/// An origin of the `http` or `https` scheme.
pub open spec fn http_like_origin(o: Seq<char>) -> bool {
    ||| is_prefix_of(seq!['h', 't', 't', 'p', ':', '/', '/'], o)
    ||| is_prefix_of(seq!['h', 't', 't', 'p', 's', ':', '/', '/'], o)
}

/// An absolute URL with a host and the `http` or `https` scheme.
pub open spec fn is_http_url(u: Seq<char>) -> bool {
    match origin_of(u) {
        None => false,
        Some(o) => http_like_origin(o),
    }
}

/// The robots entry that governs an origin after one decision: what the
/// cache held, or what the fresh robots.txt response parses to.
pub open spec fn decided_entry(
    cached: Option<EntryModel>,
    resp: Option<Seq<char>>,
) -> EntryModel {
    match cached {
        Some(e) => e,
        None => fetched_entry(resp),
    }
}

/// The agent-facing web-fetch tool.  It owns the session's robots cache and
/// is generic over the HTTP capability it fetches through.
pub struct WebFetch {
    robots: RobotsCache,
}

impl WebFetch {
    /// The robots cache holds at most one entry per origin.
    pub closed spec fn wf(&self) -> bool {
        self.robots.wf()
    }

    /// The robots entry cached for an origin.
    pub closed spec fn entry_for(&self, o: Seq<char>) -> Option<EntryModel> {
        self.robots.entry_for(o)
    }

    /// How many origins the robots cache holds.
    pub closed spec fn num_origins(&self) -> nat {
        self.robots.num_origins()
    }

    /// How the tool presents itself to the agent.
    pub fn definition() -> (d: crate::tools::ToolDefinition)
        ensures
            d.name@ == "web_fetch"@,
            d.description@ == "Fetches a web page politely and extracts its content"@,
            d.parameters@
                == "{\"type\":\"object\",\"properties\":{\"url\":{\"type\":\"string\",\"description\":\"The URL of the web page to fetch\"}},\"required\":[\"url\"]}"@,
    {
        crate::tools::ToolDefinition {
            name: String::from_str("web_fetch"),
            description: String::from_str("Fetches a web page politely and extracts its content"),
            parameters: String::from_str(
                "{\"type\":\"object\",\"properties\":{\"url\":{\"type\":\"string\",\"description\":\"The URL of the web page to fetch\"}},\"required\":[\"url\"]}",
            ),
        }
    }

    /// A tool with an empty robots cache.
    pub fn new() -> (t: Self)
        ensures
            t.wf(),
            t.num_origins() == 0,
            forall|o: Seq<char>| #[trigger] t.entry_for(o) is None,
    {
        WebFetch { robots: RobotsCache::new() }
    }

    /// Fetch `url` politely.
    ///
    /// A URL that is not absolute HTTP(S) fails with `InvalidUrl` before
    /// anything else.  Otherwise the origin's robots entry is consulted —
    /// retrieved once on first touch, exactly as `RobotsCache::is_allowed`
    /// does — and a denied URL fails with `DisallowedByRobots` without being
    /// fetched.  An allowed URL is fetched with exactly one further GET; a
    /// transport failure becomes `FetchFailed`, and a body is extracted into
    /// a `PageContent` whose `url` field echoes the input unchanged.
    pub fn call<C: HttpClient>(&mut self, client: &mut C, url: &str) -> (r: Result<
        PageContent,
        WebFetchError,
    >)
        requires
            old(self).wf(),
        ensures
            final(self).wf(),
            forall|u: Seq<char>| #[trigger]
                final(client).response_to(u) == old(client).response_to(u),
            !is_http_url(url@) ==> {
                &&& r matches Err(WebFetchError::InvalidUrl)
                &&& final(client).gets() == old(client).gets()
                &&& forall|q: Seq<char>| #[trigger]
                    final(self).entry_for(q) == old(self).entry_for(q)
            },
            is_http_url(url@) ==> {
                let o = origin_of(url@)->Some_0;
                let e = decided_entry(
                    old(self).entry_for(o),
                    old(client).response_to(robots_url(o)),
                );
                let allowed = entry_allows(e, user_agent_model(), path_of(url@));
                let robots_gets = if old(self).entry_for(o) is Some {
                    old(client).gets()
                } else {
                    old(client).gets().push(robots_url(o))
                };
                &&& final(self).entry_for(o) == Some(e)
                &&& forall|q: Seq<char>|
                    q != o ==> #[trigger] final(self).entry_for(q) == old(self).entry_for(q)
                &&& !allowed ==> {
                    &&& r matches Err(WebFetchError::DisallowedByRobots(d)) && d@ == url@
                    &&& final(client).gets() == robots_gets
                }
                &&& allowed ==> {
                    &&& final(client).gets() == robots_gets.push(url@)
                    &&& match old(client).response_to(url@) {
                        Some(body) => r matches Ok(pc) && pc.url@ == url@ && pc.text@
                            == page_text(body) && (match pc.title {
                            Some(t) => page_title(body) == Some(t@),
                            None => page_title(body) is None,
                        }),
                        None => r matches Err(WebFetchError::FetchFailed(_)),
                    }
                }
            },
    {
        let origin = match crate::origin::extract_origin(url) {
            None => {
                return Err(WebFetchError::InvalidUrl);
            },
            Some(o) => o,
        };
        // Only the http and https schemes pass validation.
        let oc = chars_of(origin.as_str());
        let http_pref = oc.len() >= 7 && oc[0] == 'h' && oc[1] == 't' && oc[2] == 't' && oc[3]
            == 'p' && oc[4] == ':' && oc[5] == '/' && oc[6] == '/';
        let https_pref = oc.len() >= 8 && oc[0] == 'h' && oc[1] == 't' && oc[2] == 't' && oc[3]
            == 'p' && oc[4] == 's' && oc[5] == ':' && oc[6] == '/' && oc[7] == '/';
        proof {
            let hp = seq!['h', 't', 't', 'p', ':', '/', '/'];
            let hsp = seq!['h', 't', 't', 'p', 's', ':', '/', '/'];
            assert(is_prefix_of(hp, oc@) == http_pref) by {
                if hp.len() <= oc@.len() {
                    assert(oc@.subrange(0, 7)[0] == oc@[0]);
                    if http_pref {
                        assert(hp =~= oc@.subrange(0, 7));
                    } else {
                        if hp == oc@.subrange(0, 7) {
                            assert(oc@[0] == 'h' && oc@[1] == 't' && oc@[2] == 't' && oc@[3]
                                == 'p' && oc@[4] == ':' && oc@[5] == '/' && oc@[6] == '/');
                        }
                    }
                }
            }
            assert(is_prefix_of(hsp, oc@) == https_pref) by {
                if hsp.len() <= oc@.len() {
                    if https_pref {
                        assert(hsp =~= oc@.subrange(0, 8));
                    } else {
                        if hsp == oc@.subrange(0, 8) {
                            assert(oc@[0] == 'h' && oc@[1] == 't' && oc@[2] == 't' && oc@[3]
                                == 'p' && oc@[4] == 's' && oc@[5] == ':' && oc@[6] == '/'
                                && oc@[7] == '/');
                        }
                    }
                }
            }
        }
        if !(http_pref || https_pref) {
            return Err(WebFetchError::InvalidUrl);
        }
        // The robots decision strictly precedes the resource fetch.
        let allowed = self.robots.is_allowed(client, url);
        if !allowed {
            return Err(WebFetchError::DisallowedByRobots(String::from_str(url)));
        }
        match client.get(url) {
            Ok(body) => Ok(parse_html(url, body.as_str())),
            Err(e) => Err(WebFetchError::FetchFailed(e.message)),
        }
    }
}

} // verus!
