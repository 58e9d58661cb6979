//! A polite web-fetch library: decide whether a URL may be fetched under the
//! target origin's `robots.txt`, fetch it through an abstract HTTP capability,
//! and extract a structured page representation (url, optional title, body
//! text) from the HTML.
//!
//! The core pieces are:
//! - [`origin`]: derive the canonical origin (`scheme://host[:port]`) of a URL;
//! - [`robots`]: parse robots.txt, evaluate allow/deny for a user-agent and
//!   path, and cache one policy per origin;
//! - [`html`]: extract the first `<title>` and the `<p>` paragraph text;
//! - [`fetch`]: the web-fetch tool gating every fetch on the robots decision;
//! - [`http`]: the HTTP GET capability the tool and the cache are generic over.
//!
//! Around the core stand the records and decisions of the peer tools and the
//! command line: [`tools`], [`llm`] and [`cli`], with [`text`] holding the
//! character and string utilities everything shares.

pub mod text;
pub mod origin;
pub mod robots;
pub mod http;
pub mod html;
pub mod fetch;
pub mod tools;
pub mod llm;
pub mod cli;
