//! The HTTP GET capability that the robots cache and the web-fetch tool are
//! generic over, together with a scripted implementation answering from a
//! fixed table, which the tests drive.

use vstd::prelude::*;
use vstd::string::*;

use crate::text::str_eq;

verus! {

/// The view of the fixed user-agent this library advertises on every request.
pub open spec fn user_agent_model() -> Seq<char> {
    "cipherant/0.1.0"@
}

/// The fixed user-agent this library advertises on every request.
pub fn user_agent() -> (s: &'static str)
    ensures
        s@ == user_agent_model(),
{
    "cipherant/0.1.0"
}

/// Failure of an HTTP GET: transport, TLS, status or decoding trouble,
/// surfaced uniformly as one message.
#[derive(Debug)]
pub struct FetchError {
    pub message: String,
}

/// A single-shot HTTP GET capability returning a response body as text.
///
/// `gets` is the log of every URL requested so far, over which callers state
/// their fetch-once guarantees.  `response_to` is the table of answers the
/// client holds for each URL (`None` standing for any kind of failure); one
/// `get` answers from that table and records the request.
pub trait HttpClient {
    /// The URLs requested so far, in order.  Implementations that carry no
    /// model of their own may leave the default.
    open spec fn gets(&self) -> Seq<Seq<char>> {
        Seq::empty()
    }

    /// The body this client answers `url` with, or `None` for an error.
    open spec fn response_to(&self, url: Seq<char>) -> Option<Seq<char>> {
        None
    }

    /// Issue one GET for `url`.
    fn get(&mut self, url: &str) -> (r: Result<String, FetchError>)
        ensures
            final(self).gets() == old(self).gets().push(url@),
            forall|u: Seq<char>| #[trigger]
                final(self).response_to(u) == old(self).response_to(u),
            match r {
                Ok(body) => old(self).response_to(url@) == Some(body@),
                Err(_) => old(self).response_to(url@) is None,
            },
    ;
}

/// First-match lookup in a response table.
pub open spec fn table_lookup(rs: Seq<(String, String)>, u: Seq<char>) -> Option<Seq<char>>
    decreases rs.len(),
{
    if rs.len() == 0 {
        None
    } else if rs[0].0@ == u {
        Some(rs[0].1@)
    } else {
        table_lookup(rs.drop_first(), u)
    }
}

proof fn lemma_table_lookup_push(rs: Seq<(String, String)>, p: (String, String), u: Seq<char>)
    ensures
        table_lookup(rs.push(p), u) == if table_lookup(rs, u) is Some {
            table_lookup(rs, u)
        } else if p.0@ == u {
            Some(p.1@)
        } else {
            None
        },
    decreases rs.len(),
{
    if rs.len() == 0 {
        let e = rs.push(p);
        assert(e[0] == p);
        assert(e.drop_first() =~= Seq::<(String, String)>::empty());
        assert(table_lookup(e.drop_first(), u) is None);
    } else {
        assert(rs.push(p).drop_first() =~= rs.drop_first().push(p));
        lemma_table_lookup_push(rs.drop_first(), p, u);
    }
}

/// An HTTP client scripted from a table of responses keyed by URL.  A URL
/// without an entry is answered with an error; every request is recorded.
pub struct ScriptedHttpClient {
    responses: Vec<(String, String)>,
    log: Vec<String>,
}

impl ScriptedHttpClient {
    pub fn new() -> (c: Self)
        ensures
            c.gets() == Seq::<Seq<char>>::empty(),
            forall|u: Seq<char>| #[trigger] c.response_to(u) is None,
    {
        let c = ScriptedHttpClient { responses: Vec::new(), log: Vec::new() };
        proof {
            assert(c.log@.map(|_i: int, s: String| s@) =~= Seq::<Seq<char>>::empty());
        }
        c
    }

    /// Script `body` as the answer to `url`; an answer already scripted for
    /// `url` stays.
    pub fn with_response(self, url: &str, body: &str) -> (c: Self)
        ensures
            c.gets() == self.gets(),
            c.response_to(url@) == if self.response_to(url@) is Some {
                self.response_to(url@)
            } else {
                Some(body@)
            },
            forall|u: Seq<char>|
                u != url@ ==> #[trigger] c.response_to(u) == self.response_to(u),
    {
        let mut responses = self.responses;
        let ghost old_responses = responses@;
        let url_s = String::from_str(url);
        let body_s = String::from_str(body);
        responses.push((url_s, body_s));
        proof {
            assert forall|u: Seq<char>| true implies #[trigger] table_lookup(responses@, u)
                == (if table_lookup(old_responses, u) is Some {
                table_lookup(old_responses, u)
            } else if u == url@ {
                Some(body@)
            } else {
                None
            }) by {
                lemma_table_lookup_push(
                    old_responses,
                    (responses@.last().0, responses@.last().1),
                    u,
                );
                assert(old_responses.push(responses@.last()) =~= responses@);
            }
        }
        ScriptedHttpClient { responses, log: self.log }
    }

    /// How many requests this client has answered.
    pub fn get_count(&self) -> (n: usize)
        ensures
            n == self.gets().len(),
    {
        self.log.len()
    }
}

impl HttpClient for ScriptedHttpClient {
    closed spec fn gets(&self) -> Seq<Seq<char>> {
        self.log@.map(|_i: int, s: String| s@)
    }

    closed spec fn response_to(&self, url: Seq<char>) -> Option<Seq<char>> {
        table_lookup(self.responses@, url)
    }

    #[verifier::loop_isolation(false)]
    fn get(&mut self, url: &str) -> (r: Result<String, FetchError>)
    {
        let ghost old_table = self.responses@;
        self.log.push(String::from_str(url));
        proof {
            assert(self.log@.map(|_i: int, s: String| s@) =~= old(self).log@.map(
                |_i: int, s: String| s@,
            ).push(url@));
        }
        let ghost new_log = self.log@;
        proof {
            assert(old_table.skip(0) =~= old_table);
        }
        let mut i: usize = 0;
        while i < self.responses.len()
            invariant
                self.responses@ == old_table,
                self.log@ == new_log,
                i <= old_table.len(),
                table_lookup(old_table, url@) == table_lookup(old_table.skip(i as int), url@),
            decreases old_table.len() - i,
        {
            proof {
                assert(old_table.skip(i as int)[0] == old_table[i as int]);
                assert(old_table.skip(i as int).drop_first() =~= old_table.skip(i + 1));
            }
            let hit = str_eq(self.responses[i].0.as_str(), url);
            if hit {
                return Ok(self.responses[i].1.clone());
            }
            proof {
                assert(old_table[i as int].0@ != url@);
            }
            i = i + 1;
        }
        proof {
            assert(old_table.skip(old_table.len() as int) =~= Seq::<(String, String)>::empty());
        }
        Err(FetchError { message: String::from_str("no response scripted for this URL") })
    }
}

} // verus!
