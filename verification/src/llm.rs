//! The language-model client capability, the model-name configuration, and
//! the assembly of a completion out of its text parts.

use vstd::prelude::*;

use crate::text::{push_char, str_eq};

verus! {

/// A client that completes a prompt into a response.  What a model answers
/// cannot be pinned down; implementations live outside this library.
pub trait LlmClient {
    /// Complete `prompt` into a response, or fail with a message.
    fn complete(&self, prompt: &str) -> Result<String, String>;
}

/// A client configured with the name of the model it completes against.
pub struct RigClient {
    model: String,
}

impl RigClient {
    /// The configured model name.
    pub closed spec fn model_name(&self) -> Seq<char> {
        self.model@
    }

    pub fn new(model: &str) -> (c: Self)
        ensures
            c.model_name() == model@,
    {
        RigClient { model: String::from_str(model) }
    }

    /// The model this client was configured with.
    pub fn model(&self) -> (m: &String)
        ensures
            m@ == self.model_name(),
    {
        &self.model
    }
}

/// The default model name of a provider: `gemini` has its own default, and
/// every other provider falls back to the local default.
pub fn default_model(provider: &str) -> (m: &'static str)
    ensures
        provider@ == "gemini"@ ==> m@ == "gemini-2.5-flash"@,
        provider@ != "gemini"@ ==> m@ == "qwen3"@,
{
    if str_eq(provider, "gemini") {
        "gemini-2.5-flash"
    } else {
        "qwen3"
    }
}

/// The text parts of a completion joined by single newlines.
pub open spec fn joined_lines(parts: Seq<Seq<char>>) -> Seq<char>
    decreases parts.len(),
{
    if parts.len() == 0 {
        Seq::empty()
    } else if parts.len() == 1 {
        parts[0]
    } else {
        joined_lines(parts.drop_last()) + seq!['\n'] + parts.last()
    }
}

/// Join the text parts of a completion with newlines.
pub fn join_lines(parts: &Vec<String>) -> (s: String)
    ensures
        s@ == joined_lines(parts@.map(|_i: int, p: String| p@)),
{
    let ghost ps = parts@.map(|_i: int, p: String| p@);
    let mut s = String::new();
    let mut i: usize = 0;
    while i < parts.len()
        invariant
            i <= parts@.len(),
            ps == parts@.map(|_i: int, p: String| p@),
            s@ == joined_lines(ps.take(i as int)),
        decreases parts@.len() - i,
    {
        if i > 0 {
            push_char(&mut s, '\n');
        }
        let mut k: usize = 0;
        let part = &parts[i];
        while k < part.as_str().unicode_len()
            invariant
                k <= part@.len(),
                part == parts@[i as int],
                i < parts@.len(),
                ps == parts@.map(|_i: int, p: String| p@),
                s@ == if i > 0 {
                    joined_lines(ps.take(i as int)) + seq!['\n'] + part@.take(k as int)
                } else {
                    part@.take(k as int)
                },
            decreases part@.len() - k,
        {
            push_char(&mut s, part.as_str().get_char(k));
            proof {
                assert(part@.take(k + 1) =~= part@.take(k as int).push(part@[k as int]));
                if i > 0 {
                    assert((joined_lines(ps.take(i as int)) + seq!['\n'] + part@.take(
                        k as int,
                    )).push(part@[k as int]) =~= joined_lines(ps.take(i as int)) + seq!['\n']
                        + part@.take(k + 1));
                }
            }
            k = k + 1;
        }
        proof {
            assert(part@.take(part@.len() as int) =~= part@);
            let nd = ps.take(i + 1);
            assert(nd.drop_last() =~= ps.take(i as int));
            assert(nd.last() == ps[i as int]);
            assert(ps[i as int] == part@);
            if i == 0 {
                assert(s@ == joined_lines(nd));
            }
        }
        i = i + 1;
    }
    proof {
        assert(ps.take(ps.len() as int) =~= ps);
    }
    s
}

} // verus!
