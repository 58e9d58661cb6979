//! The command-line surface: the parsed invocation, the decision the
//! interactive loop takes on each input line, and the row arithmetic behind
//! clearing previously printed text.

use vstd::prelude::*;

use crate::robots::{nl_from, split_lines, split_lines_from, trim};
use crate::text::{char_is_space, chars_of, is_space, string_of_range};

verus! {

/// A parsed invocation: an interactive session, or a single prompt.
pub struct Cli {
    /// Start interactive mode.
    pub interactive: bool,
    /// The one-shot query prompt, required outside interactive mode.
    pub prompt: Option<String>,
}

/// What the interactive loop does with one input line.
pub enum ReplAction {
    /// End the session (`exit`, `quit`).
    Quit,
    /// Read the next line (blank input).
    Skip,
    /// Ask the agent with the trimmed input.
    Ask(String),
}

/// Decide what one input line means: blank input is skipped, a trimmed
/// `exit` or `quit` ends the session, and anything else is asked.
pub fn classify_input(line: &str) -> (r: ReplAction)
    ensures
        ({
            let t = trim(line@);
            match r {
                ReplAction::Quit => t == "exit"@ || t == "quit"@,
                ReplAction::Skip => t.len() == 0,
                ReplAction::Ask(s) => s@ == t && t.len() > 0 && t != "exit"@ && t != "quit"@,
            }
        }),
{
    let cs = chars_of(line);
    let n = cs.len();
    let mut a: usize = 0;
    while a < n && char_is_space(cs[a])
        invariant
            a <= n,
            n == cs@.len(),
            forall|k: int| 0 <= k < a ==> is_space(#[trigger] cs@[k]),
        decreases n - a,
    {
        a = a + 1;
    }
    let mut b: usize = n;
    while b > a && char_is_space(cs[b - 1])
        invariant
            a <= b <= n,
            n == cs@.len(),
            forall|k: int| b <= k < n ==> is_space(#[trigger] cs@[k]),
        decreases b - a,
    {
        b = b - 1;
    }
    proof {
        crate::robots::lemma_trim_bounds(cs@, a as int, b as int);
    }
    let t = string_of_range(&cs, a, b);
    if b == a {
        return ReplAction::Skip;
    }
    let is_exit = b - a == 4 && cs[a] == 'e' && cs[a + 1] == 'x' && cs[a + 2] == 'i' && cs[a + 3]
        == 't';
    let is_quit = b - a == 4 && cs[a] == 'q' && cs[a + 1] == 'u' && cs[a + 2] == 'i' && cs[a + 3]
        == 't';
    proof {
        let tv = cs@.subrange(a as int, b as int);
        reveal_strlit("exit");
        reveal_strlit("quit");
        assert((tv == "exit"@) == is_exit) by {
            if is_exit {
                assert(tv =~= "exit"@);
            } else if tv == "exit"@ {
                assert(tv[0] == 'e' && tv[1] == 'x' && tv[2] == 'i' && tv[3] == 't');
            }
        }
        assert((tv == "quit"@) == is_quit) by {
            if is_quit {
                assert(tv =~= "quit"@);
            } else if tv == "quit"@ {
                assert(tv[0] == 'q' && tv[1] == 'u' && tv[2] == 'i' && tv[3] == 't');
            }
        }
    }
    if is_exit || is_quit {
        ReplAction::Quit
    } else {
        ReplAction::Ask(t)
    }
}

/// Terminal rows a list of text lines occupies: each line takes one row per
/// full width, plus one.
pub open spec fn rows_of_lines(ls: Seq<Seq<char>>, width: nat) -> nat
    decreases ls.len(),
{
    if ls.len() == 0 {
        0
    } else {
        rows_of_lines(ls.drop_last(), width) + ls.last().len() / width + 1
    }
}

/// Terminal rows a text occupies at a given width, counting wrapped lines.
pub open spec fn rows_occupied(s: Seq<char>, width: nat) -> nat {
    rows_of_lines(split_lines(s), width)
}

proof fn lemma_rows_prefix(ls: Seq<Seq<char>>, k: int, width: nat)
    requires
        width > 0,
        0 <= k <= ls.len(),
    ensures
        rows_of_lines(ls.take(k), width) <= rows_of_lines(ls, width),
    decreases ls.len() - k,
{
    if k < ls.len() {
        lemma_rows_prefix(ls, k + 1, width);
        let t = ls.take(k + 1);
        assert(t.drop_last() =~= ls.take(k));
        assert(rows_of_lines(t, width) == rows_of_lines(t.drop_last(), width) + t.last().len()
            / width + 1);
    } else {
        assert(ls.take(k) =~= ls);
    }
}

proof fn lemma_rows_ge_len(ls: Seq<Seq<char>>, width: nat)
    requires
        width > 0,
    ensures
        rows_of_lines(ls, width) >= ls.len(),
    decreases ls.len(),
{
    if ls.len() > 0 {
        lemma_rows_ge_len(ls.drop_last(), width);
        assert(rows_of_lines(ls, width) == rows_of_lines(ls.drop_last(), width) + ls.last().len()
            / width + 1);
    }
}

/// Does text printed at `width` columns fit in fewer than `height` rows, so
/// that it can be cleared by moving the cursor up?
#[verifier::loop_isolation(false)]
pub fn fits_on_screen(text: &str, width: usize, height: usize) -> (r: bool)
    requires
        width > 0,
    ensures
        r == (rows_occupied(text@, width as nat) < height),
{
    let cs = chars_of(text);
    let n = cs.len();
    let ghost ls = split_lines(cs@);
    if height == 0 {
        proof {
            assert(ls.len() >= 1);
            lemma_rows_ge_len(ls, width as nat);
        }
        return false;
    }
    proof {
        assert(ls.take(0) =~= Seq::<Seq<char>>::empty());
        assert(ls.skip(0) =~= ls);
    }
    let mut rows: usize = 0;
    let mut i: usize = 0;
    let mut finished = false;
    let ghost mut k: int = 0;
    while !finished
        invariant
            i <= n,
            0 <= k <= ls.len(),
            rows == rows_of_lines(ls.take(k), width as nat),
            rows < height,
            finished ==> k == ls.len(),
            !finished ==> ls.skip(k) == split_lines_from(cs@, i as int),
        decreases n - i + (if finished { 0int } else { 1int }),
    {
        let mut e: usize = i;
        while e < n && cs[e] != '\n'
            invariant
                i <= e <= n,
                forall|j: int| i <= j < e ==> cs@[j] != '\n',
            decreases n - e,
        {
            e = e + 1;
        }
        proof {
            crate::robots::lemma_nl_from_bounds(cs@, i as int);
            assert(nl_from(cs@, i as int) == e as int) by {
                if nl_from(cs@, i as int) < e {
                    assert(cs@[nl_from(cs@, i as int)] != '\n');
                }
                if e < n && nl_from(cs@, i as int) > e {
                    assert(cs@[e as int] != '\n');
                }
            }
            assert(ls.skip(k)[0] == ls[k]);
            assert(ls[k] == cs@.subrange(i as int, e as int));
            assert(ls[k].len() == e - i);
            let t = ls.take(k + 1);
            assert(t.drop_last() =~= ls.take(k));
            assert(t.last() == ls[k]);
        }
        // Rows this line takes, counting wrapping.
        let q = (e - i) / width;
        if q >= height - rows - 1 {
            proof {
                lemma_rows_prefix(ls, k + 1, width as nat);
            }
            return false;
        }
        rows = rows + q + 1;
        if e == n {
            proof {
                assert(split_lines_from(cs@, i as int).len() == 1);
                assert(ls.len() - k == 1);
                k = k + 1;
                assert(ls.take(k) =~= ls);
            }
            finished = true;
        } else {
            proof {
                assert(ls.skip(k).drop_first() =~= ls.skip(k + 1));
                k = k + 1;
                assert(ls.skip(k) =~= split_lines_from(cs@, e + 1));
            }
            i = e + 1;
        }
    }
    true
}

} // verus!
