//! robots.txt: parsing under the robots-exclusion syntax (user-agent groups,
//! `Allow`, `Disallow`, `*` wildcards, `$` end anchor), and the allow/deny
//! decision for a user-agent and a path, where the longest matching pattern
//! wins and `Allow` beats `Disallow` on equal length.

use vstd::prelude::*;

use vstd::string::*;

use crate::http::{user_agent, user_agent_model, HttpClient};
use crate::origin::{extract_origin, extract_path, origin_of, path_of};
use crate::text::{
    chars_of, char_is_space, first_index_of, is_space, lemma_first_index_exact, lower,
    chars_eq, is_prefix_of, str_eq, to_lower,
};

verus! {

// ---------------------------------------------------------------------------
// Policy model
// ---------------------------------------------------------------------------
/// One `Allow` or `Disallow` line: mathematical form.
pub ghost struct RuleModel {
    pub allow: bool,
    pub pattern: Seq<char>,
}

/// One user-agent group: the agent tokens (lower-cased), then the rules.
pub ghost struct GroupModel {
    pub agents: Seq<Seq<char>>,
    pub rules: Seq<RuleModel>,
}

/// One `Allow` or `Disallow` rule of a parsed policy.
pub struct RobotsRule {
    pub allow: bool,
    pub pattern: Vec<char>,
}

impl View for RobotsRule {
    type V = RuleModel;

    open spec fn view(&self) -> RuleModel {
        RuleModel { allow: self.allow, pattern: self.pattern@ }
    }
}

/// One user-agent group of a parsed policy.
pub struct RobotsGroup {
    pub agents: Vec<Vec<char>>,
    pub rules: Vec<RobotsRule>,
}

impl View for RobotsGroup {
    type V = GroupModel;

    open spec fn view(&self) -> GroupModel {
        GroupModel {
            agents: self.agents@.map(|_i: int, a: Vec<char>| a@),
            rules: self.rules@.map(|_i: int, r: RobotsRule| r@),
        }
    }
}

/// A parsed robots.txt policy: the user-agent groups in file order.
pub struct RobotsPolicy {
    pub groups: Vec<RobotsGroup>,
}

impl View for RobotsPolicy {
    type V = Seq<GroupModel>;

    open spec fn view(&self) -> Seq<GroupModel> {
        self.groups@.map(|_i: int, g: RobotsGroup| g@)
    }
}

// ---------------------------------------------------------------------------
// Parsing: lines
// ---------------------------------------------------------------------------
/// Position of the first newline at or after `i`, or `s.len()`.
pub open spec fn nl_from(s: Seq<char>, i: int) -> int
    decreases s.len() - i,
{
    if i < 0 || i >= s.len() {
        s.len() as int
    } else if s[i] == '\n' {
        i
    } else {
        nl_from(s, i + 1)
    }
}

pub proof fn lemma_nl_from_bounds(s: Seq<char>, i: int)
    requires
        0 <= i <= s.len(),
    ensures
        i <= nl_from(s, i) <= s.len(),
        forall|k: int| i <= k < nl_from(s, i) ==> s[k] != '\n',
        nl_from(s, i) < s.len() ==> s[nl_from(s, i)] == '\n',
    decreases s.len() - i,
{
    if i < s.len() && s[i] != '\n' {
        lemma_nl_from_bounds(s, i + 1);
    }
}

/// The lines of `s` from position `i` on, split at `\n`.
pub open spec fn split_lines_from(s: Seq<char>, i: int) -> Seq<Seq<char>>
    decreases s.len() - i,
    via split_lines_from_dec
{
    if i < 0 || i > s.len() {
        Seq::empty()
    } else {
        let e = nl_from(s, i);
        if e == s.len() {
            seq![s.subrange(i, e)]
        } else {
            seq![s.subrange(i, e)] + split_lines_from(s, e + 1)
        }
    }
}

#[via_fn]
proof fn split_lines_from_dec(s: Seq<char>, i: int) {
    if 0 <= i <= s.len() {
        lemma_nl_from_bounds(s, i);
    }
}

/// The lines of `s`, split at `\n`.
pub open spec fn split_lines(s: Seq<char>) -> Seq<Seq<char>> {
    split_lines_from(s, 0)
}

// ---------------------------------------------------------------------------
// Parsing: one line
// ---------------------------------------------------------------------------
/// `s` with leading horizontal whitespace removed.
pub open spec fn trim_start(s: Seq<char>) -> Seq<char>
    decreases s.len(),
{
    if s.len() > 0 && is_space(s[0]) {
        trim_start(s.drop_first())
    } else {
        s
    }
}

/// `s` with trailing horizontal whitespace removed.
pub open spec fn trim_end(s: Seq<char>) -> Seq<char>
    decreases s.len(),
{
    if s.len() > 0 && is_space(s.last()) {
        trim_end(s.drop_last())
    } else {
        s
    }
}

/// `s` with surrounding horizontal whitespace removed.
pub open spec fn trim(s: Seq<char>) -> Seq<char> {
    trim_end(trim_start(s))
}

proof fn lemma_trim_start_exact(s: Seq<char>, a: int)
    requires
        0 <= a <= s.len(),
        forall|k: int| 0 <= k < a ==> is_space(#[trigger] s[k]),
        a == s.len() || !is_space(s[a]),
    ensures
        trim_start(s) == s.subrange(a, s.len() as int),
    decreases a,
{
    if a == 0 {
        if s.len() == 0 || !is_space(s[0]) {
            assert(s.subrange(0, s.len() as int) =~= s);
        }
    } else {
        let t = s.drop_first();
        assert forall|k: int| 0 <= k < a - 1 implies is_space(#[trigger] t[k]) by {
            assert(t[k] == s[k + 1]);
        }
        lemma_trim_start_exact(t, a - 1);
        assert(t.subrange(a - 1, t.len() as int) =~= s.subrange(a, s.len() as int));
    }
}

proof fn lemma_trim_end_exact(s: Seq<char>, b: int)
    requires
        0 <= b <= s.len(),
        forall|k: int| b <= k < s.len() ==> is_space(#[trigger] s[k]),
        b == 0 || !is_space(s[b - 1]),
    ensures
        trim_end(s) == s.subrange(0, b),
    decreases s.len(),
{
    if b == s.len() {
        if s.len() == 0 || !is_space(s.last()) {
            assert(s.subrange(0, b) =~= s);
        } else {
            lemma_trim_end_exact(s.drop_last(), b - 1);
        }
    } else {
        lemma_trim_end_exact(s.drop_last(), b);
        assert(s.drop_last().subrange(0, b) =~= s.subrange(0, b));
    }
}

/// `trim` answers exactly the characters between the leading and the
/// trailing whitespace run.
pub proof fn lemma_trim_bounds(s: Seq<char>, a: int, b: int)
    requires
        0 <= a <= b <= s.len(),
        forall|k: int| 0 <= k < a ==> is_space(#[trigger] s[k]),
        forall|k: int| b <= k < s.len() ==> is_space(#[trigger] s[k]),
        a == s.len() || !is_space(s[a]),
        b == a || !is_space(s[b - 1]),
    ensures
        trim(s) == s.subrange(a, b),
{
    lemma_trim_start_exact(s, a);
    let g = s.subrange(a, s.len() as int);
    assert forall|k: int| b - a <= k < g.len() implies is_space(#[trigger] g[k]) by {
        assert(g[k] == s[a + k]);
    }
    if b > a {
        assert(g[b - 1 - a] == s[b - 1]);
    }
    lemma_trim_end_exact(g, b - a);
    assert(g.subrange(0, b - a) =~= s.subrange(a, b));
}

/// What one robots.txt line contributes.
pub ghost enum LineKind {
    Agent(Seq<char>),
    RuleLine(bool, Seq<char>),
    Other,
}

/// Classify one line: strip the `#` comment, split at the first `:`, trim
/// both sides, case-fold the field name.  `user-agent` contributes its
/// (case-folded) token; `allow` and `disallow` contribute a rule when their
/// value is non-empty; anything else contributes nothing.
pub open spec fn line_kind(line: Seq<char>) -> LineKind {
    let l = line.subrange(0, first_index_of(line, '#'));
    let c = first_index_of(l, ':');
    if c == l.len() {
        LineKind::Other
    } else {
        let field = lower(trim(l.subrange(0, c)));
        let value = trim(l.subrange(c + 1, l.len() as int));
        if field == "user-agent"@ {
            LineKind::Agent(lower(value))
        } else if field == "allow"@ {
            if value.len() > 0 {
                LineKind::RuleLine(true, value)
            } else {
                LineKind::Other
            }
        } else if field == "disallow"@ {
            if value.len() > 0 {
                LineKind::RuleLine(false, value)
            } else {
                LineKind::Other
            }
        } else {
            LineKind::Other
        }
    }
}

// ---------------------------------------------------------------------------
// Parsing: grouping state machine
// ---------------------------------------------------------------------------
/// Parser state: the groups already closed, and the group being built.
pub ghost struct ParseState {
    pub done: Seq<GroupModel>,
    pub cur: Option<GroupModel>,
}

/// Feed one line to the parser.  A `user-agent` line joins the open group
/// while that group has no rules yet, and otherwise closes it and opens a new
/// one; a rule line extends the open group and is dropped when no group is
/// open; other lines change nothing.
pub open spec fn parse_step(st: ParseState, line: Seq<char>) -> ParseState {
    match line_kind(line) {
        LineKind::Agent(a) => match st.cur {
            Some(g) => {
                if g.rules.len() == 0 {
                    ParseState {
                        done: st.done,
                        cur: Some(GroupModel { agents: g.agents.push(a), rules: g.rules }),
                    }
                } else {
                    ParseState {
                        done: st.done.push(g),
                        cur: Some(GroupModel { agents: seq![a], rules: seq![] }),
                    }
                }
            },
            None => ParseState {
                done: st.done,
                cur: Some(GroupModel { agents: seq![a], rules: seq![] }),
            },
        },
        LineKind::RuleLine(al, p) => match st.cur {
            Some(g) => ParseState {
                done: st.done,
                cur: Some(
                    GroupModel {
                        agents: g.agents,
                        rules: g.rules.push(RuleModel { allow: al, pattern: p }),
                    },
                ),
            },
            None => st,
        },
        LineKind::Other => st,
    }
}

/// Feed every line to the parser in order.
pub open spec fn parse_run(st: ParseState, ls: Seq<Seq<char>>) -> ParseState
    decreases ls.len(),
{
    if ls.len() == 0 {
        st
    } else {
        parse_run(parse_step(st, ls[0]), ls.drop_first())
    }
}

/// Close the open group, if any.
pub open spec fn parse_finish(st: ParseState) -> Seq<GroupModel> {
    match st.cur {
        Some(g) => st.done.push(g),
        None => st.done,
    }
}

/// The policy a robots.txt body parses to.
pub open spec fn parse_policy(body: Seq<char>) -> Seq<GroupModel> {
    parse_finish(parse_run(ParseState { done: seq![], cur: None }, split_lines(body)))
}

// ---------------------------------------------------------------------------
// Pattern matching
// ---------------------------------------------------------------------------
/// A robots pattern matches a path when it matches some prefix of it: `*`
/// stands for any run of characters, and a final `$` anchors the pattern to
/// the end of the path.
pub open spec fn wild_match(p: Seq<char>, s: Seq<char>) -> bool
    decreases p.len() + s.len(),
{
    if p.len() == 0 {
        true
    } else if p.len() == 1 && p[0] == '$' {
        s.len() == 0
    } else if p[0] == '*' {
        wild_match(p.drop_first(), s) || (s.len() > 0 && wild_match(p, s.drop_first()))
    } else {
        s.len() > 0 && p[0] == s[0] && wild_match(p.drop_first(), s.drop_first())
    }
}

/// Decide `wild_match(p[pi..], s[si..])`.
fn wild_match_at(p: &Vec<char>, pi: usize, s: &Vec<char>, si: usize) -> (r: bool)
    requires
        pi <= p@.len(),
        si <= s@.len(),
    ensures
        r == wild_match(p@.skip(pi as int), s@.skip(si as int)),
    decreases p@.len() - pi + s@.len() - si,
{
    let ghost ps = p@.skip(pi as int);
    let ghost ss = s@.skip(si as int);
    proof {
        if pi < p@.len() {
            assert(ps[0] == p@[pi as int]);
            assert(ps.drop_first() =~= p@.skip(pi + 1));
        }
        if si < s@.len() {
            assert(ss[0] == s@[si as int]);
            assert(ss.drop_first() =~= s@.skip(si + 1));
        }
    }
    if pi == p.len() {
        true
    } else if pi + 1 == p.len() && p[pi] == '$' {
        si == s.len()
    } else if p[pi] == '*' {
        if wild_match_at(p, pi + 1, s, si) {
            true
        } else if si < s.len() {
            wild_match_at(p, pi, s, si + 1)
        } else {
            false
        }
    } else {
        if si < s.len() && p[pi] == s[si] {
            wild_match_at(p, pi + 1, s, si + 1)
        } else {
            false
        }
    }
}

/// Decide whether a rule pattern matches a path.
pub fn pattern_matches(pattern: &Vec<char>, path: &Vec<char>) -> (r: bool)
    ensures
        r == wild_match(pattern@, path@),
{
    let r = wild_match_at(pattern, 0, path, 0);
    proof {
        assert(pattern@.skip(0) =~= pattern@);
        assert(path@.skip(0) =~= path@);
    }
    r
}

// ---------------------------------------------------------------------------
// Policy evaluation
// ---------------------------------------------------------------------------
pub open spec fn star_token() -> Seq<char> {
    seq!['*']
}

/// An agent token applies to a user-agent when it is a non-`*` prefix of it.
pub open spec fn token_applies(t: Seq<char>, ua: Seq<char>) -> bool {
    t != star_token() && is_prefix_of(t, ua)
}

/// Length of the longest agent token of `g` that applies to `ua`, or -1.
pub open spec fn group_agent_best(g: GroupModel, ua: Seq<char>) -> int
    decreases g.agents.len(),
{
    if g.agents.len() == 0 {
        -1
    } else {
        let rest = group_agent_best(
            GroupModel { agents: g.agents.drop_last(), rules: g.rules },
            ua,
        );
        let t = g.agents.last();
        if token_applies(t, ua) && t.len() > rest {
            t.len() as int
        } else {
            rest
        }
    }
}

/// Length of the longest agent token of any group that applies to `ua`, or -1.
pub open spec fn policy_agent_best(gs: Seq<GroupModel>, ua: Seq<char>) -> int
    decreases gs.len(),
{
    if gs.len() == 0 {
        -1
    } else {
        let rest = policy_agent_best(gs.drop_last(), ua);
        let b = group_agent_best(gs.last(), ua);
        if b > rest {
            b
        } else {
            rest
        }
    }
}

/// Does the group name the wildcard agent `*`?
pub open spec fn group_has_star(g: GroupModel) -> bool {
    exists|i: int| 0 <= i < g.agents.len() && g.agents[i] == star_token()
}

/// The groups whose rules govern `ua`: those achieving the longest applying
/// agent token, or, when no token applies, those naming `*`.
pub open spec fn group_selected(gs: Seq<GroupModel>, g: GroupModel, ua: Seq<char>) -> bool {
    if policy_agent_best(gs, ua) >= 0 {
        group_agent_best(g, ua) == policy_agent_best(gs, ua)
    } else {
        group_has_star(g)
    }
}

/// Length of the longest pattern among the matching rules of `rules` whose
/// verdict is `want`, or -1 when none matches.
pub open spec fn rules_best(rules: Seq<RuleModel>, path: Seq<char>, want: bool) -> int
    decreases rules.len(),
{
    if rules.len() == 0 {
        -1
    } else {
        let rest = rules_best(rules.drop_last(), path, want);
        let r = rules.last();
        if r.allow == want && wild_match(r.pattern, path) && r.pattern.len() > rest {
            r.pattern.len() as int
        } else {
            rest
        }
    }
}

/// `rules_best` over the first `k` groups, counting selected groups only.
pub open spec fn policy_best(
    gs: Seq<GroupModel>,
    k: int,
    ua: Seq<char>,
    path: Seq<char>,
    want: bool,
) -> int
    decreases k,
{
    if k <= 0 {
        -1
    } else {
        let rest = policy_best(gs, k - 1, ua, path, want);
        if group_selected(gs, gs[k - 1], ua) {
            let b = rules_best(gs[k - 1].rules, path, want);
            if b > rest {
                b
            } else {
                rest
            }
        } else {
            rest
        }
    }
}

/// The allow/deny verdict of a parsed policy for a user-agent and a path.
///
/// The groups governing the (case-folded) user-agent are selected by longest
/// applying agent token, falling back to the `*` groups; among their matching
/// rules the longest pattern wins, and `Allow` wins a tie.  With no governing
/// group or no matching rule the verdict is allow.
pub open spec fn policy_allows(gs: Seq<GroupModel>, ua: Seq<char>, path: Seq<char>) -> bool {
    policy_best(gs, gs.len() as int, lower(ua), path, true) >= policy_best(
        gs,
        gs.len() as int,
        lower(ua),
        path,
        false,
    )
}

/// Copy the characters `cs[from..to]` into a fresh vector.
fn vec_range(cs: &Vec<char>, from: usize, to: usize) -> (v: Vec<char>)
    requires
        from <= to <= cs@.len(),
    ensures
        v@ == cs@.subrange(from as int, to as int),
{
    let mut v: Vec<char> = Vec::new();
    let mut i: usize = from;
    while i < to
        invariant
            from <= i <= to <= cs@.len(),
            v@ == cs@.subrange(from as int, i as int),
        decreases to - i,
    {
        v.push(cs[i]);
        proof {
            assert(v@ =~= cs@.subrange(from as int, i + 1));
        }
        i = i + 1;
    }
    v
}

/// Copy the characters `cs[from..to]` into a fresh vector, case-folded.
fn lower_range(cs: &Vec<char>, from: usize, to: usize) -> (v: Vec<char>)
    requires
        from <= to <= cs@.len(),
    ensures
        v@ == lower(cs@.subrange(from as int, to as int)),
{
    let ghost target = lower(cs@.subrange(from as int, to as int));
    let mut v: Vec<char> = Vec::new();
    let mut i: usize = from;
    while i < to
        invariant
            from <= i <= to <= cs@.len(),
            target == lower(cs@.subrange(from as int, to as int)),
            v@ == target.take(i - from),
        decreases to - i,
    {
        v.push(to_lower(cs[i]));
        proof {
            assert(cs@.subrange(from as int, to as int)[i - from] == cs@[i as int]);
            assert(v@ =~= target.take(i + 1 - from));
        }
        i = i + 1;
    }
    proof {
        assert(target.take(to - from) =~= target);
    }
    v
}

/// What one parsed line contributes, in executable form.
enum LineItem {
    Agent(Vec<char>),
    RuleItem(bool, Vec<char>),
    Nothing,
}

spec fn item_model(it: LineItem) -> LineKind {
    match it {
        LineItem::Agent(a) => LineKind::Agent(a@),
        LineItem::RuleItem(al, p) => LineKind::RuleLine(al, p@),
        LineItem::Nothing => LineKind::Other,
    }
}

/// Classify the line `cs[lo..hi]`.
#[verifier::loop_isolation(false)]
#[verifier::rlimit(100)]
#[verifier::spinoff_prover]
fn classify_line(cs: &Vec<char>, lo: usize, hi: usize) -> (it: LineItem)
    requires
        lo <= hi <= cs@.len(),
    ensures
        item_model(it) == line_kind(cs@.subrange(lo as int, hi as int)),
{
    let ghost line = cs@.subrange(lo as int, hi as int);
    // Strip the comment.
    let mut ce: usize = lo;
    while ce < hi && cs[ce] != '#'
        invariant
            lo <= ce <= hi,
            forall|k: int| lo <= k < ce ==> cs@[k] != '#',
        decreases hi - ce,
    {
        ce = ce + 1;
    }
    proof {
        assert forall|k: int| 0 <= k < ce - lo implies line[k] != '#' by {
            assert(line[k] == cs@[lo + k]);
        }
        if ce < hi {
            assert(line[ce - lo] == cs@[ce as int]);
        }
        lemma_first_index_exact(line, '#', ce - lo);
        assert(line.subrange(0, ce - lo) =~= cs@.subrange(lo as int, ce as int));
    }
    let ghost l = line.subrange(0, first_index_of(line, '#'));
    // Split at the first colon.
    let mut co: usize = lo;
    while co < ce && cs[co] != ':'
        invariant
            lo <= co <= ce,
            forall|k: int| lo <= k < co ==> cs@[k] != ':',
        decreases ce - co,
    {
        co = co + 1;
    }
    proof {
        assert forall|k: int| 0 <= k < co - lo implies l[k] != ':' by {
            assert(l[k] == cs@[lo + k]);
        }
        if co < ce {
            assert(l[co - lo] == cs@[co as int]);
        }
        lemma_first_index_exact(l, ':', co - lo);
    }
    if co == ce {
        return LineItem::Nothing;
    }
    // Trim and case-fold the field name.
    let ghost fseq = cs@.subrange(lo as int, co as int);
    let mut fa: usize = lo;
    while fa < co && char_is_space(cs[fa])
        invariant
            lo <= fa <= co,
            forall|k: int| lo <= k < fa ==> is_space(#[trigger] cs@[k]),
        decreases co - fa,
    {
        fa = fa + 1;
    }
    let mut fb: usize = co;
    while fb > fa && char_is_space(cs[fb - 1])
        invariant
            fa <= fb <= co,
            forall|k: int| fb <= k < co ==> is_space(#[trigger] cs@[k]),
        decreases fb - fa,
    {
        fb = fb - 1;
    }
    proof {
        assert forall|k: int| 0 <= k < fa - lo implies is_space(#[trigger] fseq[k]) by {
            assert(fseq[k] == cs@[lo + k]);
        }
        if fa < co {
            assert(fseq[fa - lo] == cs@[fa as int]);
        }
        lemma_trim_start_exact(fseq, fa - lo);
        assert(fseq.subrange(fa - lo, fseq.len() as int) =~= cs@.subrange(fa as int, co as int));
        let g = cs@.subrange(fa as int, co as int);
        assert forall|k: int| fb - fa <= k < g.len() implies is_space(#[trigger] g[k]) by {
            assert(g[k] == cs@[fa + k]);
        }
        if fb > fa {
            assert(g[fb - 1 - fa] == cs@[fb - 1]);
        }
        lemma_trim_end_exact(g, fb - fa);
        assert(g.subrange(0, fb - fa) =~= cs@.subrange(fa as int, fb as int));
        assert(l.subrange(0, co - lo) =~= fseq);
        assert(trim(l.subrange(0, co - lo)) == cs@.subrange(fa as int, fb as int));
    }
    let field = lower_range(cs, fa, fb);
    // Trim the value.
    let ghost vseq = cs@.subrange(co + 1, ce as int);
    let mut va: usize = co + 1;
    while va < ce && char_is_space(cs[va])
        invariant
            co + 1 <= va <= ce,
            forall|k: int| co + 1 <= k < va ==> is_space(#[trigger] cs@[k]),
        decreases ce - va,
    {
        va = va + 1;
    }
    let mut vb: usize = ce;
    while vb > va && char_is_space(cs[vb - 1])
        invariant
            va <= vb <= ce,
            forall|k: int| vb <= k < ce ==> is_space(#[trigger] cs@[k]),
        decreases vb - va,
    {
        vb = vb - 1;
    }
    proof {
        assert forall|k: int| 0 <= k < va - co - 1 implies is_space(#[trigger] vseq[k]) by {
            assert(vseq[k] == cs@[co + 1 + k]);
        }
        if va < ce {
            assert(vseq[va - co - 1] == cs@[va as int]);
        }
        lemma_trim_start_exact(vseq, va - co - 1);
        assert(vseq.subrange(va - co - 1, vseq.len() as int) =~= cs@.subrange(
            va as int,
            ce as int,
        ));
        let g = cs@.subrange(va as int, ce as int);
        assert forall|k: int| vb - va <= k < g.len() implies is_space(#[trigger] g[k]) by {
            assert(g[k] == cs@[va + k]);
        }
        if vb > va {
            assert(g[vb - 1 - va] == cs@[vb - 1]);
        }
        lemma_trim_end_exact(g, vb - va);
        assert(g.subrange(0, vb - va) =~= cs@.subrange(va as int, vb as int));
        assert(l.subrange(co - lo + 1, l.len() as int) =~= vseq);
        assert(trim(l.subrange(co - lo + 1, l.len() as int)) == cs@.subrange(
            va as int,
            vb as int,
        ));
    }
    // Dispatch on the field name.
    let key_ua = chars_of("user-agent");
    if chars_eq(&field, &key_ua) {
        let a = lower_range(cs, va, vb);
        return LineItem::Agent(a);
    }
    if vb == va {
        return LineItem::Nothing;
    }
    let key_allow = chars_of("allow");
    if chars_eq(&field, &key_allow) {
        let p = vec_range(cs, va, vb);
        return LineItem::RuleItem(true, p);
    }
    let key_dis = chars_of("disallow");
    if chars_eq(&field, &key_dis) {
        let p = vec_range(cs, va, vb);
        return LineItem::RuleItem(false, p);
    }
    LineItem::Nothing
}

/// The model of the parser state held in `parse_robots`.
spec fn st_model(
    done: Seq<GroupModel>,
    has_cur: bool,
    ags: Seq<Seq<char>>,
    rls: Seq<RuleModel>,
) -> ParseState {
    ParseState {
        done,
        cur: if has_cur {
            Some(GroupModel { agents: ags, rules: rls })
        } else {
            None
        },
    }
}

/// Parse a robots.txt body into a policy.  Parsing never fails: lines that
/// fit no rule of the syntax contribute nothing.
#[verifier::loop_isolation(false)]
#[verifier::rlimit(30)]
pub fn parse_robots(body: &str) -> (p: RobotsPolicy)
    ensures
        p@ == parse_policy(body@),
{
    let cs = chars_of(body);
    let n = cs.len();
    let mut done: Vec<RobotsGroup> = Vec::new();
    let mut cur_agents: Vec<Vec<char>> = Vec::new();
    let mut cur_rules: Vec<RobotsRule> = Vec::new();
    let mut has_cur = false;
    let ghost init = ParseState { done: seq![], cur: None };
    let ghost all = split_lines(cs@);
    proof {
        assert(done@.map(|_k: int, g: RobotsGroup| g@) =~= Seq::<GroupModel>::empty());
        assert(cur_agents@.map(|_k: int, a: Vec<char>| a@) =~= Seq::<Seq<char>>::empty());
        assert(cur_rules@.map(|_k: int, r: RobotsRule| r@) =~= Seq::<RuleModel>::empty());
    }
    let mut i: usize = 0;
    let mut finished = false;
    while !finished
        invariant
            i <= n,
            n == cs@.len(),
            !has_cur ==> cur_agents@.len() == 0 && cur_rules@.len() == 0,
            finished ==> parse_run(init, all) == st_model(
                done@.map(|_k: int, g: RobotsGroup| g@),
                has_cur,
                cur_agents@.map(|_k: int, a: Vec<char>| a@),
                cur_rules@.map(|_k: int, r: RobotsRule| r@),
            ),
            !finished ==> parse_run(init, all) == parse_run(
                st_model(
                    done@.map(|_k: int, g: RobotsGroup| g@),
                    has_cur,
                    cur_agents@.map(|_k: int, a: Vec<char>| a@),
                    cur_rules@.map(|_k: int, r: RobotsRule| r@),
                ),
                split_lines_from(cs@, i as int),
            ),
        decreases n - i + (if finished { 0int } else { 1int }),
    {
        let ghost st0 = st_model(
            done@.map(|_k: int, g: RobotsGroup| g@),
            has_cur,
            cur_agents@.map(|_k: int, a: Vec<char>| a@),
            cur_rules@.map(|_k: int, r: RobotsRule| r@),
        );
        // The current line runs to the next newline.
        let mut e: usize = i;
        while e < n && cs[e] != '\n'
            invariant
                i <= e <= n,
                forall|k: int| i <= k < e ==> cs@[k] != '\n',
            decreases n - e,
        {
            e = e + 1;
        }
        proof {
            lemma_nl_from_bounds(cs@, i as int);
            assert(nl_from(cs@, i as int) == e as int) by {
                if nl_from(cs@, i as int) < e {
                    assert(cs@[nl_from(cs@, i as int)] != '\n');
                }
                if e < n && nl_from(cs@, i as int) > e {
                    assert(cs@[e as int] != '\n');
                }
            }
        }
        let ghost line = cs@.subrange(i as int, e as int);
        let ghost rest = split_lines_from(cs@, i as int);
        proof {
            assert(rest[0] == line);
            if e < n {
                assert(rest.drop_first() =~= split_lines_from(cs@, e + 1));
            } else {
                assert(rest.drop_first() =~= Seq::<Seq<char>>::empty());
            }
        }
        // Feed the line to the grouping state machine.
        let item = classify_line(&cs, i, e);
        match item {
            LineItem::Agent(a) => {
                if has_cur && cur_rules.len() > 0 {
                    let g = RobotsGroup { agents: cur_agents, rules: cur_rules };
                    done.push(g);
                    cur_agents = Vec::new();
                    cur_rules = Vec::new();
                    cur_agents.push(a);
                    proof {
                        assert(cur_agents@.map(|_k: int, x: Vec<char>| x@) =~= seq![a@]);
                        assert(cur_rules@.map(|_k: int, r: RobotsRule| r@) =~= Seq::<
                            RuleModel,
                        >::empty());
                        assert(done@.map(|_k: int, g: RobotsGroup| g@) =~= st0.done.push(
                            st0.cur->Some_0,
                        ));
                    }
                } else {
                    has_cur = true;
                    cur_agents.push(a);
                    proof {
                        match st0.cur {
                            Some(g) => {
                                assert(cur_agents@.map(|_k: int, x: Vec<char>| x@)
                                    =~= g.agents.push(a@));
                            },
                            None => {
                                assert(cur_agents@.map(|_k: int, x: Vec<char>| x@) =~= seq![a@]);
                                assert(cur_rules@.map(|_k: int, r: RobotsRule| r@) =~= Seq::<
                                    RuleModel,
                                >::empty());
                            },
                        }
                    }
                }
            },
            LineItem::RuleItem(al, p) => {
                if has_cur {
                    cur_rules.push(RobotsRule { allow: al, pattern: p });
                    proof {
                        assert(cur_rules@.map(|_k: int, r: RobotsRule| r@)
                            =~= st0.cur->Some_0.rules.push(RuleModel { allow: al, pattern: p@ }));
                    }
                }
            },
            LineItem::Nothing => {},
        }
        proof {
            let st1 = st_model(
                done@.map(|_k: int, g: RobotsGroup| g@),
                has_cur,
                cur_agents@.map(|_k: int, a: Vec<char>| a@),
                cur_rules@.map(|_k: int, r: RobotsRule| r@),
            );
            assert(st1 == parse_step(st0, line));
            assert(parse_run(st0, rest) == parse_run(st1, rest.drop_first()));
        }
        if e == n {
            finished = true;
        } else {
            i = e + 1;
        }
    }
    let p = if has_cur {
        let g = RobotsGroup { agents: cur_agents, rules: cur_rules };
        let mut groups = done;
        groups.push(g);
        RobotsPolicy { groups }
    } else {
        RobotsPolicy { groups: done }
    };
    proof {
        assert(p@ =~= parse_policy(body@));
    }
    p
}

/// Case-fold a user-agent string into a character vector.
fn lower_chars_of(s: &str) -> (v: Vec<char>)
    ensures
        v@ == lower(s@),
{
    let cs = chars_of(s);
    let mut v: Vec<char> = Vec::new();
    let mut i: usize = 0;
    while i < cs.len()
        invariant
            i <= cs@.len(),
            cs@ == s@,
            v@ == lower(s@).take(i as int),
        decreases cs@.len() - i,
    {
        v.push(to_lower(cs[i]));
        proof {
            assert(v@ =~= lower(s@).take(i + 1));
        }
        i = i + 1;
    }
    proof {
        assert(lower(s@).take(s@.len() as int) =~= lower(s@));
    }
    v
}


/// Is `p` a prefix of `s`?
fn chars_prefix(p: &Vec<char>, s: &Vec<char>) -> (r: bool)
    ensures
        r == is_prefix_of(p@, s@),
{
    if p.len() > s.len() {
        return false;
    }
    let mut i: usize = 0;
    while i < p.len()
        invariant
            p@.len() <= s@.len(),
            i <= p@.len(),
            forall|k: int| 0 <= k < i ==> p@[k] == s@[k],
        decreases p@.len() - i,
    {
        if p[i] != s[i] {
            assert(p@[i as int] != s@.subrange(0, p@.len() as int)[i as int]);
            return false;
        }
        i = i + 1;
    }
    proof {
        assert(p@ =~= s@.subrange(0, p@.len() as int));
    }
    true
}

impl RobotsGroup {
    /// Length of this group's longest agent token applying to `ua`,
    /// as -1-for-none arithmetic carried in an `Option`.
    fn agent_best(&self, ua: &Vec<char>) -> (r: Option<usize>)
        ensures
            opt_len(r) == group_agent_best(self@, ua@),
    {
        let mut best: Option<usize> = None;
        let mut i: usize = 0;
        let ghost gm = self@;
        while i < self.agents.len()
            invariant
                gm == self@,
                i <= self.agents@.len(),
                opt_len(best) == group_agent_best(
                    GroupModel { agents: gm.agents.take(i as int), rules: gm.rules },
                    ua@,
                ),
        decreases self.agents@.len() - i,
        {
            let t = &self.agents[i];
            let star = t.len() == 1 && {
                let c = t[0];
                c == '*'
            };
            proof {
                assert(gm.agents[i as int] == self.agents@[i as int]@);
                if star {
                    assert(t@ =~= star_token());
                } else if t@.len() == 1 {
                    assert(t@ != star_token()) by {
                        if t@ == star_token() {
                            assert(t@[0] == '*');
                        }
                    }
                } else {
                    assert(t@ != star_token());
                }
            }
            if !star && chars_prefix(t, ua) {
                let l = t.len();
                match best {
                    None => {
                        best = Some(l);
                    },
                    Some(b) => {
                        if l > b {
                            best = Some(l);
                        }
                    },
                }
            }
            proof {
                let taken = GroupModel { agents: gm.agents.take(i + 1), rules: gm.rules };
                assert(taken.agents.drop_last() =~= gm.agents.take(i as int));
                assert(taken.agents.last() == gm.agents[i as int]);
            }
            i = i + 1;
        }
        proof {
            assert(gm.agents.take(gm.agents.len() as int) =~= gm.agents);
        }
        best
    }

    /// Does this group name the wildcard agent `*`?
    fn has_star(&self) -> (r: bool)
        ensures
            r == group_has_star(self@),
    {
        let mut i: usize = 0;
        while i < self.agents.len()
            invariant
                i <= self.agents@.len(),
                forall|k: int| 0 <= k < i ==> self@.agents[k] != star_token(),
            decreases self.agents@.len() - i,
        {
            let t = &self.agents[i];
            if t.len() == 1 && t[0] == '*' {
                proof {
                    assert(self@.agents[i as int] == t@);
                    assert(t@ =~= star_token());
                }
                return true;
            }
            proof {
                assert(self@.agents[i as int] == t@);
                if t@ == star_token() {
                    assert(t@.len() == 1 && t@[0] == '*');
                }
            }
            i = i + 1;
        }
        false
    }

    /// Longest matching pattern of this group's rules with verdict `want`.
    fn rules_best_len(&self, path: &Vec<char>, want: bool) -> (r: Option<usize>)
        ensures
            opt_len(r) == rules_best(self@.rules, path@, want),
    {
        let mut best: Option<usize> = None;
        let mut i: usize = 0;
        let ghost rm = self@.rules;
        while i < self.rules.len()
            invariant
                rm == self@.rules,
                i <= self.rules@.len(),
                opt_len(best) == rules_best(rm.take(i as int), path@, want),
            decreases self.rules@.len() - i,
        {
            proof {
                assert(rm.take(i + 1).drop_last() =~= rm.take(i as int));
                assert(rm.take(i + 1).last() == rm[i as int]);
                assert(rm[i as int] == self.rules@[i as int]@);
            }
            let rule = &self.rules[i];
            if rule.allow == want && pattern_matches(&rule.pattern, path) {
                let l = rule.pattern.len();
                match best {
                    None => {
                        best = Some(l);
                    },
                    Some(b) => {
                        if l > b {
                            best = Some(l);
                        }
                    },
                }
            }
            i = i + 1;
        }
        proof {
            assert(rm.take(rm.len() as int) =~= rm);
        }
        best
    }
}

/// -1-for-none length arithmetic.
pub open spec fn opt_len(o: Option<usize>) -> int {
    match o {
        None => -1,
        Some(l) => l as int,
    }
}

impl RobotsPolicy {
    /// Evaluate this policy for a user-agent and a path.
    #[verifier::loop_isolation(false)]
    pub fn allowed(&self, user_agent: &str, path: &str) -> (r: bool)
        ensures
            r == policy_allows(self@, user_agent@, path@),
    {
        let ua = lower_chars_of(user_agent);
        let pv = chars_of(path);
        let ghost gs = self@;

        // Longest applying agent token over all groups.
        let mut agent_best: Option<usize> = None;
        let mut i: usize = 0;
        while i < self.groups.len()
            invariant
                i <= self.groups@.len(),
                opt_len(agent_best) == policy_agent_best(gs.take(i as int), ua@),
            decreases self.groups@.len() - i,
        {
            proof {
                assert(gs.take(i + 1).drop_last() =~= gs.take(i as int));
                assert(gs.take(i + 1).last() == gs[i as int]);
                assert(gs[i as int] == self.groups@[i as int]@);
            }
            let b = self.groups[i].agent_best(&ua);
            match b {
                None => {},
                Some(l) => {
                    match agent_best {
                        None => {
                            agent_best = Some(l);
                        },
                        Some(ab) => {
                            if l > ab {
                                agent_best = Some(l);
                            }
                        },
                    }
                },
            }
            i = i + 1;
        }
        proof {
            assert(gs.take(gs.len() as int) =~= gs);
        }

        // Best allow and disallow pattern lengths over the selected groups.
        let mut best_allow: Option<usize> = None;
        let mut best_deny: Option<usize> = None;
        let mut j: usize = 0;
        while j < self.groups.len()
            invariant
                j <= self.groups@.len(),
                opt_len(best_allow) == policy_best(gs, j as int, ua@, pv@, true),
                opt_len(best_deny) == policy_best(gs, j as int, ua@, pv@, false),
            decreases self.groups@.len() - j,
        {
            proof {
                assert(gs[j as int] == self.groups@[j as int]@);
            }
            let g = &self.groups[j];
            let selected: bool;
            match agent_best {
                Some(ab) => {
                    let gb = g.agent_best(&ua);
                    selected = match gb {
                        Some(l) => l == ab,
                        None => false,
                    };
                },
                None => {
                    selected = g.has_star();
                },
            }
            assert(selected == group_selected(gs, gs[j as int], ua@));
            if selected {
                let ba = g.rules_best_len(&pv, true);
                let bd = g.rules_best_len(&pv, false);
                match ba {
                    None => {},
                    Some(l) => {
                        match best_allow {
                            None => {
                                best_allow = Some(l);
                            },
                            Some(b) => {
                                if l > b {
                                    best_allow = Some(l);
                                }
                            },
                        }
                    },
                }
                match bd {
                    None => {},
                    Some(l) => {
                        match best_deny {
                            None => {
                                best_deny = Some(l);
                            },
                            Some(b) => {
                                if l > b {
                                    best_deny = Some(l);
                                }
                            },
                        }
                    },
                }
            }
            j = j + 1;
        }
        match (best_allow, best_deny) {
            (_, None) => true,
            (None, Some(_)) => false,
            (Some(a), Some(d)) => a >= d,
        }
    }
}

// ---------------------------------------------------------------------------
// The per-origin cache
// ---------------------------------------------------------------------------
/// What the cache remembers about one origin: a parsed policy, or the mark
/// that robots.txt yielded nothing enforceable (fetch failure of any kind).
pub enum RobotsEntry {
    Parsed(RobotsPolicy),
    Absent,
}

/// Mathematical form of a cache entry.
pub ghost enum EntryModel {
    Parsed(Seq<GroupModel>),
    Absent,
}

impl View for RobotsEntry {
    type V = EntryModel;

    open spec fn view(&self) -> EntryModel {
        match self {
            RobotsEntry::Parsed(p) => EntryModel::Parsed(p@),
            RobotsEntry::Absent => EntryModel::Absent,
        }
    }
}

/// The verdict a cache entry gives: a parsed policy is evaluated, an absent
/// one allows everything.
pub open spec fn entry_allows(e: EntryModel, ua: Seq<char>, path: Seq<char>) -> bool {
    match e {
        EntryModel::Absent => true,
        EntryModel::Parsed(gs) => policy_allows(gs, ua, path),
    }
}

/// The entry one robots.txt retrieval leaves behind: a parse of the body on
/// success, and the allow-all mark on any failure.
pub open spec fn fetched_entry(resp: Option<Seq<char>>) -> EntryModel {
    match resp {
        None => EntryModel::Absent,
        Some(body) => EntryModel::Parsed(parse_policy(body)),
    }
}

/// A failed robots.txt retrieval denies nothing: the entry stored after any
/// failure allows every path for every user-agent.
pub proof fn lemma_fetch_failure_allows(ua: Seq<char>, path: Seq<char>)
    ensures
        entry_allows(fetched_entry(None), ua, path),
{
}

/// The robots.txt URL of an origin.
pub open spec fn robots_url(o: Seq<char>) -> Seq<char> {
    o + "/robots.txt"@
}

/// First-match lookup among cache entries.
pub open spec fn cache_lookup(es: Seq<(String, RobotsEntry)>, o: Seq<char>) -> Option<EntryModel>
    decreases es.len(),
{
    if es.len() == 0 {
        None
    } else if es[0].0@ == o {
        Some(es[0].1@)
    } else {
        cache_lookup(es.drop_first(), o)
    }
}

proof fn lemma_cache_lookup_push(es: Seq<(String, RobotsEntry)>, p: (String, RobotsEntry), o: Seq<char>)
    ensures
        cache_lookup(es.push(p), o) == if cache_lookup(es, o) is Some {
            cache_lookup(es, o)
        } else if p.0@ == o {
            Some(p.1@)
        } else {
            None
        },
    decreases es.len(),
{
    if es.len() == 0 {
        let e = es.push(p);
        assert(e[0] == p);
        assert(e.drop_first() =~= Seq::<(String, RobotsEntry)>::empty());
        assert(cache_lookup(e.drop_first(), o) is None);
    } else {
        assert(es.push(p).drop_first() =~= es.drop_first().push(p));
        lemma_cache_lookup_push(es.drop_first(), p, o);
    }
}

proof fn lemma_cache_lookup_none(es: Seq<(String, RobotsEntry)>, o: Seq<char>)
    requires
        cache_lookup(es, o) is None,
    ensures
        forall|k: int| 0 <= k < es.len() ==> (#[trigger] es[k].0)@ != o,
    decreases es.len(),
{
    if es.len() > 0 {
        lemma_cache_lookup_none(es.drop_first(), o);
        assert forall|k: int| 0 <= k < es.len() implies (#[trigger] es[k].0)@ != o by {
            if k > 0 {
                assert(es.drop_first()[k - 1] == es[k]);
            }
        }
    }
}

/// Per-origin, fetch-once cache of robots policies.  `robots.txt` is
/// retrieved the first time an origin is asked about and never again.
pub struct RobotsCache {
    entries: Vec<(String, RobotsEntry)>,
}

impl RobotsCache {
    /// The entry cached for an origin.
    pub closed spec fn entry_for(&self, o: Seq<char>) -> Option<EntryModel> {
        cache_lookup(self.entries@, o)
    }

    /// How many origins are cached.
    pub closed spec fn num_origins(&self) -> nat {
        self.entries@.len()
    }

    /// Each origin holds at most one entry.
    pub closed spec fn wf(&self) -> bool {
        forall|i: int, j: int|
            0 <= i < j < self.entries@.len() ==> (#[trigger] self.entries@[i].0)@ != (
            #[trigger] self.entries@[j].0)@
    }

    /// An empty cache.
    pub fn new() -> (c: Self)
        ensures
            c.wf(),
            c.num_origins() == 0,
            forall|o: Seq<char>| #[trigger] c.entry_for(o) is None,
    {
        RobotsCache { entries: Vec::new() }
    }

    /// How many origins are cached.
    pub fn len(&self) -> (n: usize)
        ensures
            n == self.num_origins(),
    {
        self.entries.len()
    }

    /// Find the cached entry for `o`, if any.
    fn find_entry(&self, o: &str) -> (r: Option<usize>)
        ensures
            match r {
                Some(k) => k < self.entries@.len() && self.entries@[k as int].0@ == o@
                    && self.entry_for(o@) == Some(self.entries@[k as int].1@),
                None => self.entry_for(o@) is None,
            },
    {
        let ghost es = self.entries@;
        proof {
            assert(es.skip(0) =~= es);
        }
        let mut i: usize = 0;
        while i < self.entries.len()
            invariant
                es == self.entries@,
                i <= es.len(),
                cache_lookup(es, o@) == cache_lookup(es.skip(i as int), o@),
            decreases es.len() - i,
        {
            proof {
                assert(es.skip(i as int)[0] == es[i as int]);
                assert(es.skip(i as int).drop_first() =~= es.skip(i + 1));
            }
            if str_eq(self.entries[i].0.as_str(), o) {
                return Some(i);
            }
            i = i + 1;
        }
        proof {
            assert(es.skip(es.len() as int) =~= Seq::<(String, RobotsEntry)>::empty());
        }
        None
    }

    /// Decide whether `url` may be fetched under its origin's robots policy,
    /// for this library's fixed user-agent.
    ///
    /// A URL without a recognizable origin is allowed outright, with no HTTP
    /// request.  Otherwise the origin's robots.txt is retrieved on first
    /// touch, exactly once — a cached origin causes no request at all — and
    /// any retrieval failure stores the allow-all entry, so the decision
    /// never fails.
    #[verifier::loop_isolation(false)]
    pub fn is_allowed<C: HttpClient>(&mut self, client: &mut C, url: &str) -> (allowed: bool)
        requires
            old(self).wf(),
        ensures
            final(self).wf(),
            forall|u: Seq<char>| #[trigger]
                final(client).response_to(u) == old(client).response_to(u),
            match origin_of(url@) {
                None => {
                    &&& allowed == true
                    &&& final(self).num_origins() == old(self).num_origins()
                    &&& forall|q: Seq<char>| #[trigger]
                        final(self).entry_for(q) == old(self).entry_for(q)
                    &&& final(client).gets() == old(client).gets()
                },
                Some(o) => match old(self).entry_for(o) {
                    Some(e) => {
                        &&& allowed == entry_allows(e, user_agent_model(), path_of(url@))
                        &&& final(self).num_origins() == old(self).num_origins()
                        &&& forall|q: Seq<char>| #[trigger]
                            final(self).entry_for(q) == old(self).entry_for(q)
                        &&& final(client).gets() == old(client).gets()
                    },
                    None => {
                        let e = fetched_entry(old(client).response_to(robots_url(o)));
                        &&& allowed == entry_allows(e, user_agent_model(), path_of(url@))
                        &&& final(self).entry_for(o) == Some(e)
                        &&& forall|q: Seq<char>|
                            q != o ==> #[trigger] final(self).entry_for(q) == old(
                                self,
                            ).entry_for(q)
                        &&& final(self).num_origins() == old(self).num_origins() + 1
                        &&& final(client).gets() == old(client).gets().push(robots_url(o))
                    },
                },
            },
    {
        let origin = match extract_origin(url) {
            None => {
                return true;
            },
            Some(o) => o,
        };
        let path = extract_path(url);
        match self.find_entry(origin.as_str()) {
            Some(k) => {
                let e = &self.entries[k].1;
                entry_eval(e, path.as_str())
            },
            None => {
                let rurl = origin.clone().concat("/robots.txt");
                let resp = client.get(rurl.as_str());
                let entry: RobotsEntry = match resp {
                    Ok(body) => RobotsEntry::Parsed(parse_robots(body.as_str())),
                    Err(_) => RobotsEntry::Absent,
                };
                let allowed = entry_eval(&entry, path.as_str());
                let ghost es0 = self.entries@;
                let ghost o_seq = origin@;
                self.entries.push((origin, entry));
                proof {
                    let p = (self.entries@.last().0, self.entries@.last().1);
                    assert(es0.push(self.entries@.last()) =~= self.entries@);
                    lemma_cache_lookup_none(es0, o_seq);
                    assert forall|q: Seq<char>| true implies #[trigger] cache_lookup(
                        self.entries@,
                        q,
                    ) == (if q == o_seq {
                        Some(self.entries@.last().1@)
                    } else {
                        cache_lookup(es0, q)
                    }) by {
                        lemma_cache_lookup_push(es0, self.entries@.last(), q);
                        if q == o_seq {
                            assert(cache_lookup(es0, q) is None);
                        }
                    }
                }
                allowed
            },
        }
    }
}

/// Evaluate one cache entry for this library's user-agent and a path.
fn entry_eval(e: &RobotsEntry, path: &str) -> (r: bool)
    ensures
        r == entry_allows(e@, user_agent_model(), path@),
{
    match e {
        RobotsEntry::Absent => true,
        RobotsEntry::Parsed(p) => p.allowed(user_agent(), path),
    }
}

} // verus!
