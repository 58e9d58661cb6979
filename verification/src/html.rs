//! HTML extraction: the textual content of the first `<title>` element, and
//! the inner text of every `<p>` element in document order, joined by a blank
//! line.  Tags inside a paragraph are stripped, so nested elements contribute
//! their text; a new `<p>` closes the one before it.

use vstd::prelude::*;

use crate::text::{chars_eq, chars_of, is_alpha, is_digit, lower, string_of, to_lower};

verus! {

// ---------------------------------------------------------------------------
// Tags
// ---------------------------------------------------------------------------
/// Position of the first `>` at or after `i`, or `s.len()`.
pub open spec fn gt_from(s: Seq<char>, i: int) -> int
    decreases s.len() - i,
{
    if i < 0 || i >= s.len() {
        s.len() as int
    } else if s[i] == '>' {
        i
    } else {
        gt_from(s, i + 1)
    }
}

proof fn lemma_gt_from_bounds(s: Seq<char>, i: int)
    requires
        0 <= i <= s.len(),
    ensures
        i <= gt_from(s, i) <= s.len(),
        forall|k: int| i <= k < gt_from(s, i) ==> s[k] != '>',
        gt_from(s, i) < s.len() ==> s[gt_from(s, i)] == '>',
    decreases s.len() - i,
{
    if i < s.len() && s[i] != '>' {
        lemma_gt_from_bounds(s, i + 1);
    }
}

/// A character that may stand in a tag name.
pub open spec fn is_name_char(c: char) -> bool {
    is_alpha(c) || is_digit(c)
}

/// Position of the first character at or after `j` that cannot stand in a
/// tag name, or `inner.len()`.
pub open spec fn name_end_from(inner: Seq<char>, j: int) -> int
    decreases inner.len() - j,
{
    if j < 0 || j >= inner.len() {
        inner.len() as int
    } else if !is_name_char(inner[j]) {
        j
    } else {
        name_end_from(inner, j + 1)
    }
}

proof fn lemma_name_end_bounds(inner: Seq<char>, j: int)
    requires
        0 <= j <= inner.len(),
    ensures
        j <= name_end_from(inner, j) <= inner.len(),
        forall|k: int| j <= k < name_end_from(inner, j) ==> is_name_char(#[trigger] inner[k]),
        name_end_from(inner, j) < inner.len() ==> !is_name_char(inner[name_end_from(inner, j)]),
    decreases inner.len() - j,
{
    if j < inner.len() && is_name_char(inner[j]) {
        lemma_name_end_bounds(inner, j + 1);
    }
}

/// Is the tag with this inner text a closing tag?
pub open spec fn is_close_tag(inner: Seq<char>) -> bool {
    inner.len() > 0 && inner[0] == '/'
}

/// The (case-folded) name of the tag with this inner text.
pub open spec fn tag_name_of(inner: Seq<char>) -> Seq<char> {
    let b: int = if is_close_tag(inner) {
        1
    } else {
        0
    };
    lower(inner.subrange(b, name_end_from(inner, b)))
}

// ---------------------------------------------------------------------------
// Scanning
// ---------------------------------------------------------------------------
/// Position just after the first opening tag named `name` at or after `i`.
pub open spec fn find_open_from(s: Seq<char>, i: int, name: Seq<char>) -> Option<int>
    decreases s.len() - i,
    via find_open_from_dec
{
    if i < 0 || i >= s.len() {
        None
    } else if s[i] == '<' {
        let gt = gt_from(s, i + 1);
        let inner = s.subrange(i + 1, gt);
        let nxt: int = if gt == s.len() {
            s.len() as int
        } else {
            gt + 1
        };
        if !is_close_tag(inner) && tag_name_of(inner) == name {
            Some(nxt)
        } else {
            find_open_from(s, nxt, name)
        }
    } else {
        find_open_from(s, i + 1, name)
    }
}

#[via_fn]
proof fn find_open_from_dec(s: Seq<char>, i: int, name: Seq<char>) {
    if 0 <= i < s.len() && s[i] == '<' {
        lemma_gt_from_bounds(s, i + 1);
    }
}

proof fn lemma_find_open_bounds(s: Seq<char>, i: int, name: Seq<char>)
    requires
        0 <= i,
    ensures
        find_open_from(s, i, name) matches Some(j) ==> i < j <= s.len(),
    decreases s.len() - i,
{
    if i < s.len() {
        if s[i] == '<' {
            lemma_gt_from_bounds(s, i + 1);
            let gt = gt_from(s, i + 1);
            let nxt: int = if gt == s.len() {
                s.len() as int
            } else {
                gt + 1
            };
            lemma_find_open_bounds(s, nxt, name);
        } else {
            lemma_find_open_bounds(s, i + 1, name);
        }
    }
}

/// The non-tag characters from `i` up to the first closing tag named `name`
/// (or the end); other tags are skipped.
pub open spec fn text_until_close(s: Seq<char>, i: int, name: Seq<char>) -> Seq<char>
    decreases s.len() - i,
    via text_until_close_dec
{
    if i < 0 || i >= s.len() {
        Seq::empty()
    } else if s[i] == '<' {
        let gt = gt_from(s, i + 1);
        let inner = s.subrange(i + 1, gt);
        let nxt: int = if gt == s.len() {
            s.len() as int
        } else {
            gt + 1
        };
        if is_close_tag(inner) && tag_name_of(inner) == name {
            Seq::empty()
        } else {
            text_until_close(s, nxt, name)
        }
    } else {
        seq![s[i]] + text_until_close(s, i + 1, name)
    }
}

#[via_fn]
proof fn text_until_close_dec(s: Seq<char>, i: int, name: Seq<char>) {
    if 0 <= i < s.len() && s[i] == '<' {
        lemma_gt_from_bounds(s, i + 1);
    }
}

/// The text of the paragraph whose body starts at `i`, and the position at
/// which scanning resumes: after a `</p>`, at a new `<p>` (which closes the
/// paragraph), or at the end.
pub open spec fn para_scan(s: Seq<char>, i: int) -> (Seq<char>, int)
    decreases s.len() - i,
    via para_scan_dec
{
    if i < 0 || i >= s.len() {
        (Seq::empty(), s.len() as int)
    } else if s[i] == '<' {
        let gt = gt_from(s, i + 1);
        let inner = s.subrange(i + 1, gt);
        let nxt: int = if gt == s.len() {
            s.len() as int
        } else {
            gt + 1
        };
        if tag_name_of(inner) == "p"@ {
            if is_close_tag(inner) {
                (Seq::empty(), nxt)
            } else {
                (Seq::empty(), i)
            }
        } else {
            para_scan(s, nxt)
        }
    } else {
        let r = para_scan(s, i + 1);
        (seq![s[i]] + r.0, r.1)
    }
}

#[via_fn]
proof fn para_scan_dec(s: Seq<char>, i: int) {
    if 0 <= i < s.len() && s[i] == '<' {
        lemma_gt_from_bounds(s, i + 1);
    }
}

proof fn lemma_para_scan_bounds(s: Seq<char>, i: int)
    requires
        0 <= i <= s.len(),
    ensures
        i <= para_scan(s, i).1 <= s.len(),
    decreases s.len() - i,
{
    if i < s.len() {
        if s[i] == '<' {
            lemma_gt_from_bounds(s, i + 1);
            let gt = gt_from(s, i + 1);
            let inner = s.subrange(i + 1, gt);
            let nxt: int = if gt == s.len() {
                s.len() as int
            } else {
                gt + 1
            };
            if !(tag_name_of(inner) == "p"@) {
                lemma_para_scan_bounds(s, nxt);
            }
        } else {
            lemma_para_scan_bounds(s, i + 1);
        }
    }
}

/// The texts of the paragraphs opened at or after `i`, in document order.
pub open spec fn paras_from(s: Seq<char>, i: int) -> Seq<Seq<char>>
    decreases s.len() - i,
    via paras_from_dec
{
    if i < 0 {
        Seq::empty()
    } else {
        match find_open_from(s, i, "p"@) {
            None => Seq::empty(),
            Some(j) => {
                let r = para_scan(s, j);
                seq![r.0] + paras_from(s, r.1)
            },
        }
    }
}

#[via_fn]
proof fn paras_from_dec(s: Seq<char>, i: int) {
    if 0 <= i {
        lemma_find_open_bounds(s, i, "p"@);
        match find_open_from(s, i, "p"@) {
            Some(j) => {
                lemma_para_scan_bounds(s, j);
            },
            None => {},
        }
    }
}

/// Paragraph texts joined by one blank line.
pub open spec fn join_paras(ps: Seq<Seq<char>>) -> Seq<char>
    decreases ps.len(),
{
    if ps.len() == 0 {
        Seq::empty()
    } else if ps.len() == 1 {
        ps[0]
    } else {
        join_paras(ps.drop_last()) + seq!['\n', '\n'] + ps.last()
    }
}

/// The title a document yields: the text of the first `<title>` element.
pub open spec fn page_title(s: Seq<char>) -> Option<Seq<char>> {
    match find_open_from(s, 0, "title"@) {
        None => None,
        Some(j) => Some(text_until_close(s, j, "title"@)),
    }
}

/// The body text a document yields: its paragraph texts joined by blank lines.
pub open spec fn page_text(s: Seq<char>) -> Seq<char> {
    join_paras(paras_from(s, 0))
}

// ---------------------------------------------------------------------------
// The round trip on simply structured pages
// ---------------------------------------------------------------------------
/// Markup-free text: it holds no tag start.
pub open spec fn plain_text(s: Seq<char>) -> bool {
    forall|k: int| 0 <= k < s.len() ==> s[k] != '<'
}

pub open spec fn title_open_tag() -> Seq<char> {
    seq!['<', 't', 'i', 't', 'l', 'e', '>']
}

pub open spec fn title_close_tag() -> Seq<char> {
    seq!['<', '/', 't', 'i', 't', 'l', 'e', '>']
}

pub open spec fn p_open_tag() -> Seq<char> {
    seq!['<', 'p', '>']
}

pub open spec fn p_close_tag() -> Seq<char> {
    seq!['<', '/', 'p', '>']
}

/// The markup of a list of simple paragraphs.
pub open spec fn paras_html(ps: Seq<Seq<char>>) -> Seq<char>
    decreases ps.len(),
{
    if ps.len() == 0 {
        Seq::empty()
    } else {
        p_open_tag() + ps[0] + p_close_tag() + paras_html(ps.drop_first())
    }
}

/// A page holding exactly one title element followed by simple paragraphs.
pub open spec fn simple_page(t: Seq<char>, ps: Seq<Seq<char>>) -> Seq<char> {
    title_open_tag() + t + title_close_tag() + paras_html(ps)
}

proof fn lemma_gt_exact(s: Seq<char>, i: int, g: int)
    requires
        0 <= i <= g <= s.len(),
        forall|k: int| i <= k < g ==> s[k] != '>',
        g == s.len() || s[g] == '>',
    ensures
        gt_from(s, i) == g,
    decreases g - i,
{
    if i < g {
        lemma_gt_exact(s, i + 1, g);
    }
}

/// Scanning for an opening tag passes over markup-free text.
proof fn lemma_find_open_skip_text(s: Seq<char>, i: int, j: int, name: Seq<char>)
    requires
        0 <= i <= j <= s.len(),
        forall|k: int| i <= k < j ==> s[k] != '<',
    ensures
        find_open_from(s, i, name) == find_open_from(s, j, name),
    decreases j - i,
{
    if i < j {
        lemma_find_open_skip_text(s, i + 1, j, name);
    }
}

/// Collecting text passes markup-free characters through unchanged.
proof fn lemma_text_skip_text(s: Seq<char>, i: int, j: int, name: Seq<char>)
    requires
        0 <= i <= j <= s.len(),
        forall|k: int| i <= k < j ==> s[k] != '<',
    ensures
        text_until_close(s, i, name) == s.subrange(i, j) + text_until_close(s, j, name),
    decreases j - i,
{
    if i == j {
        assert(s.subrange(i, j) =~= Seq::<char>::empty());
        assert(s.subrange(i, j) + text_until_close(s, j, name) =~= text_until_close(s, j, name));
    } else {
        lemma_text_skip_text(s, i + 1, j, name);
        assert(seq![s[i]] + (s.subrange(i + 1, j) + text_until_close(s, j, name)) =~= s.subrange(
            i,
            j,
        ) + text_until_close(s, j, name));
    }
}

/// Collecting a paragraph passes markup-free characters through unchanged.
proof fn lemma_para_skip_text(s: Seq<char>, i: int, j: int)
    requires
        0 <= i <= j <= s.len(),
        forall|k: int| i <= k < j ==> s[k] != '<',
    ensures
        para_scan(s, i).0 == s.subrange(i, j) + para_scan(s, j).0,
        para_scan(s, i).1 == para_scan(s, j).1,
    decreases j - i,
{
    if i == j {
        assert(s.subrange(i, j) =~= Seq::<char>::empty());
        assert(s.subrange(i, j) + para_scan(s, j).0 =~= para_scan(s, j).0);
    } else {
        lemma_para_skip_text(s, i + 1, j);
        assert(seq![s[i]] + (s.subrange(i + 1, j) + para_scan(s, j).0) =~= s.subrange(i, j)
            + para_scan(s, j).0);
    }
}

/// The paragraph scan depends on the start position only through the first
/// opening `p` tag found.
proof fn lemma_paras_from_same_find(s: Seq<char>, i: int, j: int)
    requires
        0 <= i,
        0 <= j,
        find_open_from(s, i, "p"@) == find_open_from(s, j, "p"@),
    ensures
        paras_from(s, i) == paras_from(s, j),
{
}

/// The names of the four tags a simple page is built from.
proof fn lemma_simple_tag_names()
    ensures
        tag_name_of(seq!['t', 'i', 't', 'l', 'e']) == "title"@,
        tag_name_of(seq!['/', 't', 'i', 't', 'l', 'e']) == "title"@,
        is_close_tag(seq!['/', 't', 'i', 't', 'l', 'e']),
        !is_close_tag(seq!['t', 'i', 't', 'l', 'e']),
        tag_name_of(seq!['p']) == "p"@,
        tag_name_of(seq!['/', 'p']) == "p"@,
        is_close_tag(seq!['/', 'p']),
        !is_close_tag(seq!['p']),
        "title"@ != "p"@,
{
    reveal_strlit("title");
    reveal_strlit("p");
    let ti = seq!['t', 'i', 't', 'l', 'e'];
    let tic = seq!['/', 't', 'i', 't', 'l', 'e'];
    let pp = seq!['p'];
    let ppc = seq!['/', 'p'];
    assert forall|k: int| 0 <= k < 5 implies is_name_char(#[trigger] ti[k]) by {}
    lemma_name_end_exact(ti, 0, 5);
    assert forall|k: int| 1 <= k < 6 implies is_name_char(#[trigger] tic[k]) by {}
    lemma_name_end_exact(tic, 1, 6);
    lemma_name_end_exact(pp, 0, 1);
    lemma_name_end_exact(ppc, 1, 2);
    assert(lower(ti.subrange(0, 5)) =~= "title"@);
    assert(tic.subrange(1, 6) =~= ti);
    assert(lower(tic.subrange(1, 6)) =~= "title"@);
    assert(lower(pp.subrange(0, 1)) =~= "p"@);
    assert(ppc.subrange(1, 2) =~= pp);
    assert(lower(ppc.subrange(1, 2)) =~= "p"@);
}

/// When the rest of the document is exactly the markup of simple
/// paragraphs, the scan recovers exactly their texts.
proof fn lemma_paras_exact(s: Seq<char>, i: int, ps: Seq<Seq<char>>)
    requires
        0 <= i <= s.len(),
        s.subrange(i, s.len() as int) == paras_html(ps),
        forall|k: int| 0 <= k < ps.len() ==> plain_text(#[trigger] ps[k]),
    ensures
        paras_from(s, i) == ps,
    decreases ps.len(),
{
    lemma_simple_tag_names();
    let rest = s.subrange(i, s.len() as int);
    if ps.len() == 0 {
        assert(i == s.len());
        assert(paras_from(s, i) =~= ps);
    } else {
        let p0 = ps[0];
        assert(plain_text(p0));
        let body = i + 3;
        let close = body + p0.len();
        let nxt = close + 4;
        assert forall|k: int| i <= k < s.len() implies s[k] == rest[k - i] by {}
        assert(rest == p_open_tag() + p0 + p_close_tag() + paras_html(ps.drop_first()));
        assert(s[i] == '<' && s[i + 1] == 'p' && s[i + 2] == '>');
        assert(forall|k: int| body <= k < close ==> s[k] == p0[k - body]);
        assert(forall|k: int| body <= k < close ==> s[k] != '<');
        assert(s[close] == '<' && s[close + 1] == '/' && s[close + 2] == 'p' && s[close + 3]
            == '>');
        // The opening tag.
        lemma_gt_exact(s, i + 1, i + 2);
        assert(s.subrange(i + 1, i + 2) =~= seq!['p']);
        assert(find_open_from(s, i, "p"@) == Some(body));
        // The paragraph body, up to its closing tag.
        lemma_gt_exact(s, close + 1, close + 3);
        assert(s.subrange(close + 1, close + 3) =~= seq!['/', 'p']);
        assert(para_scan(s, close) == (Seq::<char>::empty(), nxt));
        lemma_para_skip_text(s, body, close);
        assert(s.subrange(body, close) =~= p0);
        assert(para_scan(s, body).0 =~= p0);
        assert(para_scan(s, body).1 == nxt);
        // The remaining paragraphs.
        assert(s.subrange(nxt, s.len() as int) =~= paras_html(ps.drop_first()));
        assert forall|k: int| 0 <= k < ps.drop_first().len() implies plain_text(
            #[trigger] ps.drop_first()[k],
        ) by {
            assert(ps.drop_first()[k] == ps[k + 1]);
        }
        lemma_paras_exact(s, nxt, ps.drop_first());
        assert(paras_from(s, i) =~= seq![p0] + ps.drop_first());
        assert(seq![p0] + ps.drop_first() =~= ps);
    }
}

/// The round trip on simply structured pages: a page holding exactly one
/// `<title>` element with markup-free text `t`, followed by `<p>` paragraphs
/// whose texts are markup-free, parses back to title `t` and to the
/// paragraph texts joined by blank lines.
pub proof fn lemma_simple_page_round_trip(t: Seq<char>, ps: Seq<Seq<char>>)
    requires
        plain_text(t),
        forall|k: int| 0 <= k < ps.len() ==> plain_text(#[trigger] ps[k]),
    ensures
        page_title(simple_page(t, ps)) == Some(t),
        page_text(simple_page(t, ps)) == join_paras(ps),
{
    lemma_simple_tag_names();
    reveal_strlit("title");
    reveal_strlit("p");
    let v = simple_page(t, ps);
    let tlen = t.len() as int;
    let base = 15 + tlen;
    let ph = paras_html(ps);
    assert(v.len() == base + ph.len());
    assert(v[0] == '<' && v[1] == 't' && v[2] == 'i' && v[3] == 't' && v[4] == 'l' && v[5] == 'e'
        && v[6] == '>');
    assert(forall|k: int| 7 <= k < 7 + tlen ==> v[k] == t[k - 7]);
    assert(forall|k: int| 7 <= k < 7 + tlen ==> v[k] != '<');
    assert(v[7 + tlen] == '<' && v[8 + tlen] == '/' && v[9 + tlen] == 't' && v[10 + tlen] == 'i'
        && v[11 + tlen] == 't' && v[12 + tlen] == 'l' && v[13 + tlen] == 'e' && v[14 + tlen]
        == '>');
    // The opening title tag.
    lemma_gt_exact(v, 1, 6);
    assert(v.subrange(1, 6) =~= seq!['t', 'i', 't', 'l', 'e']);
    assert(find_open_from(v, 0, "title"@) == Some(7int));
    // The title text runs to the closing title tag.
    lemma_gt_exact(v, 8 + tlen, 14 + tlen);
    assert(v.subrange(8 + tlen, 14 + tlen) =~= seq!['/', 't', 'i', 't', 'l', 'e']);
    assert(text_until_close(v, 7 + tlen, "title"@) == Seq::<char>::empty());
    lemma_text_skip_text(v, 7, 7 + tlen, "title"@);
    assert(v.subrange(7, 7 + tlen) =~= t);
    assert(text_until_close(v, 7, "title"@) =~= t);
    assert(page_title(v) == Some(t));
    // Paragraph scanning skips the title element entirely.
    assert(find_open_from(v, 0, "p"@) == find_open_from(v, 7, "p"@));
    lemma_find_open_skip_text(v, 7, 7 + tlen, "p"@);
    assert(find_open_from(v, 7 + tlen, "p"@) == find_open_from(v, base, "p"@));
    lemma_paras_from_same_find(v, 0, base);
    assert(v.subrange(base, v.len() as int) =~= ph);
    lemma_paras_exact(v, base, ps);
    assert(page_text(v) == join_paras(ps));
}

// ---------------------------------------------------------------------------
// The page record and the executable extractor
// ---------------------------------------------------------------------------
/// Parsed content of a web page: the URL it was fetched from, echoed
/// unchanged; the first title, if any; and the paragraph text.
#[derive(Debug, Clone)]
pub struct PageContent {
    pub url: String,
    pub title: Option<String>,
    pub text: String,
}

fn char_is_name(c: char) -> (r: bool)
    ensures
        r == is_name_char(c),
{
    ('a' <= c && c <= 'z') || ('A' <= c && c <= 'Z') || ('0' <= c && c <= '9')
}

/// Identify a tag's name and kind.  Given the bounds of the tag's inner text
/// `cs[lo..hi]`, answers its case-folded name and whether it closes.
fn tag_name_range(cs: &Vec<char>, lo: usize, hi: usize) -> (r: (Vec<char>, bool))
    requires
        lo <= hi <= cs@.len(),
    ensures
        r.0@ == tag_name_of(cs@.subrange(lo as int, hi as int)),
        r.1 == is_close_tag(cs@.subrange(lo as int, hi as int)),
{
    let ghost inner = cs@.subrange(lo as int, hi as int);
    let closing = lo < hi && cs[lo] == '/';
    let b = if closing {
        lo + 1
    } else {
        lo
    };
    let mut e: usize = b;
    while e < hi && char_is_name(cs[e])
        invariant
            b <= e <= hi <= cs@.len(),
            forall|k: int| b <= k < e ==> is_name_char(#[trigger] cs@[k]),
        decreases hi - e,
    {
        e = e + 1;
    }
    proof {
        assert forall|k: int| b - lo <= k < e - lo implies is_name_char(#[trigger] inner[k]) by {
            assert(inner[k] == cs@[lo + k]);
        }
        if e < hi {
            assert(inner[e - lo] == cs@[e as int]);
        }
        lemma_name_end_bounds(inner, b - lo);
        lemma_name_end_exact(inner, b - lo, e - lo);
    }
    let mut name: Vec<char> = Vec::new();
    let mut k: usize = b;
    while k < e
        invariant
            b <= k <= e <= cs@.len(),
            name@ == lower(cs@.subrange(b as int, e as int)).take(k - b),
        decreases e - k,
    {
        name.push(to_lower(cs[k]));
        proof {
            assert(cs@.subrange(b as int, e as int)[k - b] == cs@[k as int]);
            assert(name@ =~= lower(cs@.subrange(b as int, e as int)).take(k + 1 - b));
        }
        k = k + 1;
    }
    proof {
        let t = lower(cs@.subrange(b as int, e as int));
        assert(t.take(t.len() as int) =~= t);
        assert(inner.subrange(b - lo, e - lo) =~= cs@.subrange(b as int, e as int));
    }
    (name, closing)
}

proof fn lemma_name_end_exact(inner: Seq<char>, j: int, e: int)
    requires
        0 <= j <= e <= inner.len(),
        forall|k: int| j <= k < e ==> is_name_char(#[trigger] inner[k]),
        e == inner.len() || !is_name_char(inner[e]),
    ensures
        name_end_from(inner, j) == e,
    decreases e - j,
{
    if j < e {
        lemma_name_end_exact(inner, j + 1, e);
    }
}

/// Find the first `>` at or after `i`.
fn scan_gt(cs: &Vec<char>, i: usize) -> (r: usize)
    requires
        i <= cs@.len(),
    ensures
        r as int == gt_from(cs@, i as int),
        i <= r <= cs@.len(),
{
    let n = cs.len();
    let mut k: usize = i;
    while k < n
        invariant
            i <= k <= n,
            n == cs@.len(),
            gt_from(cs@, i as int) == gt_from(cs@, k as int),
        decreases n - k,
    {
        if cs[k] == '>' {
            return k;
        }
        k = k + 1;
    }
    n
}

/// Find the position just after the first opening tag named `name`.
#[verifier::loop_isolation(false)]
fn find_open(cs: &Vec<char>, from: usize, name: &Vec<char>) -> (r: Option<usize>)
    requires
        from <= cs@.len(),
    ensures
        match r {
            Some(j) => find_open_from(cs@, from as int, name@) == Some(j as int) && from < j
                <= cs@.len(),
            None => find_open_from(cs@, from as int, name@) is None,
        },
{
    let n = cs.len();
    let mut i: usize = from;
    while i < n
        invariant
            from <= i <= n,
            find_open_from(cs@, from as int, name@) == find_open_from(cs@, i as int, name@),
        decreases n - i,
    {
        if cs[i] == '<' {
            let gt = scan_gt(cs, i + 1);
            let (tname, closing) = tag_name_range(cs, i + 1, gt);
            let nxt = if gt == n {
                n
            } else {
                gt + 1
            };
            if !closing && chars_eq(&tname, name) {
                return Some(nxt);
            }
            i = nxt;
        } else {
            i = i + 1;
        }
    }
    None
}


/// Collect the text from `from` up to the first closing tag named `name`.
#[verifier::loop_isolation(false)]
fn collect_until_close(cs: &Vec<char>, from: usize, name: &Vec<char>) -> (out: Vec<char>)
    requires
        from <= cs@.len(),
    ensures
        out@ == text_until_close(cs@, from as int, name@),
{
    let n = cs.len();
    let mut out: Vec<char> = Vec::new();
    let mut i: usize = from;
    while i < n
        invariant
            from <= i <= n,
            text_until_close(cs@, from as int, name@) == out@ + text_until_close(
                cs@,
                i as int,
                name@,
            ),
        decreases n - i,
    {
        if cs[i] == '<' {
            let gt = scan_gt(cs, i + 1);
            let (tname, closing) = tag_name_range(cs, i + 1, gt);
            let nxt = if gt == n {
                n
            } else {
                gt + 1
            };
            if closing && chars_eq(&tname, name) {
                proof {
                    assert(text_until_close(cs@, i as int, name@) =~= Seq::<char>::empty());
                    assert(out@ =~= out@ + Seq::<char>::empty());
                }
                return out;
            }
            i = nxt;
        } else {
            let ghost prev = out@;
            out.push(cs[i]);
            proof {
                assert(prev + (seq![cs@[i as int]] + text_until_close(cs@, i + 1, name@)) =~= out@
                    + text_until_close(cs@, i + 1, name@));
            }
            i = i + 1;
        }
    }
    proof {
        assert(text_until_close(cs@, n as int, name@) =~= Seq::<char>::empty());
        assert(out@ =~= out@ + Seq::<char>::empty());
    }
    out
}

/// Collect one paragraph's text; answer it with the resume position.
#[verifier::loop_isolation(false)]
fn collect_para(cs: &Vec<char>, from: usize) -> (r: (Vec<char>, usize))
    requires
        from <= cs@.len(),
    ensures
        r.0@ == para_scan(cs@, from as int).0,
        r.1 as int == para_scan(cs@, from as int).1,
        from <= r.1 <= cs@.len(),
{
    let n = cs.len();
    let mut out: Vec<char> = Vec::new();
    let mut i: usize = from;
    while i < n
        invariant
            from <= i <= n,
            para_scan(cs@, from as int).0 == out@ + para_scan(cs@, i as int).0,
            para_scan(cs@, from as int).1 == para_scan(cs@, i as int).1,
        decreases n - i,
    {
        if cs[i] == '<' {
            let gt = scan_gt(cs, i + 1);
            let (tname, closing) = tag_name_range(cs, i + 1, gt);
            let nxt = if gt == n {
                n
            } else {
                gt + 1
            };
            let p_name = tname.len() == 1 && tname[0] == 'p';
            proof {
                if p_name {
                    assert(tname@ =~= "p"@) by {
                        reveal_strlit("p");
                    }
                } else {
                    assert(tname@ != "p"@) by {
                        reveal_strlit("p");
                        if tname@ == "p"@ {
                            assert(tname@.len() == 1 && tname@[0] == 'p');
                        }
                    }
                }
            }
            if p_name {
                let stop = if closing {
                    nxt
                } else {
                    i
                };
                proof {
                    assert(para_scan(cs@, i as int).0 =~= Seq::<char>::empty());
                    assert(out@ =~= out@ + Seq::<char>::empty());
                }
                return (out, stop);
            }
            i = nxt;
        } else {
            let ghost prev = out@;
            out.push(cs[i]);
            proof {
                assert(prev + (seq![cs@[i as int]] + para_scan(cs@, i + 1).0) =~= out@ + para_scan(
                    cs@,
                    i + 1,
                ).0);
            }
            i = i + 1;
        }
    }
    proof {
        assert(para_scan(cs@, n as int).0 =~= Seq::<char>::empty());
        assert(out@ =~= out@ + Seq::<char>::empty());
    }
    (out, n)
}

/// Parse an HTML document into its page content: the URL echoed unchanged,
/// the text of the first `<title>` element, and the inner text of every
/// `<p>` element in document order joined by blank lines.  Extraction is a
/// pure function of its two arguments and never fails.
#[verifier::loop_isolation(false)]
pub fn parse_html(url: &str, html: &str) -> (pc: PageContent)
    ensures
        pc.url@ == url@,
        match pc.title {
            Some(t) => page_title(html@) == Some(t@),
            None => page_title(html@) is None,
        },
        pc.text@ == page_text(html@),
{
    let cs = chars_of(html);
    let title_name = chars_of("title");
    let title = match find_open(&cs, 0, &title_name) {
        None => None,
        Some(j) => {
            let t = collect_until_close(&cs, j, &title_name);
            Some(string_of(&t))
        },
    };
    let p_name = chars_of("p");
    let mut text: Vec<char> = Vec::new();
    let ghost all = paras_from(cs@, 0);
    let mut count: usize = 0;
    let mut i: usize = 0;
    let mut finished = false;
    let ghost mut done_ps: Seq<Seq<char>> = Seq::empty();
    proof {
        assert(done_ps + paras_from(cs@, 0) =~= paras_from(cs@, 0));
    }
    while !finished
        invariant
            i <= cs@.len(),
            count <= i,
            count == done_ps.len(),
            text@ == join_paras(done_ps),
            finished ==> all == done_ps,
            !finished ==> all == done_ps + paras_from(cs@, i as int),
        decreases cs@.len() - i + (if finished { 0int } else { 1int }),
    {
        match find_open(&cs, i, &p_name) {
            None => {
                proof {
                    assert(paras_from(cs@, i as int) =~= Seq::<Seq<char>>::empty());
                    assert(done_ps + Seq::<Seq<char>>::empty() =~= done_ps);
                }
                finished = true;
            },
            Some(j) => {
                let (ptext, resume) = collect_para(&cs, j);
                if count > 0 {
                    text.push('\n');
                    text.push('\n');
                }
                let mut k: usize = 0;
                while k < ptext.len()
                    invariant
                        k <= ptext@.len(),
                        text@ == if count > 0 {
                            join_paras(done_ps) + seq!['\n', '\n'] + ptext@.take(k as int)
                        } else {
                            ptext@.take(k as int)
                        },
                    decreases ptext@.len() - k,
                {
                    text.push(ptext[k]);
                    proof {
                        assert(ptext@.take(k + 1) =~= ptext@.take(k as int).push(ptext@[k as int]));
                        if count > 0 {
                            assert((join_paras(done_ps) + seq!['\n', '\n'] + ptext@.take(
                                k as int,
                            )).push(ptext@[k as int]) =~= join_paras(done_ps) + seq!['\n', '\n']
                                + ptext@.take(k + 1));
                        }
                    }
                    k = k + 1;
                }
                proof {
                    assert(ptext@.take(ptext@.len() as int) =~= ptext@);
                    let nd = done_ps.push(ptext@);
                    assert(nd.drop_last() =~= done_ps);
                    assert(nd.last() == ptext@);
                    if count == 0 {
                        assert(done_ps =~= Seq::<Seq<char>>::empty());
                        assert(join_paras(nd) == ptext@);
                    }
                    assert(seq![para_scan(cs@, j as int).0] + paras_from(
                        cs@,
                        para_scan(cs@, j as int).1,
                    ) =~= seq![ptext@] + paras_from(cs@, resume as int));
                    assert(done_ps + (seq![ptext@] + paras_from(cs@, resume as int)) =~= nd
                        + paras_from(cs@, resume as int));
                    done_ps = nd;
                }
                count = count + 1;
                i = resume;
            },
        }
    }
    PageContent { url: String::from_str(url), title, text: string_of(&text) }
}

} // verus!
