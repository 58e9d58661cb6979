//! Canonical origin extraction: `scheme://host[:port]` out of an absolute URL,
//! with the port elided when it is the scheme's default (80 for http, 443 for
//! https).  Userinfo, path, query and fragment are dropped; the host is kept
//! verbatim.

use vstd::prelude::*;

use crate::text::{is_alpha, is_digit, char_is_digit, chars_of, push_char, string_of};
use crate::text::{
    first_index_of, last_index_of, lemma_first_index_exact, lemma_first_index_found,
    lemma_last_index_bounds, lemma_last_index_drop, lemma_last_index_none,
};

verus! {

/// A scheme separator `://` starts at position `i` of `u`.
pub open spec fn sep_at(u: Seq<char>, i: int) -> bool {
    &&& 0 <= i
    &&& i + 3 <= u.len()
    &&& u[i] == ':'
    &&& u[i + 1] == '/'
    &&& u[i + 2] == '/'
}

/// Position of the first `://` at or after `i`, if any.
pub open spec fn sep_from(u: Seq<char>, i: int) -> Option<int>
    decreases u.len() - i,
{
    if i < 0 || i + 3 > u.len() {
        None
    } else if sep_at(u, i) {
        Some(i)
    } else {
        sep_from(u, i + 1)
    }
}

/// Characters allowed in a URL scheme.
pub open spec fn is_scheme_char(c: char) -> bool {
    is_alpha(c) || is_digit(c) || c == '+' || c == '-' || c == '.'
}

/// A scheme is non-empty, starts with a letter, and holds scheme characters only.
pub open spec fn valid_scheme(s: Seq<char>) -> bool {
    &&& s.len() > 0
    &&& is_alpha(s[0])
    &&& forall|i: int| 0 <= i < s.len() ==> is_scheme_char(#[trigger] s[i])
}

/// A character that terminates the authority part of a URL.
pub open spec fn is_auth_end(c: char) -> bool {
    c == '/' || c == '?' || c == '#'
}

/// Position of the first authority-terminating character at or after `i`,
/// or `u.len()` when there is none.
pub open spec fn auth_end_from(u: Seq<char>, i: int) -> int
    decreases u.len() - i,
{
    if i < 0 || i >= u.len() {
        u.len() as int
    } else if is_auth_end(u[i]) {
        i
    } else {
        auth_end_from(u, i + 1)
    }
}

pub open spec fn all_digits(s: Seq<char>) -> bool {
    forall|i: int| 0 <= i < s.len() ==> is_digit(#[trigger] s[i])
}

pub open spec fn http_scheme() -> Seq<char> {
    seq!['h', 't', 't', 'p']
}

pub open spec fn https_scheme() -> Seq<char> {
    seq!['h', 't', 't', 'p', 's']
}

/// The port digits that are elided from an origin because they are the
/// scheme's default.
pub open spec fn is_default_port(scheme: Seq<char>, port: Seq<char>) -> bool {
    ||| (scheme == http_scheme() && port == seq!['8', '0'])
    ||| (scheme == https_scheme() && port == seq!['4', '4', '3'])
}

pub open spec fn sep_seq() -> Seq<char> {
    seq![':', '/', '/']
}

/// The canonical origin of `u`, if `u` parses as an absolute URL with a host.
///
/// The authority runs from after `://` to the first `/`, `?` or `#`; userinfo
/// up to the last `@` is stripped; the host ends at the first `:`, after which
/// only decimal port digits are accepted.  An empty port is treated as absent,
/// and a default port — written exactly `80` for http or `443` for https — is
/// elided.
pub open spec fn origin_of(u: Seq<char>) -> Option<Seq<char>> {
    match sep_from(u, 0) {
        None => None,
        Some(sep) => {
            let scheme = u.subrange(0, sep);
            if !valid_scheme(scheme) {
                None
            } else {
                let ae = auth_end_from(u, sep + 3);
                let authority = u.subrange(sep + 3, ae);
                let hp = authority.subrange(last_index_of(authority, '@') + 1, authority.len() as int);
                let ci = first_index_of(hp, ':');
                let host = hp.subrange(0, ci);
                if host.len() == 0 {
                    None
                } else if ci == hp.len() {
                    Some(scheme + sep_seq() + host)
                } else {
                    let port = hp.subrange(ci + 1, hp.len() as int);
                    if port.len() == 0 {
                        Some(scheme + sep_seq() + host)
                    } else if !all_digits(port) {
                        None
                    } else if is_default_port(scheme, port) {
                        Some(scheme + sep_seq() + host)
                    } else {
                        Some(scheme + sep_seq() + host + seq![':'] + port)
                    }
                }
            }
        },
    }
}

/// The path-and-query of `u`, the part a robots rule is matched against:
/// from the end of the authority to the fragment, `/` when empty, and with a
/// leading `/` supplied when the URL goes straight into a query.
pub open spec fn path_of(u: Seq<char>) -> Seq<char> {
    match sep_from(u, 0) {
        None => seq!['/'],
        Some(sep) => {
            let ae = auth_end_from(u, sep + 3);
            let tail = u.subrange(ae, u.len() as int);
            let p = tail.subrange(0, first_index_of(tail, '#'));
            if p.len() == 0 {
                seq!['/']
            } else if p[0] == '/' {
                p
            } else {
                seq!['/'] + p
            }
        },
    }
}

/// Compute the path-and-query of `url` that the robots policy is asked about.
#[verifier::loop_isolation(false)]
pub fn extract_path(url: &str) -> (r: String)
    ensures
        r@ == path_of(url@),
{
    let u = chars_of(url);
    let sep = match find_sep(&u) {
        None => {
            let mut s = String::new();
            push_char(&mut s, '/');
            proof {
                assert(s@ =~= seq!['/']);
            }
            return s;
        },
        Some(s) => s,
    };
    proof {
        lemma_sep_from_bounds(u@, 0, sep as int);
    }
    let ae = find_auth_end(&u, sep + 3);
    let ghost tail = u@.subrange(ae as int, u@.len() as int);
    // The fragment starts at the first `#` after the authority.
    let n = u.len();
    let mut he: usize = ae;
    while he < n && u[he] != '#'
        invariant
            ae <= he <= n,
            forall|k: int| ae <= k < he ==> u@[k] != '#',
        decreases n - he,
    {
        he = he + 1;
    }
    proof {
        assert forall|k: int| 0 <= k < he - ae implies tail[k] != '#' by {
            assert(tail[k] == u@[ae + k]);
        }
        if he < n {
            assert(tail[he - ae] == u@[he as int]);
        }
        lemma_first_index_exact(tail, '#', he - ae);
        assert(tail.subrange(0, he - ae) =~= u@.subrange(ae as int, he as int));
    }
    let mut out = String::new();
    if he == ae || u[ae] != '/' {
        push_char(&mut out, '/');
    }
    let mut i: usize = ae;
    while i < he
        invariant
            ae <= i <= he,
            out@ == if he == ae || u@[ae as int] != '/' {
                seq!['/'] + u@.subrange(ae as int, i as int)
            } else {
                u@.subrange(ae as int, i as int)
            },
        decreases he - i,
    {
        push_char(&mut out, u[i]);
        proof {
            assert(u@.subrange(ae as int, i + 1) =~= u@.subrange(ae as int, i as int).push(
                u@[i as int],
            ));
        }
        i = i + 1;
    }
    proof {
        let p = tail.subrange(0, first_index_of(tail, '#'));
        if he == ae {
            assert(out@ =~= seq!['/']);
        } else if u@[ae as int] == '/' {
            assert(p[0] == u@[ae as int]);
        } else {
            assert(p[0] == u@[ae as int]);
            assert(out@ =~= seq!['/'] + p);
        }
    }
    out
}

fn char_is_scheme(c: char) -> (r: bool)
    ensures
        r == is_scheme_char(c),
{
    ('a' <= c && c <= 'z') || ('A' <= c && c <= 'Z') || ('0' <= c && c <= '9') || c == '+' || c
        == '-' || c == '.'
}

fn char_is_auth_end(c: char) -> (r: bool)
    ensures
        r == is_auth_end(c),
{
    c == '/' || c == '?' || c == '#'
}

/// Find the first `://` of `u`.
fn find_sep(u: &Vec<char>) -> (r: Option<usize>)
    ensures
        match r {
            Some(i) => sep_from(u@, 0) == Some(i as int),
            None => sep_from(u@, 0) is None,
        },
{
    let n = u.len();
    if n < 3 {
        return None;
    }
    let mut i: usize = 0;
    while i <= n - 3
        invariant
            n == u@.len(),
            3 <= n,
            i <= n - 2,
            sep_from(u@, 0) == sep_from(u@, i as int),
        decreases n - i,
    {
        if u[i] == ':' && u[i + 1] == '/' && u[i + 2] == '/' {
            return Some(i);
        }
        i = i + 1;
    }
    None
}

/// Find the end of the authority that starts at `start`.
fn find_auth_end(u: &Vec<char>, start: usize) -> (r: usize)
    requires
        start <= u@.len(),
    ensures
        r as int == auth_end_from(u@, start as int),
        start <= r <= u@.len(),
{
    let n = u.len();
    let mut i: usize = start;
    while i < n
        invariant
            n == u@.len(),
            start <= i <= n,
            auth_end_from(u@, start as int) == auth_end_from(u@, i as int),
        decreases n - i,
    {
        if char_is_auth_end(u[i]) {
            return i;
        }
        i = i + 1;
    }
    n
}

/// Find the character after the last `@` of `u[from..to]`, as an absolute index.
fn find_host_start(u: &Vec<char>, from: usize, to: usize) -> (r: usize)
    requires
        from <= to <= u@.len(),
    ensures
        r as int == from + last_index_of(u@.subrange(from as int, to as int), '@') + 1,
        from <= r <= to,
{
    let ghost a = u@.subrange(from as int, to as int);
    proof {
        assert(a.subrange(0, (to - from) as int) =~= a);
    }
    let mut i: usize = to;
    while i > from
        invariant
            from <= i <= to <= u@.len(),
            a == u@.subrange(from as int, to as int),
            last_index_of(a, '@') == last_index_of(a.subrange(0, i - from), '@'),
        decreases i - from,
    {
        proof {
            lemma_last_index_drop(a.subrange(0, i - from), '@');
            assert(a.subrange(0, i - from).drop_last() =~= a.subrange(0, i - 1 - from));
            assert(a.subrange(0, i - from).last() == u@[i - 1]);
        }
        if u[i - 1] == '@' {
            proof {
                assert(last_index_of(a.subrange(0, i - from), '@') == i - 1 - from);
            }
            return i;
        }
        i = i - 1;
    }
    proof {
        assert(a.subrange(0, 0) =~= Seq::<char>::empty());
        assert(last_index_of(a.subrange(0, 0), '@') == -1);
    }
    from
}

/// Find the first `:` of `u[from..to]`, as an absolute index (`to` if none).
fn find_colon(u: &Vec<char>, from: usize, to: usize) -> (r: usize)
    requires
        from <= to <= u@.len(),
    ensures
        r as int == from + first_index_of(u@.subrange(from as int, to as int), ':'),
        from <= r <= to,
{
    let ghost a = u@.subrange(from as int, to as int);
    proof {
        assert(a.subrange(0, a.len() as int) =~= a);
    }
    let mut i: usize = from;
    while i < to
        invariant
            from <= i <= to <= u@.len(),
            a == u@.subrange(from as int, to as int),
            first_index_of(a, ':') == (i - from) + first_index_of(
                a.subrange(i - from, a.len() as int),
                ':',
            ),
            forall|k: int| from <= k < i ==> u@[k] != ':',
        decreases to - i,
    {
        let ghost t = a.subrange(i - from, a.len() as int);
        proof {
            assert(t.len() > 0);
            assert(t[0] == u@[i as int]);
            assert(t.drop_first() =~= a.subrange(i + 1 - from, a.len() as int));
        }
        if u[i] == ':' {
            proof {
                assert(first_index_of(t, ':') == 0);
            }
            return i;
        }
        i = i + 1;
    }
    proof {
        assert(a.subrange(i - from, a.len() as int) =~= Seq::<char>::empty());
        assert(first_index_of(Seq::<char>::empty(), ':') == 0);
    }
    to
}

/// Derive the canonical origin (scheme + host + non-default port) of `url`,
/// or `None` when `url` does not parse as an absolute URL with a host.
#[verifier::loop_isolation(false)]
#[verifier::rlimit(100)]
pub fn extract_origin(url: &str) -> (r: Option<String>)
    ensures
        match r {
            Some(o) => origin_of(url@) == Some(o@),
            None => origin_of(url@) is None,
        },
{
    let u = chars_of(url);
    let sep = match find_sep(&u) {
        None => {
            return None;
        },
        Some(s) => s,
    };
    proof {
        lemma_sep_from_bounds(u@, 0, sep as int);
        assert(sep + 3 <= u.len());
    }
    let ghost scheme = u@.subrange(0, sep as int);
    // Validate the scheme.
    if sep == 0 {
        return None;
    }
    let c0 = u[0];
    assert(scheme[0] == u@[0]);
    if !(('a' <= c0 && c0 <= 'z') || ('A' <= c0 && c0 <= 'Z')) {
        assert(!valid_scheme(scheme));
        return None;
    }
    let mut i: usize = 0;
    while i < sep
        invariant
            sep + 3 <= u@.len(),
            i <= sep,
            scheme == u@.subrange(0, sep as int),
            forall|k: int| 0 <= k < i ==> is_scheme_char(#[trigger] u@[k]),
        decreases sep - i,
    {
        if !char_is_scheme(u[i]) {
            assert(scheme[i as int] == u@[i as int]);
            assert(!valid_scheme(scheme));
            return None;
        }
        i = i + 1;
    }
    assert(valid_scheme(scheme)) by {
        assert(forall|k: int| 0 <= k < sep ==> scheme[k] == u@[k]);
    }

    let ae = find_auth_end(&u, sep + 3);
    let ghost authority = u@.subrange(sep + 3, ae as int);
    let hs = find_host_start(&u, sep + 3, ae);
    let ghost hp = authority.subrange(
        last_index_of(authority, '@') + 1,
        authority.len() as int,
    );
    proof {
        assert(hp =~= u@.subrange(hs as int, ae as int));
    }
    let ci = find_colon(&u, hs, ae);
    proof {
        assert(u@.subrange(hs as int, ae as int) =~= hp);
        assert(first_index_of(hp, ':') == ci - hs);
        assert(hp.subrange(0, ci - hs) =~= u@.subrange(hs as int, ci as int));
    }
    let ghost host = hp.subrange(0, ci - hs);
    if ci == hs {
        // Empty host.
        return None;
    }
    // Decide how much of the host-port span to keep.
    let keep_end: usize;
    if ci == ae {
        // No port separator at all.
        keep_end = ci;
        proof {
            assert(first_index_of(hp, ':') == hp.len());
        }
    } else {
        let ghost port = hp.subrange(ci + 1 - hs, hp.len() as int);
        proof {
            assert(port =~= u@.subrange(ci + 1, ae as int));
        }
        if ci + 1 == ae {
            // Empty port: treated as absent.
            keep_end = ci;
        } else {
            // The port must be all digits.
            let mut j: usize = ci + 1;
            while j < ae
                invariant
                    ci + 1 <= j <= ae <= u@.len(),
                    forall|k: int| ci + 1 <= k < j ==> is_digit(#[trigger] u@[k]),
                decreases ae - j,
            {
                if !char_is_digit(u[j]) {
                    assert(port[j - (ci + 1)] == u@[j as int]);
                    assert(!all_digits(port));
                    return None;
                }
                j = j + 1;
            }
            assert(all_digits(port)) by {
                assert(forall|k: int| 0 <= k < port.len() ==> port[k] == u@[ci + 1 + k]);
            }
            // Elide the scheme's default port.
            let is_http = sep == 4 && u[0] == 'h' && u[1] == 't' && u[2] == 't' && u[3] == 'p';
            let is_https = sep == 5 && u[0] == 'h' && u[1] == 't' && u[2] == 't' && u[3] == 'p'
                && u[4] == 's';
            let default_80 = ae - ci == 3 && u[ci + 1] == '8' && u[ci + 2] == '0';
            let default_443 = ae - ci == 4 && u[ci + 1] == '4' && u[ci + 2] == '4' && u[ci + 3]
                == '3';
            proof {
                assert((scheme == http_scheme()) == is_http) by {
                    if is_http {
                        assert(scheme =~= http_scheme());
                    }
                }
                assert((scheme == https_scheme()) == is_https) by {
                    if is_https {
                        assert(scheme =~= https_scheme());
                    }
                }
                assert((port == seq!['8', '0']) == default_80) by {
                    if default_80 {
                        assert(port =~= seq!['8', '0']);
                    }
                }
                assert((port == seq!['4', '4', '3']) == default_443) by {
                    if default_443 {
                        assert(port =~= seq!['4', '4', '3']);
                    }
                }
            }
            if (is_http && default_80) || (is_https && default_443) {
                keep_end = ci;
            } else {
                keep_end = ae;
            }
        }
    }
    // Assemble `scheme://` + host [+ `:` + port] out of the url's own characters.
    let mut out: Vec<char> = Vec::new();
    let mut i: usize = 0;
    while i < sep + 3
        invariant
            sep + 3 <= u@.len(),
            i <= sep + 3,
            out@ == u@.subrange(0, i as int),
        decreases sep + 3 - i,
    {
        out.push(u[i]);
        proof {
            assert(out@ =~= u@.subrange(0, i + 1));
        }
        i = i + 1;
    }
    let mut j: usize = hs;
    while j < keep_end
        invariant
            hs <= j <= keep_end <= u@.len(),
            sep + 3 <= u@.len(),
            out@ == u@.subrange(0, sep + 3) + u@.subrange(hs as int, j as int),
        decreases keep_end - j,
    {
        out.push(u[j]);
        proof {
            assert(out@ =~= u@.subrange(0, sep + 3) + u@.subrange(hs as int, j + 1));
        }
        j = j + 1;
    }
    proof {
        assert(u@.subrange(0, sep + 3) =~= scheme + sep_seq());
        if keep_end == ci {
            assert(out@ =~= scheme + sep_seq() + host);
        } else {
            let port = hp.subrange(ci + 1 - hs, hp.len() as int);
            lemma_first_index_found(hp, ':');
            assert(u@[ci as int] == hp[ci - hs]);
            assert(out@ =~= scheme + sep_seq() + host + seq![':'] + port);
        }
    }
    Some(string_of(&out))
}


/// Generalization of `lemma_sep_from_exact` to an arbitrary starting point.
proof fn lemma_sep_from_exact_from(v: Seq<char>, i: int, s: int)
    requires
        0 <= i <= s,
        sep_at(v, s),
        forall|k: int| i <= k < s ==> v[k] != ':',
    ensures
        sep_from(v, i) == Some(s),
    decreases s - i,
{
    if i < s {
        lemma_sep_from_exact_from(v, i + 1, s);
    }
}

/// `auth_end_from` answers exactly the first authority-terminating position.
proof fn lemma_auth_end_exact(v: Seq<char>, i: int, e: int)
    requires
        0 <= i <= e <= v.len(),
        forall|k: int| i <= k < e ==> !is_auth_end(#[trigger] v[k]),
        e == v.len() || is_auth_end(v[e]),
    ensures
        auth_end_from(v, i) == e,
    decreases e - i,
{
    if i < e {
        lemma_auth_end_exact(v, i + 1, e);
    }
}



/// Bounds and character facts for `auth_end_from`.
proof fn lemma_auth_end_bounds(u: Seq<char>, i: int)
    requires
        0 <= i <= u.len(),
    ensures
        i <= auth_end_from(u, i) <= u.len(),
        forall|k: int| i <= k < auth_end_from(u, i) ==> !is_auth_end(#[trigger] u[k]),
    decreases u.len() - i,
{
    if i < u.len() && !is_auth_end(u[i]) {
        lemma_auth_end_bounds(u, i + 1);
    }
}


/// Origin extraction is idempotent: the origin of an origin, with anything
/// from the path onward appended, is that same origin.  In particular,
/// `extract_origin` applied to `extract_origin(u) + "/x"` returns
/// `extract_origin(u)` again.
pub proof fn lemma_origin_idempotent(u: Seq<char>, o: Seq<char>, rest: Seq<char>)
    requires
        origin_of(u) == Some(o),
        rest.len() == 0 || is_auth_end(rest[0]),
    ensures
        origin_of(o + rest) == Some(o),
{
    let sep = sep_from(u, 0)->Some_0;
    let scheme = u.subrange(0, sep);
    lemma_sep_from_bounds(u, 0, sep);
    let ae = auth_end_from(u, sep + 3);
    lemma_auth_end_bounds(u, sep + 3);
    let authority = u.subrange(sep + 3, ae);
    lemma_last_index_bounds(authority, '@');
    let la = last_index_of(authority, '@');
    let hp = authority.subrange(la + 1, authority.len() as int);
    lemma_first_index_found(hp, ':');
    let ci = first_index_of(hp, ':');
    let host = hp.subrange(0, ci);
    let port = if ci < hp.len() {
        hp.subrange(ci + 1, hp.len() as int)
    } else {
        Seq::<char>::empty()
    };
    let keep_port = ci < hp.len() && port.len() > 0 && all_digits(port) && !is_default_port(
        scheme,
        port,
    );

    // Character classes of the parts that make up `o`.
    assert(forall|k: int| 0 <= k < host.len() ==> hp[k] != ':');
    assert(forall|k: int|
        0 <= k < hp.len() ==> hp[k] == authority[la + 1 + k] && #[trigger] hp[k] != '@');
    assert(forall|k: int| 0 <= k < authority.len() ==> !is_auth_end(#[trigger] authority[k]));

    let slen = scheme.len() as int;
    let v = o + rest;
    let base = scheme + sep_seq() + host;

    assert(o == if keep_port {
        scheme + sep_seq() + host + seq![':'] + port
    } else {
        base
    });

    // The scheme separator of `v` stands exactly where it was placed.
    assert(sep_at(v, slen));
    assert forall|k: int| 0 <= k < slen implies v[k] != ':' by {
        assert(v[k] == scheme[k]);
        assert(is_scheme_char(scheme[k]));
    }
    lemma_sep_from_exact_from(v, 0, slen);
    assert(v.subrange(0, slen) =~= scheme);

    // The authority of `v` runs exactly to the end of `o`.
    let olen = o.len() as int;
    assert forall|k: int| slen + 3 <= k < olen implies !is_auth_end(#[trigger] v[k]) by {
        let j = k - slen - 3;
        if j < host.len() {
            assert(v[k] == host[j]);
        } else if keep_port {
            if j == host.len() {
                assert(v[k] == ':');
            } else {
                assert(v[k] == port[j - host.len() - 1]);
                assert(is_digit(port[j - host.len() - 1]));
            }
        }
    }
    assert(olen == v.len() || is_auth_end(v[olen]));
    lemma_auth_end_exact(v, slen + 3, olen);
    let authority2 = v.subrange(slen + 3, olen);

    // No userinfo in an origin.
    assert forall|k: int| 0 <= k < authority2.len() implies authority2[k] != '@' by {
        let j = k;
        if j < host.len() {
            assert(authority2[k] == host[j]);
        } else if keep_port {
            if j == host.len() {
                assert(authority2[k] == ':');
            } else {
                assert(authority2[k] == port[j - host.len() - 1]);
                assert(is_digit(port[j - host.len() - 1]));
            }
        }
    }
    lemma_last_index_none(authority2, '@');
    let hp2 = authority2.subrange(0, authority2.len() as int);
    assert(hp2 =~= authority2);

    if keep_port {
        assert(authority2 =~= host + seq![':'] + port);
        assert forall|k: int| 0 <= k < host.len() implies hp2[k] != ':' by {
            assert(hp2[k] == host[k]);
        }
        assert(hp2[host.len() as int] == ':');
        lemma_first_index_exact(hp2, ':', host.len() as int);
        assert(hp2.subrange(0, host.len() as int) =~= host);
        let port2 = hp2.subrange(host.len() as int + 1, hp2.len() as int);
        assert(port2 =~= port);
        assert(origin_of(v) == Some(scheme + sep_seq() + host + seq![':'] + port));
    } else {
        assert(authority2 =~= host);
        assert forall|k: int| 0 <= k < hp2.len() implies hp2[k] != ':' by {
            assert(hp2[k] == host[k]);
        }
        lemma_first_index_exact(hp2, ':', hp2.len() as int);
        assert(hp2.subrange(0, hp2.len() as int) =~= host);
        assert(origin_of(v) == Some(scheme + sep_seq() + host));
    }
}

/// `sep_from` only answers with a position where a separator indeed stands,
/// and with none earlier.
proof fn lemma_sep_from_bounds(u: Seq<char>, i: int, r: int)
    requires
        sep_from(u, i) == Some(r),
    ensures
        i <= r,
        sep_at(u, r),
        forall|k: int| i <= k < r ==> !sep_at(u, k),
    decreases u.len() - i,
{
    if i < 0 || i + 3 > u.len() {
    } else if sep_at(u, i) {
    } else {
        lemma_sep_from_bounds(u, i + 1, r);
    }
}

} // verus!
