//! What a rule keeps of its line, and what its host matcher and a request's
//! host mean, stated without the parser's and matcher's own definitions.

use vstd::prelude::*;
use crate::forward::before_colon;
use crate::grammar::{
    SpecMatchers, SpecPath, SpecRule, SpecTok, no_matchers, parse_action, parse_matchers,
    parse_rule_toks, tok_at,
};
use crate::pattern::regex_error;

verus! {

/// One matcher clause of a rule line, as written.
pub enum Clause {
    /// `host "H"`
    Host(Seq<char>),
    /// `path "P"`
    Path(Seq<char>),
    /// `path ~ "R"`
    PathRegex(Seq<char>),
    /// `header "N" "V"`
    Header(Seq<char>, Seq<char>),
}

/// The tokens a clause is written with.
pub open spec fn clause_tokens(c: Clause) -> Seq<SpecTok> {
    match c {
        Clause::Host(h) => seq![SpecTok::Ident("host"@), SpecTok::Str(h)],
        Clause::Path(p) => seq![SpecTok::Ident("path"@), SpecTok::Str(p)],
        Clause::PathRegex(p) => seq![SpecTok::Ident("path"@), SpecTok::Tilde, SpecTok::Str(p)],
        Clause::Header(n, v) => seq![SpecTok::Ident("header"@), SpecTok::Str(n), SpecTok::Str(v)],
    }
}

/// The tokens of a list of clauses, one after another.
pub open spec fn clauses_tokens(cs: Seq<Clause>) -> Seq<SpecTok>
    decreases cs.len(),
{
    if cs.len() == 0 {
        seq![]
    } else {
        clause_tokens(cs[0]) + clauses_tokens(cs.drop_first())
    }
}

/// The `header` clauses of a list, in order.
pub open spec fn header_clauses(cs: Seq<Clause>) -> Seq<(Seq<char>, Seq<char>)>
    decreases cs.len(),
{
    if cs.len() == 0 {
        seq![]
    } else {
        match cs[0] {
            Clause::Header(n, v) => seq![(n, v)] + header_clauses(cs.drop_first()),
            _ => header_clauses(cs.drop_first()),
        }
    }
}

/// The host of the last `host` clause, or `before` when there is none.
pub open spec fn last_host(cs: Seq<Clause>, before: Option<Seq<char>>) -> Option<Seq<char>>
    decreases cs.len(),
{
    if cs.len() == 0 {
        before
    } else {
        match cs[0] {
            Clause::Host(h) => last_host(cs.drop_first(), Some(h)),
            _ => last_host(cs.drop_first(), before),
        }
    }
}

/// The path of the last `path` clause (prefix or regex), or `before` when there
/// is none.
pub open spec fn last_path(cs: Seq<Clause>, before: Option<SpecPath>) -> Option<SpecPath>
    decreases cs.len(),
{
    if cs.len() == 0 {
        before
    } else {
        match cs[0] {
            Clause::Path(p) => last_path(cs.drop_first(), Some(SpecPath::Prefix(p))),
            Clause::PathRegex(p) => last_path(cs.drop_first(), Some(SpecPath::Regex(p))),
            _ => last_path(cs.drop_first(), before),
        }
    }
}

/// Every regex of the clauses is accepted by the regex crate.
pub open spec fn regexes_compile(cs: Seq<Clause>) -> bool {
    forall|i: int|
        0 <= i < cs.len() ==> (#[trigger] cs[i] matches Clause::PathRegex(p) ==> regex_error(
            p,
        ) is None)
}

proof fn lemma_words_differ()
    ensures
        "host"@ != "path"@,
        "host"@ != "header"@,
        "path"@ != "header"@,
{
    reveal_strlit("host");
    reveal_strlit("path");
    reveal_strlit("header");
    assert("host"@[0] != "path"@[0]);
    assert("host"@.len() != "header"@.len());
    assert("path"@[0] != "header"@[0]);
}

proof fn lemma_read_clauses(
    pre: Seq<SpecTok>,
    cs: Seq<Clause>,
    after: Seq<SpecTok>,
    m: SpecMatchers,
)
    requires
        regexes_compile(cs),
    ensures
        parse_matchers(
            pre + clauses_tokens(cs) + seq![SpecTok::Arrow] + after,
            pre.len() as int,
            m,
        ) == Ok::<(int, SpecMatchers), Seq<char>>(
            (
                pre.len() + clauses_tokens(cs).len() + 1int,
                SpecMatchers {
                    host: last_host(cs, m.host),
                    path: last_path(cs, m.path),
                    headers: m.headers + header_clauses(cs),
                },
            ),
        ),
    decreases cs.len(),
{
    lemma_words_differ();
    let t = pre + clauses_tokens(cs) + seq![SpecTok::Arrow] + after;
    let i = pre.len() as int;
    if cs.len() == 0 {
        assert(t[i] == SpecTok::Arrow);
        assert(m.headers + header_clauses(cs) =~= m.headers);
    } else {
        let c = cs[0];
        let rest = cs.drop_first();
        let ct = clause_tokens(c);
        let pre2 = pre + ct;
        assert(t =~= pre2 + clauses_tokens(rest) + seq![SpecTok::Arrow] + after);
        assert forall|k: int| 0 <= k < ct.len() implies t[i + k] == ct[k] by {
            assert(t[i + k] == (pre + ct)[i + k]);
        }
        assert forall|k: int| 0 <= k < ct.len() implies tok_at(t, i + k) == Some(ct[k]) by {
            assert(t[i + k] == (pre + ct)[i + k]);
        }
        assert(regexes_compile(rest)) by {
            assert forall|j: int| 0 <= j < rest.len() implies (#[trigger] rest[j] matches Clause::PathRegex(p)
                ==> regex_error(p) is None) by {
                assert(rest[j] == cs[j + 1]);
            }
        }
        match c {
            Clause::Host(h) => {
                let m2 = SpecMatchers { host: Some(h), path: m.path, headers: m.headers };
                lemma_read_clauses(pre2, rest, after, m2);
            },
            Clause::Path(p) => {
                let m2 = SpecMatchers {
                    host: m.host,
                    path: Some(SpecPath::Prefix(p)),
                    headers: m.headers,
                };
                lemma_read_clauses(pre2, rest, after, m2);
            },
            Clause::PathRegex(p) => {
                assert(cs[0] matches Clause::PathRegex(q) ==> regex_error(q) is None);
                let m2 = SpecMatchers {
                    host: m.host,
                    path: Some(SpecPath::Regex(p)),
                    headers: m.headers,
                };
                lemma_read_clauses(pre2, rest, after, m2);
            },
            Clause::Header(n, v) => {
                let m2 = SpecMatchers { host: m.host, path: m.path, headers: m.headers.push((n, v)) };
                lemma_read_clauses(pre2, rest, after, m2);
                assert(m.headers.push((n, v)) + header_clauses(rest) =~= m.headers + header_clauses(
                    cs,
                ));
            },
        }
        assert(clauses_tokens(cs).len() == ct.len() + clauses_tokens(rest).len());
    }
}

proof fn lemma_action_shift(pre: Seq<SpecTok>, action: Seq<SpecTok>)
    ensures
        parse_action(pre + action, pre.len() as int) == parse_action(action, 0),
{
    let t = pre + action;
    let n = pre.len() as int;
    assert forall|k: int| 0 <= k < 3 implies tok_at(t, n + k) == tok_at(action, k) by {
        if k < action.len() {
            assert(t[n + k] == action[k]);
        }
    }
}

/// A rule keeps every clause of its line: for any clauses between `route` and
/// `->` (regexes the regex crate accepts), the rule has the host of the last
/// `host` clause, the path of the last `path` clause, and exactly the `header`
/// clauses, in order, whatever stands between them; its action is read from
/// the tokens after the arrow.
pub proof fn rule_keeps_its_clauses(cs: Seq<Clause>, action: Seq<SpecTok>)
    requires
        regexes_compile(cs),
    ensures
        parse_rule_toks(seq![SpecTok::Ident("route"@)] + clauses_tokens(cs) + seq![SpecTok::Arrow]
            + action) == match parse_action(action, 0) {
            Ok(a) => Ok::<SpecRule, Seq<char>>(
                SpecRule {
                    host: last_host(cs, None),
                    path: last_path(cs, None),
                    headers: header_clauses(cs),
                    action: a,
                },
            ),
            Err(e) => Err(e),
        },
{
    let pre = seq![SpecTok::Ident("route"@)];
    let t = pre + clauses_tokens(cs) + seq![SpecTok::Arrow] + action;
    assert(t[0] == SpecTok::Ident("route"@));
    lemma_read_clauses(pre, cs, action, no_matchers());
    assert(Seq::<(Seq<char>, Seq<char>)>::empty() + header_clauses(cs) =~= header_clauses(cs));
    let before_action = pre + clauses_tokens(cs) + seq![SpecTok::Arrow];
    assert(t =~= before_action + action);
    lemma_action_shift(before_action, action);
}

/// Two chars are the same letter up to ASCII case, or the same char.
pub open spec fn same_ignoring_ascii_case(a: char, b: char) -> bool {
    ||| a == b
    ||| 'A' <= a <= 'Z' && (b as u32) == (a as u32) + 32
    ||| 'a' <= a <= 'z' && (a as u32) == (b as u32) + 32
}

proof fn lemma_lower_char(c: char)
    ensures
        'A' <= c <= 'Z' ==> (crate::text::spec_lower(c) as u32) == (c as u32) + 32 && 'a'
            <= crate::text::spec_lower(c) <= 'z',
        !('A' <= c <= 'Z') ==> crate::text::spec_lower(c) == c,
{
}

proof fn lemma_same_letter(a: char, b: char)
    ensures
        (crate::text::spec_lower(a) == crate::text::spec_lower(b)) == same_ignoring_ascii_case(
            a,
            b,
        ),
{
    lemma_lower_char(a);
    lemma_lower_char(b);
    if crate::text::spec_lower(a) == crate::text::spec_lower(b) {
        assert((crate::text::spec_lower(a) as u32) == (crate::text::spec_lower(b) as u32));
    }
    if 'A' <= a <= 'Z' && (b as u32) == (a as u32) + 32 {
        assert(b == crate::text::spec_lower(a));
    }
    if 'a' <= a <= 'z' && (a as u32) == (b as u32) + 32 {
        assert(a == crate::text::spec_lower(b));
    }
}

/// A rule's host matcher holds exactly when the request's host has the same
/// length as the rule's and agrees with it char by char up to ASCII case; in
/// particular hosts of different lengths never match, and a missing request
/// host never matches.
pub proof fn host_matcher_is_case_insensitive_equality(
    rule: SpecRule,
    h: Seq<char>,
    host: Option<Seq<char>>,
    path: Seq<char>,
    headers: Seq<(Seq<char>, Seq<char>)>,
)
    requires
        rule.host == Some(h),
    ensures
        rule.matches(host, path, headers) <==> (host matches Some(rh) && rh.len() == h.len()
            && (forall|i: int| 0 <= i < h.len() ==> same_ignoring_ascii_case(rh[i], h[i]))
            && SpecRule { host: None, ..rule }.matches(host, path, headers)),
{
    if let Some(rh) = host {
        let lr = crate::text::lower_seq(rh);
        let lh = crate::text::lower_seq(h);
        if lr == lh {
            assert(lr.len() == rh.len() && lh.len() == h.len());
            assert forall|i: int| 0 <= i < h.len() implies same_ignoring_ascii_case(rh[i], h[i]) by {
                assert(lr[i] == lh[i]);
                lemma_same_letter(rh[i], h[i]);
            }
        }
        if rh.len() == h.len() && (forall|i: int|
            0 <= i < h.len() ==> same_ignoring_ascii_case(rh[i], h[i])) {
            assert forall|i: int| 0 <= i < h.len() implies lr[i] == lh[i] by {
                assert(same_ignoring_ascii_case(rh[i], h[i]));
                lemma_same_letter(rh[i], h[i]);
            }
            assert(lr =~= lh);
        }
    }
}

/// The host taken from a `Host` header is the header up to, and not including,
/// its first `':'`: a prefix of the header that holds no `':'` and that is
/// either all of the header or followed in it by `':'`.
pub proof fn host_header_keeps_everything_before_the_port(h: Seq<char>)
    ensures
        before_colon(h).is_prefix_of(h),
        !before_colon(h).contains(':'),
        before_colon(h).len() == h.len() || h[before_colon(h).len() as int] == ':',
    decreases h.len(),
{
    if h.len() > 0 && h[0] != ':' {
        let t = h.drop_first();
        host_header_keeps_everything_before_the_port(t);
        let r = before_colon(t);
        assert(before_colon(h) == seq![h[0]] + r);
        assert forall|i: int| 0 <= i < r.len() + 1 implies (seq![h[0]] + r)[i] == h[i] by {
            if i > 0 {
                assert(r[i - 1] == t[i - 1]);
            }
        }
        if r.len() < t.len() {
            assert(h[r.len() + 1int] == t[r.len() as int]);
        }
        assert(!(seq![h[0]] + r).contains(':')) by {
            if (seq![h[0]] + r).contains(':') {
                let k = choose|k: int| 0 <= k < r.len() + 1 && (seq![h[0]] + r)[k] == ':';
                if k > 0 {
                    assert(r[k - 1] == ':');
                }
            }
        }
    } else if h.len() > 0 {
        assert(before_colon(h) =~= Seq::<char>::empty());
    }
}

} // verus!
