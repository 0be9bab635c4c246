//! Properties of the rule language and the router as a whole.

use vstd::prelude::*;
use crate::grammar::{
    Failure, SpecRule, SpecTok, first_match, header_present, host_ok, lex_from, lex_line,
    lex_quoted, lex_then, lex_word, parse_line, parse_lines, parse_source, reaches_comment,
    reaches_comment_quoted, reaches_comment_word, unescape,
};
use crate::rules::rules_then;
use crate::text::{
    eq_ignore_ascii_case, lines, lines_after_newline, lines_of_concat, lines_of_newline_join,
    spec_is_space, strip_cr, strip_last_cr,
};

verus! {

/// First match wins: the router picks the rule at `i` exactly when that rule
/// matches the request and no earlier rule does, and picks none exactly when
/// no rule matches.
#[verifier::spinoff_prover]
pub proof fn first_match_wins(
    rules: Seq<SpecRule>,
    host: Option<Seq<char>>,
    path: Seq<char>,
    headers: Seq<(Seq<char>, Seq<char>)>,
)
    ensures
        forall|i: int|
            first_match(rules, host, path, headers, 0) == Some(i) <==> (0 <= i < rules.len()
                && (#[trigger] rules[i]).matches(host, path, headers) && forall|j: int|
                0 <= j < i ==> !rules[j].matches(host, path, headers)),
        first_match(rules, host, path, headers, 0) is None <==> forall|j: int|
            0 <= j < rules.len() ==> !(#[trigger] rules[j]).matches(host, path, headers),
{
    lemma_first_match_from(rules, host, path, headers, 0);
}

proof fn lemma_first_match_from(
    rules: Seq<SpecRule>,
    host: Option<Seq<char>>,
    path: Seq<char>,
    headers: Seq<(Seq<char>, Seq<char>)>,
    k: int,
)
    requires
        0 <= k <= rules.len(),
    ensures
        forall|i: int|
            first_match(rules, host, path, headers, k) == Some(i) <==> (k <= i < rules.len()
                && (#[trigger] rules[i]).matches(host, path, headers) && forall|j: int|
                k <= j < i ==> !rules[j].matches(host, path, headers)),
        first_match(rules, host, path, headers, k) is None <==> forall|j: int|
            k <= j < rules.len() ==> !(#[trigger] rules[j]).matches(host, path, headers),
    decreases rules.len() - k,
{
    if k < rules.len() {
        lemma_first_match_from(rules, host, path, headers, k + 1);
    }
}

/// Hosts are compared without regard to ASCII case: two hosts that differ only
/// in case are routed alike.
pub proof fn host_case_does_not_matter(
    rules: Seq<SpecRule>,
    h1: Seq<char>,
    h2: Seq<char>,
    path: Seq<char>,
    headers: Seq<(Seq<char>, Seq<char>)>,
)
    requires
        eq_ignore_ascii_case(h1, h2),
    ensures
        first_match(rules, Some(h1), path, headers, 0) == first_match(
            rules,
            Some(h2),
            path,
            headers,
            0,
        ),
{
    lemma_host_case_from(rules, h1, h2, path, headers, 0);
}

proof fn lemma_host_case_from(
    rules: Seq<SpecRule>,
    h1: Seq<char>,
    h2: Seq<char>,
    path: Seq<char>,
    headers: Seq<(Seq<char>, Seq<char>)>,
    k: int,
)
    requires
        eq_ignore_ascii_case(h1, h2),
        0 <= k,
    ensures
        first_match(rules, Some(h1), path, headers, k) == first_match(
            rules,
            Some(h2),
            path,
            headers,
            k,
        ),
    decreases rules.len() - k,
{
    if k < rules.len() {
        assert(host_ok(rules[k].host, Some(h1)) == host_ok(rules[k].host, Some(h2)));
        lemma_host_case_from(rules, h1, h2, path, headers, k + 1);
    }
}

/// A rule's header name is matched without regard to ASCII case.
pub proof fn header_name_case_does_not_matter(
    n1: Seq<char>,
    n2: Seq<char>,
    value: Seq<char>,
    headers: Seq<(Seq<char>, Seq<char>)>,
)
    requires
        eq_ignore_ascii_case(n1, n2),
    ensures
        header_present(n1, value, headers) == header_present(n2, value, headers),
{
}

/// A rule with no matchers is a catch-all: it matches every request.
pub proof fn rule_without_matchers_matches_all(
    rule: SpecRule,
    host: Option<Seq<char>>,
    path: Seq<char>,
    headers: Seq<(Seq<char>, Seq<char>)>,
)
    requires
        rule.host is None,
        rule.path is None,
        rule.headers.len() == 0,
    ensures
        rule.matches(host, path, headers),
{
}

/// Blank lines and comments are ignored: a line that holds only whitespace,
/// possibly followed by a `#` comment, gives no rule and no error.
pub proof fn blank_or_comment_line_is_ignored(line: Seq<char>, k: int)
    requires
        0 <= k <= line.len(),
        forall|j: int| 0 <= j < k ==> spec_is_space(#[trigger] line[j]),
        k == line.len() || line[k] == '#',
    ensures
        lex_line(line) == Ok::<Seq<SpecTok>, Failure>(seq![]),
        parse_line(line) == Ok::<Option<SpecRule>, Seq<char>>(None),
{
    lemma_lex_spaces(line, 0, k);
}

proof fn lemma_lex_spaces(line: Seq<char>, i: int, k: int)
    requires
        0 <= i <= k <= line.len(),
        forall|j: int| 0 <= j < k ==> spec_is_space(#[trigger] line[j]),
        k == line.len() || line[k] == '#',
    ensures
        lex_from(line, i) == Ok::<Seq<SpecTok>, Failure>(seq![]),
    decreases k - i,
{
    if i < k {
        lemma_lex_spaces(line, i + 1, k);
    }
}

/// A bad rule fails with the offending line: when parsing fails at line `n`,
/// that line is one of the input's, every line before it is accepted, and the
/// failure is that line's own.
pub proof fn error_names_first_bad_line(ls: Seq<Seq<char>>, first: nat)
    ensures
        parse_lines(ls, first) matches Err((n, f)) ==> {
            &&& first <= n < first + ls.len()
            &&& parse_line(ls[n - first]) == Err::<Option<SpecRule>, Seq<char>>(f)
            &&& forall|j: int| 0 <= j < n - first ==> #[trigger] parse_line(ls[j]) is Ok
        },
    decreases ls.len(),
{
    if ls.len() > 0 {
        error_names_first_bad_line(ls.drop_first(), first + 1);
        if let Err((n, f)) = parse_lines(ls, first) {
            if parse_line(ls[0]) is Ok {
                assert forall|j: int| 0 <= j < n - first implies #[trigger] parse_line(ls[j]) is Ok by {
                    if j > 0 {
                        assert(ls[j] == ls.drop_first()[j - 1]);
                    }
                }
                assert(ls[n - first] == ls.drop_first()[n - first - 1]);
            }
        }
    }
}

/// One rule per line: the rules of two consecutive blocks of lines are the
/// rules of the first block followed by those of the second, and a failure in
/// the first block is the failure of the whole.
pub proof fn parse_lines_concat(a: Seq<Seq<char>>, b: Seq<Seq<char>>, first: nat)
    ensures
        parse_lines(a + b, first) == match parse_lines(a, first) {
            Ok(ra) => rules_then(ra, parse_lines(b, first + a.len())),
            Err(e) => Err(e),
        },
    decreases a.len(),
{
    if a.len() == 0 {
        assert(a + b =~= b);
        match parse_lines(b, first) {
            Ok(rb) => {
                assert(Seq::<SpecRule>::empty() + rb =~= rb);
            },
            Err(_) => {},
        }
    } else {
        parse_lines_concat(a.drop_first(), b, first + 1);
        assert((a + b).drop_first() =~= a.drop_first() + b);
        assert((a + b)[0] == a[0]);
        match parse_line(a[0]) {
            Ok(Some(r)) => {
                match parse_lines(a.drop_first(), first + 1) {
                    Ok(ra) => {
                        match parse_lines(b, first + a.len()) {
                            Ok(rb) => {
                                assert(seq![r] + (ra + rb) =~= (seq![r] + ra) + rb);
                            },
                            Err(_) => {},
                        }
                    },
                    Err(_) => {},
                }
            },
            _ => {},
        }
    }
}


/// Numbering the lines from another start shifts the number in an error and
/// changes nothing else.
pub proof fn parse_lines_renumber(ls: Seq<Seq<char>>, first: nat, k: nat)
    ensures
        parse_lines(ls, first + k) == match parse_lines(ls, first) {
            Ok(rs) => Ok::<Seq<SpecRule>, (nat, Seq<char>)>(rs),
            Err((n, f)) => Err((n + k, f)),
        },
    decreases ls.len(),
{
    if ls.len() > 0 {
        parse_lines_renumber(ls.drop_first(), first + 1, k);
    }
}

/// One rule per line, at the level of source text: the rules of `a + b` are
/// the rules of `a` followed by those of `b`, and a failure in `b` is reported
/// at its line counted in the whole text, when `a` is a block of whole lines
/// (empty or ending in `'\n'`) or `b` is empty.
pub proof fn sources_concatenate(a: Seq<char>, b: Seq<char>)
    requires
        a.len() == 0 || a.last() == '\n' || b.len() == 0,
    ensures
        parse_source(a + b) == match parse_source(a) {
            Err(e) => Err(e),
            Ok(ra) => match parse_source(b) {
                Ok(rb) => Ok(ra + rb),
                Err((n, f)) => Err((n + lines(a).len(), f)),
            },
        },
{
    lines_of_concat(a, b);
    parse_lines_concat(lines(a), lines(b), 1);
    parse_lines_renumber(lines(b), 1, lines(a).len());
}


/// How a char is written inside a quoted string: `"`, `\` and newline are
/// escaped with a backslash, every other char stands for itself.
pub open spec fn escape_char(c: char) -> Seq<char> {
    if c == '"' {
        seq!['\\', '"']
    } else if c == '\\' {
        seq!['\\', '\\']
    } else if c == '\n' {
        seq!['\\', 'n']
    } else {
        seq![c]
    }
}

/// The body of a quoted string that stands for `t`.
pub open spec fn escape(t: Seq<char>) -> Seq<char>
    decreases t.len(),
{
    if t.len() == 0 {
        seq![]
    } else {
        escape_char(t[0]) + escape(t.drop_first())
    }
}

proof fn lemma_lex_escaped(cs: Seq<char>, j: int, acc: Seq<char>, t: Seq<char>)
    requires
        0 <= j,
        j + escape(t).len() < cs.len(),
        cs.subrange(j, j + escape(t).len()) == escape(t),
        cs[j + escape(t).len()] == '"',
    ensures
        lex_quoted(cs, j, acc) == lex_then(
            seq![SpecTok::Str(acc + t)],
            lex_from(cs, j + escape(t).len() + 1),
        ),
    decreases t.len(),
{
    if t.len() == 0 {
        assert(acc + t =~= acc);
    } else {
        let c = t[0];
        let k = escape_char(c).len() as int;
        let rest = t.drop_first();
        assert(escape(t) == escape_char(c) + escape(rest));
        assert(cs.subrange(j, j + escape(t).len())[0] == cs[j]);
        assert(cs.subrange(j + k, j + k + escape(rest).len()) =~= cs.subrange(
            j,
            j + escape(t).len(),
        ).subrange(k, k + escape(rest).len()));
        assert((escape_char(c) + escape(rest)).subrange(k, k + escape(rest).len()) =~= escape(
            rest,
        ));
        if k == 2 {
            assert(cs.subrange(j, j + escape(t).len())[1] == cs[j + 1]);
        }
        lemma_lex_escaped(cs, j + k, acc.push(c), rest);
        assert(acc.push(c) + rest =~= acc + t);
    }
}

/// Any text can be written as a quoted string: quoting `t` with its escapes
/// and lexing the result gives back exactly one string token holding `t`.
pub proof fn quoted_text_round_trips(t: Seq<char>)
    ensures
        lex_line(seq!['"'] + escape(t) + seq!['"']) == Ok::<Seq<SpecTok>, Failure>(
            seq![SpecTok::Str(t)],
        ),
{
    let cs = seq!['"'] + escape(t) + seq!['"'];
    assert(cs.subrange(1, 1 + escape(t).len() as int) =~= escape(t));
    lemma_lex_escaped(cs, 1, seq![], t);
    assert(seq![] + t =~= t);
    assert(seq![SpecTok::Str(t)] + Seq::<SpecTok>::empty() =~= seq![SpecTok::Str(t)]);
}


proof fn lemma_lex_then_assoc(x: Seq<SpecTok>, y: Seq<SpecTok>, r: Result<Seq<SpecTok>, Failure>)
    ensures
        lex_then(x, lex_then(y, r)) == lex_then(x + y, r),
{
    if let Ok(z) = r {
        assert(x + (y + z) =~= x + y + z);
    }
}

/// Where `a` meets `s`, no token runs across: `s` is empty or starts with
/// whitespace or a quote, or `a` is empty or ends with whitespace.
pub open spec fn token_boundary(a: Seq<char>, s: Seq<char>) -> bool {
    ||| s.len() == 0
    ||| spec_is_space(s[0])
    ||| s[0] == '"'
    ||| a.len() == 0
    ||| spec_is_space(a.last())
}

/// What lexing goes on to give after `a`'s own result: that result alone when
/// `a` ends in a comment, else its tokens in front of what follows.
pub open spec fn lex_continue(
    own: Result<Seq<SpecTok>, Failure>,
    comment: bool,
    rest: Result<Seq<SpecTok>, Failure>,
) -> Result<Seq<SpecTok>, Failure> {
    if comment {
        own
    } else {
        match own {
            Ok(t) => lex_then(t, rest),
            Err(e) => Err(e),
        }
    }
}

/// Lexing `a + s` runs as lexing `a` up to the end of `a`, in each state of
/// the lexer (0: between tokens, 1: in a quoted string, 2: in a word).
proof fn lemma_lex_append(a: Seq<char>, s: Seq<char>, mode: int, k: int, acc: Seq<char>)
    requires
        token_boundary(a, s),
        0 <= mode <= 2,
        mode == 0 ==> 0 <= k <= a.len() && lex_from(a, k) is Ok,
        mode == 1 ==> 0 <= k <= a.len() && lex_quoted(a, k, acc) is Ok,
        mode == 2 ==> 0 < k <= a.len() && !spec_is_space(a[k - 1]) && a[k - 1] != '"'
            && lex_word(a, k, acc) is Ok,
    ensures
        mode == 0 ==> lex_from(a + s, k) == lex_continue(
            lex_from(a, k),
            reaches_comment(a, k),
            lex_from(a + s, a.len() as int),
        ),
        mode == 1 ==> lex_quoted(a + s, k, acc) == lex_continue(
            lex_quoted(a, k, acc),
            reaches_comment_quoted(a, k),
            lex_from(a + s, a.len() as int),
        ),
        mode == 2 ==> lex_word(a + s, k, acc) == lex_continue(
            lex_word(a, k, acc),
            reaches_comment_word(a, k),
            lex_from(a + s, a.len() as int),
        ),
    decreases a.len() - k, if mode == 0 {
        0int
    } else {
        1int
    },
{
    let f = a + s;
    let rest = lex_from(f, a.len() as int);
    if mode == 0 {
        if k == a.len() {
            if let Ok(z) = rest {
                assert(Seq::<SpecTok>::empty() + z =~= z);
            }
        } else {
            assert(f[k] == a[k]);
            let c = a[k];
            if spec_is_space(c) {
                lemma_lex_append(a, s, 0, k + 1, acc);
            } else if c == '#' {
            } else if c == '"' {
                lemma_lex_append(a, s, 1, k + 1, seq![]);
            } else if c == '~' {
                lemma_lex_append(a, s, 0, k + 1, acc);
                if let Ok(t1) = lex_from(a, k + 1) {
                    lemma_lex_then_assoc(seq![SpecTok::Tilde], t1, rest);
                }
            } else if c == '-' && k + 1 < a.len() && a[k + 1] == '>' {
                assert(f[k + 1] == a[k + 1]);
                lemma_lex_append(a, s, 0, k + 2, acc);
                if let Ok(t1) = lex_from(a, k + 2) {
                    lemma_lex_then_assoc(seq![SpecTok::Arrow], t1, rest);
                }
            } else {
                if k + 1 < a.len() {
                    assert(f[k + 1] == a[k + 1]);
                } else if k + 1 < f.len() {
                    assert(a.last() == c);
                    assert(f[k + 1] == s[0]);
                }
                lemma_lex_append(a, s, 2, k + 1, seq![c]);
            }
        }
    } else if mode == 1 {
        assert(k < a.len());
        assert(f[k] == a[k]);
        let c = a[k];
        if c == '"' {
            lemma_lex_append(a, s, 0, k + 1, acc);
            if let Ok(t1) = lex_from(a, k + 1) {
                lemma_lex_then_assoc(seq![SpecTok::Str(acc)], t1, rest);
            }
        } else if c == '\\' {
            assert(k + 1 < a.len());
            assert(f[k + 1] == a[k + 1]);
            lemma_lex_append(a, s, 1, k + 2, acc.push(unescape(a[k + 1])));
        } else {
            lemma_lex_append(a, s, 1, k + 1, acc.push(c));
        }
    } else {
        if k == a.len() {
            assert(a.last() == a[k - 1]);
            if k < f.len() {
                assert(f[k] == s[0]);
            }
            assert(lex_from(a, k) == Ok::<Seq<SpecTok>, Failure>(seq![]));
            assert(seq![SpecTok::Ident(acc)] + Seq::<SpecTok>::empty() =~= seq![SpecTok::Ident(acc)]);
        } else {
            assert(f[k] == a[k]);
            let c = a[k];
            if spec_is_space(c) || c == '"' {
                lemma_lex_append(a, s, 0, k, acc);
                if let Ok(t1) = lex_from(a, k) {
                    lemma_lex_then_assoc(seq![SpecTok::Ident(acc)], t1, rest);
                }
            } else {
                lemma_lex_append(a, s, 2, k + 1, acc.push(c));
            }
        }
    }
}

/// Lexing from inside `q` does not see what precedes `q`.
proof fn lemma_lex_shift(p: Seq<char>, q: Seq<char>, mode: int, j: int, acc: Seq<char>)
    requires
        0 <= j,
        0 <= mode <= 2,
    ensures
        mode == 0 ==> lex_from(p + q, p.len() + j) == lex_from(q, j),
        mode == 1 ==> lex_quoted(p + q, p.len() + j, acc) == lex_quoted(q, j, acc),
        mode == 2 ==> lex_word(p + q, p.len() + j, acc) == lex_word(q, j, acc),
    decreases q.len() - j, if mode == 0 {
        0int
    } else {
        1int
    },
{
    let f = p + q;
    let n = p.len() as int;
    if j < q.len() {
        assert(f[n + j] == q[j]);
        if j + 1 < q.len() {
            assert(f[n + j + 1] == q[j + 1]);
        }
        let c = q[j];
        if mode == 0 {
            if spec_is_space(c) || c == '~' {
                lemma_lex_shift(p, q, 0, j + 1, acc);
            } else if c == '#' {
            } else if c == '"' {
                lemma_lex_shift(p, q, 1, j + 1, seq![]);
            } else if c == '-' && j + 1 < q.len() && q[j + 1] == '>' {
                lemma_lex_shift(p, q, 0, j + 2, acc);
            } else {
                lemma_lex_shift(p, q, 2, j + 1, seq![c]);
            }
        } else if mode == 1 {
            if c == '"' {
                lemma_lex_shift(p, q, 0, j + 1, acc);
            } else if c == '\\' {
                if j + 1 < q.len() {
                    lemma_lex_shift(p, q, 1, j + 2, acc.push(unescape(q[j + 1])));
                }
            } else {
                lemma_lex_shift(p, q, 1, j + 1, acc.push(c));
            }
        } else {
            if spec_is_space(c) || c == '"' {
                lemma_lex_shift(p, q, 0, j, acc);
            } else {
                lemma_lex_shift(p, q, 2, j + 1, acc.push(c));
            }
        }
    }
}

/// Lexing two pieces of text joined by a space gives the tokens of the first
/// followed by those of the second, unless the first ends in a comment, which
/// then swallows the second. The first piece must lex without error.
pub proof fn lexing_space_joined_text(a: Seq<char>, b: Seq<char>)
    requires
        lex_line(a) is Ok,
    ensures
        lex_line(a + seq![' '] + b) == if reaches_comment(a, 0) {
            lex_line(a)
        } else {
            lex_then(lex_line(a)->Ok_0, lex_line(b))
        },
{
    let s = seq![' '] + b;
    let p = a + seq![' '];
    assert(a + seq![' '] + b =~= a + s);
    assert(p + b =~= a + s);
    assert(s[0] == ' ');
    lemma_lex_append(a, s, 0, 0, seq![]);
    assert((a + s)[a.len() as int] == ' ');
    lemma_lex_shift(p, b, 0, 0, seq![]);
}

/// From a `#` that starts a token to the end of the line everything is
/// ignored: text after `a` that begins with `#` adds no token, when `a`
/// lexes without error and ends between tokens (empty, or with whitespace).
pub proof fn comment_suffix_is_ignored(a: Seq<char>, t: Seq<char>)
    requires
        lex_line(a) is Ok,
        a.len() == 0 || spec_is_space(a.last()),
    ensures
        lex_line(a + seq!['#'] + t) == lex_line(a),
{
    let s = seq!['#'] + t;
    assert(a + seq!['#'] + t =~= a + s);
    lemma_lex_append(a, s, 0, 0, seq![]);
    assert((a + s)[a.len() as int] == '#');
    if let Ok(ta) = lex_line(a) {
        assert(ta + Seq::<SpecTok>::empty() =~= ta);
    }
}


/// A quoted string that meets no closing quote before the end fails.
proof fn lemma_quoted_runs_out(f: Seq<char>, j: int, acc: Seq<char>)
    requires
        0 <= j,
        forall|i: int| j <= i < f.len() ==> f[i] != '"',
    ensures
        lex_quoted(f, j, acc) is Err,
    decreases f.len() - j,
{
    if j < f.len() {
        if f[j] == '\\' {
            if j + 1 < f.len() {
                lemma_quoted_runs_out(f, j + 2, acc.push(unescape(f[j + 1])));
            }
        } else {
            lemma_quoted_runs_out(f, j + 1, acc.push(f[j]));
        }
    }
}

/// A line that fails still fails with one more whitespace char at its end.
proof fn lemma_lex_err_append_space(a: Seq<char>, c: char, mode: int, k: int, acc: Seq<char>)
    requires
        spec_is_space(c),
        0 <= mode <= 2,
        mode == 0 ==> 0 <= k <= a.len() && lex_from(a, k) is Err,
        mode == 1 ==> 0 <= k <= a.len() && lex_quoted(a, k, acc) is Err,
        mode == 2 ==> 0 < k <= a.len() && lex_word(a, k, acc) is Err,
    ensures
        mode == 0 ==> lex_from(a + seq![c], k) is Err,
        mode == 1 ==> lex_quoted(a + seq![c], k, acc) is Err,
        mode == 2 ==> lex_word(a + seq![c], k, acc) is Err,
    decreases a.len() - k, if mode == 0 {
        0int
    } else {
        1int
    },
{
    let f = a + seq![c];
    assert(f[a.len() as int] == c);
    if k < a.len() {
        assert(f[k] == a[k]);
        if k + 1 < a.len() {
            assert(f[k + 1] == a[k + 1]);
        }
    }
    if mode == 0 {
        assert(k < a.len());
        let d = a[k];
        if spec_is_space(d) || d == '~' {
            lemma_lex_err_append_space(a, c, 0, k + 1, acc);
        } else if d == '#' {
        } else if d == '"' {
            lemma_lex_err_append_space(a, c, 1, k + 1, seq![]);
        } else if d == '-' && k + 1 < a.len() && a[k + 1] == '>' {
            lemma_lex_err_append_space(a, c, 0, k + 2, acc);
        } else {
            lemma_lex_err_append_space(a, c, 2, k + 1, seq![d]);
        }
    } else if mode == 1 {
        if k == a.len() {
            lemma_quoted_runs_out(f, k, acc);
        } else {
            let d = a[k];
            if d == '"' {
                lemma_lex_err_append_space(a, c, 0, k + 1, acc);
            } else if d == '\\' {
                if k + 1 < a.len() {
                    lemma_lex_err_append_space(a, c, 1, k + 2, acc.push(unescape(a[k + 1])));
                } else {
                    assert(lex_quoted(f, k + 2, acc.push(unescape(c))) is Err);
                }
            } else {
                lemma_lex_err_append_space(a, c, 1, k + 1, acc.push(d));
            }
        }
    } else {
        assert(k < a.len());
        let d = a[k];
        if spec_is_space(d) || d == '"' {
            lemma_lex_err_append_space(a, c, 0, k, acc);
        } else {
            lemma_lex_err_append_space(a, c, 2, k + 1, acc.push(d));
        }
    }
}

/// A whitespace char at the end of a line changes nothing in a line that
/// lexes without error.
pub proof fn trailing_space_is_ignored(m: Seq<char>, c: char)
    requires
        spec_is_space(c),
        lex_line(m + seq![c]) is Ok,
    ensures
        lex_line(m) == lex_line(m + seq![c]),
{
    if lex_line(m) is Err {
        lemma_lex_err_append_space(m, c, 0, 0, seq![]);
    }
    lemma_lex_append(m, seq![c], 0, 0, seq![]);
    let f = m + seq![c];
    assert(f[m.len() as int] == c);
    assert(lex_from(f, m.len() + 1int) == Ok::<Seq<SpecTok>, Failure>(seq![]));
    if let Ok(tm) = lex_line(m) {
        assert(tm + Seq::<SpecTok>::empty() =~= tm);
    }
}


proof fn lemma_parse_lines_ok_each(ls: Seq<Seq<char>>, first: nat)
    requires
        parse_lines(ls, first) is Ok,
    ensures
        forall|j: int| 0 <= j < ls.len() ==> #[trigger] parse_line(ls[j]) is Ok,
    decreases ls.len(),
{
    if ls.len() > 0 {
        lemma_parse_lines_ok_each(ls.drop_first(), first + 1);
        assert forall|j: int| 0 <= j < ls.len() implies #[trigger] parse_line(ls[j]) is Ok by {
            if j > 0 {
                assert(ls[j] == ls.drop_first()[j - 1]);
            }
        }
    }
}

proof fn lemma_parse_lines_same(l1: Seq<Seq<char>>, l2: Seq<Seq<char>>, first: nat)
    requires
        l1.len() == l2.len(),
        forall|j: int| 0 <= j < l1.len() ==> parse_line(#[trigger] l1[j]) == parse_line(l2[j]),
    ensures
        parse_lines(l1, first) == parse_lines(l2, first),
    decreases l1.len(),
{
    if l1.len() > 0 {
        assert(parse_line(l1[0]) == parse_line(l2[0]));
        assert forall|j: int| 0 <= j < l1.drop_first().len() implies parse_line(
            #[trigger] l1.drop_first()[j],
        ) == parse_line(l2.drop_first()[j]) by {
            assert(l1.drop_first()[j] == l1[j + 1]);
            assert(parse_line(l1[j + 1]) == parse_line(l2[j + 1]));
        }
        lemma_parse_lines_same(l1.drop_first(), l2.drop_first(), first + 1);
    }
}

/// A line ended by `"\r\n"` parses as it does with its `'\r'`.
proof fn lemma_parse_line_strip_cr(l: Seq<char>)
    requires
        parse_line(l) is Ok,
    ensures
        parse_line(strip_cr(l)) == parse_line(l),
{
    if l.len() > 0 && l.last() == '\r' {
        let m = l.drop_last();
        assert(m + seq!['\r'] =~= l);
        trailing_space_is_ignored(m, '\r');
    }
}

/// How many lines of `a + "\n" + b` come before the first line of `b`: the
/// lines of `a`, and one more when `a` is empty or already ends with a line
/// break, since the added newline then ends an empty line.
pub open spec fn lines_before_joined(a: Seq<char>) -> nat {
    if a.len() == 0 || a.last() == '\n' {
        lines(a).len() + 1
    } else {
        lines(a).len()
    }
}

/// Joining two configurations with a newline joins their routing tables: when
/// the first parses, the joined text parses to the rules of the first followed
/// by those of the second, or fails as the second does, at its line counted in
/// the joined text.
pub proof fn sources_join_with_newline(a: Seq<char>, b: Seq<char>)
    requires
        parse_source(a) is Ok,
    ensures
        parse_source(a + seq!['\n'] + b) == match parse_source(b) {
            Ok(rb) => Ok::<Seq<SpecRule>, (nat, Seq<char>)>(parse_source(a)->Ok_0 + rb),
            Err((n, m)) => Err((n + lines_before_joined(a), m)),
        },
{
    let ra = parse_source(a)->Ok_0;
    let empty_line = seq![Seq::<char>::empty()];
    assert(parse_line(Seq::<char>::empty()) == Ok::<Option<SpecRule>, Seq<char>>(None));
    assert(parse_lines(Seq::<Seq<char>>::empty(), 2) == Ok::<Seq<SpecRule>, (nat, Seq<char>)>(
        seq![],
    ));
    assert(empty_line.drop_first() =~= Seq::<Seq<char>>::empty());
    if a.len() == 0 {
        assert(a + seq!['\n'] + b =~= seq!['\n'] + b);
        assert(lines(a) =~= Seq::<Seq<char>>::empty());
        lines_after_newline(b);
        parse_lines_concat(empty_line, lines(b), 1);
        parse_lines_renumber(lines(b), 1, 1);
        assert(ra =~= Seq::<SpecRule>::empty());
        if let Ok(rb) = parse_source(b) {
            assert(Seq::<SpecRule>::empty() + rb =~= rb);
            assert(ra + rb =~= rb);
        }
    } else if a.last() == '\n' {
        let nb = seq!['\n'] + b;
        assert(a + seq!['\n'] + b =~= a + nb);
        lines_of_concat(a, nb);
        lines_after_newline(b);
        let la = lines(a);
        assert(la + (empty_line + lines(b)) =~= (la + empty_line) + lines(b));
        parse_lines_concat(la + empty_line, lines(b), 1);
        parse_lines_concat(la, empty_line, 1);
        parse_lines_renumber(empty_line, 1, la.len());
        parse_lines_renumber(lines(b), 1, (la + empty_line).len());
        assert(ra + Seq::<SpecRule>::empty() =~= ra);
    } else {
        lines_of_newline_join(a, b);
        let la = lines(a);
        let ls = strip_last_cr(la);
        lemma_parse_lines_ok_each(la, 1);
        assert forall|j: int| 0 <= j < ls.len() implies parse_line(#[trigger] ls[j]) == parse_line(
            la[j],
        ) by {
            if j == ls.len() - 1 {
                lemma_parse_line_strip_cr(la[j]);
            } else {
                assert(ls[j] == la[j]);
            }
        }
        lemma_parse_lines_same(ls, la, 1);
        parse_lines_concat(ls, lines(b), 1);
        parse_lines_renumber(lines(b), 1, ls.len());
    }
}

} // verus!
