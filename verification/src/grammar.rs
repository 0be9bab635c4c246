//! The meaning of the rule language: what a line lexes to, what a token
//! sequence parses to, what a whole source parses to, and when a rule matches
//! a request. The executable lexer, parser and router in `rules` are proved
//! against these definitions.

use vstd::prelude::*;
use crate::text::{decimal, eq_ignore_ascii_case, lines, lower_seq, spec_is_space, spec_parse_u16};
use crate::pattern::{regex_error, regex_is_match};

verus! {

/// Why a line is refused.
#[derive(Debug, Clone, Copy, PartialEq, Eq, Structural)]
pub enum Failure {
    UnterminatedString,
    DanglingEscape,
    ExpectedRoute,
    ExpectedMatcher,
    MissingArrow,
    ExpectedString,
    BadRegex,
    MissingStatus,
    ExpectedAction,
}

/// The text that names each failure. For a bad regex the regex crate's own
/// message follows it.
pub open spec fn failure_text(f: Failure) -> Seq<char> {
    match f {
        Failure::UnterminatedString => "unterminated string"@,
        Failure::DanglingEscape => "dangling escape"@,
        Failure::ExpectedRoute => "expected 'route'"@,
        Failure::ExpectedMatcher => "expected host/path/header or '->'"@,
        Failure::MissingArrow => "missing '->' and action"@,
        Failure::ExpectedString => "expected a quoted string"@,
        Failure::BadRegex => "bad regex: "@,
        Failure::MissingStatus => "respond needs a status code"@,
        Failure::ExpectedAction => "expected 'upstream' or 'respond' after '->'"@,
    }
}

/// The error for a failure with message `msg` on line `line` (counted from 1).
pub open spec fn line_error_text(line: nat, msg: Seq<char>) -> Seq<char> {
    "line "@ + decimal(line) + ": "@ + msg
}

/// A token of the rule language.
pub enum SpecTok {
    Ident(Seq<char>),
    Str(Seq<char>),
    Arrow,
    Tilde,
}

/// `out` in front of the tokens of `rest`, or the failure of `rest`.
pub open spec fn lex_then(out: Seq<SpecTok>, rest: Result<Seq<SpecTok>, Failure>) -> Result<
    Seq<SpecTok>,
    Failure,
> {
    match rest {
        Ok(r) => Ok(out + r),
        Err(e) => Err(e),
    }
}

/// What a backslash followed by `c` stands for inside a quoted string.
pub open spec fn unescape(c: char) -> char {
    if c == 'n' {
        '\n'
    } else {
        c
    }
}

/// The tokens of `cs` from index `i` on. Whitespace separates tokens, `#`
/// starts a comment that runs to the end of the line, `"` opens a quoted
/// string, `~` and `->` are tokens of their own, and any other run of
/// characters up to whitespace or `"` is a word.
pub open spec fn lex_from(cs: Seq<char>, i: int) -> Result<Seq<SpecTok>, Failure>
    decreases cs.len() - i, 0int,
{
    if i < 0 || i >= cs.len() {
        Ok(seq![])
    } else if spec_is_space(cs[i]) {
        lex_from(cs, i + 1)
    } else if cs[i] == '#' {
        Ok(seq![])
    } else if cs[i] == '"' {
        lex_quoted(cs, i + 1, seq![])
    } else if cs[i] == '~' {
        lex_then(seq![SpecTok::Tilde], lex_from(cs, i + 1))
    } else if cs[i] == '-' && i + 1 < cs.len() && cs[i + 1] == '>' {
        lex_then(seq![SpecTok::Arrow], lex_from(cs, i + 2))
    } else {
        lex_word(cs, i + 1, seq![cs[i]])
    }
}

/// Inside a quoted string at `j`, having read `acc` so far.
pub open spec fn lex_quoted(cs: Seq<char>, j: int, acc: Seq<char>) -> Result<Seq<SpecTok>, Failure>
    decreases cs.len() - j, 1int,
{
    if j < 0 || j >= cs.len() {
        Err(Failure::UnterminatedString)
    } else if cs[j] == '"' {
        lex_then(seq![SpecTok::Str(acc)], lex_from(cs, j + 1))
    } else if cs[j] == '\\' {
        if j + 1 >= cs.len() {
            Err(Failure::DanglingEscape)
        } else {
            lex_quoted(cs, j + 2, acc.push(unescape(cs[j + 1])))
        }
    } else {
        lex_quoted(cs, j + 1, acc.push(cs[j]))
    }
}

/// Inside a word at `j`, having read `acc` so far.
pub open spec fn lex_word(cs: Seq<char>, j: int, acc: Seq<char>) -> Result<Seq<SpecTok>, Failure>
    decreases cs.len() - j, 1int,
{
    if j < 0 || j >= cs.len() || spec_is_space(cs[j]) || cs[j] == '"' {
        lex_then(seq![SpecTok::Ident(acc)], lex_from(cs, j))
    } else {
        lex_word(cs, j + 1, acc.push(cs[j]))
    }
}

/// Whether lexing `cs` from `i`, outside any token, stops at a `#` that opens a
/// comment rather than at the end of the line.
pub open spec fn reaches_comment(cs: Seq<char>, i: int) -> bool
    decreases cs.len() - i, 0int,
{
    if i < 0 || i >= cs.len() {
        false
    } else if spec_is_space(cs[i]) {
        reaches_comment(cs, i + 1)
    } else if cs[i] == '#' {
        true
    } else if cs[i] == '"' {
        reaches_comment_quoted(cs, i + 1)
    } else if cs[i] == '~' {
        reaches_comment(cs, i + 1)
    } else if cs[i] == '-' && i + 1 < cs.len() && cs[i + 1] == '>' {
        reaches_comment(cs, i + 2)
    } else {
        reaches_comment_word(cs, i + 1)
    }
}

/// `reaches_comment` from inside a quoted string at `j`.
pub open spec fn reaches_comment_quoted(cs: Seq<char>, j: int) -> bool
    decreases cs.len() - j, 1int,
{
    if j < 0 || j >= cs.len() {
        false
    } else if cs[j] == '"' {
        reaches_comment(cs, j + 1)
    } else if cs[j] == '\\' {
        if j + 1 >= cs.len() {
            false
        } else {
            reaches_comment_quoted(cs, j + 2)
        }
    } else {
        reaches_comment_quoted(cs, j + 1)
    }
}

/// `reaches_comment` from inside a word at `j`.
pub open spec fn reaches_comment_word(cs: Seq<char>, j: int) -> bool
    decreases cs.len() - j, 1int,
{
    if j < 0 || j >= cs.len() || spec_is_space(cs[j]) || cs[j] == '"' {
        reaches_comment(cs, j)
    } else {
        reaches_comment_word(cs, j + 1)
    }
}

/// The tokens of one line.
pub open spec fn lex_line(cs: Seq<char>) -> Result<Seq<SpecTok>, Failure> {
    lex_from(cs, 0)
}

/// How a rule matches the path.
pub enum SpecPath {
    Prefix(Seq<char>),
    Regex(Seq<char>),
}

/// What a rule does with a matched request.
pub enum SpecAction {
    Upstream(Seq<char>),
    Respond(u16, Seq<char>),
}

/// The matchers of a rule, read so far.
pub struct SpecMatchers {
    pub host: Option<Seq<char>>,
    pub path: Option<SpecPath>,
    pub headers: Seq<(Seq<char>, Seq<char>)>,
}

/// A rule: matchers that must all hold, and an action.
pub struct SpecRule {
    pub host: Option<Seq<char>>,
    pub path: Option<SpecPath>,
    pub headers: Seq<(Seq<char>, Seq<char>)>,
    pub action: SpecAction,
}

pub open spec fn no_matchers() -> SpecMatchers {
    SpecMatchers { host: None, path: None, headers: seq![] }
}

pub open spec fn tok_at(toks: Seq<SpecTok>, i: int) -> Option<SpecTok> {
    if 0 <= i < toks.len() {
        Some(toks[i])
    } else {
        None
    }
}

/// The quoted string at `i`.
pub open spec fn expect_str_at(toks: Seq<SpecTok>, i: int) -> Result<Seq<char>, Seq<char>> {
    match tok_at(toks, i) {
        Some(SpecTok::Str(s)) => Ok(s),
        _ => Err(failure_text(Failure::ExpectedString)),
    }
}

/// Reads matchers from `i` up to and including `->`; gives the index after the
/// arrow and the matchers. A later matcher of the same kind replaces an
/// earlier host or path; headers accumulate.
pub open spec fn parse_matchers(toks: Seq<SpecTok>, i: int, m: SpecMatchers) -> Result<
    (int, SpecMatchers),
    Seq<char>,
>
    decreases toks.len() - i,
{
    if i < 0 || i >= toks.len() {
        Err(failure_text(Failure::MissingArrow))
    } else {
        match toks[i] {
            SpecTok::Arrow => Ok((i + 1, m)),
            SpecTok::Ident(k) => {
                if k == "host"@ {
                    match expect_str_at(toks, i + 1) {
                        Ok(h) => parse_matchers(
                            toks,
                            i + 2,
                            SpecMatchers { host: Some(h), path: m.path, headers: m.headers },
                        ),
                        Err(e) => Err(e),
                    }
                } else if k == "path"@ {
                    if tok_at(toks, i + 1) == Some(SpecTok::Tilde) {
                        match expect_str_at(toks, i + 2) {
                            Ok(p) => match regex_error(p) {
                                None => parse_matchers(
                                    toks,
                                    i + 3,
                                    SpecMatchers {
                                        host: m.host,
                                        path: Some(SpecPath::Regex(p)),
                                        headers: m.headers,
                                    },
                                ),
                                Some(e) => Err(failure_text(Failure::BadRegex) + e),
                            },
                            Err(e) => Err(e),
                        }
                    } else {
                        match expect_str_at(toks, i + 1) {
                            Ok(p) => parse_matchers(
                                toks,
                                i + 2,
                                SpecMatchers {
                                    host: m.host,
                                    path: Some(SpecPath::Prefix(p)),
                                    headers: m.headers,
                                },
                            ),
                            Err(e) => Err(e),
                        }
                    }
                } else if k == "header"@ {
                    match expect_str_at(toks, i + 1) {
                        Ok(name) => match expect_str_at(toks, i + 2) {
                            Ok(value) => parse_matchers(
                                toks,
                                i + 3,
                                SpecMatchers {
                                    host: m.host,
                                    path: m.path,
                                    headers: m.headers.push((name, value)),
                                },
                            ),
                            Err(e) => Err(e),
                        },
                        Err(e) => Err(e),
                    }
                } else {
                    Err(failure_text(Failure::ExpectedMatcher))
                }
            },
            _ => Err(failure_text(Failure::ExpectedMatcher)),
        }
    }
}

/// The optional body of a `respond` action: the quoted string at `i`, if any.
pub open spec fn body_at(toks: Seq<SpecTok>, i: int) -> Seq<char> {
    match tok_at(toks, i) {
        Some(SpecTok::Str(s)) => s,
        _ => seq![],
    }
}

/// Reads the action at `i`; tokens after it are ignored.
pub open spec fn parse_action(toks: Seq<SpecTok>, i: int) -> Result<SpecAction, Seq<char>> {
    match tok_at(toks, i) {
        Some(SpecTok::Ident(k)) => {
            if k == "upstream"@ {
                match expect_str_at(toks, i + 1) {
                    Ok(u) => Ok(SpecAction::Upstream(u)),
                    Err(e) => Err(e),
                }
            } else if k == "respond"@ {
                match tok_at(toks, i + 1) {
                    Some(SpecTok::Ident(c)) => match spec_parse_u16(c) {
                        Some(code) => Ok(SpecAction::Respond(code, body_at(toks, i + 2))),
                        None => Err(failure_text(Failure::MissingStatus)),
                    },
                    _ => Err(failure_text(Failure::MissingStatus)),
                }
            } else {
                Err(failure_text(Failure::ExpectedAction))
            }
        },
        _ => Err(failure_text(Failure::ExpectedAction)),
    }
}

/// The rule made of read matchers and the action that follows them.
pub open spec fn finish_rule(toks: Seq<SpecTok>, r: Result<(int, SpecMatchers), Seq<char>>) -> Result<
    SpecRule,
    Seq<char>,
> {
    match r {
        Ok((i, m)) => match parse_action(toks, i) {
            Ok(a) => Ok(SpecRule { host: m.host, path: m.path, headers: m.headers, action: a }),
            Err(e) => Err(e),
        },
        Err(e) => Err(e),
    }
}

/// `route`, then matchers up to `->`, then an action.
pub open spec fn parse_rule_toks(toks: Seq<SpecTok>) -> Result<SpecRule, Seq<char>> {
    if tok_at(toks, 0) matches Some(SpecTok::Ident(k)) && k == "route"@ {
        finish_rule(toks, parse_matchers(toks, 1, no_matchers()))
    } else {
        Err(failure_text(Failure::ExpectedRoute))
    }
}

/// One line: nothing when it holds no token (blank or comment), else a rule.
pub open spec fn parse_line(line: Seq<char>) -> Result<Option<SpecRule>, Seq<char>> {
    match lex_line(line) {
        Err(f) => Err(failure_text(f)),
        Ok(toks) => if toks.len() == 0 {
            Ok(None)
        } else {
            match parse_rule_toks(toks) {
                Ok(r) => Ok(Some(r)),
                Err(f) => Err(f),
            }
        },
    }
}

/// The rules of `ls`, whose first line has number `first`; or the number of
/// the first line that fails, and why.
pub open spec fn parse_lines(ls: Seq<Seq<char>>, first: nat) -> Result<Seq<SpecRule>, (nat, Seq<char>)>
    decreases ls.len(),
{
    if ls.len() == 0 {
        Ok(seq![])
    } else {
        match parse_line(ls[0]) {
            Err(f) => Err((first, f)),
            Ok(None) => parse_lines(ls.drop_first(), first + 1),
            Ok(Some(r)) => match parse_lines(ls.drop_first(), first + 1) {
                Ok(rs) => Ok(seq![r] + rs),
                Err(e) => Err(e),
            },
        }
    }
}

/// The rules of a whole source, lines numbered from 1.
pub open spec fn parse_source(src: Seq<char>) -> Result<Seq<SpecRule>, (nat, Seq<char>)> {
    parse_lines(lines(src), 1)
}

/// The host matcher: absent, or equal to the request's host up to ASCII case.
pub open spec fn host_ok(want: Option<Seq<char>>, host: Option<Seq<char>>) -> bool {
    match want {
        None => true,
        Some(h) => match host {
            Some(rh) => eq_ignore_ascii_case(rh, h),
            None => false,
        },
    }
}

/// The path matcher: absent, a prefix of the request path, or a regex that
/// matches somewhere in it.
pub open spec fn path_ok(want: Option<SpecPath>, path: Seq<char>) -> bool {
    match want {
        None => true,
        Some(SpecPath::Prefix(pre)) => pre.is_prefix_of(path),
        Some(SpecPath::Regex(pat)) => regex_is_match(pat, path),
    }
}

/// Some request header has the lowercased `name` and exactly `value`.
pub open spec fn header_present(
    name: Seq<char>,
    value: Seq<char>,
    headers: Seq<(Seq<char>, Seq<char>)>,
) -> bool {
    exists|j: int|
        0 <= j < headers.len() && (#[trigger] headers[j]).0 == lower_seq(name) && headers[j].1
            == value
}

/// Every header the rule names is present in the request.
pub open spec fn headers_ok(
    want: Seq<(Seq<char>, Seq<char>)>,
    headers: Seq<(Seq<char>, Seq<char>)>,
) -> bool {
    forall|i: int| 0 <= i < want.len() ==> header_present(#[trigger] want[i].0, want[i].1, headers)
}

impl SpecRule {
    /// All matchers hold of the request.
    pub open spec fn matches(
        self,
        host: Option<Seq<char>>,
        path: Seq<char>,
        headers: Seq<(Seq<char>, Seq<char>)>,
    ) -> bool {
        &&& host_ok(self.host, host)
        &&& path_ok(self.path, path)
        &&& headers_ok(self.headers, headers)
    }
}

/// The index of the first rule from `i` on that matches the request.
pub open spec fn first_match(
    rules: Seq<SpecRule>,
    host: Option<Seq<char>>,
    path: Seq<char>,
    headers: Seq<(Seq<char>, Seq<char>)>,
    i: int,
) -> Option<int>
    decreases rules.len() - i,
{
    if i < 0 || i >= rules.len() {
        None
    } else if rules[i].matches(host, path, headers) {
        Some(i)
    } else {
        first_match(rules, host, path, headers, i + 1)
    }
}

} // verus!
