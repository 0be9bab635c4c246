//! Rift's routing rules. Rules are compiled once into matchers; one rule per
//! line, first match wins.
//!
//!   route host "api.example.com" path ~ "^/v1/" -> upstream "http://127.0.0.1:9001"
//!   route path "/health"                        -> respond 200 "ok"
//!   route path "/static/"  header "X-Env" "prod" -> upstream "http://10.0.0.5:80"
//!
//! Matchers (all AND together): host (exact, case-insensitive), path (prefix, or
//! `~` regex), header (exact). Actions: upstream <url>, respond <code> [body].

use vstd::prelude::*;
use crate::grammar::{
    Failure, SpecAction, SpecMatchers, SpecPath, SpecRule, SpecTok, body_at, expect_str_at,
    failure_text, finish_rule, first_match, header_present, lex_from, lex_line, lex_quoted,
    lex_then, lex_word, line_error_text, no_matchers, parse_action, parse_lines, parse_matchers,
    parse_rule_toks, parse_source, tok_at,
};
use crate::pattern::PathRegex;
use crate::text::{
    chars_eq, chars_eq_ignore_case, chars_of, is_space, is_word, lines_from,
    lower_chars, next_line, parse_u16, push_decimal, push_str, starts_with_chars,
    string_from_chars,
};

verus! {

/// How a rule matches the request path.
#[derive(Debug)]
pub enum PathMatch {
    Prefix(String),
    Regex(PathRegex),
}

/// What a matched rule does.
#[derive(Debug, Clone)]
pub enum Action {
    Upstream(String),
    Respond(u16, String),
}

/// One routing rule: every matcher that is present must hold.
#[derive(Debug)]
pub struct Rule {
    pub host: Option<String>,
    pub path: Option<PathMatch>,
    pub headers: Vec<(String, String)>,
    pub action: Action,
}

/// The compiled routing table. First matching rule wins.
#[derive(Debug)]
pub struct Router {
    pub rules: Vec<Rule>,
}

/// A token of one line of the rule language.
#[derive(Debug, PartialEq)]
pub enum Tok {
    Ident(String),
    Str(String),
    Arrow,
    Tilde,
}

impl View for PathMatch {
    type V = SpecPath;

    open spec fn view(&self) -> SpecPath {
        match self {
            PathMatch::Prefix(p) => SpecPath::Prefix(p@),
            PathMatch::Regex(r) => SpecPath::Regex(r.spec_pattern()),
        }
    }
}

impl View for Action {
    type V = SpecAction;

    open spec fn view(&self) -> SpecAction {
        match self {
            Action::Upstream(u) => SpecAction::Upstream(u@),
            Action::Respond(c, b) => SpecAction::Respond(*c, b@),
        }
    }
}

pub open spec fn opt_string_view(o: Option<String>) -> Option<Seq<char>> {
    match o {
        Some(s) => Some(s@),
        None => None,
    }
}

pub open spec fn opt_str_view(o: Option<&str>) -> Option<Seq<char>> {
    match o {
        Some(s) => Some(s@),
        None => None,
    }
}

pub open spec fn opt_path_view(o: Option<PathMatch>) -> Option<SpecPath> {
    match o {
        Some(p) => Some(p@),
        None => None,
    }
}

/// Name/value pairs as sequences of chars.
pub open spec fn pairs_view(v: Seq<(String, String)>) -> Seq<(Seq<char>, Seq<char>)> {
    v.map_values(|p: (String, String)| (p.0@, p.1@))
}

impl View for Rule {
    type V = SpecRule;

    open spec fn view(&self) -> SpecRule {
        SpecRule {
            host: opt_string_view(self.host),
            path: opt_path_view(self.path),
            headers: pairs_view(self.headers@),
            action: self.action@,
        }
    }
}

pub open spec fn rules_view(v: Seq<Rule>) -> Seq<SpecRule> {
    v.map_values(|r: Rule| r@)
}

impl View for Router {
    type V = Seq<SpecRule>;

    open spec fn view(&self) -> Seq<SpecRule> {
        rules_view(self.rules@)
    }
}

impl View for Tok {
    type V = SpecTok;

    open spec fn view(&self) -> SpecTok {
        match self {
            Tok::Ident(s) => SpecTok::Ident(s@),
            Tok::Str(s) => SpecTok::Str(s@),
            Tok::Arrow => SpecTok::Arrow,
            Tok::Tilde => SpecTok::Tilde,
        }
    }
}

pub open spec fn toks_view(v: Seq<Tok>) -> Seq<SpecTok> {
    v.map_values(|t: Tok| t@)
}

proof fn lemma_lex_then_push(out: Seq<Tok>, t: Tok, rest: Result<Seq<SpecTok>, Failure>)
    ensures
        lex_then(toks_view(out), lex_then(seq![t@], rest)) == lex_then(
            toks_view(out.push(t)),
            rest,
        ),
{
    assert(toks_view(out.push(t)) =~= toks_view(out) + seq![t@]);
    match rest {
        Ok(r) => {
            assert(toks_view(out) + (seq![t@] + r) =~= toks_view(out) + seq![t@] + r);
        },
        Err(_) => {},
    }
}

/// The text of a failure.
fn failure_message(f: Failure) -> (s: String)
    ensures
        s@ == failure_text(f),
{
    let mut v: Vec<char> = Vec::new();
    match f {
        Failure::UnterminatedString => push_str(&mut v, "unterminated string"),
        Failure::DanglingEscape => push_str(&mut v, "dangling escape"),
        Failure::ExpectedRoute => push_str(&mut v, "expected 'route'"),
        Failure::ExpectedMatcher => push_str(&mut v, "expected host/path/header or '->'"),
        Failure::MissingArrow => push_str(&mut v, "missing '->' and action"),
        Failure::ExpectedString => push_str(&mut v, "expected a quoted string"),
        Failure::BadRegex => push_str(&mut v, "bad regex: "),
        Failure::MissingStatus => push_str(&mut v, "respond needs a status code"),
        Failure::ExpectedAction => push_str(&mut v, "expected 'upstream' or 'respond' after '->'"),
    }
    string_from_chars(v.as_slice())
}

/// The tokens of one line, given as chars.
fn lex_chars(cs: &Vec<char>) -> (r: Result<Vec<Tok>, Failure>)
    ensures
        match lex_line(cs@) {
            Ok(t) => r matches Ok(v) && toks_view(v@) == t,
            Err(f) => r == Err::<Vec<Tok>, Failure>(f),
        },
{
    let mut out: Vec<Tok> = Vec::new();
    let mut i: usize = 0;
    while i < cs.len()
        invariant
            i <= cs.len(),
            lex_line(cs@) == lex_then(toks_view(out@), lex_from(cs@, i as int)),
        decreases cs.len() - i,
    {
        let c = cs[i];
        if is_space(c) {
            i += 1;
        } else if c == '#' {
            assert(toks_view(out@) + seq![] =~= toks_view(out@));
            return Ok(out);
        } else if c == '"' {
            let mut s: Vec<char> = Vec::new();
            let mut j: usize = i + 1;
            loop
                invariant_except_break
                    i < j <= cs.len(),
                    lex_line(cs@) == lex_then(toks_view(out@), lex_quoted(cs@, j as int, s@)),
                ensures
                    i < j <= cs.len(),
                    lex_line(cs@) == lex_then(
                        toks_view(out@),
                        lex_then(seq![SpecTok::Str(s@)], lex_from(cs@, j as int)),
                    ),
                decreases cs.len() - j,
            {
                if j >= cs.len() {
                    return Err(Failure::UnterminatedString);
                }
                let d = cs[j];
                if d == '"' {
                    j += 1;
                    break;
                } else if d == '\\' {
                    if j + 1 >= cs.len() {
                        return Err(Failure::DanglingEscape);
                    }
                    let e = cs[j + 1];
                    s.push(if e == 'n' { '\n' } else { e });
                    j += 2;
                } else {
                    s.push(d);
                    j += 1;
                }
            }
            let t = Tok::Str(string_from_chars(s.as_slice()));
            proof {
                lemma_lex_then_push(out@, t, lex_from(cs@, j as int));
            }
            out.push(t);
            i = j;
        } else if c == '~' {
            proof {
                lemma_lex_then_push(out@, Tok::Tilde, lex_from(cs@, i + 1));
            }
            out.push(Tok::Tilde);
            i += 1;
        } else if c == '-' && i + 1 < cs.len() && cs[i + 1] == '>' {
            proof {
                lemma_lex_then_push(out@, Tok::Arrow, lex_from(cs@, i + 2));
            }
            out.push(Tok::Arrow);
            i += 2;
        } else {
            let mut w: Vec<char> = Vec::new();
            w.push(c);
            let mut j: usize = i + 1;
            while j < cs.len() && !is_space(cs[j]) && cs[j] != '"'
                invariant
                    i < j <= cs.len(),
                    lex_line(cs@) == lex_then(toks_view(out@), lex_word(cs@, j as int, w@)),
                decreases cs.len() - j,
            {
                w.push(cs[j]);
                j += 1;
            }
            let t = Tok::Ident(string_from_chars(w.as_slice()));
            proof {
                lemma_lex_then_push(out@, t, lex_from(cs@, j as int));
            }
            out.push(t);
            i = j;
        }
    }
    assert(toks_view(out@) + seq![] =~= toks_view(out@));
    Ok(out)
}

/// Splits one line into tokens; the error names what is wrong with it.
pub fn lex(line: &str) -> (r: Result<Vec<Tok>, String>)
    ensures
        match lex_line(line@) {
            Ok(t) => r matches Ok(v) && toks_view(v@) == t,
            Err(f) => r matches Err(m) && m@ == failure_text(f),
        },
{
    let cs = chars_of(line);
    match lex_chars(&cs) {
        Ok(v) => Ok(v),
        Err(f) => Err(failure_message(f)),
    }
}

/// The quoted string at `i`.
pub fn expect_str(toks: &[Tok], i: usize) -> (r: Result<String, String>)
    ensures
        match expect_str_at(toks_view(toks@), i as int) {
            Ok(s) => r matches Ok(x) && x@ == s,
            Err(e) => r matches Err(m) && m@ == e,
        },
{
    if i < toks.len() {
        match &toks[i] {
            Tok::Str(s) => {
                return Ok(s.clone());
            },
            _ => {},
        }
    }
    Err(failure_message(Failure::ExpectedString))
}

/// The action at `i`.
fn read_action(toks: &[Tok], i: usize) -> (r: Result<Action, String>)
    ensures
        match parse_action(toks_view(toks@), i as int) {
            Ok(a) => r matches Ok(x) && x@ == a,
            Err(e) => r matches Err(m) && m@ == e,
        },
{
    let ghost t = toks_view(toks@);
    if i < toks.len() {
        match &toks[i] {
            Tok::Ident(k) => {
                let kc = chars_of(k.as_str());
                if is_word(&kc, "upstream") {
                    return match expect_str(toks, i + 1) {
                        Ok(u) => Ok(Action::Upstream(u)),
                        Err(m) => Err(m),
                    };
                } else if is_word(&kc, "respond") {
                    if i + 1 < toks.len() {
                        match &toks[i + 1] {
                            Tok::Ident(c) => {
                                let cc = chars_of(c.as_str());
                                match parse_u16(&cc) {
                                    Some(code) => {
                                        let mut body = String::new();
                                        if i + 2 < toks.len() {
                                            match &toks[i + 2] {
                                                Tok::Str(b) => {
                                                    body = b.clone();
                                                },
                                                _ => {},
                                            }
                                        }
                                        assert(body@ == body_at(t, i + 2));
                                        return Ok(Action::Respond(code, body));
                                    },
                                    None => {},
                                }
                            },
                            _ => {},
                        }
                    }
                    return Err(failure_message(Failure::MissingStatus));
                }
            },
            _ => {},
        }
    }
    Err(failure_message(Failure::ExpectedAction))
}

/// The matchers read so far, as the grammar sees them.
pub open spec fn matchers_view(
    host: Option<String>,
    path: Option<PathMatch>,
    headers: Seq<(String, String)>,
) -> SpecMatchers {
    SpecMatchers {
        host: opt_string_view(host),
        path: opt_path_view(path),
        headers: pairs_view(headers),
    }
}

/// Parses the tokens of one line into a rule.
fn parse_rule(toks: &[Tok]) -> (r: Result<Rule, String>)
    ensures
        match parse_rule_toks(toks_view(toks@)) {
            Ok(rule) => r matches Ok(x) && x@ == rule,
            Err(e) => r matches Err(m) && m@ == e,
        },
{
    let ghost t = toks_view(toks@);
    let mut is_route = false;
    if toks.len() > 0 {
        match &toks[0] {
            Tok::Ident(k) => {
                let kc = chars_of(k.as_str());
                is_route = is_word(&kc, "route");
            },
            _ => {},
        }
    }
    if !is_route {
        return Err(failure_message(Failure::ExpectedRoute));
    }
    let mut host: Option<String> = None;
    let mut path: Option<PathMatch> = None;
    let mut headers: Vec<(String, String)> = Vec::new();
    let mut i: usize = 1;
    assert(pairs_view(headers@) =~= Seq::<(Seq<char>, Seq<char>)>::empty());
    assert(matchers_view(host, path, headers@) == no_matchers());
    loop
        invariant_except_break
            1 <= i <= toks.len(),
            t == toks_view(toks@),
            parse_rule_toks(t) == finish_rule(
                t,
                parse_matchers(t, i as int, matchers_view(host, path, headers@)),
            ),
        ensures
            i <= toks.len(),
            t == toks_view(toks@),
            parse_rule_toks(t) == finish_rule(t, Ok((i as int, matchers_view(host, path, headers@)))),
        decreases toks.len() - i,
    {
        if i >= toks.len() {
            return Err(failure_message(Failure::MissingArrow));
        }
        match &toks[i] {
            Tok::Arrow => {
                i += 1;
                break;
            },
            Tok::Ident(k) => {
                let kc = chars_of(k.as_str());
                if is_word(&kc, "host") {
                    match expect_str(toks, i + 1) {
                        Ok(h) => {
                            host = Some(h);
                            i += 2;
                        },
                        Err(m) => {
                            return Err(m);
                        },
                    }
                } else if is_word(&kc, "path") {
                    let tilde = i + 1 < toks.len() && match &toks[i + 1] {
                        Tok::Tilde => true,
                        _ => false,
                    };
                    assert(tilde == (tok_at(t, i + 1) == Some(SpecTok::Tilde)));
                    if tilde {
                        match expect_str(toks, i + 2) {
                            Ok(pat) => {
                                match PathRegex::new(pat) {
                                    Ok(re) => {
                                        path = Some(PathMatch::Regex(re));
                                        i += 3;
                                    },
                                    Err(detail) => {
                                        let mut v: Vec<char> = Vec::new();
                                        push_str(&mut v, "bad regex: ");
                                        push_str(&mut v, detail.as_str());
                                        return Err(string_from_chars(v.as_slice()));
                                    },
                                }
                            },
                            Err(m) => {
                                return Err(m);
                            },
                        }
                    } else {
                        match expect_str(toks, i + 1) {
                            Ok(p) => {
                                path = Some(PathMatch::Prefix(p));
                                i += 2;
                            },
                            Err(m) => {
                                return Err(m);
                            },
                        }
                    }
                } else if is_word(&kc, "header") {
                    match expect_str(toks, i + 1) {
                        Ok(name) => match expect_str(toks, i + 2) {
                            Ok(value) => {
                                let ghost before = headers@;
                                headers.push((name, value));
                                assert(pairs_view(headers@) =~= pairs_view(before).push(
                                    (name@, value@),
                                ));
                                i += 3;
                            },
                            Err(m) => {
                                return Err(m);
                            },
                        },
                        Err(m) => {
                            return Err(m);
                        },
                    }
                } else {
                    return Err(failure_message(Failure::ExpectedMatcher));
                }
            },
            _ => {
                return Err(failure_message(Failure::ExpectedMatcher));
            },
        }
    }
    let action = match read_action(toks, i) {
        Ok(a) => a,
        Err(m) => {
            return Err(m);
        },
    };
    Ok(Rule { host, path, headers, action })
}


/// `"line <n>: <msg>"`.
fn line_error(n: usize, msg: &String) -> (s: String)
    ensures
        s@ == line_error_text(n as nat, msg@),
{
    let mut v: Vec<char> = Vec::new();
    push_str(&mut v, "line ");
    push_decimal(&mut v, n);
    push_str(&mut v, ": ");
    push_str(&mut v, msg.as_str());
    string_from_chars(v.as_slice())
}

/// The rules found so far in front of the rules of the rest, or the failure of
/// the rest.
pub open spec fn rules_then(
    done: Seq<SpecRule>,
    rest: Result<Seq<SpecRule>, (nat, Seq<char>)>,
) -> Result<Seq<SpecRule>, (nat, Seq<char>)> {
    match rest {
        Ok(r) => Ok(done + r),
        Err(e) => Err(e),
    }
}

/// Parses the rule language into a router. Blank lines and comments are
/// skipped; the error names the first offending line.
pub fn parse(src: &str) -> (r: Result<Router, String>)
    ensures
        match parse_source(src@) {
            Ok(rules) => r matches Ok(router) && router@ == rules,
            Err((n, e)) => r matches Err(m) && m@ == line_error_text(n, e),
        },
{
    let cs = chars_of(src);
    let mut rules: Vec<Rule> = Vec::new();
    let mut i: usize = 0;
    let mut done: usize = 0;
    assert(rules_view(rules@) + Seq::<SpecRule>::empty() =~= Seq::<SpecRule>::empty());
    while i < cs.len()
        invariant
            i <= cs.len(),
            done <= i,
            cs@ == src@,
            parse_source(src@) == rules_then(
                rules_view(rules@),
                parse_lines(lines_from(cs@, i as int), (done + 1) as nat),
            ),
        decreases cs.len() - i,
    {
        let (line, next) = next_line(&cs, i);
        let ghost rest = lines_from(cs@, next as int);
        let ghost ls = lines_from(cs@, i as int);
        assert(ls[0] == line@);
        assert(ls.drop_first() =~= rest);
        match lex_chars(&line) {
            Err(f) => {
                let m = failure_message(f);
                return Err(line_error(done + 1, &m));
            },
            Ok(toks) => {
                if toks.len() > 0 {
                    match parse_rule(toks.as_slice()) {
                        Ok(rule) => {
                            let ghost before = rules@;
                            rules.push(rule);
                            proof {
                                assert(rules_view(rules@) =~= rules_view(before) + seq![rule@]);
                                match parse_lines(rest, (done + 2) as nat) {
                                    Ok(rs) => {
                                        assert(rules_view(before) + (seq![rule@] + rs)
                                            =~= rules_view(rules@) + rs);
                                    },
                                    Err(_) => {},
                                }
                            }
                        },
                        Err(m) => {
                            return Err(line_error(done + 1, &m));
                        },
                    }
                } else {
                    assert(toks_view(toks@) =~= Seq::<SpecTok>::empty());
                }
            },
        }
        i = next;
        done += 1;
    }
    assert(lines_from(cs@, i as int) =~= Seq::<Seq<char>>::empty());
    assert(rules_view(rules@) + Seq::<SpecRule>::empty() =~= rules_view(rules@));
    Ok(Router { rules })
}


/// Does some request header have name `name` and value `value`, exactly?
fn has_header(headers: &[(String, String)], name: &Vec<char>, value: &Vec<char>) -> (b: bool)
    ensures
        b == exists|j: int|
            0 <= j < headers@.len() && (#[trigger] pairs_view(headers@)[j]).0 == name@
                && pairs_view(headers@)[j].1 == value@,
{
    let ghost hv = pairs_view(headers@);
    let mut j: usize = 0;
    while j < headers.len()
        invariant
            j <= headers.len(),
            hv == pairs_view(headers@),
            forall|k: int| 0 <= k < j ==> !((#[trigger] hv[k]).0 == name@ && hv[k].1 == value@),
        decreases headers.len() - j,
    {
        let (hk, hval) = &headers[j];
        let kc = chars_of(hk.as_str());
        let vc = chars_of(hval.as_str());
        assert(hv[j as int] == (hk@, hval@));
        if chars_eq(&kc, name) && chars_eq(&vc, value) {
            return true;
        }
        j += 1;
    }
    false
}

impl Rule {
    /// Does this rule match the request? `headers` are (lowercased-name, value).
    pub fn matches(&self, host: Option<&str>, path: &str, headers: &[(String, String)]) -> (b: bool)
        ensures
            b == self@.matches(opt_str_view(host), path@, pairs_view(headers@)),
    {
        if let Some(h) = &self.host {
            match host {
                Some(rh) => {
                    let a = chars_of(rh);
                    let w = chars_of(h.as_str());
                    if !chars_eq_ignore_case(&a, &w) {
                        return false;
                    }
                },
                None => {
                    return false;
                },
            }
        }
        if let Some(p) = &self.path {
            let ok = match p {
                PathMatch::Prefix(pre) => {
                    let pc = chars_of(path);
                    let prc = chars_of(pre.as_str());
                    starts_with_chars(&pc, &prc)
                },
                PathMatch::Regex(re) => re.is_match(path),
            };
            if !ok {
                return false;
            }
        }
        let ghost want = pairs_view(self.headers@);
        let mut i: usize = 0;
        while i < self.headers.len()
            invariant
                i <= self.headers.len(),
                want == pairs_view(self.headers@),
                forall|k: int|
                    0 <= k < i ==> header_present(
                        #[trigger] want[k].0,
                        want[k].1,
                        pairs_view(headers@),
                    ),
            decreases self.headers.len() - i,
        {
            let (k, v) = &self.headers[i];
            assert(want[i as int] == (k@, v@));
            let kl = lower_chars(&chars_of(k.as_str()));
            let vc = chars_of(v.as_str());
            if !has_header(headers, &kl, &vc) {
                assert(!header_present(want[i as int].0, want[i as int].1, pairs_view(headers@)));
                return false;
            }
            i += 1;
        }
        true
    }
}

impl Router {
    /// The action of the first rule that matches the request, if any.
    pub fn route(&self, host: Option<&str>, path: &str, headers: &[(String, String)]) -> (r:
        Option<&Action>)
        ensures
            match first_match(self@, opt_str_view(host), path@, pairs_view(headers@), 0) {
                Some(i) => r == Some(&self.rules@[i].action),
                None => r is None,
            },
    {
        let ghost h = opt_str_view(host);
        let ghost hs = pairs_view(headers@);
        let mut i: usize = 0;
        while i < self.rules.len()
            invariant
                i <= self.rules.len(),
                h == opt_str_view(host),
                hs == pairs_view(headers@),
                first_match(self@, h, path@, hs, 0) == first_match(self@, h, path@, hs, i as int),
            decreases self.rules.len() - i,
        {
            assert(self@[i as int] == self.rules@[i as int]@);
            if self.rules[i].matches(host, path, headers) {
                return Some(&self.rules[i].action);
            }
            i += 1;
        }
        None
    }
}

} // verus!
