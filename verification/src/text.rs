//! Character-level helpers: strings as sequences of chars.

use vstd::prelude::*;

verus! {

/// The characters of `s`, in order.
pub fn chars_of(s: &str) -> (v: Vec<char>)
    ensures
        v@ == s@,
{
    let mut v: Vec<char> = Vec::new();
    for c in it: s.chars()
        invariant
            v@ == it.seq().take(it.index() as int),
            it.seq() == s@,
    {
        v.push(c);
    }
    v
}

/// Collects chars into a `String` (std's `FromIterator<char> for String`).
#[verifier::external_body]
pub fn string_from_chars(v: &[char]) -> (s: String)
    ensures
        s@ == v@,
{
    v.iter().collect()
}


/// Unicode `White_Space`: the characters that separate tokens.
pub open spec fn spec_is_space(c: char) -> bool {
    let u = c as u32;
    ||| 0x09 <= u <= 0x0d
    ||| u == 0x20
    ||| u == 0x85
    ||| u == 0xa0
    ||| u == 0x1680
    ||| 0x2000 <= u <= 0x200a
    ||| u == 0x2028
    ||| u == 0x2029
    ||| u == 0x202f
    ||| u == 0x205f
    ||| u == 0x3000
}

/// Is `c` a Unicode whitespace character?
pub fn is_space(c: char) -> (b: bool)
    ensures
        b == spec_is_space(c),
{
    let u = c as u32;
    (0x09 <= u && u <= 0x0d) || u == 0x20 || u == 0x85 || u == 0xa0 || u == 0x1680 || (0x2000
        <= u && u <= 0x200a) || u == 0x2028 || u == 0x2029 || u == 0x202f || u == 0x205f || u
        == 0x3000
}

/// ASCII lowercase of one char; every other char is left as it is.
pub open spec fn spec_lower(c: char) -> char {
    if 'A' <= c && c <= 'Z' {
        ((c as u32) + 32) as char
    } else {
        c
    }
}

/// ASCII lowercase of a whole sequence.
pub open spec fn lower_seq(s: Seq<char>) -> Seq<char> {
    s.map_values(|c: char| spec_lower(c))
}

/// Equality up to ASCII case.
pub open spec fn eq_ignore_ascii_case(a: Seq<char>, b: Seq<char>) -> bool {
    lower_seq(a) == lower_seq(b)
}

pub fn lower_char(c: char) -> (r: char)
    ensures
        r == spec_lower(c),
{
    if 'A' <= c && c <= 'Z' {
        let u: u32 = (c as u32) + 32;
        (u as u8) as char
    } else {
        c
    }
}


/// The ASCII lowercase form of `v`.
pub fn lower_chars(v: &Vec<char>) -> (r: Vec<char>)
    ensures
        r@ == lower_seq(v@),
{
    let mut r: Vec<char> = Vec::new();
    let mut i: usize = 0;
    while i < v.len()
        invariant
            i <= v.len(),
            r@ == lower_seq(v@.take(i as int)),
        decreases v.len() - i,
    {
        r.push(lower_char(v[i]));
        i += 1;
        assert(lower_seq(v@.take(i as int)) =~= lower_seq(v@.take(i - 1)).push(spec_lower(v@[i - 1])));
    }
    assert(v@.take(v.len() as int) =~= v@);
    r
}

/// Are `a` and `b` the same sequence of chars?
pub fn chars_eq(a: &Vec<char>, b: &Vec<char>) -> (r: bool)
    ensures
        r == (a@ == b@),
{
    if a.len() != b.len() {
        return false;
    }
    let mut i: usize = 0;
    while i < a.len()
        invariant
            a.len() == b.len(),
            i <= a.len(),
            forall|j: int| 0 <= j < i ==> a@[j] == b@[j],
        decreases a.len() - i,
    {
        if a[i] != b[i] {
            return false;
        }
        i += 1;
    }
    assert(a@ =~= b@);
    true
}

/// Does `v` spell exactly the word `w`?
pub fn is_word(v: &Vec<char>, w: &str) -> (r: bool)
    ensures
        r == (v@ == w@),
{
    let wc = chars_of(w);
    chars_eq(v, &wc)
}

/// Are `a` and `b` equal up to ASCII case?
pub fn chars_eq_ignore_case(a: &Vec<char>, b: &Vec<char>) -> (r: bool)
    ensures
        r == eq_ignore_ascii_case(a@, b@),
{
    let la = lower_chars(a);
    let lb = lower_chars(b);
    chars_eq(&la, &lb)
}

/// Does `s` begin with `prefix`?
pub fn starts_with_chars(s: &Vec<char>, prefix: &Vec<char>) -> (r: bool)
    ensures
        r == prefix@.is_prefix_of(s@),
{
    if prefix.len() > s.len() {
        return false;
    }
    let mut i: usize = 0;
    while i < prefix.len()
        invariant
            prefix.len() <= s.len(),
            i <= prefix.len(),
            forall|j: int| 0 <= j < i ==> prefix@[j] == s@[j],
        decreases prefix.len() - i,
    {
        if prefix[i] != s[i] {
            return false;
        }
        i += 1;
    }
    true
}

/// Appends the chars of `s` to `out`.
pub fn push_str(out: &mut Vec<char>, s: &str)
    ensures
        final(out)@ == old(out)@ + s@,
{
    let cs = chars_of(s);
    let mut i: usize = 0;
    while i < cs.len()
        invariant
            i <= cs.len(),
            out@ == old(out)@ + cs@.take(i as int),
        decreases cs.len() - i,
    {
        out.push(cs[i]);
        i += 1;
        assert(cs@.take(i as int) =~= cs@.take(i - 1).push(cs@[i - 1]));
    }
    assert(cs@.take(cs.len() as int) =~= cs@);
}


/// The decimal digit for `d` (0 through 9).
pub open spec fn digit_char(d: nat) -> char {
    ((d + 48) as u32) as char
}

/// The decimal numeral of `n`, without leading zeros.
pub open spec fn decimal(n: nat) -> Seq<char>
    decreases n,
{
    if n < 10 {
        seq![digit_char(n)]
    } else {
        decimal(n / 10).push(digit_char(n % 10))
    }
}

/// Appends the decimal numeral of `n` to `out`.
pub fn push_decimal(out: &mut Vec<char>, n: usize)
    ensures
        final(out)@ == old(out)@ + decimal(n as nat),
    decreases n,
{
    if n >= 10 {
        push_decimal(out, n / 10);
    }
    let d: u32 = (n % 10) as u32;
    out.push(((d + 48) as u8) as char);
    assert(out@ =~= old(out)@ + decimal(n as nat));
}

pub open spec fn is_digit(c: char) -> bool {
    '0' <= c && c <= '9'
}

pub open spec fn digit_value(c: char) -> int {
    (c as int) - 48
}

/// The value of a numeral read in base ten.
pub open spec fn digits_value(s: Seq<char>) -> int
    decreases s.len(),
{
    if s.len() == 0 {
        0
    } else {
        digits_value(s.drop_last()) * 10 + digit_value(s.last())
    }
}

pub open spec fn all_digits(s: Seq<char>) -> bool {
    forall|i: int| 0 <= i < s.len() ==> is_digit(#[trigger] s[i])
}

/// The digits of an unsigned numeral: an optional leading `+` is dropped.
pub open spec fn unsigned_digits(s: Seq<char>) -> Seq<char> {
    if s.len() > 0 && s[0] == '+' {
        s.drop_first()
    } else {
        s
    }
}

/// What `str::parse::<u16>` gives: an optional `+` and then one or more ASCII
/// digits whose value fits in 16 bits.
pub open spec fn spec_parse_u16(s: Seq<char>) -> Option<u16> {
    let d = unsigned_digits(s);
    if d.len() > 0 && all_digits(d) && digits_value(d) <= 0xffff {
        Some(digits_value(d) as u16)
    } else {
        None
    }
}

proof fn lemma_digits_value_nonneg(s: Seq<char>)
    requires
        all_digits(s),
    ensures
        digits_value(s) >= 0,
    decreases s.len(),
{
    if s.len() > 0 {
        assert(is_digit(s[s.len() - 1]));
        lemma_digits_value_nonneg(s.drop_last());
    }
}

/// A numeral is worth at least as much as any of its prefixes.
proof fn lemma_digits_value_prefix(s: Seq<char>, k: int)
    requires
        all_digits(s),
        0 <= k <= s.len(),
    ensures
        digits_value(s.take(k)) <= digits_value(s),
    decreases s.len(),
{
    if k < s.len() {
        assert(is_digit(s[s.len() - 1]));
        lemma_digits_value_prefix(s.drop_last(), k);
        assert(s.drop_last().take(k) =~= s.take(k));
        lemma_digits_value_nonneg(s.drop_last());
    } else {
        assert(s.take(k) =~= s);
    }
}

/// Reads a status code the way `str::parse::<u16>` does.
pub fn parse_u16(s: &Vec<char>) -> (r: Option<u16>)
    ensures
        r == spec_parse_u16(s@),
{
    let start: usize = if s.len() > 0 && s[0] == '+' { 1 } else { 0 };
    let ghost d = unsigned_digits(s@);
    assert(d =~= s@.skip(start as int));
    if start >= s.len() {
        return None;
    }
    let mut acc: u32 = 0;
    let mut i: usize = start;
    while i < s.len()
        invariant
            start <= i <= s.len(),
            d == s@.skip(start as int),
            d == unsigned_digits(s@),
            all_digits(d.take(i - start)),
            acc as int == digits_value(d.take(i - start)),
            acc <= 0xffff,
        decreases s.len() - i,
    {
        let c = s[i];
        if !('0' <= c && c <= '9') {
            assert(!is_digit(d[i - start]));
            assert(!all_digits(d));
            return None;
        }
        let v: u32 = (c as u32) - 48;
        acc = acc * 10 + v;
        i += 1;
        assert(d.take(i - start).drop_last() =~= d.take(i - 1 - start));
        assert(d.take(i - start).last() == c);
        assert(all_digits(d.take(i - start)));
        assert(acc as int == digits_value(d.take(i - start)));
        if acc > 0xffff {
            proof {
                if all_digits(d) {
                    lemma_digits_value_prefix(d, i - start);
                    assert(digits_value(d) > 0xffff);
                }
                assert(spec_parse_u16(s@) is None);
            }
            return None;
        }
    }
    assert(d.take(i - start) =~= d);
    Some(acc as u16)
}


/// Where the line that starts at `i` ends: the index of the next `'\n'`, or
/// the length of `s` when there is none.
pub open spec fn line_end(s: Seq<char>, i: int) -> int
    decreases s.len() - i,
{
    if i >= s.len() || s[i] == '\n' {
        i
    } else {
        line_end(s, i + 1)
    }
}

pub proof fn lemma_line_end(s: Seq<char>, i: int)
    requires
        0 <= i <= s.len(),
    ensures
        i <= line_end(s, i) <= s.len(),
        line_end(s, i) < s.len() ==> s[line_end(s, i)] == '\n',
        forall|j: int| i <= j < line_end(s, i) ==> s[j] != '\n',
    decreases s.len() - i,
{
    if i < s.len() && s[i] != '\n' {
        lemma_line_end(s, i + 1);
    }
}

/// A line ended by `"\r\n"` loses its `'\r'` too.
pub open spec fn strip_cr(l: Seq<char>) -> Seq<char> {
    if l.len() > 0 && l.last() == '\r' {
        l.drop_last()
    } else {
        l
    }
}

/// The lines of `s` from index `i` on, as `str::lines` gives them: split at
/// `"\n"` or `"\r\n"`, terminators dropped, and a final terminator optional.
pub open spec fn lines_from(s: Seq<char>, i: int) -> Seq<Seq<char>>
    decreases s.len() - i,
{
    if i < 0 || i >= s.len() {
        seq![]
    } else {
        let e = line_end(s, i);
        proof {
            lemma_line_end(s, i);
        }
        if e < s.len() {
            seq![strip_cr(s.subrange(i, e))] + lines_from(s, e + 1)
        } else {
            seq![s.subrange(i, e)]
        }
    }
}

/// The lines of `s`.
pub open spec fn lines(s: Seq<char>) -> Seq<Seq<char>> {
    lines_from(s, 0)
}

/// The line of `s` that starts at `i`, and where the next line starts.
pub fn next_line(s: &Vec<char>, i: usize) -> (r: (Vec<char>, usize))
    requires
        i < s.len(),
    ensures
        i < r.1 <= s.len(),
        lines_from(s@, i as int) == seq![r.0@] + lines_from(s@, r.1 as int),
{
    proof {
        lemma_line_end(s@, i as int);
    }
    let mut line: Vec<char> = Vec::new();
    let mut j: usize = i;
    while j < s.len() && s[j] != '\n'
        invariant
            i <= j <= line_end(s@, i as int),
            line_end(s@, i as int) <= s.len(),
            line@ == s@.subrange(i as int, j as int),
            forall|k: int| i <= k < j ==> s@[k] != '\n',
            line_end(s@, i as int) < s.len() ==> s@[line_end(s@, i as int)] == '\n',
        decreases s.len() - j,
    {
        line.push(s[j]);
        j += 1;
        assert(line@ =~= s@.subrange(i as int, j as int));
    }
    assert(j == line_end(s@, i as int));
    if j < s.len() {
        let n = line.len();
        if n > 0 && line[n - 1] == '\r' {
            line.pop();
        }
        (line, j + 1)
    } else {
        proof {
            assert(lines_from(s@, j as int) =~= Seq::<Seq<char>>::empty());
        }
        (line, j)
    }
}


/// Lines do not see what precedes their start: reading `p + q` from inside `q`
/// reads `q`.
pub proof fn lemma_lines_from_suffix(p: Seq<char>, q: Seq<char>, j: int)
    requires
        0 <= j,
    ensures
        lines_from(p + q, p.len() + j) == lines_from(q, j),
    decreases q.len() - j,
{
    let s = p + q;
    if j < q.len() {
        lemma_line_end_suffix(p, q, j);
        lemma_line_end(q, j);
        let e = line_end(q, j);
        assert(s.subrange(p.len() + j, p.len() + e) =~= q.subrange(j, e));
        if e < q.len() {
            lemma_lines_from_suffix(p, q, e + 1);
        }
    }
}

proof fn lemma_line_end_suffix(p: Seq<char>, q: Seq<char>, j: int)
    requires
        0 <= j <= q.len(),
    ensures
        line_end(p + q, p.len() + j) == p.len() + line_end(q, j),
    decreases q.len() - j,
{
    if j < q.len() && q[j] != '\n' {
        lemma_line_end_suffix(p, q, j + 1);
    }
}

/// A line of `a` that ends inside `a` ends at the same place in `a + b`.
proof fn lemma_line_end_prefix(a: Seq<char>, b: Seq<char>, i: int)
    requires
        0 <= i <= a.len(),
        line_end(a, i) < a.len(),
    ensures
        line_end(a + b, i) == line_end(a, i),
    decreases a.len() - i,
{
    if i < a.len() && a[i] != '\n' {
        lemma_line_end_prefix(a, b, i + 1);
    }
}

proof fn lemma_lines_from_concat(a: Seq<char>, b: Seq<char>, i: int)
    requires
        0 <= i < a.len(),
        a.last() == '\n',
    ensures
        lines_from(a + b, i) == lines_from(a, i) + lines(b),
    decreases a.len() - i,
{
    let s = a + b;
    lemma_line_end(a, i);
    let e = line_end(a, i);
    if e == a.len() {
        assert(a[a.len() - 1] != '\n');
    }
    lemma_line_end_prefix(a, b, i);
    assert(s.subrange(i, e) =~= a.subrange(i, e));
    if e + 1 < a.len() {
        lemma_lines_from_concat(a, b, e + 1);
        assert(seq![strip_cr(a.subrange(i, e))] + (lines_from(a, e + 1) + lines(b)) =~= seq![
            strip_cr(a.subrange(i, e)),
        ] + lines_from(a, e + 1) + lines(b));
    } else {
        lemma_lines_from_suffix(a, b, 0);
        assert(lines_from(a, e + 1) =~= Seq::<Seq<char>>::empty());
        assert(seq![strip_cr(a.subrange(i, e))] + lines(b) =~= seq![strip_cr(a.subrange(i, e))]
            + Seq::<Seq<char>>::empty() + lines(b));
    }
}

/// The lines of `a + b` are those of `a` followed by those of `b` when `a` is
/// a block of whole lines (empty, or ending in `'\n'`), or `b` is empty.
pub proof fn lines_of_concat(a: Seq<char>, b: Seq<char>)
    requires
        a.len() == 0 || a.last() == '\n' || b.len() == 0,
    ensures
        lines(a + b) == lines(a) + lines(b),
{
    if b.len() == 0 {
        assert(a + b =~= a);
        assert(lines(b) =~= Seq::<Seq<char>>::empty());
        assert(lines(a) + lines(b) =~= lines(a));
    } else if a.len() == 0 {
        assert(a + b =~= b);
        assert(lines(a) =~= Seq::<Seq<char>>::empty());
        assert(lines(a) + lines(b) =~= lines(b));
    } else {
        lemma_lines_from_concat(a, b, 0);
    }
}


/// Within `a`, a line of `a + "\n" + b` ends where it ends in `a`; a line
/// that runs to the end of `a` ends at the added newline.
proof fn lemma_line_end_join(a: Seq<char>, b: Seq<char>, i: int)
    requires
        0 <= i <= a.len(),
    ensures
        line_end(a + seq!['\n'] + b, i) == line_end(a, i),
    decreases a.len() - i,
{
    if i < a.len() && a[i] != '\n' {
        lemma_line_end_join(a, b, i + 1);
    }
}

/// A sequence of lines with `'\r'` dropped from the end of its last line.
pub open spec fn strip_last_cr(ls: Seq<Seq<char>>) -> Seq<Seq<char>> {
    ls.drop_last().push(strip_cr(ls.last()))
}

proof fn lemma_lines_from_join(a: Seq<char>, b: Seq<char>, i: int)
    requires
        0 <= i < a.len(),
        a.last() != '\n',
    ensures
        lines_from(a, i).len() > 0,
        lines_from(a + seq!['\n'] + b, i) == strip_last_cr(lines_from(a, i)) + lines(b),
    decreases a.len() - i,
{
    let s = a + seq!['\n'] + b;
    lemma_line_end_join(a, b, i);
    lemma_line_end(a, i);
    let e = line_end(a, i);
    assert(s.subrange(i, e) =~= a.subrange(i, e));
    if e < a.len() {
        if e + 1 == a.len() {
            assert(a[e] == a.last());
        }
        lemma_lines_from_join(a, b, e + 1);
        let x = strip_cr(a.subrange(i, e));
        let t = lines_from(a, e + 1);
        assert(lines_from(a, i) == seq![x] + t);
        assert(strip_last_cr(seq![x] + t) =~= seq![x] + strip_last_cr(t));
        assert(seq![x] + (strip_last_cr(t) + lines(b)) =~= seq![x] + strip_last_cr(t) + lines(b));
    } else {
        assert(s =~= (a + seq!['\n']) + b);
        lemma_lines_from_suffix(a + seq!['\n'], b, 0);
        assert(lines_from(a, i) == seq![a.subrange(i, e)]);
        assert(strip_last_cr(seq![a.subrange(i, e)]) =~= seq![strip_cr(a.subrange(i, e))]);
    }
}

/// Joining `a` to `b` with a newline, when `a` ends inside a line, gives the
/// lines of `a` (its last line without a final `'\r'`, which the newline now
/// ends) followed by the lines of `b`.
pub proof fn lines_of_newline_join(a: Seq<char>, b: Seq<char>)
    requires
        a.len() > 0,
        a.last() != '\n',
    ensures
        lines(a).len() > 0,
        lines(a + seq!['\n'] + b) == strip_last_cr(lines(a)) + lines(b),
{
    lemma_lines_from_join(a, b, 0);
}

/// A text that starts with a newline has an empty first line.
pub proof fn lines_after_newline(b: Seq<char>)
    ensures
        lines(seq!['\n'] + b) == seq![Seq::<char>::empty()] + lines(b),
{
    let s = seq!['\n'] + b;
    assert(line_end(s, 0) == 0);
    assert(s.subrange(0, 0) =~= Seq::<char>::empty());
    lemma_lines_from_suffix(seq!['\n'], b, 0);
}

} // verus!
