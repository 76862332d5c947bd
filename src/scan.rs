use vstd::prelude::*;
use vstd::string::StrSliceExecFns;

verus! {

/// Where a text stops matching its grammar: the char index, what was expected
/// there, and the character found there (`None` at the end of the text).
#[derive(PartialEq, Eq, Debug)]
pub struct SyntaxError {
    pub pos: usize,
    pub expected: String,
    pub found: Option<char>,
}

/// The character classes that the parsers consume runs of.
pub enum CharClass {
    Whitespace,
    /// ASCII letters and digits (HTML names).
    Alnum,
    /// ASCII letters, digits, `-` and `_` (CSS identifiers).
    Ident,
    /// Anything but `<` (HTML text).
    NotLt,
    /// Anything but the given quote character.
    NotQuote(char),
    /// ASCII digits and `.` (CSS numbers).
    Numeric,
}

/// The Unicode `White_Space` property, as `char::is_whitespace` tests it.
pub open spec fn is_whitespace(c: char) -> bool {
    let u = c as u32;
    (9 <= u && u <= 13) || u == 32 || u == 0x85 || u == 0xa0 || u == 0x1680 || (0x2000 <= u
        && u <= 0x200a) || u == 0x2028 || u == 0x2029 || u == 0x202f || u == 0x205f || u == 0x3000
}

pub open spec fn is_digit(c: char) -> bool {
    '0' <= c && c <= '9'
}

pub open spec fn is_alnum(c: char) -> bool {
    ('a' <= c && c <= 'z') || ('A' <= c && c <= 'Z') || is_digit(c)
}

pub open spec fn is_ident_char(c: char) -> bool {
    is_alnum(c) || c == '-' || c == '_'
}

impl CharClass {
    pub open spec fn holds(self, c: char) -> bool {
        match self {
            CharClass::Whitespace => is_whitespace(c),
            CharClass::Alnum => is_alnum(c),
            CharClass::Ident => is_ident_char(c),
            CharClass::NotLt => c != '<',
            CharClass::NotQuote(q) => c != q,
            CharClass::Numeric => is_digit(c) || c == '.',
        }
    }

    pub fn test(&self, c: char) -> (r: bool)
        ensures
            r == self.holds(c),
    {
        match self {
            CharClass::Whitespace => {
                let u = c as u32;
                (9 <= u && u <= 13) || u == 32 || u == 0x85 || u == 0xa0 || u == 0x1680 || (0x2000
                    <= u && u <= 0x200a) || u == 0x2028 || u == 0x2029 || u == 0x202f || u
                    == 0x205f || u == 0x3000
            },
            CharClass::Alnum => ('a' <= c && c <= 'z') || ('A' <= c && c <= 'Z') || ('0' <= c && c
                <= '9'),
            CharClass::Ident => ('a' <= c && c <= 'z') || ('A' <= c && c <= 'Z') || ('0' <= c && c
                <= '9') || c == '-' || c == '_',
            CharClass::NotLt => c != '<',
            CharClass::NotQuote(q) => c != *q,
            CharClass::Numeric => ('0' <= c && c <= '9') || c == '.',
        }
    }
}

/// Length of the longest run of characters of class `k` starting at `p`.
pub open spec fn run(s: Seq<char>, p: int, k: CharClass) -> nat
    decreases s.len() - p,
{
    if 0 <= p < s.len() && k.holds(s[p]) {
        1 + run(s, p + 1, k)
    } else {
        0
    }
}

/// The text `t` stands in `s` at position `p`.
pub open spec fn at(s: Seq<char>, p: int, t: Seq<char>) -> bool {
    0 <= p && p + t.len() <= s.len() && s.subrange(p, p + t.len()) == t
}

/// The character `c` stands in `s` at position `p`.
pub open spec fn char_is(s: Seq<char>, p: int, c: char) -> bool {
    0 <= p < s.len() && s[p] == c
}

pub proof fn lemma_run_bound(s: Seq<char>, p: int, k: CharClass)
    requires
        0 <= p <= s.len(),
    ensures
        p + run(s, p, k) <= s.len(),
        forall|i: int| p <= i < p + run(s, p, k) ==> k.holds(#[trigger] s[i]),
        p + run(s, p, k) < s.len() ==> !k.holds(s[p + run(s, p, k)]),
    decreases s.len() - p,
{
    if p < s.len() && k.holds(s[p]) {
        lemma_run_bound(s, p + 1, k);
    }
}

pub proof fn lemma_run_stops(s: Seq<char>, p: int, k: CharClass)
    requires
        0 <= p <= s.len(),
    ensures
        run(s, p + run(s, p, k), k) == 0,
{
    lemma_run_bound(s, p, k);
}

/// The character of `s` at char index `i`.
pub fn char_at(s: &String, i: usize) -> (c: char)
    requires
        i < s@.len(),
    ensures
        c == s@[i as int],
{
    s.as_str().get_char(i)
}

/// Number of chars in `s`.
pub fn char_len(s: &String) -> (n: usize)
    ensures
        n == s@.len(),
{
    s.as_str().unicode_len()
}

/// Index one past the run of class `k` that starts at `start`.
pub fn scan_while(s: &String, len: usize, start: usize, k: &CharClass) -> (end: usize)
    requires
        len == s@.len(),
        start <= len,
    ensures
        end == start + run(s@, start as int, *k),
        end <= len,
{
    let mut i: usize = start;
    proof {
        lemma_run_bound(s@, start as int, *k);
    }
    while i < len && k.test(char_at(s, i))
        invariant
            len == s@.len(),
            start <= i <= len,
            run(s@, start as int, *k) == (i - start) + run(s@, i as int, *k),
        decreases len - i,
    {
        i = i + 1;
    }
    i
}

/// Whether the text `t` stands in `s` at char index `p`.
pub fn text_at(s: &String, len: usize, p: usize, t: &str) -> (r: bool)
    requires
        len == s@.len(),
        p <= len,
    ensures
        r == at(s@, p as int, t@),
{
    let tl = t.unicode_len();
    if tl > len - p {
        return false;
    }
    let mut j: usize = 0;
    while j < tl
        invariant
            tl == t@.len(),
            p + tl <= len,
            len == s@.len(),
            j <= tl,
            forall|m: int| 0 <= m < j ==> s@[p + m] == t@[m],
        decreases tl - j,
    {
        if char_at(s, p + j) != t.get_char(j) {
            assert(s@.subrange(p as int, p + tl)[j as int] != t@[j as int]);
            return false;
        }
        j = j + 1;
    }
    assert(s@.subrange(p as int, p + tl) =~= t@);
    true
}

/// The chars of `s` from `from` up to `to`, as a new string.
pub fn substring(s: &String, from: usize, to: usize) -> (r: String)
    requires
        from <= to <= s@.len(),
    ensures
        r@ == s@.subrange(from as int, to as int),
{
    s.as_str().substring_char(from, to).to_owned()
}

} // verus!
