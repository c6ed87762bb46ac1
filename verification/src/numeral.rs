//! The decimal numerals that Rust's parser of binary floating-point numbers
//! accepts, as its documentation writes their grammar (ignoring ASCII case):
//! an optional sign, then `inf`, `infinity`, `nan`, or digits with at most
//! one decimal point and at least one digit, followed by an optional
//! exponent `e`, an optional sign and one or more digits.
use vstd::prelude::*;

verus! {

/// ASCII lower-casing of one character.
pub open spec fn ascii_lower(c: char) -> char {
    if 'A' <= c && c <= 'Z' { ((c as int) + 32) as char } else { c }
}

/// An ASCII digit.
pub open spec fn is_digit(c: char) -> bool {
    '0' <= c && c <= '9'
}

/// Positions `i` up to `j` of `s` hold digits.
pub open spec fn digits_between(s: Seq<char>, i: int, j: int) -> bool {
    forall|k: int| i <= k < j ==> is_digit(#[trigger] s[k])
}

/// The first position at or after `k` holding `a` or `b` (or the length).
pub open spec fn first_of(s: Seq<char>, k: int, a: char, b: char) -> int
    decreases s.len() - k,
{
    if k < 0 || k >= s.len() {
        s.len() as int
    } else if s[k] == a || s[k] == b {
        k
    } else {
        first_of(s, k + 1, a, b)
    }
}

/// `s` is the lower-case word `w` up to ASCII case.
pub open spec fn word_is(s: Seq<char>, w: Seq<char>) -> bool {
    s.len() == w.len() && forall|i: int| 0 <= i < s.len() ==> ascii_lower(#[trigger] s[i]) == w[i]
}

/// `b` is digits with at most one point and at least one digit, then an
/// optional exponent.
pub open spec fn number_ok(b: Seq<char>) -> bool {
    let e = first_of(b, 0, 'e', 'E');
    let dot = first_of(b, 0, '.', '.');
    let mantissa = if dot < e {
        digits_between(b, 0, dot) && digits_between(b, dot + 1, e) && e >= 2
    } else {
        digits_between(b, 0, e) && e >= 1
    };
    let exponent = if e == b.len() {
        true
    } else {
        let s0 = if e + 1 < b.len() && (b[e + 1] == '+' || b[e + 1] == '-') { e + 2 } else { e + 1 };
        s0 < b.len() && digits_between(b, s0, b.len() as int)
    };
    mantissa && exponent
}

/// Whether the parser of binary floating-point numbers accepts `s`.
pub open spec fn numeral_ok(s: Seq<char>) -> bool {
    let b = if s.len() > 0 && (s[0] == '+' || s[0] == '-') { s.drop_first() } else { s };
    word_is(b, seq!['i', 'n', 'f']) || word_is(b, seq!['i', 'n', 'f', 'i', 'n', 'i', 't', 'y']) || word_is(
        b,
        seq!['n', 'a', 'n'],
    ) || number_ok(b)
}

/// The parser's message for a string it refuses: one for the empty string,
/// one for anything else.
pub open spec fn numeral_error(s: Seq<char>) -> Seq<char> {
    if s.len() == 0 {
        seq![
            'c', 'a', 'n', 'n', 'o', 't', ' ', 'p', 'a', 'r', 's', 'e', ' ', 'f', 'l', 'o', 'a', 't', ' ', 'f',
            'r', 'o', 'm', ' ', 'e', 'm', 'p', 't', 'y', ' ', 's', 't', 'r', 'i', 'n', 'g',
        ]
    } else {
        seq!['i', 'n', 'v', 'a', 'l', 'i', 'd', ' ', 'f', 'l', 'o', 'a', 't', ' ', 'l', 'i', 't', 'e', 'r', 'a', 'l']
    }
}

fn is_digit_exec(c: char) -> (b: bool)
    ensures
        b == is_digit(c),
{
    '0' <= c && c <= '9'
}

/// Whether positions `i` up to `j` of `s` hold digits.
fn digits_between_exec(s: &[char], i: usize, j: usize) -> (b: bool)
    requires
        j <= s.len(),
    ensures
        b == digits_between(s@, i as int, j as int),
{
    let mut k = i;
    while k < j
        invariant
            j <= s@.len(),
            i <= k || j <= k,
            forall|t: int| i <= t < k ==> is_digit(#[trigger] s@[t]),
        decreases j - k,
    {
        if !is_digit_exec(s[k]) {
            return false;
        }
        k = k + 1;
    }
    true
}

/// The first position at or after `k` holding `a` or `b` (or the length).
fn first_of_exec(s: &[char], k: usize, a: char, b: char) -> (r: usize)
    ensures
        r == first_of(s@, k as int, a, b),
{
    let mut i = k;
    while i < s.len() && s[i] != a && s[i] != b
        invariant
            k <= i,
            first_of(s@, k as int, a, b) == first_of(s@, i as int, a, b),
        decreases s.len() - i,
    {
        i = i + 1;
    }
    if i >= s.len() {
        s.len()
    } else {
        i
    }
}

/// Whether `s` from position `start` on is the lower-case word `w` up to
/// ASCII case.
fn word_is_exec(s: &[char], start: usize, w: &[char]) -> (r: bool)
    requires
        start <= s.len(),
        forall|i: int| 0 <= i < w.len() ==> 'a' <= #[trigger] w@[i] && w@[i] <= 'z',
    ensures
        r == word_is(s@.skip(start as int), w@),
{
    let ghost b = s@.skip(start as int);
    let sl = s.len();
    if sl - start != w.len() {
        return false;
    }
    let mut i: usize = 0;
    while i < w.len()
        invariant
            start <= s@.len(),
            b == s@.skip(start as int),
            b.len() == w@.len(),
            s@.len() - start == w@.len(),
            sl == s@.len(),
            forall|t: int| 0 <= t < w@.len() ==> 'a' <= #[trigger] w@[t] && w@[t] <= 'z',
            i <= w@.len(),
            forall|t: int| 0 <= t < i ==> ascii_lower(#[trigger] b[t]) == w@[t],
        decreases w@.len() - i,
    {
        let at = start + i;
        let c = s[at];
        let l = w[i];
        assert(b[i as int] == c);
        let same = c == l || ('A' <= c && c <= 'Z' && (c as u32) + 32 == (l as u32));
        if !same {
            return false;
        }
        i = i + 1;
    }
    true
}

/// Whether the parser of binary floating-point numbers accepts `s`.
pub fn numeral_ok_exec(s: &[char]) -> (r: bool)
    ensures
        r == numeral_ok(s@),
{
    let start: usize = if s.len() > 0 && (s[0] == '+' || s[0] == '-') { 1 } else { 0 };
    let ghost b = if s@.len() > 0 && (s@[0] == '+' || s@[0] == '-') { s@.drop_first() } else { s@ };
    assert(b =~= s@.skip(start as int));
    let inf: Vec<char> = vec!['i', 'n', 'f'];
    let infinity: Vec<char> = vec!['i', 'n', 'f', 'i', 'n', 'i', 't', 'y'];
    let nan: Vec<char> = vec!['n', 'a', 'n'];
    assert(inf@ =~= seq!['i', 'n', 'f']);
    assert(infinity@ =~= seq!['i', 'n', 'f', 'i', 'n', 'i', 't', 'y']);
    assert(nan@ =~= seq!['n', 'a', 'n']);
    if word_is_exec(s, start, inf.as_slice()) || word_is_exec(s, start, infinity.as_slice()) || word_is_exec(
        s,
        start,
        nan.as_slice(),
    ) {
        return true;
    }
    let mut body: Vec<char> = Vec::new();
    let mut i = start;
    while i < s.len()
        invariant
            start <= i <= s@.len(),
            body@ == s@.subrange(start as int, i as int),
        decreases s@.len() - i,
    {
        body.push(s[i]);
        i = i + 1;
    }
    assert(body@ =~= b);
    let bs = body.as_slice();
    let n = bs.len();
    let e = first_of_exec(bs, 0, 'e', 'E');
    let dot = first_of_exec(bs, 0, '.', '.');
    proof {
        lemma_first_of_bound(b, 0, 'e', 'E');
        lemma_first_of_bound(b, 0, '.', '.');
    }
    let mantissa = if dot < e {
        digits_between_exec(bs, 0, dot) && digits_between_exec(bs, dot + 1, e) && e >= 2
    } else {
        digits_between_exec(bs, 0, e) && e >= 1
    };
    let exponent = if e == n {
        true
    } else {
        let s0 = if e + 1 < n && (bs[e + 1] == '+' || bs[e + 1] == '-') { e + 2 } else { e + 1 };
        s0 < n && digits_between_exec(bs, s0, n)
    };
    mantissa && exponent
}

proof fn lemma_first_of_bound(s: Seq<char>, k: int, a: char, b: char)
    requires
        0 <= k,
    ensures
        k <= first_of(s, k, a, b) <= s.len() || (k > s.len() && first_of(s, k, a, b) == s.len()),
        first_of(s, k, a, b) <= s.len(),
    decreases s.len() - k,
{
    if k < s.len() && !(s[k] == a || s[k] == b) {
        lemma_first_of_bound(s, k + 1, a, b);
    }
}

/// The parser's message for a string it refuses (see `numeral_error`).
pub fn numeral_error_exec(s: &[char]) -> (m: Vec<char>)
    ensures
        m@ == numeral_error(s@),
{
    if s.len() == 0 {
        let v = vec![
            'c', 'a', 'n', 'n', 'o', 't', ' ', 'p', 'a', 'r', 's', 'e', ' ', 'f', 'l', 'o', 'a', 't', ' ', 'f',
            'r', 'o', 'm', ' ', 'e', 'm', 'p', 't', 'y', ' ', 's', 't', 'r', 'i', 'n', 'g',
        ];
        assert(v@ =~= numeral_error(s@));
        v
    } else {
        let v = vec!['i', 'n', 'v', 'a', 'l', 'i', 'd', ' ', 'f', 'l', 'o', 'a', 't', ' ', 'l', 'i', 't', 'e', 'r', 'a', 'l'];
        assert(v@ =~= numeral_error(s@));
        v
    }
}

} // verus!
