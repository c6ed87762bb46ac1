//! Small verified text utilities: character sequences, whitespace trimming,
//! splitting, decimal numbers, and the lower-casing of identifiers.
use vstd::prelude::*;

verus! {

/// The characters of `s`, in order.
pub fn chars_of(s: &str) -> (v: Vec<char>)
    ensures
        v@ == s@,
{
    let mut v: Vec<char> = Vec::new();
    for c in it: s.chars()
        invariant
            v@ == it.seq().take(it.index() as int),
            it.seq() == s@,
    {
        v.push(c);
    }
    v
}

/// Appends `c` to `s` (`String::push`).
#[verifier::external_body]
fn push_char(s: &mut String, c: char)
    ensures
        final(s)@ == old(s)@.push(c),
{
    s.push(c);
}

/// A string holding the characters of `v`.
pub fn string_of(v: &[char]) -> (s: String)
    ensures
        s@ == v@,
{
    let mut s = String::new();
    let mut i: usize = 0;
    while i < v.len()
        invariant
            i <= v@.len(),
            s@ == v@.take(i as int),
        decreases v@.len() - i,
    {
        push_char(&mut s, v[i]);
        proof {
            assert(v@.take(i as int).push(v@[i as int]) =~= v@.take(i + 1));
        }
        i = i + 1;
    }
    proof {
        assert(v@.take(v@.len() as int) =~= v@);
    }
    s
}


/// Unicode `White_Space` characters (what `char::is_whitespace` accepts).
pub open spec fn is_space(c: char) -> bool {
    ||| ('\u{9}' <= c && c <= '\u{d}')
    ||| c == ' '
    ||| c == '\u{85}'
    ||| c == '\u{a0}'
    ||| c == '\u{1680}'
    ||| ('\u{2000}' <= c && c <= '\u{200a}')
    ||| c == '\u{2028}'
    ||| c == '\u{2029}'
    ||| c == '\u{202f}'
    ||| c == '\u{205f}'
    ||| c == '\u{3000}'
}

/// Whether `c` is whitespace.
pub fn is_space_char(c: char) -> (b: bool)
    ensures
        b == is_space(c),
{
    ('\u{9}' <= c && c <= '\u{d}') || c == ' ' || c == '\u{85}' || c == '\u{a0}' || c == '\u{1680}' || (
    '\u{2000}' <= c && c <= '\u{200a}') || c == '\u{2028}' || c == '\u{2029}' || c == '\u{202f}' || c
        == '\u{205f}' || c == '\u{3000}'
}

/// `s` without leading whitespace.
pub open spec fn trim_start(s: Seq<char>) -> Seq<char>
    decreases s.len(),
{
    if s.len() > 0 && is_space(s[0]) {
        trim_start(s.drop_first())
    } else {
        s
    }
}

/// `s` without trailing whitespace.
pub open spec fn trim_end(s: Seq<char>) -> Seq<char>
    decreases s.len(),
{
    if s.len() > 0 && is_space(s.last()) {
        trim_end(s.drop_last())
    } else {
        s
    }
}

/// `s` without leading or trailing whitespace.
pub open spec fn trim(s: Seq<char>) -> Seq<char> {
    trim_end(trim_start(s))
}

/// Dropping the first `k` characters, all whitespace, trims the same.
proof fn lemma_trim_start_skip(s: Seq<char>, k: int)
    requires
        0 <= k <= s.len(),
        forall|j: int| 0 <= j < k ==> is_space(#[trigger] s[j]),
    ensures
        trim_start(s) == trim_start(s.skip(k)),
    decreases k,
{
    if k > 0 {
        assert(s.skip(1) =~= s.drop_first());
        lemma_trim_start_skip(s.drop_first(), k - 1);
        assert(s.drop_first().skip(k - 1) =~= s.skip(k));
    } else {
        assert(s.skip(0) =~= s);
    }
}

/// Dropping the last characters, all whitespace, trims the same.
proof fn lemma_trim_end_take(s: Seq<char>, k: int)
    requires
        0 <= k <= s.len(),
        forall|j: int| k <= j < s.len() ==> is_space(#[trigger] s[j]),
    ensures
        trim_end(s) == trim_end(s.take(k)),
    decreases s.len() - k,
{
    if k < s.len() {
        lemma_trim_end_take(s.drop_last(), k);
        assert(s.drop_last().take(k) =~= s.take(k));
    } else {
        assert(s.take(k) =~= s);
    }
}

/// `v` without leading or trailing whitespace (`str::trim`).
pub fn trim_chars(v: &[char]) -> (t: Vec<char>)
    ensures
        t@ == trim(v@),
{
    let mut start: usize = 0;
    while start < v.len() && is_space_char(v[start])
        invariant
            start <= v@.len(),
            forall|j: int| 0 <= j < start ==> is_space(#[trigger] v@[j]),
        decreases v@.len() - start,
    {
        start = start + 1;
    }
    proof {
        lemma_trim_start_skip(v@, start as int);
        let r = v@.skip(start as int);
        if r.len() > 0 {
            assert(r[0] == v@[start as int]);
        }
    }
    let mut end: usize = v.len();
    while end > start && is_space_char(v[end - 1])
        invariant
            start <= end <= v@.len(),
            forall|j: int| end <= j < v@.len() ==> is_space(#[trigger] v@[j]),
        decreases end,
    {
        end = end - 1;
    }
    let ghost r = v@.skip(start as int);
    proof {
        lemma_trim_end_take(r, end - start);
        let q = r.take(end - start);
        if q.len() > 0 {
            assert(q.last() == v@[end - 1]);
        }
    }
    let mut t: Vec<char> = Vec::new();
    let mut i = start;
    while i < end
        invariant
            start <= i <= end <= v@.len(),
            t@ == v@.subrange(start as int, i as int),
        decreases end - i,
    {
        t.push(v[i]);
        proof {
            assert(v@.subrange(start as int, i as int).push(v@[i as int]) =~= v@.subrange(
                start as int,
                i + 1,
            ));
        }
        i = i + 1;
    }
    proof {
        assert(t@ =~= r.take(end - start));
    }
    t
}

/// The pieces finished, and the piece in progress, after reading `s` and
/// cutting at each `sep`.
pub open spec fn split_state(s: Seq<char>, sep: char) -> (Seq<Seq<char>>, Seq<char>)
    decreases s.len(),
{
    if s.len() == 0 {
        (Seq::empty(), Seq::empty())
    } else {
        let (done, cur) = split_state(s.drop_last(), sep);
        if s.last() == sep {
            (done.push(cur), Seq::empty())
        } else {
            (done, cur.push(s.last()))
        }
    }
}

/// The pieces of `s` between the occurrences of `sep` (`str::split` with a
/// character): always at least one piece.
pub open spec fn split(s: Seq<char>, sep: char) -> Seq<Seq<char>> {
    split_state(s, sep).0.push(split_state(s, sep).1)
}

/// The pieces of `v` between the occurrences of `sep`.
pub fn split_chars(v: &[char], sep: char) -> (parts: Vec<Vec<char>>)
    ensures
        parts@.len() == split(v@, sep).len(),
        forall|i: int| 0 <= i < parts@.len() ==> (#[trigger] parts@[i])@ == split(v@, sep)[i],
{
    let mut parts: Vec<Vec<char>> = Vec::new();
    let mut cur: Vec<char> = Vec::new();
    let mut i: usize = 0;
    while i < v.len()
        invariant
            i <= v@.len(),
            parts@.len() == split_state(v@.take(i as int), sep).0.len(),
            forall|j: int|
                0 <= j < parts@.len() ==> (#[trigger] parts@[j])@ == split_state(v@.take(i as int), sep).0[j],
            cur@ == split_state(v@.take(i as int), sep).1,
        decreases v@.len() - i,
    {
        proof {
            assert(v@.take(i + 1).drop_last() =~= v@.take(i as int));
            assert(v@.take(i + 1).last() == v@[i as int]);
        }
        if v[i] == sep {
            let done = cur;
            parts.push(done);
            cur = Vec::new();
        } else {
            cur.push(v[i]);
        }
        i = i + 1;
    }
    proof {
        assert(v@.take(v@.len() as int) =~= v@);
    }
    parts.push(cur);
    parts
}

/// The character of a decimal digit.
pub open spec fn digit_char(d: nat) -> char {
    if d == 0 { '0' } else if d == 1 { '1' } else if d == 2 { '2' } else if d == 3 { '3' } else if d == 4 {
        '4'
    } else if d == 5 { '5' } else if d == 6 { '6' } else if d == 7 { '7' } else if d == 8 { '8' } else {
        '9'
    }
}

/// The decimal digits of `n`, most significant first, without leading zeros.
pub open spec fn decimal(n: nat) -> Seq<char>
    decreases n,
{
    if n < 10 {
        seq![digit_char(n)]
    } else {
        decimal(n / 10).push(digit_char(n % 10))
    }
}

pub fn digit_to_char(d: usize) -> (c: char)
    requires
        d < 10,
    ensures
        c == digit_char(d as nat),
{
    if d == 0 { '0' } else if d == 1 { '1' } else if d == 2 { '2' } else if d == 3 { '3' } else if d == 4 {
        '4'
    } else if d == 5 { '5' } else if d == 6 { '6' } else if d == 7 { '7' } else if d == 8 { '8' } else {
        '9'
    }
}

/// The decimal digits of `n`.
pub fn decimal_chars(n: usize) -> (v: Vec<char>)
    ensures
        v@ == decimal(n as nat),
    decreases n,
{
    if n < 10 {
        let mut v: Vec<char> = Vec::new();
        v.push(digit_to_char(n));
        proof {
            assert(v@ =~= seq![digit_char(n as nat)]);
        }
        v
    } else {
        let mut v = decimal_chars(n / 10);
        v.push(digit_to_char(n % 10));
        v
    }
}

/// The value of a decimal digit character.
pub open spec fn digit_value(c: char) -> nat {
    (c as int - '0' as int) as nat
}

/// Whether every character of `s` is an ASCII digit.
pub open spec fn all_digits(s: Seq<char>) -> bool {
    forall|i: int| 0 <= i < s.len() ==> '0' <= #[trigger] s[i] && s[i] <= '9'
}

/// The value of a string of decimal digits.
pub open spec fn digits_value(s: Seq<char>) -> nat
    decreases s.len(),
{
    if s.len() == 0 {
        0
    } else {
        digits_value(s.drop_last()) * 10 + digit_value(s.last())
    }
}

/// What `str::parse::<usize>` gives: an optional `+`, then one or more
/// decimal digits whose value fits in a `usize`.
pub open spec fn parse_usize_spec(s: Seq<char>) -> Option<usize> {
    let body = if s.len() > 0 && s[0] == '+' { s.drop_first() } else { s };
    if body.len() > 0 && all_digits(body) && digits_value(body) <= usize::MAX {
        Some(digits_value(body) as usize)
    } else {
        None
    }
}

/// The message of the error that `str::parse::<usize>` returns on `s`.
pub uninterp spec fn usize_error_text(s: Seq<char>) -> Seq<char>;

/// `str::parse::<usize>` on a string it refuses: the error's message, as
/// `Display` prints it.
#[verifier::external_body]
pub(crate) fn usize_error(s: &str) -> (m: String)
    requires
        parse_usize_spec(s@) is None,
    ensures
        m@ == usize_error_text(s@),
{
    match s.parse::<usize>() {
        Err(e) => e.to_string(),
        Ok(_) => String::new(),
    }
}

/// A longer string of digits is worth at least as much.
proof fn lemma_digits_value_mono(s: Seq<char>, k: int)
    requires
        0 <= k <= s.len(),
        all_digits(s),
    ensures
        digits_value(s.take(k)) <= digits_value(s),
    decreases s.len(),
{
    if k < s.len() {
        assert(s.drop_last().take(k) =~= s.take(k));
        assert(all_digits(s.drop_last()));
        lemma_digits_value_mono(s.drop_last(), k);
    } else {
        assert(s.take(k) =~= s);
    }
}

/// Parses a `usize` in decimal, as `str::parse::<usize>` does.
pub fn parse_usize(v: &[char]) -> (r: Option<usize>)
    ensures
        r == parse_usize_spec(v@),
{
    let ghost body = if v@.len() > 0 && v@[0] == '+' { v@.drop_first() } else { v@ };
    let start: usize = if v.len() > 0 && v[0] == '+' { 1 } else { 0 };
    proof {
        assert(body =~= v@.skip(start as int));
    }
    if start >= v.len() {
        return None;
    }
    let mut value: usize = 0;
    let mut i = start;
    while i < v.len()
        invariant
            start <= i <= v@.len(),
            start < v@.len(),
            body == v@.skip(start as int),
            body == (if v@.len() > 0 && v@[0] == '+' { v@.drop_first() } else { v@ }),
            all_digits(body.take(i - start)),
            value == digits_value(body.take(i - start)),
        decreases v@.len() - i,
    {
        let c = v[i];
        proof {
            assert(body.take(i + 1 - start).drop_last() =~= body.take(i - start));
            assert(body.take(i + 1 - start).last() == c);
        }
        if !('0' <= c && c <= '9') {
            proof {
                assert(body[i - start] == c);
                assert(!all_digits(body));
            }
            return None;
        }
        let d = (c as u32 - '0' as u32) as usize;
        assert(d == digit_value(c));
        assert(digits_value(body.take(i + 1 - start)) == value * 10 + d);
        match value.checked_mul(10) {
            Some(m) => match m.checked_add(d) {
                Some(nv) => {
                    value = nv;
                },
                None => {
                    proof {
                        assert(all_digits(body.take(i + 1 - start)));
                        lemma_digits_value_mono_all(v@, start as int, i + 1);
                    }
                    return None;
                },
            },
            None => {
                proof {
                    assert(all_digits(body.take(i + 1 - start)));
                    lemma_digits_value_mono_all(v@, start as int, i + 1);
                }
                return None;
            },
        }
        i = i + 1;
    }
    proof {
        assert(body.take(v@.len() - start) =~= body);
    }
    Some(value)
}

/// If the prefix up to `i` overflows, so does the whole string whenever it
/// is all digits.
proof fn lemma_digits_value_mono_all(v: Seq<char>, start: int, i: int)
    requires
        0 <= start < i <= v.len(),
    ensures
        all_digits(v.skip(start)) ==> digits_value(v.skip(start).take(i - start)) <= digits_value(
            v.skip(start),
        ),
{
    if all_digits(v.skip(start)) {
        lemma_digits_value_mono(v.skip(start), i - start);
    }
}

/// Whether `a` holds exactly the characters of `b`.
pub fn chars_eq(a: &[char], b: &str) -> (eq: bool)
    ensures
        eq == (a@ == b@),
{
    let bv = chars_of(b);
    if a.len() != bv.len() {
        return false;
    }
    let mut i: usize = 0;
    while i < a.len()
        invariant
            a@.len() == bv@.len(),
            bv@ == b@,
            i <= a@.len(),
            forall|j: int| 0 <= j < i ==> a@[j] == bv@[j],
        decreases a@.len() - i,
    {
        if a[i] != bv[i] {
            return false;
        }
        i = i + 1;
    }
    proof {
        assert(a@ =~= bv@);
    }
    true
}

/// The lower-case form of a string, as `str::to_lowercase` computes it
/// (Unicode case mapping).
pub uninterp spec fn lowercase(s: Seq<char>) -> Seq<char>;

/// `str::to_lowercase`: the result is the name `lowercase` of the input.
#[verifier::external_body]
fn to_lowercase(s: &str) -> (r: String)
    ensures
        r@ == lowercase(s@),
{
    s.to_lowercase()
}

/// The lower-case form of `v`.
pub fn lowercase_chars(v: &[char]) -> (r: Vec<char>)
    ensures
        r@ == lowercase(v@),
{
    let s = string_of(v);
    let l = to_lowercase(s.as_str());
    chars_of(l.as_str())
}

/// Appends the characters of `b` to `a`.
pub fn extend_chars(a: &mut Vec<char>, b: &[char])
    ensures
        final(a)@ == old(a)@ + b@,
{
    let mut i: usize = 0;
    while i < b.len()
        invariant
            i <= b@.len(),
            a@ == old(a)@ + b@.take(i as int),
        decreases b@.len() - i,
    {
        a.push(b[i]);
        proof {
            assert(old(a)@ + b@.take(i as int).push(b@[i as int]) =~= old(a)@ + b@.take(i + 1));
        }
        i = i + 1;
    }
    proof {
        assert(b@.take(b@.len() as int) =~= b@);
    }
}

/// Appends the characters of `b` to `a`.
pub fn extend_str(a: &mut Vec<char>, b: &str)
    ensures
        final(a)@ == old(a)@ + b@,
{
    let bv = chars_of(b);
    extend_chars(a, bv.as_slice());
}


/// The pieces as plain character sequences.
pub open spec fn parts_view(p: Seq<Vec<char>>) -> Seq<Seq<char>> {
    p.map_values(|v: Vec<char>| v@)
}

/// The pieces of `v` between the occurrences of `sep`, as plain sequences.
pub fn split_parts(v: &[char], sep: char) -> (parts: Vec<Vec<char>>)
    ensures
        parts_view(parts@) == split(v@, sep),
        parts@.len() >= 1,
{
    let parts = split_chars(v, sep);
    proof {
        assert(parts_view(parts@) =~= split(v@, sep));
    }
    parts
}

/// Field `idx` of `parts` as a number, or `default` when there is no such
/// field; `None` when the field is there but is not a number.
pub open spec fn field_or(parts: Seq<Seq<char>>, idx: int, default: usize) -> Option<usize> {
    if parts.len() > idx {
        parse_usize_spec(trim(parts[idx]))
    } else {
        Some(default)
    }
}

/// Field `idx` of `parts` as a number (see `field_or`).
pub fn field_or_exec(parts: &Vec<Vec<char>>, idx: usize, default: usize) -> (r: Option<usize>)
    ensures
        r == field_or(parts_view(parts@), idx as int, default),
{
    if parts.len() > idx {
        let t = trim_chars(parts[idx].as_slice());
        parse_usize(t.as_slice())
    } else {
        Some(default)
    }
}

/// `prefix`, then `s`, then a closing quote.
pub fn quoted(prefix: &str, s: &str) -> (m: String)
    ensures
        m@ == prefix@ + s@ + "'"@,
{
    let mut v = chars_of(prefix);
    extend_str(&mut v, s);
    extend_str(&mut v, "'");
    string_of(v.as_slice())
}

/// `prefix`, then `mid`, then `suffix`.
pub fn surround(prefix: &str, mid: &[char], suffix: &str) -> (m: String)
    ensures
        m@ == prefix@ + mid@ + suffix@,
{
    let mut v = chars_of(prefix);
    extend_chars(&mut v, mid);
    extend_str(&mut v, suffix);
    string_of(v.as_slice())
}

/// A string holding the characters of `s`.
pub fn owned(s: &str) -> (r: String)
    ensures
        r@ == s@,
{
    let v = chars_of(s);
    string_of(v.as_slice())
}

/// The lower-cased, trimmed first field of `s` split at `sep`.
pub open spec fn head_key(s: Seq<char>, sep: char) -> Seq<char> {
    lowercase(trim(split(s, sep)[0]))
}

/// The pieces of `s` split at `sep`, and the lower-cased, trimmed first one.
pub fn split_head(s: &str, sep: char) -> (r: (Vec<Vec<char>>, Vec<char>))
    ensures
        parts_view(r.0@) == split(s@, sep),
        r.1@ == head_key(s@, sep),
{
    let all = chars_of(s);
    let parts = split_parts(all.as_slice(), sep);
    let ghost pv = parts_view(parts@);
    assert(pv[0] == parts@[0]@);
    let head = trim_chars(parts[0].as_slice());
    let key = lowercase_chars(head.as_slice());
    (parts, key)
}


/// The decimal digits of `n` are digits worth `n`, the first is not a sign,
/// and none is whitespace.
pub proof fn lemma_decimal_digits(n: nat)
    ensures
        decimal(n).len() >= 1,
        all_digits(decimal(n)),
        digits_value(decimal(n)) == n,
        forall|i: int| 0 <= i < decimal(n).len() ==> !is_space(#[trigger] decimal(n)[i]) && decimal(n)[i] != '+',
    decreases n,
{
    lemma_digit_char(n % 10);
    if n >= 10 {
        lemma_decimal_digits(n / 10);
        let d = decimal(n);
        assert(d.drop_last() == decimal(n / 10));
        assert(d.last() == digit_char(n % 10));
        assert(digits_value(d) == (n / 10) * 10 + n % 10);
        assert((n / 10) * 10 + n % 10 == n) by {
            vstd::arithmetic::div_mod::lemma_fundamental_div_mod(n as int, 10);
        }
    } else {
        let d = decimal(n);
        assert(d.drop_last() =~= Seq::<char>::empty());
        assert(digits_value(d.drop_last()) == 0);
        assert(n % 10 == n);
    }
}

/// The digit character of `k` is a digit worth `k`.
proof fn lemma_digit_char(k: nat)
    requires
        k < 10,
    ensures
        digit_value(digit_char(k)) == k,
        '0' <= digit_char(k) <= '9',
{
}

/// A string that neither starts nor ends with whitespace trims to itself.
pub proof fn lemma_trim_unchanged(s: Seq<char>)
    requires
        s.len() > 0,
        !is_space(s[0]),
        !is_space(s.last()),
    ensures
        trim(s) == s,
{
}

/// Reading back the decimal digits of a `usize` gives the number.
pub proof fn law_parse_decimal(n: usize)
    ensures
        parse_usize_spec(decimal(n as nat)) == Some(n),
        trim(decimal(n as nat)) == decimal(n as nat),
{
    lemma_decimal_digits(n as nat);
    let d = decimal(n as nat);
    assert(!is_space(d[0]) && d[0] != '+');
    assert(!is_space(d[d.len() - 1]));
    lemma_trim_unchanged(d);
}


/// `n` spaces (none when `n` is not positive).
pub open spec fn spaces(n: int) -> Seq<char> {
    Seq::new(if n > 0 { n as nat } else { 0 }, |i: int| ' ')
}

/// `s` filled with spaces on the right to at least `w` characters, as the
/// format width `{:<w}` does.
pub open spec fn pad_right(s: Seq<char>, w: int) -> Seq<char> {
    s + spaces(w - s.len())
}

/// `s` filled with spaces on the left to at least `w` characters, as a
/// number's format width `{:w}` does.
pub open spec fn pad_left(s: Seq<char>, w: int) -> Seq<char> {
    spaces(w - s.len()) + s
}

/// Appends `n` spaces.
pub fn push_spaces(out: &mut Vec<char>, n: usize)
    ensures
        final(out)@ == old(out)@ + spaces(n as int),
{
    let ghost start = out@;
    let mut i: usize = 0;
    while i < n
        invariant
            i <= n,
            out@ == start + spaces(i as int),
        decreases n - i,
    {
        out.push(' ');
        i = i + 1;
        assert(out@ == start + spaces(i as int));
    }
}

/// Appends `s` filled to `w` characters with spaces on the right.
pub fn push_padded_right(out: &mut Vec<char>, s: &[char], w: usize)
    ensures
        final(out)@ == old(out)@ + pad_right(s@, w as int),
{
    let ghost start = out@;
    extend_chars(out, s);
    if s.len() < w {
        push_spaces(out, w - s.len());
    } else {
        assert(spaces(w - s@.len()) == Seq::<char>::empty());
    }
    assert(out@ == start + pad_right(s@, w as int));
}

/// Appends `s` filled to `w` characters with spaces on the left.
pub fn push_padded_left(out: &mut Vec<char>, s: &[char], w: usize)
    ensures
        final(out)@ == old(out)@ + pad_left(s@, w as int),
{
    let ghost start = out@;
    if s.len() < w {
        push_spaces(out, w - s.len());
    } else {
        assert(spaces(w - s@.len()) == Seq::<char>::empty());
    }
    extend_chars(out, s);
    assert(out@ == start + pad_left(s@, w as int));
}

/// The decimal text of a signed number: a minus sign before negatives.
pub open spec fn signed_decimal(x: int) -> Seq<char> {
    if x < 0 {
        seq!['-'] + decimal((-x) as nat)
    } else {
        decimal(x as nat)
    }
}

/// The decimal text of `x`, as `{}` prints an `i32`.
pub fn signed_decimal_chars(x: i32) -> (v: Vec<char>)
    ensures
        v@ == signed_decimal(x as int),
{
    if x < 0 {
        let m: i64 = 0 - (x as i64);
        let mut v: Vec<char> = Vec::new();
        v.push('-');
        let d = decimal_chars(m as usize);
        extend_chars(&mut v, d.as_slice());
        v
    } else {
        decimal_chars(x as usize)
    }
}

} // verus!
