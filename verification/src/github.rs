//! Build-time repository data: star counts and descriptions read out of
//! the JSON that GitHub answers, with fallbacks for offline builds, and
//! the build date from the system clock. Fetching the JSON is the
//! program's part.
use vstd::prelude::*;

use std::time::{Duration, SystemTime, SystemTimeError};

use crate::date::{date_of_secs, date_text};
use crate::text::{
    chars_of, decimal, digit_char, is_whitespace, lemma_digit_char, trim_start, trim_start_at,
};

verus! {

/// std's `SystemTime`, carried through as an opaque value.
#[verifier::external_type_specification]
#[verifier::external_body]
pub struct ExSystemTime(SystemTime);

/// std's `SystemTimeError`, carried through as an opaque value.
#[verifier::external_type_specification]
#[verifier::external_body]
pub struct ExSystemTimeError(SystemTimeError);

/// `char::from_u32`: the character with the code point `i`, if `i` is a
/// Unicode scalar value (below 0xD800, or from 0xE000 through 0x10FFFF).
pub assume_specification[ char::from_u32 ](i: u32) -> (r: Option<char>)
    ensures
        r == (if is_scalar(i as int) {
            Some(i as char)
        } else {
            None::<char>
        }),
;

/// A Unicode scalar value: a code point that is not a surrogate.
pub open spec fn is_scalar(v: int) -> bool {
    (0 <= v < 0xD800) || (0xE000 <= v <= 0x10FFFF)
}

/// What a repository's page on GitHub says, or the fallback.
pub struct RepoData {
    pub stars: u64,
    pub description: String,
    /// whether the numbers came from the network
    pub live: bool,
}

// ---------------------------------------------------------------------
// Scanning JSON text
// ---------------------------------------------------------------------

/// The first position at or after `i` where `pat` occurs in `s`.
pub open spec fn find_seq_from(s: Seq<char>, i: int, pat: Seq<char>) -> Option<int>
    decreases s.len() + 1 - i,
{
    if i < 0 || i + pat.len() > s.len() {
        None
    } else if s.subrange(i, i + pat.len()) == pat {
        Some(i)
    } else {
        find_seq_from(s, i + 1, pat)
    }
}

pub proof fn lemma_find_seq_from(s: Seq<char>, i: int, pat: Seq<char>)
    ensures
        find_seq_from(s, i, pat) matches Some(j) ==> 0 <= i <= j && j + pat.len() <= s.len(),
    decreases s.len() + 1 - i,
{
    if 0 <= i && i + pat.len() <= s.len() && s.subrange(i, i + pat.len()) != pat {
        lemma_find_seq_from(s, i + 1, pat);
    }
}

pub open spec fn is_digit(c: char) -> bool {
    '0' <= c && c <= '9'
}

/// The first position at or after `i` that does not hold an ASCII digit.
pub open spec fn non_digit_from(s: Seq<char>, i: int) -> Option<int>
    decreases s.len() - i,
{
    if i < 0 || i >= s.len() {
        None
    } else if !is_digit(s[i]) {
        Some(i)
    } else {
        non_digit_from(s, i + 1)
    }
}

/// The number that the decimal digits `d` write.
pub open spec fn digits_value(d: Seq<char>) -> nat
    decreases d.len(),
{
    if d.len() == 0 {
        0
    } else {
        digits_value(d.drop_last()) * 10 + ((d.last() as int - '0' as int) as nat)
    }
}

/// `"key":`, the text that introduces a value.
pub open spec fn key_needle(key: Seq<char>) -> Seq<char> {
    seq!['"'] + key + seq!['"', ':']
}

/// The number after the first `"key":` in `body` (whitespace before it
/// skipped; its digits run to the first non-digit or to the end of the
/// text): `None` when the key is absent, when no digit follows, or when
/// the number does not fit in a `u64`.
pub open spec fn json_u64_spec(body: Seq<char>, key: Seq<char>) -> Option<u64> {
    let needle = key_needle(key);
    match find_seq_from(body, 0, needle) {
        None => None,
        Some(p) => {
            let rest = trim_start(body.skip(p + needle.len()));
            let end = match non_digit_from(rest, 0) {
                Some(e) => e,
                None => rest.len() as int,
            };
            if end > 0 && digits_value(rest.take(end)) <= u64::MAX {
                Some(digits_value(rest.take(end)) as u64)
            } else {
                None
            }
        },
    }
}

/// The value of a hex digit, or -1.
pub open spec fn hex_digit(c: char) -> int {
    if '0' <= c && c <= '9' {
        c as int - '0' as int
    } else if 'a' <= c && c <= 'f' {
        c as int - 'a' as int + 10
    } else if 'A' <= c && c <= 'F' {
        c as int - 'A' as int + 10
    } else {
        -1
    }
}

pub open spec fn all_hex(d: Seq<char>) -> bool {
    forall|k: int| 0 <= k < d.len() ==> #[trigger] hex_digit(d[k]) >= 0
}

/// The number that the hex digits `d` write.
pub open spec fn hex_value(d: Seq<char>) -> nat
    decreases d.len(),
{
    if d.len() == 0 {
        0
    } else {
        hex_value(d.drop_last()) * 16 + (hex_digit(d.last()) as nat)
    }
}

/// `u32::from_str_radix(h, 16)` for a text of at most four characters: an
/// optional `+` and then at least one hex digit, and nothing else.
pub open spec fn parse_hex(h: Seq<char>) -> Option<nat> {
    let digits = if h.len() > 0 && h[0] == '+' {
        h.drop_first()
    } else {
        h
    };
    if digits.len() == 0 || !all_hex(digits) {
        None
    } else {
        Some(hex_value(digits))
    }
}

/// What a `\u` escape adds to the text: the character of its hex digits,
/// or nothing when they are not a code point of a character.
pub open spec fn unicode_escape(h: Seq<char>) -> Seq<char> {
    match parse_hex(h) {
        Some(v) => if is_scalar(v as int) {
            seq![(v as u32) as char]
        } else {
            Seq::empty()
        },
        None => Seq::empty(),
    }
}

/// The string value that starts at `i` in `s`, with `acc` read so far: it
/// ends at the next unescaped `"`; `\n` and `\t` become a space, `\u` takes
/// up to four characters as hex digits, and any other escaped character
/// stands for itself. `None` when the text ends first.
pub open spec fn json_string_from(s: Seq<char>, i: int, acc: Seq<char>) -> Option<Seq<char>>
    decreases s.len() - i,
{
    if i < 0 || i >= s.len() {
        None
    } else if s[i] == '"' {
        Some(acc)
    } else if s[i] == '\\' {
        if i + 1 >= s.len() {
            None
        } else {
            let d = s[i + 1];
            if d == 'n' || d == 't' {
                json_string_from(s, i + 2, acc.push(' '))
            } else if d == 'u' {
                let e = if i + 6 <= s.len() {
                    i + 6
                } else {
                    s.len() as int
                };
                json_string_from(s, e, acc + unicode_escape(s.subrange(i + 2, e)))
            } else {
                json_string_from(s, i + 2, acc.push(d))
            }
        }
    } else {
        json_string_from(s, i + 1, acc.push(s[i]))
    }
}

/// The first position at or after `i` where `needle` occurs in `body`
/// followed, after whitespace, by a `"`: where a string value is written.
pub open spec fn str_key_from(body: Seq<char>, i: int, needle: Seq<char>) -> Option<int>
    decreases body.len() + 1 - i,
{
    match find_seq_from(body, i, needle) {
        None => None,
        Some(p) => {
            proof {
                lemma_find_seq_from(body, i, needle);
            }
            let a = trim_start_at(body, p + needle.len());
            if 0 <= a < body.len() && body[a] == '"' {
                Some(p)
            } else {
                str_key_from(body, p + 1, needle)
            }
        },
    }
}

/// The string after the first `"key":` in `body` whose value is a string
/// (whitespace before its opening `"` skipped), un-escaped as
/// `json_string_from` says; `None` when no such key is there or when the
/// string does not end.
pub open spec fn json_str_spec(body: Seq<char>, key: Seq<char>) -> Option<Seq<char>> {
    let needle = key_needle(key);
    match str_key_from(body, 0, needle) {
        None => None,
        Some(p) => json_string_from(body, trim_start_at(body, p + needle.len()) + 1, Seq::empty()),
    }
}

/// The decimal digits of `n` are digits, and they are worth `n`.
proof fn lemma_decimal_value(n: nat)
    ensures
        decimal(n).len() >= 1,
        forall|x: int| 0 <= x < decimal(n).len() ==> is_digit(#[trigger] decimal(n)[x]),
        digits_value(decimal(n)) == n,
    decreases n,
{
    lemma_digit_char((n % 10) as int);
    if n < 10 {
        lemma_digit_char(n as int);
        assert(decimal(n).drop_last() =~= Seq::<char>::empty());
        assert(digits_value(Seq::<char>::empty()) == 0);
        assert(decimal(n).last() as int - '0' as int == n);
    } else {
        lemma_decimal_value(n / 10);
        assert(decimal(n).drop_last() =~= decimal(n / 10));
        assert(decimal(n).last() as int - '0' as int == n % 10);
        assert(n == (n / 10) * 10 + n % 10);
        assert forall|x: int| 0 <= x < decimal(n).len() implies is_digit(#[trigger] decimal(n)[x]) by {
            if x < decimal(n / 10).len() {
                assert(decimal(n)[x] == decimal(n / 10)[x]);
            }
        }
    }
}

proof fn lemma_non_digit_at(s: Seq<char>, i: int, e: int)
    requires
        0 <= i <= e < s.len(),
        forall|x: int| i <= x < e ==> is_digit(#[trigger] s[x]),
        !is_digit(s[e]),
    ensures
        non_digit_from(s, i) == Some(e),
    decreases e - i,
{
    if i < e {
        lemma_non_digit_at(s, i + 1, e);
    }
}

/// A number written after its key is read back: `"k":n,` gives `n`, for
/// every `u64` value, zero included.
pub proof fn law_json_u64_reads_number(k: Seq<char>, n: u64)
    ensures
        json_u64_spec(seq!['"'] + k + seq!['"', ':'] + decimal(n as nat) + seq![','], k) == Some(n),
{
    let needle = key_needle(k);
    let d = decimal(n as nat);
    let body = seq!['"'] + k + seq!['"', ':'] + d + seq![','];
    lemma_decimal_value(n as nat);
    assert(body.subrange(0, needle.len() as int) =~= needle);
    assert(find_seq_from(body, 0, needle) == Some(0int));
    let tail = body.skip(needle.len() as int);
    assert(tail =~= d + seq![',']);
    assert(is_digit(tail[0]));
    assert(trim_start_at(tail, 0) == 0);
    assert(trim_start(tail) =~= tail);
    assert forall|x: int| 0 <= x < d.len() implies is_digit(#[trigger] tail[x]) by {
        assert(tail[x] == d[x]);
    }
    lemma_non_digit_at(tail, 0, d.len() as int);
    assert(tail.take(d.len() as int) =~= d);
}

/// The JSON text `{"k":"v"}`.
pub open spec fn json_object_str(k: Seq<char>, v: Seq<char>) -> Seq<char> {
    seq!['{', '"'] + k + seq!['"', ':', '"'] + v + seq!['"', '}']
}

/// Text that a JSON string holds as it stands: no `"` and no `\`.
pub open spec fn is_plain_json_text(v: Seq<char>) -> bool {
    forall|k: int| 0 <= k < v.len() ==> #[trigger] v[k] != '"' && v[k] != '\\'
}

proof fn lemma_plain_string(b: Seq<char>, base: int, v: Seq<char>, j: int)
    requires
        is_plain_json_text(v),
        0 <= base,
        base + v.len() < b.len(),
        b.subrange(base, base + v.len()) == v,
        b[base + v.len()] == '"',
        0 <= j <= v.len(),
    ensures
        json_string_from(b, base + j, v.take(j)) == Some(v),
    decreases v.len() - j,
{
    if j < v.len() {
        assert(b[base + j] == v[j]);
        lemma_plain_string(b, base, v, j + 1);
        assert(v.take(j).push(v[j]) =~= v.take(j + 1));
    } else {
        assert(v.take(j) =~= v);
    }
}

/// The description round trip: the string value of a one-key JSON object
/// `{"k":"v"}` is read back as `v`, when `v` holds no `"` and no `\`.
pub proof fn law_json_str_round_trip(k: Seq<char>, v: Seq<char>)
    requires
        is_plain_json_text(v),
    ensures
        json_str_spec(json_object_str(k, v), k) == Some(v),
{
    let b = json_object_str(k, v);
    let needle = key_needle(k);
    let n = needle.len() as int;
    assert(b.subrange(0, n)[0] != needle[0]);
    assert(b.subrange(1, 1 + n) =~= needle);
    reveal_with_fuel(find_seq_from, 3);
    assert(find_seq_from(b, 0, needle) == Some(1int));
    assert(b[1 + n] == '"');
    assert(trim_start_at(b, 1 + n) == 1 + n);
    assert(b.subrange(2 + n, 2 + n + v.len()) =~= v);
    lemma_plain_string(b, 2 + n, v, 0);
    assert(v.take(0) =~= Seq::<char>::empty());
}

/// Whether `pat` occurs in `s` at `i`.
fn occurs_at(s: &Vec<char>, i: usize, pat: &Vec<char>) -> (r: bool)
    requires
        i + pat@.len() <= s@.len(),
    ensures
        r == (s@.subrange(i as int, i + pat@.len()) == pat@),
{
    let n = s.len();
    let mut k: usize = 0;
    while k < pat.len()
        invariant
            k <= pat@.len(),
            n == s@.len(),
            i + pat@.len() <= s@.len(),
            forall|x: int| 0 <= x < k ==> s@[i + x] == pat@[x],
        decreases pat@.len() - k,
    {
        if s[i + k] != pat[k] {
            assert(s@.subrange(i as int, i + pat@.len())[k as int] != pat@[k as int]);
            return false;
        }
        k = k + 1;
    }
    assert(s@.subrange(i as int, i + pat@.len()) =~= pat@);
    true
}

/// The first position at or after `from` where `pat` occurs in `s`.
fn find_seq(s: &Vec<char>, from: usize, pat: &Vec<char>) -> (r: Option<usize>)
    ensures
        r == (match find_seq_from(s@, from as int, pat@) {
            Some(j) => Some(j as usize),
            None => None::<usize>,
        }),
{
    if pat.len() > s.len() {
        return None;
    }
    let mut i: usize = from;
    while i <= s.len() - pat.len()
        invariant
            pat@.len() <= s@.len(),
            find_seq_from(s@, i as int, pat@) == find_seq_from(s@, from as int, pat@),
        decreases s@.len() - i,
    {
        if occurs_at(s, i, pat) {
            return Some(i);
        }
        if i == s.len() - pat.len() {
            assert(find_seq_from(s@, i + 1, pat@) is None);
            return None;
        }
        i = i + 1;
    }
    None
}

/// The first position at or after `i` that does not hold whitespace.
fn skip_ws(s: &Vec<char>, i: usize) -> (a: usize)
    requires
        i <= s@.len(),
    ensures
        a == trim_start_at(s@, i as int),
        i <= a <= s@.len(),
{
    let mut a: usize = i;
    while a < s.len() && is_whitespace(s[a])
        invariant
            i <= a <= s@.len(),
            trim_start_at(s@, a as int) == trim_start_at(s@, i as int),
        decreases s@.len() - a,
    {
        a = a + 1;
    }
    a
}

/// Where the string value of the first `needle` that has one opens: the
/// position of its `"`.
fn str_value_at(s: &Vec<char>, needle: &Vec<char>) -> (r: Option<usize>)
    requires
        needle@.len() > 0,
    ensures
        match r {
            Some(a) => {
                &&& str_key_from(s@, 0, needle@) matches Some(p)
                &&& a == trim_start_at(s@, p + needle@.len())
                &&& a < s@.len()
                &&& s@[a as int] == '"'
            },
            None => str_key_from(s@, 0, needle@) is None,
        },
{
    let mut from: usize = 0;
    while from <= s.len()
        invariant
            needle@.len() > 0,
            str_key_from(s@, from as int, needle@) == str_key_from(s@, 0, needle@),
        decreases s@.len() + 1 - from,
    {
        let p = match find_seq(s, from, needle) {
            Some(p) => p,
            None => {
                return None;
            },
        };
        proof {
            lemma_find_seq_from(s@, from as int, needle@);
        }
        let a = skip_ws(s, p + needle.len());
        if a < s.len() && s[a] == '"' {
            return Some(a);
        }
        from = p + 1;
    }
    None
}

/// The characters of `"key":`.
fn needle_of(key: &str) -> (r: Vec<char>)
    ensures
        r@ == key_needle(key@),
{
    let k = chars_of(key);
    let mut r: Vec<char> = Vec::new();
    r.push('"');
    let mut i: usize = 0;
    while i < k.len()
        invariant
            i <= k@.len(),
            r@ == seq!['"'] + k@.take(i as int),
        decreases k@.len() - i,
    {
        r.push(k[i]);
        assert(k@.take(i + 1) =~= k@.take(i as int).push(k@[i as int]));
        i = i + 1;
    }
    assert(k@.take(k@.len() as int) =~= k@);
    r.push('"');
    r.push(':');
    assert(r@ =~= key_needle(key@));
    r
}

/// Scans `body` for `"key":<number>`; see `json_u64_spec`. Good enough for
/// GitHub's flat repository object; not a JSON parser.
pub fn json_u64(body: &str, key: &str) -> (r: Option<u64>)
    ensures
        r == json_u64_spec(body@, key@),
{
    let s = chars_of(body);
    let needle = needle_of(key);
    let p = match find_seq(&s, 0, &needle) {
        Some(p) => p,
        None => {
            return None;
        },
    };
    proof {
        lemma_find_seq_from(s@, 0, needle@);
    }
    let n = s.len();
    let mut a: usize = p + needle.len();
    let ghost tail = s@.skip(a as int);
    while a < s.len() && is_whitespace(s[a])
        invariant
            p + needle@.len() <= a <= s@.len(),
            tail == s@.skip(p + needle@.len()),
            trim_start_at(tail, a - p - needle@.len()) == trim_start_at(tail, 0),
        decreases s@.len() - a,
    {
        assert(tail[a - p - needle@.len()] == s@[a as int]);
        a = a + 1;
    }
    assert(a < s@.len() ==> tail[a - p - needle@.len()] == s@[a as int]);
    let ghost rest = s@.skip(a as int);
    assert(rest =~= trim_start(tail));
    let mut e: usize = a;
    let mut v: u64 = 0;
    let mut fits = true;
    while e < s.len() && '0' <= s[e] && s[e] <= '9'
        invariant
            a <= e <= s@.len(),
            rest == s@.skip(a as int),
            non_digit_from(rest, e - a) == non_digit_from(rest, 0),
            fits ==> v == digits_value(rest.take(e - a)),
            !fits ==> digits_value(rest.take(e - a)) > u64::MAX,
        decreases s@.len() - e,
    {
        let d = ((s[e] as u32) - 48) as u64;
        let ghost prev = rest.take(e - a);
        assert(rest.take(e - a + 1).drop_last() =~= prev);
        assert(rest.take(e - a + 1).last() == s@[e as int]);
        if fits {
            match v.checked_mul(10) {
                Some(m) => match m.checked_add(d) {
                    Some(n) => {
                        v = n;
                    },
                    None => {
                        fits = false;
                    },
                },
                None => {
                    fits = false;
                },
            }
        }
        e = e + 1;
    }
    assert(e < s@.len() ==> rest[e - a] == s@[e as int]);
    if e == a || !fits {
        return None;
    }
    Some(v)
}

/// Reads up to four characters after a `\u` as hex, as `u32::from_str_radix`.
fn hex_of(h: &Vec<char>) -> (r: Option<u32>)
    requires
        h@.len() <= 4,
    ensures
        r == (match parse_hex(h@) {
            Some(v) => Some(v as u32),
            None => None::<u32>,
        }),
        r matches Some(v) ==> parse_hex(h@) == Some(v as nat),
{
    let start: usize = if h.len() > 0 && h[0] == '+' {
        1
    } else {
        0
    };
    let ghost digits = h@.skip(start as int);
    assert(digits =~= (if h@.len() > 0 && h@[0] == '+' {
        h@.drop_first()
    } else {
        h@
    }));
    if start >= h.len() {
        return None;
    }
    proof {
        reveal_with_fuel(pow16, 5);
    }
    assert(pow16(3) == 4096);
    assert(pow16(4) == 65536);
    let mut v: u32 = 0;
    let mut k: usize = start;
    while k < h.len()
        invariant
            start <= k <= h@.len() <= 4,
            start < h@.len(),
            digits == h@.skip(start as int),
            digits == (if h@.len() > 0 && h@[0] == '+' {
                h@.drop_first()
            } else {
                h@
            }),
            forall|x: int| 0 <= x < k - start ==> #[trigger] hex_digit(digits[x]) >= 0,
            v == hex_value(digits.take(k - start)),
            v < pow16((k - start) as nat),
            pow16(3) == 4096,
            pow16(4) == 65536,
            pow16((k - start) as nat) <= 65536,
        decreases h@.len() - k,
    {
        let c = h[k];
        let d: u32 = if '0' <= c && c <= '9' {
            (c as u32) - 48
        } else if 'a' <= c && c <= 'f' {
            (c as u32) - 87
        } else if 'A' <= c && c <= 'F' {
            (c as u32) - 55
        } else {
            assert(digits[k - start] == c);
            assert(hex_digit(digits[k - start]) < 0);
            assert(!all_hex(digits));
            return None;
        };
        assert(digits.take(k - start + 1).drop_last() =~= digits.take(k - start));
        assert(digits[k - start] == c);
        assert(pow16((k - start + 1) as nat) == 16 * pow16((k - start) as nat));
        assert(pow16((k - start) as nat) <= 4096) by {
            reveal_with_fuel(pow16, 5);
        }
        v = v * 16 + d;
        k = k + 1;
    }
    assert(digits.take(k - start) =~= digits);
    Some(v)
}

pub open spec fn pow16(k: nat) -> nat
    decreases k,
{
    if k == 0 {
        1
    } else {
        16 * pow16((k - 1) as nat)
    }
}

/// Scans `body` for the first `"key":` whose value is a string, `"..."`,
/// and un-escapes the few sequences GitHub writes in descriptions; see
/// `json_str_spec`.
pub fn json_str(body: &str, key: &str) -> (r: Option<String>)
    ensures
        match r {
            Some(t) => json_str_spec(body@, key@) == Some(t@),
            None => json_str_spec(body@, key@) is None,
        },
{
    let s = chars_of(body);
    let needle = needle_of(key);
    let a = match str_value_at(&s, &needle) {
        Some(a) => a,
        None => {
            return None;
        },
    };
    let mut out = String::new();
    let mut i: usize = a + 1;
    while i < s.len()
        invariant
            i <= s@.len(),
            json_string_from(s@, i as int, out@) == json_str_spec(body@, key@),
        decreases s@.len() - i,
    {
        let c = s[i];
        if c == '"' {
            return Some(out);
        } else if c == '\\' {
            if i + 1 >= s.len() {
                return None;
            }
            let d = s[i + 1];
            if d == 'n' || d == 't' {
                out.push(' ');
                i = i + 2;
            } else if d == 'u' {
                let e = if s.len() - i >= 6 {
                    i + 6
                } else {
                    s.len()
                };
                let mut h: Vec<char> = Vec::new();
                let mut k: usize = i + 2;
                while k < e
                    invariant
                        i + 2 <= k <= e <= s@.len(),
                        e - (i + 2) <= 4,
                        h@ == s@.subrange(i + 2, k as int),
                    decreases e - k,
                {
                    h.push(s[k]);
                    assert(h@ =~= s@.subrange(i + 2, k + 1));
                    k = k + 1;
                }
                let ghost before = out@;
                match hex_of(&h) {
                    Some(v) => match char::from_u32(v) {
                        Some(ch) => {
                            out.push(ch);
                        },
                        None => {},
                    },
                    None => {},
                }
                assert(out@ =~= before + unicode_escape(s@.subrange(i + 2, e as int)));
                i = e;
            } else {
                out.push(d);
                i = i + 2;
            }
        } else {
            out.push(c);
            i = i + 1;
        }
    }
    None
}

/// The repository data for a response: with a body that names a star count
/// (`stargazers_count`), that count, the body's `description` (or the
/// fallback one), and `live`; otherwise the fallbacks and not `live`.
pub fn repo_data(body: Option<&str>, fallback_stars: u64, fallback_desc: &str) -> (r: RepoData)
    ensures
        (match body {
            Some(b) => json_u64_spec(b@, "stargazers_count"@) is Some,
            None => false,
        }) ==> {
            let b = body->0;
            &&& r.live
            &&& Some(r.stars) == json_u64_spec(b@, "stargazers_count"@)
            &&& r.description@ == (match json_str_spec(b@, "description"@) {
                Some(d) => d,
                None => fallback_desc@,
            })
        },
        !(match body {
            Some(b) => json_u64_spec(b@, "stargazers_count"@) is Some,
            None => false,
        }) ==> {
            &&& !r.live
            &&& r.stars == fallback_stars
            &&& r.description@ == fallback_desc@
        },
{
    if let Some(b) = body {
        if let Some(stars) = json_u64(b, "stargazers_count") {
            let description = match json_str(b, "description") {
                Some(d) => d,
                None => {
                    let mut d = String::new();
                    d.append(fallback_desc);
                    d
                },
            };
            return RepoData { stars, description, live: true };
        }
    }
    let mut d = String::new();
    d.append(fallback_desc);
    RepoData { stars: fallback_stars, description: d, live: false }
}

// ---------------------------------------------------------------------
// The build date
// ---------------------------------------------------------------------

/// `SystemTime::now`: the system clock's current time. Nothing is stated of
/// it: it is whatever the clock says.
#[verifier::external_body]
fn clock_now() -> SystemTime {
    SystemTime::now()
}

/// `SystemTime::duration_since(UNIX_EPOCH)`: how long after the Unix epoch
/// `t` lies, or an error when it lies before. Nothing is stated of which.
#[verifier::external_body]
fn since_unix_epoch(t: &SystemTime) -> Result<Duration, SystemTimeError> {
    t.duration_since(std::time::UNIX_EPOCH)
}

/// `Duration::as_secs`: the whole seconds of `d`. The duration is opaque
/// here, so nothing is stated of the number.
#[verifier::external_body]
fn whole_secs(d: &Duration) -> u64 {
    d.as_secs()
}

/// The build date for a clock reading: the date of its seconds after the
/// Unix epoch, or 1970-01-01 when the clock lies before the epoch (`None`).
pub fn date_of_reading(secs: Option<u64>) -> (r: String)
    ensures
        r@ == date_text(match secs {
            Some(s) => s as nat,
            None => 0,
        }),
{
    match secs {
        Some(s) => date_of_secs(s),
        None => date_of_secs(0),
    }
}

/// Today as `YYYY-MM-DD` from the system clock (1970-01-01 when the clock
/// lies before the epoch): the clock's reading handed to `date_of_reading`.
pub fn build_date() -> (r: String)
    ensures
        exists|secs: nat| r@ == date_text(secs),
{
    let now = clock_now();
    let reading = match since_unix_epoch(&now) {
        Ok(d) => Some(whole_secs(&d)),
        Err(_) => None,
    };
    date_of_reading(reading)
}

} // verus!
