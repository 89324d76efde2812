//! Character-level text handling shared by the renderers: whitespace,
//! trimming, searching, and splitting text into lines.
use vstd::prelude::*;
use vstd::std_specs::iter::IteratorSpec;

verus! {

/// `String::push`: the string afterwards is the string before with `ch`
/// added at its end.
pub assume_specification[ String::push ](s: &mut String, ch: char)
    ensures
        final(s)@ == old(s)@.push(ch),
;

/// The characters of `s`, in order.
pub fn chars_of(s: &str) -> (r: Vec<char>)
    ensures
        r@ == s@,
{
    let mut r: Vec<char> = Vec::new();
    let mut it = s.chars();
    proof {
        broadcast use vstd::string::axiom_spec_iter;
    }
    assert(it.remaining() == s@);
    loop
        invariant
            r@ + it.remaining() == s@,
            it.obeys_prophetic_iter_laws(),
            it.decrease() is Some,
        ensures
            r@ == s@,
        decreases it.decrease()->0,
    {
        let ghost before = it.remaining();
        match it.next() {
            Some(c) => {
                proof {
                    broadcast use vstd::string::next_postcondition;
                }
                assert(before.len() > 0);
                r.push(c);
                assert(r@ + it.remaining() =~= s@);
            },
            None => {
                proof {
                    broadcast use vstd::string::next_postcondition;
                }
                assert(r@ =~= s@);
                break;
            },
        }
    }
    r
}

/// Appends the characters `s[lo..hi]` to `out`.
pub fn push_range(out: &mut String, s: &Vec<char>, lo: usize, hi: usize)
    requires
        lo <= hi <= s@.len(),
    ensures
        final(out)@ == old(out)@ + s@.subrange(lo as int, hi as int),
{
    let mut i: usize = lo;
    while i < hi
        invariant
            lo <= i <= hi <= s@.len(),
            out@ == old(out)@ + s@.subrange(lo as int, i as int),
        decreases hi - i,
    {
        out.push(s[i]);
        assert(s@.subrange(lo as int, i + 1) =~= s@.subrange(lo as int, i as int).push(s@[i as int]));
        i = i + 1;
    }
}

/// A copy of `s[lo..hi]`.
pub fn copy_range(s: &Vec<char>, lo: usize, hi: usize) -> (r: Vec<char>)
    requires
        lo <= hi <= s@.len(),
    ensures
        r@ == s@.subrange(lo as int, hi as int),
{
    let mut r: Vec<char> = Vec::new();
    let mut i: usize = lo;
    while i < hi
        invariant
            lo <= i <= hi <= s@.len(),
            r@ == s@.subrange(lo as int, i as int),
        decreases hi - i,
    {
        r.push(s[i]);
        assert(r@ =~= s@.subrange(lo as int, i + 1));
        i = i + 1;
    }
    r
}

/// Unicode `White_Space`, the set that `char::is_whitespace` and the
/// trimming methods of `str` go by.
pub open spec fn is_ws(c: char) -> bool {
    ||| c == '\t'
    ||| c == '\n'
    ||| c == '\x0B'
    ||| c == '\x0C'
    ||| c == '\r'
    ||| c == ' '
    ||| c == '\u{85}'
    ||| c == '\u{A0}'
    ||| c == '\u{1680}'
    ||| ('\u{2000}' <= c && c <= '\u{200A}')
    ||| c == '\u{2028}'
    ||| c == '\u{2029}'
    ||| c == '\u{202F}'
    ||| c == '\u{205F}'
    ||| c == '\u{3000}'
}

pub fn is_whitespace(c: char) -> (r: bool)
    ensures
        r == is_ws(c),
{
    c == '\t' || c == '\n' || c == '\x0B' || c == '\x0C' || c == '\r' || c == ' ' || c == '\u{85}'
        || c == '\u{A0}' || c == '\u{1680}' || ('\u{2000}' <= c && c <= '\u{200A}') || c
        == '\u{2028}' || c == '\u{2029}' || c == '\u{202F}' || c == '\u{205F}' || c == '\u{3000}'
}

/// Where the prefix `s[..n]` ends once its trailing whitespace is dropped.
pub open spec fn trim_end_len(s: Seq<char>, n: int) -> int
    decreases n,
{
    if 0 < n <= s.len() && is_ws(s[n - 1]) {
        trim_end_len(s, n - 1)
    } else {
        n
    }
}

/// Where `s[i..]` starts once its leading whitespace is dropped.
pub open spec fn trim_start_at(s: Seq<char>, i: int) -> int
    decreases s.len() - i,
{
    if 0 <= i < s.len() && is_ws(s[i]) {
        trim_start_at(s, i + 1)
    } else {
        i
    }
}

/// `s` without trailing whitespace (`str::trim_end`).
pub open spec fn trim_end(s: Seq<char>) -> Seq<char> {
    s.take(trim_end_len(s, s.len() as int))
}

/// `s` without leading whitespace (`str::trim_start`).
pub open spec fn trim_start(s: Seq<char>) -> Seq<char> {
    s.skip(trim_start_at(s, 0))
}

/// `s` without leading and trailing whitespace (`str::trim`).
pub open spec fn trim(s: Seq<char>) -> Seq<char> {
    trim_start(trim_end(s))
}

/// `s` without trailing whitespace.
pub fn trim_end_vec(s: &Vec<char>) -> (r: Vec<char>)
    ensures
        r@ == trim_end(s@),
{
    let mut n: usize = s.len();
    while n > 0 && is_whitespace(s[n - 1])
        invariant
            n <= s@.len(),
            trim_end_len(s@, n as int) == trim_end_len(s@, s@.len() as int),
        decreases n,
    {
        n = n - 1;
    }
    copy_range(s, 0, n)
}

/// `s` without leading whitespace.
pub fn trim_start_vec(s: &Vec<char>) -> (r: Vec<char>)
    ensures
        r@ == trim_start(s@),
{
    let mut i: usize = 0;
    while i < s.len() && is_whitespace(s[i])
        invariant
            i <= s@.len(),
            trim_start_at(s@, i as int) == trim_start_at(s@, 0),
        decreases s@.len() - i,
    {
        i = i + 1;
    }
    copy_range(s, i, s.len())
}

/// `s` without leading and trailing whitespace.
pub fn trim_vec(s: &Vec<char>) -> (r: Vec<char>)
    ensures
        r@ == trim(s@),
{
    let t = trim_end_vec(s);
    trim_start_vec(&t)
}


/// Where the prefix `s[..n]` ends once its trailing `c`s are dropped.
pub open spec fn trim_end_len_c(s: Seq<char>, n: int, c: char) -> int
    decreases n,
{
    if 0 < n <= s.len() && s[n - 1] == c {
        trim_end_len_c(s, n - 1, c)
    } else {
        n
    }
}

/// Where `s[i..]` starts once its leading `c`s are dropped.
pub open spec fn trim_start_at_c(s: Seq<char>, i: int, c: char) -> int
    decreases s.len() - i,
{
    if 0 <= i < s.len() && s[i] == c {
        trim_start_at_c(s, i + 1, c)
    } else {
        i
    }
}

/// `s` without leading and trailing `c`s (`str::trim_matches` with a char).
pub open spec fn trim_matches(s: Seq<char>, c: char) -> Seq<char> {
    let t = s.take(trim_end_len_c(s, s.len() as int, c));
    t.skip(trim_start_at_c(t, 0, c))
}

pub proof fn lemma_trim_end_len_c(s: Seq<char>, n: int, c: char)
    requires
        0 <= n <= s.len(),
    ensures
        0 <= trim_end_len_c(s, n, c) <= n,
        trim_end_len_c(s, n, c) > 0 ==> s[trim_end_len_c(s, n, c) - 1] != c,
    decreases n,
{
    if 0 < n && s[n - 1] == c {
        lemma_trim_end_len_c(s, n - 1, c);
    }
}

pub proof fn lemma_trim_start_at_c(s: Seq<char>, i: int, c: char)
    requires
        0 <= i <= s.len(),
    ensures
        i <= trim_start_at_c(s, i, c) <= s.len(),
        trim_start_at_c(s, i, c) < s.len() ==> s[trim_start_at_c(s, i, c)] != c,
    decreases s.len() - i,
{
    if i < s.len() && s[i] == c {
        lemma_trim_start_at_c(s, i + 1, c);
    }
}

/// `s` without leading and trailing `c`s.
pub fn trim_matches_vec(s: &Vec<char>, c: char) -> (r: Vec<char>)
    ensures
        r@ == trim_matches(s@, c),
{
    let mut n: usize = s.len();
    while n > 0 && s[n - 1] == c
        invariant
            n <= s@.len(),
            trim_end_len_c(s@, n as int, c) == trim_end_len_c(s@, s@.len() as int, c),
        decreases n,
    {
        n = n - 1;
    }
    let t = copy_range(s, 0, n);
    let mut i: usize = 0;
    while i < t.len() && t[i] == c
        invariant
            i <= t@.len(),
            trim_start_at_c(t@, i as int, c) == trim_start_at_c(t@, 0, c),
        decreases t@.len() - i,
    {
        i = i + 1;
    }
    copy_range(&t, i, t.len())
}

/// The first position at or after `i` that holds `c`.
pub open spec fn find_from(s: Seq<char>, i: int, c: char) -> Option<int>
    decreases s.len() - i,
{
    if i < 0 || i >= s.len() {
        None
    } else if s[i] == c {
        Some(i)
    } else {
        find_from(s, i + 1, c)
    }
}

/// The first position at or after `i` where `a` is directly followed by `b`.
pub open spec fn find_pair_from(s: Seq<char>, i: int, a: char, b: char) -> Option<int>
    decreases s.len() - i,
{
    if i < 0 || i + 1 >= s.len() {
        None
    } else if s[i] == a && s[i + 1] == b {
        Some(i)
    } else {
        find_pair_from(s, i + 1, a, b)
    }
}

pub proof fn lemma_find_from(s: Seq<char>, i: int, c: char)
    ensures
        find_from(s, i, c) matches Some(j) ==> i <= j < s.len() && s[j] == c && forall|y: int|
            i <= y < j ==> s[y] != c,
        find_from(s, i, c) is None ==> forall|k: int| 0 <= i <= k < s.len() ==> s[k] != c,
    decreases s.len() - i,
{
    if 0 <= i < s.len() && s[i] != c {
        lemma_find_from(s, i + 1, c);
    }
}

pub proof fn lemma_find_pair_from(s: Seq<char>, i: int, a: char, b: char)
    ensures
        find_pair_from(s, i, a, b) matches Some(j) ==> i <= j && j + 1 < s.len() && s[j] == a
            && s[j + 1] == b,
    decreases s.len() - i,
{
    if 0 <= i && i + 1 < s.len() && !(s[i] == a && s[i + 1] == b) {
        lemma_find_pair_from(s, i + 1, a, b);
    }
}

/// The first position at or after `i` that holds `c`.
pub fn find_char(s: &Vec<char>, i: usize, c: char) -> (r: Option<usize>)
    ensures
        r == (match find_from(s@, i as int, c) {
            Some(j) => Some(j as usize),
            None => None::<usize>,
        }),
{
    let mut k: usize = i;
    while k < s.len()
        invariant
            i <= k,
            find_from(s@, k as int, c) == find_from(s@, i as int, c),
        decreases s@.len() - k,
    {
        if s[k] == c {
            return Some(k);
        }
        k = k + 1;
    }
    None
}

/// The first position at or after `i` where `a` is directly followed by `b`.
pub fn find_pair(s: &Vec<char>, i: usize, a: char, b: char) -> (r: Option<usize>)
    ensures
        r == (match find_pair_from(s@, i as int, a, b) {
            Some(j) => Some(j as usize),
            None => None::<usize>,
        }),
{
    let mut k: usize = i;
    while k < s.len() && k + 1 < s.len()
        invariant
            i <= k,
            find_pair_from(s@, k as int, a, b) == find_pair_from(s@, i as int, a, b),
        decreases s@.len() - k,
    {
        if s[k] == a && s[k + 1] == b {
            return Some(k);
        }
        k = k + 1;
    }
    None
}

/// A line as `str::lines` hands it out: without its `\n`, and without the
/// `\r` of a `\r\n` ending.
pub open spec fn strip_cr(l: Seq<char>) -> Seq<char> {
    if l.len() > 0 && l.last() == '\r' {
        l.drop_last()
    } else {
        l
    }
}

/// The lines of `s[i..]`, as `str::lines` splits them: at each `\n`; a
/// last line without a `\n` counts, an empty one after a final `\n` does not.
pub open spec fn lines_from(s: Seq<char>, i: int) -> Seq<Seq<char>>
    decreases s.len() - i,
{
    if i < 0 || i >= s.len() {
        Seq::empty()
    } else {
        match find_from(s, i, '\n') {
            Some(j) => {
                proof {
                    lemma_find_from(s, i, '\n');
                }
                seq![strip_cr(s.subrange(i, j))] + lines_from(s, j + 1)
            },
            None => seq![s.subrange(i, s.len() as int)],
        }
    }
}

/// The lines of `s` (`str::lines`).
pub open spec fn lines(s: Seq<char>) -> Seq<Seq<char>> {
    lines_from(s, 0)
}

/// The contents of a vector of lines.
pub open spec fn lines_view(v: Seq<Vec<char>>) -> Seq<Seq<char>> {
    v.map_values(|l: Vec<char>| l@)
}

/// The lines of `s`.
pub fn split_lines(s: &Vec<char>) -> (r: Vec<Vec<char>>)
    ensures
        lines_view(r@) == lines(s@),
{
    let mut r: Vec<Vec<char>> = Vec::new();
    let mut i: usize = 0;
    while i < s.len()
        invariant
            i <= s@.len(),
            lines_view(r@) + lines_from(s@, i as int) == lines(s@),
        decreases s@.len() - i,
    {
        match find_char(s, i, '\n') {
            Some(j) => {
                proof {
                    lemma_find_from(s@, i as int, '\n');
                }
                let mut end: usize = j;
                if end > i && s[end - 1] == '\r' {
                    end = end - 1;
                }
                let line = copy_range(s, i, end);
                assert(line@ == strip_cr(s@.subrange(i as int, j as int)));
                let ghost before = lines_view(r@);
                r.push(line);
                assert(lines_view(r@) =~= before.push(line@));
                assert(lines_from(s@, i as int) == seq![line@] + lines_from(s@, j + 1));
                assert(lines_view(r@) + lines_from(s@, j + 1) =~= before + lines_from(
                    s@,
                    i as int,
                ));
                i = j + 1;
            },
            None => {
                let line = copy_range(s, i, s.len());
                let ghost before = lines_view(r@);
                r.push(line);
                assert(lines_view(r@) =~= before.push(line@));
                assert(lines_view(r@) + lines_from(s@, s@.len() as int) =~= before + lines_from(
                    s@,
                    i as int,
                ));
                i = s.len();
            },
        }
    }
    r
}

/// The character of the decimal digit `d`.
pub open spec fn digit_char(d: int) -> char {
    ((d + 48) as u8) as char
}

/// The decimal digits of `n`, without leading zeros.
pub open spec fn decimal(n: nat) -> Seq<char>
    decreases n,
{
    if n < 10 {
        seq![digit_char(n as int)]
    } else {
        decimal(n / 10).push(digit_char((n % 10) as int))
    }
}

/// `s` with `0`s in front up to `width` characters.
pub open spec fn zero_pad(s: Seq<char>, width: nat) -> Seq<char> {
    if s.len() < width {
        Seq::new((width - s.len()) as nat, |k: int| '0') + s
    } else {
        s
    }
}

/// Appends the decimal digits of `n`.
pub fn push_decimal(out: &mut String, n: u64)
    ensures
        final(out)@ == old(out)@ + decimal(n as nat),
    decreases n,
{
    if n >= 10 {
        push_decimal(out, n / 10);
    }
    let d = (n % 10) as u8;
    out.push((d + 48u8) as char);
    assert(out@ =~= old(out)@ + decimal(n as nat));
}

pub open spec fn pow10(k: nat) -> nat
    decreases k,
{
    if k == 0 {
        1
    } else {
        10 * pow10((k - 1) as nat)
    }
}

pub proof fn lemma_decimal_len(n: nat, k: nat)
    requires
        n < pow10(k),
        k >= 1,
    ensures
        decimal(n).len() <= k,
        decimal(n).len() >= 1,
    decreases n,
{
    if n >= 10 {
        assert(k >= 2) by {
            if k == 1 {
                assert(pow10(1) == 10 * pow10(0));
            }
        }
        assert(n / 10 < pow10((k - 1) as nat));
        lemma_decimal_len(n / 10, (k - 1) as nat);
    }
}

/// The number of decimal digits of `n`.
pub fn decimal_len(n: u64) -> (r: usize)
    ensures
        r == decimal(n as nat).len(),
        r <= 20,
    decreases n,
{
    proof {
        reveal_with_fuel(pow10, 21);
        assert(pow10(20) == 100000000000000000000);
        lemma_decimal_len(n as nat, 20);
    }
    if n >= 10 {
        decimal_len(n / 10) + 1
    } else {
        1
    }
}

/// Appends the decimal digits of `n`, with `0`s in front up to `width`.
pub fn push_decimal_padded(out: &mut String, n: u64, width: usize)
    ensures
        final(out)@ == old(out)@ + zero_pad(decimal(n as nat), width as nat),
{
    let len = decimal_len(n);
    let ghost start = out@;
    if len < width {
        let mut k: usize = len;
        while k < width
            invariant
                len <= k <= width,
                out@ == start + Seq::new((k - len) as nat, |x: int| '0'),
            decreases width - k,
        {
            out.push('0');
            assert(out@ =~= start + Seq::new((k + 1 - len) as nat, |x: int| '0'));
            k = k + 1;
        }
    }
    push_decimal(out, n);
    assert(out@ =~= start + zero_pad(decimal(n as nat), width as nat));
}

/// `a` sorts no later than `b` when compared character by character, as
/// `str`'s order compares them.
pub open spec fn text_le(a: Seq<char>, b: Seq<char>) -> bool
    decreases a.len(),
{
    if a.len() == 0 {
        true
    } else if b.len() == 0 {
        false
    } else if a[0] != b[0] {
        (a[0] as int) < (b[0] as int)
    } else {
        text_le(a.drop_first(), b.drop_first())
    }
}

/// Comparing texts that start with parts of one length: the parts decide
/// unless they are equal.
pub proof fn lemma_text_le_concat(a1: Seq<char>, b1: Seq<char>, a2: Seq<char>, b2: Seq<char>)
    requires
        a1.len() == a2.len(),
    ensures
        text_le(a1 + b1, a2 + b2) == if a1 == a2 {
            text_le(b1, b2)
        } else {
            text_le(a1, a2)
        },
    decreases a1.len(),
{
    if a1.len() == 0 {
        assert(a1 + b1 =~= b1);
        assert(a2 + b2 =~= b2);
        assert(a1 =~= a2);
    } else {
        assert((a1 + b1).drop_first() =~= a1.drop_first() + b1);
        assert((a2 + b2).drop_first() =~= a2.drop_first() + b2);
        lemma_text_le_concat(a1.drop_first(), b1, a2.drop_first(), b2);
        if a1[0] == a2[0] && a1.drop_first() == a2.drop_first() {
            assert forall|i: int| 0 <= i < a1.len() implies a1[i] == a2[i] by {
                if i > 0 {
                    assert(a1[i] == a1.drop_first()[i - 1]);
                    assert(a2[i] == a2.drop_first()[i - 1]);
                }
            }
            assert(a1 =~= a2);
        }
        if a1 == a2 {
            assert(a1.drop_first() =~= a2.drop_first());
        }
    }
}

/// The ASCII digit for `d`.
pub proof fn lemma_digit_char(d: int)
    requires
        0 <= d < 10,
    ensures
        digit_char(d) as int == d + 48,
{
}

/// The last `w` decimal digits of `n`, leading zeros included.
pub open spec fn fixed_digits(n: nat, w: nat) -> Seq<char>
    decreases w,
{
    if w == 0 {
        Seq::empty()
    } else {
        fixed_digits(n / 10, (w - 1) as nat).push(digit_char((n % 10) as int))
    }
}

/// `w` zeros.
proof fn lemma_fixed_digits_zero(w: nat)
    ensures
        fixed_digits(0, w) =~= Seq::new(w, |k: int| '0'),
    decreases w,
{
    if w > 0 {
        lemma_fixed_digits_zero((w - 1) as nat);
        lemma_digit_char(0);
    }
}

/// A number below `10^w`, zero-padded to `w` places, is its last `w`
/// digits.
pub proof fn lemma_zero_pad_fixed(n: nat, w: nat)
    requires
        n < pow10(w),
        w >= 1,
    ensures
        zero_pad(decimal(n), w) == fixed_digits(n, w),
    decreases n,
{
    lemma_decimal_len(n, w);
    if n < 10 {
        lemma_fixed_digits_zero((w - 1) as nat);
        assert(n / 10 == 0 && n % 10 == n);
        assert(zero_pad(decimal(n), w) =~= fixed_digits(n, w));
    } else {
        assert(w >= 2) by {
            if w == 1 {
                assert(pow10(1) == 10 * pow10(0));
            }
        }
        assert(n / 10 < pow10((w - 1) as nat));
        lemma_decimal_len(n / 10, (w - 1) as nat);
        lemma_zero_pad_fixed(n / 10, (w - 1) as nat);
        assert(zero_pad(decimal(n), w) =~= zero_pad(decimal(n / 10), (w - 1) as nat).push(
            digit_char((n % 10) as int),
        ));
    }
}

/// Numbers below `10^w` written to `w` places: the texts are equal exactly
/// when the numbers are, and sort as the numbers do.
pub proof fn lemma_fixed_digits_order(x: nat, y: nat, w: nat)
    requires
        x < pow10(w),
        y < pow10(w),
    ensures
        fixed_digits(x, w).len() == w,
        fixed_digits(y, w).len() == w,
        (fixed_digits(x, w) == fixed_digits(y, w)) == (x == y),
        text_le(fixed_digits(x, w), fixed_digits(y, w)) == (x <= y),
    decreases w,
{
    if w == 0 {
        assert(x == 0 && y == 0);
    } else {
        let w1 = (w - 1) as nat;
        assert(x / 10 < pow10(w1) && y / 10 < pow10(w1));
        lemma_fixed_digits_order(x / 10, y / 10, w1);
        let a = fixed_digits(x / 10, w1);
        let b = fixed_digits(y / 10, w1);
        let cx = digit_char((x % 10) as int);
        let cy = digit_char((y % 10) as int);
        lemma_digit_char((x % 10) as int);
        lemma_digit_char((y % 10) as int);
        assert(a.push(cx) =~= a + seq![cx]);
        assert(b.push(cy) =~= b + seq![cy]);
        lemma_text_le_concat(a, seq![cx], b, seq![cy]);
        assert(seq![cx].drop_first() =~= Seq::<char>::empty());
        assert(seq![cy].drop_first() =~= Seq::<char>::empty());
        assert(text_le(seq![cx], seq![cy]) == (x % 10 <= y % 10)) by {
            reveal_with_fuel(text_le, 2);
        }
        if a.push(cx) == b.push(cy) {
            assert(a =~= a.push(cx).drop_last());
            assert(b =~= b.push(cy).drop_last());
            assert(a.push(cx).last() == cx);
        }
        assert(x == 10 * (x / 10) + x % 10);
        assert(y == 10 * (y / 10) + y % 10);
    }
}

} // verus!
