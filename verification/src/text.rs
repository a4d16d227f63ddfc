//! Text handling shared by the rest of the library: decimal numbers,
//! whitespace, and splitting a line on a separator.
//!
//! Every contract here is stated over `Seq<char>`, the view of a string.

use vstd::prelude::*;
use vstd::slice::slice_subrange;

verus! {

/// Why a piece of text is not a decimal number that fits the wanted type.
#[derive(Debug, Clone, Copy, PartialEq, Eq, Structural)]
pub enum NumberError {
    /// The text has no characters at all.
    Empty,
    /// The text is not an optional `+` followed by one or more digits.
    InvalidDigit,
    /// The digits are fine, but the number is above the largest allowed value.
    Overflow,
}

/// `c` is one of `0` to `9`.
pub open spec fn is_digit(c: char) -> bool {
    '0' <= c <= '9'
}

/// The value of the digit `c`.
pub open spec fn digit_value(c: char) -> nat
    recommends
        is_digit(c),
{
    (c as int - '0' as int) as nat
}

/// The digit that stands for `d`.
pub open spec fn digit_char(d: nat) -> char
    recommends
        d < 10,
{
    (d + '0' as nat) as char
}

/// Every character of `s` is a digit.
pub open spec fn all_digits(s: Seq<char>) -> bool {
    forall|i: int| 0 <= i < s.len() ==> is_digit(#[trigger] s[i])
}

/// The number that the digits `s` spell in base ten; 0 for no digits.
pub open spec fn decimal_value(s: Seq<char>) -> nat
    decreases s.len(),
{
    if s.len() == 0 {
        0
    } else {
        decimal_value(s.drop_last()) * 10 + digit_value(s.last())
    }
}

/// `s` without one leading `+`, if it has one.
pub open spec fn unsigned_digits(s: Seq<char>) -> Seq<char> {
    if s.len() > 0 && s[0] == '+' {
        s.skip(1)
    } else {
        s
    }
}

/// The number that `s` denotes, read as the standard library reads an
/// unsigned integer: an optional `+`, then one or more digits, nothing else,
/// and a value of at most `max`.
pub open spec fn parse_decimal(s: Seq<char>, max: nat) -> Result<nat, NumberError> {
    let digits = unsigned_digits(s);
    if s.len() == 0 {
        Err(NumberError::Empty)
    } else if digits.len() == 0 || !all_digits(digits) {
        Err(NumberError::InvalidDigit)
    } else if decimal_value(digits) > max {
        Err(NumberError::Overflow)
    } else {
        Ok(decimal_value(digits))
    }
}

/// The shortest decimal spelling of `n`.
pub open spec fn decimal_text(n: nat) -> Seq<char>
    decreases n,
{
    if n < 10 {
        seq![digit_char(n)]
    } else {
        decimal_text(n / 10).push(digit_char(n % 10))
    }
}

/// `c` has the Unicode property `White_Space`.
pub open spec fn is_whitespace(c: char) -> bool {
    let u = c as u32;
    ||| 0x09 <= u <= 0x0D
    ||| u == 0x20
    ||| u == 0x85
    ||| u == 0xA0
    ||| u == 0x1680
    ||| 0x2000 <= u <= 0x200A
    ||| u == 0x2028
    ||| u == 0x2029
    ||| u == 0x202F
    ||| u == 0x205F
    ||| u == 0x3000
}

/// `s` without the whitespace at its end.
pub open spec fn trim_end(s: Seq<char>) -> Seq<char>
    decreases s.len(),
{
    if s.len() > 0 && is_whitespace(s.last()) {
        trim_end(s.drop_last())
    } else {
        s
    }
}

/// `s` without the whitespace at its start.
pub open spec fn trim_start(s: Seq<char>) -> Seq<char>
    decreases s.len(),
{
    if s.len() > 0 && is_whitespace(s[0]) {
        trim_start(s.skip(1))
    } else {
        s
    }
}

/// `s` after every leading repetition of `prefix` has been taken off.
pub open spec fn trim_start_matches(s: Seq<char>, prefix: Seq<char>) -> Seq<char>
    decreases s.len(),
{
    if prefix.len() > 0 && prefix.is_prefix_of(s) {
        trim_start_matches(s.skip(prefix.len() as int), prefix)
    } else {
        s
    }
}

/// `s` after every trailing repetition of `suffix` has been taken off.
pub open spec fn trim_end_matches(s: Seq<char>, suffix: Seq<char>) -> Seq<char>
    decreases s.len(),
{
    if suffix.len() > 0 && suffix.is_suffix_of(s) {
        trim_end_matches(s.take(s.len() - suffix.len()), suffix)
    } else {
        s
    }
}

/// The position of the first `sep` in `s`, or the length of `s` if it has none.
pub open spec fn find(s: Seq<char>, sep: char) -> int
    decreases s.len(),
{
    if s.len() == 0 {
        0
    } else if s[0] == sep {
        0
    } else {
        1 + find(s.skip(1), sep)
    }
}

/// What stands before the first `sep` in `s`: all of `s` if it has none.
pub open spec fn first_piece(s: Seq<char>, sep: char) -> Seq<char> {
    s.take(find(s, sep))
}

/// What stands after the first `sep` in `s`: nothing if it has none.
pub open spec fn after_first(s: Seq<char>, sep: char) -> Seq<char> {
    if find(s, sep) < s.len() {
        s.skip(find(s, sep) + 1)
    } else {
        Seq::empty()
    }
}

/// The length of the first word of `s`: the characters up to the first
/// whitespace, or to the end.
pub open spec fn word_len(s: Seq<char>) -> int
    decreases s.len(),
{
    if s.len() == 0 || is_whitespace(s[0]) {
        0
    } else {
        1 + word_len(s.skip(1))
    }
}

/// The word of `s` with number `k`, counting from 0, where words are the
/// maximal runs of characters that are not whitespace; `None` if `s` has
/// `k` words or fewer.
pub open spec fn word(s: Seq<char>, k: nat) -> Option<Seq<char>>
    decreases k,
{
    let t = trim_start(s);
    if t.len() == 0 {
        None
    } else if k == 0 {
        Some(t.take(word_len(t)))
    } else {
        word(t.skip(word_len(t)), (k - 1) as nat)
    }
}

/// `find` is the one position before which no `sep` stands and at which
/// either `sep` stands or `s` ends.
pub proof fn lemma_find(s: Seq<char>, sep: char, at: int)
    requires
        0 <= at <= s.len(),
        forall|i: int| 0 <= i < at ==> s[i] != sep,
        at == s.len() || s[at] == sep,
    ensures
        find(s, sep) == at,
    decreases s.len(),
{
    if s.len() > 0 && s[0] != sep {
        let t = s.skip(1);
        assert forall|i: int| 0 <= i < at - 1 implies t[i] != sep by {
            assert(t[i] == s[i + 1]);
        }
        lemma_find(t, sep, at - 1);
    }
}

/// The decimal spelling of a number is a run of digits with that value.
pub proof fn lemma_decimal_text(n: nat)
    ensures
        decimal_text(n).len() > 0,
        all_digits(decimal_text(n)),
        decimal_value(decimal_text(n)) == n,
    decreases n,
{
    if n < 10 {
        let s = seq![digit_char(n)];
        assert(s.drop_last() =~= Seq::<char>::empty());
        assert(decimal_value(s.drop_last()) == 0);
        assert(s.last() == digit_char(n));
    } else {
        lemma_decimal_text(n / 10);
        let s = decimal_text(n);
        assert(s.drop_last() =~= decimal_text(n / 10));
        assert(s.last() == digit_char(n % 10));
    }
}

/// Reading back the decimal spelling of `n` gives `n`, for every `n` up to `max`.
pub proof fn lemma_parse_decimal_text(n: nat, max: nat)
    requires
        n <= max,
    ensures
        parse_decimal(decimal_text(n), max) == Ok::<nat, NumberError>(n),
{
    lemma_decimal_text(n);
}

/// The characters of `s`, in order.
pub fn to_chars(s: &str) -> (chars: Vec<char>)
    ensures
        chars@ == s@,
{
    let mut chars: Vec<char> = Vec::new();
    for c in it: s.chars()
        invariant
            chars@ == it.seq().take(it.index() as int),
            it.seq() == s@,
    {
        chars.push(c);
    }
    chars
}

/// Whether two runs of characters are the same.
pub fn same_chars(a: &[char], b: &[char]) -> (same: bool)
    ensures
        same == (a@ == b@),
{
    if a.len() != b.len() {
        return false;
    }
    let mut i: usize = 0;
    while i < a.len()
        invariant
            a@.len() == b@.len(),
            i <= a@.len(),
            forall|k: int| 0 <= k < i ==> a@[k] == b@[k],
        decreases a@.len() - i,
    {
        if a[i] != b[i] {
            return false;
        }
        i = i + 1;
    }
    assert(a@ =~= b@);
    true
}

/// Whether two strings hold the same text.
pub fn same_text(a: &str, b: &str) -> (same: bool)
    ensures
        same == (a@ == b@),
{
    let x = to_chars(a);
    let y = to_chars(b);
    same_chars(x.as_slice(), y.as_slice())
}

/// Whether `c` has the Unicode property `White_Space`.
pub fn char_is_whitespace(c: char) -> (w: bool)
    ensures
        w == is_whitespace(c),
{
    let u: u32 = c as u32;
    (0x09 <= u && u <= 0x0D) || u == 0x20 || u == 0x85 || u == 0xA0 || u == 0x1680 || (0x2000 <= u
        && u <= 0x200A) || u == 0x2028 || u == 0x2029 || u == 0x202F || u == 0x205F || u == 0x3000
}

/// The length of `s` once the whitespace at its end is left out.
pub fn trimmed_end(s: &[char]) -> (end: usize)
    ensures
        end <= s@.len(),
        s@.take(end as int) == trim_end(s@),
{
    let mut end: usize = s.len();
    proof {
        assert(s@.take(s@.len() as int) =~= s@);
    }
    while end > 0 && char_is_whitespace(s[end - 1])
        invariant
            end <= s@.len(),
            trim_end(s@.take(end as int)) == trim_end(s@),
        decreases end,
    {
        proof {
            let t = s@.take(end as int);
            assert(t.last() == s@[end - 1]);
            assert(t.drop_last() =~= s@.take(end - 1));
        }
        end = end - 1;
    }
    proof {
        let t = s@.take(end as int);
        if end > 0 {
            assert(t.last() == s@[end - 1]);
        }
    }
    end
}

/// The number of characters of whitespace at the start of `s`.
pub fn leading_whitespace(s: &[char]) -> (start: usize)
    ensures
        start <= s@.len(),
        s@.skip(start as int) == trim_start(s@),
{
    let mut start: usize = 0;
    proof {
        assert(s@.skip(0) =~= s@);
    }
    while start < s.len() && char_is_whitespace(s[start])
        invariant
            start <= s@.len(),
            trim_start(s@.skip(start as int)) == trim_start(s@),
        decreases s@.len() - start,
    {
        proof {
            let t = s@.skip(start as int);
            assert(t[0] == s@[start as int]);
            assert(t.skip(1) =~= s@.skip(start + 1));
        }
        start = start + 1;
    }
    proof {
        let t = s@.skip(start as int);
        if start < s@.len() {
            assert(t[0] == s@[start as int]);
        }
    }
    start
}

/// The length of the first word of `s`.
pub fn first_word_len(s: &[char]) -> (len: usize)
    ensures
        len == word_len(s@),
        len <= s@.len(),
{
    let mut len: usize = 0;
    proof {
        assert(s@.skip(0) =~= s@);
    }
    while len < s.len() && !char_is_whitespace(s[len])
        invariant
            len <= s@.len(),
            word_len(s@) == len + word_len(s@.skip(len as int)),
        decreases s@.len() - len,
    {
        proof {
            let t = s@.skip(len as int);
            assert(t[0] == s@[len as int]);
            assert(t.skip(1) =~= s@.skip(len + 1));
        }
        len = len + 1;
    }
    proof {
        let t = s@.skip(len as int);
        if len < s@.len() {
            assert(t[0] == s@[len as int]);
        }
    }
    len
}

/// The position of the first `sep` in `s`, or the length of `s`.
pub fn find_char(s: &[char], sep: char) -> (at: usize)
    ensures
        at == find(s@, sep),
        at <= s@.len(),
{
    let mut at: usize = 0;
    while at < s.len() && s[at] != sep
        invariant
            at <= s@.len(),
            forall|i: int| 0 <= i < at ==> s@[i] != sep,
        decreases s@.len() - at,
    {
        at = at + 1;
    }
    proof {
        lemma_find(s@, sep, at as int);
    }
    at
}

/// The number of characters that the leading repetitions of `prefix` take up in `s`.
pub fn leading_matches(s: &[char], prefix: &[char]) -> (start: usize)
    ensures
        start <= s@.len(),
        s@.skip(start as int) == trim_start_matches(s@, prefix@),
{
    let mut start: usize = 0;
    proof {
        assert(s@.skip(0) =~= s@);
    }
    if prefix.len() == 0 {
        return start;
    }
    while prefix.len() <= s.len() - start
        invariant
            prefix@.len() > 0,
            start <= s@.len(),
            trim_start_matches(s@.skip(start as int), prefix@) == trim_start_matches(s@, prefix@),
        decreases s@.len() - start,
    {
        let head = slice_subrange(s, start, start + prefix.len());
        proof {
            let t = s@.skip(start as int);
            assert(head@ =~= t.take(prefix@.len() as int));
            assert(prefix@.is_prefix_of(t) <==> head@ == prefix@) by {
                if head@ == prefix@ {
                    assert(t.subrange(0, prefix@.len() as int) =~= prefix@);
                }
                if prefix@.is_prefix_of(t) {
                    assert(head@ =~= prefix@);
                }
            }
            assert(t.skip(prefix@.len() as int) =~= s@.skip(start + prefix@.len()));
        }
        if !same_chars(head, prefix) {
            return start;
        }
        start = start + prefix.len();
    }
    start
}

/// The length of `s` once the trailing repetitions of `suffix` are left out.
pub fn trailing_matches(s: &[char], suffix: &[char]) -> (end: usize)
    ensures
        end <= s@.len(),
        s@.take(end as int) == trim_end_matches(s@, suffix@),
{
    let mut end: usize = s.len();
    proof {
        assert(s@.take(s@.len() as int) =~= s@);
    }
    if suffix.len() == 0 {
        return end;
    }
    while suffix.len() <= end
        invariant
            suffix@.len() > 0,
            end <= s@.len(),
            trim_end_matches(s@.take(end as int), suffix@) == trim_end_matches(s@, suffix@),
        decreases end,
    {
        let tail = slice_subrange(s, end - suffix.len(), end);
        proof {
            let t = s@.take(end as int);
            assert(tail@ =~= t.skip(t.len() - suffix@.len()));
            assert(suffix@.is_suffix_of(t) <==> tail@ == suffix@) by {
                if tail@ == suffix@ {
                    assert(t.subrange(t.len() - suffix@.len(), t.len() as int) =~= suffix@);
                }
                if suffix@.is_suffix_of(t) {
                    assert(tail@ =~= suffix@);
                }
            }
            assert(t.take(t.len() - suffix@.len()) =~= s@.take(end - suffix@.len()));
        }
        if !same_chars(tail, suffix) {
            return end;
        }
        end = end - suffix.len();
    }
    end
}

/// Cuts `s` at its first `sep`: what stands before it, and what stands after
/// it. Without a `sep` the first is all of `s` and the second is empty.
pub fn split_first<'a>(s: &'a [char], sep: char) -> (pieces: (&'a [char], &'a [char]))
    ensures
        pieces.0@ == first_piece(s@, sep),
        pieces.1@ == after_first(s@, sep),
{
    let at = find_char(s, sep);
    let head = slice_subrange(s, 0, at);
    let tail = if at < s.len() {
        slice_subrange(s, at + 1, s.len())
    } else {
        slice_subrange(s, at, at)
    };
    proof {
        assert(head@ =~= first_piece(s@, sep));
        assert(tail@ =~= after_first(s@, sep));
    }
    (head, tail)
}

/// The word of `s` with number `k`, counting from 0.
pub fn nth_word<'a>(s: &'a [char], k: usize) -> (w: Option<&'a [char]>)
    ensures
        match w {
            Some(t) => word(s@, k as nat) == Some(t@),
            None => word(s@, k as nat) is None,
        },
    decreases k,
{
    let start = leading_whitespace(s);
    let t = slice_subrange(s, start, s.len());
    proof {
        assert(t@ =~= trim_start(s@));
    }
    if t.len() == 0 {
        return None;
    }
    let len = first_word_len(t);
    if k == 0 {
        let w = slice_subrange(t, 0, len);
        proof {
            assert(w@ =~= t@.take(len as int));
        }
        Some(w)
    } else {
        let rest = slice_subrange(t, len, t.len());
        proof {
            assert(rest@ =~= t@.skip(len as int));
        }
        nth_word(rest, k - 1)
    }
}

/// Reads `s` as a decimal number of at most `max`.
pub fn parse_number(s: &[char], max: u64) -> (r: Result<u64, NumberError>)
    ensures
        match r {
            Ok(n) => parse_decimal(s@, max as nat) == Ok::<nat, NumberError>(n as nat),
            Err(e) => parse_decimal(s@, max as nat) == Err::<nat, NumberError>(e),
        },
{
    if s.len() == 0 {
        return Err(NumberError::Empty);
    }
    let first: usize = if s[0] == '+' {
        1
    } else {
        0
    };
    let ghost digits = unsigned_digits(s@);
    if first == s.len() {
        return Err(NumberError::InvalidDigit);
    }
    let mut i: usize = first;
    let mut value: u64 = 0;
    let mut overflow: bool = false;
    while i < s.len()
        invariant
            first <= i <= s@.len(),
            first < s@.len(),
            digits == unsigned_digits(s@),
            digits == s@.skip(first as int),
            all_digits(digits.take(i - first)),
            !overflow ==> value == decimal_value(digits.take(i - first)),
            !overflow ==> value <= max,
            overflow ==> decimal_value(digits.take(i - first)) > max,
        decreases s@.len() - i,
    {
        let c = s[i];
        assert(digits[i - first] == c);
        if !(c >= '0' && c <= '9') {
            assert(!is_digit(digits[i - first]));
            return Err(NumberError::InvalidDigit);
        }
        let d: u64 = (c as u32 - '0' as u32) as u64;
        proof {
            let next = digits.take(i - first + 1);
            assert(next.drop_last() =~= digits.take(i - first));
            assert(next.last() == c);
            assert(d == digit_value(c));
            assert forall|k: int| 0 <= k < next.len() implies is_digit(#[trigger] next[k]) by {
                if k < i - first {
                    assert(digits.take(i - first)[k] == next[k]);
                }
            }
        }
        if !overflow {
            if d > max || value > (max - d) / 10 {
                overflow = true;
            } else {
                value = value * 10 + d;
            }
        }
        i = i + 1;
    }
    proof {
        assert(digits.take(i - first) =~= digits);
    }
    if overflow {
        Err(NumberError::Overflow)
    } else {
        Ok(value)
    }
}

/// The text that stands for the digit `d`.
fn digit_text(d: u64) -> (s: &'static str)
    requires
        d < 10,
    ensures
        s@ == seq![digit_char(d as nat)],
{
    proof {
        reveal_strlit("0");
        reveal_strlit("1");
        reveal_strlit("2");
        reveal_strlit("3");
        reveal_strlit("4");
        reveal_strlit("5");
        reveal_strlit("6");
        reveal_strlit("7");
        reveal_strlit("8");
        reveal_strlit("9");
    }
    let s = if d == 0 {
        "0"
    } else if d == 1 {
        "1"
    } else if d == 2 {
        "2"
    } else if d == 3 {
        "3"
    } else if d == 4 {
        "4"
    } else if d == 5 {
        "5"
    } else if d == 6 {
        "6"
    } else if d == 7 {
        "7"
    } else if d == 8 {
        "8"
    } else {
        "9"
    };
    assert(s@ =~= seq![digit_char(d as nat)]);
    s
}

/// Appends the decimal spelling of `n` to `out`.
pub fn push_decimal(out: &mut String, n: u64)
    ensures
        final(out)@ == old(out)@ + decimal_text(n as nat),
    decreases n,
{
    if n >= 10 {
        push_decimal(out, n / 10);
    }
    out.append(digit_text(n % 10));
    proof {
        if n >= 10 {
            assert(old(out)@ + decimal_text(n as nat) =~= (old(out)@ + decimal_text((n / 10) as nat))
                + seq![digit_char((n % 10) as nat)]);
        }
    }
}

} // verus!
