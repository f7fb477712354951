//! Character-level helpers shared by the header, cache-control and
//! request-line code.

use vstd::prelude::*;
use vstd::string::StringExecFns;

verus! {

/// The code point of `c` with ASCII upper-case letters folded to lower case.
pub open spec fn fold_ascii(c: char) -> u32 {
    if 'A' <= c && c <= 'Z' {
        (c as u32 + 32) as u32
    } else {
        c as u32
    }
}

/// Equality of two strings up to the case of ASCII letters.
pub open spec fn eq_ignore_case(a: Seq<char>, b: Seq<char>) -> bool {
    &&& a.len() == b.len()
    &&& forall|i: int| 0 <= i < a.len() ==> fold_ascii(#[trigger] a[i]) == fold_ascii(b[i])
}

/// The characters of `s`, in order.
pub fn chars_of(s: &str) -> (v: Vec<char>)
    ensures
        v@ == s@,
{
    let mut v: Vec<char> = Vec::new();
    for c in it: s.chars()
        invariant
            v@ == it.seq().take(it.index() as int),
    {
        v.push(c);
    }
    v
}

/// The code point of `c`.
pub fn code_of(c: char) -> (u: u32)
    ensures
        u == c as u32,
        u as int == c as int,
{
    c as u32
}

fn fold_code(c: char) -> (r: u32)
    ensures
        r == fold_ascii(c),
{
    let u: u32 = c as u32;
    if 65 <= u && u <= 90 {
        u + 32
    } else {
        u
    }
}

/// Compares two character slices up to the case of ASCII letters.
pub fn eq_ignore_ascii_case(a: &[char], b: &[char]) -> (r: bool)
    ensures
        r == eq_ignore_case(a@, b@),
{
    if a.len() != b.len() {
        return false;
    }
    let mut i: usize = 0;
    while i < a.len()
        invariant
            a.len() == b.len(),
            i <= a.len(),
            forall|j: int| 0 <= j < i ==> fold_ascii(#[trigger] a@[j]) == fold_ascii(b@[j]),
        decreases a.len() - i,
    {
        if fold_code(a[i]) != fold_code(b[i]) {
            return false;
        }
        i += 1;
    }
    true
}

/// Compares two strings character by character.
pub fn str_eq(a: &str, b: &str) -> (r: bool)
    ensures
        r == (a@ == b@),
{
    let x = chars_of(a);
    let y = chars_of(b);
    if x.len() != y.len() {
        return false;
    }
    let mut i: usize = 0;
    while i < x.len()
        invariant
            x@ == a@,
            y@ == b@,
            x@.len() == y@.len(),
            i <= x@.len(),
            forall|j: int| 0 <= j < i ==> x@[j] == y@[j],
        decreases x.len() - i,
    {
        if x[i] != y[i] {
            return false;
        }
        i += 1;
    }
    assert(x@ =~= y@);
    true
}

/// ASCII whitespace: space, tab, line feed, form feed, carriage return.
pub open spec fn is_ascii_space(c: char) -> bool {
    c == ' ' || c == '\t' || c == '\n' || c == '\x0C' || c == '\r'
}

/// The characters with the Unicode `White_Space` property.
pub open spec fn is_unicode_space(c: char) -> bool {
    let u = c as u32;
    ||| 0x09 <= u <= 0x0D
    ||| u == 0x20
    ||| u == 0x85
    ||| u == 0xA0
    ||| u == 0x1680
    ||| 0x2000 <= u <= 0x200A
    ||| u == 0x2028
    ||| u == 0x2029
    ||| u == 0x202F
    ||| u == 0x205F
    ||| u == 0x3000
}

/// A class of characters that trimming removes from the ends of a string.
#[derive(Clone, Copy, Debug, PartialEq, Eq, Structural)]
pub enum Strip {
    /// ASCII whitespace.
    AsciiSpace,
    /// Everything with the Unicode `White_Space` property.
    UnicodeSpace,
    /// The double quote.
    Quotes,
}

/// Whether `c` belongs to the class `what`.
pub open spec fn is_blank(c: char, what: Strip) -> bool {
    match what {
        Strip::AsciiSpace => is_ascii_space(c),
        Strip::UnicodeSpace => is_unicode_space(c),
        Strip::Quotes => c == '"',
    }
}

/// Index of the first character of `s` outside the class, or `s.len()`.
pub open spec fn trim_start(s: Seq<char>, what: Strip) -> int
    decreases s.len(),
{
    if s.len() > 0 && is_blank(s[0], what) {
        1 + trim_start(s.drop_first(), what)
    } else {
        0
    }
}

/// One past the index of the last character of `s` outside the class, or 0.
pub open spec fn trim_end(s: Seq<char>, what: Strip) -> int
    decreases s.len(),
{
    if s.len() > 0 && is_blank(s.last(), what) {
        trim_end(s.drop_last(), what)
    } else {
        s.len() as int
    }
}

/// `s` without the characters of the class at its two ends.
pub open spec fn trimmed(s: Seq<char>, what: Strip) -> Seq<char> {
    let a = trim_start(s, what);
    let b = trim_end(s, what);
    if a <= b {
        s.subrange(a, b)
    } else {
        Seq::empty()
    }
}

/// The bounds of `trim_start`: it stops at the first character that is not
/// blank, and everything before it is blank.
pub proof fn lemma_trim_start(s: Seq<char>, what: Strip)
    ensures
        0 <= trim_start(s, what) <= s.len(),
        forall|i: int| 0 <= i < trim_start(s, what) ==> is_blank(#[trigger] s[i], what),
        trim_start(s, what) < s.len() ==> !is_blank(s[trim_start(s, what)], what),
    decreases s.len(),
{
    if s.len() > 0 && is_blank(s[0], what) {
        let t = s.drop_first();
        lemma_trim_start(t, what);
        assert forall|i: int| 0 <= i < trim_start(s, what) implies is_blank(
            #[trigger] s[i],
            what,
        ) by {
            if i > 0 {
                assert(s[i] == t[i - 1]);
            }
        }
        if trim_start(s, what) < s.len() {
            assert(s[trim_start(s, what)] == t[trim_start(t, what)]);
        }
    }
}

/// The bounds of `trim_end`: the character before it is not blank, and
/// everything from it on is blank.
pub proof fn lemma_trim_end(s: Seq<char>, what: Strip)
    ensures
        0 <= trim_end(s, what) <= s.len(),
        forall|i: int| trim_end(s, what) <= i < s.len() ==> is_blank(#[trigger] s[i], what),
        trim_end(s, what) > 0 ==> !is_blank(s[trim_end(s, what) - 1], what),
    decreases s.len(),
{
    if s.len() > 0 && is_blank(s.last(), what) {
        let t = s.drop_last();
        lemma_trim_end(t, what);
        assert forall|i: int| trim_end(s, what) <= i < s.len() implies is_blank(
            #[trigger] s[i],
            what,
        ) by {
            if i < s.len() - 1 {
                assert(s[i] == t[i]);
            }
        }
        if trim_end(s, what) > 0 {
            assert(s[trim_end(s, what) - 1] == t[trim_end(t, what) - 1]);
        }
    }
}

/// Tells whether `c` belongs to the class `what`.
pub fn blank(c: char, what: Strip) -> (r: bool)
    ensures
        r == is_blank(c, what),
{
    let u: u32 = c as u32;
    match what {
        Strip::AsciiSpace => u == 0x20 || u == 0x09 || u == 0x0A || u == 0x0C || u == 0x0D,
        Strip::UnicodeSpace => (0x09 <= u && u <= 0x0D) || u == 0x20 || u == 0x85 || u == 0xA0
            || u == 0x1680 || (0x2000 <= u && u <= 0x200A) || u == 0x2028 || u == 0x2029 || u
            == 0x202F || u == 0x205F || u == 0x3000,
        Strip::Quotes => u == 0x22,
    }
}

/// Finds the part of `s[from..to]` that is left when the characters of the
/// class are removed from its two ends, as a pair of indices into `s`.
pub fn trim_bounds(s: &[char], from: usize, to: usize, what: Strip) -> (r: (usize, usize))
    requires
        from <= to <= s.len(),
    ensures
        from <= r.0 <= r.1 <= to,
        s@.subrange(r.0 as int, r.1 as int) == trimmed(s@.subrange(from as int, to as int), what),
{
    let ghost part = s@.subrange(from as int, to as int);
    proof {
        lemma_trim_start(part, what);
        lemma_trim_end(part, what);
    }
    let mut a: usize = from;
    while a < to && blank(s[a], what)
        invariant
            from <= a <= to <= s.len(),
            part == s@.subrange(from as int, to as int),
            a - from <= trim_start(part, what),
            forall|i: int| 0 <= i < trim_start(part, what) ==> is_blank(#[trigger] part[i], what),
            trim_start(part, what) < part.len() ==> !is_blank(
                part[trim_start(part, what)],
                what,
            ),
            trim_start(part, what) <= part.len(),
        decreases to - a,
    {
        assert(part[a - from] == s@[a as int]);
        a += 1;
    }
    assert(a - from == trim_start(part, what)) by {
        if a < to {
            assert(part[a - from] == s@[a as int]);
        }
    }
    let mut b: usize = to;
    while b > a && blank(s[b - 1], what)
        invariant
            from <= a <= b <= to <= s.len(),
            part == s@.subrange(from as int, to as int),
            forall|i: int| b - from <= i < part.len() ==> is_blank(#[trigger] part[i], what),
        decreases b,
    {
        assert(part[b - 1 - from] == s@[b - 1]);
        b -= 1;
    }
    proof {
        let ts = trim_start(part, what);
        let te = trim_end(part, what);
        if b > a {
            assert(part[b - 1 - from] == s@[b - 1]);
            assert(b - from == te);
            assert(part.subrange(ts, te) =~= s@.subrange(a as int, b as int));
        } else {
            assert(te <= ts);
            assert(trimmed(part, what) =~= s@.subrange(a as int, b as int));
        }
    }
    (a, b)
}

/// Index of the first `c` in `s`, or `s.len()` if there is none.
pub open spec fn index_of(s: Seq<char>, c: char) -> int
    decreases s.len(),
{
    if s.len() > 0 && s[0] != c {
        1 + index_of(s.drop_first(), c)
    } else {
        0
    }
}

/// `index_of` is within bounds, points at a `c` if it points at anything,
/// and no `c` stands before it.
pub proof fn lemma_index_of(s: Seq<char>, c: char)
    ensures
        0 <= index_of(s, c) <= s.len(),
        index_of(s, c) < s.len() ==> s[index_of(s, c)] == c,
        forall|i: int| 0 <= i < index_of(s, c) ==> #[trigger] s[i] != c,
    decreases s.len(),
{
    if s.len() > 0 && s[0] != c {
        let t = s.drop_first();
        lemma_index_of(t, c);
        assert forall|i: int| 0 <= i < index_of(s, c) implies #[trigger] s[i] != c by {
            if i > 0 {
                assert(s[i] == t[i - 1]);
            }
        }
        if index_of(s, c) < s.len() {
            assert(s[index_of(s, c)] == t[index_of(t, c)]);
        }
    }
}

/// Finds the first `c` in `s[from..to]`; returns `to` if there is none.
pub fn find_char(s: &[char], from: usize, to: usize, c: char) -> (r: usize)
    requires
        from <= to <= s.len(),
    ensures
        from <= r <= to,
        r - from == index_of(s@.subrange(from as int, to as int), c),
{
    let ghost part = s@.subrange(from as int, to as int);
    proof {
        lemma_index_of(part, c);
    }
    let mut i: usize = from;
    while i < to && s[i] != c
        invariant
            from <= i <= to <= s.len(),
            part == s@.subrange(from as int, to as int),
            forall|j: int| 0 <= j < i - from ==> #[trigger] part[j] != c,
        decreases to - i,
    {
        assert(part[i - from] == s@[i as int]);
        i += 1;
    }
    proof {
        if i < to {
            assert(part[i - from] == s@[i as int]);
        }
        let k = index_of(part, c);
        if k < i - from {
            assert(part[k] != c);
        }
    }
    i
}

/// Index of the last `c` in `s`, or -1 if there is none.
pub open spec fn last_index_of(s: Seq<char>, c: char) -> int
    decreases s.len(),
{
    if s.len() == 0 {
        -1
    } else if s.last() == c {
        s.len() - 1
    } else {
        last_index_of(s.drop_last(), c)
    }
}

/// `last_index_of` points at a `c` if it points at anything, and no `c`
/// stands after it.
pub proof fn lemma_last_index_of(s: Seq<char>, c: char)
    ensures
        -1 <= last_index_of(s, c) < s.len(),
        last_index_of(s, c) >= 0 ==> s[last_index_of(s, c)] == c,
        forall|i: int| last_index_of(s, c) < i < s.len() ==> #[trigger] s[i] != c,
    decreases s.len(),
{
    if s.len() > 0 && s.last() != c {
        let t = s.drop_last();
        lemma_last_index_of(t, c);
        assert forall|i: int| last_index_of(s, c) < i < s.len() implies #[trigger] s[i] != c by {
            if i < s.len() - 1 {
                assert(s[i] == t[i]);
            }
        }
        if last_index_of(s, c) >= 0 {
            assert(s[last_index_of(s, c)] == t[last_index_of(t, c)]);
        }
    }
}

/// Finds the last `c` in `s[from..to]`.
pub fn rfind_char(s: &[char], from: usize, to: usize, c: char) -> (r: Option<usize>)
    requires
        from <= to <= s.len(),
    ensures
        match r {
            Some(i) => from <= i < to && i - from == last_index_of(
                s@.subrange(from as int, to as int),
                c,
            ),
            None => last_index_of(s@.subrange(from as int, to as int), c) == -1,
        },
{
    let ghost part = s@.subrange(from as int, to as int);
    proof {
        lemma_last_index_of(part, c);
    }
    let mut i: usize = to;
    while i > from
        invariant
            from <= i <= to <= s.len(),
            part == s@.subrange(from as int, to as int),
            forall|j: int| i - from <= j < part.len() ==> #[trigger] part[j] != c,
        decreases i,
    {
        assert(part[i - 1 - from] == s@[i - 1]);
        if s[i - 1] == c {
            proof {
                lemma_last_index_of(part, c);
                let k = last_index_of(part, c);
                if k > i - 1 - from {
                    assert(part[k] != c);
                } else if k < i - 1 - from {
                    assert(part[i - 1 - from] != c);
                }
            }
            return Some(i - 1);
        }
        i -= 1;
    }
    proof {
        lemma_last_index_of(part, c);
        let k = last_index_of(part, c);
        if k >= 0 {
            assert(part[k] != c);
        }
    }
    None
}

/// The digit character for `d`, which is below ten.
pub open spec fn digit_char(d: nat) -> char {
    if d == 0 {
        '0'
    } else if d == 1 {
        '1'
    } else if d == 2 {
        '2'
    } else if d == 3 {
        '3'
    } else if d == 4 {
        '4'
    } else if d == 5 {
        '5'
    } else if d == 6 {
        '6'
    } else if d == 7 {
        '7'
    } else if d == 8 {
        '8'
    } else {
        '9'
    }
}

/// The decimal notation of `n`, without leading zeros.
pub open spec fn decimal(n: nat) -> Seq<char>
    decreases n,
{
    if n < 10 {
        seq![digit_char(n)]
    } else {
        decimal(n / 10).push(digit_char(n % 10))
    }
}

fn digit_str(d: u64) -> (r: &'static str)
    requires
        d < 10,
    ensures
        r@ == seq![digit_char(d as nat)],
{
    proof {
        reveal_strlit("0");
        reveal_strlit("1");
        reveal_strlit("2");
        reveal_strlit("3");
        reveal_strlit("4");
        reveal_strlit("5");
        reveal_strlit("6");
        reveal_strlit("7");
        reveal_strlit("8");
        reveal_strlit("9");
    }
    let r = if d == 0 {
        "0"
    } else if d == 1 {
        "1"
    } else if d == 2 {
        "2"
    } else if d == 3 {
        "3"
    } else if d == 4 {
        "4"
    } else if d == 5 {
        "5"
    } else if d == 6 {
        "6"
    } else if d == 7 {
        "7"
    } else if d == 8 {
        "8"
    } else {
        "9"
    };
    assert(r@ =~= seq![digit_char(d as nat)]);
    r
}

/// Writes `n` in decimal notation.
pub fn to_decimal(n: u64) -> (r: String)
    ensures
        r@ == decimal(n as nat),
    decreases n,
{
    if n < 10 {
        String::from_str(digit_str(n))
    } else {
        let mut r = to_decimal(n / 10);
        r.append(digit_str(n % 10));
        r
    }
}

/// The two strings, one after the other.
pub fn join2(a: &str, b: &str) -> (r: String)
    ensures
        r@ == a@ + b@,
{
    let mut r = String::from_str(a);
    r.append(b);
    r
}

/// The three strings, one after the other.
pub fn join3(a: &str, b: &str, c: &str) -> (r: String)
    ensures
        r@ == a@ + b@ + c@,
{
    let mut r = String::from_str(a);
    r.append(b);
    r.append(c);
    r
}

/// Whether `c` is an ASCII decimal digit.
pub open spec fn is_digit(c: char) -> bool {
    '0' <= c && c <= '9'
}

/// Whether `s` consists of ASCII decimal digits only.
pub open spec fn all_digits(s: Seq<char>) -> bool {
    forall|i: int| 0 <= i < s.len() ==> is_digit(#[trigger] s[i])
}

/// The number that the decimal digits `s` denote.
pub open spec fn decimal_value(s: Seq<char>) -> nat
    decreases s.len(),
{
    if s.len() == 0 {
        0
    } else {
        (decimal_value(s.drop_last()) * 10 + (s.last() as u32 - 48)) as nat
    }
}

/// What a string denotes as a `u64`: an optional `+`, then at least one
/// decimal digit, with a value that fits. Anything else denotes nothing.
pub open spec fn parsed_u64(s: Seq<char>) -> Option<u64> {
    let digits = if s.len() > 0 && s[0] == '+' {
        s.skip(1)
    } else {
        s
    };
    if digits.len() > 0 && all_digits(digits) && decimal_value(digits) <= u64::MAX {
        Some(decimal_value(digits) as u64)
    } else {
        None
    }
}

proof fn lemma_decimal_value_grows(s: Seq<char>, k: int)
    requires
        0 <= k <= s.len(),
        all_digits(s),
    ensures
        decimal_value(s.take(k)) <= decimal_value(s),
    decreases s.len() - k,
{
    if k < s.len() {
        lemma_decimal_value_grows(s, k + 1);
        assert(s.take(k + 1).drop_last() =~= s.take(k));
        assert(is_digit(s[k]));
    } else {
        assert(s.take(k) =~= s);
    }
}

/// Reads `s[from..to]` as a `u64`.
pub fn parse_u64(s: &[char], from: usize, to: usize) -> (r: Option<u64>)
    requires
        from <= to <= s.len(),
    ensures
        r == parsed_u64(s@.subrange(from as int, to as int)),
{
    let ghost whole = s@.subrange(from as int, to as int);
    let mut start: usize = from;
    if start < to {
        assert(whole[0] == s@[from as int]);
        if code_of(s[start]) == 0x2B {
            start += 1;
        }
    }
    let ghost digits = s@.subrange(start as int, to as int);
    assert(digits =~= if whole.len() > 0 && whole[0] == '+' {
        whole.skip(1)
    } else {
        whole
    });
    if start == to {
        return None;
    }
    let mut value: u64 = 0;
    let mut i: usize = start;
    while i < to
        invariant
            start <= i <= to <= s.len(),
            digits == s@.subrange(start as int, to as int),
            whole == s@.subrange(from as int, to as int),
            digits.len() > 0,
            digits == if whole.len() > 0 && whole[0] == '+' {
                whole.skip(1)
            } else {
                whole
            },
            all_digits(digits.take(i - start)),
            value == decimal_value(digits.take(i - start)),
        decreases to - i,
    {
        let u: u32 = code_of(s[i]);
        assert(digits[i - start] == s@[i as int]);
        if u < 48 || u > 57 {
            assert(!is_digit(digits[i - start]));
            return None;
        }
        let d: u64 = (u - 48) as u64;
        assert(digits.take(i + 1 - start).drop_last() =~= digits.take(i - start));
        assert(digits.take(i + 1 - start).last() == digits[i - start]);
        assert(all_digits(digits.take(i + 1 - start))) by {
            assert forall|j: int| 0 <= j < i + 1 - start implies is_digit(
                #[trigger] digits.take(i + 1 - start)[j],
            ) by {
                if j < i - start {
                    assert(digits.take(i + 1 - start)[j] == digits.take(i - start)[j]);
                } else {
                    assert(digits.take(i + 1 - start)[j] == digits[i - start]);
                    assert(is_digit(digits[i - start]));
                }
            }
        }
        if value > (u64::MAX - d) / 10 {
            proof {
                if all_digits(digits) {
                    lemma_decimal_value_grows(digits, i + 1 - start);
                }
            }
            return None;
        }
        value = value * 10 + d;
        i += 1;
    }
    assert(digits.take(to - start) =~= digits);
    Some(value)
}

} // verus!
