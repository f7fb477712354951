//! IP addresses in their textual forms.
//!
//! IPv4 is four decimal octets with dots between them. IPv6 is up to eight
//! groups of hexadecimal digits with colons between them, where `::` may
//! stand once for a run of zero groups and the last two groups may be
//! written as an IPv4 address.

use vstd::prelude::*;
use crate::rate::ClientIp;
use crate::text::{
    all_digits, chars_of, code_of, decimal_value, find_char, index_of, is_digit, last_index_of,
    rfind_char,
};

verus! {

/// The value of a hexadecimal digit.
pub open spec fn hex_value(c: char) -> Option<int> {
    if '0' <= c && c <= '9' {
        Some(c as int - 48)
    } else if 'a' <= c && c <= 'f' {
        Some(c as int - 87)
    } else if 'A' <= c && c <= 'F' {
        Some(c as int - 55)
    } else {
        None
    }
}

/// Whether `s` consists of hexadecimal digits only.
pub open spec fn all_hex(s: Seq<char>) -> bool {
    forall|i: int| 0 <= i < s.len() ==> hex_value(#[trigger] s[i]) is Some
}

/// The number that the hexadecimal digits `s` denote.
pub open spec fn hex_number(s: Seq<char>) -> int
    decreases s.len(),
{
    if s.len() == 0 {
        0
    } else {
        hex_number(s.drop_last()) * 16 + hex_value(s.last())->0
    }
}

/// A group of an IPv6 address: one to four hexadecimal digits.
pub open spec fn group_of(s: Seq<char>) -> Option<int> {
    if 1 <= s.len() <= 4 && all_hex(s) {
        Some(hex_number(s))
    } else {
        None
    }
}

/// An octet of an IPv4 address: one to three decimal digits that denote
/// at most 255, with no zero in front of another digit.
pub open spec fn octet_of(s: Seq<char>) -> Option<int> {
    if 1 <= s.len() <= 3 && all_digits(s) && (s.len() == 1 || s[0] != '0') && decimal_value(s)
        <= 255 {
        Some(decimal_value(s) as int)
    } else {
        None
    }
}

/// The IPv4 address that `s` denotes: four octets with dots between them,
/// the first octet in the highest byte.
pub open spec fn ipv4_of(s: Seq<char>) -> Option<u32> {
    let d1 = index_of(s, '.');
    let r1 = s.skip(d1 + 1);
    let d2 = index_of(r1, '.');
    let r2 = r1.skip(d2 + 1);
    let d3 = index_of(r2, '.');
    let r3 = r2.skip(d3 + 1);
    if d1 < s.len() && d2 < r1.len() && d3 < r2.len() && octet_of(s.take(d1)) is Some && octet_of(
        r1.take(d2),
    ) is Some && octet_of(r2.take(d3)) is Some && octet_of(r3) is Some {
        Some(
            (((octet_of(s.take(d1))->0 * 256 + octet_of(r1.take(d2))->0) * 256 + octet_of(
                r2.take(d3),
            )->0) * 256 + octet_of(r3)->0) as u32,
        )
    } else {
        None
    }
}

/// Groups with colons between them: how many there are, and their value
/// as one number, the first group highest. More than eight are none.
pub open spec fn groups_of(s: Seq<char>) -> Option<(int, int)>
    decreases s.len(),
{
    let c = last_index_of(s, ':');
    let last = group_of(s.skip(c + 1));
    if c < 0 {
        match last {
            Some(g) => Some((1, g)),
            None => None,
        }
    } else if c >= s.len() {
        None
    } else {
        match (groups_of(s.take(c)), last) {
            (Some(f), Some(g)) => if f.0 < 8 {
                Some((f.0 + 1, f.1 * 65536 + g))
            } else {
                None
            },
            _ => None,
        }
    }
}

/// Groups with colons between them, where the last may be an IPv4 address
/// that stands for two groups.
pub open spec fn tail_groups_of(s: Seq<char>) -> Option<(int, int)> {
    let c = last_index_of(s, ':');
    let last = s.skip(c + 1);
    let front = if c < 0 {
        Some((0int, 0int))
    } else {
        groups_of(s.take(c))
    };
    match front {
        None => None,
        Some(f) => match group_of(last) {
            Some(g) => if f.0 < 8 {
                Some((f.0 + 1, f.1 * 65536 + g))
            } else {
                None
            },
            None => match ipv4_of(last) {
                Some(a) => if f.0 < 7 {
                    Some((f.0 + 2, f.1 * 4294967296 + a))
                } else {
                    None
                },
                None => None,
            },
        },
    }
}

/// Index of the first `::` in `s`, or `s.len()` if there is none.
pub open spec fn double_colon(s: Seq<char>) -> int
    decreases s.len(),
{
    if s.len() < 2 {
        s.len() as int
    } else if s[0] == ':' && s[1] == ':' {
        0
    } else {
        1 + double_colon(s.drop_first())
    }
}

/// 65536 to the power `k`.
pub open spec fn pow65536(k: int) -> int
    decreases k,
{
    if k <= 0 {
        1
    } else {
        65536 * pow65536(k - 1)
    }
}

/// The IPv6 address that `s` denotes, the first group in the highest
/// bits. Without `::` there are eight groups; with it there are at most
/// seven, those before it at the top and those after it at the bottom.
pub open spec fn ipv6_of(s: Seq<char>) -> Option<u128> {
    let k = double_colon(s);
    if k >= s.len() {
        match tail_groups_of(s) {
            Some(g) => if g.0 == 8 {
                Some(g.1 as u128)
            } else {
                None
            },
            None => None,
        }
    } else {
        let head = s.take(k);
        let tail = s.skip(k + 2);
        let h = if head.len() == 0 {
            Some((0int, 0int))
        } else {
            groups_of(head)
        };
        let t = if tail.len() == 0 {
            Some((0int, 0int))
        } else {
            tail_groups_of(tail)
        };
        match (h, t) {
            (Some(h), Some(t)) => if h.0 + t.0 <= 7 {
                Some((h.1 * pow65536(8 - h.0) + t.1) as u128)
            } else {
                None
            },
            _ => None,
        }
    }
}

/// The address that `s` denotes, in either form.
pub open spec fn ip_of(s: Seq<char>) -> Option<ClientIp> {
    match ipv4_of(s) {
        Some(a) => Some(ClientIp::V4(a)),
        None => match ipv6_of(s) {
            Some(a) => Some(ClientIp::V6(a)),
            None => None,
        },
    }
}

fn hex_digit(c: char) -> (r: Option<u32>)
    ensures
        match r {
            Some(v) => hex_value(c) == Some(v as int) && v < 16,
            None => hex_value(c) is None,
        },
{
    let u = code_of(c);
    if 48 <= u && u <= 57 {
        Some(u - 48)
    } else if 97 <= u && u <= 102 {
        Some(u - 87)
    } else if 65 <= u && u <= 70 {
        Some(u - 55)
    } else {
        None
    }
}

fn parse_group(s: &[char], from: usize, to: usize) -> (r: Option<u32>)
    requires
        from <= to <= s.len(),
    ensures
        match r {
            Some(v) => group_of(s@.subrange(from as int, to as int)) == Some(v as int) && v
                < 65536,
            None => group_of(s@.subrange(from as int, to as int)) is None,
        },
{
    let ghost part = s@.subrange(from as int, to as int);
    if to - from < 1 || to - from > 4 {
        return None;
    }
    let mut value: u32 = 0;
    let mut i: usize = from;
    assert(part.take(0) =~= Seq::<char>::empty());
    while i < to
        invariant
            from <= i <= to <= s.len(),
            to - from <= 4,
            part == s@.subrange(from as int, to as int),
            all_hex(part.take(i - from)),
            value == hex_number(part.take(i - from)),
            value < pow16(i - from),
        decreases to - i,
    {
        assert(part[i - from] == s@[i as int]);
        let d = match hex_digit(s[i]) {
            Some(d) => d,
            None => {
                return None;
            },
        };
        let ghost upto = part.take(i + 1 - from);
        assert(upto.drop_last() =~= part.take(i - from));
        assert(upto.last() == part[i - from]);
        assert(all_hex(upto)) by {
            assert forall|j: int| 0 <= j < upto.len() implies hex_value(#[trigger] upto[j]) is Some by {
                if j < i - from {
                    assert(upto[j] == part.take(i - from)[j]);
                }
            }
        }
        assert(pow16(i - from) <= 4096) by {
            reveal_with_fuel(pow16, 5);
        }
        assert(pow16(i + 1 - from) == 16 * pow16(i - from)) by {
            reveal_with_fuel(pow16, 5);
        }
        value = value * 16 + d;
        i += 1;
    }
    assert(part.take(to - from) =~= part);
    assert(pow16(to - from) <= 65536) by {
        reveal_with_fuel(pow16, 5);
    }
    Some(value)
}

spec fn pow16(k: int) -> int
    decreases k,
{
    if k <= 0 {
        1
    } else {
        16 * pow16(k - 1)
    }
}

fn parse_octet(s: &[char], from: usize, to: usize) -> (r: Option<u32>)
    requires
        from <= to <= s.len(),
    ensures
        match r {
            Some(v) => octet_of(s@.subrange(from as int, to as int)) == Some(v as int) && v < 256,
            None => octet_of(s@.subrange(from as int, to as int)) is None,
        },
{
    let ghost part = s@.subrange(from as int, to as int);
    if to - from < 1 || to - from > 3 {
        return None;
    }
    assert(part[0] == s@[from as int]);
    if to - from > 1 && code_of(s[from]) == 48 {
        return None;
    }
    let mut value: u32 = 0;
    let mut i: usize = from;
    assert(part.take(0) =~= Seq::<char>::empty());
    while i < to
        invariant
            from <= i <= to <= s.len(),
            to - from <= 3,
            part == s@.subrange(from as int, to as int),
            all_digits(part.take(i - from)),
            value == decimal_value(part.take(i - from)),
            value < 1000,
            i - from <= 2 ==> value < 100,
            i - from <= 1 ==> value < 10,
            i - from <= 0 ==> value < 1,
        decreases to - i,
    {
        assert(part[i - from] == s@[i as int]);
        let u = code_of(s[i]);
        if u < 48 || u > 57 {
            assert(!is_digit(part[i - from]));
            return None;
        }
        let ghost upto = part.take(i + 1 - from);
        assert(upto.drop_last() =~= part.take(i - from));
        assert(upto.last() == part[i - from]);
        assert(all_digits(upto)) by {
            assert forall|j: int| 0 <= j < upto.len() implies is_digit(#[trigger] upto[j]) by {
                if j < i - from {
                    assert(upto[j] == part.take(i - from)[j]);
                } else {
                    assert(upto[j] == part[i - from]);
                }
            }
        }
        value = value * 10 + (u - 48);
        i += 1;
    }
    assert(part.take(to - from) =~= part);
    if value > 255 {
        return None;
    }
    Some(value)
}

fn parse_ipv4(s: &[char], from: usize, to: usize) -> (r: Option<u32>)
    requires
        from <= to <= s.len(),
    ensures
        r == ipv4_of(s@.subrange(from as int, to as int)),
{
    let ghost part = s@.subrange(from as int, to as int);
    let d1 = find_char(s, from, to, '.');
    if d1 >= to {
        return None;
    }
    let ghost r1 = part.skip(d1 - from + 1);
    assert(r1 =~= s@.subrange(d1 + 1, to as int));
    assert(part.take(d1 - from) =~= s@.subrange(from as int, d1 as int));
    let d2 = find_char(s, d1 + 1, to, '.');
    if d2 >= to {
        return None;
    }
    let ghost r2 = r1.skip(d2 - d1);
    assert(r2 =~= s@.subrange(d2 + 1, to as int));
    assert(r1.take(d2 - d1 - 1) =~= s@.subrange(d1 + 1, d2 as int));
    let d3 = find_char(s, d2 + 1, to, '.');
    if d3 >= to {
        return None;
    }
    let ghost r3 = r2.skip(d3 - d2);
    assert(r3 =~= s@.subrange(d3 + 1, to as int));
    assert(r2.take(d3 - d2 - 1) =~= s@.subrange(d2 + 1, d3 as int));
    let a = match parse_octet(s, from, d1) {
        Some(v) => v,
        None => {
            return None;
        },
    };
    let b = match parse_octet(s, d1 + 1, d2) {
        Some(v) => v,
        None => {
            return None;
        },
    };
    let c = match parse_octet(s, d2 + 1, d3) {
        Some(v) => v,
        None => {
            return None;
        },
    };
    let d = match parse_octet(s, d3 + 1, to) {
        Some(v) => v,
        None => {
            return None;
        },
    };
    Some(((a * 256 + b) * 256 + c) * 256 + d)
}

proof fn lemma_pow65536(k: int)
    requires
        0 <= k <= 8,
    ensures
        pow65536(k) > 0,
        pow65536(k + 1) == 65536 * pow65536(k),
        pow65536(8) == 0x1_0000_0000_0000_0000_0000_0000_0000_0000,
        pow65536(k) <= pow65536(8),
{
    reveal_with_fuel(pow65536, 10);
}

proof fn lemma_groups_bound(s: Seq<char>)
    ensures
        groups_of(s) matches Some(g) ==> 1 <= g.0 <= 8 && 0 <= g.1 < pow65536(g.0),
    decreases s.len(),
{
    let c = last_index_of(s, ':');
    crate::text::lemma_last_index_of(s, ':');
    lemma_group_bound(s.skip(c + 1));
    if c >= 0 {
        lemma_groups_bound(s.take(c));
        if let Some(f) = groups_of(s.take(c)) {
            if f.0 < 8 {
                lemma_pow65536(f.0);
                if let Some(g) = group_of(s.skip(c + 1)) {
                    assert(f.1 * 65536 + g < pow65536(f.0 + 1)) by (nonlinear_arith)
                        requires
                            0 <= f.1 < pow65536(f.0),
                            0 <= g < 65536,
                            pow65536(f.0 + 1) == 65536 * pow65536(f.0),
                    ;
                }
            }
        }
    } else {
        reveal_with_fuel(pow65536, 2);
    }
}

proof fn lemma_hex_number_bound(s: Seq<char>)
    requires
        all_hex(s),
    ensures
        0 <= hex_number(s) < pow16(s.len() as int),
    decreases s.len(),
{
    if s.len() > 0 {
        let t = s.drop_last();
        assert(all_hex(t)) by {
            assert forall|i: int| 0 <= i < t.len() implies hex_value(#[trigger] t[i]) is Some by {
                assert(t[i] == s[i]);
            }
        }
        lemma_hex_number_bound(t);
        assert(hex_value(s.last()) is Some);
    }
}

proof fn lemma_group_bound(s: Seq<char>)
    ensures
        group_of(s) matches Some(g) ==> 0 <= g < 65536,
{
    if group_of(s) is Some {
        lemma_hex_number_bound(s);
        reveal_with_fuel(pow16, 5);
    }
}

fn parse_groups(s: &[char], from: usize, to: usize, budget: usize) -> (r: Option<(usize, u128)>)
    requires
        from <= to <= s.len(),
        budget <= 8,
    ensures
        match groups_of(s@.subrange(from as int, to as int)) {
            Some(g) => if g.0 <= budget {
                r == Some((g.0 as usize, g.1 as u128))
            } else {
                r is None
            },
            None => r is None,
        },
    decreases budget,
{
    let ghost part = s@.subrange(from as int, to as int);
    proof {
        lemma_groups_bound(part);
        lemma_pow65536(8);
    }
    if budget == 0 {
        return None;
    }
    match rfind_char(s, from, to, ':') {
        None => {
            assert(part.skip(0) =~= part);
            match parse_group(s, from, to) {
                Some(g) => Some((1, g as u128)),
                None => None,
            }
        },
        Some(c) => {
            assert(part.skip(c - from + 1) =~= s@.subrange(c + 1, to as int));
            assert(part.take(c - from) =~= s@.subrange(from as int, c as int));
            let last = match parse_group(s, c + 1, to) {
                Some(g) => g,
                None => {
                    return None;
                },
            };
            proof {
                lemma_groups_bound(part.take(c - from));
            }
            match parse_groups(s, from, c, budget - 1) {
                Some(f) => {
                    proof {
                        lemma_pow65536(f.0 as int);
                        assert(f.1 * 65536 + last < pow65536(f.0 + 1)) by (nonlinear_arith)
                            requires
                                0 <= f.1 < pow65536(f.0 as int),
                                0 <= last < 65536,
                                pow65536(f.0 + 1) == 65536 * pow65536(f.0 as int),
                        ;
                        lemma_pow65536(f.0 + 1);
                    }
                    Some((f.0 + 1, f.1 * 65536 + (last as u128)))
                },
                None => None,
            }
        },
    }
}

proof fn lemma_tail_groups_bound(s: Seq<char>)
    ensures
        tail_groups_of(s) matches Some(g) ==> 1 <= g.0 <= 8 && 0 <= g.1 < pow65536(g.0),
{
    let c = last_index_of(s, ':');
    let last = s.skip(c + 1);
    lemma_group_bound(last);
    if c >= 0 {
        lemma_groups_bound(s.take(c));
    }
    let front = if c < 0 {
        Some((0int, 0int))
    } else {
        groups_of(s.take(c))
    };
    reveal_with_fuel(pow65536, 3);
    if let Some(f) = front {
        if f.0 <= 8 {
            lemma_pow65536(f.0);
        }
        if f.0 < 8 {
            lemma_pow65536(f.0 + 1);
        }
        if let Some(g) = group_of(last) {
            if f.0 < 8 {
                assert(f.1 * 65536 + g < pow65536(f.0 + 1)) by (nonlinear_arith)
                    requires
                        0 <= f.1 < pow65536(f.0),
                        0 <= g < 65536,
                        pow65536(f.0 + 1) == 65536 * pow65536(f.0),
                ;
            }
        } else if let Some(a) = ipv4_of(last) {
            if f.0 < 7 {
                assert(f.1 * 4294967296 + a < pow65536(f.0 + 2)) by (nonlinear_arith)
                    requires
                        0 <= f.1 < pow65536(f.0),
                        0 <= a < 4294967296,
                        pow65536(f.0 + 2) == 4294967296 * pow65536(f.0),
                ;
            }
        }
    }
}

fn parse_tail_groups(s: &[char], from: usize, to: usize) -> (r: Option<(usize, u128)>)
    requires
        from <= to <= s.len(),
    ensures
        match tail_groups_of(s@.subrange(from as int, to as int)) {
            Some(g) => r == Some((g.0 as usize, g.1 as u128)),
            None => r is None,
        },
{
    let ghost part = s@.subrange(from as int, to as int);
    proof {
        lemma_tail_groups_bound(part);
        lemma_pow65536(8);
    }
    let (front, start): ((usize, u128), usize) = match rfind_char(s, from, to, ':') {
        None => {
            assert(part.skip(0) =~= part);
            ((0, 0), from)
        },
        Some(c) => {
            assert(part.skip(c - from + 1) =~= s@.subrange(c + 1, to as int));
            assert(part.take(c - from) =~= s@.subrange(from as int, c as int));
            proof {
                lemma_groups_bound(part.take(c - from));
            }
            match parse_groups(s, from, c, 8) {
                Some(f) => (f, c + 1),
                None => {
                    return None;
                },
            }
        },
    };
    proof {
        reveal_with_fuel(pow65536, 3);
        if front.0 <= 8 {
            lemma_pow65536(front.0 as int);
        }
    }
    match parse_group(s, start, to) {
        Some(g) => {
            if front.0 < 8 {
                proof {
                    lemma_pow65536(front.0 + 1);
                    assert(front.1 * 65536 + g < pow65536(front.0 + 1)) by (nonlinear_arith)
                        requires
                            0 <= front.1 < pow65536(front.0 as int),
                            0 <= g < 65536,
                            pow65536(front.0 + 1) == 65536 * pow65536(front.0 as int),
                    ;
                }
                Some((front.0 + 1, front.1 * 65536 + (g as u128)))
            } else {
                None
            }
        },
        None => match parse_ipv4(s, start, to) {
            Some(a) => {
                if front.0 < 7 {
                    proof {
                        lemma_pow65536(front.0 + 1);
                        lemma_pow65536(front.0 + 2);
                        assert(front.1 * 4294967296 + a < pow65536(front.0 + 2))
                            by (nonlinear_arith)
                            requires
                                0 <= front.1 < pow65536(front.0 as int),
                                0 <= a < 4294967296,
                                pow65536(front.0 + 2) == 4294967296 * pow65536(front.0 as int),
                        ;
                    }
                    Some((front.0 + 2, front.1 * 4294967296 + (a as u128)))
                } else {
                    None
                }
            },
            None => None,
        },
    }
}

fn find_double_colon(s: &[char]) -> (r: usize)
    ensures
        r == double_colon(s@),
        r <= s.len(),
        r < s.len() ==> r + 2 <= s.len(),
{
    if s.len() < 2 {
        return s.len();
    }
    let last: usize = s.len() - 1;
    let mut i: usize = 0;
    assert(s@.skip(0) =~= s@);
    while i < last
        invariant
            i <= last,
            last == s.len() - 1,
            double_colon(s@) == i + double_colon(s@.skip(i as int)),
        decreases last - i,
    {
        let ghost rest = s@.skip(i as int);
        assert(rest[0] == s@[i as int] && rest[1] == s@[i + 1]);
        if code_of(s[i]) == 58 && code_of(s[i + 1]) == 58 {
            return i;
        }
        assert(rest.drop_first() =~= s@.skip(i + 1));
        i += 1;
    }
    s.len()
}

fn shifted(value: u128, groups: usize) -> (r: u128)
    requires
        groups <= 8,
        value < pow65536(groups as int),
    ensures
        r == value * pow65536(8 - groups),
        groups > 0 ==> r + pow65536(8 - groups) <= pow65536(8),
{
    let mut r: u128 = value;
    let mut n: usize = groups;
    proof {
        lemma_pow65536(8);
        lemma_pow65536(groups as int);
        reveal_with_fuel(pow65536, 2);
    }
    while n < 8
        invariant
            groups <= n <= 8,
            r == value * pow65536(n - groups),
            r < pow65536(n as int),
            value < pow65536(groups as int),
            pow65536(8) == 0x1_0000_0000_0000_0000_0000_0000_0000_0000,
        decreases 8 - n,
    {
        proof {
            lemma_pow65536(n as int);
            lemma_pow65536(n - groups);
            assert(r * 65536 < pow65536(n + 1)) by (nonlinear_arith)
                requires
                    0 <= r < pow65536(n as int),
                    pow65536(n + 1) == 65536 * pow65536(n as int),
            ;
            lemma_pow65536(n + 1);
            assert(r * 65536 == value * pow65536(n + 1 - groups)) by (nonlinear_arith)
                requires
                    r == value * pow65536(n - groups),
                    pow65536(n + 1 - groups) == 65536 * pow65536(n - groups),
            ;
        }
        r = r * 65536;
        n += 1;
    }
    proof {
        if groups > 0 {
            lemma_pow65536(8 - groups);
            lemma_pow_split(groups as int);
            assert(value * pow65536(8 - groups) + pow65536(8 - groups) <= pow65536(8))
                by (nonlinear_arith)
                requires
                    0 <= value < pow65536(groups as int),
                    pow65536(8) == pow65536(groups as int) * pow65536(8 - groups),
                    pow65536(8 - groups) > 0,
            ;
        }
    }
    r
}

proof fn lemma_pow_split(k: int)
    requires
        0 <= k <= 8,
    ensures
        pow65536(8) == pow65536(k) * pow65536(8 - k),
    decreases 8 - k,
{
    reveal_with_fuel(pow65536, 2);
    if k < 8 {
        lemma_pow_split(k + 1);
        lemma_pow65536(k);
        lemma_pow65536(7 - k);
        assert(pow65536(k + 1) * pow65536(7 - k) == pow65536(k) * pow65536(8 - k))
            by (nonlinear_arith)
            requires
                pow65536(k + 1) == 65536 * pow65536(k),
                pow65536(8 - k) == 65536 * pow65536(7 - k),
        ;
    } else {
        assert(pow65536(0) == 1);
    }
}

fn parse_ipv6(s: &[char]) -> (r: Option<u128>)
    ensures
        r == ipv6_of(s@),
{
    let k = find_double_colon(s);
    assert(s@.subrange(0, s.len() as int) =~= s@);
    proof {
        lemma_pow65536(8);
    }
    if k >= s.len() {
        proof {
            lemma_tail_groups_bound(s@);
        }
        return match parse_tail_groups(s, 0, s.len()) {
            Some(g) => if g.0 == 8 {
                Some(g.1)
            } else {
                None
            },
            None => None,
        };
    }
    assert(s@.subrange(0, k as int) =~= s@.take(k as int));
    assert(s@.subrange(k + 2, s.len() as int) =~= s@.skip(k + 2));
    proof {
        lemma_groups_bound(s@.take(k as int));
        lemma_tail_groups_bound(s@.skip(k + 2));
        if let Some(g) = groups_of(s@.take(k as int)) {
            lemma_pow65536(g.0);
        }
        if let Some(g) = tail_groups_of(s@.skip(k + 2)) {
            lemma_pow65536(g.0);
        }
    }
    let head: (usize, u128) = if k == 0 {
        (0, 0)
    } else {
        match parse_groups(s, 0, k, 8) {
            Some(h) => h,
            None => {
                return None;
            },
        }
    };
    let tail: (usize, u128) = if k + 2 == s.len() {
        (0, 0)
    } else {
        match parse_tail_groups(s, k + 2, s.len()) {
            Some(t) => t,
            None => {
                return None;
            },
        }
    };
    if head.0 + tail.0 > 7 {
        return None;
    }
    proof {
        reveal_with_fuel(pow65536, 2);
        lemma_pow65536(tail.0 as int);
        lemma_pow65536(8 - head.0);
        lemma_pow_le(tail.0 as int, 8 - head.0);
    }
    let top = shifted(head.1, head.0);
    proof {
        let hs = s@.take(k as int);
        let ts = s@.skip(k + 2);
        let h = if hs.len() == 0 {
            Some((0int, 0int))
        } else {
            groups_of(hs)
        };
        let t = if ts.len() == 0 {
            Some((0int, 0int))
        } else {
            tail_groups_of(ts)
        };
        if let Some(g) = groups_of(hs) {
            lemma_pow65536(g.0);
        }
        if let Some(g) = tail_groups_of(ts) {
            lemma_pow65536(g.0);
        }
        assert(h == Some((head.0 as int, head.1 as int)));
        assert(t == Some((tail.0 as int, tail.1 as int)));
    }
    Some(top + tail.1)
}

proof fn lemma_pow_le(a: int, b: int)
    requires
        0 <= a <= b <= 8,
    ensures
        pow65536(a) <= pow65536(b),
    decreases b - a,
{
    if a < b {
        lemma_pow_le(a + 1, b);
        lemma_pow65536(a);
    }
}

/// Reads an IP address in either textual form.
pub fn parse_ip(text: &str) -> (r: Option<ClientIp>)
    ensures
        r == ip_of(text@),
{
    let chars = chars_of(text);
    let s = chars.as_slice();
    assert(s@.subrange(0, s.len() as int) =~= s@);
    match parse_ipv4(s, 0, s.len()) {
        Some(a) => Some(ClientIp::V4(a)),
        None => match parse_ipv6(s) {
            Some(a) => Some(ClientIp::V6(a)),
            None => None,
        },
    }
}

} // verus!
