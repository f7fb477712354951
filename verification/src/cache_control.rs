//! What an upstream's `Cache-Control` header says about storing its
//! response, and for how long a response is kept.

use vstd::prelude::*;
use vstd::slice::slice_subrange;
use vstd::utf8::{decode_utf8, valid_utf8};
use crate::text::{
    chars_of, eq_ignore_ascii_case, eq_ignore_case, find_char, index_of, lemma_index_of,
    parse_u64, parsed_u64, trim_bounds, trimmed, Strip,
};
use crate::trusted::str_from_utf8;

verus! {

/// The parts of a `Cache-Control` header that matter to the cache.
#[derive(Clone, Copy, Debug, PartialEq, Eq, Structural)]
pub struct CacheControl {
    /// The last numeric `s-maxage`, in seconds.
    pub s_maxage: Option<u64>,
    /// The last numeric `max-age`, in seconds.
    pub max_age: Option<u64>,
    /// Whether `no-store` or `no-cache` is present.
    pub forbids: bool,
}

/// One directive of a `Cache-Control` header, as far as the cache cares.
#[derive(Clone, Copy, Debug, PartialEq, Eq, Structural)]
pub enum Directive {
    Forbid,
    SharedMaxAge(u64),
    MaxAge(u64),
    Other,
}

/// A header that says nothing.
pub open spec fn silent() -> CacheControl {
    CacheControl { s_maxage: None, max_age: None, forbids: false }
}

/// The meaning of one directive, given without the blanks around it.
///
/// `no-store` and `no-cache` forbid storing. `s-maxage=N` and `max-age=N`
/// give an age when `N`, with blanks and then double quotes removed from its
/// ends, is a number. Names are matched without regard to letter case.
/// Everything else, a malformed number included, means nothing.
pub open spec fn directive_of(part: Seq<char>) -> Directive {
    let eq = index_of(part, '=');
    let name = trimmed(part.take(eq), Strip::UnicodeSpace);
    let number = parsed_u64(
        trimmed(trimmed(part.skip(eq + 1), Strip::UnicodeSpace), Strip::Quotes),
    );
    if eq_ignore_case(part, "no-store"@) || eq_ignore_case(part, "no-cache"@) {
        Directive::Forbid
    } else if eq >= part.len() {
        Directive::Other
    } else if eq_ignore_case(name, "s-maxage"@) {
        match number {
            Some(n) => Directive::SharedMaxAge(n),
            None => Directive::Other,
        }
    } else if eq_ignore_case(name, "max-age"@) {
        match number {
            Some(n) => Directive::MaxAge(n),
            None => Directive::Other,
        }
    } else {
        Directive::Other
    }
}

/// `cc` with one more directive taken into account. A later age replaces
/// an earlier one of the same kind.
pub open spec fn with_directive(cc: CacheControl, d: Directive) -> CacheControl {
    match d {
        Directive::Forbid => CacheControl { forbids: true, ..cc },
        Directive::SharedMaxAge(n) => CacheControl { s_maxage: Some(n), ..cc },
        Directive::MaxAge(n) => CacheControl { max_age: Some(n), ..cc },
        Directive::Other => cc,
    }
}

/// `cc` with the directives of `text` taken into account, from left to
/// right. Directives are separated by commas; blanks around them are ignored.
pub open spec fn with_directives(cc: CacheControl, text: Seq<char>) -> CacheControl
    decreases text.len(),
{
    let comma = index_of(text, ',');
    let next = with_directive(cc, directive_of(trimmed(text.take(comma), Strip::UnicodeSpace)));
    if 0 <= comma < text.len() {
        with_directives(next, text.skip(comma + 1))
    } else {
        next
    }
}

/// What the header value `value` says. A value that is not UTF-8 says
/// nothing.
pub open spec fn cache_control_of(value: Seq<u8>) -> CacheControl {
    if valid_utf8(value) {
        with_directives(silent(), decode_utf8(value))
    } else {
        silent()
    }
}

fn is_word(s: &[char], literal: &str) -> (r: bool)
    ensures
        r == eq_ignore_case(s@, literal@),
{
    let lit = chars_of(literal);
    eq_ignore_ascii_case(s, lit.as_slice())
}

fn read_number(s: &[char], from: usize, to: usize) -> (r: Option<u64>)
    requires
        from <= to <= s.len(),
    ensures
        r == parsed_u64(
            trimmed(trimmed(s@.subrange(from as int, to as int), Strip::UnicodeSpace), Strip::Quotes),
        ),
{
    let (a, b) = trim_bounds(s, from, to, Strip::UnicodeSpace);
    let (c, d) = trim_bounds(s, a, b, Strip::Quotes);
    parse_u64(s, c, d)
}

fn read_directive(s: &[char], from: usize, to: usize) -> (d: Directive)
    requires
        from <= to <= s.len(),
    ensures
        d == directive_of(trimmed(s@.subrange(from as int, to as int), Strip::UnicodeSpace)),
{
    let (a, b) = trim_bounds(s, from, to, Strip::UnicodeSpace);
    let part = slice_subrange(s, a, b);
    if is_word(part, "no-store") || is_word(part, "no-cache") {
        return Directive::Forbid;
    }
    let eq = find_char(s, a, b, '=');
    if eq >= b {
        return Directive::Other;
    }
    assert(part@.take(eq - a) =~= s@.subrange(a as int, eq as int));
    assert(part@.skip(eq - a + 1) =~= s@.subrange(eq + 1, b as int));
    assert(s@.subrange(a as int, eq as int) =~= s@.subrange(a as int, eq as int).subrange(
        0,
        eq - a,
    ));
    let (na, nb) = trim_bounds(s, a, eq, Strip::UnicodeSpace);
    let name = slice_subrange(s, na, nb);
    if is_word(name, "s-maxage") {
        match read_number(s, eq + 1, b) {
            Some(n) => Directive::SharedMaxAge(n),
            None => Directive::Other,
        }
    } else if is_word(name, "max-age") {
        match read_number(s, eq + 1, b) {
            Some(n) => Directive::MaxAge(n),
            None => Directive::Other,
        }
    } else {
        Directive::Other
    }
}

fn apply(cc: CacheControl, d: Directive) -> (r: CacheControl)
    ensures
        r == with_directive(cc, d),
{
    match d {
        Directive::Forbid => CacheControl { s_maxage: cc.s_maxage, max_age: cc.max_age, forbids: true },
        Directive::SharedMaxAge(n) => CacheControl {
            s_maxage: Some(n),
            max_age: cc.max_age,
            forbids: cc.forbids,
        },
        Directive::MaxAge(n) => CacheControl {
            s_maxage: cc.s_maxage,
            max_age: Some(n),
            forbids: cc.forbids,
        },
        Directive::Other => cc,
    }
}

/// Reads the value of a `Cache-Control` header.
pub fn parse_cache_control_bytes(hv: &[u8]) -> (cc: CacheControl)
    ensures
        cc == cache_control_of(hv@),
{
    let mut cc = CacheControl { s_maxage: None, max_age: None, forbids: false };
    let text = match str_from_utf8(hv) {
        Some(t) => t,
        None => {
            return cc;
        },
    };
    let chars = chars_of(text);
    let s = chars.as_slice();
    let mut from: usize = 0;
    assert(s@.subrange(0, s.len() as int) =~= s@);
    loop
        invariant
            from <= s.len(),
            s@ == decode_utf8(hv@),
            valid_utf8(hv@),
            cache_control_of(hv@) == with_directives(cc, s@.subrange(from as int, s.len() as int)),
        decreases s.len() - from,
    {
        let ghost rest = s@.subrange(from as int, s.len() as int);
        let comma = find_char(s, from, s.len(), ',');
        assert(rest.take(comma - from) =~= s@.subrange(from as int, comma as int));
        cc = apply(cc, read_directive(s, from, comma));
        if comma >= s.len() {
            return cc;
        }
        assert(rest.skip(comma - from + 1) =~= s@.subrange(comma + 1, s.len() as int));
        from = comma + 1;
    }
}

/// For how long a response is kept, in seconds, or `None` if it is not
/// kept at all.
///
/// A header that forbids storing wins. Otherwise the age is `s-maxage`,
/// else `max-age`, else `default_ttl`, the first of them that is given. An
/// age of zero keeps nothing.
pub open spec fn ttl_of(header: Option<CacheControl>, default_ttl: Option<u64>) -> Option<u64> {
    let age = match header {
        Some(cc) => if cc.forbids {
            Some(0u64)
        } else if cc.s_maxage is Some {
            cc.s_maxage
        } else if cc.max_age is Some {
            cc.max_age
        } else {
            default_ttl
        },
        None => default_ttl,
    };
    match age {
        Some(n) => if n > 0 {
            Some(n)
        } else {
            None
        },
        None => None,
    }
}

/// Once a directive forbids storing, no later directive takes that back.
pub proof fn lemma_forbidding_sticks(cc: CacheControl, text: Seq<char>)
    requires
        cc.forbids,
    ensures
        with_directives(cc, text).forbids,
    decreases text.len(),
{
    let comma = index_of(text, ',');
    lemma_index_of(text, ',');
    let next = with_directive(cc, directive_of(trimmed(text.take(comma), Strip::UnicodeSpace)));
    if 0 <= comma < text.len() {
        lemma_forbidding_sticks(next, text.skip(comma + 1));
    }
}

/// A response whose header forbids storing is not kept, whatever ages
/// the header gives and whatever the default is. Neither is one whose age
/// comes out as zero.
pub proof fn lemma_forbidden_is_not_kept(cc: CacheControl, default_ttl: Option<u64>)
    ensures
        cc.forbids ==> ttl_of(Some(cc), default_ttl) is None,
        ttl_of(Some(cc), default_ttl) != Some(0u64),
        ttl_of(None, default_ttl) != Some(0u64),
{
}

/// Resolves the time to live of a response from its `Cache-Control`
/// header, if it has one, and the configured default.
pub fn resolve_ttl(header: Option<CacheControl>, default_ttl: Option<u64>) -> (ttl: Option<u64>)
    ensures
        ttl == ttl_of(header, default_ttl),
{
    let age = match header {
        Some(cc) => if cc.forbids {
            return None;
        } else if cc.s_maxage.is_some() {
            cc.s_maxage
        } else if cc.max_age.is_some() {
            cc.max_age
        } else {
            default_ttl
        },
        None => default_ttl,
    };
    match age {
        Some(n) => if n > 0 {
            Some(n)
        } else {
            None
        },
        None => None,
    }
}

} // verus!
