//! Header rules of the proxy: which headers stay on one transport leg, and
//! which of a client's headers reach the upstream.

use vstd::prelude::*;
use vstd::string::StringSliceAdditionalSpecFns;
use vstd::string::StrSliceExecFns;
use vstd::utf8::{decode_utf8, encode_scalar, encode_utf8, valid_utf8};
use crate::text::{
    chars_of, code_of, eq_ignore_ascii_case, eq_ignore_case, trim_bounds, trimmed, Strip,
};
use crate::trusted::{
    header_name_ok, header_value_ok, is_header_name_bytes, is_header_value_bytes, is_value_byte,
    str_from_utf8,
};

verus! {

/// Whether `name` is one of the headers that never cross the proxy:
/// the hop-by-hop headers and `Host`, whatever the case of their letters.
pub open spec fn hop_by_hop(name: Seq<char>) -> bool {
    ||| eq_ignore_case(name, "connection"@)
    ||| eq_ignore_case(name, "keep-alive"@)
    ||| eq_ignore_case(name, "proxy-authenticate"@)
    ||| eq_ignore_case(name, "proxy-authorization"@)
    ||| eq_ignore_case(name, "te"@)
    ||| eq_ignore_case(name, "trailer"@)
    ||| eq_ignore_case(name, "transfer-encoding"@)
    ||| eq_ignore_case(name, "upgrade"@)
    ||| eq_ignore_case(name, "host"@)
}

fn named(name: &Vec<char>, literal: &str) -> (r: bool)
    ensures
        r == eq_ignore_case(name@, literal@),
{
    let lit = chars_of(literal);
    eq_ignore_ascii_case(name.as_slice(), lit.as_slice())
}

/// Tells whether a header stays on one transport leg.
pub fn is_hop_by_hop(name: &str) -> (r: bool)
    ensures
        r == hop_by_hop(name@),
{
    let n = chars_of(name);
    named(&n, "connection") || named(&n, "keep-alive") || named(&n, "proxy-authenticate") || named(
        &n,
        "proxy-authorization",
    ) || named(&n, "te") || named(&n, "trailer") || named(&n, "transfer-encoding") || named(
        &n,
        "upgrade",
    ) || named(&n, "host")
}

/// Longest header name, in bytes, that is forwarded.
pub const MAX_NAME_BYTES: usize = 256;

/// Longest header value, in bytes, that is forwarded: 16 KiB.
pub const MAX_VALUE_BYTES: usize = 16384;

/// Whether `name` carries credentials that must not reach an upstream.
pub open spec fn sensitive(name: Seq<char>) -> bool {
    eq_ignore_case(name, "authorization"@) || eq_ignore_case(name, "proxy-authorization"@)
}

/// The control characters, U+0000 to U+001F and U+007F to U+009F, without
/// horizontal tab (U+0009).
pub open spec fn is_forbidden_control(c: char) -> bool {
    let u = c as u32;
    (u <= 0x1F && u != 0x09) || (0x7F <= u && u <= 0x9F)
}

/// Whether `text` holds a control character other than horizontal tab.
pub open spec fn has_forbidden_control(text: Seq<char>) -> bool {
    exists|i: int| 0 <= i < text.len() && is_forbidden_control(#[trigger] text[i])
}

/// The value under which a request header reaches the upstream, or `None`
/// when the header is dropped.
///
/// A header is dropped when it is hop-by-hop or carries credentials, when
/// its name is empty, longer than 256 bytes or not a valid header name,
/// when its value is longer than 16 KiB, is not UTF-8 or holds a control
/// character other than tab, or when the value, with ASCII whitespace
/// trimmed from both ends, is not a valid header value. Otherwise it is
/// forwarded with the trimmed value.
pub open spec fn forwarded_value(name: Seq<char>, value: Seq<u8>) -> Option<Seq<char>> {
    let text = decode_utf8(value);
    let clean = trimmed(text, Strip::AsciiSpace);
    if hop_by_hop(name) || sensitive(name) || encode_utf8(name).len() == 0 || encode_utf8(
        name,
    ).len() > MAX_NAME_BYTES || !is_header_name_bytes(encode_utf8(name)) || value.len()
        > MAX_VALUE_BYTES || !valid_utf8(value) || has_forbidden_control(text)
        || !is_header_value_bytes(encode_utf8(clean)) {
        None
    } else {
        Some(clean)
    }
}

/// The headers that reach the upstream for the request headers `hs`: those
/// that `forwarded_value` keeps, in their order, each with its trimmed value.
pub open spec fn forwarded(hs: Seq<(Seq<char>, Seq<u8>)>) -> Seq<(Seq<char>, Seq<char>)>
    decreases hs.len(),
{
    if hs.len() == 0 {
        Seq::empty()
    } else {
        let rest = forwarded(hs.drop_last());
        match forwarded_value(hs.last().0, hs.last().1) {
            Some(v) => rest.push((hs.last().0, v)),
            None => rest,
        }
    }
}

/// The headers of a response that are passed on: all but the hop-by-hop
/// ones, unchanged and in their order.
pub open spec fn mirrored(hs: Seq<(Seq<char>, Seq<u8>)>) -> Seq<(Seq<char>, Seq<u8>)>
    decreases hs.len(),
{
    if hs.len() == 0 {
        Seq::empty()
    } else {
        let rest = mirrored(hs.drop_last());
        if hop_by_hop(hs.last().0) {
            rest
        } else {
            rest.push(hs.last())
        }
    }
}

/// Headers as received: names with raw value bytes.
pub open spec fn raw_view(hs: Seq<(String, Vec<u8>)>) -> Seq<(Seq<char>, Seq<u8>)> {
    hs.map_values(|h: (String, Vec<u8>)| (h.0@, h.1@))
}

/// Headers as sent upstream: names with text values.
pub open spec fn text_view(hs: Seq<(String, String)>) -> Seq<(Seq<char>, Seq<char>)> {
    hs.map_values(|h: (String, String)| (h.0@, h.1@))
}

fn is_sensitive(name: &Vec<char>) -> (r: bool)
    ensures
        r == sensitive(name@),
{
    named(name, "authorization") || named(name, "proxy-authorization")
}

fn forbidden_control(text: &Vec<char>) -> (r: bool)
    ensures
        r == has_forbidden_control(text@),
{
    let mut i: usize = 0;
    while i < text.len()
        invariant
            i <= text.len(),
            forall|j: int| 0 <= j < i ==> !is_forbidden_control(#[trigger] text@[j]),
        decreases text.len() - i,
    {
        let u: u32 = code_of(text[i]);
        if (u <= 0x1F && u != 0x09) || (0x7F <= u && u <= 0x9F) {
            assert(is_forbidden_control(text@[i as int]));
            return true;
        }
        i += 1;
    }
    false
}

/// Decides whether one request header is forwarded, and with which value.
pub fn sanitize_header(name: &str, value: &[u8]) -> (r: Option<String>)
    ensures
        r is Some <==> forwarded_value(name@, value@) is Some,
        r is Some ==> r->0@ == forwarded_value(name@, value@)->0,
{
    let n = chars_of(name);
    if is_hop_by_hop(name) || is_sensitive(&n) {
        return None;
    }
    if name.len() == 0 || name.len() > MAX_NAME_BYTES || !header_name_ok(name.as_bytes()) {
        return None;
    }
    if value.len() > MAX_VALUE_BYTES {
        return None;
    }
    let text = match str_from_utf8(value) {
        Some(t) => t,
        None => {
            return None;
        },
    };
    let chars = chars_of(text);
    if forbidden_control(&chars) {
        return None;
    }
    let (a, b) = trim_bounds(chars.as_slice(), 0, chars.len(), Strip::AsciiSpace);
    assert(chars@.subrange(0, chars.len() as int) =~= chars@);
    let clean = text.substring_char(a, b);
    if !header_value_ok(clean.as_bytes()) {
        return None;
    }
    Some(clean.to_owned())
}

/// Selects the request headers that are sent upstream.
///
/// No header of the result is hop-by-hop or carries credentials; the
/// headers that remain keep their order, and names that repeat stay
/// repeated.
pub fn sanitize_and_forward_headers(headers: &Vec<(String, Vec<u8>)>) -> (out: Vec<
    (String, String),
>)
    ensures
        text_view(out@) == forwarded(raw_view(headers@)),
{
    let mut out: Vec<(String, String)> = Vec::new();
    let mut i: usize = 0;
    assert(raw_view(headers@).take(0) =~= Seq::empty());
    while i < headers.len()
        invariant
            i <= headers.len(),
            text_view(out@) == forwarded(raw_view(headers@).take(i as int)),
        decreases headers.len() - i,
    {
        let ghost before = raw_view(headers@).take(i as int);
        let ghost upto = raw_view(headers@).take(i + 1);
        assert(upto.drop_last() =~= before);
        assert(upto.last() == (headers@[i as int].0@, headers@[i as int].1@));
        let ghost shown = text_view(out@);
        match sanitize_header(headers[i].0.as_str(), headers[i].1.as_slice()) {
            Some(v) => {
                let name = headers[i].0.clone();
                out.push((name, v));
                assert(text_view(out@) =~= shown.push((headers@[i as int].0@, v@)));
            },
            None => {},
        }
        i += 1;
    }
    assert(raw_view(headers@).take(headers.len() as int) =~= raw_view(headers@));
    out
}

/// Selects the response headers that are passed on to the client: all but
/// the hop-by-hop ones.
pub fn strip_hop_by_hop(headers: &Vec<(String, Vec<u8>)>) -> (out: Vec<(String, Vec<u8>)>)
    ensures
        raw_view(out@) == mirrored(raw_view(headers@)),
{
    let mut out: Vec<(String, Vec<u8>)> = Vec::new();
    let mut i: usize = 0;
    assert(raw_view(headers@).take(0) =~= Seq::empty());
    assert(raw_view(out@) =~= Seq::empty());
    while i < headers.len()
        invariant
            i <= headers.len(),
            raw_view(out@) == mirrored(raw_view(headers@).take(i as int)),
        decreases headers.len() - i,
    {
        let ghost before = raw_view(headers@).take(i as int);
        let ghost upto = raw_view(headers@).take(i + 1);
        assert(upto.drop_last() =~= before);
        assert(upto.last() == (headers@[i as int].0@, headers@[i as int].1@));
        let ghost shown = raw_view(out@);
        if !is_hop_by_hop(headers[i].0.as_str()) {
            let name = headers[i].0.clone();
            let value = headers[i].1.clone();
            out.push((name, value));
            assert(raw_view(out@) =~= shown.push((headers@[i as int].0@, headers@[i as int].1@)));
        }
        i += 1;
    }
    assert(raw_view(headers@).take(headers.len() as int) =~= raw_view(headers@));
    out
}

proof fn lemma_high_bytes(x: u8)
    by (bit_vector)
    ensures
        (0x80u8 | x) >= 0x80u8,
        (0xC0u8 | x) >= 0x80u8,
        (0xE0u8 | x) >= 0x80u8,
        (0xF0u8 | x) >= 0x80u8,
{
}

proof fn lemma_low_byte(v: u32)
    by (bit_vector)
    requires
        v <= 0x7Fu32,
    ensures
        (v & 0x7Fu32) == v,
{
}

proof fn lemma_scalar_bytes(v: u32)
    ensures
        v <= 0x7F ==> encode_scalar(v) == seq![v as u8],
        v > 0x7F ==> forall|i: int|
            0 <= i < encode_scalar(v).len() ==> (#[trigger] encode_scalar(v)[i]) >= 0x80,
{
    if v <= 0x7F {
        lemma_low_byte(v);
    } else {
        lemma_high_bytes(((v >> 6) & 0x1F) as u8);
        lemma_high_bytes(((v >> 12) & 0x0F) as u8);
        lemma_high_bytes(((v >> 18) & 0x7) as u8);
        lemma_high_bytes((v & 0x3F) as u8);
        lemma_high_bytes(((v >> 6) & 0x3F) as u8);
        lemma_high_bytes(((v >> 12) & 0x3F) as u8);
    }
}

/// Text without control characters, tab aside, is a valid header value
/// in its UTF-8 form.
pub proof fn lemma_clean_text_is_a_value(text: Seq<char>)
    requires
        !has_forbidden_control(text),
    ensures
        is_header_value_bytes(encode_utf8(text)),
    decreases text.len(),
{
    if text.len() > 0 {
        let rest = text.drop_first();
        assert(!has_forbidden_control(rest)) by {
            if has_forbidden_control(rest) {
                let i = choose|i: int| 0 <= i < rest.len() && is_forbidden_control(#[trigger] rest[i]);
                assert(text[i + 1] == rest[i]);
            }
        }
        lemma_clean_text_is_a_value(rest);
        let v = text[0] as u32;
        lemma_scalar_bytes(v);
        assert(!is_forbidden_control(text[0]));
        let first = encode_scalar(v);
        let tail = encode_utf8(rest);
        assert forall|i: int| 0 <= i < encode_utf8(text).len() implies is_value_byte(
            #[trigger] encode_utf8(text)[i],
        ) by {
            if i < first.len() {
                assert(encode_utf8(text)[i] == first[i]);
            } else {
                assert(encode_utf8(text)[i] == tail[i - first.len()]);
            }
        }
    }
}

/// Whether a header is forwarded does not hang on the last check, that of
/// the trimmed value: a value that is UTF-8 and free of control
/// characters, tab aside, is always a valid header value once trimmed.
pub proof fn lemma_trimmed_value_is_valid(value: Seq<u8>)
    requires
        !has_forbidden_control(decode_utf8(value)),
    ensures
        is_header_value_bytes(encode_utf8(trimmed(decode_utf8(value), Strip::AsciiSpace))),
{
    let text = decode_utf8(value);
    let clean = trimmed(text, Strip::AsciiSpace);
    crate::text::lemma_trim_start(text, Strip::AsciiSpace);
    crate::text::lemma_trim_end(text, Strip::AsciiSpace);
    assert(!has_forbidden_control(clean)) by {
        if has_forbidden_control(clean) {
            let i = choose|i: int| 0 <= i < clean.len() && is_forbidden_control(#[trigger] clean[i]);
            let a = crate::text::trim_start(text, Strip::AsciiSpace);
            assert(text[a + i] == clean[i]);
        }
    }
    lemma_clean_text_is_a_value(clean);
}

/// The value of the first header of `hs` that is called `name`, in any
/// letter case.
pub open spec fn first_named(hs: Seq<(Seq<char>, Seq<u8>)>, name: Seq<char>) -> Option<Seq<u8>>
    decreases hs.len(),
{
    if hs.len() == 0 {
        None
    } else if eq_ignore_case(hs[0].0, name) {
        Some(hs[0].1)
    } else {
        first_named(hs.drop_first(), name)
    }
}

proof fn lemma_first_named(hs: Seq<(Seq<char>, Seq<u8>)>, name: Seq<char>, i: int)
    requires
        0 <= i <= hs.len(),
        forall|j: int| 0 <= j < i ==> !eq_ignore_case(#[trigger] hs[j].0, name),
        i < hs.len() ==> eq_ignore_case(hs[i].0, name),
    ensures
        first_named(hs, name) == if i < hs.len() {
            Some(hs[i].1)
        } else {
            None
        },
    decreases hs.len(),
{
    if hs.len() > 0 && i > 0 {
        let rest = hs.drop_first();
        assert forall|j: int| 0 <= j < i - 1 implies !eq_ignore_case(
            #[trigger] rest[j].0,
            name,
        ) by {
            assert(rest[j] == hs[j + 1]);
        }
        if i < hs.len() {
            assert(rest[i - 1] == hs[i]);
        }
        assert(!eq_ignore_case(hs[0].0, name));
        lemma_first_named(rest, name, i - 1);
    }
}

/// Finds the value of the first header that is called `name`, in any
/// letter case.
pub fn get_header<'a>(headers: &'a Vec<(String, Vec<u8>)>, name: &str) -> (r: Option<&'a Vec<u8>>)
    ensures
        r is Some <==> first_named(raw_view(headers@), name@) is Some,
        r is Some ==> r->0@ == first_named(raw_view(headers@), name@)->0,
{
    let wanted = chars_of(name);
    let mut i: usize = 0;
    while i < headers.len()
        invariant
            i <= headers.len(),
            wanted@ == name@,
            forall|j: int|
                0 <= j < i ==> !eq_ignore_case(#[trigger] raw_view(headers@)[j].0, name@),
        decreases headers.len() - i,
    {
        let n = chars_of(headers[i].0.as_str());
        if eq_ignore_ascii_case(n.as_slice(), wanted.as_slice()) {
            proof {
                lemma_first_named(raw_view(headers@), name@, i as int);
            }
            return Some(&headers[i].1);
        }
        i += 1;
    }
    proof {
        lemma_first_named(raw_view(headers@), name@, i as int);
    }
    None
}

/// No header that reaches an upstream is hop-by-hop, `Host`,
/// `Authorization` or `Proxy-Authorization`, in any letter case.
pub proof fn lemma_forwarded_headers_clean(hs: Seq<(Seq<char>, Seq<u8>)>)
    ensures
        forall|i: int|
            0 <= i < forwarded(hs).len() ==> !hop_by_hop(#[trigger] forwarded(hs)[i].0)
                && !sensitive(forwarded(hs)[i].0),
    decreases hs.len(),
{
    if hs.len() > 0 {
        let rest = forwarded(hs.drop_last());
        lemma_forwarded_headers_clean(hs.drop_last());
        assert forall|i: int| 0 <= i < forwarded(hs).len() implies !hop_by_hop(
            #[trigger] forwarded(hs)[i].0,
        ) && !sensitive(forwarded(hs)[i].0) by {
            if i < rest.len() {
                assert(forwarded(hs)[i] == rest[i]);
            }
        }
    }
}

/// No header that is passed back to a client is hop-by-hop.
pub proof fn lemma_mirrored_headers_clean(hs: Seq<(Seq<char>, Seq<u8>)>)
    ensures
        forall|i: int| 0 <= i < mirrored(hs).len() ==> !hop_by_hop(#[trigger] mirrored(hs)[i].0),
    decreases hs.len(),
{
    if hs.len() > 0 {
        let rest = mirrored(hs.drop_last());
        lemma_mirrored_headers_clean(hs.drop_last());
        assert forall|i: int| 0 <= i < mirrored(hs).len() implies !hop_by_hop(
            #[trigger] mirrored(hs)[i].0,
        ) by {
            if i < rest.len() {
                assert(mirrored(hs)[i] == rest[i]);
            }
        }
    }
}

} // verus!
