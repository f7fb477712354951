//! The boundary to code that is called but not verified: the `http`, `url`
//! and `dashmap` crates and a few functions of the standard library.
//! Every contract in this file is an assumption about that code.

use dashmap::DashMap;
use vstd::prelude::*;
use vstd::utf8::{decode_utf8, valid_utf8};
use crate::cache::{CacheEntry, EntryView};

verus! {

/// Bytes that `http` accepts in a header name: the `tchar` set of the
/// HTTP grammar.
pub open spec fn is_token_byte(b: u8) -> bool {
    ||| b == 33
    ||| 35 <= b <= 39
    ||| b == 42
    ||| b == 43
    ||| b == 45
    ||| b == 46
    ||| 48 <= b <= 57
    ||| 65 <= b <= 90
    ||| 94 <= b <= 122
    ||| b == 124
    ||| b == 126
}

/// What `http` accepts as a header name: one to 65535 token bytes.
pub open spec fn is_header_name_bytes(name: Seq<u8>) -> bool {
    &&& 1 <= name.len() <= 65535
    &&& forall|i: int| 0 <= i < name.len() ==> is_token_byte(#[trigger] name[i])
}

/// Bytes that `http` accepts in a header value: horizontal tab and
/// everything from 32 up except DEL.
pub open spec fn is_value_byte(b: u8) -> bool {
    (b >= 32 && b != 127) || b == 9
}

/// What `http` accepts as a header value.
pub open spec fn is_header_value_bytes(value: Seq<u8>) -> bool {
    forall|i: int| 0 <= i < value.len() ==> is_value_byte(#[trigger] value[i])
}

/// `http::header::HeaderName::from_bytes`, reduced to whether it succeeds.
/// It accepts exactly the names of one to 65535 bytes in which every byte
/// is a token byte.
#[verifier::external_body]
pub(crate) fn header_name_ok(name: &[u8]) -> (r: bool)
    ensures
        r == is_header_name_bytes(name@),
{
    http::header::HeaderName::from_bytes(name).is_ok()
}

/// `http::header::HeaderValue::from_bytes`, reduced to whether it succeeds.
/// It accepts exactly the values in which every byte is 9, or at least 32
/// and not 127.
#[verifier::external_body]
pub(crate) fn header_value_ok(value: &[u8]) -> (r: bool)
    ensures
        r == is_header_value_bytes(value@),
{
    http::header::HeaderValue::from_bytes(value).is_ok()
}

/// `std::str::from_utf8`: the bytes as a string slice when they are valid
/// UTF-8, and nothing otherwise.
#[verifier::external_body]
pub(crate) fn str_from_utf8(raw: &[u8]) -> (r: Option<&str>)
    ensures
        r is Some <==> valid_utf8(raw@),
        r is Some ==> r->0@ == decode_utf8(raw@),
{
    std::str::from_utf8(raw).ok()
}

/// What `url::Url::parse` makes of `input`: the URL in its serialised form
/// together with its scheme, or the text of the parse error.
pub uninterp spec fn url_parsed(input: Seq<char>) -> Result<(Seq<char>, Seq<char>), Seq<char>>;

/// The outcome of a parse as plain text: serialisation and scheme, or the
/// error message.
pub open spec fn parse_view(r: Result<(String, String), String>) -> Result<
    (Seq<char>, Seq<char>),
    Seq<char>,
> {
    match r {
        Ok(u) => Ok((u.0@, u.1@)),
        Err(e) => Err(e@),
    }
}

/// `url::Url::parse`, with the URL handed back as its serialisation and
/// its scheme, and the error as its message.
#[verifier::external_body]
pub(crate) fn url_parse(input: &str) -> (r: Result<(String, String), String>)
    ensures
        parse_view(r) == url_parsed(input@),
{
    match url::Url::parse(input) {
        Ok(u) => Ok((u.as_str().to_string(), u.scheme().to_string())),
        Err(e) => Err(e.to_string()),
    }
}

/// What `url::Url::join` makes of `reference` against the URL that `base`
/// denotes, in serialised form; nothing if `base` is no URL or the two do
/// not combine.
pub uninterp spec fn url_joined(base: Seq<char>, reference: Seq<char>) -> Option<Seq<char>>;

/// `url::Url::join` on the URL that `url::Url::parse` makes of `base`.
/// The base is held as text, so it is parsed here before it is joined;
/// what is claimed is only that the outcome of the two calls hangs on the
/// two texts alone.
#[verifier::external_body]
pub(crate) fn url_join(base: &str, reference: &str) -> (r: Option<String>)
    ensures
        r is Some <==> url_joined(base@, reference@) is Some,
        r is Some ==> r->0@ == url_joined(base@, reference@)->0,
{
    match url::Url::parse(base) {
        Ok(b) => b.join(reference).ok().map(|u| u.as_str().to_string()),
        Err(_) => None,
    }
}

/// `dashmap::DashMap`, a concurrent hash map, held as an opaque value. The
/// library reaches it through exclusive references only, so that what it
/// holds changes by the library's own calls alone.
#[verifier::external_type_specification]
#[verifier::external_body]
#[verifier::reject_recursive_types(K)]
#[verifier::reject_recursive_types(V)]
#[verifier::reject_recursive_types(S)]
pub struct ExDashMap<K, V, S>(DashMap<K, V, S>);

/// A client key: the address family and the address bits.
pub type ClientKey = (u8, u128);

/// A stored bucket: the token level and the time of the last refill.
pub type StoredBucket = (u128, u64);

/// The table of token buckets.
pub type BucketTable = DashMap<ClientKey, StoredBucket>;

/// What a table of token buckets holds.
pub uninterp spec fn bucket_table(t: BucketTable) -> Map<ClientKey, StoredBucket>;

/// `DashMap::new`: a table that holds nothing.
#[verifier::external_body]
pub(crate) fn bucket_table_new() -> (table: BucketTable)
    ensures
        bucket_table(table) == (Map::<ClientKey, StoredBucket>::empty()),
{
    dashmap::DashMap::new()
}

/// `DashMap::entry` followed by `Entry::or_insert`: the bucket under `key`,
/// after `fresh` was stored there if the key had none. Other keys keep
/// what they had.
#[verifier::external_body]
pub(crate) fn bucket_or_insert(t: &mut BucketTable, key: ClientKey, fresh: StoredBucket) -> (r:
    StoredBucket)
    ensures
        bucket_table(*final(t)) == if bucket_table(*old(t)).contains_key(key) {
            bucket_table(*old(t))
        } else {
            bucket_table(*old(t)).insert(key, fresh)
        },
        r == bucket_table(*final(t))[key],
{
    *t.entry(key).or_insert(fresh)
}

/// `DashMap::insert`: `bucket` is stored under `key`, in place of what the
/// key had. Other keys keep what they had.
#[verifier::external_body]
pub(crate) fn bucket_store(t: &mut BucketTable, key: ClientKey, bucket: StoredBucket)
    ensures
        bucket_table(*final(t)) == bucket_table(*old(t)).insert(key, bucket),
{
    t.insert(key, bucket);
}

/// The table of cached responses, by cache key.
pub type CacheTable = DashMap<String, CacheEntry>;

/// What a table of cached responses holds.
pub uninterp spec fn cache_table(t: CacheTable) -> Map<Seq<char>, EntryView>;

/// `DashMap::new`: a table that holds nothing.
#[verifier::external_body]
pub(crate) fn cache_table_new() -> (table: CacheTable)
    ensures
        cache_table(table) == (Map::<Seq<char>, EntryView>::empty()),
{
    dashmap::DashMap::new()
}

/// `DashMap::get`, with the entry copied out: what the table holds under
/// `key`, if anything.
#[verifier::external_body]
pub(crate) fn cache_get(t: &CacheTable, key: &str) -> (r: Option<CacheEntry>)
    ensures
        r is Some <==> cache_table(*t).contains_key(key@),
        r is Some ==> r->0@ == cache_table(*t)[key@],
{
    t.get(key).map(|e| e.value().clone())
}

/// `DashMap::remove`: the table no longer holds anything under `key`, and
/// what it held there is returned. Other keys keep what they had.
#[verifier::external_body]
pub(crate) fn cache_remove(t: &mut CacheTable, key: &str) -> (r: Option<CacheEntry>)
    ensures
        cache_table(*final(t)) == cache_table(*old(t)).remove(key@),
        r is Some <==> cache_table(*old(t)).contains_key(key@),
        r is Some ==> r->0@ == cache_table(*old(t))[key@],
{
    t.remove(key).map(|kv| kv.1)
}

/// `DashMap::insert`: `entry` is stored under `key`, and what the key had
/// before is returned. Other keys keep what they had.
#[verifier::external_body]
pub(crate) fn cache_insert(t: &mut CacheTable, key: String, entry: CacheEntry) -> (r: Option<
    CacheEntry,
>)
    ensures
        cache_table(*final(t)) == cache_table(*old(t)).insert(key@, entry@),
        r is Some <==> cache_table(*old(t)).contains_key(key@),
        r is Some ==> r->0@ == cache_table(*old(t))[key@],
{
    t.insert(key, entry)
}

/// `DashMap::iter`, with key, expiry and size copied out of each entry.
/// Every stored key comes out exactly once, with the expiry and size of
/// its entry; the order in which they come is not determined.
#[verifier::external_body]
pub(crate) fn cache_snapshot(t: &CacheTable) -> (r: Vec<(String, u64, usize)>)
    ensures
        forall|i: int|
            0 <= i < r@.len() ==> cache_table(*t).contains_key(#[trigger] r@[i].0@) && cache_table(
                *t,
            )[r@[i].0@].expires_at == r@[i].1 && cache_table(*t)[r@[i].0@].size == r@[i].2,
        forall|i: int, j: int|
            0 <= i < j < r@.len() ==> #[trigger] r@[i].0@ != #[trigger] r@[j].0@,
        forall|k: Seq<char>| #[trigger]
            cache_table(*t).contains_key(k) ==> exists|i: int|
                0 <= i < r@.len() && #[trigger] r@[i].0@ == k,
{
    t.iter().map(|e| (e.key().clone(), e.value().expires_at, e.value().size)).collect()
}

} // verus!
