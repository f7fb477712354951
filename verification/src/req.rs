//! The head of an HTTP/1 request: request line and header lines.

use vstd::prelude::*;
use vstd::string::{StrSliceExecFns, StringExecFns};
use crate::text::{
    blank, chars_of, find_char, index_of, is_blank, join2, lemma_trim_start, str_eq,
    trim_bounds, trim_start, trimmed, Strip,
};

verus! {

/// The request methods that are served.
#[derive(Debug, Copy, Clone, Eq, PartialEq, Hash, Structural)]
pub enum Method {
    Get,
}

/// The protocol versions that are served.
#[derive(Debug, Copy, Clone, Eq, PartialEq, Hash, Structural)]
pub enum Version {
    Http1_0,
    Http1_1,
}

/// Why the head of a request could not be read.
#[derive(Debug)]
pub enum ParseError {
    /// The stream failed; the text says how.
    Io(String),
    MissingMethod,
    MissingPath,
    MissingVersion,
    InvalidMethod(String),
    InvalidVersion(String),
    MissingHeaderName,
    MissingHeaderValue,
}

/// A parse error as the contracts see it.
pub enum ParseErrorView {
    Io(Seq<char>),
    MissingMethod,
    MissingPath,
    MissingVersion,
    InvalidMethod(Seq<char>),
    InvalidVersion(Seq<char>),
    MissingHeaderName,
    MissingHeaderValue,
}

impl View for ParseError {
    type V = ParseErrorView;

    open spec fn view(&self) -> ParseErrorView {
        match self {
            ParseError::Io(e) => ParseErrorView::Io(e@),
            ParseError::MissingMethod => ParseErrorView::MissingMethod,
            ParseError::MissingPath => ParseErrorView::MissingPath,
            ParseError::MissingVersion => ParseErrorView::MissingVersion,
            ParseError::InvalidMethod(m) => ParseErrorView::InvalidMethod(m@),
            ParseError::InvalidVersion(v) => ParseErrorView::InvalidVersion(v@),
            ParseError::MissingHeaderName => ParseErrorView::MissingHeaderName,
            ParseError::MissingHeaderValue => ParseErrorView::MissingHeaderValue,
        }
    }
}

/// The message of a parse error.
pub open spec fn error_text(e: ParseErrorView) -> Seq<char> {
    match e {
        ParseErrorView::Io(e) => "I/O error: "@ + e,
        ParseErrorView::MissingMethod => "missing method"@,
        ParseErrorView::MissingPath => "missing path"@,
        ParseErrorView::MissingVersion => "missing HTTP version"@,
        ParseErrorView::InvalidMethod(m) => "invalid method: "@ + m,
        ParseErrorView::InvalidVersion(v) => "invalid HTTP version: "@ + v,
        ParseErrorView::MissingHeaderName => "missing header name"@,
        ParseErrorView::MissingHeaderValue => "missing header value"@,
    }
}

impl ParseError {
    /// The error as a message.
    pub fn to_string(&self) -> (r: String)
        ensures
            r@ == error_text(self@),
    {
        match self {
            ParseError::Io(e) => join2("I/O error: ", e.as_str()),
            ParseError::MissingMethod => String::from_str("missing method"),
            ParseError::MissingPath => String::from_str("missing path"),
            ParseError::MissingVersion => String::from_str("missing HTTP version"),
            ParseError::InvalidMethod(m) => join2("invalid method: ", m.as_str()),
            ParseError::InvalidVersion(v) => join2("invalid HTTP version: ", v.as_str()),
            ParseError::MissingHeaderName => String::from_str("missing header name"),
            ParseError::MissingHeaderValue => String::from_str("missing header value"),
        }
    }
}

/// The method that a word names, or why it names none.
pub open spec fn method_of(word: Seq<char>) -> Result<Method, Seq<char>> {
    if word == "GET"@ {
        Ok(Method::Get)
    } else {
        Err("unsupported method: "@ + word)
    }
}

/// The protocol version that a word names, or why it names none.
pub open spec fn version_of(word: Seq<char>) -> Result<Version, Seq<char>> {
    if word == "HTTP/1.0"@ {
        Ok(Version::Http1_0)
    } else if word == "HTTP/1.1"@ {
        Ok(Version::Http1_1)
    } else {
        Err("unsupported HTTP version: "@ + word)
    }
}

impl Method {
    /// Reads a method. Only `GET` is one.
    pub fn try_from(value: &str) -> (r: Result<Method, String>)
        ensures
            match r {
                Ok(m) => method_of(value@) == Ok::<Method, Seq<char>>(m),
                Err(e) => method_of(value@) == Err::<Method, Seq<char>>(e@),
            },
    {
        if str_eq(value, "GET") {
            Ok(Method::Get)
        } else {
            Err(join2("unsupported method: ", value))
        }
    }
}

impl Version {
    /// Reads a protocol version: `HTTP/1.0` or `HTTP/1.1`.
    pub fn try_from(value: &str) -> (r: Result<Version, String>)
        ensures
            match r {
                Ok(v) => version_of(value@) == Ok::<Version, Seq<char>>(v),
                Err(e) => version_of(value@) == Err::<Version, Seq<char>>(e@),
            },
    {
        if str_eq(value, "HTTP/1.0") {
            Ok(Version::Http1_0)
        } else if str_eq(value, "HTTP/1.1") {
            Ok(Version::Http1_1)
        } else {
            Err(join2("unsupported HTTP version: ", value))
        }
    }
}

/// Length of the run of characters at the start of `s` that are not
/// blank.
pub open spec fn word_len(s: Seq<char>) -> int
    decreases s.len(),
{
    if s.len() > 0 && !is_blank(s[0], Strip::UnicodeSpace) {
        1 + word_len(s.drop_first())
    } else {
        0
    }
}

/// Where the first word of `s` starts and ends: blanks are skipped, then
/// the word runs up to the next blank. Start and end meet at `s.len()`
/// if there is no word.
pub open spec fn word_bounds(s: Seq<char>) -> (int, int) {
    let start = trim_start(s, Strip::UnicodeSpace);
    (start, start + word_len(s.skip(start)))
}

/// The bounds of `word_len`: the word holds no blank and ends at one.
pub proof fn lemma_word_len(s: Seq<char>)
    ensures
        0 <= word_len(s) <= s.len(),
        forall|i: int| 0 <= i < word_len(s) ==> !is_blank(#[trigger] s[i], Strip::UnicodeSpace),
        word_len(s) < s.len() ==> is_blank(s[word_len(s)], Strip::UnicodeSpace),
    decreases s.len(),
{
    if s.len() > 0 && !is_blank(s[0], Strip::UnicodeSpace) {
        let t = s.drop_first();
        lemma_word_len(t);
        assert forall|i: int| 0 <= i < word_len(s) implies !is_blank(
            #[trigger] s[i],
            Strip::UnicodeSpace,
        ) by {
            if i > 0 {
                assert(s[i] == t[i - 1]);
            }
        }
        if word_len(s) < s.len() {
            assert(s[word_len(s)] == t[word_len(t)]);
        }
    }
}

/// The words of a request line that matter: the first three.
pub struct RequestLine {
    pub method: Method,
    pub path: Seq<char>,
    pub version: Version,
}

/// What a request line says. Its words are separated by blanks; the
/// first is the method, the second the path, the third the version, and
/// what follows is ignored. The first word that is missing or wrong
/// decides the error.
pub open spec fn request_line(line: Seq<char>) -> Result<RequestLine, ParseErrorView> {
    let m = word_bounds(line);
    let rest1 = line.skip(m.1);
    let p = word_bounds(rest1);
    let rest2 = rest1.skip(p.1);
    let v = word_bounds(rest2);
    if m.0 == m.1 {
        Err(ParseErrorView::MissingMethod)
    } else if method_of(line.subrange(m.0, m.1)) is Err {
        Err(ParseErrorView::InvalidMethod(method_of(line.subrange(m.0, m.1))->Err_0))
    } else if p.0 == p.1 {
        Err(ParseErrorView::MissingPath)
    } else if v.0 == v.1 {
        Err(ParseErrorView::MissingVersion)
    } else if version_of(rest2.subrange(v.0, v.1)) is Err {
        Err(ParseErrorView::InvalidVersion(version_of(rest2.subrange(v.0, v.1))->Err_0))
    } else {
        Ok(
            RequestLine {
                method: method_of(line.subrange(m.0, m.1))->Ok_0,
                path: rest1.subrange(p.0, p.1),
                version: version_of(rest2.subrange(v.0, v.1))->Ok_0,
            },
        )
    }
}

fn next_word(s: &[char], from: usize) -> (r: (usize, usize))
    requires
        from <= s.len(),
    ensures
        from <= r.0 <= r.1 <= s.len(),
        r.0 - from == word_bounds(s@.skip(from as int)).0,
        r.1 - from == word_bounds(s@.skip(from as int)).1,
{
    let ghost rest = s@.skip(from as int);
    assert(s@.subrange(from as int, s.len() as int) =~= rest);
    proof {
        lemma_trim_start(rest, Strip::UnicodeSpace);
    }
    let mut start: usize = from;
    while start < s.len() && blank(s[start], Strip::UnicodeSpace)
        invariant
            from <= start <= s.len(),
            rest == s@.skip(from as int),
            start - from <= trim_start(rest, Strip::UnicodeSpace) <= rest.len(),
            forall|i: int|
                0 <= i < trim_start(rest, Strip::UnicodeSpace) ==> is_blank(
                    #[trigger] rest[i],
                    Strip::UnicodeSpace,
                ),
            trim_start(rest, Strip::UnicodeSpace) < rest.len() ==> !is_blank(
                rest[trim_start(rest, Strip::UnicodeSpace)],
                Strip::UnicodeSpace,
            ),
        decreases s.len() - start,
    {
        assert(rest[start - from] == s@[start as int]);
        start += 1;
    }
    proof {
        if start < s.len() {
            assert(rest[start - from] == s@[start as int]);
        }
    }
    let ghost word = rest.skip(start - from);
    assert(word =~= s@.skip(start as int));
    proof {
        lemma_word_len(word);
    }
    let mut end: usize = start;
    while end < s.len() && !blank(s[end], Strip::UnicodeSpace)
        invariant
            start <= end <= s.len(),
            word == s@.skip(start as int),
            end - start <= word_len(word) <= word.len(),
            forall|i: int|
                0 <= i < word_len(word) ==> !is_blank(#[trigger] word[i], Strip::UnicodeSpace),
            word_len(word) < word.len() ==> is_blank(word[word_len(word)], Strip::UnicodeSpace),
        decreases s.len() - end,
    {
        assert(word[end - start] == s@[end as int]);
        end += 1;
    }
    proof {
        if end < s.len() {
            assert(word[end - start] == s@[end as int]);
        }
    }
    (start, end)
}

/// Reads a request line.
pub fn parse_request_line(line: &str) -> (r: Result<(Method, String, Version), ParseError>)
    ensures
        match r {
            Ok(parts) => request_line(line@) == Ok::<RequestLine, ParseErrorView>(
                RequestLine { method: parts.0, path: parts.1@, version: parts.2 },
            ),
            Err(e) => request_line(line@) == Err::<RequestLine, ParseErrorView>(e@),
        },
{
    let chars = chars_of(line);
    let s = chars.as_slice();
    assert(s@.skip(0) =~= s@);
    let (ma, mb) = next_word(s, 0);
    if ma == mb {
        return Err(ParseError::MissingMethod);
    }
    let method = match Method::try_from(line.substring_char(ma, mb)) {
        Ok(m) => m,
        Err(e) => {
            return Err(ParseError::InvalidMethod(e));
        },
    };
    let ghost rest1 = s@.skip(mb as int);
    let (pa, pb) = next_word(s, mb);
    if pa == pb {
        return Err(ParseError::MissingPath);
    }
    assert(rest1.subrange(pa - mb, pb - mb) =~= s@.subrange(pa as int, pb as int));
    let path = line.substring_char(pa, pb).to_owned();
    let ghost rest2 = rest1.skip(pb - mb);
    assert(rest2 =~= s@.skip(pb as int));
    let (va, vb) = next_word(s, pb);
    if va == vb {
        return Err(ParseError::MissingVersion);
    }
    assert(rest2.subrange(va - pb, vb - pb) =~= s@.subrange(va as int, vb as int));
    let version = match Version::try_from(line.substring_char(va, vb)) {
        Ok(v) => v,
        Err(e) => {
            return Err(ParseError::InvalidVersion(e));
        },
    };
    Ok((method, path, version))
}

/// Whether a line ends the head of a request: it is empty or a bare line
/// break.
pub open spec fn is_head_end(line: Seq<char>) -> bool {
    line.len() == 0 || line == "\n"@ || line == "\r\n"@
}

/// Tells whether a line ends the head of a request.
pub fn ends_head(line: &str) -> (r: bool)
    ensures
        r == is_head_end(line@),
{
    line.is_empty() || str_eq(line, "\n") || str_eq(line, "\r\n")
}

/// What a header line says: the name is what stands before the first
/// colon, the value what follows it, without the blanks around it. A line
/// without a colon has no value.
pub open spec fn header_of(line: Seq<char>) -> Result<(Seq<char>, Seq<char>), ParseErrorView> {
    let colon = index_of(line, ':');
    if 0 <= colon < line.len() {
        Ok((line.take(colon), trimmed(line.skip(colon + 1), Strip::UnicodeSpace)))
    } else {
        Err(ParseErrorView::MissingHeaderValue)
    }
}

/// Reads a header line.
pub fn parse_header_line(line: &str) -> (r: Result<(String, String), ParseError>)
    ensures
        match r {
            Ok(h) => header_of(line@) == Ok::<(Seq<char>, Seq<char>), ParseErrorView>((h.0@, h.1@)),
            Err(e) => header_of(line@) == Err::<(Seq<char>, Seq<char>), ParseErrorView>(e@),
        },
{
    let chars = chars_of(line);
    let s = chars.as_slice();
    assert(s@.subrange(0, s.len() as int) =~= s@);
    let colon = find_char(s, 0, s.len(), ':');
    if colon >= s.len() {
        return Err(ParseError::MissingHeaderValue);
    }
    assert(s@.subrange(colon + 1, s.len() as int) =~= s@.skip(colon + 1));
    assert(s@.subrange(0, colon as int) =~= s@.take(colon as int));
    let (a, b) = trim_bounds(s, colon + 1, s.len(), Strip::UnicodeSpace);
    let name = line.substring_char(0, colon).to_owned();
    let value = line.substring_char(a, b).to_owned();
    Ok((name, value))
}

/// The head of a request. Among the header lines of one name the last
/// counts, so no name occurs twice in `headers`.
#[derive(Debug, Clone, Eq, PartialEq)]
pub struct Request {
    pub method: Method,
    pub path: String,
    pub headers: Vec<(String, String)>,
    pub version: Version,
}

/// A request head as the contracts see it.
pub struct RequestView {
    pub method: Method,
    pub path: Seq<char>,
    pub headers: Map<Seq<char>, Seq<char>>,
    pub version: Version,
}

/// The headers as a map from name to value; of two with one name the
/// later counts.
pub open spec fn header_map(hs: Seq<(String, String)>) -> Map<Seq<char>, Seq<char>>
    decreases hs.len(),
{
    if hs.len() == 0 {
        Map::empty()
    } else {
        header_map(hs.drop_last()).insert(hs.last().0@, hs.last().1@)
    }
}

/// Whether no name occurs twice.
pub open spec fn distinct_names(hs: Seq<(String, String)>) -> bool {
    forall|i: int, j: int| 0 <= i < j < hs.len() ==> #[trigger] hs[i].0@ != #[trigger] hs[j].0@
}

impl View for Request {
    type V = RequestView;

    open spec fn view(&self) -> RequestView {
        RequestView {
            method: self.method,
            path: self.path@,
            headers: header_map(self.headers@),
            version: self.version,
        }
    }
}

proof fn lemma_header_replaced(hs: Seq<(String, String)>, i: int, h: (String, String))
    requires
        0 <= i < hs.len(),
        distinct_names(hs),
        hs[i].0@ == h.0@,
    ensures
        header_map(hs.update(i, h)) == header_map(hs).insert(h.0@, h.1@),
        distinct_names(hs.update(i, h)),
    decreases hs.len(),
{
    let after = hs.update(i, h);
    if i == hs.len() - 1 {
        assert(after.drop_last() =~= hs.drop_last());
        assert(header_map(after) =~= header_map(hs).insert(h.0@, h.1@));
    } else {
        let front = hs.drop_last();
        assert(distinct_names(front)) by {
            assert forall|a: int, b: int| 0 <= a < b < front.len() implies #[trigger] front[a].0@
                != #[trigger] front[b].0@ by {
                assert(front[a] == hs[a] && front[b] == hs[b]);
            }
        }
        lemma_header_replaced(front, i, h);
        assert(after.drop_last() =~= front.update(i, h));
        assert(hs[i].0@ != hs[hs.len() - 1].0@);
        assert(header_map(after) =~= header_map(hs).insert(h.0@, h.1@));
    }
    assert forall|a: int, b: int| 0 <= a < b < after.len() implies #[trigger] after[a].0@
        != #[trigger] after[b].0@ by {
        assert(after[a].0@ == hs[a].0@ && after[b].0@ == hs[b].0@);
    }
}

/// Sets the header `name` to `value`: in place of an earlier value of
/// that name, or else at the end.
pub fn put_header(headers: &mut Vec<(String, String)>, name: String, value: String)
    requires
        distinct_names(old(headers)@),
    ensures
        distinct_names(final(headers)@),
        header_map(final(headers)@) == header_map(old(headers)@).insert(name@, value@),
{
    let mut i: usize = 0;
    while i < headers.len()
        invariant
            i <= headers@.len(),
            headers@ == old(headers)@,
            distinct_names(headers@),
            forall|j: int| 0 <= j < i ==> (#[trigger] headers@[j]).0@ != name@,
        decreases headers@.len() - i,
    {
        if str_eq(headers[i].0.as_str(), name.as_str()) {
            proof {
                lemma_header_replaced(headers@, i as int, (name, value));
            }
            headers.set(i, (name, value));
            return ;
        }
        i += 1;
    }
    let ghost before = headers@;
    headers.push((name, value));
    assert(headers@.drop_last() =~= before);
    assert(distinct_names(headers@)) by {
        assert forall|a: int, b: int| 0 <= a < b < headers@.len() implies #[trigger] headers@[a].0@
            != #[trigger] headers@[b].0@ by {
            if b < before.len() {
                assert(headers@[a] == before[a] && headers@[b] == before[b]);
            } else {
                assert(headers@[a] == before[a]);
            }
        }
    }
}

/// The headers that the lines from number `from` on add to `acc`, up to
/// the line that ends the head or the end of the lines; or the error of
/// the first line that is no header.
pub open spec fn headers_from(
    lines: Seq<Seq<char>>,
    from: int,
    acc: Map<Seq<char>, Seq<char>>,
) -> Result<Map<Seq<char>, Seq<char>>, ParseErrorView>
    decreases lines.len() - from,
{
    if from < 0 || from >= lines.len() || is_head_end(lines[from]) {
        Ok(acc)
    } else {
        match header_of(lines[from]) {
            Err(e) => Err(e),
            Ok(h) => headers_from(lines, from + 1, acc.insert(h.0, h.1)),
        }
    }
}

/// What the lines of a request head say: the first is the request line,
/// the others are headers. Without any line the method is missing.
pub open spec fn parsed_request(lines: Seq<Seq<char>>) -> Result<RequestView, ParseErrorView> {
    let first = if lines.len() > 0 {
        lines[0]
    } else {
        Seq::empty()
    };
    match request_line(first) {
        Err(e) => Err(e),
        Ok(rl) => match headers_from(lines, 1, Map::empty()) {
            Err(e) => Err(e),
            Ok(headers) => Ok(
                RequestView { method: rl.method, path: rl.path, headers, version: rl.version },
            ),
        },
    }
}

fn parse_headers(lines: &Vec<String>) -> (r: Result<Vec<(String, String)>, ParseError>)
    ensures
        match r {
            Ok(hs) => headers_from(crate::config::texts(lines@), 1, Map::empty()) == Ok::<
                Map<Seq<char>, Seq<char>>,
                ParseErrorView,
            >(header_map(hs@)) && distinct_names(hs@),
            Err(e) => headers_from(crate::config::texts(lines@), 1, Map::empty()) == Err::<
                Map<Seq<char>, Seq<char>>,
                ParseErrorView,
            >(e@),
        },
{
    let ghost all = crate::config::texts(lines@);
    let mut headers: Vec<(String, String)> = Vec::new();
    let mut i: usize = 1;
    while i < lines.len()
        invariant
            1 <= i,
            all == crate::config::texts(lines@),
            distinct_names(headers@),
            headers_from(all, 1, Map::empty()) == headers_from(all, i as int, header_map(headers@)),
        decreases lines.len() - i,
    {
        assert(all[i as int] == lines@[i as int]@);
        if ends_head(lines[i].as_str()) {
            return Ok(headers);
        }
        match parse_header_line(lines[i].as_str()) {
            Ok(h) => {
                put_header(&mut headers, h.0, h.1);
            },
            Err(e) => {
                return Err(e);
            },
        }
        i += 1;
    }
    Ok(headers)
}

/// Reads the head of a request from its lines, each as it was read, line
/// break included. Lines after the one that ends the head are not looked
/// at.
pub fn parse_request(lines: &Vec<String>) -> (r: Result<Request, ParseError>)
    ensures
        match r {
            Ok(req) => parsed_request(crate::config::texts(lines@)) == Ok::<
                RequestView,
                ParseErrorView,
            >(req@) && distinct_names(req.headers@),
            Err(e) => parsed_request(crate::config::texts(lines@)) == Err::<
                RequestView,
                ParseErrorView,
            >(e@),
        },
{
    let ghost all = crate::config::texts(lines@);
    let parts = if lines.len() > 0 {
        assert(all[0] == lines@[0]@);
        parse_request_line(lines[0].as_str())
    } else {
        parse_request_line("")
    };
    proof {
        reveal_strlit("");
        assert(""@ =~= Seq::<char>::empty());
    }
    let (method, path, version) = match parts {
        Ok(p) => p,
        Err(e) => {
            return Err(e);
        },
    };
    match parse_headers(lines) {
        Ok(headers) => Ok(Request { method, path, headers, version }),
        Err(e) => Err(e),
    }
}

} // verus!
