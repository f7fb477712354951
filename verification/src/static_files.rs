//! Static files: which file a request asks for, and how it is announced.

use vstd::prelude::*;
use vstd::slice::slice_subrange;
use vstd::string::{StrSliceExecFns, StringExecFns};
use vstd::utf8::encode_utf8;
use crate::req::Request;
use crate::headers::text_view;
use crate::resp::{html_headers, Response, Status};
use crate::text::{
    chars_of, decimal, eq_ignore_ascii_case, eq_ignore_case, last_index_of, rfind_char,
    to_decimal,
};

verus! {

/// How much of `path` is left when the slashes and `.` components at its
/// end are dropped.
pub open spec fn trailing_cut(path: Seq<char>) -> int
    decreases path.len(),
{
    if path.len() > 0 && path.last() == '/' {
        trailing_cut(path.drop_last())
    } else if path.len() >= 2 && path.last() == '.' && path[path.len() - 2] == '/' {
        trailing_cut(path.drop_last())
    } else if path.len() == 1 && path[0] == '.' {
        0
    } else {
        path.len() as int
    }
}

/// The name of the file that `path` ends in: its last component, slashes
/// and `.` components at the end aside. A path that ends in `..` or has
/// no component names no file.
pub open spec fn file_name_of(path: Seq<char>) -> Option<Seq<char>> {
    let kept = path.take(trailing_cut(path));
    let name = kept.skip(last_index_of(kept, '/') + 1);
    if name.len() == 0 || name == seq!['.', '.'] {
        None
    } else {
        Some(name)
    }
}

/// The extension of the file that `path` ends in: what follows the last
/// dot of its name, unless that dot is the name's first character.
pub open spec fn extension_of(path: Seq<char>) -> Option<Seq<char>> {
    match file_name_of(path) {
        None => None,
        Some(name) => if last_index_of(name, '.') > 0 {
            Some(name.skip(last_index_of(name, '.') + 1))
        } else {
            None
        },
    }
}

/// The media type for an extension, whatever the case of its letters.
pub open spec fn mime_for(ext: Seq<char>) -> Seq<char> {
    if eq_ignore_case(ext, "html"@) || eq_ignore_case(ext, "htm"@) {
        "text/html; charset=utf-8"@
    } else if eq_ignore_case(ext, "css"@) {
        "text/css; charset=utf-8"@
    } else if eq_ignore_case(ext, "js"@) {
        "application/javascript"@
    } else if eq_ignore_case(ext, "json"@) {
        "application/json"@
    } else if eq_ignore_case(ext, "png"@) {
        "image/png"@
    } else if eq_ignore_case(ext, "jpg"@) || eq_ignore_case(ext, "jpeg"@) {
        "image/jpeg"@
    } else if eq_ignore_case(ext, "gif"@) {
        "image/gif"@
    } else if eq_ignore_case(ext, "svg"@) {
        "image/svg+xml"@
    } else if eq_ignore_case(ext, "txt"@) {
        "text/plain; charset=utf-8"@
    } else if eq_ignore_case(ext, "wasm"@) {
        "application/wasm"@
    } else if eq_ignore_case(ext, "ico"@) {
        "image/x-icon"@
    } else {
        "application/octet-stream"@
    }
}

/// The media type of the file that `path` ends in. A file without an
/// extension has the type of one with an empty extension.
pub open spec fn mime_of(path: Seq<char>) -> Seq<char> {
    match extension_of(path) {
        Some(ext) => mime_for(ext),
        None => mime_for(Seq::empty()),
    }
}

fn cut_trailing(path: &[char]) -> (n: usize)
    ensures
        n == trailing_cut(path@),
        n <= path.len(),
{
    let mut n: usize = path.len();
    assert(path@.take(n as int) =~= path@);
    loop
        invariant
            n <= path.len(),
            trailing_cut(path@) == trailing_cut(path@.take(n as int)),
        decreases n,
    {
        let ghost here = path@.take(n as int);
        if n > 0 && path[n - 1] == '/' {
            assert(here.drop_last() =~= path@.take(n - 1));
            n -= 1;
        } else if n >= 2 && path[n - 1] == '.' && path[n - 2] == '/' {
            assert(here.drop_last() =~= path@.take(n - 1));
            n -= 1;
        } else if n == 1 && path[0] == '.' {
            return 0;
        } else {
            return n;
        }
    }
}

fn is_ext(ext: &[char], literal: &str) -> (r: bool)
    ensures
        r == eq_ignore_case(ext@, literal@),
{
    let lit = chars_of(literal);
    eq_ignore_ascii_case(ext, lit.as_slice())
}

fn mime_for_ext(ext: &[char]) -> (r: &'static str)
    ensures
        r@ == mime_for(ext@),
{
    if is_ext(ext, "html") || is_ext(ext, "htm") {
        "text/html; charset=utf-8"
    } else if is_ext(ext, "css") {
        "text/css; charset=utf-8"
    } else if is_ext(ext, "js") {
        "application/javascript"
    } else if is_ext(ext, "json") {
        "application/json"
    } else if is_ext(ext, "png") {
        "image/png"
    } else if is_ext(ext, "jpg") || is_ext(ext, "jpeg") {
        "image/jpeg"
    } else if is_ext(ext, "gif") {
        "image/gif"
    } else if is_ext(ext, "svg") {
        "image/svg+xml"
    } else if is_ext(ext, "txt") {
        "text/plain; charset=utf-8"
    } else if is_ext(ext, "wasm") {
        "application/wasm"
    } else if is_ext(ext, "ico") {
        "image/x-icon"
    } else {
        "application/octet-stream"
    }
}

/// Guesses the media type of a file from the extension of its path.
pub fn guess_mime(path: &str) -> (r: &'static str)
    ensures
        r@ == mime_of(path@),
{
    let chars = chars_of(path);
    let s = chars.as_slice();
    let cut = cut_trailing(s);
    let ghost kept = s@.take(cut as int);
    assert(s@.subrange(0, cut as int) =~= kept);
    let start = match rfind_char(s, 0, cut, '/') {
        Some(i) => i + 1,
        None => 0,
    };
    let ghost name = kept.skip(start as int);
    assert(s@.subrange(start as int, cut as int) =~= name);
    let nothing = slice_subrange(s, 0, 0);
    assert(nothing@ =~= Seq::<char>::empty());
    if start == cut {
        return mime_for_ext(nothing);
    }
    if cut - start == 2 && s[start] == '.' && s[start + 1] == '.' {
        assert(name =~= seq!['.', '.']);
        return mime_for_ext(nothing);
    }
    assert(name != seq!['.', '.']) by {
        if name == seq!['.', '.'] {
            assert(name[0] == '.' && name[1] == '.');
            assert(name[0] == s@[start as int] && name[1] == s@[start + 1]);
        }
    }
    match rfind_char(s, start, cut, '.') {
        Some(dot) => if dot > start {
            assert(s@.subrange(dot + 1, cut as int) =~= name.skip(dot - start + 1));
            mime_for_ext(slice_subrange(s, dot + 1, cut))
        } else {
            mime_for_ext(nothing)
        },
        None => mime_for_ext(nothing),
    }
}

/// Whether `text` starts with `prefix`.
pub open spec fn starts_with(text: Seq<char>, prefix: Seq<char>) -> bool {
    prefix.len() <= text.len() && text.take(prefix.len() as int) == prefix
}

/// Whether two dots stand side by side in `text`.
pub open spec fn has_dot_dot(text: Seq<char>) -> bool {
    exists|i: int| 0 <= i < text.len() - 1 && #[trigger] text[i] == '.' && text[i + 1] == '.'
}

/// The path of the file below the static directory that a request for
/// `path` asks for: what follows `/static/`, and nothing if the path does
/// not start with it.
pub open spec fn relative_of(path: Seq<char>) -> Seq<char> {
    if starts_with(path, "/static/"@) {
        path.skip("/static/"@.len() as int)
    } else {
        Seq::empty()
    }
}

/// Whether a relative path may leave the static directory: it holds `..`
/// or starts at the root.
pub open spec fn escapes(relative: Seq<char>) -> bool {
    has_dot_dot(relative) || (relative.len() > 0 && relative[0] == '/')
}

/// What a request for a static file comes to before the disk is read.
#[derive(Debug)]
pub enum StaticTarget {
    /// The request is answered with this response.
    Invalid(Response),
    /// The file at `relative`, below the static directory, is asked for.
    File { relative: String },
}

fn dot_dot(s: &[char]) -> (r: bool)
    ensures
        r == has_dot_dot(s@),
{
    if s.len() < 2 {
        return false;
    }
    let last: usize = s.len() - 1;
    let mut i: usize = 0;
    while i < last
        invariant
            i <= last,
            last == s.len() - 1,
            forall|j: int| 0 <= j < i ==> !(#[trigger] s@[j] == '.' && s@[j + 1] == '.'),
        decreases last - i,
    {
        if s[i] == '.' && s[i + 1] == '.' {
            return true;
        }
        i += 1;
    }
    false
}

/// Decides which file a request asks for. A path that could leave the
/// static directory is answered with 400 and the body `Invalid path`.
pub fn handle(req: &Request) -> (r: StaticTarget)
    ensures
        match r {
            StaticTarget::Invalid(resp) => escapes(relative_of(req.path@)) && resp.status
                == Status::BadRequest && resp.data@ == encode_utf8("Invalid path"@) && text_view(
                resp.headers@,
            ) == html_headers(encode_utf8("Invalid path"@).len()),
            StaticTarget::File { relative } => !escapes(relative_of(req.path@)) && relative@
                == relative_of(req.path@),
        },
{
    let path = req.path.as_str();
    let chars = chars_of(path);
    let prefix = chars_of("/static/");
    let plen = prefix.len();
    let mut from: usize = chars.len();
    if plen <= chars.len() {
        let head = slice_subrange(chars.as_slice(), 0, plen);
        assert(head@ =~= chars@.take(plen as int));
        let mut same = true;
        let mut i: usize = 0;
        while i < plen
            invariant
                i <= plen,
                plen == prefix@.len(),
                head@.len() == plen,
                same <==> (forall|j: int| 0 <= j < i ==> head@[j] == prefix@[j]),
            decreases plen - i,
        {
            if head[i] != prefix[i] {
                same = false;
            }
            i += 1;
        }
        if same {
            assert(head@ =~= prefix@);
            from = plen;
        } else {
            assert(head@ != prefix@);
        }
    }
    let ghost rel = relative_of(path@);
    assert(chars@.subrange(from as int, chars.len() as int) =~= rel);
    let part = slice_subrange(chars.as_slice(), from, chars.len());
    if dot_dot(part) || (part.len() > 0 && part[0] == '/') {
        return StaticTarget::Invalid(Response::from_html(Status::BadRequest, "Invalid path"));
    }
    StaticTarget::File { relative: path.substring_char(from, chars.len()).to_owned() }
}

/// The head that announces a file of `content_length` bytes.
pub open spec fn found_head_text(content_length: nat, content_type: Seq<char>) -> Seq<char> {
    "HTTP/1.1 200 OK\r\nContent-Length: "@ + decimal(content_length) + "\r\nContent-Type: "@
        + content_type + "\r\n\r\n"@
}

/// Writes the head of the response that carries the file at `path`.
pub fn found_head(path: &str, content_length: usize) -> (r: String)
    ensures
        r@ == found_head_text(content_length as nat, mime_of(path@)),
{
    let mut r = String::from_str("HTTP/1.1 200 OK\r\nContent-Length: ");
    let length = to_decimal(content_length as u64);
    r.append(length.as_str());
    r.append("\r\nContent-Type: ");
    r.append(guess_mime(path));
    r.append("\r\n\r\n");
    r
}

/// The response for a file that does not exist.
pub fn not_found(not_found_html: &str) -> (r: Response)
    ensures
        r.status == Status::NotFound,
        r.data@ == encode_utf8(not_found_html@),
        text_view(r.headers@) == html_headers(encode_utf8(not_found_html@).len()),
{
    Response::from_html(Status::NotFound, not_found_html)
}

} // verus!
