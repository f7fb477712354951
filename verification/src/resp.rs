//! Responses that the server writes itself, head and body.

use vstd::prelude::*;
use vstd::string::{StrSliceExecFns, StringExecFns};
use vstd::utf8::encode_utf8;
use crate::headers::text_view;
use crate::text::{decimal, to_decimal};

verus! {

/// The statuses of the responses that the server writes itself.
#[derive(Debug, Copy, Clone, Eq, PartialEq, Hash, Structural)]
pub enum Status {
    InternalServerError,
    BadRequest,
    NotFound,
}

/// A status as it stands in a status line: the code and the reason.
pub open spec fn status_text(status: Status) -> Seq<char> {
    match status {
        Status::NotFound => "404 Not Found"@,
        Status::BadRequest => "400 Bad Request"@,
        Status::InternalServerError => "500 Internal Server Error"@,
    }
}

impl Status {
    /// The status as it stands in a status line.
    pub fn to_string(&self) -> (r: String)
        ensures
            r@ == status_text(*self),
    {
        match self {
            Status::NotFound => String::from_str("404 Not Found"),
            Status::BadRequest => String::from_str("400 Bad Request"),
            Status::InternalServerError => String::from_str("500 Internal Server Error"),
        }
    }
}

/// A response: status, headers in the order in which they are written,
/// and the body.
#[derive(Debug, Clone)]
pub struct Response {
    pub status: Status,
    pub headers: Vec<(String, String)>,
    pub data: Vec<u8>,
}

/// The header lines of a response head: `name: value` for each header,
/// with a line break between one and the next.
pub open spec fn header_lines(hs: Seq<(Seq<char>, Seq<char>)>) -> Seq<char>
    decreases hs.len(),
{
    if hs.len() == 0 {
        Seq::empty()
    } else if hs.len() == 1 {
        hs[0].0 + ": "@ + hs[0].1
    } else {
        header_lines(hs.drop_last()) + "\r\n"@ + hs.last().0 + ": "@ + hs.last().1
    }
}

/// The head of a response: status line, header lines and the empty line.
pub open spec fn head_text(status: Status, hs: Seq<(Seq<char>, Seq<char>)>) -> Seq<char> {
    "HTTP/1.1 "@ + status_text(status) + "\r\n"@ + header_lines(hs) + "\r\n\r\n"@
}

/// The headers of an HTML response with a body of `length` bytes.
pub open spec fn html_headers(length: nat) -> Seq<(Seq<char>, Seq<char>)> {
    seq![("Content-Type"@, "text/html"@), ("Content-Length"@, decimal(length))]
}

impl Response {
    /// Writes the head of the response.
    pub fn status_and_headers(&self) -> (r: String)
        ensures
            r@ == head_text(self.status, text_view(self.headers@)),
    {
        let mut lines = String::new();
        let mut i: usize = 0;
        let ghost hs = text_view(self.headers@);
        assert(hs.take(0) =~= Seq::empty());
        while i < self.headers.len()
            invariant
                i <= self.headers.len(),
                hs == text_view(self.headers@),
                lines@ == header_lines(hs.take(i as int)),
            decreases self.headers.len() - i,
        {
            let ghost upto = hs.take(i + 1);
            assert(upto.drop_last() =~= hs.take(i as int));
            assert(upto.last() == (self.headers@[i as int].0@, self.headers@[i as int].1@));
            if i > 0 {
                lines.append("\r\n");
            } else {
                assert(upto[0] == upto.last());
                assert(Seq::<char>::empty() + upto[0].0 =~= upto[0].0);
            }
            lines.append(self.headers[i].0.as_str());
            lines.append(": ");
            lines.append(self.headers[i].1.as_str());
            i += 1;
        }
        assert(hs.take(self.headers.len() as int) =~= hs);
        let mut r = String::from_str("HTTP/1.1 ");
        let status = self.status.to_string();
        r.append(status.as_str());
        r.append("\r\n");
        r.append(lines.as_str());
        r.append("\r\n\r\n");
        r
    }

    /// An HTML response with `data` as its body.
    pub fn from_html(status: Status, data: &str) -> (r: Response)
        ensures
            r.status == status,
            r.data@ == encode_utf8(data@),
            text_view(r.headers@) == html_headers(encode_utf8(data@).len()),
    {
        let bytes = data.as_bytes_vec();
        let mut headers: Vec<(String, String)> = Vec::new();
        headers.push((String::from_str("Content-Type"), String::from_str("text/html")));
        headers.push((String::from_str("Content-Length"), to_decimal(bytes.len() as u64)));
        assert(text_view(headers@) =~= seq![
            ("Content-Type"@, "text/html"@),
            ("Content-Length"@, decimal(encode_utf8(data@).len())),
        ]);
        Response { status, headers, data: bytes }
    }
}

} // verus!
