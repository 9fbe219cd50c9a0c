use vstd::prelude::*;
use vstd::utf8::*;

verus! {

/// The response statuses that the server sends.
#[derive(Debug, Clone, Copy, PartialEq, Eq, Structural)]
pub enum StatusCode {
    OK,
    BadRequest,
    NotFound,
    InternalServerError,
}

/// Code and reason phrase of a status, as on the status line.
pub open spec fn status_text(c: StatusCode) -> Seq<char> {
    match c {
        StatusCode::OK => "200 OK"@,
        StatusCode::BadRequest => "400 Bad Request"@,
        StatusCode::NotFound => "404 Not Found"@,
        StatusCode::InternalServerError => "500 Internal Server Error"@,
    }
}

impl StatusCode {
    /// The code and reason phrase, as text.
    pub fn text(&self) -> (r: &'static str)
        ensures
            r@ == status_text(*self),
    {
        match self {
            StatusCode::OK => "200 OK",
            StatusCode::BadRequest => "400 Bad Request",
            StatusCode::NotFound => "404 Not Found",
            StatusCode::InternalServerError => "500 Internal Server Error",
        }
    }

    /// The code and reason phrase, as bytes on the wire.
    pub fn bytes(&self) -> (r: &'static [u8])
        ensures
            r@ == encode_utf8(status_text(*self)),
    {
        self.text().as_bytes()
    }

    /// Number of bytes of [`StatusCode::bytes`].
    pub fn byte_len(&self) -> (r: usize)
        ensures
            r == encode_utf8(status_text(*self)).len(),
    {
        self.bytes().len()
    }
}

/// A status with an optional message, such as an error a handler reports.
#[derive(Debug)]
pub struct ServerResponse {
    pub code: StatusCode,
    pub content: Option<String>,
}

impl ServerResponse {
    /// The status, then `:` and the message when there is one.
    pub fn message(&self) -> (r: String)
        ensures
            r@ == match self.content {
                Some(c) => status_text(self.code) + ":"@ + c@,
                None => status_text(self.code),
            },
    {
        let mut m = self.code.text().to_owned();
        match &self.content {
            Some(c) => {
                m.append(":");
                m.append(c.as_str());
            },
            None => {},
        }
        m
    }
}

} // verus!
