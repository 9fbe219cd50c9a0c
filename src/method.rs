use vstd::prelude::*;
use vstd::utf8::*;

use crate::error::{Error, ErrorView};
use crate::text::bytes_eq;

verus! {

/// The request methods that a request line may name.
#[derive(Debug, Clone, Copy, PartialEq, Eq, Structural)]
pub enum HttpMethod {
    GET,
    POST,
    PUT,
    HEAD,
    DELETE,
    PATCH,
    OPTIONS,
    CONNECT,
    TRACE,
}

/// The name of a method as it is written on a request line.
pub open spec fn method_name(m: HttpMethod) -> Seq<char> {
    match m {
        HttpMethod::GET => "GET"@,
        HttpMethod::POST => "POST"@,
        HttpMethod::PUT => "PUT"@,
        HttpMethod::HEAD => "HEAD"@,
        HttpMethod::DELETE => "DELETE"@,
        HttpMethod::PATCH => "PATCH"@,
        HttpMethod::OPTIONS => "OPTIONS"@,
        HttpMethod::CONNECT => "CONNECT"@,
        HttpMethod::TRACE => "TRACE"@,
    }
}

/// The method whose name is exactly the bytes `b`, if any.
pub open spec fn method_of(b: Seq<u8>) -> Option<HttpMethod> {
    if b == encode_utf8(method_name(HttpMethod::GET)) {
        Some(HttpMethod::GET)
    } else if b == encode_utf8(method_name(HttpMethod::POST)) {
        Some(HttpMethod::POST)
    } else if b == encode_utf8(method_name(HttpMethod::PUT)) {
        Some(HttpMethod::PUT)
    } else if b == encode_utf8(method_name(HttpMethod::HEAD)) {
        Some(HttpMethod::HEAD)
    } else if b == encode_utf8(method_name(HttpMethod::DELETE)) {
        Some(HttpMethod::DELETE)
    } else if b == encode_utf8(method_name(HttpMethod::PATCH)) {
        Some(HttpMethod::PATCH)
    } else if b == encode_utf8(method_name(HttpMethod::OPTIONS)) {
        Some(HttpMethod::OPTIONS)
    } else if b == encode_utf8(method_name(HttpMethod::CONNECT)) {
        Some(HttpMethod::CONNECT)
    } else if b == encode_utf8(method_name(HttpMethod::TRACE)) {
        Some(HttpMethod::TRACE)
    } else {
        None
    }
}

impl HttpMethod {
    /// The method's name.
    pub fn name(&self) -> (r: &'static str)
        ensures
            r@ == method_name(*self),
    {
        match self {
            HttpMethod::GET => "GET",
            HttpMethod::POST => "POST",
            HttpMethod::PUT => "PUT",
            HttpMethod::HEAD => "HEAD",
            HttpMethod::DELETE => "DELETE",
            HttpMethod::PATCH => "PATCH",
            HttpMethod::OPTIONS => "OPTIONS",
            HttpMethod::CONNECT => "CONNECT",
            HttpMethod::TRACE => "TRACE",
        }
    }

    /// The method named exactly by `method`; `UnknownHttpMethod` for any
    /// other text.
    pub fn try_from(method: &str) -> (r: Result<HttpMethod, Error>)
        ensures
            match (r, method_of(encode_utf8(method@))) {
                (Ok(m), Some(n)) => m == n,
                (Err(e), None) => e@ == ErrorView::UnknownHttpMethod(method@),
                _ => false,
            },
    {
        match HttpMethod::from_bytes(method.as_bytes()) {
            Some(m) => Ok(m),
            None => Err(Error::UnknownHttpMethod(method.to_owned())),
        }
    }

    /// The method named exactly by the bytes `b`.
    pub fn from_bytes(b: &[u8]) -> (r: Option<HttpMethod>)
        ensures
            r == method_of(b@),
    {
        if bytes_eq(b, "GET".as_bytes()) {
            Some(HttpMethod::GET)
        } else if bytes_eq(b, "POST".as_bytes()) {
            Some(HttpMethod::POST)
        } else if bytes_eq(b, "PUT".as_bytes()) {
            Some(HttpMethod::PUT)
        } else if bytes_eq(b, "HEAD".as_bytes()) {
            Some(HttpMethod::HEAD)
        } else if bytes_eq(b, "DELETE".as_bytes()) {
            Some(HttpMethod::DELETE)
        } else if bytes_eq(b, "PATCH".as_bytes()) {
            Some(HttpMethod::PATCH)
        } else if bytes_eq(b, "OPTIONS".as_bytes()) {
            Some(HttpMethod::OPTIONS)
        } else if bytes_eq(b, "CONNECT".as_bytes()) {
            Some(HttpMethod::CONNECT)
        } else if bytes_eq(b, "TRACE".as_bytes()) {
            Some(HttpMethod::TRACE)
        } else {
            None
        }
    }
}

} // verus!
