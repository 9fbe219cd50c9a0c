use vstd::prelude::*;

verus! {

#[verifier::external_type_specification]
#[verifier::external_body]
pub struct ExIoError(std::io::Error);

/// Why a request could not be read.
#[derive(Debug)]
pub enum Error {
    AlreadyCloseParser,
    UnknownHttpMethod(String),
    UnsupportedHttpVersion(String),
    InvalidLinePartSize(usize),
    ReaderError(std::io::Error),
    MalFormedHeader(String),
    MalFormedContentLengthHeader(String),
    BodyBiggerThanContentLength,
    BodySmallerThanContentLength,
}

/// An [`Error`] with its texts as character sequences.
pub enum ErrorView {
    AlreadyCloseParser,
    UnknownHttpMethod(Seq<char>),
    UnsupportedHttpVersion(Seq<char>),
    InvalidLinePartSize(nat),
    ReaderError,
    MalFormedHeader(Seq<char>),
    MalFormedContentLengthHeader(Seq<char>),
    BodyBiggerThanContentLength,
    BodySmallerThanContentLength,
}

impl View for Error {
    type V = ErrorView;

    open spec fn view(&self) -> ErrorView {
        match self {
            Error::AlreadyCloseParser => ErrorView::AlreadyCloseParser,
            Error::UnknownHttpMethod(s) => ErrorView::UnknownHttpMethod(s@),
            Error::UnsupportedHttpVersion(s) => ErrorView::UnsupportedHttpVersion(s@),
            Error::InvalidLinePartSize(n) => ErrorView::InvalidLinePartSize(*n as nat),
            Error::ReaderError(_) => ErrorView::ReaderError,
            Error::MalFormedHeader(s) => ErrorView::MalFormedHeader(s@),
            Error::MalFormedContentLengthHeader(s) => ErrorView::MalFormedContentLengthHeader(s@),
            Error::BodyBiggerThanContentLength => ErrorView::BodyBiggerThanContentLength,
            Error::BodySmallerThanContentLength => ErrorView::BodySmallerThanContentLength,
        }
    }
}

impl PartialEq for Error {
    fn eq(&self, other: &Error) -> (r: bool) {
        match (self, other) {
            (Error::AlreadyCloseParser, Error::AlreadyCloseParser) => true,
            (Error::UnknownHttpMethod(l), Error::UnknownHttpMethod(r)) => *l == *r,
            (Error::UnsupportedHttpVersion(l), Error::UnsupportedHttpVersion(r)) => *l == *r,
            (Error::InvalidLinePartSize(l), Error::InvalidLinePartSize(r)) => *l == *r,
            (Error::ReaderError(_), Error::ReaderError(_)) => true,
            (Error::MalFormedHeader(l), Error::MalFormedHeader(r)) => *l == *r,
            (Error::MalFormedContentLengthHeader(l), Error::MalFormedContentLengthHeader(r)) => *l
                == *r,
            (Error::BodyBiggerThanContentLength, Error::BodyBiggerThanContentLength) => true,
            (Error::BodySmallerThanContentLength, Error::BodySmallerThanContentLength) => true,
            _ => false,
        }
    }
}

impl vstd::std_specs::cmp::PartialEqSpecImpl for Error {
    open spec fn obeys_eq_spec() -> bool {
        true
    }

    open spec fn eq_spec(&self, other: &Error) -> bool {
        self@ == other@
    }
}

} // verus!
