//! What can go wrong, and how it is told to the user.

use crate::text;
use vstd::prelude::*;

verus! {

/// Why a request to a server failed.
#[derive(Debug)]
pub enum HttpFailure {
    /// No answer in time.
    Timeout,
    /// No connection.
    Connect,
    /// An answer with an error status, such as `503 Service Unavailable`.
    Status(String),
    /// Anything else, in the words of the HTTP client.
    Network(String),
}

/// The errors of this library.
#[derive(Debug)]
pub enum Error {
    /// The download service refused.
    Api { message: String, details: String },
    /// A request failed.
    Http(HttpFailure),
    /// Reading or writing failed.
    Io(String),
    /// The product catalog is no XML.
    Xml(String),
    /// The product catalog is no cabinet, or holds no XML file.
    Cab(String),
    /// Anything else.
    Other(String),
}

pub type Result<T> = std::result::Result<T, Error>;

/// What an error says, with strings as sequences of characters.
pub enum ErrorView {
    Api { message: Seq<char>, details: Seq<char> },
    Http(HttpFailureView),
    Io(Seq<char>),
    Xml(Seq<char>),
    Cab(Seq<char>),
    Other(Seq<char>),
}

/// What a failed request says, with strings as sequences of characters.
pub enum HttpFailureView {
    Timeout,
    Connect,
    Status(Seq<char>),
    Network(Seq<char>),
}

impl View for HttpFailure {
    type V = HttpFailureView;

    open spec fn view(&self) -> HttpFailureView {
        match self {
            HttpFailure::Timeout => HttpFailureView::Timeout,
            HttpFailure::Connect => HttpFailureView::Connect,
            HttpFailure::Status(s) => HttpFailureView::Status(s@),
            HttpFailure::Network(s) => HttpFailureView::Network(s@),
        }
    }
}

impl View for Error {
    type V = ErrorView;

    open spec fn view(&self) -> ErrorView {
        match self {
            Error::Api { message, details } => ErrorView::Api {
                message: message@,
                details: details@,
            },
            Error::Http(f) => ErrorView::Http(f@),
            Error::Io(s) => ErrorView::Io(s@),
            Error::Xml(s) => ErrorView::Xml(s@),
            Error::Cab(s) => ErrorView::Cab(s@),
            Error::Other(s) => ErrorView::Other(s@),
        }
    }
}

/// The words for a failed request.
pub open spec fn http_words(f: HttpFailureView) -> Seq<char> {
    match f {
        HttpFailureView::Timeout =>
            "Network timeout — check your internet connection or try again later"@,
        HttpFailureView::Connect =>
            "Could not connect to Microsoft servers — check your internet connection"@,
        HttpFailureView::Status(s) => "HTTP "@ + s + " from Microsoft servers — try again later"@,
        HttpFailureView::Network(s) => "Network error: "@ + s,
    }
}

/// The words for an error.
pub open spec fn error_words(e: ErrorView) -> Seq<char> {
    match e {
        ErrorView::Api { message, details } => "API error: "@ + message,
        ErrorView::Http(f) => http_words(f),
        ErrorView::Io(s) => "I/O error: "@ + s,
        ErrorView::Xml(s) => "XML parse error: "@ + s,
        ErrorView::Cab(s) => "CAB extraction error: "@ + s,
        ErrorView::Other(s) => s,
    }
}

/// The words for a failed request.
pub fn friendly_http_error(e: &HttpFailure) -> (r: String)
    ensures
        r@ == http_words(e@),
{
    match e {
        HttpFailure::Timeout =>
            "Network timeout — check your internet connection or try again later".to_owned(),
        HttpFailure::Connect =>
            "Could not connect to Microsoft servers — check your internet connection".to_owned(),
        HttpFailure::Status(s) => text::concat3(
            "HTTP ",
            s.as_str(),
            " from Microsoft servers — try again later",
        ),
        HttpFailure::Network(s) => text::concat("Network error: ", s.as_str()),
    }
}

impl Error {
    /// The words for the error.
    pub fn message(&self) -> (r: String)
        ensures
            r@ == error_words(self@),
    {
        match self {
            Error::Api { message, details: _ } => text::concat("API error: ", message.as_str()),
            Error::Http(f) => friendly_http_error(f),
            Error::Io(s) => text::concat("I/O error: ", s.as_str()),
            Error::Xml(s) => text::concat("XML parse error: ", s.as_str()),
            Error::Cab(s) => text::concat("CAB extraction error: ", s.as_str()),
            Error::Other(s) => s.clone(),
        }
    }
}

/// An `Other` error that says `s`.
pub fn other(s: &str) -> (r: Error)
    ensures
        r@ == ErrorView::Other(s@),
{
    Error::Other(s.to_owned())
}

/// What the user is told begins with what kind of thing went wrong, and goes on with the cause as it
/// was given. What failed on the way to Microsoft is told with what can be done about it.
pub proof fn law_told(message: Seq<char>, details: Seq<char>, s: Seq<char>)
    ensures
        error_words(ErrorView::Api { message, details }) == "API error: "@ + message,
        error_words(ErrorView::Io(s)) == "I/O error: "@ + s,
        error_words(ErrorView::Xml(s)) == "XML parse error: "@ + s,
        error_words(ErrorView::Cab(s)) == "CAB extraction error: "@ + s,
        error_words(ErrorView::Other(s)) == s,
        error_words(ErrorView::Http(HttpFailureView::Timeout))
            == "Network timeout — check your internet connection or try again later"@,
        error_words(ErrorView::Http(HttpFailureView::Connect))
            == "Could not connect to Microsoft servers — check your internet connection"@,
        error_words(ErrorView::Http(HttpFailureView::Status(s))) == "HTTP "@ + s
            + " from Microsoft servers — try again later"@,
        error_words(ErrorView::Http(HttpFailureView::Network(s))) == "Network error: "@ + s,
{
}

/// Contracts speak of an error by its kind and by all its words.
pub proof fn law_view(e: Error)
    ensures
        match e {
            Error::Api { message, details } => e@ == (ErrorView::Api {
                message: message@,
                details: details@,
            }),
            Error::Http(HttpFailure::Timeout) => e@ == ErrorView::Http(HttpFailureView::Timeout),
            Error::Http(HttpFailure::Connect) => e@ == ErrorView::Http(HttpFailureView::Connect),
            Error::Http(HttpFailure::Status(s)) => e@ == ErrorView::Http(
                HttpFailureView::Status(s@),
            ),
            Error::Http(HttpFailure::Network(s)) => e@ == ErrorView::Http(
                HttpFailureView::Network(s@),
            ),
            Error::Io(s) => e@ == ErrorView::Io(s@),
            Error::Xml(s) => e@ == ErrorView::Xml(s@),
            Error::Cab(s) => e@ == ErrorView::Cab(s@),
            Error::Other(s) => e@ == ErrorView::Other(s@),
        },
{
}

} // verus!
