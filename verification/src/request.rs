//! The parsed request and its mathematical view.
use crate::text::contains;
use vstd::prelude::*;

verus! {

/// Why a connection was given up.
#[derive(Clone, Copy, Debug, PartialEq, Eq, Structural)]
pub enum ProxyError {
    /// The request line or its target could not be parsed.
    MalformedRequest,
    /// No connection to the origin could be opened.
    UpstreamConnectFailure,
    /// A read or a write failed on one of the two sockets.
    IOFailure,
}

/// One header line as a (key, value) pair. Headers are kept as a list, not as
/// a map: a key may come more than once and the order is kept.
#[derive(Clone, Debug, PartialEq, Eq)]
pub struct Header {
    pub key: String,
    pub value: String,
}

/// The view of a [`Header`].
pub struct HeaderView {
    pub key: Seq<char>,
    pub value: Seq<char>,
}

impl View for Header {
    type V = HeaderView;

    open spec fn view(&self) -> HeaderView {
        HeaderView { key: self.key@, value: self.value@ }
    }
}

impl DeepView for Header {
    type V = HeaderView;

    open spec fn deep_view(&self) -> HeaderView {
        self@
    }
}

/// A request as the proxy received it: the verb, the three parts of the
/// absolute-URI target and the header lines in their order.
#[derive(Clone, Debug, PartialEq, Eq)]
pub struct Request {
    pub verb: String,
    pub scheme: String,
    pub hostname: String,
    /// The path without its leading slash; may be empty.
    pub path: String,
    pub headers: Vec<Header>,
}

/// The view of a [`Request`].
pub struct RequestView {
    pub verb: Seq<char>,
    pub scheme: Seq<char>,
    pub hostname: Seq<char>,
    pub path: Seq<char>,
    pub headers: Seq<HeaderView>,
}

impl View for Request {
    type V = RequestView;

    open spec fn view(&self) -> RequestView {
        RequestView {
            verb: self.verb@,
            scheme: self.scheme@,
            hostname: self.hostname@,
            path: self.path@,
            headers: self.headers.deep_view(),
        }
    }
}

impl DeepView for Request {
    type V = RequestView;

    open spec fn deep_view(&self) -> RequestView {
        self@
    }
}

/// The line break of the wire format.
pub open spec fn crlf() -> Seq<char> {
    seq!['\r', '\n']
}

/// `text` holds no line break.
pub open spec fn is_line(text: Seq<char>) -> bool {
    !contains(text, crlf())
}

/// None of the texts holds a line break.
pub open spec fn all_lines(texts: Seq<Seq<char>>) -> bool {
    forall|i: int| 0 <= i < texts.len() ==> is_line(#[trigger] texts[i])
}

/// No key and no value holds a line break.
pub open spec fn headers_are_lines(headers: Seq<HeaderView>) -> bool {
    forall|i: int|
        0 <= i < headers.len() ==> is_line((#[trigger] headers[i]).key) && is_line(
            headers[i].value,
        )
}

impl RequestView {
    /// No field holds a line break, so each field stays on the line it is
    /// written to. Every parsed request is well formed.
    pub open spec fn well_formed(self) -> bool {
        &&& is_line(self.verb)
        &&& is_line(self.scheme)
        &&& is_line(self.hostname)
        &&& is_line(self.path)
        &&& headers_are_lines(self.headers)
    }
}

/// The view of a parse result.
pub open spec fn result_view(r: Result<Request, ProxyError>) -> Result<RequestView, ProxyError> {
    match r {
        Ok(request) => Ok(request@),
        Err(e) => Err(e),
    }
}

} // verus!
