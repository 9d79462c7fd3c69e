//! The outcome of applying a request to the store, and how a response is
//! rendered from it: an HTTP-style status line, a body fragment supplied by
//! the caller, and — for a successful lookup — the retrieved value appended
//! verbatim.

use vstd::prelude::*;
use vstd::string::*;

verus! {

/// The outcome of applying a request to the store.
#[derive(Debug)]
pub enum Response {
    /// The key was present; carries the retrieved value.
    GetSuccess(String),
    /// The key was bound to the value.
    SetSuccess,
    /// The key was absent.
    NotFound,
}

/// The status line a response starts with.
pub open spec fn spec_status_line(response: Response) -> Seq<char> {
    match response {
        Response::NotFound => ("HTTP/1.1 404 NOT FOUND\r\n\r\n")@,
        _ => ("HTTP/1.1 200 OK\r\n\r\n")@,
    }
}

/// The full response text: status line, then the body fragment, then the
/// retrieved value when there is one.
pub open spec fn spec_render(response: Response, contents: Seq<char>) -> Seq<char> {
    let tail = match response {
        Response::GetSuccess(value) => value@,
        _ => Seq::<char>::empty(),
    };
    spec_status_line(response) + contents + tail
}

impl Response {
    /// The status line for this outcome: success for a retrieved value or a
    /// completed write, not-found otherwise.
    pub fn status_line(&self) -> (s: &'static str)
        ensures
            s@ == spec_status_line(*self),
    {
        match self {
            Response::NotFound => "HTTP/1.1 404 NOT FOUND\r\n\r\n",
            _ => "HTTP/1.1 200 OK\r\n\r\n",
        }
    }

    /// The name of the static file whose contents form the body fragment
    /// for this outcome.  The file itself belongs to the process edge.
    pub fn body_filename(&self) -> (s: &'static str)
        ensures
            (*self matches Response::GetSuccess(v)) ==> s@ == ("get_success.html")@,
            (*self matches Response::SetSuccess) ==> s@ == ("set_success.html")@,
            (*self matches Response::NotFound) ==> s@ == ("404.html")@,
    {
        match self {
            Response::GetSuccess(_) => "get_success.html",
            Response::SetSuccess => "set_success.html",
            Response::NotFound => "404.html",
        }
    }
}

/// Renders the response text sent back over the wire: the status line, the
/// body fragment read by the caller, and the retrieved value if any.
pub fn render_response(response: &Response, contents: &str) -> (out: String)
    ensures
        out@ == spec_render(*response, contents@),
{
    let mut out = String::from_str(response.status_line());
    out.append(contents);
    if let Response::GetSuccess(value) = response {
        out.append(value.as_str());
    }
    proof {
        assert(out@ =~= spec_render(*response, contents@));
    }
    out
}

} // verus!
