use vstd::prelude::*;
use vstd::string::StringExecFns;

verus! {

/// Code that names a request on the wire.
pub type Code = u64;

/// Requests that the process status server answers.
#[derive(Debug, Clone, Copy, PartialEq, Eq, Structural, Hash, PartialOrd, Ord)]
pub enum Request {
    /// A forked child reports the command it runs.
    ReportNewProcess,
    /// A watcher asks to be told of started and finished processes.
    WatchForProcesses,
}

/// A code that names no request.
#[derive(Debug, Clone, Copy, PartialEq, Eq, Structural)]
pub struct UnknownRequest {
    pub code: Code,
}

/// Text that reports the unknown code `code`.
pub open spec fn unknown_request_message(code: Code) -> Seq<char> {
    "Unknown request: "@ + crate::hack::decimal(code as nat)
}

impl UnknownRequest {
    /// Text of the error: `Unknown request: <code>`.
    pub fn message(&self) -> (m: String)
        ensures
            m@ == unknown_request_message(self.code),
    {
        let mut m = String::new();
        m.append("Unknown request: ");
        crate::hack::push_decimal(&mut m, self.code);
        m
    }
}

/// Every request, in the order of their codes.
pub open spec fn all_requests() -> Seq<Request> {
    seq![Request::ReportNewProcess, Request::WatchForProcesses]
}

/// The code of a request: its place in `all_requests()`.
pub open spec fn request_code(r: Request) -> Code {
    match r {
        Request::ReportNewProcess => 0,
        Request::WatchForProcesses => 1,
    }
}

/// The request that `code` names, if any.
pub open spec fn request_of_code(code: Code) -> Option<Request> {
    if code == 0 {
        Some(Request::ReportNewProcess)
    } else if code == 1 {
        Some(Request::WatchForProcesses)
    } else {
        None
    }
}

impl Request {
    /// Every request, in the order of their codes.
    pub fn all() -> (r: [Request; 2])
        ensures
            r@ == all_requests(),
    {
        let r = [Request::ReportNewProcess, Request::WatchForProcesses];
        assert(r@ =~= all_requests());
        r
    }

    /// The code of this request.
    pub fn id(&self) -> (code: Code)
        ensures
            code == request_code(*self),
    {
        match self {
            Request::ReportNewProcess => 0,
            Request::WatchForProcesses => 1,
        }
    }

    /// The request that `code` names; an error for a code that names none.
    pub fn try_from(code: Code) -> (r: Result<Request, UnknownRequest>)
        ensures
            match r {
                Ok(q) => request_of_code(code) == Some(q),
                Err(e) => request_of_code(code) is None && e.code == code,
            },
    {
        let all = Self::all();
        let mut i: usize = 0;
        while i < 2
            invariant
                i <= 2,
                all@ == all_requests(),
                forall|j: int| 0 <= j < i ==> request_code(all@[j]) != code,
            decreases 2 - i,
        {
            if all[i].id() == code {
                return Ok(all[i]);
            }
            i += 1;
        }
        assert(request_code(all@[0]) != code);
        assert(request_code(all@[1]) != code);
        Err(UnknownRequest { code })
    }
}

impl From<Request> for Code {
    fn from(request: Request) -> (code: Code) {
        request.id()
    }
}

impl vstd::std_specs::convert::FromSpecImpl<Request> for Code {
    open spec fn obeys_from_spec() -> bool {
        true
    }

    open spec fn from_spec(v: Request) -> Code {
        request_code(v)
    }
}

/// Law: each request's code is its place among all requests, so no two requests share a
/// code.
pub proof fn law_codes_are_positions()
    ensures
        forall|i: int| 0 <= i < all_requests().len() ==> request_code(#[trigger] all_requests()[i]) == i,
        all_requests().no_duplicates(),
{
    assert(request_code(all_requests()[0]) == 0);
    assert(request_code(all_requests()[1]) == 1);
}

/// Law: the request that a request's code names is that request.
pub proof fn law_code_round_trip(r: Request)
    ensures
        request_of_code(request_code(r)) == Some(r),
{
}

/// Law: a code names a request exactly when it is the code of that request.
pub proof fn law_code_names_its_request(code: Code)
    ensures
        request_of_code(code) matches Some(r) ==> request_code(r) == code,
        request_of_code(code) is None ==> forall|r: Request| request_code(r) != code,
{
}

} // verus!
