//! The readiness flag, the classification of a bounded readiness check, and
//! the replies of the health, readiness and version endpoints.
use vstd::prelude::*;

verus! {

/// What a bounded readiness check found.
#[derive(Clone, Copy, Debug, PartialEq, Eq, Structural)]
pub enum ReadyCheck {
    Ready,
    NotReady,
    TimedOut,
}

/// The readiness flag of the instance. Every read sees the last value written.
#[derive(Clone, Copy, Debug)]
pub struct Readiness {
    ready: bool,
}

impl View for Readiness {
    type V = bool;

    closed spec fn view(&self) -> bool {
        self.ready
    }
}

impl Readiness {
    pub fn new(ready: bool) -> (r: Readiness)
        ensures
            r@ == ready,
    {
        Readiness { ready }
    }

    pub fn is_ready(&self) -> (r: bool)
        ensures
            r == self@,
    {
        self.ready
    }

    /// Overwrites the flag.
    pub fn set_ready(&mut self, v: bool)
        ensures
            final(self)@ == v,
    {
        self.ready = v;
    }
}

/// The check's answer, given the flag where the read finished in time and
/// `None` where it did not.
pub open spec fn check_of(read: Option<bool>) -> ReadyCheck {
    match read {
        Some(true) => ReadyCheck::Ready,
        Some(false) => ReadyCheck::NotReady,
        None => ReadyCheck::TimedOut,
    }
}

/// Classifies a bounded read of the readiness flag: the flag maps one to one
/// onto `Ready` and `NotReady`, and a read that did not finish in time is
/// `TimedOut`.
pub fn check_outcome(read: Option<bool>) -> (r: ReadyCheck)
    ensures
        r == check_of(read),
{
    match read {
        Some(true) => ReadyCheck::Ready,
        Some(false) => ReadyCheck::NotReady,
        None => ReadyCheck::TimedOut,
    }
}

/// An HTTP status code with a plain-text body.
#[derive(Clone, Copy, Debug)]
pub struct Reply {
    pub status: u16,
    pub body: &'static str,
}

/// The liveness reply: 200 and `OK`, whatever the readiness flag says.
pub fn healthz_reply() -> (r: Reply)
    ensures
        r.status == 200,
        r.body@ == "OK"@,
{
    Reply { status: 200, body: "OK" }
}

pub open spec fn ready_status(c: ReadyCheck) -> u16 {
    match c {
        ReadyCheck::Ready => 200,
        ReadyCheck::NotReady => 503,
        ReadyCheck::TimedOut => 408,
    }
}

pub open spec fn ready_body(c: ReadyCheck) -> Seq<char> {
    match c {
        ReadyCheck::Ready => "READY"@,
        ReadyCheck::NotReady => "NOT_READY"@,
        ReadyCheck::TimedOut => "READY_TIMEOUT"@,
    }
}

/// The readiness reply: 200 `READY`, 503 `NOT_READY`, or 408 `READY_TIMEOUT`.
pub fn ready_reply(c: ReadyCheck) -> (r: Reply)
    ensures
        r.status == ready_status(c),
        r.body@ == ready_body(c),
{
    match c {
        ReadyCheck::Ready => Reply { status: 200, body: "READY" },
        ReadyCheck::NotReady => Reply { status: 503, body: "NOT_READY" },
        ReadyCheck::TimedOut => Reply { status: 408, body: "READY_TIMEOUT" },
    }
}

/// A readiness check whose read of the flag finished in time reports the flag
/// exactly: `Ready` when it is set, `NotReady` when it is not. One whose read
/// did not finish in time is `TimedOut`, never `Ready` or `NotReady`.
pub proof fn law_check_reflects_flag(state: Readiness, read: Option<bool>)
    requires
        read matches Some(seen) ==> seen == state@,
    ensures
        read is Some ==> (check_of(read) == ReadyCheck::Ready <==> state@),
        read is Some ==> (check_of(read) == ReadyCheck::NotReady <==> !state@),
        read is None ==> check_of(read) == ReadyCheck::TimedOut,
{
}

/// The content type of the metrics exposition, with its format version.
pub const METRICS_CONTENT_TYPE: &'static str = "text/plain; version=0.0.4";

/// A build-identity field, or `unknown` where it was not available at build time.
pub fn or_unknown(field: Option<&'static str>) -> (r: &'static str)
    ensures
        field matches Some(f) ==> r@ == f@,
        field is None ==> r@ == "unknown"@,
{
    match field {
        Some(f) => f,
        None => "unknown",
    }
}

} // verus!
