use vstd::prelude::*;

verus! {

/// The result of probing one `host:port` pair.  `Closed` is deliberately
/// ambiguous: it covers a refused connection, an unreachable host, a
/// resolution failure and a timeout alike.
#[derive(Debug, Clone)]
pub enum PortResult {
    Open(String, u16),
    Closed(String, u16),
}

impl PortResult {
    /// The `(host, port)` pair this outcome speaks of.
    pub open spec fn key(self) -> (Seq<char>, u16) {
        match self {
            PortResult::Open(h, p) => (h@, p),
            PortResult::Closed(h, p) => (h@, p),
        }
    }

    pub open spec fn is_open_spec(self) -> bool {
        self is Open
    }

    pub fn is_open(&self) -> (r: bool)
        ensures
            r == self.is_open_spec(),
    {
        matches!(*self, PortResult::Open(_, _))
    }
}

/// The keys of a sequence of outcomes, in sequence order.
pub open spec fn outcome_keys(s: Seq<PortResult>) -> Seq<(Seq<char>, u16)> {
    s.map_values(|o: PortResult| o.key())
}

/// Turns the outcome of one connection attempt into a domain value: a
/// handshake completed within the deadline means the port is open, any
/// failure whatsoever means it counts as closed.
pub fn classify(host: String, port: u16, connected: bool) -> (r: PortResult)
    ensures
        r.key() == (host@, port),
        r.is_open_spec() == connected,
{
    if connected {
        PortResult::Open(host, port)
    } else {
        PortResult::Closed(host, port)
    }
}

} // verus!
