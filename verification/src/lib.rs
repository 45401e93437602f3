// A bounded-concurrency TCP port scanner's core: port-token parsing, target
// enumeration, scheduling under a concurrency cap, and sorted aggregation of
// the open ports.  The network probes themselves happen outside; the core
// works on plain values and every function here carries a proved contract.
pub mod aggregate;
pub mod expand;
pub mod order;
pub mod outcome;
pub mod parse;
pub mod scan;
pub mod scheduler;
