use vstd::prelude::*;
use crate::expand::{expand, is_product, ports_of_args, Target};
use crate::parse::{errors_of, parse_ports, specs_of};

verus! {

/// Plans a scan, all-or-nothing: when every port token parses, the full
/// host-major target product comes back and the probing may start; when any
/// token is rejected, every offending token comes back instead and nothing
/// may be probed.
pub fn prepare_scan(hosts: &Vec<String>, port_tokens: &Vec<String>) -> (r: Result<
    Vec<Target>,
    Vec<String>,
>)
    ensures
        match r {
            Ok(ts) => errors_of(port_tokens.deep_view()).len() == 0 && is_product(
                ts@,
                hosts.deep_view(),
                ports_of_args(specs_of(port_tokens.deep_view())),
            ),
            Err(es) => es.deep_view() == errors_of(port_tokens.deep_view()) && es@.len() > 0,
        },
{
    let ghost toks = port_tokens.deep_view();
    let mut refs: Vec<&str> = Vec::new();
    let mut i: usize = 0;
    while i < port_tokens.len()
        invariant
            i <= port_tokens@.len(),
            toks == port_tokens.deep_view(),
            toks.len() == port_tokens@.len(),
            refs@.len() == i,
            forall|k: int| 0 <= k < i ==> (#[trigger] refs@[k])@ == toks[k],
        decreases port_tokens@.len() - i,
    {
        refs.push(port_tokens[i].as_str());
        i = i + 1;
    }
    proof {
        assert(refs.deep_view() =~= toks);
    }
    let (specs, errors) = parse_ports(refs);
    if errors.len() > 0 {
        proof {
            assert(errors.deep_view().len() == errors@.len());
        }
        Err(errors)
    } else {
        proof {
            assert(errors.deep_view().len() == errors@.len());
        }
        Ok(expand(hosts, &specs))
    }
}

} // verus!
