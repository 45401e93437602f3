use vstd::prelude::*;
use crate::parse::PortArg;

verus! {

/// One `(host, port)` pair to probe, produced by enumeration.
#[derive(Debug)]
pub struct Target {
    pub host: String,
    pub port: u16,
}

impl Target {
    /// The pair as plain values, the shape the contracts speak of.
    pub open spec fn key(self) -> (Seq<char>, u16) {
        (self.host@, self.port)
    }
}

impl Clone for Target {
    fn clone(&self) -> (r: Self)
        ensures
            r == *self,
    {
        Target { host: self.host.clone(), port: self.port }
    }
}

/// The keys of a target sequence.
pub open spec fn keys_of(ts: Seq<Target>) -> Seq<(Seq<char>, u16)> {
    ts.map_values(|t: Target| t.key())
}

/// The ports one spec stands for, in ascending order; a range whose start
/// exceeds its end stands for nothing.
pub open spec fn ports_of_arg(pa: PortArg) -> Seq<u16> {
    match pa {
        PortArg::Single(p) => seq![p],
        PortArg::Range(s, e) => if s <= e {
            Seq::new((e - s + 1) as nat, |k: int| (s + k) as u16)
        } else {
            Seq::empty()
        },
    }
}

/// The full port sequence: per-spec expansions concatenated in spec order,
/// duplicates across specs preserved.
pub open spec fn ports_of_args(specs: Seq<PortArg>) -> Seq<u16>
    decreases specs.len(),
{
    if specs.len() == 0 {
        Seq::empty()
    } else {
        ports_of_args(specs.drop_last()) + ports_of_arg(specs.last())
    }
}

/// Is `ts` the host-major cartesian product of `hosts` and `ports`?
pub open spec fn is_product(ts: Seq<Target>, hosts: Seq<Seq<char>>, ports: Seq<u16>) -> bool {
    &&& ts.len() == hosts.len() * ports.len()
    &&& forall|k: int|
        0 <= k < ts.len() ==> (#[trigger] ts[k]).host@ == hosts[k / (ports.len() as int)]
            && ts[k].port == ports[k % (ports.len() as int)]
}

/// Expands the specs to the full port sequence.
pub fn expand_ports(specs: &Vec<PortArg>) -> (r: Vec<u16>)
    ensures
        r@ == ports_of_args(specs@),
{
    let mut r: Vec<u16> = Vec::new();
    let mut i: usize = 0;
    while i < specs.len()
        invariant
            i <= specs@.len(),
            r@ == ports_of_args(specs@.take(i as int)),
        decreases specs@.len() - i,
    {
        let ghost t = specs@.take(i + 1);
        proof {
            assert(t.drop_last() =~= specs@.take(i as int));
            assert(t.last() == specs@[i as int]);
        }
        let ghost before = r@;
        match specs[i] {
            PortArg::Single(p) => {
                r.push(p);
                proof {
                    assert(r@ =~= before + ports_of_arg(specs@[i as int]));
                }
            },
            PortArg::Range(s, e) => {
                if s <= e {
                    let ghost expansion = ports_of_arg(specs@[i as int]);
                    let mut p: u32 = s as u32;
                    while p <= e as u32
                        invariant
                            s <= p <= e + 1,
                            expansion == ports_of_arg(specs@[i as int]),
                            specs@[i as int] == PortArg::Range(s, e),
                            s <= e,
                            r@ == before + expansion.take(p - s),
                        decreases e + 1 - p,
                    {
                        r.push(p as u16);
                        proof {
                            assert(expansion.take(p + 1 - s) =~= expansion.take(p - s).push(
                                (s + (p - s)) as u16));
                        }
                        p = p + 1;
                    }
                    proof {
                        assert(expansion.take(p - s) =~= expansion);
                    }
                } else {
                    proof {
                        assert(r@ =~= before + ports_of_arg(specs@[i as int]));
                    }
                }
            },
        }
        i = i + 1;
    }
    proof {
        assert(specs@.take(i as int) =~= specs@);
    }
    r
}

/// Enumerates every host with the full port sequence, host-major, in a
/// deterministic order.
pub fn expand(hosts: &Vec<String>, specs: &Vec<PortArg>) -> (r: Vec<Target>)
    ensures
        is_product(r@, hosts.deep_view(), ports_of_args(specs@)),
{
    let ports = expand_ports(specs);
    let ghost hs = hosts.deep_view();
    let ghost n = ports@.len() as int;
    let mut r: Vec<Target> = Vec::new();
    let mut i: usize = 0;
    while i < hosts.len()
        invariant
            i <= hosts@.len(),
            hs == hosts.deep_view(),
            hs.len() == hosts@.len(),
            forall|k: int| 0 <= k < hs.len() ==> hs[k] == hosts@[k]@,
            ports@ == ports_of_args(specs@),
            n == ports@.len() as int,
            r@.len() == i * n,
            forall|k: int|
                0 <= k < r@.len() ==> (#[trigger] r@[k]).host@ == hs[k / n] && r@[k].port
                    == ports@[k % n],
        decreases hosts@.len() - i,
    {
        let mut j: usize = 0;
        while j < ports.len()
            invariant
                i < hosts@.len(),
                j <= ports@.len(),
                hs == hosts.deep_view(),
                hs.len() == hosts@.len(),
                forall|k: int| 0 <= k < hs.len() ==> hs[k] == hosts@[k]@,
                ports@ == ports_of_args(specs@),
                n == ports@.len() as int,
                r@.len() == i * n + j,
                forall|k: int|
                    0 <= k < r@.len() ==> (#[trigger] r@[k]).host@ == hs[k / n] && r@[k].port
                        == ports@[k % n],
            decreases ports@.len() - j,
        {
            let t = Target { host: hosts[i].clone(), port: ports[j] };
            proof {
                vstd::arithmetic::div_mod::lemma_fundamental_div_mod_converse(
                    i as int * n + j as int,
                    n,
                    i as int,
                    j as int,
                );
            }
            r.push(t);
            j = j + 1;
        }
        proof {
            assert(i as int * n + n == (i + 1) as int * n) by (nonlinear_arith);
        }
        i = i + 1;
    }
    proof {
        assert(i as int * n == hs.len() * n);
    }
    r
}

} // verus!
