use vstd::prelude::*;
use vstd::multiset::{group_multiset_axioms, lemma_multiset_empty_len, Multiset};
use vstd::seq_lib::group_to_multiset_ensures;
use crate::expand::{is_product, keys_of, Target};
use crate::outcome::{outcome_keys, PortResult};

verus! {

/// Drives a target sequence through the prober under a bounded concurrency
/// cap.  The caller asks for targets with `dispatch` while `can_dispatch`
/// allows it, performs the probes in any order and at any speed, and hands
/// each outcome back through `complete`; completion order is free by design.
pub struct ScanScheduler {
    pub targets: Vec<Target>,
    pub next: usize,
    pub in_flight: usize,
    pub concurrency: usize,
    pub outcomes: Vec<PortResult>,
    pub dispatched: Ghost<Seq<(Seq<char>, u16)>>,
    pub outstanding: Ghost<Multiset<(Seq<char>, u16)>>,
}

impl ScanScheduler {
    /// Holds in every state the methods produce.  `in_flight <= concurrency`
    /// is the concurrency cap: at no instant are more probes outstanding
    /// than the cap allows.  The dispatch log splits into the keys already
    /// resolved and the keys still outstanding, so every outcome handed back
    /// answers a probe that was actually dispatched.
    pub open spec fn inv(self) -> bool {
        &&& self.next <= self.targets@.len()
        &&& self.in_flight <= self.concurrency
        &&& self.concurrency >= 1
        &&& self.in_flight + self.outcomes@.len() == self.next
        &&& self.dispatched@ == keys_of(self.targets@.take(self.next as int))
        &&& outcome_keys(self.outcomes@).to_multiset().add(self.outstanding@)
            == self.dispatched@.to_multiset()
    }

    /// Every dispatched target so far, in dispatch order.
    pub open spec fn dispatched_keys(self) -> Seq<(Seq<char>, u16)> {
        self.dispatched@
    }

    /// The keys of the dispatched probes still waiting for their outcome.
    pub open spec fn outstanding_keys(self) -> Multiset<(Seq<char>, u16)> {
        self.outstanding@
    }

    pub fn new(targets: Vec<Target>, concurrency: usize) -> (s: Self)
        requires
            concurrency >= 1,
        ensures
            s.inv(),
            s.targets@ == targets@,
            s.next == 0,
            s.in_flight == 0,
            s.concurrency == concurrency,
            s.outcomes@ == Seq::<PortResult>::empty(),
    {
        let s = ScanScheduler {
            targets,
            next: 0,
            in_flight: 0,
            concurrency,
            outcomes: Vec::new(),
            dispatched: Ghost(Seq::empty()),
            outstanding: Ghost(Multiset::empty()),
        };
        proof {
            broadcast use group_multiset_axioms;
            broadcast use group_to_multiset_ensures;

            assert(keys_of(s.targets@.take(0)) =~= Seq::<(Seq<char>, u16)>::empty());
            assert(outcome_keys(s.outcomes@) =~= Seq::<(Seq<char>, u16)>::empty());
            let empty = Seq::<(Seq<char>, u16)>::empty();
            assert(empty.to_multiset().len() == 0);
            lemma_multiset_empty_len(empty.to_multiset());
            assert(empty.to_multiset().add(Multiset::empty()) =~= empty.to_multiset());
        }
        s
    }

    /// May one more probe start right now?  Only while targets remain and a
    /// concurrency slot is free.
    pub fn can_dispatch(&self) -> (r: bool)
        ensures
            r == (self.next < self.targets@.len() && self.in_flight < self.concurrency),
    {
        self.next < self.targets.len() && self.in_flight < self.concurrency
    }

    /// Hands out the next not-yet-dispatched target, taking one concurrency
    /// slot.  Targets come out in enumeration order, each exactly once.
    pub fn dispatch(&mut self) -> (t: Target)
        requires
            old(self).inv(),
            old(self).next < old(self).targets@.len(),
            old(self).in_flight < old(self).concurrency,
        ensures
            final(self).inv(),
            t == old(self).targets@[old(self).next as int],
            final(self).targets@ == old(self).targets@,
            final(self).next == old(self).next + 1,
            final(self).in_flight == old(self).in_flight + 1,
            final(self).concurrency == old(self).concurrency,
            final(self).outcomes@ == old(self).outcomes@,
            final(self).dispatched_keys() == old(self).dispatched_keys().push(t.key()),
            final(self).outstanding_keys() == old(self).outstanding_keys().insert(t.key()),
    {
        let len = self.targets.len();
        assert(self.next < len);
        let t = self.targets[self.next].clone();
        self.next = self.next + 1;
        self.in_flight = self.in_flight + 1;
        proof {
            broadcast use group_multiset_axioms;
            broadcast use group_to_multiset_ensures;

            self.dispatched@ = self.dispatched@.push(t.key());
            self.outstanding@ = self.outstanding@.insert(t.key());
            assert(self.targets@.take(self.next as int) =~= self.targets@.take(
                self.next - 1).push(self.targets@[self.next - 1]));
            assert(keys_of(self.targets@.take(self.next as int)) =~= keys_of(
                self.targets@.take(self.next - 1)).push(t.key()));
            assert(outcome_keys(self.outcomes@).to_multiset().add(self.outstanding@)
                =~= self.dispatched@.to_multiset());
        }
        t
    }

    /// Records one resolved probe, giving its concurrency slot back.  The
    /// outcome must answer one of the outstanding dispatched probes.
    pub fn complete(&mut self, outcome: PortResult)
        requires
            old(self).inv(),
            old(self).in_flight > 0,
            old(self).outstanding_keys().count(outcome.key()) > 0,
        ensures
            final(self).inv(),
            final(self).targets@ == old(self).targets@,
            final(self).next == old(self).next,
            final(self).in_flight == old(self).in_flight - 1,
            final(self).concurrency == old(self).concurrency,
            final(self).outcomes@ == old(self).outcomes@.push(outcome),
            final(self).dispatched_keys() == old(self).dispatched_keys(),
            final(self).outstanding_keys() == old(self).outstanding_keys().remove(outcome.key()),
    {
        self.in_flight = self.in_flight - 1;
        self.outcomes.push(outcome);
        proof {
            broadcast use group_multiset_axioms;
            broadcast use group_to_multiset_ensures;

            self.outstanding@ = self.outstanding@.remove(outcome.key());
            assert(outcome_keys(self.outcomes@) =~= outcome_keys(old(self).outcomes@).push(
                outcome.key()));
            assert(outcome_keys(self.outcomes@).to_multiset().add(self.outstanding@)
                =~= self.dispatched@.to_multiset());
        }
    }

    /// Has every target produced exactly one outcome?
    pub fn is_done(&self) -> (r: bool)
        ensures
            r == (self.next == self.targets@.len() && self.in_flight == 0),
    {
        self.next == self.targets.len() && self.in_flight == 0
    }

    /// Hands the collected outcomes back: one per target, and as a multiset
    /// their keys are exactly the targets' keys.
    pub fn into_outcomes(self) -> (r: Vec<PortResult>)
        requires
            self.inv(),
            self.next == self.targets@.len(),
            self.in_flight == 0,
        ensures
            r@ == self.outcomes@,
            r@.len() == self.targets@.len(),
            outcome_keys(r@).to_multiset() == keys_of(self.targets@).to_multiset(),
    {
        proof {
            lemma_each_target_dispatched_once(self);
        }
        self.outcomes
    }
}

/// At every instant the number of outstanding probes — dispatched but not
/// yet resolved — stays within the concurrency cap.
pub proof fn lemma_within_cap(s: ScanScheduler)
    requires
        s.inv(),
    ensures
        s.in_flight <= s.concurrency,
{
}

/// Once a scan is done, every enumerated target was dispatched exactly once
/// and in order — the dispatch log is exactly the target list — and each
/// produced exactly one outcome, so the outcomes' keys are the targets'
/// keys as a multiset.
pub proof fn lemma_each_target_dispatched_once(s: ScanScheduler)
    requires
        s.inv(),
        s.next == s.targets@.len(),
        s.in_flight == 0,
    ensures
        s.dispatched_keys() == keys_of(s.targets@),
        s.dispatched_keys().len() == s.targets@.len(),
        s.outcomes@.len() == s.targets@.len(),
        outcome_keys(s.outcomes@).to_multiset() == keys_of(s.targets@).to_multiset(),
{
    broadcast use group_multiset_axioms;
    broadcast use group_to_multiset_ensures;

    assert(s.targets@.take(s.next as int) =~= s.targets@);
    assert(s.dispatched@.to_multiset().len() == s.dispatched@.len());
    assert(outcome_keys(s.outcomes@).to_multiset().len() == s.outcomes@.len());
    lemma_multiset_empty_len(s.outstanding@);
    assert(s.outstanding@ =~= Multiset::empty());
    assert(outcome_keys(s.outcomes@).to_multiset().add(s.outstanding@) =~= outcome_keys(
        s.outcomes@).to_multiset());
}

/// For a scan over the host × port product, the number of probes issued —
/// and of outcomes collected — is exactly `|hosts| * |expanded ports|`.
pub proof fn lemma_probe_count(s: ScanScheduler, hosts: Seq<Seq<char>>, ports: Seq<u16>)
    requires
        s.inv(),
        s.next == s.targets@.len(),
        s.in_flight == 0,
        is_product(s.targets@, hosts, ports),
    ensures
        s.dispatched_keys().len() == hosts.len() * ports.len(),
        s.outcomes@.len() == hosts.len() * ports.len(),
{
    lemma_each_target_dispatched_once(s);
}

} // verus!
