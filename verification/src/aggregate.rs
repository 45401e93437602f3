use vstd::prelude::*;
use vstd::relations::sorted_by;
use vstd::seq_lib::lemma_sorted_unique;
use vstd::seq_lib::group_to_multiset_ensures;
use vstd::multiset::group_multiset_axioms;
use crate::expand::{keys_of, Target};
use crate::order::{key_le, key_le_fn, lemma_key_le_total_ordering, str_le};
use crate::outcome::PortResult;

verus! {

/// The keys of the open outcomes, in outcome order.
pub open spec fn open_keys(outcomes: Seq<PortResult>) -> Seq<(Seq<char>, u16)>
    decreases outcomes.len(),
{
    if outcomes.len() == 0 {
        Seq::empty()
    } else {
        let rest = open_keys(outcomes.drop_last());
        if outcomes.last().is_open_spec() {
            rest.push(outcomes.last().key())
        } else {
            rest
        }
    }
}

/// Decides the report order between two targets.
fn target_le(a: &Target, b: &Target) -> (r: bool)
    ensures
        r == key_le(a.key(), b.key()),
{
    if a.host == b.host {
        a.port <= b.port
    } else {
        str_le(a.host.as_str(), b.host.as_str())
    }
}

fn target_of(o: &PortResult) -> (t: Target)
    ensures
        t.key() == o.key(),
{
    match o {
        PortResult::Open(h, p) => Target { host: h.clone(), port: *p },
        PortResult::Closed(h, p) => Target { host: h.clone(), port: *p },
    }
}

/// Finds the first position whose key does not come before `t`'s.
fn find_pos(v: &Vec<Target>, t: &Target) -> (pos: usize)
    ensures
        pos <= v@.len(),
        forall|k: int| 0 <= k < pos ==> key_le_fn()(#[trigger] keys_of(v@)[k], t.key()),
        pos < v@.len() ==> !key_le_fn()(keys_of(v@)[pos as int], t.key()),
{
    let mut pos: usize = 0;
    while pos < v.len()
        invariant
            pos <= v@.len(),
            forall|k: int| 0 <= k < pos ==> key_le_fn()(#[trigger] keys_of(v@)[k], t.key()),
        decreases v@.len() - pos,
    {
        if !target_le(&v[pos], t) {
            return pos;
        }
        pos = pos + 1;
    }
    pos
}

/// Inserts a target into a sorted list, keeping it sorted.
fn insert_sorted(v: &mut Vec<Target>, t: Target)
    requires
        sorted_by(keys_of(old(v)@), key_le_fn()),
    ensures
        sorted_by(keys_of(final(v)@), key_le_fn()),
        keys_of(final(v)@).to_multiset() == keys_of(old(v)@).to_multiset().insert(t.key()),
{
    broadcast use group_to_multiset_ensures;
    broadcast use group_multiset_axioms;

    let ghost old_keys = keys_of(v@);
    let ghost tk = t.key();
    let ghost leq = key_le_fn();
    let pos = find_pos(v, &t);
    proof {
        lemma_key_le_total_ordering();
        if (pos as int) < old_keys.len() {
            assert(leq(tk, old_keys[pos as int]));
        }
    }
    v.insert(pos, t);
    let ghost new_keys = keys_of(v@);
    proof {
        assert(new_keys =~= old_keys.insert(pos as int, tk)) by {
            assert(v@ == old(v)@.insert(pos as int, t));
            assert(forall|k: int| 0 <= k < v@.len() ==> new_keys[k] == (#[trigger] v@[k]).key());
        }
        assert(sorted_by(new_keys, leq)) by {
            assert forall|i: int, j: int| 0 <= i < j < new_keys.len() implies #[trigger] leq(
                new_keys[i],
                new_keys[j],
            ) by {
                if j < pos {
                    assert(leq(old_keys[i], old_keys[j]));
                } else if i > pos {
                    assert(leq(old_keys[i - 1], old_keys[j - 1]));
                } else if i < pos && j == pos {
                    assert(leq(old_keys[i], tk));
                } else if i == pos && pos < j {
                    assert(leq(tk, old_keys[pos as int]));
                    if (pos as int) < j - 1 {
                        assert(leq(old_keys[pos as int], old_keys[j - 1]));
                    }
                    assert(leq(tk, old_keys[j - 1]));
                } else if i < pos && pos < j {
                    assert(leq(old_keys[i], old_keys[j - 1]));
                }
            }
        }
        assert(new_keys.remove(pos as int) =~= old_keys);
        assert(new_keys[pos as int] == tk);
        assert(old_keys.to_multiset() =~= new_keys.to_multiset().remove(tk));
        assert(new_keys.contains(tk));
        assert(new_keys.to_multiset().count(tk) > 0);
        assert(new_keys.to_multiset() =~= old_keys.to_multiset().insert(tk));
    }
}

/// Filters the outcomes to the open ones and sorts them by `(host, port)`:
/// the result is exactly the sorted sequence of open keys.
pub fn aggregate(outcomes: &Vec<PortResult>) -> (r: Vec<Target>)
    ensures
        keys_of(r@) == open_keys(outcomes@).sort_by(key_le_fn()),
        sorted_by(keys_of(r@), key_le_fn()),
{
    broadcast use group_to_multiset_ensures;

    let mut r: Vec<Target> = Vec::new();
    let mut i: usize = 0;
    proof {
        assert(keys_of(r@) =~= Seq::<(Seq<char>, u16)>::empty());
        assert(open_keys(outcomes@.take(0)) =~= Seq::<(Seq<char>, u16)>::empty());
    }
    while i < outcomes.len()
        invariant
            i <= outcomes@.len(),
            sorted_by(keys_of(r@), key_le_fn()),
            keys_of(r@).to_multiset() == open_keys(outcomes@.take(i as int)).to_multiset(),
        decreases outcomes@.len() - i,
    {
        let ghost t = outcomes@.take(i + 1);
        let ghost prev = outcomes@.take(i as int);
        proof {
            assert(t.drop_last() =~= prev);
            assert(t.last() == outcomes@[i as int]);
        }
        let o = &outcomes[i];
        if o.is_open() {
            let tg = target_of(o);
            proof {
                open_keys(prev).to_multiset_ensures();
                assert(open_keys(t) == open_keys(prev).push(outcomes@[i as int].key()));
                assert(open_keys(prev).push(outcomes@[i as int].key()).to_multiset()
                    =~= open_keys(prev).to_multiset().insert(outcomes@[i as int].key()));
                assert(tg.key() == outcomes@[i as int].key());
            }
            insert_sorted(&mut r, tg);
        } else {
            proof {
                assert(open_keys(t) == open_keys(prev));
            }
        }
        i = i + 1;
    }
    proof {
        assert(outcomes@.take(i as int) =~= outcomes@);
        lemma_key_le_total_ordering();
        open_keys(outcomes@).lemma_sort_by_ensures(key_le_fn());
        lemma_sorted_unique(keys_of(r@), open_keys(outcomes@).sort_by(key_le_fn()), key_le_fn());
    }
    r
}

/// The report is a function of the open outcomes alone, not of the order
/// probes completed in: outcome sequences with the same open keys, as a
/// multiset, sort to the same report.
pub proof fn lemma_aggregate_deterministic(a: Seq<PortResult>, b: Seq<PortResult>)
    requires
        open_keys(a).to_multiset() == open_keys(b).to_multiset(),
    ensures
        open_keys(a).sort_by(key_le_fn()) == open_keys(b).sort_by(key_le_fn()),
{
    lemma_key_le_total_ordering();
    open_keys(a).lemma_sort_by_ensures(key_le_fn());
    open_keys(b).lemma_sort_by_ensures(key_le_fn());
    lemma_sorted_unique(
        open_keys(a).sort_by(key_le_fn()),
        open_keys(b).sort_by(key_le_fn()),
        key_le_fn(),
    );
}

} // verus!
