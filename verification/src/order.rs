use vstd::prelude::*;
use vstd::relations::{antisymmetric, strongly_connected, total_ordering, transitive};

verus! {

/// Lexicographic order on character sequences: a prefix comes before every
/// extension, otherwise the first differing character decides by code point.
pub open spec fn lex_le(a: Seq<char>, b: Seq<char>) -> bool
    decreases a.len(),
{
    if a.len() == 0 {
        true
    } else if b.len() == 0 {
        false
    } else if a[0] == b[0] {
        lex_le(a.drop_first(), b.drop_first())
    } else {
        (a[0] as u32) < (b[0] as u32)
    }
}

/// The report order on `(host, port)` keys: host first, lexicographically,
/// then port, ascending.
pub open spec fn key_le(a: (Seq<char>, u16), b: (Seq<char>, u16)) -> bool {
    if a.0 == b.0 {
        a.1 <= b.1
    } else {
        lex_le(a.0, b.0)
    }
}

/// `key_le` as a first-class relation, for use with vstd's sorting lemmas.
pub open spec fn key_le_fn() -> spec_fn((Seq<char>, u16), (Seq<char>, u16)) -> bool {
    |a: (Seq<char>, u16), b: (Seq<char>, u16)| key_le(a, b)
}

pub proof fn lemma_lex_le_total(a: Seq<char>, b: Seq<char>)
    ensures
        lex_le(a, b) || lex_le(b, a),
    decreases a.len(),
{
    if a.len() > 0 && b.len() > 0 {
        if a[0] == b[0] {
            lemma_lex_le_total(a.drop_first(), b.drop_first());
        } else {
            vstd::utf8::char_u32_cast(a[0], a[0] as u32);
            vstd::utf8::char_u32_cast(b[0], b[0] as u32);
        }
    }
}

pub proof fn lemma_lex_le_antisym(a: Seq<char>, b: Seq<char>)
    requires
        lex_le(a, b),
        lex_le(b, a),
    ensures
        a == b,
    decreases a.len(),
{
    if a.len() == 0 {
        assert(b.len() == 0);
        assert(a =~= b);
    } else {
        assert(b.len() > 0);
        assert(a[0] == b[0]);
        lemma_lex_le_antisym(a.drop_first(), b.drop_first());
        assert(a.drop_first() == b.drop_first());
        assert(a.drop_first().len() == b.drop_first().len());
        assert(forall|i: int|
            1 <= i < a.len() ==> a[i] == a.drop_first()[i - 1] && b[i] == b.drop_first()[i - 1]);
        assert(a =~= b);
    }
}

pub proof fn lemma_lex_le_trans(a: Seq<char>, b: Seq<char>, c: Seq<char>)
    requires
        lex_le(a, b),
        lex_le(b, c),
    ensures
        lex_le(a, c),
    decreases a.len(),
{
    if a.len() == 0 {
    } else {
        assert(b.len() > 0);
        assert(c.len() > 0);
        if a[0] == b[0] && b[0] == c[0] {
            lemma_lex_le_trans(a.drop_first(), b.drop_first(), c.drop_first());
        }
    }
}

/// The report order is a total order, so sorting by it has a unique result.
pub proof fn lemma_key_le_total_ordering()
    ensures
        total_ordering(key_le_fn()),
{
    let leq = key_le_fn();
    assert forall|a: (Seq<char>, u16), b: (Seq<char>, u16)| #[trigger] leq(a, b) && leq(b, a)
        implies a == b by {
        if a.0 == b.0 {
            assert(a == b);
        } else {
            lemma_lex_le_antisym(a.0, b.0);
        }
    }
    assert(antisymmetric(leq));
    assert forall|a: (Seq<char>, u16), b: (Seq<char>, u16), c: (Seq<char>, u16)|
        #[trigger] leq(a, b) && #[trigger] leq(b, c) implies leq(a, c) by {
        if a.0 == b.0 && b.0 == c.0 {
        } else if a.0 == b.0 {
        } else if b.0 == c.0 {
        } else {
            lemma_lex_le_trans(a.0, b.0, c.0);
            if a.0 == c.0 {
                lemma_lex_le_antisym(a.0, b.0);
            }
        }
    }
    assert(transitive(leq));
    assert forall|a: (Seq<char>, u16), b: (Seq<char>, u16)| true implies #[trigger] leq(a, b)
        || #[trigger] leq(b, a) by {
        if a.0 == b.0 {
        } else {
            lemma_lex_le_total(a.0, b.0);
        }
    }
    assert(strongly_connected(leq));
}

/// Skipping an equal prefix does not change how two sequences compare.
proof fn lemma_lex_le_skip(a: Seq<char>, b: Seq<char>, i: int)
    requires
        0 <= i <= a.len(),
        i <= b.len(),
        forall|j: int| 0 <= j < i ==> a[j] == b[j],
    ensures
        lex_le(a, b) == lex_le(a.skip(i), b.skip(i)),
    decreases i,
{
    if i == 0 {
        assert(a.skip(0) =~= a);
        assert(b.skip(0) =~= b);
    } else {
        assert(a.len() > 0 && b.len() > 0 && a[0] == b[0]);
        assert(a.drop_first() =~= a.skip(1));
        assert(b.drop_first() =~= b.skip(1));
        lemma_lex_le_skip(a.skip(1), b.skip(1), i - 1);
        assert(a.skip(1).skip(i - 1) =~= a.skip(i));
        assert(b.skip(1).skip(i - 1) =~= b.skip(i));
    }
}

/// Decides the lexicographic order between two strings.
pub fn str_le(a: &str, b: &str) -> (r: bool)
    ensures
        r == lex_le(a@, b@),
{
    let alen = a.unicode_len();
    let blen = b.unicode_len();
    let mut i: usize = 0;
    loop
        invariant
            i <= alen,
            i <= blen,
            alen == a@.len(),
            blen == b@.len(),
            forall|j: int| 0 <= j < i ==> a@[j] == b@[j],
        decreases alen - i,
    {
        if i >= alen {
            proof {
                lemma_lex_le_skip(a@, b@, i as int);
            }
            return true;
        }
        if i >= blen {
            proof {
                lemma_lex_le_skip(a@, b@, i as int);
            }
            return false;
        }
        let ca = a.get_char(i);
        let cb = b.get_char(i);
        if ca == cb {
            i = i + 1;
        } else {
            proof {
                lemma_lex_le_skip(a@, b@, i as int);
                assert(a@.skip(i as int)[0] == a@[i as int]);
                assert(b@.skip(i as int)[0] == b@[i as int]);
            }
            return (ca as u32) < (cb as u32);
        }
    }
}

} // verus!
