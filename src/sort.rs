//! Byte-wise ordering of member fragments.
use vstd::prelude::*;
use vstd::multiset::Multiset;
use vstd::relations::{sorted_by, total_ordering};

use crate::model::{byte_le, byte_order, canonical_order};

verus! {

broadcast use vstd::seq_lib::group_to_multiset_ensures;

pub proof fn lemma_byte_le_reflexive(a: Seq<u8>)
    ensures
        byte_le(a, a),
    decreases a.len(),
{
    if a.len() > 0 {
        lemma_byte_le_reflexive(a.drop_first());
    }
}

pub proof fn lemma_byte_le_antisymmetric(a: Seq<u8>, b: Seq<u8>)
    requires
        byte_le(a, b),
        byte_le(b, a),
    ensures
        a == b,
    decreases a.len(),
{
    if a.len() > 0 {
        lemma_byte_le_antisymmetric(a.drop_first(), b.drop_first());
        assert(a =~= seq![a[0]] + a.drop_first());
        assert(b =~= seq![b[0]] + b.drop_first());
    }
}

pub proof fn lemma_byte_le_transitive(a: Seq<u8>, b: Seq<u8>, c: Seq<u8>)
    requires
        byte_le(a, b),
        byte_le(b, c),
    ensures
        byte_le(a, c),
    decreases a.len(),
{
    if a.len() > 0 && b.len() > 0 && c.len() > 0 && a[0] == b[0] && b[0] == c[0] {
        lemma_byte_le_transitive(a.drop_first(), b.drop_first(), c.drop_first());
    }
}

pub proof fn lemma_byte_le_connected(a: Seq<u8>, b: Seq<u8>)
    ensures
        byte_le(a, b) || byte_le(b, a),
    decreases a.len(),
{
    if a.len() > 0 && b.len() > 0 && a[0] == b[0] {
        lemma_byte_le_connected(a.drop_first(), b.drop_first());
    }
}

/// Byte-wise order is a total order.
pub proof fn lemma_byte_order_total()
    ensures
        total_ordering(byte_order()),
{
    let le = byte_order();
    assert forall|a: Seq<u8>| #[trigger] le(a, a) by {
        lemma_byte_le_reflexive(a);
    }
    assert forall|a: Seq<u8>, b: Seq<u8>| #[trigger] le(a, b) && #[trigger] le(b, a) implies a
        == b by {
        lemma_byte_le_antisymmetric(a, b);
    }
    assert forall|a: Seq<u8>, b: Seq<u8>, c: Seq<u8>| #[trigger] le(a, b) && #[trigger] le(
        b,
        c,
    ) implies le(a, c) by {
        lemma_byte_le_transitive(a, b, c);
    }
    assert forall|a: Seq<u8>, b: Seq<u8>| #[trigger] le(a, b) || #[trigger] le(b, a) by {
        lemma_byte_le_connected(a, b);
    }
}

/// Any sequence that is sorted and holds the same members is the canonical order.
pub proof fn lemma_canonical_order_unique(members: Seq<Seq<u8>>, s: Seq<Seq<u8>>)
    requires
        sorted_by(s, byte_order()),
        s.to_multiset() == members.to_multiset(),
    ensures
        s == canonical_order(members),
{
    lemma_byte_order_total();
    members.lemma_sort_by_ensures(byte_order());
    vstd::seq_lib::lemma_sorted_unique(s, canonical_order(members), byte_order());
}

/// Whether `a` comes no later than `b` in byte-wise order.
pub fn bytes_le(a: &Vec<u8>, b: &Vec<u8>) -> (r: bool)
    ensures
        r == byte_le(a@, b@),
{
    let mut i: usize = 0;
    assert(a@.subrange(0, a@.len() as int) =~= a@);
    assert(b@.subrange(0, b@.len() as int) =~= b@);
    while i < a.len() && i < b.len() && a[i] == b[i]
        invariant
            0 <= i <= a@.len(),
            i <= b@.len(),
            byte_le(a@, b@) == byte_le(
                a@.subrange(i as int, a@.len() as int),
                b@.subrange(i as int, b@.len() as int),
            ),
        decreases a@.len() - i,
    {
        proof {
            let x = a@.subrange(i as int, a@.len() as int);
            let y = b@.subrange(i as int, b@.len() as int);
            assert(x.drop_first() =~= a@.subrange(i + 1, a@.len() as int));
            assert(y.drop_first() =~= b@.subrange(i + 1, b@.len() as int));
        }
        i += 1;
    }
    if i == a.len() {
        true
    } else if i == b.len() {
        false
    } else {
        a[i] < b[i]
    }
}

pub open spec fn views(v: Seq<Vec<u8>>) -> Seq<Seq<u8>> {
    v.map_values(|p: Vec<u8>| p@)
}

proof fn lemma_insert_to_multiset(s: Seq<Seq<u8>>, j: int, x: Seq<u8>)
    requires
        0 <= j <= s.len(),
    ensures
        s.insert(j, x).to_multiset() == s.to_multiset().insert(x),
{
    let l = s.subrange(0, j);
    let r = s.subrange(j, s.len() as int);
    assert(s =~= l + r);
    assert(s.insert(j, x) =~= l.push(x) + r);
    vstd::seq_lib::lemma_multiset_commutative(l, r);
    vstd::seq_lib::lemma_multiset_commutative(l.push(x), r);
    assert(s.insert(j, x).to_multiset() =~= s.to_multiset().insert(x));
}

/// The fragments in canonical order.
pub fn sort_pairs(pairs: Vec<Vec<u8>>) -> (r: Vec<Vec<u8>>)
    ensures
        views(r@) == canonical_order(views(pairs@)),
{
    let ghost le = byte_order();
    proof {
        lemma_byte_order_total();
    }
    let mut rest = pairs;
    let mut sorted: Vec<Vec<u8>> = Vec::new();
    while rest.len() > 0
        invariant
            le == byte_order(),
            total_ordering(le),
            sorted_by(views(sorted@), le),
            views(sorted@).to_multiset().add(views(rest@).to_multiset()) == views(
                pairs@,
            ).to_multiset(),
        decreases rest@.len(),
    {
        let ghost before = views(rest@);
        let p = rest.pop().unwrap();
        proof {
            assert(before =~= views(rest@).push(p@));
        }
        let mut j: usize = 0;
        while j < sorted.len() && bytes_le(&sorted[j], &p)
            invariant
                0 <= j <= sorted@.len(),
                forall|k: int| 0 <= k < j ==> #[trigger] byte_le(sorted@[k]@, p@),
            decreases sorted@.len() - j,
        {
            j += 1;
        }
        let ghost old_views = views(sorted@);
        sorted.insert(j, p);
        proof {
            let s = views(sorted@);
            assert(s =~= old_views.insert(j as int, p@));
            lemma_insert_to_multiset(old_views, j as int, p@);
            assert forall|a: int, b: int| 0 <= a < b < s.len() implies #[trigger] le(s[a], s[b]) by {
                if j < old_views.len() {
                    lemma_byte_le_connected(old_views[j as int], p@);
                }
                if b < j {
                    assert(le(old_views[a], old_views[b]));
                } else if a < j && b == j {
                } else if a < j {
                    assert(le(old_views[a], old_views[b - 1]));
                } else if a == j {
                    assert(le(p@, old_views[j as int]));
                    if b - 1 > j {
                        assert(le(old_views[j as int], old_views[b - 1]));
                    }
                } else {
                    assert(le(old_views[a - 1], old_views[b - 1]));
                }
            }
            assert(views(sorted@).to_multiset().add(views(rest@).to_multiset()) =~= views(
                pairs@,
            ).to_multiset());
        }
    }
    proof {
        assert(views(rest@).to_multiset() =~= Multiset::empty());
        assert(views(sorted@).to_multiset() =~= views(pairs@).to_multiset());
        lemma_canonical_order_unique(views(pairs@), views(sorted@));
    }
    sorted
}

} // verus!
