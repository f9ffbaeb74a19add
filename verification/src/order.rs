//! Byte-lexicographic ordering of entries, and a sort that realises the
//! deterministic output order of the union merge.

use vstd::prelude::*;

verus! {

use vstd::relations::{sorted_by, total_ordering};
use vstd::seq_lib::lemma_sorted_unique;
use crate::{EnvItem, ItemModel};
use crate::bytes::bytes_eq;
use crate::{lemma_bytes_deep_view, lemma_items_deep_view_index};

/// Byte-wise lexicographic "less than or equal" on byte strings.
pub open spec fn lex_le(a: Seq<u8>, b: Seq<u8>) -> bool
    decreases a.len(),
{
    if a.len() == 0 {
        true
    } else if b.len() == 0 {
        false
    } else if a[0] < b[0] {
        true
    } else if a[0] > b[0] {
        false
    } else {
        lex_le(a.drop_first(), b.drop_first())
    }
}

pub proof fn lemma_lex_le_reflexive(a: Seq<u8>)
    ensures
        lex_le(a, a),
    decreases a.len(),
{
    if a.len() > 0 {
        lemma_lex_le_reflexive(a.drop_first());
    }
}

pub proof fn lemma_lex_le_connected(a: Seq<u8>, b: Seq<u8>)
    ensures
        lex_le(a, b) || lex_le(b, a),
    decreases a.len(),
{
    if a.len() > 0 && b.len() > 0 && a[0] == b[0] {
        lemma_lex_le_connected(a.drop_first(), b.drop_first());
    }
}

pub proof fn lemma_lex_le_antisymmetric(a: Seq<u8>, b: Seq<u8>)
    requires
        lex_le(a, b),
        lex_le(b, a),
    ensures
        a == b,
    decreases a.len(),
{
    if a.len() == 0 {
        assert(b.len() == 0);
        assert(a =~= b);
    } else {
        assert(b.len() > 0);
        assert(a[0] == b[0]);
        lemma_lex_le_antisymmetric(a.drop_first(), b.drop_first());
        assert(a.len() == b.len());
        assert forall|i: int| 0 <= i < a.len() implies a[i] == b[i] by {
            if i > 0 {
                assert(a.drop_first()[i - 1] == b.drop_first()[i - 1]);
            }
        }
        assert(a =~= b);
    }
}

pub proof fn lemma_lex_le_transitive(a: Seq<u8>, b: Seq<u8>, c: Seq<u8>)
    requires
        lex_le(a, b),
        lex_le(b, c),
    ensures
        lex_le(a, c),
    decreases a.len(),
{
    if a.len() > 0 && b.len() > 0 && c.len() > 0 && a[0] == b[0] && b[0] == c[0] {
        lemma_lex_le_transitive(a.drop_first(), b.drop_first(), c.drop_first());
    }
}

/// Order on entries: by key bytes, ties broken by value bytes.
pub open spec fn item_le(x: ItemModel, y: ItemModel) -> bool {
    if x.0 == y.0 {
        lex_le(x.1, y.1)
    } else {
        lex_le(x.0, y.0)
    }
}

/// The entry order as a relation value, for `sort_by` and `sorted_by`.
pub open spec fn item_order() -> spec_fn(ItemModel, ItemModel) -> bool {
    |x: ItemModel, y: ItemModel| item_le(x, y)
}

pub proof fn lemma_item_le_connected(x: ItemModel, y: ItemModel)
    ensures
        item_le(x, y) || item_le(y, x),
{
    if x.0 == y.0 {
        lemma_lex_le_connected(x.1, y.1);
    } else {
        lemma_lex_le_connected(x.0, y.0);
    }
}

pub proof fn lemma_item_le_antisymmetric(x: ItemModel, y: ItemModel)
    requires
        item_le(x, y),
        item_le(y, x),
    ensures
        x == y,
{
    if x.0 == y.0 {
        lemma_lex_le_antisymmetric(x.1, y.1);
        assert(x =~= y);
    } else {
        lemma_lex_le_antisymmetric(x.0, y.0);
    }
}

pub proof fn lemma_item_le_transitive(x: ItemModel, y: ItemModel, z: ItemModel)
    requires
        item_le(x, y),
        item_le(y, z),
    ensures
        item_le(x, z),
{
    if x.0 == y.0 && y.0 == z.0 {
        lemma_lex_le_transitive(x.1, y.1, z.1);
    } else if x.0 == y.0 || y.0 == z.0 {
        // the key comparison of the one strict step carries over unchanged
    } else {
        lemma_lex_le_transitive(x.0, y.0, z.0);
        if x.0 == z.0 {
            lemma_lex_le_antisymmetric(x.0, y.0);
            assert(false);
        }
    }
}

/// The entry order is a total order, as vstd's sorting lemmas require.
pub proof fn lemma_item_order_total()
    ensures
        total_ordering(item_order()),
{
    let r = item_order();
    assert forall|x: ItemModel| #[trigger] r(x, x) by {
        lemma_lex_le_reflexive(x.1);
    }
    assert forall|x: ItemModel, y: ItemModel| #[trigger] r(x, y) && #[trigger] r(y, x) implies x
        == y by {
        lemma_item_le_antisymmetric(x, y);
    }
    assert forall|x: ItemModel, y: ItemModel, z: ItemModel|
        #[trigger] r(x, y) && #[trigger] r(y, z) implies r(x, z) by {
        lemma_item_le_transitive(x, y, z);
    }
    assert forall|x: ItemModel, y: ItemModel| #[trigger] r(x, y) || #[trigger] r(y, x) by {
        lemma_item_le_connected(x, y);
    }
}

/// Byte-wise lexicographic comparison of two byte strings.
pub fn lex_le_bytes(a: &Vec<u8>, b: &Vec<u8>) -> (r: bool)
    ensures
        r == lex_le(a@, b@),
{
    proof {
        assert(a@.skip(0) =~= a@);
        assert(b@.skip(0) =~= b@);
    }
    let mut i: usize = 0;
    while i < a.len() && i < b.len()
        invariant
            i <= a@.len(),
            i <= b@.len(),
            lex_le(a@, b@) == lex_le(a@.skip(i as int), b@.skip(i as int)),
        decreases a@.len() - i,
    {
        if a[i] < b[i] {
            return true;
        }
        if a[i] > b[i] {
            return false;
        }
        proof {
            assert(a@.skip(i as int).drop_first() =~= a@.skip(i as int + 1));
            assert(b@.skip(i as int).drop_first() =~= b@.skip(i as int + 1));
        }
        i += 1;
    }
    proof {
        if a@.len() <= b@.len() {
            assert(a@.skip(i as int).len() == 0);
        } else {
            assert(b@.skip(i as int).len() == 0);
            assert(a@.skip(i as int).len() > 0);
        }
    }
    a.len() <= b.len()
}

/// Compare two entries in the entry order.
pub fn item_le_exec(x: &EnvItem, y: &EnvItem) -> (r: bool)
    ensures
        r == item_le(x.deep_view(), y.deep_view()),
{
    proof {
        broadcast use lemma_bytes_deep_view;

    }
    if bytes_eq(&x.0, &y.0) {
        lex_le_bytes(&x.1, &y.1)
    } else {
        lex_le_bytes(&x.0, &y.0)
    }
}

/// Inserting anywhere adds one occurrence to the sequence's multiset.
proof fn lemma_to_multiset_insert(s: Seq<ItemModel>, j: int, x: ItemModel)
    requires
        0 <= j <= s.len(),
    ensures
        s.insert(j, x).to_multiset() == s.to_multiset().insert(x),
    decreases s.len() - j,
{
    broadcast use vstd::seq_lib::group_to_multiset_ensures;
    broadcast use vstd::multiset::group_multiset_axioms;

    if j == s.len() {
        assert(s.insert(j, x) =~= s.push(x));
    } else {
        let shorter = s.drop_last();
        assert(s.insert(j, x) =~= shorter.insert(j, x).push(s.last()));
        lemma_to_multiset_insert(shorter, j, x);
        assert(s =~= shorter.push(s.last()));
        assert(shorter.to_multiset().insert(x).insert(s.last()) =~= shorter.to_multiset().insert(
            s.last(),
        ).insert(x));
    }
}

/// Index of the first entry of `out` that does not precede `item`.
fn insertion_point(out: &Vec<EnvItem>, item: &EnvItem) -> (j: usize)
    ensures
        j <= out@.len(),
        forall|k: int| 0 <= k < j ==> item_le(#[trigger] out.deep_view()[k], item.deep_view()),
        j < out@.len() ==> !item_le(out.deep_view()[j as int], item.deep_view()),
{
    let mut j: usize = 0;
    while j < out.len()
        invariant
            j <= out@.len(),
            forall|k: int| 0 <= k < j ==> item_le(#[trigger] out.deep_view()[k], item.deep_view()),
        decreases out@.len() - j,
    {
        if !item_le_exec(&out[j], item) {
            return j;
        }
        proof {
            broadcast use lemma_items_deep_view_index;

        }
        j += 1;
    }
    j
}

/// Place `item` into the sorted list `out`, keeping it sorted.
fn insert_sorted(out: &mut Vec<EnvItem>, item: EnvItem)
    requires
        sorted_by(old(out).deep_view(), item_order()),
    ensures
        sorted_by(final(out).deep_view(), item_order()),
        final(out).deep_view().to_multiset() == old(out).deep_view().to_multiset().insert(
            item.deep_view(),
        ),
{
    let ghost pre = out.deep_view();
    let ghost x = item.deep_view();
    let j = insertion_point(out, &item);
    out.insert(j, item);
    proof {
        broadcast use lemma_items_deep_view_index;

        assert(out.deep_view() =~= pre.insert(j as int, x));
        let merged = pre.insert(j as int, x);
        assert forall|k: int| j < k < merged.len() implies item_le(x, merged[k]) by {
            lemma_item_le_connected(pre[j as int], x);
            assert(item_le(x, pre[j as int]));
            if k > j + 1 {
                assert((item_order())(pre[j as int], pre[k - 1]));
                lemma_item_le_transitive(x, pre[j as int], pre[k - 1]);
            }
            assert(merged[k] == pre[k - 1]);
        }
        assert forall|p: int, q: int| 0 <= p < q < merged.len() implies (item_order())(
            merged[p],
            merged[q],
        ) by {
            if q < j {
                assert((item_order())(pre[p], pre[q]));
            } else if p < j && q == j {
                assert(item_le(pre[p], x));
            } else if p < j && q > j {
                assert((item_order())(pre[p], pre[q - 1]));
            } else if p == j {
                assert(item_le(x, merged[q]));
            } else {
                assert((item_order())(pre[p - 1], pre[q - 1]));
            }
        }
        lemma_to_multiset_insert(pre, j as int, x);
    }
}

/// Sort entries by key, ties broken by value, byte-lexicographically.
pub fn sort_items(items: Vec<EnvItem>) -> (r: Vec<EnvItem>)
    ensures
        r.deep_view() == items.deep_view().sort_by(item_order()),
{
    let ghost orig = items.deep_view();
    let mut src = items;
    let mut out: Vec<EnvItem> = Vec::new();
    proof {
        broadcast use vstd::seq_lib::group_to_multiset_ensures;
        broadcast use vstd::multiset::group_multiset_axioms;

        assert(out.deep_view() =~= Seq::<ItemModel>::empty());
        assert(out.deep_view().to_multiset().add(src.deep_view().to_multiset())
            =~= orig.to_multiset());
    }
    while src.len() > 0
        invariant
            sorted_by(out.deep_view(), item_order()),
            out.deep_view().to_multiset().add(src.deep_view().to_multiset()) == orig.to_multiset(),
        decreases src@.len(),
    {
        let ghost src_pre = src.deep_view();
        let ghost out_pre = out.deep_view();
        let it = src.pop().unwrap();
        proof {
            broadcast use vstd::seq_lib::group_to_multiset_ensures;
            broadcast use vstd::multiset::group_multiset_axioms;

            assert(src.deep_view() =~= src_pre.drop_last());
            assert(src_pre =~= src.deep_view().push(it.deep_view()));
            assert(src_pre.to_multiset() =~= src.deep_view().to_multiset().insert(it.deep_view()));
        }
        insert_sorted(&mut out, it);
        proof {
            broadcast use vstd::multiset::group_multiset_axioms;

            assert(out.deep_view().to_multiset().add(src.deep_view().to_multiset())
                =~= orig.to_multiset());
        }
    }
    proof {
        broadcast use vstd::seq_lib::group_to_multiset_ensures;
        broadcast use vstd::multiset::group_multiset_axioms;

        lemma_item_order_total();
        assert(src.deep_view() =~= Seq::<ItemModel>::empty());
        assert forall|a: ItemModel| src.deep_view().to_multiset().count(a) == 0 by {
            assert(!src.deep_view().contains(a));
        }
        assert(out.deep_view().to_multiset() =~= orig.to_multiset());
        orig.lemma_sort_by_ensures(item_order());
        lemma_sorted_unique(out.deep_view(), orig.sort_by(item_order()), item_order());
        assert(out.deep_view() =~= orig.sort_by(item_order()));
    }
    out
}

} // verus!
