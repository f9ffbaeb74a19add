//! The join engine: template-priority overwrite (`left_join`) and
//! template-plus-extension union (`full_join`).

use vstd::prelude::*;

verus! {

use crate::{EnvItem, EnvItems, ItemModel};
use crate::bytes::{bytes_eq, copy_bytes};
use crate::order::{item_order, sort_items};
use crate::lemma_items_deep_view_index;

/// The value of the first entry of `items` whose key is `key`, if any.
pub open spec fn spec_lookup(key: Seq<u8>, items: Seq<ItemModel>) -> Option<Seq<u8>>
    decreases items.len(),
{
    if items.len() == 0 {
        None
    } else if items[0].0 == key {
        Some(items[0].1)
    } else {
        spec_lookup(key, items.drop_first())
    }
}

/// Does some entry of `items` carry the key `key`?
pub open spec fn spec_has_key(key: Seq<u8>, items: Seq<ItemModel>) -> bool {
    exists|i: int| 0 <= i < items.len() && items[i].0 == key
}

/// What the left join makes of one template entry, given the environment:
/// the first matching environment value replaces the template value.
pub open spec fn spec_join_item(it: ItemModel, right: Seq<ItemModel>) -> ItemModel {
    match spec_lookup(it.0, right) {
        Some(v) => (it.0, v),
        None => it,
    }
}

/// Template-priority merge: every `left` entry in order, each with its value
/// overwritten by the first matching `right` value, where one exists.
pub open spec fn spec_left_join(left: Seq<ItemModel>, right: Seq<ItemModel>) -> Seq<ItemModel> {
    Seq::new(left.len(), |i: int| spec_join_item(left[i], right))
}

/// Append to `acc` those `right` entries whose key is absent, left to right,
/// each membership test made against the grown list.
pub open spec fn spec_extend(acc: Seq<ItemModel>, right: Seq<ItemModel>) -> Seq<ItemModel>
    decreases right.len(),
{
    if right.len() == 0 {
        acc
    } else {
        let acc2 = if spec_has_key(right[0].0, acc) {
            acc
        } else {
            acc.push(right[0])
        };
        spec_extend(acc2, right.drop_first())
    }
}

/// Union merge: the left join extended with the unmatched environment
/// entries, sorted by key (ties by value) for deterministic output.
pub open spec fn spec_full_join(left: Seq<ItemModel>, right: Seq<ItemModel>) -> Seq<ItemModel> {
    spec_extend(spec_left_join(left, right), right).sort_by(item_order())
}

/// Does any entry of `xs` carry `key` as its key?
pub fn has_key(key: &Vec<u8>, xs: &EnvItems) -> (r: bool)
    ensures
        r == spec_has_key(key@, xs.deep_view()),
{
    proof {
        broadcast use lemma_items_deep_view_index;

    }
    let mut i: usize = 0;
    while i < xs.len()
        invariant
            i <= xs@.len(),
            forall|k: int| 0 <= k < i ==> (#[trigger] xs.deep_view()[k]).0 != key@,
        decreases xs@.len() - i,
    {
        if bytes_eq(&xs[i].0, key) {
            proof {
                broadcast use lemma_items_deep_view_index;

                assert(xs.deep_view()[i as int].0 == key@);
            }
            return true;
        }
        proof {
            broadcast use lemma_items_deep_view_index;

        }
        i += 1;
    }
    false
}

/// The value of the first entry of `xs` whose key is `key`, copied out.
pub fn find_value(key: &Vec<u8>, xs: &EnvItems) -> (r: Option<Vec<u8>>)
    ensures
        r.deep_view() == spec_lookup(key@, xs.deep_view()),
{
    let ghost dv = xs.deep_view();
    proof {
        assert(dv.skip(0) =~= dv);
    }
    let mut i: usize = 0;
    while i < xs.len()
        invariant
            i <= dv.len(),
            dv == xs.deep_view(),
            dv.len() == xs@.len(),
            spec_lookup(key@, dv) == spec_lookup(key@, dv.skip(i as int)),
        decreases dv.len() - i,
    {
        proof {
            broadcast use lemma_items_deep_view_index;

            assert(dv.skip(i as int)[0] == dv[i as int]);
        }
        if bytes_eq(&xs[i].0, key) {
            let v = copy_bytes(&xs[i].1);
            return Some(v);
        }
        proof {
            assert(dv.skip(i as int).drop_first() =~= dv.skip(i as int + 1));
        }
        i += 1;
    }
    None
}

/// Template-priority merge. Every template entry is kept, in template order
/// and under the template's key; its value is overwritten by the value of the
/// first environment entry with an equal key, where one exists.
pub fn left_join(left: EnvItems, right: &EnvItems) -> (r: EnvItems)
    ensures
        r.deep_view() == spec_left_join(left.deep_view(), right.deep_view()),
        r.deep_view().len() == left.deep_view().len(),
        forall|i: int|
            0 <= i < left.deep_view().len() ==> (#[trigger] r.deep_view()[i]).0
                == left.deep_view()[i].0,
{
    let ghost ldv = left.deep_view();
    let ghost rdv = right.deep_view();
    let mut out: Vec<EnvItem> = Vec::new();
    proof {
        assert(out.deep_view() =~= spec_left_join(ldv, rdv).take(0));
    }
    let mut i: usize = 0;
    while i < left.len()
        invariant
            i <= ldv.len(),
            ldv == left.deep_view(),
            rdv == right.deep_view(),
            ldv.len() == left@.len(),
            out.deep_view() == spec_left_join(ldv, rdv).take(i as int),
        decreases ldv.len() - i,
    {
        proof {
            broadcast use lemma_items_deep_view_index;

        }
        let ghost out_pre = out.deep_view();
        let k = copy_bytes(&left[i].0);
        let found = find_value(&left[i].0, right);
        match found {
            Some(v) => {
                proof {
                    assert(spec_lookup(ldv[i as int].0, rdv) == Some(v@));
                    assert(spec_join_item(ldv[i as int], rdv) == (k@, v@));
                }
                out.push((k, v));
            },
            None => {
                let v = copy_bytes(&left[i].1);
                proof {
                    broadcast use lemma_items_deep_view_index;

                    assert(spec_lookup(ldv[i as int].0, rdv) is None);
                    assert(spec_join_item(ldv[i as int], rdv) =~= (k@, v@));
                }
                out.push((k, v));
            },
        }
        proof {
            broadcast use crate::lemma_bytes_deep_view;
            broadcast use lemma_items_deep_view_index;

            assert(out.deep_view() =~= out_pre.push(spec_join_item(ldv[i as int], rdv)));
            assert(out.deep_view() =~= spec_left_join(ldv, rdv).take(i as int + 1));
        }
        i += 1;
    }
    proof {
        assert(spec_left_join(ldv, rdv).take(ldv.len() as int) =~= spec_left_join(ldv, rdv));
    }
    out
}

/// Union merge. The left join of the inputs, extended with those environment
/// entries whose key is still missing, then sorted by key for reproducible
/// output; template duplicates survive, extension entries are deduplicated.
pub fn full_join(left: EnvItems, right: EnvItems) -> (r: EnvItems)
    ensures
        r.deep_view() == spec_full_join(left.deep_view(), right.deep_view()),
{
    let ghost ldv = left.deep_view();
    let ghost rdv = right.deep_view();
    let mut x = left_join(left, &right);
    let ghost base = x.deep_view();
    proof {
        assert(rdv.skip(0) =~= rdv);
    }
    let mut i: usize = 0;
    while i < right.len()
        invariant
            i <= rdv.len(),
            rdv == right.deep_view(),
            rdv.len() == right@.len(),
            spec_extend(x.deep_view(), rdv.skip(i as int)) == spec_extend(base, rdv),
        decreases rdv.len() - i,
    {
        proof {
            broadcast use lemma_items_deep_view_index;

            assert(rdv.skip(i as int)[0] == rdv[i as int]);
            assert(rdv.skip(i as int).drop_first() =~= rdv.skip(i as int + 1));
        }
        let ghost x_pre = x.deep_view();
        if !has_key(&right[i].0, &x) {
            let k = copy_bytes(&right[i].0);
            let v = copy_bytes(&right[i].1);
            x.push((k, v));
            proof {
                broadcast use crate::lemma_bytes_deep_view;
                broadcast use lemma_items_deep_view_index;

                assert((k@, v@) =~= rdv[i as int]);
                assert(x.deep_view() =~= x_pre.push(rdv[i as int]));
            }
        }
        i += 1;
    }
    proof {
        assert(x.deep_view() == spec_extend(base, rdv));
    }
    let r = sort_items(x);
    r
}

/// An empty template joins to an empty result, whatever the environment.
pub proof fn lemma_left_join_empty_left(right: Seq<ItemModel>)
    ensures
        spec_left_join(Seq::<ItemModel>::empty(), right) == Seq::<ItemModel>::empty(),
{
    assert(spec_left_join(Seq::<ItemModel>::empty(), right) =~= Seq::<ItemModel>::empty());
}

/// Joining against an empty environment returns the template unchanged.
pub proof fn lemma_left_join_empty_right(left: Seq<ItemModel>)
    ensures
        spec_left_join(left, Seq::<ItemModel>::empty()) == left,
{
    assert(spec_left_join(left, Seq::<ItemModel>::empty()) =~= left);
}

/// The left join has exactly one output entry per template entry, in template
/// order and under the template's keys: it never introduces a new key.
pub proof fn lemma_left_join_shape(left: Seq<ItemModel>, right: Seq<ItemModel>)
    ensures
        spec_left_join(left, right).len() == left.len(),
        forall|i: int|
            0 <= i < left.len() ==> (#[trigger] spec_left_join(left, right)[i]).0 == left[i].0,
{
}

/// Extension adds nothing when every `right` key is already present.
proof fn lemma_extend_all_present(acc: Seq<ItemModel>, right: Seq<ItemModel>)
    requires
        forall|j: int| 0 <= j < right.len() ==> spec_has_key((#[trigger] right[j]).0, acc),
    ensures
        spec_extend(acc, right) == acc,
    decreases right.len(),
{
    if right.len() > 0 {
        assert(spec_has_key(right[0].0, acc));
        assert forall|j: int| 0 <= j < right.drop_first().len() implies spec_has_key(
            (#[trigger] right.drop_first()[j]).0,
            acc,
        ) by {
            assert(right.drop_first()[j] == right[j + 1]);
        }
        lemma_extend_all_present(acc, right.drop_first());
    }
}

/// When every environment key already occurs among the template's keys, the
/// full join adds nothing beyond the left join: it is the left join, sorted.
pub proof fn lemma_full_join_no_extension(left: Seq<ItemModel>, right: Seq<ItemModel>)
    requires
        forall|j: int| 0 <= j < right.len() ==> spec_has_key((#[trigger] right[j]).0, left),
    ensures
        spec_full_join(left, right) == spec_left_join(left, right).sort_by(item_order()),
{
    let base = spec_left_join(left, right);
    assert forall|j: int| 0 <= j < right.len() implies spec_has_key(
        (#[trigger] right[j]).0,
        base,
    ) by {
        let w = choose|w: int| 0 <= w < left.len() && left[w].0 == right[j].0;
        assert(base[w].0 == right[j].0);
    }
    lemma_extend_all_present(base, right);
}

} // verus!
