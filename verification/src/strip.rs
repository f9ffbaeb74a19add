//! Prefix stripping: rewrite keys by removing the first matching configured
//! prefix; values and order are untouched.

use vstd::prelude::*;

verus! {

use crate::{EnvItem, EnvItems, ItemModel};
use crate::bytes::{copy_bytes, copy_range, is_prefix_bytes};
use crate::{lemma_bytes_deep_view, lemma_bytes_list_deep_view_index, lemma_items_deep_view_index};

/// `key` with the first matching prefix removed, or unchanged when none of
/// the `prefixes` starts it.
pub open spec fn spec_strip_key(prefixes: Seq<Seq<u8>>, key: Seq<u8>) -> Seq<u8>
    decreases prefixes.len(),
{
    if prefixes.len() == 0 {
        key
    } else if prefixes[0].is_prefix_of(key) {
        key.skip(prefixes[0].len() as int)
    } else {
        spec_strip_key(prefixes.drop_first(), key)
    }
}

/// Prefix stripping over a whole list: each key rewritten independently, each
/// value untouched, input order kept.
pub open spec fn spec_strip_prefixes(prefixes: Seq<Seq<u8>>, items: Seq<ItemModel>) -> Seq<
    ItemModel,
> {
    Seq::new(items.len(), |i: int| (spec_strip_key(prefixes, items[i].0), items[i].1))
}

/// Remove the first matching prefix from one key.
fn strip_key(prefixes: &Vec<Vec<u8>>, key: &Vec<u8>) -> (r: Vec<u8>)
    ensures
        r@ == spec_strip_key(prefixes.deep_view(), key@),
{
    let ghost pdv = prefixes.deep_view();
    proof {
        assert(pdv.skip(0) =~= pdv);
    }
    let mut j: usize = 0;
    while j < prefixes.len()
        invariant
            j <= pdv.len(),
            pdv == prefixes.deep_view(),
            pdv.len() == prefixes@.len(),
            spec_strip_key(pdv, key@) == spec_strip_key(pdv.skip(j as int), key@),
        decreases pdv.len() - j,
    {
        proof {
            broadcast use lemma_bytes_list_deep_view_index;

            assert(pdv.skip(j as int)[0] == pdv[j as int]);
        }
        if is_prefix_bytes(&prefixes[j], key) {
            let r = copy_range(key, prefixes[j].len(), key.len());
            proof {
                assert(key@.subrange(prefixes@[j as int]@.len() as int, key@.len() as int)
                    =~= key@.skip(prefixes@[j as int]@.len() as int));
            }
            return r;
        }
        proof {
            assert(pdv.skip(j as int).drop_first() =~= pdv.skip(j as int + 1));
        }
        j += 1;
    }
    copy_bytes(key)
}

/// Rewrite every key by removing the first configured prefix that starts it;
/// keys that no prefix starts pass through unchanged, as do all values.
pub fn strip_prefixes(prefixes: &Vec<Vec<u8>>, items: EnvItems) -> (r: EnvItems)
    ensures
        r.deep_view() == spec_strip_prefixes(prefixes.deep_view(), items.deep_view()),
{
    let ghost pdv = prefixes.deep_view();
    let ghost idv = items.deep_view();
    let mut out: Vec<EnvItem> = Vec::new();
    proof {
        assert(out.deep_view() =~= spec_strip_prefixes(pdv, idv).take(0));
    }
    let mut i: usize = 0;
    while i < items.len()
        invariant
            i <= idv.len(),
            pdv == prefixes.deep_view(),
            idv == items.deep_view(),
            idv.len() == items@.len(),
            out.deep_view() == spec_strip_prefixes(pdv, idv).take(i as int),
        decreases idv.len() - i,
    {
        proof {
            lemma_items_deep_view_index(items, i as int);
        }
        let ghost out_pre = out.deep_view();
        let k = strip_key(prefixes, &items[i].0);
        let v = copy_bytes(&items[i].1);
        out.push((k, v));
        proof {
            broadcast use lemma_bytes_deep_view;

            assert(k@ == spec_strip_key(pdv, idv[i as int].0));
            assert(v@ == idv[i as int].1);
            assert(out.deep_view() =~= out_pre.push((k@, v@)));
            assert(out.deep_view() =~= spec_strip_prefixes(pdv, idv).take(i as int + 1));
        }
        i += 1;
    }
    proof {
        assert(spec_strip_prefixes(pdv, idv).take(idv.len() as int) =~= spec_strip_prefixes(
            pdv,
            idv,
        ));
    }
    out
}

} // verus!
