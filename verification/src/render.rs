//! Rendering entries as `KEY=VALUE` lines.

use vstd::prelude::*;

verus! {

use crate::{EnvItems, ItemModel};
use crate::bytes::push_bytes;
use crate::lemma_items_deep_view_index;

/// One output line: the key, `=`, the value, a newline.
pub open spec fn spec_render_item(it: ItemModel) -> Seq<u8> {
    it.0 + seq![61u8] + it.1 + seq![10u8]
}

/// The rendered listing: one line per entry, in entry order.
pub open spec fn spec_render(items: Seq<ItemModel>) -> Seq<u8>
    decreases items.len(),
{
    if items.len() == 0 {
        Seq::empty()
    } else {
        spec_render_item(items[0]) + spec_render(items.drop_first())
    }
}

/// Render entries as `KEY=VALUE` lines, one per entry, in order.
pub fn render(items: &EnvItems) -> (r: Vec<u8>)
    ensures
        r@ == spec_render(items.deep_view()),
{
    let ghost idv = items.deep_view();
    let mut r: Vec<u8> = Vec::new();
    proof {
        assert(idv.skip(0) =~= idv);
        assert(r@ + spec_render(idv) =~= spec_render(idv));
    }
    let mut i: usize = 0;
    while i < items.len()
        invariant
            i <= idv.len(),
            idv == items.deep_view(),
            idv.len() == items@.len(),
            r@ + spec_render(idv.skip(i as int)) == spec_render(idv),
        decreases idv.len() - i,
    {
        proof {
            lemma_items_deep_view_index(*items, i as int);
            assert(idv.skip(i as int)[0] == idv[i as int]);
            assert(idv.skip(i as int).drop_first() =~= idv.skip(i as int + 1));
        }
        let ghost r_pre = r@;
        push_bytes(&mut r, &items[i].0);
        r.push(61);
        push_bytes(&mut r, &items[i].1);
        r.push(10);
        proof {
            assert(r@ =~= r_pre + spec_render_item(idv[i as int]));
            assert((r_pre + spec_render_item(idv[i as int])) + spec_render(idv.skip(i as int + 1))
                =~= r_pre + (spec_render_item(idv[i as int]) + spec_render(idv.skip(i as int + 1))));
        }
        i += 1;
    }
    proof {
        assert(idv.skip(idv.len() as int) =~= Seq::<ItemModel>::empty());
        assert(r@ + spec_render(Seq::<ItemModel>::empty()) =~= r@);
    }
    r
}

} // verus!
