//! Merge a declarative template of expected environment variables with a
//! snapshot of the live process environment.
//!
//! Keys and values are opaque byte strings. The crate offers a template-line
//! parser, a prefix stripper, two join strategies over key/value lists
//! (template-priority overwrite and template-plus-extension union), and a
//! `KEY=VALUE` line renderer. Reading the environment, opening the template
//! file and printing are left to the caller.

use vstd::prelude::*;

pub mod bytes;
pub mod join;
pub mod order;
pub mod parse;
pub mod render;
pub mod strip;

verus! {

/// One environment entry: a key and a value, both opaque byte strings.
pub type EnvItem = (Vec<u8>, Vec<u8>);

/// An ordered list of environment entries.
pub type EnvItems = Vec<EnvItem>;

/// The mathematical model of one entry: the key's bytes and the value's bytes.
pub type ItemModel = (Seq<u8>, Seq<u8>);

/// The deep view of a byte string is its ordinary view.
pub broadcast proof fn lemma_bytes_deep_view(v: Vec<u8>)
    ensures
        #[trigger] v.deep_view() == v@,
{
    assert(v.deep_view() =~= v@);
}

/// Indexing the deep view of an entry list reads the entry's byte strings.
pub broadcast proof fn lemma_items_deep_view_index(v: Vec<EnvItem>, i: int)
    requires
        0 <= i < v@.len(),
    ensures
        #[trigger] v.deep_view()[i] == (v@[i].0@, v@[i].1@),
{
    broadcast use lemma_bytes_deep_view;

    assert(v.deep_view()[i] == v@[i].deep_view());
}

/// Indexing the deep view of a list of byte strings reads the byte string.
pub broadcast proof fn lemma_bytes_list_deep_view_index(v: Vec<Vec<u8>>, i: int)
    requires
        0 <= i < v@.len(),
    ensures
        #[trigger] v.deep_view()[i] == v@[i]@,
{
    broadcast use lemma_bytes_deep_view;

    assert(v.deep_view()[i] == v@[i].deep_view());
}

} // verus!
