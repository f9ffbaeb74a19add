//! The template parser: text lines in, declared key/value entries out.
//!
//! Comment lines (leading `#`) and lines without a `=` separator are skipped;
//! other lines split on the first `=`, and both sides are trimmed. Duplicate
//! keys are kept as separate entries, in file order. Reading the file itself,
//! and dropping lines that do not decode as text, is the caller's part.

use vstd::prelude::*;

verus! {

use crate::{EnvItem, EnvItems, ItemModel};
use crate::bytes::copy_range;
use crate::lemma_bytes_list_deep_view_index;

/// Why a template could not be produced.
#[derive(Debug, Clone, Copy, PartialEq, Eq, Structural)]
pub enum Error {
    /// The template path names no existing file.
    TemplateNotFound,
}

impl Error {
    /// The human-readable description that the error channel carries.
    pub fn message(&self) -> (r: &'static str)
        ensures
            r@ == "Template not found"@,
    {
        match *self {
            Error::TemplateNotFound => "Template not found",
        }
    }
}

/// ASCII whitespace, as trimmed from around keys and values.
pub open spec fn spec_is_ws(b: u8) -> bool {
    b == 32 || (9 <= b <= 13)
}

/// `s` without leading whitespace.
pub open spec fn spec_trim_start(s: Seq<u8>) -> Seq<u8>
    decreases s.len(),
{
    if s.len() > 0 && spec_is_ws(s[0]) {
        spec_trim_start(s.drop_first())
    } else {
        s
    }
}

/// `s` without trailing whitespace.
pub open spec fn spec_trim_end(s: Seq<u8>) -> Seq<u8>
    decreases s.len(),
{
    if s.len() > 0 && spec_is_ws(s.last()) {
        spec_trim_end(s.drop_last())
    } else {
        s
    }
}

/// `s` without leading or trailing whitespace.
pub open spec fn spec_trim(s: Seq<u8>) -> Seq<u8> {
    spec_trim_end(spec_trim_start(s))
}

/// One template line's entry: none for a comment line (leading `#`) or a line
/// without `=`; otherwise the trimmed text on either side of the first `=`.
pub open spec fn spec_parse_line(line: Seq<u8>) -> Option<ItemModel> {
    if line.len() > 0 && line[0] == 35u8 {
        None
    } else {
        match line.index_of_first(61u8) {
            Some(i) => Some((spec_trim(line.take(i)), spec_trim(line.skip(i + 1)))),
            None => None,
        }
    }
}

/// The entries of all lines, in line order, lines without an entry skipped.
pub open spec fn spec_parse_lines(lines: Seq<Seq<u8>>) -> Seq<ItemModel>
    decreases lines.len(),
{
    if lines.len() == 0 {
        Seq::empty()
    } else {
        let rest = spec_parse_lines(lines.drop_first());
        match spec_parse_line(lines[0]) {
            Some(it) => seq![it] + rest,
            None => rest,
        }
    }
}

fn is_ws(b: u8) -> (r: bool)
    ensures
        r == spec_is_ws(b),
{
    b == 32 || (9 <= b && b <= 13)
}

/// First index at or after `from` (up to `to`) that holds no whitespace.
fn skip_ws_start(v: &Vec<u8>, from: usize, to: usize) -> (lo: usize)
    requires
        from <= to <= v@.len(),
    ensures
        from <= lo <= to,
        spec_trim_start(v@.subrange(from as int, to as int)) == v@.subrange(lo as int, to as int),
{
    let mut lo: usize = from;
    while lo < to
        invariant
            from <= lo <= to <= v@.len(),
            spec_trim_start(v@.subrange(from as int, to as int)) == spec_trim_start(
                v@.subrange(lo as int, to as int),
            ),
        decreases to - lo,
    {
        if !is_ws(v[lo]) {
            return lo;
        }
        proof {
            assert(v@.subrange(lo as int, to as int).drop_first() =~= v@.subrange(
                lo as int + 1,
                to as int,
            ));
        }
        lo += 1;
    }
    lo
}

/// Last index at or before `to` (down to `from`) before which no whitespace
/// trails.
fn skip_ws_end(v: &Vec<u8>, from: usize, to: usize) -> (hi: usize)
    requires
        from <= to <= v@.len(),
    ensures
        from <= hi <= to,
        spec_trim_end(v@.subrange(from as int, to as int)) == v@.subrange(from as int, hi as int),
{
    let mut hi: usize = to;
    while hi > from
        invariant
            from <= hi <= to <= v@.len(),
            spec_trim_end(v@.subrange(from as int, to as int)) == spec_trim_end(
                v@.subrange(from as int, hi as int),
            ),
        decreases hi,
    {
        if !is_ws(v[hi - 1]) {
            return hi;
        }
        proof {
            assert(v@.subrange(from as int, hi as int).last() == v@[hi as int - 1]);
            assert(v@.subrange(from as int, hi as int).drop_last() =~= v@.subrange(
                from as int,
                hi as int - 1,
            ));
        }
        hi -= 1;
    }
    hi
}

/// Copy of `v`'s range `[from, to)` with surrounding whitespace removed.
fn trimmed_copy(v: &Vec<u8>, from: usize, to: usize) -> (r: Vec<u8>)
    requires
        from <= to <= v@.len(),
    ensures
        r@ == spec_trim(v@.subrange(from as int, to as int)),
{
    let lo = skip_ws_start(v, from, to);
    let hi = skip_ws_end(v, lo, to);
    copy_range(v, lo, hi)
}

/// Parse one template line into an entry, where it declares one.
pub fn parse_line(line: &Vec<u8>) -> (r: Option<EnvItem>)
    ensures
        r.deep_view() == spec_parse_line(line@),
{
    if line.len() > 0 && line[0] == 35 {
        return None;
    }
    let mut i: usize = 0;
    while i < line.len()
        invariant
            i <= line@.len(),
            !(line@.len() > 0 && line@[0] == 35u8),
            forall|k: int| 0 <= k < i ==> line@[k] != 61u8,
        decreases line@.len() - i,
    {
        if line[i] == 61 {
            proof {
                line@.index_of_first_ensures(61u8);
                assert(line@.contains(61u8));
                assert(line@.index_of_first(61u8) == Some(i as int));
            }
            let k = trimmed_copy(line, 0, i);
            let v = trimmed_copy(line, i + 1, line.len());
            proof {
                broadcast use crate::lemma_bytes_deep_view;

                assert(line@.subrange(0, i as int) =~= line@.take(i as int));
                assert(line@.subrange(i as int + 1, line@.len() as int) =~= line@.skip(
                    i as int + 1,
                ));
                assert((k, v).deep_view() == (k@, v@));
            }
            return Some((k, v));
        }
        i += 1;
    }
    proof {
        line@.index_of_first_ensures(61u8);
        if line@.index_of_first(61u8) is Some {
            let w = line@.index_of_first(61u8).unwrap();
            assert(line@[w] != 61u8);
        }
    }
    None
}

/// Parse template lines in order: comments and separator-less lines skipped,
/// both sides of the first `=` trimmed, duplicate keys kept.
pub fn parse_template(lines: &Vec<Vec<u8>>) -> (r: EnvItems)
    ensures
        r.deep_view() == spec_parse_lines(lines.deep_view()),
{
    let ghost ldv = lines.deep_view();
    let mut out: Vec<EnvItem> = Vec::new();
    proof {
        assert(ldv.skip(0) =~= ldv);
        assert(out.deep_view() + spec_parse_lines(ldv) =~= spec_parse_lines(ldv));
    }
    let mut i: usize = 0;
    while i < lines.len()
        invariant
            i <= ldv.len(),
            ldv == lines.deep_view(),
            ldv.len() == lines@.len(),
            out.deep_view() + spec_parse_lines(ldv.skip(i as int)) == spec_parse_lines(ldv),
        decreases ldv.len() - i,
    {
        proof {
            broadcast use lemma_bytes_list_deep_view_index;

            assert(ldv.skip(i as int)[0] == ldv[i as int]);
            assert(ldv.skip(i as int).drop_first() =~= ldv.skip(i as int + 1));
        }
        let ghost out_pre = out.deep_view();
        let parsed = parse_line(&lines[i]);
        match parsed {
            Some(it) => {
                let ghost itdv = it.deep_view();
                out.push(it);
                proof {
                    assert(out.deep_view() =~= out_pre + seq![itdv]);
                    assert((out_pre + seq![itdv]) + spec_parse_lines(ldv.skip(i as int + 1))
                        =~= out_pre + (seq![itdv] + spec_parse_lines(ldv.skip(i as int + 1))));
                }
            },
            None => {},
        }
        i += 1;
    }
    proof {
        assert(ldv.skip(ldv.len() as int) =~= Seq::<Seq<u8>>::empty());
        assert(out.deep_view() + spec_parse_lines(Seq::<Seq<u8>>::empty()) =~= out.deep_view());
    }
    out
}

} // verus!
