//! The saved schemes of a level, from the entries of its directory under
//! `schematics/`.
use vstd::prelude::*;
use crate::pins::{chars_le, lemma_chars_le_total, lemma_chars_le_trans, name_le};
use crate::text::{chars_to_string, occurs_at, prefix_at, slice_to_vec, str_chars};

verus! {

broadcast use vstd::seq_lib::to_multiset_insert, vstd::seq_lib::to_multiset_build;

/// The scheme that a directory entry named `name` stands for: a directory
/// holding `circuit.data` by its name, else a `*.circuit` entry by its stem.
pub open spec fn scheme_of(name: Seq<char>, saved_dir: bool) -> Option<Seq<char>> {
    if saved_dir {
        Some(name)
    } else if name.len() >= 8 && prefix_at(name, name.len() - 8, ".circuit"@) {
        Some(name.take(name.len() - 8))
    } else {
        None
    }
}

/// The schemes of the entries `(name, is a directory holding circuit.data)`,
/// in the order of the entries.
pub open spec fn schemes(es: Seq<(Seq<char>, bool)>) -> Seq<Seq<char>>
    decreases es.len(),
{
    if es.len() == 0 {
        Seq::empty()
    } else {
        let prev = schemes(es.drop_last());
        match scheme_of(es.last().0, es.last().1) {
            Some(n) => prev.push(n),
            None => prev,
        }
    }
}

pub open spec fn entry_views(v: Seq<(String, bool)>) -> Seq<(Seq<char>, bool)> {
    v.map_values(|e: (String, bool)| (e.0@, e.1))
}

pub open spec fn name_views(v: Seq<String>) -> Seq<Seq<char>> {
    v.map_values(|s: String| s@)
}

fn scheme_name(name: &String, saved_dir: bool) -> (r: Option<String>)
    ensures
        match scheme_of(name@, saved_dir) {
            Some(n) => r matches Some(x) && x@ == n,
            None => r is None,
        },
{
    let v = str_chars(name.as_str());
    if saved_dir {
        return Some(chars_to_string(v.as_slice()));
    }
    let suffix = str_chars(".circuit");
    proof {
        reveal_strlit(".circuit");
    }
    if v.len() >= 8 && occurs_at(v.as_slice(), v.len() - 8, suffix.as_slice()) {
        let stem = slice_to_vec(v.as_slice(), 0, v.len() - 8);
        assert(stem@ =~= name@.take(name@.len() - 8));
        Some(chars_to_string(stem.as_slice()))
    } else {
        None
    }
}

/// The scheme names of a level, sorted: each directory that holds
/// `circuit.data` by its name, each other entry ending in `.circuit` by its
/// stem.
pub fn schematic_names(entries: &Vec<(String, bool)>) -> (r: Vec<String>)
    ensures
        name_views(r@).to_multiset() == schemes(entry_views(entries@)).to_multiset(),
        forall|i: int, j: int| 0 <= i < j < r@.len() ==> chars_le(#[trigger] r@[i]@, #[trigger] r@[j]@),
{
    let ghost ev = entry_views(entries@);
    let mut found: Vec<String> = Vec::new();
    let mut i: usize = 0;
    assert(ev.take(0) =~= Seq::<(Seq<char>, bool)>::empty());
    assert(name_views(found@) =~= Seq::<Seq<char>>::empty());
    while i < entries.len()
        invariant
            i <= entries@.len(),
            ev == entry_views(entries@),
            name_views(found@) == schemes(ev.take(i as int)),
        decreases entries@.len() - i,
    {
        assert(ev.take(i + 1).drop_last() =~= ev.take(i as int));
        assert(ev.take(i + 1).last() == (entries@[i as int].0@, entries@[i as int].1));
        let ghost before = name_views(found@);
        match scheme_name(&entries[i].0, entries[i].1) {
            Some(n) => {
                found.push(n);
                assert(name_views(found@) =~= before.push(found@[found@.len() - 1]@));
            },
            None => {},
        }
        i = i + 1;
    }
    assert(ev.take(entries@.len() as int) =~= ev);
    let mut out: Vec<String> = Vec::new();
    let mut k: usize = 0;
    assert(found@.take(0) =~= Seq::<String>::empty());
    assert(name_views(out@) =~= Seq::<Seq<char>>::empty());
    while k < found.len()
        invariant
            k <= found@.len(),
            name_views(out@).to_multiset() == name_views(found@.take(k as int)).to_multiset(),
            forall|a: int, b: int| 0 <= a < b < out@.len() ==> chars_le(#[trigger] out@[a]@, #[trigger] out@[b]@),
        decreases found@.len() - k,
    {
        let mut p: usize = 0;
        while p < out.len() && name_le(&out[p], &found[k])
            invariant
                p <= out@.len(),
                k < found@.len(),
                forall|a: int| 0 <= a < p ==> chars_le(#[trigger] out@[a]@, found@[k as int]@),
            decreases out@.len() - p,
        {
            p = p + 1;
        }
        let ghost x = found@[k as int]@;
        let ghost old_out = out@;
        let item = chars_to_string(str_chars(found[k].as_str()).as_slice());
        out.insert(p, item);
        assert(name_views(out@) =~= name_views(old_out).insert(p as int, x));
        assert(name_views(found@.take(k + 1)) =~= name_views(found@.take(k as int)).push(x));
        assert forall|a: int, b: int| 0 <= a < b < out@.len() implies chars_le(#[trigger] out@[a]@, #[trigger] out@[b]@) by {
            if b < p {
                assert(out@[a] == old_out[a] && out@[b] == old_out[b]);
            } else if b == p {
                assert(out@[a] == old_out[a]);
            } else if a < p {
                assert(out@[a] == old_out[a] && out@[b] == old_out[b - 1]);
                lemma_chars_le_total(old_out[p as int]@, x);
                if b - 1 > p {
                    lemma_chars_le_trans(x, old_out[p as int]@, old_out[b - 1]@);
                }
                lemma_chars_le_trans(old_out[a]@, x, old_out[b - 1]@);
            } else if a == p {
                assert(out@[b] == old_out[b - 1]);
                lemma_chars_le_total(old_out[p as int]@, x);
                if b - 1 > p {
                    lemma_chars_le_trans(x, old_out[p as int]@, old_out[b - 1]@);
                }
            } else {
                assert(out@[a] == old_out[a - 1] && out@[b] == old_out[b - 1]);
            }
        }
        k = k + 1;
    }
    assert(found@.take(found@.len() as int) =~= found@);
    out
}

} // verus!
