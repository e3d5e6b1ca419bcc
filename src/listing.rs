use vstd::prelude::*;

use itertools::Itertools;

use crate::paths::{holds, views};

verus! {

/// Lexicographic order on characters by code point, which for strings is the
/// byte order of their UTF-8 encoding.
pub open spec fn chars_le(a: Seq<char>, b: Seq<char>) -> bool
    decreases a.len(),
{
    if a.len() == 0 {
        true
    } else if b.len() == 0 {
        false
    } else if a[0] != b[0] {
        (a[0] as u32) < (b[0] as u32)
    } else {
        chars_le(a.drop_first(), b.drop_first())
    }
}

/// Each string comes no later than every string after it.
pub open spec fn is_sorted(s: Seq<Seq<char>>) -> bool {
    forall|i: int, j: int| 0 <= i < j < s.len() ==> chars_le(s[i], s[j])
}

/// Relies on itertools' `Itertools::sorted`, which collects the items and sorts
/// them with `slice::sort` under `Ord`; `String`'s `Ord` compares the UTF-8 bytes
/// lexicographically. The items are kept, only their order changes.
#[verifier::external_body]
fn sort_names(names: Vec<String>) -> (r: Vec<String>)
    ensures
        views(r@).to_multiset() == views(names@).to_multiset(),
        is_sorted(views(r@)),
{
    names.into_iter().sorted().collect()
}

/// The names to list as available tasks: each name once, in ascending order.
pub fn available_tasks(names: Vec<String>) -> (r: Vec<String>)
    ensures
        views(r@).no_duplicates(),
        views(r@).to_set() == views(names@).to_set(),
        is_sorted(views(r@)),
{
    broadcast use vstd::seq_lib::group_to_multiset_ensures;

    let mut unique: Vec<String> = Vec::new();
    let mut i: usize = 0;
    while i < names.len()
        invariant
            i <= names@.len(),
            views(unique@).no_duplicates(),
            forall|x: Seq<char>| views(unique@).contains(x) <==> views(names@).take(i as int).contains(x),
        decreases names@.len() - i,
    {
        let s = &names[i];
        let ghost before = views(unique@);
        assert(views(names@).take(i + 1) =~= views(names@).take(i as int).push(s@));
        let ghost t = views(names@).take(i as int);
        if !holds(&unique, s) {
            unique.push(s.clone());
            assert(views(unique@) =~= before.push(s@));
        }
        proof {
            assert forall|x: Seq<char>| views(unique@).contains(x) <==> t.push(s@).contains(x) by {
                vstd::seq_lib::lemma_seq_contains_after_push(t, s@, x);
                vstd::seq_lib::lemma_seq_contains_after_push(before, s@, x);
            }
        }
        i = i + 1;
    }
    assert(views(names@).take(names@.len() as int) =~= views(names@));
    let ghost u = views(unique@);
    let sorted = sort_names(unique);
    proof {
        let v = views(sorted@);
        u.lemma_multiset_has_no_duplicates();
        v.lemma_multiset_has_no_duplicates_conv();
        assert forall|x: Seq<char>| v.contains(x) <==> u.contains(x) by {
            assert(v.contains(x) <==> v.to_multiset().count(x) > 0);
            assert(u.contains(x) <==> u.to_multiset().count(x) > 0);
        }
        assert(v.to_set() =~= views(names@).to_set());
    }
    sorted
}

} // verus!
