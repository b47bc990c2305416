//! The library index: a basename-to-canonical-path table, one per library
//! universe (sysroot tree, system library directory, package cache).
//!
//! The table is an insertion-ordered list of entries whose abstract view is
//! a `Map`; a later entry for the same basename shadows an earlier one
//! (last-write-wins), exactly as repeated inserts into a map do.

use vstd::prelude::*;
use crate::text::{basename, basename_of, str_eq};

verus! {

/// The map described by an entry list, built by inserting the entries in
/// order, so that the last entry for a basename wins.
pub open spec fn entries_map(es: Seq<(String, String)>) -> Map<Seq<char>, Seq<char>>
    decreases es.len(),
{
    if es.len() == 0 {
        Map::empty()
    } else {
        entries_map(es.drop_last()).insert(es.last().0@, es.last().1@)
    }
}

/// The index built from a list of file paths: each path is keyed by its
/// basename, later paths shadowing earlier ones with the same basename.
pub open spec fn index_map_of(paths: Seq<Seq<char>>) -> Map<Seq<char>, Seq<char>>
    decreases paths.len(),
{
    if paths.len() == 0 {
        Map::empty()
    } else {
        index_map_of(paths.drop_last()).insert(basename_of(paths.last()), paths.last())
    }
}

/// A key that no entry carries is absent from the entry map.
proof fn lemma_entries_absent(es: Seq<(String, String)>, k: Seq<char>)
    requires
        forall|i: int| 0 <= i < es.len() ==> (#[trigger] es[i]).0@ != k,
    ensures
        !entries_map(es).contains_key(k),
    decreases es.len(),
{
    if es.len() > 0 {
        lemma_entries_absent(es.drop_last(), k);
    }
}

/// The last entry that carries a key gives that key's value in the map.
proof fn lemma_entries_found(es: Seq<(String, String)>, k: Seq<char>, i: int)
    requires
        0 <= i < es.len(),
        es[i].0@ == k,
        forall|j: int| i < j < es.len() ==> (#[trigger] es[j]).0@ != k,
    ensures
        entries_map(es).contains_key(k),
        entries_map(es)[k] == es[i].1@,
    decreases es.len(),
{
    if i == es.len() - 1 {
    } else {
        lemma_entries_found(es.drop_last(), k, i);
    }
}

/// One basename-to-path table.
pub struct BasenameIndex {
    entries: Vec<(String, String)>,
}

impl View for BasenameIndex {
    type V = Map<Seq<char>, Seq<char>>;

    closed spec fn view(&self) -> Map<Seq<char>, Seq<char>> {
        entries_map(self.entries@)
    }
}

impl BasenameIndex {
    /// An empty index.
    pub fn new() -> (r: Self)
        ensures
            r@ == Map::<Seq<char>, Seq<char>>::empty(),
    {
        BasenameIndex { entries: Vec::new() }
    }

    /// Index `paths` by basename; a later path shadows an earlier one with
    /// the same basename.
    pub fn from_paths(paths: &Vec<String>) -> (r: Self)
        ensures
            r@ == index_map_of(paths@.map_values(|p: String| p@)),
    {
        let ghost views = paths@.map_values(|p: String| p@);
        let mut entries: Vec<(String, String)> = Vec::new();
        let mut i: usize = 0;
        while i < paths.len()
            invariant
                0 <= i <= paths@.len(),
                views == paths@.map_values(|p: String| p@),
                entries_map(entries@) == index_map_of(views.take(i as int)),
            decreases paths@.len() - i,
        {
            let p = &paths[i];
            let name = basename(p.as_str());
            let owned: String = name.to_owned();
            let ghost es_old = entries@;
            entries.push((owned, p.clone()));
            proof {
                assert(views[i as int] == paths@[i as int]@);
                assert(entries@.drop_last() =~= es_old);
                assert(entries@.last().0@ == basename_of(views[i as int]));
                assert(entries@.last().1@ == views[i as int]);
                assert(entries_map(entries@) == entries_map(es_old).insert(
                    basename_of(views[i as int]),
                    views[i as int],
                ));
                assert(views.take(i + 1).drop_last() =~= views.take(i as int));
                assert(views.take(i + 1).last() == views[i as int]);
                assert(index_map_of(views.take(i + 1)) == index_map_of(views.take(i as int)).insert(
                    basename_of(views[i as int]),
                    views[i as int],
                ));
            }
            i = i + 1;
        }
        proof {
            assert(views.take(views.len() as int) =~= views);
        }
        BasenameIndex { entries }
    }

    /// Look a basename up; the answer is exactly what the map view holds.
    pub fn get<'a>(&'a self, name: &str) -> (r: Option<&'a String>)
        ensures
            match r {
                Some(p) => self@.contains_key(name@) && p@ == self@[name@],
                None => !self@.contains_key(name@),
            },
    {
        let n = self.entries.len();
        let mut j: usize = n;
        while j > 0
            invariant
                n == self.entries@.len(),
                0 <= j <= n,
                forall|t: int| j <= t < n ==> (#[trigger] self.entries@[t]).0@ != name@,
            decreases j,
        {
            let e = &self.entries[j - 1];
            if str_eq(e.0.as_str(), name) {
                proof {
                    lemma_entries_found(self.entries@, name@, j - 1);
                }
                return Some(&e.1);
            }
            j = j - 1;
        }
        proof {
            lemma_entries_absent(self.entries@, name@);
        }
        None
    }
}

} // verus!
