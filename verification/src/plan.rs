//! The rewrite planner: from the finished dependency record map, derive
//! the actions that make the bundle relocatable — which libraries to copy
//! next to it, which load-path references to rewrite to `@rpath` form, and
//! which binaries to re-sign.

use vstd::prelude::*;
use vstd::string::StringExecFns;
use crate::collector::{has_record, record_paths_unique, DepEntry, DepRecord};
use crate::text::{basename, basename_of, seq_views, str_eq};
use crate::Resolution;

verus! {

/// The canonical targets among `es` whose classification is `which`, in
/// order.
pub open spec fn targets_of(es: Seq<DepEntry>, which: Resolution) -> Seq<Seq<char>>
    decreases es.len(),
{
    if es.len() == 0 {
        Seq::empty()
    } else if es.last().resolution == which {
        targets_of(es.drop_last(), which).push(es.last().target@)
    } else {
        targets_of(es.drop_last(), which)
    }
}

/// Every `which`-classified canonical target in any record, in record
/// order.
pub open spec fn all_targets(rs: Seq<DepRecord>, which: Resolution) -> Seq<Seq<char>>
    decreases rs.len(),
{
    if rs.len() == 0 {
        Seq::empty()
    } else {
        all_targets(rs.drop_last(), which) + targets_of(rs.last().deps@, which)
    }
}

/// `s` with later repetitions dropped: each value keeps its first position.
pub open spec fn dedup_first(s: Seq<Seq<char>>) -> Seq<Seq<char>>
    decreases s.len(),
{
    if s.len() == 0 {
        Seq::empty()
    } else {
        let d = dedup_first(s.drop_last());
        if d.contains(s.last()) {
            d
        } else {
            d.push(s.last())
        }
    }
}

/// Deduplication keeps membership and removes every repetition.
pub proof fn lemma_dedup_first_props(s: Seq<Seq<char>>)
    ensures
        forall|x: Seq<char>| #[trigger] dedup_first(s).contains(x) ==> s.contains(x),
        forall|x: Seq<char>| #[trigger] s.contains(x) ==> dedup_first(s).contains(x),
        dedup_first(s).no_duplicates(),
    decreases s.len(),
{
    if s.len() > 0 {
        let t = s.drop_last();
        lemma_dedup_first_props(t);
        let d = dedup_first(t);
        assert forall|x: Seq<char>| #[trigger] dedup_first(s).contains(x) implies s.contains(
            x,
        ) by {
            let i = choose|i: int| 0 <= i < dedup_first(s).len() && dedup_first(s)[i] == x;
            if d.contains(x) || (i < d.len()) {
                assert(d.contains(x)) by {
                    if i < d.len() {
                        assert(d[i] == x);
                    }
                }
                assert(t.contains(x));
                let j = choose|j: int| 0 <= j < t.len() && t[j] == x;
                assert(s[j] == x);
            } else {
                assert(x == s.last());
                assert(s[s.len() - 1] == x);
            }
        };
        assert forall|x: Seq<char>| #[trigger] s.contains(x) implies dedup_first(s).contains(
            x,
        ) by {
            let i = choose|i: int| 0 <= i < s.len() && s[i] == x;
            if i < s.len() - 1 {
                assert(t[i] == x);
                assert(t.contains(x));
                assert(d.contains(x));
                let j = choose|j: int| 0 <= j < d.len() && d[j] == x;
                if !d.contains(s.last()) {
                    assert(dedup_first(s)[j] == x);
                }
            } else {
                assert(x == s.last());
                if d.contains(x) {
                } else {
                    assert(dedup_first(s)[d.len() as int] == x);
                }
            }
        };
        if !d.contains(s.last()) {
            assert forall|i: int, j: int|
                0 <= i < j < dedup_first(s).len() implies dedup_first(s)[i] != dedup_first(
                s,
            )[j] by {
                if j == d.len() {
                    if d[i] == s.last() {
                        assert(d.contains(s.last()));
                    }
                }
            };
        }
    }
}

/// `t` appears as a `which`-classified target somewhere in the records.
pub open spec fn is_target_of(rs: Seq<DepRecord>, which: Resolution, t: Seq<char>) -> bool {
    exists|i: int, j: int|
        #![trigger rs[i].deps@[j]]
        0 <= i < rs.len() && 0 <= j < rs[i].deps@.len() && rs[i].deps@[j].resolution == which
            && rs[i].deps@[j].target@ == t
}

proof fn lemma_targets_of_iff(es: Seq<DepEntry>, which: Resolution, t: Seq<char>)
    ensures
        targets_of(es, which).contains(t) <==> exists|j: int|
            0 <= j < es.len() && (#[trigger] es[j]).resolution == which && es[j].target@ == t,
    decreases es.len(),
{
    if es.len() > 0 {
        let d = es.drop_last();
        lemma_targets_of_iff(d, which, t);
        let r = targets_of(d, which);
        if targets_of(es, which).contains(t) {
            let i = choose|i: int|
                0 <= i < targets_of(es, which).len() && targets_of(es, which)[i] == t;
            if i < r.len() {
                assert(r.contains(t));
                let j = choose|j: int|
                    0 <= j < d.len() && (#[trigger] d[j]).resolution == which && d[j].target@
                        == t;
                assert(es[j].resolution == which && es[j].target@ == t);
            } else {
                assert(es.last().resolution == which && es.last().target@ == t);
                assert(es[es.len() - 1].resolution == which);
            }
        }
        if exists|j: int|
            0 <= j < es.len() && (#[trigger] es[j]).resolution == which && es[j].target@ == t {
            let j = choose|j: int|
                0 <= j < es.len() && (#[trigger] es[j]).resolution == which && es[j].target@
                    == t;
            if j < es.len() - 1 {
                assert(d[j].resolution == which && d[j].target@ == t);
                assert(r.contains(t));
                let i = choose|i: int| 0 <= i < r.len() && r[i] == t;
                assert(targets_of(es, which)[i] == t);
            } else {
                assert(targets_of(es, which).last() == t);
            }
        }
    }
}

/// Membership in the flattened target list is exactly being a
/// `which`-classified target of some record.
pub proof fn lemma_all_targets_iff(rs: Seq<DepRecord>, which: Resolution, t: Seq<char>)
    ensures
        all_targets(rs, which).contains(t) <==> is_target_of(rs, which, t),
    decreases rs.len(),
{
    if rs.len() > 0 {
        let d = rs.drop_last();
        lemma_all_targets_iff(d, which, t);
        lemma_targets_of_iff(rs.last().deps@, which, t);
        let a = all_targets(d, which);
        let b = targets_of(rs.last().deps@, which);
        if all_targets(rs, which).contains(t) {
            let i = choose|i: int|
                0 <= i < all_targets(rs, which).len() && all_targets(rs, which)[i] == t;
            if i < a.len() {
                assert(a.contains(t));
                let (x, y) = choose|x: int, y: int|
                    #![trigger d[x].deps@[y]]
                    0 <= x < d.len() && 0 <= y < d[x].deps@.len() && d[x].deps@[y].resolution
                        == which && d[x].deps@[y].target@ == t;
                assert(rs[x].deps@[y].resolution == which && rs[x].deps@[y].target@ == t);
            } else {
                assert(b[i - a.len()] == t);
                assert(b.contains(t));
                let y = choose|y: int|
                    0 <= y < rs.last().deps@.len() && (#[trigger] rs.last().deps@[y]).resolution
                        == which && rs.last().deps@[y].target@ == t;
                assert(rs[rs.len() - 1].deps@[y].resolution == which && rs[rs.len()
                    - 1].deps@[y].target@ == t);
            }
        }
        if is_target_of(rs, which, t) {
            let (x, y) = choose|x: int, y: int|
                #![trigger rs[x].deps@[y]]
                0 <= x < rs.len() && 0 <= y < rs[x].deps@.len() && rs[x].deps@[y].resolution
                    == which && rs[x].deps@[y].target@ == t;
            if x < rs.len() - 1 {
                assert(d[x].deps@[y].resolution == which && d[x].deps@[y].target@ == t);
                assert(is_target_of(d, which, t));
                assert(a.contains(t));
                let i = choose|i: int| 0 <= i < a.len() && a[i] == t;
                assert(all_targets(rs, which)[i] == t);
            } else {
                assert(rs.last().deps@[y].resolution == which);
                assert(b.contains(t));
                let i = choose|i: int| 0 <= i < b.len() && b[i] == t;
                assert(all_targets(rs, which)[a.len() + i] == t);
            }
        }
    }
}

/// The planned copy list holds every `Required` canonical path exactly
/// once and nothing else: copied into the flat output directory, the file
/// set is exactly the `Required` paths, each under its own basename.
pub proof fn lemma_plan_covers_required(rs: Seq<DepRecord>)
    ensures
        dedup_first(all_targets(rs, Resolution::Required)).no_duplicates(),
        forall|t: Seq<char>| #[trigger]
            dedup_first(all_targets(rs, Resolution::Required)).contains(t) <==> is_target_of(
                rs,
                Resolution::Required,
                t,
            ),
{
    lemma_dedup_first_props(all_targets(rs, Resolution::Required));
    assert forall|t: Seq<char>| true implies (#[trigger] dedup_first(
        all_targets(rs, Resolution::Required),
    ).contains(t) <==> is_target_of(rs, Resolution::Required, t)) by {
        lemma_all_targets_iff(rs, Resolution::Required, t);
    };
}

/// Rewrite one load-command reference of a binary to a new string.
#[derive(Debug)]
pub struct RewriteAction {
    /// The reference exactly as the load command holds it now.
    pub reference: String,
    /// The relocatable form it is rewritten to.
    pub new_reference: String,
}

/// Everything to do for one library: copy it next to the bundle (when
/// vendored), give it its relocatable install name (when vendored),
/// rewrite its `Required` references, and re-sign it.
#[derive(Debug)]
pub struct LibraryPlan {
    /// The canonical path the actions apply to (the copy source when
    /// vendored, the binary itself otherwise).
    pub source: String,
    /// Whether the library must be copied into the output directory under
    /// its basename and given `install_name` as its identity.
    pub vendored: bool,
    /// The relocatable identity: `@rpath/` followed by the basename.
    pub install_name: String,
    /// The reference rewrites to apply.
    pub rewrites: Vec<RewriteAction>,
}

/// The rewrites a record calls for: each `Required` entry's reference,
/// redirected to `@rpath/` plus the basename of its canonical target.
pub open spec fn rewrites_of(es: Seq<DepEntry>) -> Seq<(Seq<char>, Seq<char>)>
    decreases es.len(),
{
    if es.len() == 0 {
        Seq::empty()
    } else {
        let r = rewrites_of(es.drop_last());
        if es.last().resolution is Required {
            r.push((es.last().reference@, "@rpath/"@ + basename_of(es.last().target@)))
        } else {
            r
        }
    }
}

/// The plan's rewrite list reads exactly as `rewrites_of(es)`.
pub open spec fn plan_matches_entries(pl: LibraryPlan, es: Seq<DepEntry>) -> bool {
    &&& pl.rewrites@.len() == rewrites_of(es).len()
    &&& forall|i: int|
        0 <= i < rewrites_of(es).len() ==> (#[trigger] pl.rewrites@[i]).reference@ == rewrites_of(
            es,
        )[i].0 && pl.rewrites@[i].new_reference@ == rewrites_of(es)[i].1
}

/// `@rpath/` plus the basename of `path`: the relocatable reference form.
pub fn rpath_form(path: &str) -> (r: String)
    ensures
        r@ == "@rpath/"@ + basename_of(path@),
{
    let mut s = String::from_str("@rpath/");
    s.append(basename(path));
    s
}

/// Whether some string in `v` reads as `s`.
fn contains_str(v: &Vec<String>, s: &str) -> (b: bool)
    ensures
        b == seq_views(v@).contains(s@),
{
    let n = v.len();
    let mut i: usize = 0;
    while i < n
        invariant
            n == v@.len(),
            0 <= i <= n,
            forall|j: int| 0 <= j < i ==> (#[trigger] v@[j])@ != s@,
        decreases n - i,
    {
        if str_eq(v[i].as_str(), s) {
            proof {
                assert(seq_views(v@)[i as int] == s@);
            }
            return true;
        }
        i = i + 1;
    }
    proof {
        if seq_views(v@).contains(s@) {
            let j = choose|j: int| 0 <= j < seq_views(v@).len() && seq_views(v@)[j] == s@;
            assert(v@[j]@ == s@);
        }
    }
    false
}

/// The record keyed by `p`; with unique paths there is exactly one.
fn find_record<'a>(records: &'a Vec<DepRecord>, p: &str) -> (r: &'a DepRecord)
    requires
        has_record(records@, p@),
    ensures
        r.path@ == p@,
        exists|i: int| 0 <= i < records@.len() && records@[i] == *r,
{
    let n = records.len();
    let mut i: usize = 0;
    while i < n
        invariant
            n == records@.len(),
            0 <= i <= n,
            has_record(records@, p@),
            forall|j: int| 0 <= j < i ==> (#[trigger] records@[j]).path@ != p@,
        decreases n - i,
    {
        if str_eq(records[i].path.as_str(), p) {
            return &records[i];
        }
        i = i + 1;
    }
    proof {
        assert(false);
    }
    &records[0]
}

/// The rewrite actions for one record's entries.
fn build_rewrites(rec: &DepRecord) -> (r: Vec<RewriteAction>)
    ensures
        r@.len() == rewrites_of(rec.deps@).len(),
        forall|i: int|
            0 <= i < rewrites_of(rec.deps@).len() ==> (#[trigger] r@[i]).reference@ == rewrites_of(
                rec.deps@,
            )[i].0 && r@[i].new_reference@ == rewrites_of(rec.deps@)[i].1,
{
    let mut r: Vec<RewriteAction> = Vec::new();
    let n = rec.deps.len();
    let mut j: usize = 0;
    while j < n
        invariant
            n == rec.deps@.len(),
            0 <= j <= n,
            r@.len() == rewrites_of(rec.deps@.take(j as int)).len(),
            forall|i: int|
                0 <= i < rewrites_of(rec.deps@.take(j as int)).len() ==> (#[trigger] r@[i]).reference@
                    == rewrites_of(rec.deps@.take(j as int))[i].0 && r@[i].new_reference@
                    == rewrites_of(rec.deps@.take(j as int))[i].1,
        decreases n - j,
    {
        let e = &rec.deps[j];
        let ghost pre = rec.deps@.take(j as int);
        proof {
            assert(rec.deps@.take(j + 1).drop_last() =~= pre);
            assert(rec.deps@.take(j + 1).last() == rec.deps@[j as int]);
        }
        if matches!(e.resolution, Resolution::Required) {
            let new_reference = rpath_form(e.target.as_str());
            r.push(RewriteAction { reference: e.reference.clone(), new_reference });
        }
        j = j + 1;
    }
    proof {
        assert(rec.deps@.take(n as int) =~= rec.deps@);
    }
    r
}

/// The distinct `which`-classified canonical targets across the records,
/// in first-appearance order, after the (deduplicated) seed paths.
fn collect_targets(records: &Vec<DepRecord>, which: Resolution, seed: &Vec<String>) -> (r: Vec<
    String,
>)
    ensures
        seq_views(r@) == dedup_first(seq_views(seed@) + all_targets(records@, which)),
{
    let mut acc: Vec<String> = Vec::new();
    proof {
        assert(seq_views(acc@) =~= Seq::<Seq<char>>::empty());
        assert(seq_views(seed@).take(0) =~= Seq::<Seq<char>>::empty());
    }
    let sn = seed.len();
    let mut s: usize = 0;
    while s < sn
        invariant
            sn == seed@.len(),
            0 <= s <= sn,
            seq_views(acc@) == dedup_first(seq_views(seed@).take(s as int)),
        decreases sn - s,
    {
        let ghost part = seq_views(seed@).take(s as int);
        proof {
            assert(seq_views(seed@).take(s + 1) =~= part.push(seed@[s as int]@));
            assert(part.push(seed@[s as int]@).drop_last() =~= part);
        }
        let p = &seed[s];
        if !contains_str(&acc, p.as_str()) {
            let ghost av = seq_views(acc@);
            acc.push(p.clone());
            proof {
                assert(seq_views(acc@) =~= av.push(p@));
            }
        }
        s = s + 1;
    }
    proof {
        assert(seq_views(seed@).take(sn as int) =~= seq_views(seed@));
        assert(all_targets(records@.take(0), which) =~= Seq::<Seq<char>>::empty());
        assert(seq_views(seed@) + all_targets(records@.take(0), which) =~= seq_views(seed@));
    }
    let n = records.len();
    let mut i: usize = 0;
    while i < n
        invariant
            n == records@.len(),
            0 <= i <= n,
            seq_views(acc@) == dedup_first(
                seq_views(seed@) + all_targets(records@.take(i as int), which),
            ),
        decreases n - i,
    {
        let rec = &records[i];
        let m = rec.deps.len();
        let ghost base = seq_views(seed@) + all_targets(records@.take(i as int), which);
        proof {
            assert(targets_of(rec.deps@.take(0), which) =~= Seq::<Seq<char>>::empty());
            assert(base + targets_of(rec.deps@.take(0), which) =~= base);
        }
        let mut j: usize = 0;
        while j < m
            invariant
                n == records@.len(),
                0 <= i < n,
                rec == records@[i as int],
                m == rec.deps@.len(),
                0 <= j <= m,
                base == seq_views(seed@) + all_targets(records@.take(i as int), which),
                seq_views(acc@) == dedup_first(base + targets_of(rec.deps@.take(j as int), which)),
            decreases m - j,
        {
            let ghost part = base + targets_of(rec.deps@.take(j as int), which);
            proof {
                assert(rec.deps@.take(j + 1).drop_last() =~= rec.deps@.take(j as int));
                assert(rec.deps@.take(j + 1).last() == rec.deps@[j as int]);
            }
            let e = &rec.deps[j];
            if e.resolution == which {
                proof {
                    assert(base + targets_of(rec.deps@.take(j + 1), which) =~= part.push(
                        e.target@,
                    ));
                    assert(part.push(e.target@).drop_last() =~= part);
                    assert(part.push(e.target@).last() == e.target@);
                }
                if !contains_str(&acc, e.target.as_str()) {
                    let ghost av = seq_views(acc@);
                    acc.push(e.target.clone());
                    proof {
                        assert(seq_views(acc@) =~= av.push(e.target@));
                        assert(dedup_first(part.push(e.target@)) == dedup_first(part).push(
                            e.target@,
                        ));
                    }
                } else {
                    proof {
                        assert(dedup_first(part.push(e.target@)) == dedup_first(part));
                    }
                }
            } else {
                proof {
                    assert(base + targets_of(rec.deps@.take(j + 1), which) =~= part);
                }
            }
            j = j + 1;
        }
        proof {
            assert(rec.deps@.take(m as int) =~= rec.deps@);
            assert(records@.take(i + 1).drop_last() =~= records@.take(i as int));
            assert(records@.take(i + 1).last() == records@[i as int]);
            assert(all_targets(records@.take(i + 1), which) == all_targets(
                records@.take(i as int),
                which,
            ) + targets_of(rec.deps@, which));
            assert(seq_views(seed@) + all_targets(records@.take(i + 1), which) =~= base
                + targets_of(rec.deps@, which));
        }
        i = i + 1;
    }
    proof {
        assert(records@.take(n as int) =~= records@);
    }
    acc
}

/// Derive the full rewrite plan from the record map and the sysroot roots.
///
/// The plan lists, first, one vendored entry per distinct `Required`
/// canonical path, in first-discovery order — copy it under its basename,
/// set its identity to `@rpath/` form, rewrite its own `Required`
/// references, re-sign; then one in-place entry per sysroot binary — the
/// roots, followed by every sysroot library discovered transitively —
/// rewrite its `Required` references and re-sign, no copy and no identity
/// change.
pub fn plan_rewrites(records: &Vec<DepRecord>, roots: &Vec<String>) -> (plan: Vec<LibraryPlan>)
    requires
        record_paths_unique(records@),
        forall|t: Seq<char>| is_target_of(records@, Resolution::Required, t) ==> has_record(
            records@,
            t,
        ),
        forall|t: Seq<char>| is_target_of(records@, Resolution::Sysroot, t) ==> has_record(
            records@,
            t,
        ),
        forall|i: int| 0 <= i < roots@.len() ==> has_record(records@, (#[trigger] roots@[i])@),
    ensures
        ({
            let vendored = dedup_first(all_targets(records@, Resolution::Required));
            let inplace = dedup_first(
                seq_views(roots@) + all_targets(records@, Resolution::Sysroot),
            );
            &&& plan@.len() == vendored.len() + inplace.len()
            &&& forall|i: int|
                0 <= i < vendored.len() ==> {
                    let pl = #[trigger] plan@[i];
                    &&& pl.vendored
                    &&& pl.source@ == vendored[i]
                    &&& pl.install_name@ == "@rpath/"@ + basename_of(vendored[i])
                    &&& exists|k: int|
                        0 <= k < records@.len() && (#[trigger] records@[k]).path@ == pl.source@
                            && plan_matches_entries(pl, records@[k].deps@)
                }
            &&& forall|n: int|
                vendored.len() <= n < plan@.len() ==> {
                    let pl = #[trigger] plan@[n];
                    &&& !pl.vendored
                    &&& pl.source@ == inplace[n - vendored.len()]
                    &&& pl.install_name@ == "@rpath/"@ + basename_of(pl.source@)
                    &&& exists|k: int|
                        0 <= k < records@.len() && (#[trigger] records@[k]).path@ == pl.source@
                            && plan_matches_entries(pl, records@[k].deps@)
                }
        }),
{
    let ghost vendored = dedup_first(all_targets(records@, Resolution::Required));
    let ghost inplace_v = dedup_first(seq_views(roots@) + all_targets(records@, Resolution::Sysroot));

    let no_seed: Vec<String> = Vec::new();
    let targets = collect_targets(records, Resolution::Required, &no_seed);
    proof {
        assert(seq_views(no_seed@) =~= Seq::<Seq<char>>::empty());
        assert(seq_views(no_seed@) + all_targets(records@, Resolution::Required) =~= all_targets(
            records@,
            Resolution::Required,
        ));
        assert(seq_views(targets@) == vendored);
    }
    let inplace = collect_targets(records, Resolution::Sysroot, roots);

    // one vendored plan per distinct `Required` target
    let mut plan: Vec<LibraryPlan> = Vec::new();
    let tn = targets.len();
    let mut k: usize = 0;
    while k < tn
        invariant
            tn == targets@.len(),
            0 <= k <= tn,
            vendored == dedup_first(all_targets(records@, Resolution::Required)),
            seq_views(targets@) == vendored,
            record_paths_unique(records@),
            forall|t: Seq<char>| is_target_of(records@, Resolution::Required, t) ==> has_record(
                records@,
                t,
            ),
            plan@.len() == k,
            forall|i2: int|
                0 <= i2 < k ==> {
                    let pl = #[trigger] plan@[i2];
                    &&& pl.vendored
                    &&& pl.source@ == vendored[i2]
                    &&& pl.install_name@ == "@rpath/"@ + basename_of(vendored[i2])
                    &&& exists|kk: int|
                        0 <= kk < records@.len() && (#[trigger] records@[kk]).path@ == pl.source@
                            && plan_matches_entries(pl, records@[kk].deps@)
                },
        decreases tn - k,
    {
        let t = &targets[k];
        proof {
            assert(seq_views(targets@)[k as int] == t@);
            lemma_dedup_first_props(all_targets(records@, Resolution::Required));
            assert(dedup_first(all_targets(records@, Resolution::Required)).contains(t@)) by {
                assert(vendored[k as int] == t@);
            }
            assert(all_targets(records@, Resolution::Required).contains(t@));
            lemma_all_targets_iff(records@, Resolution::Required, t@);
            assert(has_record(records@, t@));
        }
        let rec = find_record(records, t.as_str());
        let rewrites = build_rewrites(rec);
        let install_name = rpath_form(t.as_str());
        let pl = LibraryPlan { source: t.clone(), vendored: true, install_name, rewrites };
        plan.push(pl);
        k = k + 1;
    }

    // one in-place plan per sysroot binary: the roots and every sysroot
    // library discovered transitively
    let rn = inplace.len();
    let mut k2: usize = 0;
    while k2 < rn
        invariant
            rn == inplace@.len(),
            0 <= k2 <= rn,
            vendored == dedup_first(all_targets(records@, Resolution::Required)),
            inplace_v == dedup_first(
                seq_views(roots@) + all_targets(records@, Resolution::Sysroot),
            ),
            seq_views(inplace@) == inplace_v,
            record_paths_unique(records@),
            forall|t: Seq<char>| is_target_of(records@, Resolution::Sysroot, t) ==> has_record(
                records@,
                t,
            ),
            forall|i: int| 0 <= i < roots@.len() ==> has_record(records@, (#[trigger] roots@[i])@),
            plan@.len() == vendored.len() + k2,
            forall|i2: int|
                0 <= i2 < vendored.len() ==> {
                    let pl = #[trigger] plan@[i2];
                    &&& pl.vendored
                    &&& pl.source@ == vendored[i2]
                    &&& pl.install_name@ == "@rpath/"@ + basename_of(vendored[i2])
                    &&& exists|kk: int|
                        0 <= kk < records@.len() && (#[trigger] records@[kk]).path@ == pl.source@
                            && plan_matches_entries(pl, records@[kk].deps@)
                },
            forall|n2: int|
                vendored.len() <= n2 < plan@.len() ==> {
                    let pl = #[trigger] plan@[n2];
                    &&& !pl.vendored
                    &&& pl.source@ == inplace_v[n2 - vendored.len()]
                    &&& pl.install_name@ == "@rpath/"@ + basename_of(pl.source@)
                    &&& exists|kk: int|
                        0 <= kk < records@.len() && (#[trigger] records@[kk]).path@ == pl.source@
                            && plan_matches_entries(pl, records@[kk].deps@)
                },
        decreases rn - k2,
    {
        let t = &inplace[k2];
        proof {
            assert(seq_views(inplace@)[k2 as int] == t@);
            let whole = seq_views(roots@) + all_targets(records@, Resolution::Sysroot);
            lemma_dedup_first_props(whole);
            assert(dedup_first(whole).contains(t@)) by {
                assert(inplace_v[k2 as int] == t@);
            }
            assert(whole.contains(t@));
            let idx = choose|x: int| 0 <= x < whole.len() && whole[x] == t@;
            if idx < seq_views(roots@).len() {
                assert(roots@[idx]@ == t@);
                assert(has_record(records@, roots@[idx]@));
            } else {
                assert(all_targets(records@, Resolution::Sysroot)[idx - seq_views(roots@).len()]
                    == t@);
                assert(all_targets(records@, Resolution::Sysroot).contains(t@));
                lemma_all_targets_iff(records@, Resolution::Sysroot, t@);
            }
            assert(has_record(records@, t@));
        }
        let rec = find_record(records, t.as_str());
        let rewrites = build_rewrites(rec);
        let install_name = rpath_form(t.as_str());
        let pl = LibraryPlan { source: t.clone(), vendored: false, install_name, rewrites };
        plan.push(pl);
        k2 = k2 + 1;
    }
    plan
}

} // verus!
