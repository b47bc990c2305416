//! The graph collector: a worklist engine that classifies every reference
//! reachable from the sysroot binaries and records, once per canonical
//! path, the classified dependency list of each library that needs
//! inspection.
//!
//! Listing a binary's dependencies is outside work, so the engine is a
//! state machine: [`Collector::next_request`] hands out the next canonical
//! path whose dependency list is needed, and [`Collector::provide_deps`]
//! takes the list back.  [`crate::resolver::Resolver::collect_deps`] drives
//! the machine over an in-memory dependency table and is proved to
//! terminate — cycles in the dependency graph cannot make it loop, because
//! a canonical path is never expanded twice.

use vstd::prelude::*;
use vstd::seq_lib::seq_to_set_is_finite;
use crate::resolver::Resolver;
use crate::text::{seq_views, str_eq};
use crate::Resolution;

verus! {

/// One classified dependency reference, as it literally appeared in the
/// owning library's load commands.
#[derive(Debug)]
pub struct DepEntry {
    /// The raw reference string.
    pub reference: String,
    /// Its classification.
    pub resolution: Resolution,
    /// The canonical path it resolves to.
    pub target: String,
}

/// The classified dependency list of one library, keyed by its canonical
/// path.
#[derive(Debug)]
pub struct DepRecord {
    /// The canonical path of the library whose dependencies were listed.
    pub path: String,
    /// Its references, each with the classification decided for it.
    pub deps: Vec<DepEntry>,
}

/// `e` is the classification the resolver decides for `reference`.
pub open spec fn entry_matches(res: Resolver, e: DepEntry, reference: Seq<char>) -> bool {
    &&& e.reference@ == reference
    &&& e.resolution == res.spec_resolve(reference).0
    &&& e.target@ == res.spec_resolve(reference).1
}

/// `rec` holds exactly the references `refs`, in order, each classified as
/// the resolver decides.
pub open spec fn record_matches(res: Resolver, rec: DepRecord, refs: Seq<Seq<char>>) -> bool {
    &&& rec.deps@.len() == refs.len()
    &&& forall|i: int| 0 <= i < refs.len() ==> entry_matches(res, #[trigger] rec.deps@[i], refs[i])
}

/// Some record in `rs` is keyed by the canonical path `p`.
pub open spec fn has_record(rs: Seq<DepRecord>, p: Seq<char>) -> bool {
    exists|i: int| 0 <= i < rs.len() && (#[trigger] rs[i]).path@ == p
}

/// No two records share a canonical path: the deduplication guarantee.
pub open spec fn record_paths_unique(rs: Seq<DepRecord>) -> bool {
    forall|i: int, j: int|
        0 <= i < j < rs.len() ==> (#[trigger] rs[i]).path@ != (#[trigger] rs[j]).path@
}

/// A reference the worklist may drop without further work: either its
/// classification needs no expansion, or its canonical path is already
/// recorded.
pub open spec fn skippable(res: Resolver, rs: Seq<DepRecord>, reference: Seq<char>) -> bool {
    ||| !res.spec_resolve(reference).0.spec_needs_expansion()
    ||| has_record(rs, res.spec_resolve(reference).1)
}

/// The canonical paths recorded so far.
pub open spec fn recorded_paths(rs: Seq<DepRecord>) -> Set<Seq<char>> {
    rs.map_values(|r: DepRecord| r.path@).to_set()
}

proof fn lemma_recorded_paths_agree(rs: Seq<DepRecord>, p: Seq<char>)
    ensures
        recorded_paths(rs).contains(p) == has_record(rs, p),
{
    let vs = rs.map_values(|r: DepRecord| r.path@);
    if has_record(rs, p) {
        let i = choose|i: int| 0 <= i < rs.len() && (#[trigger] rs[i]).path@ == p;
        assert(vs[i] == p);
        assert(vs.contains(p));
    }
    if vs.to_set().contains(p) {
        let i = choose|i: int| 0 <= i < vs.len() && vs[i] == p;
        assert(rs[i].path@ == p);
    }
}

proof fn lemma_recorded_paths_push(rs: Seq<DepRecord>, rec: DepRecord)
    ensures
        recorded_paths(rs.push(rec)) == recorded_paths(rs).insert(rec.path@),
{
    let vs = rs.map_values(|r: DepRecord| r.path@);
    let vs2 = rs.push(rec).map_values(|r: DepRecord| r.path@);
    assert(vs2 =~= vs.push(rec.path@));
    assert(vs.push(rec.path@).to_set() =~= vs.to_set().insert(rec.path@)) by {
        assert forall|x: Seq<char>| vs.push(rec.path@).contains(x) implies vs.to_set().insert(
            rec.path@,
        ).contains(x) by {
            let i = choose|i: int| 0 <= i < vs.push(rec.path@).len() && vs.push(rec.path@)[i] == x;
            if i < vs.len() {
                assert(vs[i] == x);
            }
        };
        assert forall|x: Seq<char>| vs.to_set().insert(rec.path@).contains(x) implies vs.push(
            rec.path@,
        ).contains(x) by {
            if x == rec.path@ {
                assert(vs.push(rec.path@)[vs.len() as int] == x);
            } else {
                let i = choose|i: int| 0 <= i < vs.len() && vs[i] == x;
                assert(vs.push(rec.path@)[i] == x);
            }
        };
    }
}

/// Adding a record keeps every earlier record visible.
proof fn lemma_has_record_push(rs: Seq<DepRecord>, rec: DepRecord, p: Seq<char>)
    requires
        has_record(rs, p) || rec.path@ == p,
    ensures
        has_record(rs.push(rec), p),
{
    if has_record(rs, p) {
        let i = choose|i: int| 0 <= i < rs.len() && (#[trigger] rs[i]).path@ == p;
        assert(rs.push(rec)[i].path@ == p);
    } else {
        assert(rs.push(rec)[rs.len() as int].path@ == p);
    }
}

/// Whether some record in `records` is keyed by `p`.
pub fn contains_record(records: &Vec<DepRecord>, p: &str) -> (b: bool)
    ensures
        b == has_record(records@, p@),
{
    let n = records.len();
    let mut i: usize = 0;
    while i < n
        invariant
            n == records@.len(),
            0 <= i <= n,
            forall|j: int| 0 <= j < i ==> (#[trigger] records@[j]).path@ != p@,
        decreases n - i,
    {
        if str_eq(records[i].path.as_str(), p) {
            return true;
        }
        i = i + 1;
    }
    false
}

/// The worklist state: pending raw references, the records accumulated so
/// far, and the canonical path (if any) whose dependency list has been
/// requested but not yet supplied.
pub struct Collector {
    /// Raw reference strings still to classify.
    pub queue: Vec<String>,
    /// One record per library whose dependencies were listed.
    pub records: Vec<DepRecord>,
    /// The canonical path handed out by `next_request` and not yet answered.
    pub pending: Option<String>,
}

/// What a successful [`Collector::next_request`] guarantees: some queue
/// position `i` held a reference that classifies to a not-yet-recorded
/// expandable path equal to `p`; everything before it was skippable and the
/// queue continues after it.
pub open spec fn request_found(c0: Collector, c1: Collector, res: Resolver, p: Seq<char>) -> bool {
    exists|i: int|
        #![trigger c0.queue@[i]]
        {
            &&& 0 <= i < c0.queue@.len()
            &&& res.spec_resolve(c0.queue@[i]@).0.spec_needs_expansion()
            &&& res.spec_resolve(c0.queue@[i]@).1 == p
            &&& !has_record(c0.records@, p)
            &&& forall|j: int| 0 <= j < i ==> skippable(res, c0.records@, (#[trigger] c0.queue@[j])@)
            &&& c1.queue@ == c0.queue@.skip(i + 1)
        }
}

impl Collector {
    /// Start from the traversal roots, with nothing recorded.
    pub fn new(roots: Vec<String>) -> (r: Self)
        ensures
            r.queue@ == roots@,
            r.records@ == Seq::<DepRecord>::empty(),
            r.pending is None,
    {
        Collector { queue: roots, records: Vec::new(), pending: None }
    }

    /// Work through the queue until a reference classifies to an expandable
    /// canonical path that has no record yet; hand that path out and
    /// remember it as pending.  Returns `None` when the queue is exhausted,
    /// every remaining reference having been skippable.
    pub fn next_request(&mut self, res: &Resolver) -> (o: Option<String>)
        requires
            old(self).pending is None,
        ensures
            final(self).records@ == old(self).records@,
            match o {
                Some(p) => {
                    &&& final(self).pending matches Some(q) && q@ == p@
                    &&& !has_record(final(self).records@, p@)
                    &&& request_found(*old(self), *final(self), *res, p@)
                },
                None => {
                    &&& final(self).pending is None
                    &&& final(self).queue@.len() == 0
                    &&& forall|j: int|
                        0 <= j < old(self).queue@.len() ==> skippable(
                            *res,
                            old(self).records@,
                            (#[trigger] old(self).queue@[j])@,
                        )
                },
            },
    {
        let ghost q0 = self.queue@;
        let ghost mut k: int = 0;
        loop
            invariant
                self.pending is None,
                self.records@ == old(self).records@,
                0 <= k <= q0.len(),
                self.queue@ == q0.skip(k),
                q0 == old(self).queue@,
                forall|j: int| 0 <= j < k ==> skippable(*res, old(self).records@, (#[trigger] q0[j])@),
            decreases q0.len() - k,
        {
            if self.queue.len() == 0 {
                proof {
                    assert(k == q0.len());
                }
                return None;
            }
            let s = self.queue.remove(0);
            proof {
                assert(q0.skip(k).remove(0) =~= q0.skip(k + 1));
                assert(q0.skip(k)[0] == q0[k]);
            }
            let (r, path) = res.resolve_rpath(s.as_str());
            if r.needs_expansion() {
                if !contains_record(&self.records, path.as_str()) {
                    self.pending = Some(path.clone());
                    proof {
                        assert(res.spec_resolve(q0[k]@).1 == path@);
                        assert(self.queue@ == q0.skip(k + 1));
                        assert(request_found(*old(self), *self, *res, path@));
                    }
                    return Some(path);
                }
            }
            proof {
                assert(skippable(*res, old(self).records@, q0[k]@));
                k = k + 1;
            }
        }
    }

    /// Take back the dependency list of the pending canonical path: record
    /// its classified entries and enqueue every raw reference for later
    /// classification.
    pub fn provide_deps(&mut self, res: &Resolver, deps: Vec<String>)
        requires
            old(self).pending is Some,
        ensures
            final(self).pending is None,
            final(self).queue@ == old(self).queue@ + deps@,
            final(self).records@.len() == old(self).records@.len() + 1,
            final(self).records@.drop_last() == old(self).records@,
            old(self).pending matches Some(p) ==> final(self).records@.last().path@ == p@,
            record_matches(*res, final(self).records@.last(), seq_views(deps@)),
    {
        let p = self.pending.take().unwrap();
        let mut entries: Vec<DepEntry> = Vec::new();
        let mut i: usize = 0;
        while i < deps.len()
            invariant
                0 <= i <= deps@.len(),
                entries@.len() == i,
                forall|j: int|
                    0 <= j < i ==> entry_matches(*res, #[trigger] entries@[j], deps@[j]@),
            decreases deps@.len() - i,
        {
            let d = &deps[i];
            let (r, t) = res.resolve_rpath(d.as_str());
            entries.push(DepEntry { reference: d.clone(), resolution: r, target: t });
            i = i + 1;
        }
        let rec = DepRecord { path: p, deps: entries };
        let ghost rs0 = self.records@;
        self.records.push(rec);
        proof {
            assert(self.records@.drop_last() =~= rs0);
            assert(seq_views(deps@).len() == deps@.len());
            assert(forall|j: int|
                0 <= j < deps@.len() ==> seq_views(deps@)[j] == (#[trigger] deps@[j])@);
        }
        let mut incoming = deps;
        self.queue.append(&mut incoming);
    }
}

/// An in-memory dependency table: canonical path to raw reference list.
/// It stands in for the dependency lister when the whole graph is known up
/// front, and lets the collection fixed point be computed — and proved —
/// without touching a binary.
pub struct DepTable {
    entries: Vec<(String, Vec<String>)>,
}

/// The map described by a table's entry list; a later entry for the same
/// path shadows an earlier one.
pub open spec fn table_map(es: Seq<(String, Vec<String>)>) -> Map<Seq<char>, Seq<Seq<char>>>
    decreases es.len(),
{
    if es.len() == 0 {
        Map::empty()
    } else {
        table_map(es.drop_last()).insert(es.last().0@, seq_views(es.last().1@))
    }
}

proof fn lemma_table_absent(es: Seq<(String, Vec<String>)>, k: Seq<char>)
    requires
        forall|i: int| 0 <= i < es.len() ==> (#[trigger] es[i]).0@ != k,
    ensures
        !table_map(es).contains_key(k),
    decreases es.len(),
{
    if es.len() > 0 {
        lemma_table_absent(es.drop_last(), k);
    }
}

proof fn lemma_table_found(es: Seq<(String, Vec<String>)>, k: Seq<char>, i: int)
    requires
        0 <= i < es.len(),
        es[i].0@ == k,
        forall|j: int| i < j < es.len() ==> (#[trigger] es[j]).0@ != k,
    ensures
        table_map(es).contains_key(k),
        table_map(es)[k] == seq_views(es[i].1@),
    decreases es.len(),
{
    if i < es.len() - 1 {
        lemma_table_found(es.drop_last(), k, i);
    }
}

/// A table's key set is the (finite) set of paths its entries carry.
proof fn lemma_table_dom(es: Seq<(String, Vec<String>)>)
    ensures
        table_map(es).dom() =~= es.map_values(|e: (String, Vec<String>)| e.0@).to_set(),
        table_map(es).dom().finite(),
    decreases es.len(),
{
    let keys = es.map_values(|e: (String, Vec<String>)| e.0@);
    seq_to_set_is_finite(keys);
    if es.len() == 0 {
        assert(keys.to_set() =~= Set::<Seq<char>>::empty()) by {
            if exists|x: Seq<char>| keys.to_set().contains(x) {
                let x = choose|x: Seq<char>| keys.to_set().contains(x);
                let i = choose|i: int| 0 <= i < keys.len() && keys[i] == x;
            }
        }
    } else {
        lemma_table_dom(es.drop_last());
        let kd = es.drop_last().map_values(|e: (String, Vec<String>)| e.0@);
        assert(kd =~= keys.drop_last());
        assert(keys.to_set() =~= kd.to_set().insert(es.last().0@)) by {
            assert forall|x: Seq<char>| keys.to_set().contains(x) implies kd.to_set().insert(
                es.last().0@,
            ).contains(x) by {
                let i = choose|i: int| 0 <= i < keys.len() && keys[i] == x;
                if i < kd.len() {
                    assert(kd[i] == x);
                }
            };
            assert forall|x: Seq<char>| kd.to_set().insert(es.last().0@).contains(x) implies keys
                .to_set().contains(x) by {
                if x == es.last().0@ {
                    assert(keys[keys.len() - 1] == x);
                } else {
                    let i = choose|i: int| 0 <= i < kd.len() && kd[i] == x;
                    assert(keys[i] == x);
                }
            };
        }
    }
}

impl View for DepTable {
    type V = Map<Seq<char>, Seq<Seq<char>>>;

    closed spec fn view(&self) -> Map<Seq<char>, Seq<Seq<char>>> {
        table_map(self.entries@)
    }
}

impl DepTable {
    /// An empty table.
    pub fn new() -> (r: Self)
        ensures
            r@ == Map::<Seq<char>, Seq<Seq<char>>>::empty(),
    {
        DepTable { entries: Vec::new() }
    }

    /// Record that the library at `path` lists exactly `deps`.
    pub fn insert(&mut self, path: String, deps: Vec<String>)
        ensures
            final(self)@ == old(self)@.insert(path@, seq_views(deps@)),
    {
        self.entries.push((path, deps));
        proof {
            assert(self.entries@.drop_last() =~= old(self).entries@);
        }
    }

    /// Look a canonical path up; the answer is exactly what the map view
    /// holds.
    pub fn get<'a>(&'a self, path: &str) -> (r: Option<&'a Vec<String>>)
        ensures
            match r {
                Some(d) => self@.contains_key(path@) && seq_views(d@) == self@[path@],
                None => !self@.contains_key(path@),
            },
    {
        let n = self.entries.len();
        let mut j: usize = n;
        while j > 0
            invariant
                n == self.entries@.len(),
                0 <= j <= n,
                forall|t: int| j <= t < n ==> (#[trigger] self.entries@[t]).0@ != path@,
            decreases j,
        {
            let e = &self.entries[j - 1];
            if str_eq(e.0.as_str(), path) {
                proof {
                    lemma_table_found(self.entries@, path@, j - 1);
                }
                return Some(&e.1);
            }
            j = j - 1;
        }
        proof {
            lemma_table_absent(self.entries@, path@);
        }
        None
    }

    /// The table's key set is finite (it came from a finite entry list).
    pub proof fn lemma_dom_finite(&self)
        ensures
            self@.dom().finite(),
    {
        lemma_table_dom(self.entries@);
    }
}

/// A reference occurs (by characters) in the worklist queue.
pub open spec fn in_queue(q: Seq<String>, r: Seq<char>) -> bool {
    exists|i: int| 0 <= i < q.len() && (#[trigger] q[i])@ == r
}

/// `reference` classifies to the expandable canonical path `p`.
pub open spec fn expands_to(res: Resolver, reference: Seq<char>, p: Seq<char>) -> bool {
    &&& res.spec_resolve(reference).0.spec_needs_expansion()
    &&& res.spec_resolve(reference).1 == p
}

/// `p` is discoverable from the roots in at most `n` expansion steps: it is
/// the expandable target of a root reference, or of a dependency reference
/// that the table lists for a library discoverable in fewer steps.
pub open spec fn reachable_within(
    res: Resolver,
    table: Map<Seq<char>, Seq<Seq<char>>>,
    roots: Seq<Seq<char>>,
    n: nat,
    p: Seq<char>,
) -> bool
    decreases n,
{
    ||| exists|i: int| 0 <= i < roots.len() && expands_to(res, #[trigger] roots[i], p)
    ||| (n > 0 && exists|q: Seq<char>, j: int|
        #![trigger table[q][j]]
        {
            &&& reachable_within(res, table, roots, (n - 1) as nat, q)
            &&& table.contains_key(q)
            &&& 0 <= j < table[q].len()
            &&& expands_to(res, table[q][j], p)
        })
}

/// `p` must be expanded by any faithful collection from the roots: the
/// closure of the roots under classification and the table's listings.
pub open spec fn reachable(
    res: Resolver,
    table: Map<Seq<char>, Seq<Seq<char>>>,
    roots: Seq<Seq<char>>,
    p: Seq<char>,
) -> bool {
    exists|n: nat| reachable_within(res, table, roots, n, p)
}

/// The finished record map: paths unique, every record's entries exactly
/// the table's reference list classified by the resolver, every expandable
/// root recorded, every expandable dependency of a recorded library
/// recorded in turn, and records only for paths actually discovered from
/// the roots — the collection fixed point.
pub open spec fn collection_complete(
    res: Resolver,
    table: Map<Seq<char>, Seq<Seq<char>>>,
    roots: Seq<String>,
    rs: Seq<DepRecord>,
) -> bool {
    &&& record_paths_unique(rs)
    &&& forall|i: int|
        0 <= i < rs.len() ==> table.contains_key((#[trigger] rs[i]).path@) && record_matches(
            res,
            rs[i],
            table[rs[i].path@],
        )
    &&& forall|i: int|
        0 <= i < roots.len() && res.spec_resolve(
            (#[trigger] roots[i])@,
        ).0.spec_needs_expansion() ==> has_record(rs, res.spec_resolve(roots[i]@).1)
    &&& forall|i: int, j: int|
        #![trigger rs[i].deps@[j]]
        0 <= i < rs.len() && 0 <= j < rs[i].deps@.len()
            && rs[i].deps@[j].resolution.spec_needs_expansion() ==> has_record(
            rs,
            rs[i].deps@[j].target@,
        )
    &&& forall|i: int|
        0 <= i < rs.len() ==> reachable(res, table, seq_views(roots), (#[trigger] rs[i]).path@)
}

/// Clone a list of reference strings; the clones read the same.
fn clone_strings(v: &Vec<String>) -> (r: Vec<String>)
    ensures
        seq_views(r@) == seq_views(v@),
{
    let mut r: Vec<String> = Vec::new();
    let mut i: usize = 0;
    while i < v.len()
        invariant
            0 <= i <= v@.len(),
            r@.len() == i,
            forall|j: int| 0 <= j < i ==> (#[trigger] r@[j])@ == v@[j]@,
        decreases v@.len() - i,
    {
        r.push(v[i].clone());
        i = i + 1;
    }
    proof {
        assert(seq_views(r@) =~= seq_views(v@));
    }
    r
}

impl Resolver {
    /// Walk the dependency graph from the sysroot binaries to a fixed
    /// point, classifying every reference and recording each expandable
    /// canonical path exactly once.  `table` plays the dependency lister:
    /// it gives each canonical path's raw reference list.  An expandable
    /// path absent from the table is the error case — a library already
    /// classified as present must be listable.
    ///
    /// Termination is proved: each expansion consumes one table key, so
    /// reference cycles between libraries cannot make the walk loop.
    pub fn collect_deps(&self, table: &DepTable) -> (result: Result<Vec<DepRecord>, String>)
        ensures
            match result {
                Ok(records) => collection_complete(
                    *self,
                    table@,
                    self.sysroot_dylibs@,
                    records@,
                ),
                Err(p) => !table@.contains_key(p@) && reachable(
                    *self,
                    table@,
                    seq_views(self.sysroot_dylibs@),
                    p@,
                ),
            },
    {
        let roots = clone_strings(&self.sysroot_dylibs);
        let ghost rts = self.sysroot_dylibs@;
        let ghost rvs = seq_views(rts);
        let mut col = Collector::new(roots);
        proof {
            table.lemma_dom_finite();
            assert(seq_views(col.queue@) == seq_views(rts));
            assert(seq_views(col.queue@).len() == col.queue@.len());
            assert(seq_views(rts).len() == rts.len());
            assert forall|i: int| 0 <= i < rts.len() implies in_queue(col.queue@, rts[i]@) by {
                assert(seq_views(col.queue@)[i] == seq_views(rts)[i]);
                assert(seq_views(col.queue@)[i] == col.queue@[i]@);
                assert(seq_views(rts)[i] == rts[i]@);
                assert(col.queue@[i]@ == rts[i]@);
            };
            assert forall|qi: int|
                0 <= qi < col.queue@.len() && self.spec_resolve(
                    (#[trigger] col.queue@[qi])@,
                ).0.spec_needs_expansion() implies reachable(
                *self,
                table@,
                rvs,
                self.spec_resolve(col.queue@[qi]@).1,
            ) by {
                let p = self.spec_resolve(col.queue@[qi]@).1;
                assert(rvs[qi] == rts[qi]@);
                assert(col.queue@[qi]@ == rvs[qi]);
                assert(expands_to(*self, rvs[qi], p));
                assert(reachable_within(*self, table@, rvs, 0, p));
            };
        }
        loop
            invariant
                rts == self.sysroot_dylibs@,
                rvs == seq_views(rts),
                col.pending is None,
                record_paths_unique(col.records@),
                table@.dom().finite(),
                forall|qi: int|
                    0 <= qi < col.queue@.len() && self.spec_resolve(
                        (#[trigger] col.queue@[qi])@,
                    ).0.spec_needs_expansion() ==> reachable(
                        *self,
                        table@,
                        rvs,
                        self.spec_resolve(col.queue@[qi]@).1,
                    ),
                forall|i: int|
                    0 <= i < col.records@.len() ==> reachable(
                        *self,
                        table@,
                        rvs,
                        (#[trigger] col.records@[i]).path@,
                    ),
                forall|i: int|
                    0 <= i < col.records@.len() ==> table@.contains_key(
                        (#[trigger] col.records@[i]).path@,
                    ) && record_matches(*self, col.records@[i], table@[col.records@[i].path@]),
                forall|i: int, j: int|
                    #![trigger col.records@[i].deps@[j]]
                    0 <= i < col.records@.len() && 0 <= j < col.records@[i].deps@.len()
                        && col.records@[i].deps@[j].resolution.spec_needs_expansion() ==> (
                    has_record(col.records@, col.records@[i].deps@[j].target@) || in_queue(
                        col.queue@,
                        col.records@[i].deps@[j].reference@,
                    )),
                forall|i: int|
                    0 <= i < rts.len() && self.spec_resolve(
                        (#[trigger] rts[i])@,
                    ).0.spec_needs_expansion() ==> (has_record(
                        col.records@,
                        self.spec_resolve(rts[i]@).1,
                    ) || in_queue(col.queue@, rts[i]@)),
            decreases table@.dom().difference(recorded_paths(col.records@)).len(),
        {
            let ghost col0 = col;
            let req = col.next_request(self);
            match req {
                None => {
                    proof {
                        assert forall|i: int, j: int|
                            #![trigger col.records@[i].deps@[j]]
                            0 <= i < col.records@.len() && 0 <= j < col.records@[i].deps@.len()
                                && col.records@[i].deps@[j].resolution.spec_needs_expansion()
                            implies has_record(
                            col.records@,
                            col.records@[i].deps@[j].target@,
                        ) by {
                            let e = col.records@[i].deps@[j];
                            if in_queue(col0.queue@, e.reference@) {
                                let qi = choose|qi: int|
                                    0 <= qi < col0.queue@.len() && (#[trigger] col0.queue@[qi])@
                                        == e.reference@;
                                assert(skippable(*self, col0.records@, col0.queue@[qi]@));
                                assert(entry_matches(
                                    *self,
                                    e,
                                    table@[col.records@[i].path@][j],
                                ));
                            }
                        };
                        assert forall|i: int|
                            0 <= i < rts.len() && self.spec_resolve(
                                (#[trigger] rts[i])@,
                            ).0.spec_needs_expansion() implies has_record(
                            col.records@,
                            self.spec_resolve(rts[i]@).1,
                        ) by {
                            if in_queue(col0.queue@, rts[i]@) {
                                let qi = choose|qi: int|
                                    0 <= qi < col0.queue@.len() && (#[trigger] col0.queue@[qi])@
                                        == rts[i]@;
                                assert(skippable(*self, col0.records@, col0.queue@[qi]@));
                            }
                        };
                    }
                    return Ok(col.records);
                },
                Some(p) => {
                    proof {
                        let ii = choose|i: int|
                            #![trigger col0.queue@[i]]
                            {
                                &&& 0 <= i < col0.queue@.len()
                                &&& self.spec_resolve(
                                    col0.queue@[i]@,
                                ).0.spec_needs_expansion()
                                &&& self.spec_resolve(col0.queue@[i]@).1 == p@
                                &&& !has_record(col0.records@, p@)
                                &&& forall|j: int|
                                    0 <= j < i ==> skippable(
                                        *self,
                                        col0.records@,
                                        (#[trigger] col0.queue@[j])@,
                                    )
                                &&& col.queue@ == col0.queue@.skip(i + 1)
                            };
                        assert(self.spec_resolve(col0.queue@[ii]@).0.spec_needs_expansion());
                        assert(reachable(*self, table@, rvs, p@));
                    }
                    match table.get(p.as_str()) {
                        None => {
                            return Err(p);
                        },
                        Some(d) => {
                            let deps = clone_strings(d);
                            let ghost dv = deps@;
                            let ghost col1 = col;
                            col.provide_deps(self, deps);
                            proof {
                                lemma_collect_step(
                                    *self,
                                    table@,
                                    rts,
                                    col0,
                                    col1,
                                    col,
                                    p@,
                                    dv,
                                );
                            }
                        },
                    }
                },
            }
        }
    }
}

/// One expansion step of the worklist preserves every collection invariant
/// and strictly shrinks the set of table keys not yet recorded.
proof fn lemma_collect_step(
    res: Resolver,
    table: Map<Seq<char>, Seq<Seq<char>>>,
    rts: Seq<String>,
    col0: Collector,
    col1: Collector,
    col2: Collector,
    p: Seq<char>,
    dv: Seq<String>,
)
    requires
        table.dom().finite(),
        // state before the request
        col0.pending is None,
        record_paths_unique(col0.records@),
        forall|i: int|
            0 <= i < col0.records@.len() ==> table.contains_key(
                (#[trigger] col0.records@[i]).path@,
            ) && record_matches(res, col0.records@[i], table[col0.records@[i].path@]),
        forall|i: int, j: int|
            #![trigger col0.records@[i].deps@[j]]
            0 <= i < col0.records@.len() && 0 <= j < col0.records@[i].deps@.len()
                && col0.records@[i].deps@[j].resolution.spec_needs_expansion() ==> (has_record(
                col0.records@,
                col0.records@[i].deps@[j].target@,
            ) || in_queue(col0.queue@, col0.records@[i].deps@[j].reference@)),
        forall|i: int|
            0 <= i < rts.len() && res.spec_resolve(
                (#[trigger] rts[i])@,
            ).0.spec_needs_expansion() ==> (has_record(col0.records@, res.spec_resolve(rts[i]@).1)
                || in_queue(col0.queue@, rts[i]@)),
        forall|qi: int|
            0 <= qi < col0.queue@.len() && res.spec_resolve(
                (#[trigger] col0.queue@[qi])@,
            ).0.spec_needs_expansion() ==> reachable(
                res,
                table,
                seq_views(rts),
                res.spec_resolve(col0.queue@[qi]@).1,
            ),
        forall|i: int|
            0 <= i < col0.records@.len() ==> reachable(
                res,
                table,
                seq_views(rts),
                (#[trigger] col0.records@[i]).path@,
            ),
        // effect of the request
        col1.records@ == col0.records@,
        !has_record(col1.records@, p),
        request_found(col0, col1, res, p),
        // effect of the answer
        table.contains_key(p),
        table[p] == seq_views(dv),
        col2.pending is None,
        col2.queue@ == col1.queue@ + dv,
        col2.records@.len() == col1.records@.len() + 1,
        col2.records@.drop_last() == col1.records@,
        col2.records@.last().path@ == p,
        record_matches(res, col2.records@.last(), seq_views(dv)),
    ensures
        record_paths_unique(col2.records@),
        forall|i: int|
            0 <= i < col2.records@.len() ==> table.contains_key(
                (#[trigger] col2.records@[i]).path@,
            ) && record_matches(res, col2.records@[i], table[col2.records@[i].path@]),
        forall|i: int, j: int|
            #![trigger col2.records@[i].deps@[j]]
            0 <= i < col2.records@.len() && 0 <= j < col2.records@[i].deps@.len()
                && col2.records@[i].deps@[j].resolution.spec_needs_expansion() ==> (has_record(
                col2.records@,
                col2.records@[i].deps@[j].target@,
            ) || in_queue(col2.queue@, col2.records@[i].deps@[j].reference@)),
        forall|i: int|
            0 <= i < rts.len() && res.spec_resolve(
                (#[trigger] rts[i])@,
            ).0.spec_needs_expansion() ==> (has_record(col2.records@, res.spec_resolve(rts[i]@).1)
                || in_queue(col2.queue@, rts[i]@)),
        forall|qi: int|
            0 <= qi < col2.queue@.len() && res.spec_resolve(
                (#[trigger] col2.queue@[qi])@,
            ).0.spec_needs_expansion() ==> reachable(
                res,
                table,
                seq_views(rts),
                res.spec_resolve(col2.queue@[qi]@).1,
            ),
        forall|i: int|
            0 <= i < col2.records@.len() ==> reachable(
                res,
                table,
                seq_views(rts),
                (#[trigger] col2.records@[i]).path@,
            ),
        table.dom().difference(recorded_paths(col2.records@)).len() < table.dom().difference(
            recorded_paths(col0.records@),
        ).len(),
{
    let rs0 = col0.records@;
    let rs2 = col2.records@;
    let rec = rs2.last();
    let n0 = rs0.len() as int;
    assert(rs2 =~= rs0.push(rec));
    let ii = choose|i: int|
        #![trigger col0.queue@[i]]
        {
            &&& 0 <= i < col0.queue@.len()
            &&& res.spec_resolve(col0.queue@[i]@).0.spec_needs_expansion()
            &&& res.spec_resolve(col0.queue@[i]@).1 == p
            &&& !has_record(col0.records@, p)
            &&& forall|j: int|
                0 <= j < i ==> skippable(res, col0.records@, (#[trigger] col0.queue@[j])@)
            &&& col1.queue@ == col0.queue@.skip(i + 1)
        };

    // uniqueness: the new path was unrecorded
    assert forall|i: int, j: int| 0 <= i < j < rs2.len() implies (#[trigger] rs2[i]).path@ != (
    #[trigger] rs2[j]).path@ by {
        if j == n0 {
            if rs2[i].path@ == p {
                assert(rs0[i].path@ == p);
                assert(has_record(rs0, p));
            }
        }
    };

    // soundness of every record against the table
    assert forall|i: int| 0 <= i < rs2.len() implies table.contains_key(
        (#[trigger] rs2[i]).path@,
    ) && record_matches(res, rs2[i], table[rs2[i].path@]) by {
        if i < n0 {
            assert(rs2[i] == rs0[i]);
        } else {
            assert(rs2[i] == rec);
        }
    };

    // every expandable dependency is recorded or still queued
    assert forall|i: int, j: int|
        #![trigger rs2[i].deps@[j]]
        0 <= i < rs2.len() && 0 <= j < rs2[i].deps@.len()
            && rs2[i].deps@[j].resolution.spec_needs_expansion() implies (has_record(
        rs2,
        rs2[i].deps@[j].target@,
    ) || in_queue(col2.queue@, rs2[i].deps@[j].reference@)) by {
        let e = rs2[i].deps@[j];
        if i < n0 {
            assert(rs2[i] == rs0[i]);
            assert(entry_matches(res, e, table[rs0[i].path@][j]));
            assert(e.resolution == res.spec_resolve(e.reference@).0);
            assert(e.target@ == res.spec_resolve(e.reference@).1);
            if has_record(rs0, e.target@) {
                lemma_has_record_push(rs0, rec, e.target@);
            } else {
                let qi = choose|qi: int|
                    0 <= qi < col0.queue@.len() && (#[trigger] col0.queue@[qi])@ == e.reference@;
                if qi < ii {
                    assert(skippable(res, rs0, col0.queue@[qi]@));
                    assert(has_record(rs0, e.target@));
                } else if qi == ii {
                    assert(e.target@ == p);
                    lemma_has_record_push(rs0, rec, p);
                } else {
                    assert(col1.queue@[qi - ii - 1] == col0.queue@[qi]);
                    assert(col2.queue@[qi - ii - 1] == col1.queue@[qi - ii - 1]);
                    assert(in_queue(col2.queue@, e.reference@));
                }
            }
        } else {
            assert(rs2[i] == rec);
            assert(entry_matches(res, e, seq_views(dv)[j]));
            assert(e.reference@ == dv[j]@);
            assert(col2.queue@[col1.queue@.len() + j] == dv[j]);
            assert(in_queue(col2.queue@, e.reference@));
        }
    };

    // every expandable root is recorded or still queued
    assert forall|i: int|
        0 <= i < rts.len() && res.spec_resolve(
            (#[trigger] rts[i])@,
        ).0.spec_needs_expansion() implies (has_record(rs2, res.spec_resolve(rts[i]@).1)
        || in_queue(col2.queue@, rts[i]@)) by {
        let c = res.spec_resolve(rts[i]@);
        if has_record(rs0, c.1) {
            lemma_has_record_push(rs0, rec, c.1);
        } else {
            let qi = choose|qi: int|
                0 <= qi < col0.queue@.len() && (#[trigger] col0.queue@[qi])@ == rts[i]@;
            if qi < ii {
                assert(skippable(res, rs0, col0.queue@[qi]@));
                assert(has_record(rs0, c.1));
            } else if qi == ii {
                assert(c.1 == p);
                lemma_has_record_push(rs0, rec, p);
            } else {
                assert(col1.queue@[qi - ii - 1] == col0.queue@[qi]);
                assert(col2.queue@[qi - ii - 1] == col1.queue@[qi - ii - 1]);
                assert(in_queue(col2.queue@, rts[i]@));
            }
        }
    };

    // every record's path stays a discovered one: the old records were
    // already discovered, and the new one is the requested path itself
    let rvs = seq_views(rts);
    assert(res.spec_resolve(col0.queue@[ii]@).0.spec_needs_expansion());
    assert(reachable(res, table, rvs, p));
    assert forall|i: int| 0 <= i < rs2.len() implies reachable(
        res,
        table,
        rvs,
        (#[trigger] rs2[i]).path@,
    ) by {
        if i < n0 {
            assert(rs2[i] == rs0[i]);
        } else {
            assert(rs2[i].path@ == p);
        }
    };

    // queued references keep discovered targets: the untouched suffix by
    // the old witnesses, the appended ones as listings of `p`
    let nr = choose|n: nat| reachable_within(res, table, rvs, n, p);
    assert forall|qi: int|
        0 <= qi < col2.queue@.len() && res.spec_resolve(
            (#[trigger] col2.queue@[qi])@,
        ).0.spec_needs_expansion() implies reachable(
        res,
        table,
        rvs,
        res.spec_resolve(col2.queue@[qi]@).1,
    ) by {
        if qi < col1.queue@.len() {
            assert(col2.queue@[qi] == col1.queue@[qi]);
            assert(col1.queue@[qi] == col0.queue@[qi + ii + 1]);
        } else {
            let j = qi - col1.queue@.len();
            assert(col2.queue@[qi] == dv[j]);
            let p2 = res.spec_resolve(dv[j]@).1;
            assert(table[p][j] == dv[j]@) by {
                assert(seq_views(dv)[j] == dv[j]@);
            }
            assert(expands_to(res, table[p][j], p2));
            assert(reachable_within(res, table, rvs, nr + 1, p2)) by {
                assert(((nr + 1) as nat - 1) as nat == nr);
            }
            assert(reachable(res, table, rvs, p2));
        }
    };

    // the unrecorded table keys strictly shrink
    lemma_recorded_paths_push(rs0, rec);
    lemma_recorded_paths_agree(rs0, p);
    let before = table.dom().difference(recorded_paths(rs0));
    let after = table.dom().difference(recorded_paths(rs2));
    assert(after =~= before.remove(p));
    assert(before.contains(p));
    seq_to_set_is_finite(rs0.map_values(|r: DepRecord| r.path@));
    vstd::set::axiom_set_difference_finite(table.dom(), recorded_paths(rs0));
    vstd::set::axiom_set_remove_len(before, p);
}

} // verus!
