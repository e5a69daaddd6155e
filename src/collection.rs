use crate::distance::{DimensionMismatch, Distance};
use crate::vector::Vector;
use std::collections::HashSet;
use vstd::prelude::*;

verus! {

broadcast use vstd::std_specs::hash::group_hash_axioms;

/// An identifier paired with a vector: the unit of ingestion.
#[derive(Debug, Clone)]
pub struct Record {
    pub id: u64,
    pub vector: Vector,
}

impl View for Record {
    type V = (u64, Seq<i32>);

    open spec fn view(&self) -> (u64, Seq<i32>) {
        (self.id, self.vector@)
    }
}

impl Record {
    /// Pairs `id` with `vector`.
    pub fn new(id: u64, vector: Vector) -> (r: Record)
        ensures
            r@ == (id, vector@),
    {
        Record { id, vector }
    }
}

/// What a collection is built with.
#[derive(Debug, Clone, Copy, PartialEq, Eq, Structural)]
pub struct Config {
    pub distance: Distance,
}

impl Config {
    /// A configuration that ranks by `distance`.
    pub fn new(distance: Distance) -> (r: Config)
        ensures
            r.distance == distance,
    {
        Config { distance }
    }
}

impl Default for Config {
    /// Ranks by Euclidean distance.
    fn default() -> (r: Config)
        ensures
            r.distance == Distance::Euclidean,
    {
        Config { distance: Distance::Euclidean }
    }
}

/// Why a batch of records was refused.
#[derive(Debug, Clone, Copy, PartialEq, Eq, Structural)]
pub enum BuildError {
    /// The batch holds no record.
    EmptyBatch,
    /// The record with this identifier has a vector without components.
    EmptyVector { id: u64 },
    /// The record with this identifier has another length than the first record.
    InconsistentDimensionality { id: u64, expected: usize, found: usize },
    /// An earlier record of the batch has the same identifier.
    DuplicateIdentifier { id: u64 },
}

/// One neighbour found by a search: a record's identifier and its score.
#[derive(Debug, Clone, Copy, PartialEq, Eq, Structural)]
pub struct SearchResult {
    pub id: u64,
    pub distance: u128,
}

/// The fault of the record at `i` of a batch, checked in this order: an
/// empty vector, a length other than the first record's, an identifier that
/// an earlier record has.
pub open spec fn fault_at(recs: Seq<(u64, Seq<i32>)>, i: int) -> Option<BuildError> {
    if recs[i].1.len() == 0 {
        Some(BuildError::EmptyVector { id: recs[i].0 })
    } else if recs[i].1.len() != recs[0].1.len() {
        Some(
            BuildError::InconsistentDimensionality {
                id: recs[i].0,
                expected: recs[0].1.len() as usize,
                found: recs[i].1.len() as usize,
            },
        )
    } else if exists|j: int| 0 <= j < i && recs[j].0 == recs[i].0 {
        Some(BuildError::DuplicateIdentifier { id: recs[i].0 })
    } else {
        None
    }
}

/// A batch that builds: not empty, and no record has a fault.
pub open spec fn valid_batch(recs: Seq<(u64, Seq<i32>)>) -> bool {
    &&& recs.len() > 0
    &&& forall|i: int| 0 <= i < recs.len() ==> fault_at(recs, i).is_none()
}

/// The identifiers of a batch are pairwise distinct.
pub open spec fn distinct_ids(recs: Seq<(u64, Seq<i32>)>) -> bool {
    forall|i: int, j: int| 0 <= i < j < recs.len() ==> recs[i].0 != recs[j].0
}

/// The error that `build` reports for a batch: none for a valid batch,
/// otherwise the fault of the first faulty record.
pub open spec fn batch_error(recs: Seq<(u64, Seq<i32>)>, e: BuildError) -> bool {
    if recs.len() == 0 {
        e == BuildError::EmptyBatch
    } else {
        exists|i: int|
            0 <= i < recs.len() && fault_at(recs, i) == Some(e) && forall|j: int|
                0 <= j < i ==> fault_at(recs, j).is_none()
    }
}

/// `a` ranks before `b`: a smaller score, or an equal score and a smaller identifier.
pub open spec fn precedes(a: SearchResult, b: SearchResult) -> bool {
    a.distance < b.distance || (a.distance == b.distance && a.id < b.id)
}

/// Every result of `r` ranks before every later one.
pub open spec fn strictly_ranked(r: Seq<SearchResult>) -> bool {
    forall|s: int, t: int| 0 <= s < t < r.len() ==> precedes(r[s], r[t])
}

/// Whether `a` ranks before `b`.
pub fn ranks_before(a: &SearchResult, b: &SearchResult) -> (r: bool)
    ensures
        r == precedes(*a, *b),
{
    a.distance < b.distance || (a.distance == b.distance && a.id < b.id)
}

/// Inserts `e` into `ranked` at its place in the ranking and returns that place.
fn insert_ranked(ranked: &mut Vec<SearchResult>, e: SearchResult) -> (p: usize)
    requires
        strictly_ranked(old(ranked)@),
        !old(ranked)@.contains(e),
    ensures
        p <= old(ranked)@.len(),
        final(ranked)@ == old(ranked)@.insert(p as int, e),
        forall|t: int| 0 <= t < p ==> precedes(old(ranked)@[t], e),
        forall|t: int| p <= t < old(ranked)@.len() ==> precedes(e, old(ranked)@[t]),
        strictly_ranked(final(ranked)@),
{
    let mut p: usize = 0;
    while p < ranked.len() && ranks_before(&ranked[p], &e)
        invariant
            p <= ranked@.len(),
            forall|t: int| 0 <= t < p ==> precedes(ranked@[t], e),
        decreases ranked@.len() - p,
    {
        p = p + 1;
    }
    let ghost before = ranked@;
    proof {
        if p < before.len() {
            assert(before[p as int] != e);
            assert(precedes(e, before[p as int]));
            assert forall|t: int| p <= t < before.len() implies precedes(e, before[t]) by {
                if t > p {
                    assert(precedes(before[p as int], before[t]));
                }
            }
        }
    }
    ranked.insert(p, e);
    proof {
        let after = ranked@;
        assert forall|s: int, t: int| 0 <= s < t < after.len() implies precedes(
            after[s],
            after[t],
        ) by {
            if t < p {
                assert(precedes(before[s], before[t]));
            } else if t == p {
                assert(precedes(before[s], e));
            } else if s < p {
                assert(precedes(before[s], e));
                assert(precedes(e, before[t - 1]));
            } else if s == p {
                assert(precedes(e, before[t - 1]));
            } else {
                assert(precedes(before[s - 1], before[t - 1]));
            }
        }
    }
    p
}

/// The search result that a stored record gives for `query`.
pub open spec fn entry(rec: (u64, Seq<i32>), d: Distance, query: Seq<i32>) -> SearchResult {
    SearchResult { id: rec.0, distance: d.spec_score(rec.1, query) as u128 }
}

/// `r` is, in ranking order, the `min(k, n)` best results among the first
/// `n` records of `recs`.
pub open spec fn ranked_prefix(
    recs: Seq<(u64, Seq<i32>)>,
    n: int,
    d: Distance,
    query: Seq<i32>,
    k: nat,
    r: Seq<SearchResult>,
) -> bool {
    &&& r.len() == if k < n { k as int } else { n }
    &&& forall|s: int, t: int| 0 <= s < t < r.len() ==> precedes(r[s], r[t])
    &&& forall|t: int|
        #![trigger r[t]]
        0 <= t < r.len() ==> exists|i: int|
            #![trigger recs[i]]
            0 <= i < n && r[t] == entry(recs[i], d, query)
    &&& forall|i: int|
        0 <= i < n ==> r.contains(entry(recs[i], d, query)) || (r.len() == k && forall|t: int|
            0 <= t < r.len() ==> precedes(r[t], entry(recs[i], d, query)))
    &&& n <= k ==> forall|i: int| 0 <= i < n ==> r.contains(entry(recs[i], d, query))
}

/// `r` is, in ranking order, the `min(k, N)` records of `recs` nearest to
/// `query` under `d`, ties broken by ascending identifier.
pub open spec fn nearest(
    recs: Seq<(u64, Seq<i32>)>,
    d: Distance,
    query: Seq<i32>,
    k: nat,
    r: Seq<SearchResult>,
) -> bool {
    ranked_prefix(recs, recs.len() as int, d, query, k, r)
}

/// Admitting the next record into a ranking that is not yet full.
proof fn lemma_ranked_grow(
    recs: Seq<(u64, Seq<i32>)>,
    d: Distance,
    q: Seq<i32>,
    k: nat,
    i: int,
    r0: Seq<SearchResult>,
    r1: Seq<SearchResult>,
    p: int,
)
    requires
        0 <= i < recs.len(),
        ranked_prefix(recs, i, d, q, k, r0),
        r0.len() < k,
        0 <= p <= r0.len(),
        r1 == r0.insert(p, entry(recs[i], d, q)),
        strictly_ranked(r1),
    ensures
        ranked_prefix(recs, i + 1, d, q, k, r1),
{
    let e = entry(recs[i], d, q);
    assert(r1[p] == e);
    assert forall|x: SearchResult| r0.contains(x) implies r1.contains(x) by {
        let t = choose|t: int| 0 <= t < r0.len() && r0[t] == x;
        if t < p {
            assert(r1[t] == x);
        } else {
            assert(r1[t + 1] == x);
        }
    }
    assert forall|t: int| #![trigger r1[t]] 0 <= t < r1.len() implies exists|j: int|
        #![trigger recs[j]]
        0 <= j < i + 1 && r1[t] == entry(recs[j], d, q) by {
        if t < p {
            assert(r1[t] == r0[t]);
        } else if t == p {
            assert(r1[t] == entry(recs[i], d, q));
        } else {
            assert(r1[t] == r0[t - 1]);
        }
    }
    assert forall|j: int| 0 <= j < i + 1 implies r1.contains(entry(recs[j], d, q)) by {
        if j < i {
            assert(r0.contains(entry(recs[j], d, q)));
        }
    }
}

/// Admitting the next record into a full ranking, which drops its last result.
proof fn lemma_ranked_replace(
    recs: Seq<(u64, Seq<i32>)>,
    d: Distance,
    q: Seq<i32>,
    k: nat,
    i: int,
    r0: Seq<SearchResult>,
    ins: Seq<SearchResult>,
    r1: Seq<SearchResult>,
    p: int,
)
    requires
        0 <= i < recs.len(),
        ranked_prefix(recs, i, d, q, k, r0),
        r0.len() >= k,
        r0.len() > 0,
        precedes(entry(recs[i], d, q), r0[r0.len() - 1]),
        0 <= p <= r0.len(),
        forall|t: int| 0 <= t < p ==> precedes(r0[t], entry(recs[i], d, q)),
        ins == r0.insert(p, entry(recs[i], d, q)),
        strictly_ranked(ins),
        r1 == ins.subrange(0, r0.len() as int),
    ensures
        ranked_prefix(recs, i + 1, d, q, k, r1),
{
    let e = entry(recs[i], d, q);
    let n = r0.len() as int;
    let last = r0[n - 1];
    assert(p < n) by {
        if p == n {
            assert(precedes(r0[n - 1], e));
        }
    }
    assert(r1[p] == e);
    assert forall|t: int| 0 <= t < n implies #[trigger] precedes(r1[t], last) by {
        if t < p {
            assert(r1[t] == r0[t]);
            assert(precedes(r0[t], r0[n - 1]));
        } else if t > p {
            assert(r1[t] == r0[t - 1]);
            assert(precedes(r0[t - 1], r0[n - 1]));
        }
    }
    assert forall|s: int, t: int| 0 <= s < t < r1.len() implies precedes(r1[s], r1[t]) by {
        assert(r1[s] == ins[s] && r1[t] == ins[t]);
    }
    assert forall|t: int| #![trigger r1[t]] 0 <= t < r1.len() implies exists|j: int|
        #![trigger recs[j]]
        0 <= j < i + 1 && r1[t] == entry(recs[j], d, q) by {
        if t < p {
            assert(r1[t] == r0[t]);
        } else if t == p {
            assert(r1[t] == entry(recs[i], d, q));
        } else {
            assert(r1[t] == r0[t - 1]);
        }
    }
    assert forall|j: int| 0 <= j < i + 1 implies r1.contains(entry(recs[j], d, q)) || (r1.len()
        == k && forall|t: int|
        0 <= t < r1.len() ==> precedes(r1[t], entry(recs[j], d, q))) by {
        let x = entry(recs[j], d, q);
        if j < i {
            if r0.contains(x) {
                let t0 = choose|t: int| 0 <= t < r0.len() && r0[t] == x;
                if t0 < p {
                    assert(r1[t0] == x);
                } else if t0 < n - 1 {
                    assert(r1[t0 + 1] == x);
                } else {
                    assert(x == last);
                }
            } else {
                assert forall|t: int| 0 <= t < r1.len() implies precedes(r1[t], x) by {
                    assert(precedes(r1[t], last));
                    assert(precedes(last, x));
                }
            }
        }
    }
}

/// Passing over the next record, which ranks after every result of a full ranking.
proof fn lemma_ranked_skip(
    recs: Seq<(u64, Seq<i32>)>,
    d: Distance,
    q: Seq<i32>,
    k: nat,
    i: int,
    r0: Seq<SearchResult>,
)
    requires
        0 <= i < recs.len(),
        ranked_prefix(recs, i, d, q, k, r0),
        r0.len() >= k,
        r0.len() == 0 || !precedes(entry(recs[i], d, q), r0[r0.len() - 1]),
        !r0.contains(entry(recs[i], d, q)),
    ensures
        ranked_prefix(recs, i + 1, d, q, k, r0),
{
    let e = entry(recs[i], d, q);
    let n = r0.len() as int;
    if n > 0 {
        assert(r0[n - 1] != e);
        assert forall|t: int| 0 <= t < n implies precedes(r0[t], e) by {
            if t < n - 1 {
                assert(precedes(r0[t], r0[n - 1]));
            }
        }
    }
    assert forall|t: int| #![trigger r0[t]] 0 <= t < r0.len() implies exists|j: int|
        #![trigger recs[j]]
        0 <= j < i + 1 && r0[t] == entry(recs[j], d, q) by {
        let j = choose|j: int| 0 <= j < i && r0[t] == entry(recs[j], d, q);
        assert(0 <= j < i + 1 && r0[t] == entry(recs[j], d, q));
    }
}

/// Neither of two rankings that agree on their first `m` results ranks its
/// result at `m` before the other's.
proof fn lemma_first_difference(
    recs: Seq<(u64, Seq<i32>)>,
    d: Distance,
    q: Seq<i32>,
    k: nat,
    r1: Seq<SearchResult>,
    r2: Seq<SearchResult>,
    m: int,
)
    requires
        nearest(recs, d, q, k, r1),
        nearest(recs, d, q, k, r2),
        0 <= m < r1.len(),
        forall|s: int| 0 <= s < m ==> r1[s] == r2[s],
    ensures
        !precedes(r1[m], r2[m]),
{
    let x = r1[m];
    if precedes(x, r2[m]) {
        let i = choose|i: int| 0 <= i < recs.len() && x == entry(recs[i], d, q);
        if r2.contains(x) {
            let s = choose|s: int| 0 <= s < r2.len() && r2[s] == x;
            if s < m {
                assert(r1[s] == x);
                assert(precedes(r1[s], r1[m]));
            } else if s > m {
                assert(precedes(r2[m], r2[s]));
            }
        } else {
            assert(precedes(r2[m], x));
        }
    }
}

/// Rankings that agree on their first `m` results.
proof fn lemma_nearest_prefix(
    recs: Seq<(u64, Seq<i32>)>,
    d: Distance,
    q: Seq<i32>,
    k: nat,
    r1: Seq<SearchResult>,
    r2: Seq<SearchResult>,
    m: int,
)
    requires
        nearest(recs, d, q, k, r1),
        nearest(recs, d, q, k, r2),
        0 <= m <= r1.len(),
    ensures
        forall|s: int| 0 <= s < m ==> r1[s] == r2[s],
    decreases m,
{
    if m > 0 {
        lemma_nearest_prefix(recs, d, q, k, r1, r2, m - 1);
        lemma_first_difference(recs, d, q, k, r1, r2, m - 1);
        lemma_first_difference(recs, d, q, k, r2, r1, m - 1);
    }
}

/// The answer to a query is determined by the records, the metric, the
/// query and `k`: two collections built from the same batch and
/// configuration return the same results, in the same order, with the same
/// scores.
pub proof fn lemma_nearest_unique(
    recs: Seq<(u64, Seq<i32>)>,
    d: Distance,
    query: Seq<i32>,
    k: nat,
    r1: Seq<SearchResult>,
    r2: Seq<SearchResult>,
)
    requires
        nearest(recs, d, query, k, r1),
        nearest(recs, d, query, k, r2),
    ensures
        r1 == r2,
{
    lemma_nearest_prefix(recs, d, query, k, r1, r2, r1.len() as int);
    assert(r1 =~= r2);
}

/// Every record's identifier appears in a full search.
proof fn lemma_full_search_has_every_id(
    recs: Seq<(u64, Seq<i32>)>,
    d: Distance,
    query: Seq<i32>,
    k: nat,
    r: Seq<SearchResult>,
    i: int,
)
    requires
        nearest(recs, d, query, k, r),
        k >= recs.len(),
        0 <= i < recs.len(),
    ensures
        exists|t: int| 0 <= t < r.len() && #[trigger] r[t].id == recs[i].0,
{
    let x = entry(recs[i], d, query);
    assert(r.contains(x));
    let t = choose|t: int| 0 <= t < r.len() && r[t] == x;
    assert(r[t].id == recs[i].0);
}

/// Every identifier of a search result is a record's.
proof fn lemma_search_ids_stored(
    recs: Seq<(u64, Seq<i32>)>,
    d: Distance,
    query: Seq<i32>,
    k: nat,
    r: Seq<SearchResult>,
    t: int,
)
    requires
        nearest(recs, d, query, k, r),
        0 <= t < r.len(),
    ensures
        exists|i: int| 0 <= i < recs.len() && r[t].id == #[trigger] recs[i].0,
{
    let i = choose|i: int| 0 <= i < recs.len() && r[t] == entry(recs[i], d, query);
    assert(r[t].id == recs[i].0);
}

/// No identifier appears twice in a search over distinct identifiers.
proof fn lemma_search_ids_distinct(
    recs: Seq<(u64, Seq<i32>)>,
    d: Distance,
    query: Seq<i32>,
    k: nat,
    r: Seq<SearchResult>,
    s: int,
    t: int,
)
    requires
        distinct_ids(recs),
        nearest(recs, d, query, k, r),
        0 <= s < t < r.len(),
    ensures
        r[s].id != r[t].id,
{
    let i = choose|i: int| 0 <= i < recs.len() && r[s] == entry(recs[i], d, query);
    let j = choose|j: int| 0 <= j < recs.len() && r[t] == entry(recs[j], d, query);
    assert(precedes(r[s], r[t]));
    assert(i != j);
    if i < j {
        assert(recs[i].0 != recs[j].0);
    } else {
        assert(recs[j].0 != recs[i].0);
    }
}

/// A search with `k` at least the number of records returns every record
/// exactly once: as many results as records, each record's identifier among
/// them, and no identifier twice.
pub proof fn lemma_nearest_covers_all(
    recs: Seq<(u64, Seq<i32>)>,
    d: Distance,
    query: Seq<i32>,
    k: nat,
    r: Seq<SearchResult>,
)
    requires
        valid_batch(recs),
        nearest(recs, d, query, k, r),
        k >= recs.len(),
    ensures
        r.len() == recs.len(),
        forall|i: int|
            #![trigger recs[i]]
            0 <= i < recs.len() ==> exists|t: int|
                #![trigger r[t]]
                0 <= t < r.len() && r[t].id == recs[i].0,
        forall|t: int|
            #![trigger r[t]]
            0 <= t < r.len() ==> exists|i: int|
                #![trigger recs[i]]
                0 <= i < recs.len() && r[t].id == recs[i].0,
        forall|s: int, t: int| 0 <= s < t < r.len() ==> r[s].id != r[t].id,
{
    lemma_valid_batch_distinct(recs);
    assert forall|i: int| #![trigger recs[i]] 0 <= i < recs.len() implies exists|t: int|
        #![trigger r[t]]
        0 <= t < r.len() && r[t].id == recs[i].0 by {
        lemma_full_search_has_every_id(recs, d, query, k, r, i);
    }
    assert forall|t: int| #![trigger r[t]] 0 <= t < r.len() implies exists|i: int|
        #![trigger recs[i]]
        0 <= i < recs.len() && r[t].id == recs[i].0 by {
        lemma_search_ids_stored(recs, d, query, k, r, t);
    }
    assert forall|s: int, t: int| 0 <= s < t < r.len() implies r[s].id != r[t].id by {
        lemma_search_ids_distinct(recs, d, query, k, r, s, t);
    }
}

/// The identifiers of a valid batch are pairwise distinct.
pub proof fn lemma_valid_batch_distinct(recs: Seq<(u64, Seq<i32>)>)
    requires
        valid_batch(recs),
    ensures
        distinct_ids(recs),
{
    assert forall|i: int, j: int| 0 <= i < j < recs.len() implies recs[i].0 != recs[j].0 by {
        assert(fault_at(recs, j).is_none());
    }
}

/// A built, read-only set of records with the metric it ranks by.
pub struct Collection {
    config: Config,
    dimension: usize,
    records: Vec<Record>,
}

impl Collection {
    /// The stored records, in the order of the batch they were built from.
    pub closed spec fn entries(&self) -> Seq<(u64, Seq<i32>)> {
        self.records@.map_values(|r: Record| r@)
    }

    /// The metric the collection ranks by.
    pub closed spec fn metric(&self) -> Distance {
        self.config.distance
    }

    /// The length every stored vector has.
    pub closed spec fn spec_dimension(&self) -> nat {
        self.dimension as nat
    }

    /// The collection's invariant: its records form a valid batch of the
    /// collection's dimension.
    pub closed spec fn wf(&self) -> bool {
        &&& valid_batch(self.entries())
        &&& self.dimension as nat == self.entries()[0].1.len()
    }

    /// Validates `records` and builds a collection that ranks by
    /// `config.distance`. The first faulty record, in batch order, decides
    /// the error.
    pub fn build(config: &Config, records: Vec<Record>) -> (r: Result<Collection, BuildError>)
        ensures
            match r {
                Ok(c) => {
                    &&& valid_batch(records@.map_values(|x: Record| x@))
                    &&& c.wf()
                    &&& c.entries() == records@.map_values(|x: Record| x@)
                    &&& c.metric() == config.distance
                    &&& c.spec_dimension() == records@[0].vector@.len()
                },
                Err(e) => batch_error(records@.map_values(|x: Record| x@), e),
            },
    {
        let ghost recs = records@.map_values(|x: Record| x@);
        if records.len() == 0 {
            return Err(BuildError::EmptyBatch);
        }
        let dimension = records[0].vector.len();
        let mut seen: HashSet<u64> = HashSet::new();
        let mut i: usize = 0;
        while i < records.len()
            invariant
                recs == records@.map_values(|x: Record| x@),
                records@.len() > 0,
                dimension as nat == recs[0].1.len(),
                i <= records@.len(),
                forall|j: int| 0 <= j < i ==> fault_at(recs, j).is_none(),
                forall|id: u64| seen@.contains(id) <==> exists|j: int| 0 <= j < i && recs[j].0 == id,
            decreases records@.len() - i,
        {
            let id = records[i].id;
            let len = records[i].vector.len();
            assert(recs[i as int] == records@[i as int]@);
            if len == 0 {
                assert(fault_at(recs, i as int) == Some(BuildError::EmptyVector { id }));
                return Err(BuildError::EmptyVector { id });
            }
            if len != dimension {
                assert(fault_at(recs, i as int) == Some(
                    BuildError::InconsistentDimensionality { id, expected: dimension, found: len },
                ));
                return Err(BuildError::InconsistentDimensionality { id, expected: dimension, found: len });
            }
            let ghost before = seen@;
            if !seen.insert(id) {
                assert(fault_at(recs, i as int) == Some(BuildError::DuplicateIdentifier { id }));
                return Err(BuildError::DuplicateIdentifier { id });
            }
            assert(fault_at(recs, i as int).is_none());
            assert forall|x: u64|
                seen@.contains(x) <==> exists|j: int| 0 <= j < i + 1 && recs[j].0 == x by {
                if x == id {
                    assert(recs[i as int].0 == x);
                } else if seen@.contains(x) {
                    assert(before.contains(x));
                }
            }
            i = i + 1;
        }
        Ok(Collection { config: *config, dimension, records })
    }

    /// The length every stored vector has.
    pub fn dimension(&self) -> (r: usize)
        ensures
            r == self.spec_dimension(),
    {
        self.dimension
    }

    /// The number of stored records.
    pub fn len(&self) -> (r: usize)
        ensures
            r == self.entries().len(),
    {
        self.records.len()
    }

    /// Whether no record is stored; never true of a built collection.
    pub fn is_empty(&self) -> (r: bool)
        requires
            self.wf(),
        ensures
            !r,
            r == (self.entries().len() == 0),
    {
        self.records.len() == 0
    }

    /// The configuration the collection was built with.
    pub fn config(&self) -> (r: Config)
        ensures
            r.distance == self.metric(),
    {
        self.config
    }

    /// The `min(k, N)` stored records nearest to `query`, nearest first,
    /// equal scores ordered by ascending identifier; or the mismatch of the
    /// query's length with the collection's dimension.
    pub fn search(&self, query: &Vector, k: usize) -> (r: Result<Vec<SearchResult>, DimensionMismatch>)
        requires
            self.wf(),
        ensures
            query@.len() != self.spec_dimension() ==> r == Err::<Vec<SearchResult>, DimensionMismatch>(
                (DimensionMismatch {
                    expected: self.spec_dimension() as usize,
                    found: query@.len() as usize,
                }),
            ),
            query@.len() == self.spec_dimension() ==> r is Ok && nearest(
                self.entries(),
                self.metric(),
                query@,
                k as nat,
                r->Ok_0@,
            ),
            query@.len() == self.spec_dimension() && k == 0 ==> r is Ok && r->Ok_0@.len() == 0,
    {
        if query.len() != self.dimension {
            return Err(DimensionMismatch { expected: self.dimension, found: query.len() });
        }
        let ghost recs = self.entries();
        let ghost d = self.config.distance;
        let ghost q = query@;
        let mut ranked: Vec<SearchResult> = Vec::new();
        let mut i: usize = 0;
        while i < self.records.len()
            invariant
                self.wf(),
                recs == self.entries(),
                d == self.metric(),
                q == query@,
                q.len() == self.dimension,
                i <= recs.len() == self.records@.len(),
                ranked_prefix(recs, i as int, d, q, k as nat, ranked@),
            decreases self.records@.len() - i,
        {
            let rec = &self.records[i];
            assert(recs[i as int] == rec@);
            assert(fault_at(recs, i as int).is_none());
            let e = SearchResult {
                id: rec.id,
                distance: self.config.distance.score(&rec.vector.0, &query.0),
            };
            let ghost r0 = ranked@;
            assert(e == entry(recs[i as int], d, q));
            assert(!r0.contains(e)) by {
                if r0.contains(e) {
                    let t = choose|t: int| 0 <= t < r0.len() && r0[t] == e;
                    let j = choose|j: int| 0 <= j < i && r0[t] == entry(recs[j], d, q);
                    assert(recs[j].0 == recs[i as int].0);
                }
            }
            let len = ranked.len();
            if len < k {
                let p = insert_ranked(&mut ranked, e);
                proof {
                    lemma_ranked_grow(recs, d, q, k as nat, i as int, r0, ranked@, p as int);
                }
            } else if len > 0 && ranks_before(&e, &ranked[len - 1]) {
                let p = insert_ranked(&mut ranked, e);
                let ghost inserted = ranked@;
                ranked.pop();
                proof {
                    lemma_ranked_replace(recs, d, q, k as nat, i as int, r0, inserted, ranked@, p as int);
                }
            } else {
                proof {
                    lemma_ranked_skip(recs, d, q, k as nat, i as int, r0);
                }
            }
            i = i + 1;
        }
        Ok(ranked)
    }
}

} // verus!
