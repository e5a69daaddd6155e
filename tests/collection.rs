use oasysdb::collection::{ranks_before, BuildError, Collection, Config, Record, SearchResult};
use oasysdb::distance::{DimensionMismatch, Distance};
use oasysdb::vector::Vector;

fn rec(id: u64, c: &[i32]) -> Record {
    Record::new(id, Vector::new(c.to_vec()))
}

fn four_records() -> Vec<Record> {
    vec![rec(0, &[0, 0]), rec(1, &[1, 0]), rec(2, &[0, 1]), rec(3, &[5, 5])]
}

fn hit(id: u64, distance: u128) -> SearchResult {
    SearchResult { id, distance }
}

#[test]
fn nearest_two_with_tie_broken_by_identifier() {
    let c = Collection::build(&Config::default(), four_records()).unwrap();
    let r = c.search(&Vector::new(vec![0, 0]), 2).unwrap();
    assert_eq!(r, vec![hit(0, 0), hit(1, 1)]);
}

#[test]
fn tie_break_does_not_depend_on_batch_order() {
    let batch = vec![rec(3, &[5, 5]), rec(2, &[0, 1]), rec(1, &[1, 0]), rec(0, &[0, 0])];
    let c = Collection::build(&Config::default(), batch).unwrap();
    let r = c.search(&Vector::new(vec![0, 0]), 3).unwrap();
    assert_eq!(r, vec![hit(0, 0), hit(1, 1), hit(2, 1)]);
}

#[test]
fn duplicate_identifiers_are_refused() {
    let r = Collection::build(&Config::default(), vec![rec(0, &[0, 0]), rec(0, &[1, 1])]);
    assert_eq!(r.err(), Some(BuildError::DuplicateIdentifier { id: 0 }));
}

#[test]
fn query_of_other_dimension_is_refused() {
    let c = Collection::build(&Config::default(), four_records()).unwrap();
    let r = c.search(&Vector::new(vec![0, 0, 0]), 2);
    assert_eq!(r, Err(DimensionMismatch { expected: 2, found: 3 }));
}

#[test]
fn zero_k_gives_no_result() {
    let c = Collection::build(&Config::default(), four_records()).unwrap();
    assert_eq!(c.search(&Vector::new(vec![3, 3]), 0), Ok(vec![]));
}

#[test]
fn large_k_returns_every_record_once() {
    let c = Collection::build(&Config::default(), four_records()).unwrap();
    let r = c.search(&Vector::new(vec![0, 0]), 10).unwrap();
    assert_eq!(r, vec![hit(0, 0), hit(1, 1), hit(2, 1), hit(3, 50)]);
    let r = c.search(&Vector::new(vec![5, 4]), 4).unwrap();
    let mut ids: Vec<u64> = r.iter().map(|h| h.id).collect();
    ids.sort();
    assert_eq!(ids, vec![0, 1, 2, 3]);
}

#[test]
fn building_twice_gives_the_same_answers() {
    let batch: Vec<Record> = (0..50u64).map(|i| Record::new(i, Vector::random(8, i))).collect();
    let again = batch.clone();
    let a = Collection::build(&Config::default(), batch).unwrap();
    let b = Collection::build(&Config::default(), again).unwrap();
    let q = Vector::random(8, 1000);
    assert_eq!(a.search(&q, 10).unwrap(), b.search(&q, 10).unwrap());
}

#[test]
fn results_are_nearest_first() {
    let batch: Vec<Record> = (0..200u64).map(|i| Record::new(i, Vector::random(4, i + 17))).collect();
    let c = Collection::build(&Config::new(Distance::Manhattan), batch.clone()).unwrap();
    let q = Vector::random(4, 5);
    let r = c.search(&q, 7).unwrap();
    assert_eq!(r.len(), 7);
    for w in r.windows(2) {
        assert!(ranks_before(&w[0], &w[1]));
    }
    let mut all: Vec<(u128, u64)> = batch
        .iter()
        .map(|x| (Distance::Manhattan.calculate(&x.vector, &q).unwrap(), x.id))
        .collect();
    all.sort();
    let expected: Vec<SearchResult> = all[..7].iter().map(|&(d, id)| hit(id, d)).collect();
    assert_eq!(r, expected);
}

#[test]
fn identical_vectors_are_all_returned_by_identifier() {
    let batch = vec![rec(9, &[2, 2]), rec(4, &[2, 2]), rec(6, &[2, 2])];
    let c = Collection::build(&Config::default(), batch).unwrap();
    let r = c.search(&Vector::new(vec![0, 0]), 5).unwrap();
    assert_eq!(r, vec![hit(4, 8), hit(6, 8), hit(9, 8)]);
}

#[test]
fn single_record_collection() {
    let c = Collection::build(&Config::default(), vec![rec(7, &[1, 2, 3])]).unwrap();
    assert_eq!(c.search(&Vector::new(vec![1, 2, 4]), 1), Ok(vec![hit(7, 1)]));
}

#[test]
fn empty_batch_is_refused() {
    let r = Collection::build(&Config::default(), vec![]);
    assert_eq!(r.err(), Some(BuildError::EmptyBatch));
}

#[test]
fn empty_vector_is_refused() {
    let r = Collection::build(&Config::default(), vec![rec(1, &[1]), rec(2, &[])]);
    assert_eq!(r.err(), Some(BuildError::EmptyVector { id: 2 }));
}

#[test]
fn inconsistent_dimensionality_is_refused() {
    let r = Collection::build(&Config::default(), vec![rec(1, &[1, 2]), rec(2, &[1, 2, 3])]);
    assert_eq!(
        r.err(),
        Some(BuildError::InconsistentDimensionality { id: 2, expected: 2, found: 3 })
    );
}

#[test]
fn first_faulty_record_decides_the_error() {
    let batch = vec![rec(1, &[1, 2]), rec(1, &[3, 4]), rec(2, &[1])];
    let r = Collection::build(&Config::default(), batch);
    assert_eq!(r.err(), Some(BuildError::DuplicateIdentifier { id: 1 }));
}

#[test]
fn default_config_ranks_by_euclidean_distance() {
    assert_eq!(Config::default().distance, Distance::Euclidean);
    assert_eq!(Config::new(Distance::Manhattan).distance, Distance::Manhattan);
}

#[test]
fn collection_reports_its_dimension_and_size() {
    let c = Collection::build(&Config::default(), four_records()).unwrap();
    assert_eq!(c.dimension(), 2);
    assert_eq!(c.len(), 4);
    assert_eq!(c.config().distance, Distance::Euclidean);
}
