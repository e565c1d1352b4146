use rannoy::{AnnError, Rannoy};

fn directions(n: usize) -> Vec<Vec<i16>> {
    // Distinct directions in three dimensions, none a positive multiple of another.
    let mut out = Vec::new();
    let mut a: i32 = 7;
    while out.len() < n {
        let x = (a * 37 % 2001) - 1000;
        let y = (a * 91 % 1999) - 1000;
        let z = (a * 53 % 1997) - 1000;
        a += 13;
        let v = vec![x as i16, y as i16, z as i16];
        if v.iter().all(|c| *c == 0) {
            continue;
        }
        let parallel = out.iter().any(|u: &Vec<i16>| {
            let cx = u[1] as i64 * v[2] as i64 - u[2] as i64 * v[1] as i64;
            let cy = u[2] as i64 * v[0] as i64 - u[0] as i64 * v[2] as i64;
            let cz = u[0] as i64 * v[1] as i64 - u[1] as i64 * v[0] as i64;
            cx == 0 && cy == 0 && cz == 0
        });
        if !parallel {
            out.push(v);
        }
    }
    out
}

fn filled(n: usize, trees: i32, seed: u32) -> Rannoy {
    let mut index = Rannoy::new(3);
    index.set_seed(seed);
    for (i, v) in directions(n).iter().enumerate() {
        index.add_item(i as i32, v).unwrap();
    }
    index.build(trees);
    index
}

fn cosine(a: &[i16], b: &[i16]) -> f64 {
    let dot: f64 = a.iter().zip(b).map(|(x, y)| *x as f64 * *y as f64).sum();
    let na: f64 = a.iter().map(|x| (*x as f64) * (*x as f64)).sum::<f64>().sqrt();
    let nb: f64 = b.iter().map(|x| (*x as f64) * (*x as f64)).sum::<f64>().sqrt();
    if na == 0.0 || nb == 0.0 { 0.0 } else { dot / (na * nb) }
}

#[test]
fn each_item_is_its_own_nearest() {
    let index = filled(60, 10, 7);
    for i in 0..60 {
        assert_eq!(index.get_nns_by_item(i, 1, -1).unwrap(), vec![i]);
    }
}

#[test]
fn three_points_scenario() {
    let mut index = Rannoy::new(2);
    index.add_item(0, &[1000, 0]).unwrap();
    index.add_item(1, &[0, 1000]).unwrap();
    index.add_item(2, &[-1000, 0]).unwrap();
    index.set_seed(42);
    index.build(5);
    assert_eq!(index.get_nns_by_vector(&vec![900, 100], 1, -1).unwrap(), vec![0]);
    assert_eq!(index.get_nns_by_vector(&vec![900, 100], 3, -1).unwrap(), vec![0, 1, 2]);
}

#[test]
fn empty_store_gives_empty_results() {
    let mut index = Rannoy::new(2);
    index.build(5);
    assert_eq!(index.get_nns_by_vector(&vec![1, 2], 3, -1).unwrap(), Vec::<i32>::new());
    assert_eq!(index.get_nns_by_vector(&vec![0, 0], 1, 10).unwrap(), Vec::<i32>::new());
}

#[test]
fn query_before_build_is_not_built() {
    let mut index = Rannoy::new(2);
    index.add_item(0, &[1, 0]).unwrap();
    assert_eq!(index.get_nns_by_vector(&vec![1, 0], 1, -1), Err(AnnError::NotBuilt));
    assert_eq!(index.get_nns_by_item(0, 1, -1), Err(AnnError::NotBuilt));
}

#[test]
fn top_k_beyond_count_returns_every_item_once() {
    let index = filled(50, 3, 1);
    let mut r = index.get_nns_by_vector(&vec![10, -20, 30], 80, -1).unwrap();
    assert_eq!(r.len(), 50);
    r.sort();
    assert_eq!(r, (0..50).collect::<Vec<i32>>());
}

#[test]
fn results_are_ranked_by_cosine() {
    let index = filled(50, 4, 3);
    let q: Vec<i16> = vec![300, -100, 50];
    let r = index.get_nns_by_vector(&q, 50, 10_000).unwrap();
    let sims: Vec<f64> = r.iter().map(|id| cosine(&q, &index.get_item(*id).unwrap())).collect();
    for w in sims.windows(2) {
        assert!(w[0] >= w[1] - 1e-12);
    }
}

#[test]
fn save_then_load_gives_same_results() {
    let index = filled(70, 6, 11);
    let bytes = index.save().unwrap();
    let mut fresh = Rannoy::new(3);
    fresh.load(&bytes).unwrap();
    for q in directions(90).iter().skip(70) {
        for (n, k) in [(1, -1), (5, -1), (10, 30), (70, -1)] {
            assert_eq!(index.get_nns_by_vector(q, n, k), fresh.get_nns_by_vector(q, n, k));
        }
    }
    assert_eq!(fresh.save().unwrap(), bytes);
    assert_eq!(fresh.get_item(5).unwrap(), index.get_item(5).unwrap());
}

#[test]
fn build_twice_gives_identical_trees() {
    let mut index = filled(80, 7, 99);
    let first = index.save().unwrap();
    index.build(7);
    assert_eq!(index.save().unwrap(), first);
    let other = filled(80, 7, 99);
    assert_eq!(other.save().unwrap(), first);
    let reseeded = filled(80, 7, 100);
    assert_ne!(reseeded.save().unwrap(), first);
}

#[test]
fn recall_never_drops_as_search_k_grows() {
    let index = filled(200, 3, 5);
    let queries = directions(230);
    for q in queries.iter().skip(200) {
        let exact = index.get_nns_by_vector(q, 10, 100_000).unwrap();
        let mut last = 0;
        for k in [1, 5, 10, 20, 40, 80, 160, 400] {
            let got = index.get_nns_by_vector(q, 10, k).unwrap();
            let recall = got.iter().filter(|id| exact.contains(id)).count();
            assert!(recall >= last);
            last = recall;
        }
        assert_eq!(last, 10);
    }
}

#[test]
fn identical_vectors_split_by_position() {
    let mut index = Rannoy::new(2);
    for i in 0..40 {
        index.add_item(i, &[5, 5]).unwrap();
    }
    index.build(2);
    let r = index.get_nns_by_vector(&vec![1, 1], 100, -1).unwrap();
    assert_eq!(r, (0..40).collect::<Vec<i32>>());
    let r = index.get_nns_by_item(3, 3, 1000).unwrap();
    assert_eq!(r, vec![0, 1, 2]);
}

#[test]
fn ties_go_to_smaller_id() {
    let mut index = Rannoy::new(2);
    index.add_item(9, &[2, 0]).unwrap();
    index.add_item(4, &[1, 0]).unwrap();
    index.add_item(6, &[0, 3]).unwrap();
    index.build(1);
    assert_eq!(index.get_nns_by_vector(&vec![7, 0], 3, -1).unwrap(), vec![4, 9, 6]);
}

#[test]
fn zero_vectors_have_zero_similarity() {
    let mut index = Rannoy::new(2);
    index.add_item(1, &[0, 0]).unwrap();
    index.add_item(2, &[1, 0]).unwrap();
    index.add_item(3, &[-1, 0]).unwrap();
    index.build(1);
    assert_eq!(index.get_nns_by_vector(&vec![1, 0], 3, -1).unwrap(), vec![2, 1, 3]);
    assert_eq!(index.get_nns_by_vector(&vec![0, 0], 3, -1).unwrap(), vec![1, 2, 3]);
}

#[test]
fn wrong_dimension_is_rejected() {
    let mut index = Rannoy::new(3);
    assert_eq!(index.add_item(0, &[1, 2]), Err(AnnError::InvalidDimension));
    index.add_item(0, &[1, 2, 3]).unwrap();
    index.build(2);
    assert_eq!(index.get_nns_by_vector(&vec![1, 2], 1, -1), Err(AnnError::InvalidDimension));
}

#[test]
fn unknown_item_is_not_found() {
    let mut index = Rannoy::new(2);
    index.add_item(3, &[1, 1]).unwrap();
    index.build(1);
    assert_eq!(index.get_item(4), Err(AnnError::ItemNotFound));
    assert_eq!(index.get_nns_by_item(4, 1, -1), Err(AnnError::ItemNotFound));
}

#[test]
fn add_item_overwrites() {
    let mut index = Rannoy::new(2);
    index.add_item(3, &[1, 1]).unwrap();
    index.add_item(3, &[-4, 2]).unwrap();
    assert_eq!(index.get_item(3).unwrap(), vec![-4, 2]);
}

#[test]
fn saved_header_layout() {
    let index = Rannoy::new(2);
    let bytes = index.save().unwrap();
    assert_eq!(
        bytes,
        vec![0x41, 0x4E, 0x4E, 0x59, 1, 0, 0, 0, 2, 0, 0, 0, 0, 0, 0, 0, 0, 0, 0, 0]
    );
}

#[test]
fn saved_item_and_leaf_layout() {
    let mut index = Rannoy::new(1);
    index.add_item(-1, &[-32768]).unwrap();
    index.build(1);
    let bytes = index.save().unwrap();
    let mut expected = vec![0x41, 0x4E, 0x4E, 0x59, 1, 0, 0, 0, 1, 0, 0, 0, 1, 0, 0, 0, 1, 0, 0, 0];
    expected.extend([0xFF, 0xFF, 0xFF, 0xFF, 0, 0]);
    expected.extend([1, 0, 0, 0, 1, 1, 0, 0, 0, 0xFF, 0xFF, 0xFF, 0xFF]);
    assert_eq!(bytes, expected);
}

#[test]
fn saved_ids_are_bit_patterns() {
    let mut index = Rannoy::new(1);
    index.add_item(258, &[0]).unwrap();
    let bytes = index.save().unwrap();
    assert_eq!(&bytes[20..24], &[2, 1, 0, 0]);
    let mut index = Rannoy::new(1);
    index.add_item(i32::MIN, &[0]).unwrap();
    let bytes = index.save().unwrap();
    assert_eq!(&bytes[20..24], &[0, 0, 0, 0x80]);
}

#[test]
fn search_k_at_item_count_returns_every_item() {
    let index = filled(50, 3, 2);
    let mut r = index.get_nns_by_item(7, 60, 50).unwrap();
    r.sort();
    assert_eq!(r, (0..50).collect::<Vec<i32>>());
}

#[test]
fn item_query_equals_vector_query() {
    let index = filled(80, 5, 4);
    for id in [0, 13, 79] {
        let v = index.get_item(id).unwrap();
        for (n, k) in [(1, -1), (5, -1), (7, 20), (10, 0)] {
            assert_eq!(index.get_nns_by_item(id, n, k), index.get_nns_by_vector(&v, n, k));
        }
    }
}

#[test]
fn load_rejects_bad_bytes() {
    let mut index = Rannoy::new(2);
    assert_eq!(index.load(&[1, 2, 3]), Err(AnnError::CorruptFile));
    assert_eq!(index.load(&[0, 0, 0, 0, 1, 0, 0, 0]), Err(AnnError::CorruptFile));
    assert_eq!(index.load(&[0x41, 0x4E, 0x4E, 0x59, 2, 0, 0, 0]), Err(AnnError::VersionMismatch));
    let mut good = Rannoy::new(2).save().unwrap();
    good.push(0);
    assert_eq!(index.load(&good), Err(AnnError::CorruptFile));
    let mut built = Rannoy::new(2);
    built.add_item(1, &[1, 2]).unwrap();
    built.build(1);
    let mut bytes = built.save().unwrap();
    let last = bytes.len() - 1;
    bytes[last] = 0x7F;
    assert_eq!(index.load(&bytes), Err(AnnError::CorruptFile));
    assert_eq!(index.get_nns_by_vector(&vec![1, 0], 1, -1), Err(AnnError::NotBuilt));
}

#[test]
fn load_takes_the_saved_dimensionality() {
    let mut src = Rannoy::new(4);
    src.add_item(8, &[1, 2, 3, 4]).unwrap();
    src.build(2);
    let mut dst = Rannoy::new(2);
    dst.load(&src.save().unwrap()).unwrap();
    assert_eq!(dst.get_item(8).unwrap(), vec![1, 2, 3, 4]);
    assert_eq!(dst.get_nns_by_item(8, 5, -1).unwrap(), vec![8]);
}

#[test]
fn negative_tree_count_builds_nothing() {
    let mut index = Rannoy::new(2);
    index.add_item(0, &[1, 0]).unwrap();
    index.build(-3);
    assert_eq!(index.get_nns_by_vector(&vec![1, 0], 1, -1).unwrap(), Vec::<i32>::new());
}
