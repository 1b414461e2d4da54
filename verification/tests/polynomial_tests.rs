use concurrent_labs::polynomial::{batch_bounds, join_batches, Polynomial};

fn naive(a: &[i64], b: &[i64]) -> Vec<i64> {
    let mut r = vec![0i64; a.len() + b.len() - 1];
    for i in 0..a.len() {
        for j in 0..b.len() {
            r[i + j] += a[i] * b[j];
        }
    }
    r
}

fn sample(len: usize, seed: i64) -> Vec<i64> {
    (0..len as i64).map(|i| (i * 7 + seed) % 11 - 5).collect()
}

#[test]
fn new_keeps_coefficients() {
    let p = Polynomial::new(vec![3, -1, 4]);
    assert_eq!(p.coefficients(), &[3, -1, 4]);
}

#[test]
fn with_size_counts_up() {
    let p = Polynomial::with_size(5);
    assert_eq!(p.coefficients(), &[0, 1, 2, 3, 4]);
    assert!(Polynomial::with_size(0).coefficients().is_empty());
}

#[test]
fn split_cuts_at_degree() {
    let p = Polynomial::new(vec![1, 2, 3, 4, 5]);
    let (low, high) = p.split(2);
    assert_eq!(low.coefficients(), &[1, 2]);
    assert_eq!(high.coefficients(), &[3, 4, 5]);
    let (low, high) = p.split(9);
    assert_eq!(low.coefficients(), &[1, 2, 3, 4, 5]);
    assert!(high.coefficients().is_empty());
}

#[test]
fn multiply_small() {
    let a = Polynomial::new(vec![1, 2]);
    let b = Polynomial::new(vec![3, 4]);
    assert_eq!(a.multiply(&b).coefficients(), &[3, 10, 8]);
    let c = Polynomial::new(vec![-2]);
    assert_eq!(a.multiply(&c).coefficients(), &[-2, -4]);
}

#[test]
fn add_and_sub_pad_with_zeros() {
    let a = Polynomial::new(vec![1, 2, 3]);
    let b = Polynomial::new(vec![10, 20]);
    let s = a.clone() + &b;
    assert_eq!(s.coefficients(), &[11, 22, 3]);
    let d = b - &a;
    assert_eq!(d.coefficients(), &[9, 18, -3]);
}

#[test]
fn karatsuba_matches_schoolbook() {
    for (n1, n2) in [(17, 17), (40, 33), (64, 64), (100, 51), (5, 80), (34, 17), (35, 17)] {
        let a = Polynomial::new(sample(n1, 1));
        let b = Polynomial::new(sample(n2, 4));
        let expected = naive(a.coefficients(), b.coefficients());
        assert_eq!(a.multiply_karatsuba(&b).coefficients(), &expected[..]);
        assert_eq!(a.multiply_karatsuba_parallel(&b).coefficients(), &expected[..]);
        assert_eq!(a.multiply(&b).coefficients(), &expected[..]);
    }
}

#[test]
fn karatsuba_on_counting_polynomials() {
    let x = Polynomial::with_size(200);
    let y = Polynomial::with_size(200);
    let expected = naive(x.coefficients(), y.coefficients());
    assert_eq!(x.multiply_karatsuba(&y).coefficients(), &expected[..]);
}

#[test]
fn parallel_batches_compute_the_product() {
    let a = Polynomial::new(sample(23, 2));
    let b = Polynomial::new(sample(9, 3));
    let expected = naive(a.coefficients(), b.coefficients());
    for threads in [1, 3, 7, 40] {
        assert_eq!(a.multiply_parallel(&b, threads).coefficients(), &expected[..]);
    }
}

#[test]
fn parallel_without_workers_is_zero() {
    let a = Polynomial::new(vec![1, 2, 3]);
    let b = Polynomial::new(vec![4, 5]);
    assert_eq!(a.multiply_parallel(&b, 0).coefficients(), &[0, 0, 0, 0]);
}

#[test]
fn batch_fills_only_its_degrees() {
    let a = Polynomial::new(vec![1, 2]);
    let b = Polynomial::new(vec![3, 4]);
    let mut res = vec![100, 100, 100];
    a.multiply_parallel_batch(&b, 1, 2, &mut res);
    assert_eq!(res, vec![100, 110, 100]);
}

#[test]
fn batch_addition_wraps() {
    let a = Polynomial::new(vec![1]);
    let b = Polynomial::new(vec![2]);
    let mut res = vec![i64::MAX];
    a.multiply_parallel_batch(&b, 0, 1, &mut res);
    assert_eq!(res, vec![i64::MIN + 1]);
}

#[test]
fn display_lists_terms() {
    let p = Polynomial::new(vec![1, -20, 3]);
    assert_eq!(p.to_display_string(), "1x^0  + -20x^1  + 3x^2 ");
    assert_eq!(Polynomial::new(vec![]).to_display_string(), "");
    assert_eq!(Polynomial::new(vec![7]).to_display_string(), "7x^0 ");
}

#[test]
fn empty_second_factor_gives_zeros() {
    let a = Polynomial::new(vec![1, 2, 3]);
    let e = Polynomial::new(vec![]);
    assert_eq!(a.multiply(&e).coefficients(), &[0, 0]);
    assert_eq!(a.multiply_karatsuba(&e).coefficients(), &[0, 0]);
    assert_eq!(a.multiply_parallel(&e, 2).coefficients(), &[0, 0]);
}

#[test]
fn display_writes_the_extreme_coefficients() {
    let p = Polynomial::new(vec![i64::MIN, i64::MAX, 0]);
    assert_eq!(
        p.to_display_string(),
        "-9223372036854775808x^0  + 9223372036854775807x^1  + 0x^2 "
    );
    let long = Polynomial::with_size(12);
    assert!(long.to_display_string().ends_with(" + 11x^11 "));
}

#[test]
fn product_commutes_and_associates() {
    let a = Polynomial::new(vec![1, -2, 3]);
    let b = Polynomial::new(vec![4, 0, -1, 5]);
    let c = Polynomial::new(vec![-3, 2]);
    assert_eq!(a.multiply(&b).coefficients(), b.multiply(&a).coefficients());
    assert_eq!(
        a.multiply(&b).multiply(&c).coefficients(),
        a.multiply(&b.multiply(&c)).coefficients()
    );
}

#[test]
fn multiplying_by_one_gives_the_polynomial_back() {
    let p = Polynomial::new(sample(23, 4));
    let one = Polynomial::new(vec![1]);
    assert_eq!(p.multiply(&one).coefficients(), p.coefficients());
    assert_eq!(p.multiply_karatsuba(&one).coefficients(), p.coefficients());
}

#[test]
fn multiplying_by_zero_gives_zero_coefficients() {
    let p = Polynomial::new(sample(23, 4));
    let zero = Polynomial::new(vec![0]);
    assert_eq!(p.multiply(&zero).coefficients(), vec![0i64; 23].as_slice());
}

#[test]
fn batch_bounds_split_the_degrees() {
    assert_eq!(batch_bounds(0, 10, 3), (0, 3));
    assert_eq!(batch_bounds(1, 10, 3), (3, 6));
    assert_eq!(batch_bounds(2, 10, 3), (6, 10));
    assert_eq!(batch_bounds(4, 3, 5), (2, 3));
}

#[test]
fn join_batches_takes_each_degree_from_its_worker() {
    let parts = vec![vec![1, 1, 1, 1, 1], vec![2, 2, 2, 2, 2]];
    assert_eq!(join_batches(&parts, 5, 2), vec![1, 1, 2, 2, 2]);
}

#[test]
fn batches_on_their_own_buffers_join_to_the_product() {
    let a = sample(30, 2);
    let b = sample(21, 9);
    let (x, y) = (Polynomial::new(a.clone()), Polynomial::new(b.clone()));
    let size = a.len() + b.len() - 1;
    let workers = 7;
    let parts: Vec<Vec<i64>> = (0..workers)
        .map(|t| {
            let (left, right) = batch_bounds(t, size, workers);
            let mut part = vec![0i64; size];
            x.multiply_parallel_batch(&y, left, right, &mut part);
            part
        })
        .collect();
    assert_eq!(join_batches(&parts, size, workers), naive(&a, &b));
}
