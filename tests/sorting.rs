use pdqsort::sort::{sort, sort_by, sort_by_key};
use std::cell::Cell;
use std::cmp::Ordering;
use std::cmp::Ordering::{Greater, Less};

/// A small linear congruential generator, enough to make varied inputs.
struct Lcg(u64);

impl Lcg {
    fn next(&mut self) -> u64 {
        self.0 = self.0.wrapping_mul(6364136223846793005).wrapping_add(1442695040888963407);
        self.0 >> 33
    }
}

fn random_vec(rng: &mut Lcg, len: usize, modulus: u64) -> Vec<u64> {
    (0..len).map(|_| rng.next() % modulus).collect()
}

fn is_ascending<T: Ord>(v: &[T]) -> bool {
    v.windows(2).all(|w| w[0] <= w[1])
}

fn same_elements(a: &[u64], b: &[u64]) -> bool {
    let mut x = a.to_vec();
    let mut y = b.to_vec();
    x.sort_unstable();
    y.sort_unstable();
    x == y
}

#[test]
fn test_sort_zero_sized_type() {
    // Should not panic.
    let mut a = [(); 10];
    sort(&mut a);
    let mut b = [(); 100];
    sort(&mut b);
}

#[test]
fn zero_sized_elements_are_never_compared() {
    let mut a = [(); 10];
    sort_by(&mut a, |_: &(), _: &()| -> Ordering { panic!("compared a zero-sized element") });
    let mut b = [(); 100];
    sort_by(&mut b, |_: &(), _: &()| -> Ordering { panic!("compared a zero-sized element") });
}

#[test]
fn test_pdqsort() {
    let mut rng = Lcg(0x2545F4914F6CDD1D);
    for n in 0..16 {
        for l in 0..16 {
            let mut v = random_vec(&mut rng, 1 << n, 1 << l);
            let mut v1 = v.clone();
            let unsorted = v.clone();

            sort(&mut v);
            assert!(v.windows(2).all(|w| w[0] <= w[1]));
            assert!(same_elements(&v, &unsorted));

            sort_by(&mut v1, |a: &u64, b: &u64| a.cmp(b));
            assert!(v1.windows(2).all(|w| w[0] <= w[1]));

            sort_by(&mut v1, |a: &u64, b: &u64| b.cmp(a));
            assert!(v1.windows(2).all(|w| w[0] >= w[1]));
            assert!(same_elements(&v1, &unsorted));
        }
    }

    let mut v = [0xDEADBEEFu64];
    sort(&mut v);
    assert!(v == [0xDEADBEEF]);
}

#[test]
fn test_crazy_compare() {
    let mut rng = Lcg(7);
    let mut v = random_vec(&mut rng, 100_000, 1000);
    let unsorted = v.clone();
    let coin = Cell::new(12345u64);

    // Even though comparison is non-sensical, sorting must not panic.
    sort_by(&mut v, |_: &u64, _: &u64| {
        let x = coin.get().wrapping_mul(6364136223846793005).wrapping_add(1);
        coin.set(x);
        if (x >> 40) & 1 == 0 { Less } else { Greater }
    });
    assert!(same_elements(&v, &unsorted));
}

#[test]
fn natural_order_example() {
    let mut v = [-5i32, 4, 1, -3, 2];
    sort(&mut v);
    assert_eq!(v, [-5, -3, 1, 2, 4]);
}

#[test]
fn reverse_order_example() {
    let mut v = [-5i32, 4, 1, -3, 2];
    sort_by(&mut v, |a: &i32, b: &i32| b.cmp(a));
    assert_eq!(v, [4, 2, 1, -3, -5]);
}

#[test]
fn single_element_is_unchanged() {
    let mut v = [0xDEADBEEFu64];
    sort_by(&mut v, |a: &u64, b: &u64| a.cmp(b));
    assert_eq!(v, [0xDEADBEEF]);
}

#[test]
fn strictly_descending_is_reversed() {
    let mut v = [5, 4, 3, 2, 1];
    let calls = Cell::new(0usize);
    sort_by(&mut v, |a: &i32, b: &i32| {
        calls.set(calls.get() + 1);
        a.cmp(b)
    });
    assert_eq!(v, [1, 2, 3, 4, 5]);
    // Only the scan for a descending run compared anything.
    assert_eq!(calls.get(), 4);
}

#[test]
fn all_equal_is_unchanged() {
    let mut v = [1, 1, 1, 1, 1];
    sort(&mut v);
    assert_eq!(v, [1, 1, 1, 1, 1]);
}

#[test]
fn mixed_example() {
    let mut v = [3, 1, 4, 1, 5, 9, 2, 6, 5, 3, 5];
    sort(&mut v);
    assert_eq!(v, [1, 1, 2, 3, 3, 4, 5, 5, 5, 6, 9]);
}

#[test]
fn sort_by_example() {
    let mut v = [5, 4, 1, 3, 2];
    sort_by(&mut v, |a: &i32, b: &i32| a.cmp(b));
    assert_eq!(v, [1, 2, 3, 4, 5]);
    sort_by(&mut v, |a: &i32, b: &i32| b.cmp(a));
    assert_eq!(v, [5, 4, 3, 2, 1]);
}

#[test]
fn sort_by_key_example() {
    let mut v = [-5i32, 4, 1, -3, 2];
    sort_by_key(&mut v, |k: &i32| k.abs());
    assert_eq!(v, [1, 2, -3, 4, -5]);
}

#[test]
fn ascending_input_takes_one_comparison_per_neighbour() {
    for n in [2usize, 3, 10, 100, 1000] {
        let mut v: Vec<usize> = (0..n).collect();
        let calls = Cell::new(0usize);
        sort_by(&mut v, |a: &usize, b: &usize| {
            calls.set(calls.get() + 1);
            a.cmp(b)
        });
        assert_eq!(calls.get(), n - 1);
        assert_eq!(v, (0..n).collect::<Vec<usize>>());
    }
}

#[test]
fn empty_slice_is_never_compared() {
    let mut v: Vec<i32> = Vec::new();
    sort_by(&mut v, |_: &i32, _: &i32| -> Ordering { panic!("nothing to compare") });
    assert!(v.is_empty());
}

#[test]
fn sorting_twice_changes_nothing() {
    let mut rng = Lcg(99);
    for len in [0usize, 1, 5, 33, 200, 5000] {
        let mut v = random_vec(&mut rng, len, 50);
        sort_by(&mut v, |a: &u64, b: &u64| a.cmp(b));
        let once = v.clone();
        sort_by(&mut v, |a: &u64, b: &u64| a.cmp(b));
        assert_eq!(v, once);
    }
}

#[test]
fn reversed_comparator_gives_reversed_result() {
    let mut rng = Lcg(4242);
    for len in [0usize, 1, 7, 64, 300, 4000] {
        let input: Vec<(u64, u64)> = (0..len).map(|i| (rng.next() % 20, i as u64)).collect();
        let mut forward = input.clone();
        sort_by(&mut forward, |a: &(u64, u64), b: &(u64, u64)| a.0.cmp(&b.0));
        let mut backward = input.clone();
        sort_by(&mut backward, |a: &(u64, u64), b: &(u64, u64)| b.0.cmp(&a.0));
        backward.reverse();
        // Equal keys may come in another order, but position by position the
        // keys agree.
        let fk: Vec<u64> = forward.iter().map(|p| p.0).collect();
        let bk: Vec<u64> = backward.iter().map(|p| p.0).collect();
        assert_eq!(fk, bk);
        let mut f2 = forward.clone();
        let mut b2 = backward.clone();
        f2.sort_unstable();
        b2.sort_unstable();
        assert_eq!(f2, b2);
    }
}

#[test]
fn sorted_output_is_a_permutation_of_the_input() {
    let mut rng = Lcg(31337);
    for len in [2usize, 17, 33, 129, 257, 1000, 20000] {
        let unsorted = random_vec(&mut rng, len, 1 << 20);
        let mut v = unsorted.clone();
        sort(&mut v);
        assert!(is_ascending(&v));
        let mut expected = unsorted.clone();
        expected.sort_unstable();
        assert_eq!(v, expected);
    }
}

#[test]
fn many_duplicates_use_the_equal_partition() {
    let mut rng = Lcg(5);
    let unsorted = random_vec(&mut rng, 50_000, 3);
    let mut v = unsorted.clone();
    sort(&mut v);
    let mut expected = unsorted.clone();
    expected.sort_unstable();
    assert_eq!(v, expected);
}

#[test]
fn patterned_inputs_sort() {
    let n = 10_000u64;
    let organ_pipe: Vec<u64> = (0..n / 2).chain((0..n / 2).rev()).collect();
    let sawtooth: Vec<u64> = (0..n).map(|i| i % 97).collect();
    let almost_sorted: Vec<u64> = (0..n).map(|i| if i % 1000 == 0 { n - i } else { i }).collect();
    let descending_with_tail: Vec<u64> = (0..n).rev().chain(std::iter::once(n + 1)).collect();
    let ones_then_zero: Vec<u64> = std::iter::repeat(1).take(500).chain(std::iter::once(0)).collect();
    for input in [organ_pipe, sawtooth, almost_sorted, descending_with_tail, ones_then_zero] {
        let mut v = input.clone();
        sort(&mut v);
        let mut expected = input.clone();
        expected.sort_unstable();
        assert_eq!(v, expected);
    }
}

#[test]
fn large_elements_sort() {
    let mut rng = Lcg(8);
    let input: Vec<[u64; 4]> = (0..3000).map(|_| [rng.next() % 100, rng.next(), 0, 1]).collect();
    let mut v = input.clone();
    sort_by(&mut v, |a: &[u64; 4], b: &[u64; 4]| a.cmp(b));
    let mut expected = input.clone();
    expected.sort_unstable();
    assert_eq!(v, expected);
}

#[test]
fn owned_elements_are_kept() {
    let mut rng = Lcg(21);
    let input: Vec<String> = (0..2000).map(|_| format!("s{}", rng.next() % 500)).collect();
    let mut v = input.clone();
    sort(&mut v);
    let mut expected = input.clone();
    expected.sort_unstable();
    assert_eq!(v, expected);
}

#[test]
fn random_comparator_on_a_million_elements_terminates() {
    let n = 1usize << 20;
    let mut v: Vec<u32> = (0..n as u32).collect();
    let coin = Cell::new(987654321u64);
    sort_by(&mut v, |_: &u32, _: &u32| {
        let x = coin.get().wrapping_mul(6364136223846793005).wrapping_add(1442695040888963407);
        coin.set(x);
        match (x >> 33) % 3 {
            0 => Ordering::Less,
            1 => Ordering::Equal,
            _ => Ordering::Greater,
        }
    });
    let mut w = v.clone();
    w.sort_unstable();
    assert_eq!(w, (0..n as u32).collect::<Vec<u32>>());
}
