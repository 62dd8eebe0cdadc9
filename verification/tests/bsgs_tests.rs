use bsgs::solver::make_ranges;
use bsgs::table::Table;
use bsgs::uint::Uint;
use bsgs::{Parallel, BSGS};

#[test]
fn it_works() {
    let answer = Uint::from_u64(4178319614);
    let g = Uint::from_u64(2);
    let h = Uint::from_u64(4178319614);
    let p = Uint::from_u64(6971096459);
    let result = BSGS::run(&g, &h, &p);
    let c = g.modpow(&result.unwrap(), &p);
    assert_eq!(c, answer);
}

#[test]
fn it_works_2() {
    let answer = Uint::from_u64(362073897);
    let g = Uint::from_u64(3);
    let h = Uint::from_u64(362073897);
    let p = Uint::from_u64(2500000001);
    let result = BSGS::run(&g, &h, &p);
    let c = g.modpow(&result.unwrap(), &p);
    assert_eq!(c, answer);
}

#[test]
fn it_works_3() {
    let answer = Uint::from_u64(362073897);
    let g = Uint::from_u64(3);
    let h = Uint::from_u64(362073897);
    let p = Uint::from_u64(2500000001);
    let result = Parallel::run(&g, &h, &p);
    let c = g.modpow(&result.unwrap(), &p);
    assert_eq!(c, answer);
}

#[test]
fn it_works_4() {
    let answer = Uint::from_u64(4178319614);
    let g = Uint::from_u64(2);
    let h = Uint::from_u64(4178319614);
    let p = Uint::from_u64(6971096459);
    let result = Parallel::run(&g, &h, &p);
    let c = g.modpow(&result.unwrap(), &p);
    assert_eq!(c, answer);
}

#[test]
fn sequential_and_parallel_agree() {
    let g = Uint::from_u64(2);
    let h = Uint::from_u64(4178319614);
    let p = Uint::from_u64(6971096459);
    assert_eq!(BSGS::run(&g, &h, &p), Parallel::run(&g, &h, &p));
    let g2 = Uint::from_u64(3);
    let h2 = Uint::from_u64(362073897);
    let p2 = Uint::from_u64(2500000001);
    assert_eq!(BSGS::run(&g2, &h2, &p2), Parallel::run(&g2, &h2, &p2));
}

#[test]
fn worker_count_does_not_change_the_answer() {
    let g = Uint::from_u64(3);
    let h = Uint::from_u64(362073897);
    let p = Uint::from_u64(2500000001);
    let sequential = BSGS::run(&g, &h, &p);
    for workers in [1usize, 2, 3, 7, 64] {
        let g2 = Uint::from_u64(3);
        let h2 = Uint::from_u64(362073897);
        let p2 = Uint::from_u64(2500000001);
        assert_eq!(
            Parallel::run_with_workers(&g2, &h2, &p2, workers),
            sequential
        );
    }
}

#[test]
fn target_outside_subgroup_gives_none() {
    // modulo 11, the subgroup generated by 3 is {1, 3, 9, 5, 4}; 2 is not in it
    let g = Uint::from_u64(3);
    let h = Uint::from_u64(2);
    let p = Uint::from_u64(11);
    assert_eq!(BSGS::run(&g, &h, &p), None);
    assert_eq!(Parallel::run(&g, &h, &p), None);
}

#[test]
fn boundary_smallest_modulus() {
    let g = Uint::from_u64(1);
    let h = Uint::from_u64(1);
    let p = Uint::from_u64(2);
    let result = BSGS::run(&g, &h, &p).unwrap();
    let c = g.modpow(&result, &p);
    assert_eq!(c, Uint::from_u64(1));
    let result_par = Parallel::run(&g, &h, &p).unwrap();
    let c2 = Uint::from_u64(1).modpow(&result_par, &p);
    assert_eq!(c2, Uint::from_u64(1));
}

#[test]
fn partition_covers_range_exactly() {
    for workers in 1usize..=64 {
        for m in [1u64, 2, 3, 5, 63, 64, 65, 1000, 4096] {
            let ranges = make_ranges(m, workers);
            assert_eq!(ranges.len(), workers);
            assert_eq!(ranges[0].0, 0);
            assert_eq!(ranges[workers - 1].1, m);
            let chunk = m / (workers as u64);
            for k in 0..workers {
                let (start, end) = ranges[k];
                assert!(start <= end);
                if k > 0 {
                    assert_eq!(start, ranges[k - 1].1);
                }
                if k < workers - 1 {
                    assert_eq!(end - start, chunk);
                }
            }
        }
    }
}

#[test]
fn table_keeps_last_writer() {
    let mut t = Table::new(4);
    t.insert(Uint::from_u64(7), 1);
    t.insert(Uint::from_u64(9), 2);
    t.insert(Uint::from_u64(7), 5);
    assert_eq!(t.get(&Uint::from_u64(7)), Some(5));
    assert_eq!(t.get(&Uint::from_u64(9)), Some(2));
    assert_eq!(t.get(&Uint::from_u64(8)), None);
}

#[test]
fn modpow_concrete_values() {
    let two = Uint::from_u64(2);
    let ten = Uint::from_u64(10);
    let thousand = Uint::from_u64(1000);
    assert_eq!(two.modpow(&ten, &thousand), Uint::from_u64(24));
    let zero = Uint::from_u64(0);
    assert_eq!(two.modpow(&zero, &thousand), Uint::from_u64(1));
}

#[test]
fn arithmetic_concrete_values() {
    assert_eq!(
        Uint::from_u64(6).times(&Uint::from_u64(7)),
        Uint::from_u64(42)
    );
    assert_eq!(
        Uint::from_u64(1).plus(&Uint::from_u64(2)),
        Uint::from_u64(3)
    );
    assert_eq!(
        Uint::from_u64(10).minus(&Uint::from_u64(4)),
        Uint::from_u64(6)
    );
    assert_eq!(
        Uint::from_u64(17).modulo(&Uint::from_u64(5)),
        Uint::from_u64(2)
    );
    assert_eq!(Uint::from_u64(15).sqrt_floor(), Uint::from_u64(3));
    assert_eq!(Uint::from_u64(16).sqrt_floor(), Uint::from_u64(4));
    assert_eq!(Uint::from_u64(123456789).to_u64(), Some(123456789));
}

#[test]
fn digits_beyond_machine_words() {
    // 2^32 times 2^32 is 2^64, one digit beyond a u64
    let b32 = Uint::from_limbs(vec![0, 1]);
    let b64 = b32.times(&Uint::from_limbs(vec![0, 1]));
    assert_eq!(b64, Uint::from_limbs(vec![0, 0, 1]));
    assert_eq!(b64.to_u64(), None);
    assert_eq!(b64.minus(&Uint::from_u64(1)).to_u64(), Some(u64::MAX));
}

#[test]
fn limbs_are_canonicalised() {
    let a = Uint::from_limbs(vec![5, 0, 0]);
    assert_eq!(a, Uint::from_u64(5));
    assert_eq!(a.low_digit(), 5);
    assert_eq!(Uint::from_limbs(a.digits()), Uint::from_u64(5));
    let copy = a.duplicate();
    assert_eq!(copy, a);
}

#[test]
fn label_round_trip() {
    let b = BSGS::new(String::from("baby-step giant-step"));
    assert_eq!(b.label().as_str(), "baby-step giant-step");
}
