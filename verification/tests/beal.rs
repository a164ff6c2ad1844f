use beal_search::factor::{check_common_factors, factorize};
use beal_search::power::{list_power_numbers, PowerNumber};
use beal_search::scan::{run_beal_analysis, scan_for_solutions, Solution};

#[test]
fn test_list_power_numbers() {
    let gen_pns = list_power_numbers(100);
    let test_pns = vec![
        PowerNumber::new(1, 3, 1),
        PowerNumber::new(2, 3, 8),
        PowerNumber::new(2, 4, 16),
        PowerNumber::new(2, 5, 32),
        PowerNumber::new(2, 6, 64),
        PowerNumber::new(3, 3, 27),
        PowerNumber::new(3, 4, 81),
        PowerNumber::new(4, 3, 64),
    ];
    assert_eq!(gen_pns.len(), test_pns.len());
    for pn in test_pns.iter() {
        assert!(gen_pns.contains(pn));
    }
}

#[test]
fn test_list_power_numbers_order() {
    // base-ascending, then exponent-ascending, with the base-1 entry first
    let gen_pns = list_power_numbers(100);
    let expected = vec![
        PowerNumber::new(1, 3, 1),
        PowerNumber::new(2, 3, 8),
        PowerNumber::new(2, 4, 16),
        PowerNumber::new(2, 5, 32),
        PowerNumber::new(2, 6, 64),
        PowerNumber::new(3, 3, 27),
        PowerNumber::new(3, 4, 81),
        PowerNumber::new(4, 3, 64),
    ];
    assert_eq!(gen_pns, expected);
}

#[test]
fn test_list_power_numbers_small_limits() {
    // the base-1 representative is always present, even at limit 0
    assert_eq!(list_power_numbers(0), vec![PowerNumber::new(1, 3, 1)]);
    assert_eq!(list_power_numbers(1), vec![PowerNumber::new(1, 3, 1)]);
    // 2^3 = 8 is the first power number above the base-1 entry
    assert_eq!(list_power_numbers(7), vec![PowerNumber::new(1, 3, 1)]);
    assert_eq!(
        list_power_numbers(8),
        vec![PowerNumber::new(1, 3, 1), PowerNumber::new(2, 3, 8)]
    );
}

#[test]
fn test_list_power_numbers_invariant() {
    for pn in list_power_numbers(10_000).iter() {
        assert!(pn.exponent >= 3);
        assert_eq!(pn.base.pow(pn.exponent as u32), pn.result);
        assert!(pn.result <= 10_000);
    }
}

#[test]
fn test_factorize() {
    assert_eq!(factorize(&1), vec![1]);
    assert_eq!(factorize(&2), vec![2]);
    assert_eq!(factorize(&3), vec![3]);
    assert_eq!(factorize(&4), vec![2, 4]);
    assert_eq!(factorize(&5), vec![5]);
    assert_eq!(factorize(&6), vec![2, 3, 6]);
    assert_eq!(factorize(&7), vec![7]);
    assert_eq!(factorize(&8), vec![2, 4, 8]);
    assert_eq!(factorize(&9), vec![3, 9]);
    assert_eq!(factorize(&10), vec![2, 5, 10]);
    assert_eq!(factorize(&84), vec![2, 3, 4, 6, 7, 12, 14, 21, 28, 42, 84]);
}

#[test]
fn test_check_common_factors_valid() {
    let sample_valid_solutions = vec![
        Solution { a: 2, b: 2, c: 2, x: 3, y: 3, z: 4 },      // 16
        Solution { a: 7, b: 7, c: 14, x: 3, y: 4, z: 3 },     // 2744
        Solution { a: 28, b: 84, c: 28, x: 3, y: 3, z: 4 },   // 614656
        Solution { a: 35, b: 310, c: 435, x: 5, y: 3, z: 3 }, // 82312875
    ];
    for solution in sample_valid_solutions {
        match check_common_factors(&solution) {
            None => {
                println!("Failed test case: {:?}", solution);
                panic!("Test cases should all be valid Beal Solutions with common factors.")
            }
            Some(factor) => {
                assert!(factorize(&solution.a).contains(&factor));
                assert!(factorize(&solution.b).contains(&factor));
                assert!(factorize(&solution.c).contains(&factor));
            }
        }
    }
}

#[test]
fn test_check_common_factors_invalid() {
    let sample_invalid_solutions = vec![
        Solution { a: 2, b: 3, c: 5, x: 3, y: 3, z: 3 },
        Solution { a: 7, b: 19, c: 31, x: 3, y: 4, z: 3 },
        Solution { a: 101, b: 113, c: 337, x: 3, y: 3, z: 4 },
        Solution { a: 10, b: 11, c: 13131313, x: 5, y: 3, z: 3 },
    ];
    for solution in sample_invalid_solutions {
        if let Some(factor) = check_common_factors(&solution) {
            println!("Failed test case: {:?} -> Factor = {}", solution, factor);
            panic!("Test cases should not share common factors.");
        }
    }
}

#[test]
fn test_check_common_factors_smallest() {
    // divisor sets: 12 -> {2,3,4,6,12}, 18 -> {2,3,6,9,18}, 6 -> {2,3,6};
    // the smallest shared divisor is returned
    let solution = Solution { a: 12, b: 18, c: 6, x: 3, y: 3, z: 3 };
    assert_eq!(check_common_factors(&solution), Some(2));
}

#[test]
fn test_scan_for_solutions() {
    let power_numbers = list_power_numbers(100);
    let ss = scan_for_solutions(power_numbers, 100);
    // every inner iteration takes exactly one of the three paths
    assert_eq!(
        ss.inner_loop_count,
        ss.limit_breaks + ss.continue_count + ss.solutions.len() as u64
    );
    // every emitted solution holds exactly and stays within the limit
    for s in ss.solutions.iter() {
        assert_eq!(s.a.pow(s.x as u32) + s.b.pow(s.y as u32), s.c.pow(s.z as u32));
        assert!(s.c.pow(s.z as u32) <= 100);
    }
    // 2^3 + 2^3 = 2^4 is found
    assert!(ss
        .solutions
        .iter()
        .any(|s| (s.a, s.b, s.c, s.x, s.y, s.z) == (2, 2, 2, 3, 3, 4)));
    // for the colliding result 64 = 2^6 = 4^3 the lookup keeps the entry
    // inserted last, so 2^5 + 2^5 matches 4^3
    assert!(ss
        .solutions
        .iter()
        .any(|s| (s.a, s.b, s.c, s.x, s.y, s.z) == (2, 2, 4, 5, 5, 3)));
}

#[test]
fn test_scan_counters_exact() {
    // power numbers up to 16: (1,3,1), (2,3,8), (2,4,16); sorted results
    // 1, 8, 16.  Sums within the limit that hit the lookup: 8 + 8 = 16.
    let power_numbers = list_power_numbers(16);
    let ss = scan_for_solutions(power_numbers, 16);
    assert_eq!(ss.solutions.len(), 1);
    assert_eq!(
        (
            ss.solutions[0].a,
            ss.solutions[0].b,
            ss.solutions[0].c,
            ss.solutions[0].x,
            ss.solutions[0].y,
            ss.solutions[0].z
        ),
        (2, 2, 2, 3, 3, 4)
    );
    assert_eq!(ss.inner_loop_count, 7);
    assert_eq!(ss.limit_breaks, 3);
    assert_eq!(ss.continue_count, 3);
}

#[test]
fn test_scan_no_solutions() {
    // up to 10 the only results are 1 and 8; no two sum to another
    let power_numbers = list_power_numbers(10);
    let ss = scan_for_solutions(power_numbers, 10);
    assert!(ss.solutions.is_empty());
    assert_eq!(ss.inner_loop_count, 4);
    assert_eq!(ss.limit_breaks, 1);
    assert_eq!(ss.continue_count, 3);
}

#[test]
fn test_scan_idempotent() {
    let power_numbers = list_power_numbers(1000);
    let first = scan_for_solutions(power_numbers.clone(), 1000);
    let second = scan_for_solutions(power_numbers, 1000);
    assert_eq!(first.solutions, second.solutions);
    assert_eq!(first.limit_breaks, second.limit_breaks);
    assert_eq!(first.inner_loop_count, second.inner_loop_count);
    assert_eq!(first.continue_count, second.continue_count);
}

#[test]
fn test_run_beal_analysis() {
    let ss = run_beal_analysis(10_000);
    assert_eq!(
        ss.inner_loop_count,
        ss.limit_breaks + ss.continue_count + ss.solutions.len() as u64
    );
    for s in ss.solutions.iter() {
        assert_eq!(s.a.pow(s.x as u32) + s.b.pow(s.y as u32), s.c.pow(s.z as u32));
        assert!(s.c.pow(s.z as u32) <= 10_000);
        // Beal's conjecture holds on everything this search can reach
        assert!(check_common_factors(s).is_some());
    }
    // it agrees with generating and scanning by hand
    let by_hand = scan_for_solutions(list_power_numbers(10_000), 10_000);
    assert_eq!(ss.solutions, by_hand.solutions);
    assert_eq!(ss.inner_loop_count, by_hand.inner_loop_count);
    assert_eq!(ss.limit_breaks, by_hand.limit_breaks);
    assert_eq!(ss.continue_count, by_hand.continue_count);
}
