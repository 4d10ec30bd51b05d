use chain_vote::babystep::{
    baby_step_giant_step, integer_ceil_sqrt, solve_discrete_logs, BabyStepsTable, MaxLogExceeded,
    DEFAULT_BALANCE,
};
use chain_vote::group::GroupElement;
use chain_vote::scalar::Scalar;

fn multiple_of_generator(k: u64) -> GroupElement {
    GroupElement::generator().mul(&Scalar::from_u64(k))
}

#[test]
fn bsgs() {
    let table = BabyStepsTable::generate_with_balance(25, 1);
    let p = GroupElement::generator();
    let votes = (0..100).collect::<Vec<_>>();
    let points = votes
        .iter()
        .map(|k| {
            let ks = Scalar::from_u64(*k);
            p.mul(&ks)
        })
        .collect();
    let results = baby_step_giant_step(points, 100, &table).unwrap();
    assert_eq!(votes, results);
}

#[test]
fn ceil_sqrt_values() {
    assert_eq!(integer_ceil_sqrt(0), 0);
    assert_eq!(integer_ceil_sqrt(1), 1);
    assert_eq!(integer_ceil_sqrt(2), 2);
    assert_eq!(integer_ceil_sqrt(4), 2);
    assert_eq!(integer_ceil_sqrt(5), 3);
    assert_eq!(integer_ceil_sqrt(24), 5);
    assert_eq!(integer_ceil_sqrt(25), 5);
    assert_eq!(integer_ceil_sqrt(26), 6);
    assert_eq!(integer_ceil_sqrt(1_000_000), 1000);
    assert_eq!(integer_ceil_sqrt(1_000_001), 1001);
    assert_eq!(integer_ceil_sqrt(u64::MAX), 1 << 32);
}

#[test]
fn baby_step_size_follows_the_formula() {
    assert_eq!(BabyStepsTable::generate_with_balance(25, 1).baby_step_size(), 5);
    assert_eq!(BabyStepsTable::generate_with_balance(26, 3).baby_step_size(), 18);
    assert_eq!(BabyStepsTable::generate(100).baby_step_size(), 20);
    assert_eq!(BabyStepsTable::generate(0).baby_step_size(), 0);
}

#[test]
fn solves_the_boundaries() {
    let max_value = 400;
    let table = BabyStepsTable::generate(max_value);
    assert_eq!(table.solve(&GroupElement::zero(), max_value), Ok(0));
    assert_eq!(table.solve(&multiple_of_generator(1), max_value), Ok(1));
    assert_eq!(
        table.solve(&multiple_of_generator(max_value), max_value),
        Ok(max_value)
    );
}

#[test]
fn solves_every_value_up_to_the_bound() {
    let max_value = 60;
    for balance in 1..4 {
        let table = BabyStepsTable::generate_with_balance(max_value, balance);
        let g = GroupElement::generator();
        let mut p = GroupElement::zero();
        for x in 0..=max_value {
            assert_eq!(table.solve(&p, max_value), Ok(x));
            p = p.add(&g);
        }
    }
}

#[test]
fn bound_is_enforced() {
    // baby step size 5: the search makes 21 giant steps for max_log 100
    // and reaches 21 * 5 + 2
    let table = BabyStepsTable::generate_with_balance(25, 1);
    assert_eq!(table.solve(&multiple_of_generator(107), 100), Ok(107));
    assert_eq!(
        table.solve(&multiple_of_generator(108), 100),
        Err(MaxLogExceeded)
    );
    assert_eq!(
        table.solve(&multiple_of_generator(1_000_000), 100),
        Err(MaxLogExceeded)
    );
    assert_eq!(table.solve(&multiple_of_generator(30), 0), Err(MaxLogExceeded));
    assert_eq!(table.solve(&multiple_of_generator(7), 0), Ok(7));
}

#[test]
fn negative_multiples_exceed_every_bound() {
    let table = BabyStepsTable::generate_with_balance(25, 1);
    let minus_one = GroupElement::generator().negate();
    assert_eq!(table.solve(&minus_one, 100), Err(MaxLogExceeded));
    let minus_two = minus_one.add(&minus_one);
    assert_eq!(table.solve(&minus_two, u64::MAX), Err(MaxLogExceeded));
}

#[test]
fn search_without_baby_steps_ends() {
    let table = BabyStepsTable::generate_with_balance(25, 0);
    assert_eq!(table.baby_step_size(), 0);
    assert_eq!(table.solve(&GroupElement::zero(), 10), Ok(0));
    assert_eq!(
        table.solve(&GroupElement::generator(), 10),
        Err(MaxLogExceeded)
    );
}

#[test]
fn batch_keeps_the_order() {
    let table = BabyStepsTable::generate(1000);
    let logs: Vec<u64> = vec![999, 0, 17, 512, 3, 3, 640, 1];
    let points: Vec<GroupElement> = logs.iter().map(|k| multiple_of_generator(*k)).collect();
    assert_eq!(baby_step_giant_step(points, 1000, &table), Ok(logs));
}

#[test]
fn batch_fails_where_one_target_is_out_of_reach() {
    let table = BabyStepsTable::generate_with_balance(25, 1);
    let points = vec![
        multiple_of_generator(3),
        multiple_of_generator(5000),
        multiple_of_generator(4),
    ];
    assert_eq!(
        baby_step_giant_step(points, 100, &table),
        Err(MaxLogExceeded)
    );
    assert_eq!(baby_step_giant_step(Vec::new(), 100, &table), Ok(Vec::new()));
}

#[test]
fn large_bound_with_large_steps() {
    let table = BabyStepsTable::generate(1 << 20);
    assert_eq!(table.baby_step_size(), 2048);
    for x in [0u64, 1, 1023, 1024, 1025, 2047, 2048, 123_456, 1 << 20] {
        assert_eq!(table.solve(&multiple_of_generator(x), 1 << 20), Ok(x));
    }
}

#[test]
fn each_target_has_its_own_result() {
    let table = BabyStepsTable::generate_with_balance(25, 1);
    let points = vec![
        multiple_of_generator(99),
        multiple_of_generator(5000),
        GroupElement::zero(),
        GroupElement::generator().negate(),
        multiple_of_generator(107),
        multiple_of_generator(108),
    ];
    assert_eq!(
        solve_discrete_logs(&table, &points, 100),
        vec![
            Ok(99),
            Err(MaxLogExceeded),
            Ok(0),
            Err(MaxLogExceeded),
            Ok(107),
            Err(MaxLogExceeded)
        ]
    );
    assert_eq!(solve_discrete_logs(&table, &[], 100), Vec::new());
}

#[test]
fn default_balance_doubles_the_baby_steps() {
    assert_eq!(DEFAULT_BALANCE, 2);
    assert_eq!(
        BabyStepsTable::generate(10_000).baby_step_size(),
        BabyStepsTable::generate_with_balance(10_000, 2).baby_step_size()
    );
    assert_eq!(BabyStepsTable::generate(10_000).baby_step_size(), 200);
}
