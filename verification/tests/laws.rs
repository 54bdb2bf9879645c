use ternary_automata::{
    detect_pattern, hamming_distance, state_counts, state_to_string, state_to_visual, Boundary,
    CASimulator, TernaryRule,
};

const THREE_POW_27: u128 = 7625597484987;

#[test]
fn named_rule_wolfram_numbers() {
    assert_eq!(TernaryRule::identity().wolfram_number(), 7479532539765);
    assert_eq!(TernaryRule::left_shift().wolfram_number(), 7625403764901);
    assert_eq!(TernaryRule::rule_110_ternary().wolfram_number(), 2201243116917);
    assert_eq!(TernaryRule::majority().wolfram_number(), 7593391528911);
    assert_eq!(TernaryRule::zero().wolfram_number(), 0);
}

#[test]
fn from_table_roundtrips_through_wolfram_number() {
    let mut table = [0u8; 27];
    for i in 0..27 {
        table[i] = ((i * 7 + 1) % 3) as u8;
    }
    let rule = TernaryRule::from_table(table);
    assert_eq!(rule.table(), &table);
    let w = rule.wolfram_number();
    assert!(w < THREE_POW_27);
    assert_eq!(TernaryRule::from_wolfram(w), rule);
    assert_eq!(TernaryRule::from_wolfram(w).table(), &table);
}

#[test]
fn from_wolfram_decodes_base3_digits() {
    let rule = TernaryRule::from_wolfram(THREE_POW_27 + 5);
    assert_eq!(rule.table()[0], 2);
    assert_eq!(rule.table()[1], 1);
    assert_eq!(rule.table()[2], 0);
    // The table only holds the lowest 27 digits.
    assert_eq!(rule.wolfram_number(), 5);
    assert_eq!(rule.apply_neighborhood(0, 0, 0), 2);
    assert_eq!(rule.apply_neighborhood(0, 0, 1), 1);
}

#[test]
fn from_wolfram_number_matches_from_wolfram() {
    let a = TernaryRule::from_wolfram_number(5);
    let b = TernaryRule::from_wolfram(5);
    assert_eq!(a, b);
    assert_eq!(a.table()[0], 2);
    assert_eq!(a.table()[1], 1);
    assert_eq!(TernaryRule::from_wolfram_number(7479532539765), TernaryRule::identity());
    assert_eq!(TernaryRule::from_wolfram_number(0), TernaryRule::zero());
    // Beyond 3^27 the table holds the lowest 27 digits; the number is kept whole.
    let c = TernaryRule::from_wolfram_number(THREE_POW_27 + 5);
    assert_eq!(c.table(), b.table());
    assert_eq!(c.wolfram_number(), 5);
    assert_ne!(c, b);
    assert_eq!(c, TernaryRule::from_wolfram(THREE_POW_27 + 5));
}

#[test]
fn majority_ties_go_to_the_greatest_state() {
    let rule = TernaryRule::majority();
    assert_eq!(rule.apply_neighborhood(0, 1, 2), 2);
    assert_eq!(rule.apply_neighborhood(2, 0, 1), 2);
    assert_eq!(rule.apply_neighborhood(1, 0, 1), 1);
    assert_eq!(rule.apply_neighborhood(0, 2, 2), 2);
    for v in 0..3u8 {
        assert_eq!(rule.apply_neighborhood(v, v, v), v);
    }
}

#[test]
fn xor_rule_is_rule_110_ternary() {
    assert_eq!(TernaryRule::xor_rule(), TernaryRule::rule_110_ternary());
    let rule = TernaryRule::rule_110_ternary();
    for l in 0..3u8 {
        for c in 0..3u8 {
            for r in 0..3u8 {
                assert_eq!(rule.apply_neighborhood(l, c, r), (l + c + r) % 3);
            }
        }
    }
}

#[test]
fn fixed_boundary_feeds_its_value() {
    let mut sim = CASimulator::new(TernaryRule::left_shift(), vec![0, 1, 2], Boundary::Fixed(2));
    sim.step();
    assert_eq!(sim.state(), &[2, 0, 1]);
    let mut sim = CASimulator::new(TernaryRule::xor_rule(), vec![0, 0], Boundary::Fixed(1));
    sim.step();
    // cell 0: 1 + 0 + 0, cell 1: 0 + 0 + 1
    assert_eq!(sim.state(), &[1, 1]);
}

#[test]
fn zero_boundary_feeds_zero() {
    let mut sim = CASimulator::new(TernaryRule::left_shift(), vec![2, 1, 2], Boundary::Zero);
    sim.step();
    assert_eq!(sim.state(), &[0, 2, 1]);
}

#[test]
fn step_n_composes() {
    let start = vec![0, 1, 2, 2, 0, 1, 1];
    let mut a = CASimulator::new(TernaryRule::majority(), start.clone(), Boundary::Periodic);
    a.step_n(2);
    a.step_n(3);
    let mut b = CASimulator::new(TernaryRule::majority(), start.clone(), Boundary::Periodic);
    b.step_n(5);
    assert_eq!(a.state(), b.state());
    let mut c = CASimulator::new(TernaryRule::majority(), start.clone(), Boundary::Periodic);
    for _ in 0..5 {
        c.step();
    }
    assert_eq!(b.state(), c.state());
    let mut d = CASimulator::new(TernaryRule::majority(), start.clone(), Boundary::Periodic);
    d.step_n(0);
    assert_eq!(d.state(), &start[..]);
}

#[test]
fn run_records_every_generation() {
    let mut sim = CASimulator::new(TernaryRule::left_shift(), vec![1, 2, 0], Boundary::Periodic);
    let history = sim.run(3);
    assert_eq!(history, vec![vec![1, 2, 0], vec![0, 1, 2], vec![2, 0, 1], vec![1, 2, 0]]);
    assert_eq!(sim.state(), &[1, 2, 0]);
    let mut sim = CASimulator::new(TernaryRule::left_shift(), vec![1, 2, 0], Boundary::Periodic);
    assert_eq!(sim.run(0), vec![vec![1, 2, 0]]);
}

#[test]
fn find_cycle_reports_first_repeat() {
    // Identity: the state repeats at once.
    let mut sim = CASimulator::new(TernaryRule::identity(), vec![2, 0, 1], Boundary::Zero);
    assert_eq!(sim.find_cycle(10), Some((0, 1)));
    assert_eq!(sim.state(), &[2, 0, 1]);
    // Rotation of three distinct cells: period 3.
    let mut sim = CASimulator::new(TernaryRule::left_shift(), vec![1, 2, 0], Boundary::Periodic);
    assert_eq!(sim.find_cycle(10), Some((0, 3)));
    // Zero rule from a non-zero state: zeros after one step, then fixed.
    let mut sim = CASimulator::new(TernaryRule::zero(), vec![1, 0, 2], Boundary::Zero);
    assert_eq!(sim.find_cycle(100), Some((1, 1)));
    assert_eq!(sim.state(), &[0, 0, 0]);
}

#[test]
fn find_cycle_gives_up_after_max_steps() {
    let mut sim = CASimulator::new(TernaryRule::left_shift(), vec![1, 2, 0], Boundary::Periodic);
    assert_eq!(sim.find_cycle(2), None);
    assert_eq!(sim.state(), &[2, 0, 1]);
    let mut sim = CASimulator::new(TernaryRule::identity(), vec![1], Boundary::Zero);
    assert_eq!(sim.find_cycle(0), None);
}

#[test]
fn find_cycle_always_succeeds_within_three_to_the_width() {
    // A row of 2 cells has 9 states, so 9 generations always suffice.
    let rules = [
        TernaryRule::identity(),
        TernaryRule::zero(),
        TernaryRule::majority(),
        TernaryRule::rule_110_ternary(),
        TernaryRule::left_shift(),
        TernaryRule::from_wolfram(1234567890123),
    ];
    for rule in rules.iter() {
        for a in 0..3u8 {
            for b in 0..3u8 {
                let mut sim = CASimulator::new(*rule, vec![a, b], Boundary::Periodic);
                let (pre, period) = sim.find_cycle(9).unwrap();
                assert!(period > 0 && pre + period <= 9);
            }
        }
    }
}

#[test]
fn detect_pattern_edge_cases() {
    assert_eq!(detect_pattern(&[]), None);
    assert_eq!(detect_pattern(&[vec![1], vec![1]]), None);
    assert_eq!(detect_pattern(&[vec![1], vec![2], vec![0]]), None);
    // The earliest equal state gives the distance.
    assert_eq!(detect_pattern(&[vec![1], vec![1], vec![1]]), Some(2));
    assert_eq!(detect_pattern(&[vec![0], vec![1], vec![2], vec![1]]), Some(2));
    assert_eq!(detect_pattern(&[vec![0, 1], vec![0], vec![0]]), Some(1));
}

#[test]
fn state_renderings() {
    assert_eq!(state_to_string(&[]), "");
    assert_eq!(state_to_string(&[2, 1, 0, 9]), "2109");
    assert_eq!(state_to_visual(&[0, 1, 2, 7]), "\u{2591}\u{2592}\u{2593}?");
}

#[test]
fn state_counts_add_up_to_length() {
    let state = [2, 2, 1, 0, 2, 1, 2];
    let counts = state_counts(&state);
    assert_eq!(counts, [1, 2, 4]);
    assert_eq!(counts[0] + counts[1] + counts[2], state.len());
    assert_eq!(state_counts(&[]), [0, 0, 0]);
}

#[test]
fn hamming_distance_properties() {
    let a = [0, 1, 2, 2, 1];
    let b = [1, 1, 0, 2];
    assert_eq!(hamming_distance(&a, &a), 0);
    assert_eq!(hamming_distance(&a, &b), 2);
    assert_eq!(hamming_distance(&b, &a), 2);
    assert_eq!(hamming_distance(&a, &[]), 0);
}
