use ternary_automata::{
    detect_pattern, hamming_distance, state_counts, state_to_string, state_to_visual, Boundary,
    CASimulator, TernaryRule,
};

#[test]
fn test_identity_rule() {
    let rule = TernaryRule::identity();
    for l in 0..3u8 {
        for c in 0..3u8 {
            for r in 0..3u8 {
                assert_eq!(rule.apply_neighborhood(l, c, r), c);
            }
        }
    }
}

#[test]
fn test_zero_rule() {
    let rule = TernaryRule::zero();
    for l in 0..3u8 {
        for c in 0..3u8 {
            for r in 0..3u8 {
                assert_eq!(rule.apply_neighborhood(l, c, r), 0);
            }
        }
    }
}

#[test]
fn test_wolfram_roundtrip() {
    let rule = TernaryRule::identity();
    let w = rule.wolfram_number();
    let rule2 = TernaryRule::from_wolfram(w);
    assert_eq!(rule, rule2);
}

#[test]
fn test_majority_rule() {
    let rule = TernaryRule::majority();
    assert_eq!(rule.apply_neighborhood(0, 0, 1), 0);
    assert_eq!(rule.apply_neighborhood(1, 1, 0), 1);
    assert_eq!(rule.apply_neighborhood(0, 1, 0), 0);
    assert_eq!(rule.apply_neighborhood(2, 2, 1), 2);
}

#[test]
fn test_xor_rule() {
    let rule = TernaryRule::xor_rule();
    assert_eq!(rule.apply_neighborhood(0, 0, 0), 0);
    assert_eq!(rule.apply_neighborhood(1, 1, 1), 0); // 3 mod 3 = 0
    assert_eq!(rule.apply_neighborhood(1, 0, 0), 1);
    assert_eq!(rule.apply_neighborhood(2, 2, 0), 1); // 4 mod 3 = 1
}

#[test]
fn test_left_shift_rule() {
    let rule = TernaryRule::left_shift();
    assert_eq!(rule.apply_neighborhood(2, 1, 0), 2);
    assert_eq!(rule.apply_neighborhood(0, 2, 1), 0);
}

#[test]
fn test_simulator_identity_no_change() {
    let rule = TernaryRule::identity();
    let state = vec![0, 1, 2, 1, 0];
    let mut sim = CASimulator::new(rule, state.clone(), Boundary::Zero);
    sim.step();
    assert_eq!(sim.state(), &state);
}

#[test]
fn test_simulator_zero_rule() {
    let rule = TernaryRule::zero();
    let state = vec![1, 2, 0, 1, 2];
    let mut sim = CASimulator::new(rule, state, Boundary::Zero);
    sim.step();
    assert_eq!(sim.state(), &[0, 0, 0, 0, 0]);
}

#[test]
fn test_simulator_periodic_boundary() {
    let rule = TernaryRule::left_shift();
    let state = vec![1, 2, 0];
    let mut sim = CASimulator::new(rule, state, Boundary::Periodic);
    sim.step();
    // Left shift with periodic: each cell takes its left neighbor
    // index 0: left = state[2] = 0
    // index 1: left = state[0] = 1
    // index 2: left = state[1] = 2
    assert_eq!(sim.state(), &[0, 1, 2]);
}

#[test]
fn test_find_cycle_zero_rule() {
    let rule = TernaryRule::zero();
    let state = vec![1, 0, 2];
    let mut sim = CASimulator::new(rule, state, Boundary::Zero);
    // After step 1: all zeros. Step 2: still all zeros. Cycle of period 1.
    let cycle = sim.find_cycle(100);
    assert!(cycle.is_some());
    let (_preperiod, period) = cycle.unwrap();
    assert_eq!(period, 1); // all zeros is a fixed point
}

#[test]
fn test_find_cycle_xor() {
    let rule = TernaryRule::xor_rule();
    let state = vec![0, 1, 2];
    let mut sim = CASimulator::new(rule, state, Boundary::Periodic);
    let cycle = sim.find_cycle(1000);
    assert!(cycle.is_some());
}

#[test]
fn test_detect_pattern() {
    let history = vec![
        vec![1, 0, 2],
        vec![0, 2, 1],
        vec![1, 0, 2], // repeats first
    ];
    assert_eq!(detect_pattern(&history), Some(2));
}

#[test]
fn test_state_to_string() {
    assert_eq!(state_to_string(&[0, 1, 2]), "012");
}

#[test]
fn test_state_to_visual() {
    let vis = state_to_visual(&[0, 1, 2]);
    assert_eq!(vis.chars().count(), 3);
}

#[test]
fn test_state_counts() {
    assert_eq!(state_counts(&[0, 1, 2, 0, 0]), [3, 1, 1]);
}

#[test]
fn test_hamming_distance() {
    assert_eq!(hamming_distance(&[0, 1, 2], &[0, 1, 2]), 0);
    assert_eq!(hamming_distance(&[0, 1, 2], &[1, 1, 2]), 1);
    assert_eq!(hamming_distance(&[0, 1, 2], &[2, 1, 0]), 2);
}

#[test]
fn test_run_history() {
    let rule = TernaryRule::zero();
    let state = vec![1, 2, 0];
    let mut sim = CASimulator::new(rule, state, Boundary::Zero);
    let history = sim.run(2);
    assert_eq!(history.len(), 3);
    assert_eq!(history[1], vec![0, 0, 0]);
    assert_eq!(history[2], vec![0, 0, 0]);
}

#[test]
fn test_rule_110_ternary_wolfram_number() {
    let rule = TernaryRule::rule_110_ternary();
    // The wolfram number should be deterministic
    let w = rule.wolfram_number();
    assert!(w > 0); // Not the zero rule
}
