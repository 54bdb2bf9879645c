//! The cellular-automaton simulator: a rule, a row of cells and a boundary
//! condition, advanced one generation at a time.
use vstd::prelude::*;
use crate::base3::{all_cells, base3_value, lemma_base3_value_bound, lemma_digits_of_value, pow3};
use crate::rule::{
    identity_output, is_cell, left_output, neighborhood_index, realizes, zero_output, TernaryRule,
};

verus! {

/// Boundary conditions for the CA.
#[derive(Clone, Debug, PartialEq, Eq, Structural)]
pub enum Boundary {
    /// Fixed value at boundaries
    Fixed(u8),
    /// Periodic (wrap around)
    Periodic,
    /// Zero boundary
    Zero,
}

/// A row of `len` cells can be stepped under `b`: a fixed boundary value must be
/// a cell state unless the row is empty.
pub open spec fn boundary_fits(b: Boundary, len: nat) -> bool {
    b matches Boundary::Fixed(v) ==> v < 3 || len == 0
}

/// The left neighbor of cell `i` of `s` under boundary `b`.
pub open spec fn left_neighbor(s: Seq<u8>, b: Boundary, i: int) -> u8 {
    match b {
        Boundary::Fixed(v) => if i == 0 { v } else { s[i - 1] },
        Boundary::Periodic => if i == 0 { s[s.len() - 1] } else { s[i - 1] },
        Boundary::Zero => if i == 0 { 0 } else { s[i - 1] },
    }
}

/// The right neighbor of cell `i` of `s` under boundary `b`.
pub open spec fn right_neighbor(s: Seq<u8>, b: Boundary, i: int) -> u8 {
    match b {
        Boundary::Fixed(v) => if i == s.len() - 1 { v } else { s[i + 1] },
        Boundary::Periodic => if i == s.len() - 1 { s[0] } else { s[i + 1] },
        Boundary::Zero => if i == s.len() - 1 { 0 } else { s[i + 1] },
    }
}

/// One generation: every cell becomes the table's output for its neighborhood.
pub open spec fn next_state(table: Seq<u8>, s: Seq<u8>, b: Boundary) -> Seq<u8> {
    Seq::new(
        s.len(),
        |i: int|
            table[neighborhood_index(
                left_neighbor(s, b, i) as int,
                s[i] as int,
                right_neighbor(s, b, i) as int,
            )],
    )
}

/// The state after `k` generations.
pub open spec fn evolve(table: Seq<u8>, s: Seq<u8>, b: Boundary, k: nat) -> Seq<u8>
    decreases k,
{
    if k == 0 {
        s
    } else {
        next_state(table, evolve(table, s, b, (k - 1) as nat), b)
    }
}

/// Every cell strictly inside a row takes the table entry of its own
/// neighborhood `(s[i-1], s[i], s[i+1])`, whatever the boundary.
pub proof fn lemma_step_interior(table: Seq<u8>, s: Seq<u8>, b: Boundary, i: int)
    requires
        0 < i < s.len() - 1,
    ensures
        next_state(table, s, b)[i] == table[9 * (s[i - 1] as int) + 3 * (s[i] as int) + s[i + 1] as int],
{
}

/// The end cells of a row of at least two cells: a zero boundary feeds 0, a
/// fixed boundary feeds its value, a periodic boundary feeds the cell at the
/// other end.
pub proof fn lemma_step_edges(table: Seq<u8>, s: Seq<u8>, b: Boundary)
    requires
        s.len() >= 2,
    ensures
        ({
            let n = s.len() as int;
            let next = next_state(table, s, b);
            &&& next.len() == s.len()
            &&& b is Zero ==> next[0] == table[3 * (s[0] as int) + s[1] as int]
                && next[n - 1] == table[9 * (s[n - 2] as int) + 3 * (s[n - 1] as int)]
            &&& b is Periodic ==> next[0] == table[9 * (s[n - 1] as int) + 3 * (s[0] as int) + s[1] as int]
                && next[n - 1] == table[9 * (s[n - 2] as int) + 3 * (s[n - 1] as int) + s[0] as int]
            &&& b matches Boundary::Fixed(v) ==> next[0] == table[9 * (v as int) + 3 * (s[0] as int) + s[1] as int]
                && next[n - 1] == table[9 * (s[n - 2] as int) + 3 * (s[n - 1] as int) + v as int]
        }),
{
}

/// A row of one cell is its own left and right neighbor under a periodic
/// boundary, and sits between two boundary values otherwise.
pub proof fn lemma_step_single_cell(table: Seq<u8>, s: Seq<u8>, b: Boundary)
    requires
        s.len() == 1,
    ensures
        ({
            let next = next_state(table, s, b);
            &&& next.len() == 1
            &&& b is Zero ==> next[0] == table[3 * (s[0] as int)]
            &&& b is Periodic ==> next[0] == table[13 * (s[0] as int)]
            &&& b matches Boundary::Fixed(v) ==> next[0] == table[10 * (v as int) + 3 * (s[0] as int)]
        }),
{
}

/// The states after 0, 1, ..., n - 1 generations are pairwise different.
pub open spec fn distinct_until(table: Seq<u8>, s: Seq<u8>, b: Boundary, n: int) -> bool {
    forall|j1: nat, j2: nat|
        j1 < j2 < n ==> #[trigger] evolve(table, s, b, j1) != #[trigger] evolve(table, s, b, j2)
}

/// Distinct first states stay distinct over a shorter span.
pub proof fn lemma_distinct_until_shrinks(table: Seq<u8>, s: Seq<u8>, b: Boundary, m: int, n: int)
    requires
        m <= n,
        distinct_until(table, s, b, n),
    ensures
        distinct_until(table, s, b, m),
{
    assert forall|j1: nat, j2: nat| j1 < j2 < m implies #[trigger] evolve(table, s, b, j1)
        != #[trigger] evolve(table, s, b, j2) by {
        assert(j2 < n);
    }
}

/// One generation keeps the length of the row and, with a valid table and
/// boundary, keeps every cell a state.
pub proof fn lemma_next_state_cells(table: Seq<u8>, s: Seq<u8>, b: Boundary)
    requires
        table.len() == 27,
        all_cells(table),
        all_cells(s),
        boundary_fits(b, s.len()),
    ensures
        next_state(table, s, b).len() == s.len(),
        all_cells(next_state(table, s, b)),
{
}

/// Any number of generations keeps the length of the row and keeps every cell
/// a state.
pub proof fn lemma_evolve_cells(table: Seq<u8>, s: Seq<u8>, b: Boundary, k: nat)
    requires
        table.len() == 27,
        all_cells(table),
        all_cells(s),
        boundary_fits(b, s.len()),
    ensures
        evolve(table, s, b, k).len() == s.len(),
        all_cells(evolve(table, s, b, k)),
    decreases k,
{
    if k > 0 {
        lemma_evolve_cells(table, s, b, (k - 1) as nat);
        lemma_next_state_cells(table, evolve(table, s, b, (k - 1) as nat), b);
    }
}

/// Running `a` generations and then `c` more is running `a + c` generations.
pub proof fn lemma_evolve_add(table: Seq<u8>, s: Seq<u8>, b: Boundary, a: nat, c: nat)
    ensures
        evolve(table, evolve(table, s, b, a), b, c) == evolve(table, s, b, a + c),
    decreases c,
{
    if c > 0 {
        lemma_evolve_add(table, s, b, a, (c - 1) as nat);
        assert((a + c - 1) as nat == a + (c - 1) as nat);
    }
}

/// Once a state comes back after `q` generations, the run is periodic with
/// period `q` from then on.
pub proof fn lemma_cycle_persists(table: Seq<u8>, s: Seq<u8>, b: Boundary, p: nat, q: nat, t: nat)
    requires
        evolve(table, s, b, p + q) == evolve(table, s, b, p),
        p <= t,
    ensures
        evolve(table, s, b, t + q) == evolve(table, s, b, t),
{
    let d = (t - p) as nat;
    lemma_evolve_add(table, s, b, p + q, d);
    lemma_evolve_add(table, s, b, p, d);
    assert(p + q + d == t + q);
    assert(p + d == t);
}

/// Pigeonhole: among the first `3^n + 1` states of a row of `n` cells two
/// are equal, since there are only `3^n` rows of `n` cells.
pub proof fn lemma_orbit_repeats(table: Seq<u8>, s: Seq<u8>, b: Boundary)
    requires
        table.len() == 27,
        all_cells(table),
        all_cells(s),
        boundary_fits(b, s.len()),
    ensures
        !distinct_until(table, s, b, pow3(s.len()) as int + 1),
{
    let n = s.len();
    let m = pow3(n) as int;
    if distinct_until(table, s, b, m + 1) {
        let f = |j: int| base3_value(evolve(table, s, b, j as nat)) as int;
        let x = vstd::set_lib::set_int_range(0, m + 1);
        let y = x.map(f);
        let z = vstd::set_lib::set_int_range(0, m);
        assert forall|j1: int, j2: int| x.contains(j1) && x.contains(j2) && #[trigger] f(j1) == #[trigger] f(j2) implies j1 == j2 by {
            let e1 = evolve(table, s, b, j1 as nat);
            let e2 = evolve(table, s, b, j2 as nat);
            lemma_evolve_cells(table, s, b, j1 as nat);
            lemma_evolve_cells(table, s, b, j2 as nat);
            lemma_digits_of_value(e1);
            lemma_digits_of_value(e2);
            assert(e1 == e2);
            if j1 < j2 {
                assert(evolve(table, s, b, j1 as nat) != evolve(table, s, b, j2 as nat));
            } else if j2 < j1 {
                assert(evolve(table, s, b, j2 as nat) != evolve(table, s, b, j1 as nat));
            }
        }
        assert(vstd::relations::injective_on(f, x));
        vstd::set_lib::lemma_int_range(0, m + 1);
        vstd::set_lib::lemma_int_range(0, m);
        vstd::set_lib::lemma_map_size(x, y, f);
        assert forall|v: int| y.contains(v) implies z.contains(v) by {
            let j = choose|j: int| x.contains(j) && f(j) == v;
            lemma_evolve_cells(table, s, b, j as nat);
            lemma_base3_value_bound(evolve(table, s, b, j as nat));
        }
        vstd::set_lib::lemma_len_subset(y, z);
        assert(false);
    }
}

/// The identity rule leaves every row unchanged, whatever the boundary.
pub proof fn lemma_identity_keeps_state(table: Seq<u8>, s: Seq<u8>, b: Boundary)
    requires
        realizes(table, identity_output()),
        all_cells(s),
        boundary_fits(b, s.len()),
    ensures
        next_state(table, s, b) == s,
{
    assert forall|i: int| 0 <= i < s.len() implies #[trigger] next_state(table, s, b)[i] == s[i] by {
        let l = left_neighbor(s, b, i) as int;
        let r = right_neighbor(s, b, i) as int;
        assert(is_cell(l) && is_cell(r));
        assert(table[neighborhood_index(l, s[i] as int, r)] == s[i]);
    }
    assert(next_state(table, s, b) =~= s);
}

/// A row of `n` cells in state 0.
pub open spec fn zeros(n: nat) -> Seq<u8> {
    Seq::new(n, |i: int| 0u8)
}

/// Under the zero rule every row becomes all zeros after one generation and
/// stays so: from generation 1 on, the run is a fixed point.
pub proof fn lemma_zero_rule_settles(table: Seq<u8>, s: Seq<u8>, b: Boundary, k: nat)
    requires
        realizes(table, zero_output()),
        all_cells(s),
        boundary_fits(b, s.len()),
        k >= 1,
    ensures
        evolve(table, s, b, k) == zeros(s.len()),
        next_state(table, evolve(table, s, b, k), b) == evolve(table, s, b, k),
    decreases k,
{
    let prev = evolve(table, s, b, (k - 1) as nat);
    if k > 1 {
        lemma_zero_rule_settles(table, s, b, (k - 1) as nat);
    }
    assert(all_cells(prev) && prev.len() == s.len()) by {
        if k > 1 {
            assert(prev == zeros(s.len()));
        }
    }
    assert forall|i: int| 0 <= i < s.len() implies #[trigger] next_state(table, prev, b)[i] == 0u8 by {
        let l = left_neighbor(prev, b, i) as int;
        let r = right_neighbor(prev, b, i) as int;
        assert(is_cell(l) && is_cell(r));
        assert(table[neighborhood_index(l, prev[i] as int, r)] == 0);
    }
    assert(next_state(table, prev, b) =~= zeros(s.len()));
    let z = zeros(s.len());
    assert forall|i: int| 0 <= i < s.len() implies #[trigger] next_state(table, z, b)[i] == 0u8 by {
        let l = left_neighbor(z, b, i) as int;
        let r = right_neighbor(z, b, i) as int;
        assert(is_cell(l) && is_cell(r));
        assert(table[neighborhood_index(l, z[i] as int, r)] == 0);
    }
    assert(next_state(table, z, b) =~= z);
}

/// The left-shift rule with a periodic boundary rotates the row one cell to
/// the right: the last cell comes first.
pub proof fn lemma_left_shift_rotates(table: Seq<u8>, s: Seq<u8>)
    requires
        realizes(table, left_output()),
        all_cells(s),
        s.len() > 0,
    ensures
        next_state(table, s, Boundary::Periodic) == seq![s.last()] + s.drop_last(),
{
    let b = Boundary::Periodic;
    assert forall|i: int| 0 <= i < s.len() implies #[trigger] next_state(table, s, b)[i] == (seq![s.last()] + s.drop_last())[i] by {
        let l = left_neighbor(s, b, i) as int;
        let r = right_neighbor(s, b, i) as int;
        assert(is_cell(l) && is_cell(r));
        assert(table[neighborhood_index(l, s[i] as int, r)] == l);
    }
    assert(next_state(table, s, b) =~= seq![s.last()] + s.drop_last());
}

/// A cellular automaton simulator.
pub struct CASimulator {
    /// The rule
    rule: TernaryRule,
    /// Current state
    state: Vec<u8>,
    /// Boundary condition
    boundary: Boundary,
}

impl View for CASimulator {
    type V = Seq<u8>;

    /// The current state.
    closed spec fn view(&self) -> Seq<u8> {
        self.state@
    }
}

impl CASimulator {
    #[verifier::type_invariant]
    spec fn cells_are_states(self) -> bool {
        all_cells(self.state@)
    }

    /// The rule's lookup table.
    pub closed spec fn rule_table(self) -> Seq<u8> {
        self.rule@
    }

    /// The boundary condition.
    pub closed spec fn boundary_condition(self) -> Boundary {
        self.boundary
    }

    /// Create a new simulator with the given rule, initial state, and boundary.
    /// Every initial cell must be 0, 1 or 2.
    pub fn new(rule: TernaryRule, initial_state: Vec<u8>, boundary: Boundary) -> (sim: Self)
        requires
            all_cells(initial_state@),
        ensures
            sim@ == initial_state@,
            sim.rule_table() == rule@,
            sim.boundary_condition() == boundary,
    {
        CASimulator { rule, state: initial_state, boundary }
    }

    /// Get the current state.
    pub fn state(&self) -> (cells: &[u8])
        ensures
            cells@ == self@,
            all_cells(cells@),
    {
        proof {
            use_type_invariant(self);
        }
        self.state.as_slice()
    }

    /// Whether the simulator can be stepped: a fixed boundary value must be a
    /// cell state unless the row is empty.
    pub fn can_step(&self) -> (ok: bool)
        ensures
            ok == boundary_fits(self.boundary_condition(), self@.len()),
    {
        match &self.boundary {
            Boundary::Fixed(v) => *v < 3 || self.state.len() == 0,
            _ => true,
        }
    }

    /// Step the CA forward by one generation.
    pub fn step(&mut self)
        requires
            boundary_fits(old(self).boundary_condition(), old(self)@.len()),
        ensures
            final(self)@ == next_state(old(self).rule_table(), old(self)@, old(self).boundary_condition()),
            final(self)@.len() == old(self)@.len(),
            final(self).rule_table() == old(self).rule_table(),
            final(self).boundary_condition() == old(self).boundary_condition(),
    {
        proof {
            use_type_invariant(&*self);
        }
        let n = self.state.len();
        let ghost next = next_state(self.rule@, self.state@, self.boundary);
        let mut new_state: Vec<u8> = Vec::new();
        let mut i: usize = 0;
        while i < n
            invariant
                n == self.state@.len(),
                i <= n,
                all_cells(self.state@),
                boundary_fits(self.boundary, n as nat),
                next == next_state(self.rule@, self.state@, self.boundary),
                new_state@.len() == i,
                all_cells(new_state@),
                forall|j: int| 0 <= j < i ==> #[trigger] new_state@[j] == next[j],
            decreases n - i,
        {
            let left = match &self.boundary {
                Boundary::Fixed(v) => if i == 0 { *v } else { self.state[i - 1] },
                Boundary::Periodic => if i == 0 { self.state[n - 1] } else { self.state[i - 1] },
                Boundary::Zero => if i == 0 { 0 } else { self.state[i - 1] },
            };
            let center = self.state[i];
            let right = match &self.boundary {
                Boundary::Fixed(v) => if i == n - 1 { *v } else { self.state[i + 1] },
                Boundary::Periodic => if i == n - 1 { self.state[0] } else { self.state[i + 1] },
                Boundary::Zero => if i == n - 1 { 0 } else { self.state[i + 1] },
            };
            assert(left == left_neighbor(self.state@, self.boundary, i as int));
            assert(right == right_neighbor(self.state@, self.boundary, i as int));
            new_state.push(self.rule.apply_neighborhood(left, center, right));
            i = i + 1;
        }
        assert(new_state@ =~= next);
        self.state = new_state;
    }

    /// Step forward n generations.
    pub fn step_n(&mut self, n: usize)
        requires
            n > 0 ==> boundary_fits(old(self).boundary_condition(), old(self)@.len()),
        ensures
            final(self)@ == evolve(old(self).rule_table(), old(self)@, old(self).boundary_condition(), n as nat),
            final(self)@.len() == old(self)@.len(),
            final(self).rule_table() == old(self).rule_table(),
            final(self).boundary_condition() == old(self).boundary_condition(),
    {
        let ghost table = self.rule_table();
        let ghost start = self@;
        let ghost b = self.boundary_condition();
        let mut k: usize = 0;
        while k < n
            invariant
                k <= n,
                n > 0 ==> boundary_fits(b, start.len()),
                self.rule_table() == table,
                self.boundary_condition() == b,
                self@ == evolve(table, start, b, k as nat),
                self@.len() == start.len(),
            decreases n - k,
        {
            self.step();
            k = k + 1;
        }
    }

    /// Run the simulation and collect all states: entry `j` of the result is
    /// the state after `j` generations, for `j` from 0 to `steps`.
    pub fn run(&mut self, steps: usize) -> (history: Vec<Vec<u8>>)
        requires
            steps > 0 ==> boundary_fits(old(self).boundary_condition(), old(self)@.len()),
        ensures
            history@.len() == steps + 1,
            forall|j: int|
                0 <= j <= steps ==> #[trigger] history@[j]@ == evolve(
                    old(self).rule_table(),
                    old(self)@,
                    old(self).boundary_condition(),
                    j as nat,
                ),
            final(self)@ == evolve(old(self).rule_table(), old(self)@, old(self).boundary_condition(), steps as nat),
            final(self)@.len() == old(self)@.len(),
            final(self).rule_table() == old(self).rule_table(),
            final(self).boundary_condition() == old(self).boundary_condition(),
    {
        let ghost table = self.rule_table();
        let ghost start = self@;
        let ghost b = self.boundary_condition();
        let mut history: Vec<Vec<u8>> = Vec::new();
        history.push(copy_cells(&self.state));
        let mut k: usize = 0;
        while k < steps
            invariant
                k <= steps,
                steps > 0 ==> boundary_fits(b, start.len()),
                self.rule_table() == table,
                self.boundary_condition() == b,
                self@ == evolve(table, start, b, k as nat),
                self@.len() == start.len(),
                history@.len() == k + 1,
                forall|j: int| 0 <= j <= k ==> #[trigger] history@[j]@ == evolve(table, start, b, j as nat),
            decreases steps - k,
        {
            self.step();
            k = k + 1;
            history.push(copy_cells(&self.state));
        }
        history
    }

    /// Find a cycle: returns `(preperiod, period)` if a cycle is detected within
    /// `max_steps` generations. The state is advanced up to the first
    /// generation that repeats an earlier one, or by `max_steps` generations.
    pub fn find_cycle(&mut self, max_steps: usize) -> (found: Option<(usize, usize)>)
        requires
            max_steps > 0 ==> boundary_fits(old(self).boundary_condition(), old(self)@.len()),
        ensures
            final(self)@.len() == old(self)@.len(),
            final(self).rule_table() == old(self).rule_table(),
            final(self).boundary_condition() == old(self).boundary_condition(),
            match found {
                Some((preperiod, period)) => {
                    let t = preperiod + period;
                    &&& period > 0
                    &&& t <= max_steps
                    &&& evolve(old(self).rule_table(), old(self)@, old(self).boundary_condition(), t as nat)
                        == evolve(old(self).rule_table(), old(self)@, old(self).boundary_condition(), preperiod as nat)
                    &&& distinct_until(old(self).rule_table(), old(self)@, old(self).boundary_condition(), t)
                    &&& final(self)@ == evolve(old(self).rule_table(), old(self)@, old(self).boundary_condition(), t as nat)
                },
                None => {
                    &&& distinct_until(old(self).rule_table(), old(self)@, old(self).boundary_condition(), max_steps + 1)
                    &&& final(self)@ == evolve(old(self).rule_table(), old(self)@, old(self).boundary_condition(), max_steps as nat)
                },
            },
            max_steps >= pow3(old(self)@.len()) ==> found is Some,
            found matches Some((preperiod, period)) ==> preperiod + period <= pow3(old(self)@.len()),
    {
        proof {
            use_type_invariant(&*self);
        }
        let _ = self.rule.table();
        let ghost table = self.rule_table();
        let ghost start = self@;
        let ghost b = self.boundary_condition();
        // seen[t] is the state after t generations
        let mut seen: Vec<Vec<u8>> = Vec::new();
        seen.push(copy_cells(&self.state));
        let mut step: usize = 0;
        while step < max_steps
            invariant
                step <= max_steps,
                table == old(self).rule_table(),
                start == old(self)@,
                b == old(self).boundary_condition(),
                max_steps > 0 ==> boundary_fits(b, start.len()),
                table.len() == 27,
                all_cells(table),
                all_cells(start),
                self.rule_table() == table,
                self.boundary_condition() == b,
                self@ == evolve(table, start, b, step as nat),
                self@.len() == start.len(),
                seen@.len() == step + 1,
                forall|j: int| 0 <= j <= step ==> #[trigger] seen@[j]@ == evolve(table, start, b, j as nat),
                distinct_until(table, start, b, step + 1),
            decreases max_steps - step,
        {
            self.step();
            step = step + 1;
            match position_of(&seen, &self.state) {
                Some(prev) => {
                    assert(seen@[prev as int]@ == evolve(table, start, b, prev as nat));
                    proof {
                        lemma_orbit_repeats(table, start, b);
                        if step > pow3(start.len()) {
                            lemma_distinct_until_shrinks(table, start, b, pow3(start.len()) as int + 1, step as int);
                        }
                    }
                    return Some((prev, step - prev));
                },
                None => {
                    assert forall|j1: nat, j2: nat| j1 < j2 < step + 1 implies #[trigger] evolve(table, start, b, j1) != #[trigger] evolve(table, start, b, j2) by {
                        if j2 == step {
                            assert(seen@[j1 as int]@ == evolve(table, start, b, j1));
                        }
                    }
                },
            }
            seen.push(copy_cells(&self.state));
        }
        proof {
            if max_steps >= pow3(start.len()) {
                crate::base3::lemma_pow3_positive(start.len());
                lemma_orbit_repeats(table, start, b);
                lemma_distinct_until_shrinks(table, start, b, pow3(start.len()) as int + 1, max_steps + 1);
            }
        }
        None
    }
}

/// A fresh vector holding the same cells.
fn copy_cells(cells: &Vec<u8>) -> (copy: Vec<u8>)
    ensures
        copy@ == cells@,
{
    let mut copy: Vec<u8> = Vec::new();
    let mut i: usize = 0;
    while i < cells.len()
        invariant
            i <= cells@.len(),
            copy@ == cells@.subrange(0, i as int),
        decreases cells@.len() - i,
    {
        copy.push(cells[i]);
        i = i + 1;
        assert(copy@ =~= cells@.subrange(0, i as int));
    }
    assert(cells@.subrange(0, cells@.len() as int) =~= cells@);
    copy
}

/// Whether two rows hold the same cells.
pub(crate) fn same_cells(a: &[u8], b: &[u8]) -> (same: bool)
    ensures
        same == (a@ == b@),
{
    if a.len() != b.len() {
        return false;
    }
    let mut i: usize = 0;
    while i < a.len()
        invariant
            a@.len() == b@.len(),
            i <= a@.len(),
            forall|j: int| 0 <= j < i ==> a@[j] == b@[j],
        decreases a@.len() - i,
    {
        if a[i] != b[i] {
            return false;
        }
        i = i + 1;
    }
    assert(a@ =~= b@);
    true
}

/// The first position of `history` that holds the same cells as `cells`.
fn position_of(history: &Vec<Vec<u8>>, cells: &Vec<u8>) -> (pos: Option<usize>)
    ensures
        match pos {
            Some(j) => j < history@.len() && history@[j as int]@ == cells@ && forall|k: int|
                0 <= k < j ==> #[trigger] history@[k]@ != cells@,
            None => forall|k: int| 0 <= k < history@.len() ==> #[trigger] history@[k]@ != cells@,
        },
{
    let mut j: usize = 0;
    while j < history.len()
        invariant
            j <= history@.len(),
            forall|k: int| 0 <= k < j ==> #[trigger] history@[k]@ != cells@,
        decreases history@.len() - j,
    {
        if same_cells(history[j].as_slice(), cells.as_slice()) {
            return Some(j);
        }
        j = j + 1;
    }
    None
}

} // verus!
