//! Ternary cellular-automaton rules: a lookup table from the 27 neighborhoods
//! `(left, center, right)` to an output state, and its Wolfram number.
use vstd::prelude::*;
use vstd::std_specs::cmp::PartialEqSpecImpl;
use crate::base3::{
    all_cells, base3_value, lemma_base3_value_bound, lemma_pow3_27, lemma_pow3_monotone,
    lemma_pow3_positive, pow3, ternary_digit, ternary_digits,
};

verus! {

/// The position of the neighborhood `(l, c, r)` in a rule table: `9l + 3c + r`.
pub open spec fn neighborhood_index(l: int, c: int, r: int) -> int {
    9 * l + 3 * c + r
}

/// `v` is a cell state: 0, 1 or 2.
pub open spec fn is_cell(v: int) -> bool {
    0 <= v < 3
}

/// Every neighborhood whose index is below `n` is mapped by `t` to `f(l, c, r)`.
pub open spec fn realizes_below(t: Seq<u8>, n: int, f: spec_fn(int, int, int) -> int) -> bool {
    forall|l: int, c: int, r: int|
        is_cell(l) && is_cell(c) && is_cell(r) && neighborhood_index(l, c, r) < n ==> #[trigger] t[neighborhood_index(l, c, r)] == f(l, c, r)
}

/// `t` is the 27-entry table of the local rule `f`.
pub open spec fn realizes(t: Seq<u8>, f: spec_fn(int, int, int) -> int) -> bool {
    &&& t.len() == 27
    &&& realizes_below(t, 27, f)
}

/// How many of `l`, `c`, `r` equal `v`.
pub open spec fn neighborhood_count(l: int, c: int, r: int, v: int) -> int {
    (if l == v { 1int } else { 0int }) + (if c == v { 1int } else { 0int }) + (if r == v { 1int } else { 0int })
}

/// The most frequent state of the neighborhood; among states that occur equally
/// often, the greatest one.
pub open spec fn majority_vote(l: int, c: int, r: int) -> int {
    let k0 = neighborhood_count(l, c, r, 0);
    let k1 = neighborhood_count(l, c, r, 1);
    let k2 = neighborhood_count(l, c, r, 2);
    if k2 >= k1 && k2 >= k0 {
        2
    } else if k1 >= k0 {
        1
    } else {
        0
    }
}

/// The sum of the neighborhood modulo 3.
pub open spec fn sum_mod3(l: int, c: int, r: int) -> int {
    (l + c + r) % 3
}

/// The local rule of the identity rule: the center passes through.
pub open spec fn identity_output() -> spec_fn(int, int, int) -> int {
    |l: int, c: int, r: int| c
}

/// The local rule of the zero rule: always 0.
pub open spec fn zero_output() -> spec_fn(int, int, int) -> int {
    |l: int, c: int, r: int| 0
}

/// The local rule of the majority rule.
pub open spec fn majority_output() -> spec_fn(int, int, int) -> int {
    |l: int, c: int, r: int| majority_vote(l, c, r)
}

/// The local rule of the additive rule: `(l + c + r) mod 3`.
pub open spec fn sum_mod3_output() -> spec_fn(int, int, int) -> int {
    |l: int, c: int, r: int| sum_mod3(l, c, r)
}

/// The local rule of the left shift: the left neighbor's state.
pub open spec fn left_output() -> spec_fn(int, int, int) -> int {
    |l: int, c: int, r: int| l
}

/// Two neighborhoods of cell states with the same index are the same.
pub proof fn lemma_neighborhood_index_unique(l1: int, c1: int, r1: int, l2: int, c2: int, r2: int)
    requires
        is_cell(l1) && is_cell(c1) && is_cell(r1),
        is_cell(l2) && is_cell(c2) && is_cell(r2),
        neighborhood_index(l1, c1, r1) == neighborhood_index(l2, c2, r2),
    ensures
        l1 == l2 && c1 == c2 && r1 == r2,
{
}

/// Every table position below 27 is the index of one neighborhood of cell
/// states, so a local rule fixes its table entirely: two tables of the same
/// local rule are equal (the XOR rule and the ternary rule 110 are one rule).
pub proof fn lemma_realizes_unique(t1: Seq<u8>, t2: Seq<u8>, f: spec_fn(int, int, int) -> int)
    requires
        realizes(t1, f),
        realizes(t2, f),
    ensures
        t1 == t2,
{
    assert forall|i: int| 0 <= i < 27 implies t1[i] == t2[i] by {
        let l = i / 9;
        let c = (i / 3) % 3;
        let r = i % 3;
        assert(neighborhood_index(l, c, r) == i);
        assert(t1[neighborhood_index(l, c, r)] == f(l, c, r));
        assert(t2[neighborhood_index(l, c, r)] == f(l, c, r));
    }
    assert(t1 =~= t2);
}

/// The majority vote is a cell state; when two of the three cells agree it is
/// their value, and when all three differ it is 2.
pub proof fn lemma_majority_vote(l: int, c: int, r: int)
    requires
        is_cell(l) && is_cell(c) && is_cell(r),
    ensures
        is_cell(majority_vote(l, c, r)),
        l == c || l == r ==> majority_vote(l, c, r) == l,
        c == r ==> majority_vote(l, c, r) == c,
        l != c && l != r && c != r ==> majority_vote(l, c, r) == 2,
{
}

/// The majority rule's table, read at `9l + 3c + r`: two agreeing cells decide
/// the output, and three different cells give 2.
pub proof fn lemma_majority_table(t: Seq<u8>, l: int, c: int, r: int)
    requires
        realizes(t, majority_output()),
        is_cell(l) && is_cell(c) && is_cell(r),
    ensures
        l == c || l == r ==> t[9 * l + 3 * c + r] == l,
        c == r ==> t[9 * l + 3 * c + r] == c,
        l != c && l != r && c != r ==> t[9 * l + 3 * c + r] == 2,
{
    assert(t[neighborhood_index(l, c, r)] == majority_vote(l, c, r));
}

/// The additive rule is linear over the integers modulo 3: the output for the
/// cellwise sum of two neighborhoods is the sum of their outputs, and each single
/// cell set to 1 (all others 0) gives 1, the empty neighborhood 0.
pub proof fn lemma_additive_table(
    t: Seq<u8>,
    l1: int,
    c1: int,
    r1: int,
    l2: int,
    c2: int,
    r2: int,
)
    requires
        realizes(t, sum_mod3_output()),
        is_cell(l1) && is_cell(c1) && is_cell(r1),
        is_cell(l2) && is_cell(c2) && is_cell(r2),
    ensures
        t[9 * ((l1 + l2) % 3) + 3 * ((c1 + c2) % 3) + (r1 + r2) % 3] == (t[9 * l1 + 3 * c1 + r1]
            + t[9 * l2 + 3 * c2 + r2]) % 3,
        t[0] == 0,
        t[9] == 1 && t[3] == 1 && t[1] == 1,
{
    let l = (l1 + l2) % 3;
    let c = (c1 + c2) % 3;
    let r = (r1 + r2) % 3;
    lemma_sum_mod3_linear(l1, c1, r1, l2, c2, r2);
    assert(is_cell(l) && is_cell(c) && is_cell(r));
    assert(t[neighborhood_index(l, c, r)] == sum_mod3(l, c, r));
    assert(t[neighborhood_index(l1, c1, r1)] == sum_mod3(l1, c1, r1));
    assert(t[neighborhood_index(l2, c2, r2)] == sum_mod3(l2, c2, r2));
    assert(t[neighborhood_index(0, 0, 0)] == sum_mod3(0, 0, 0));
    assert(t[neighborhood_index(1, 0, 0)] == sum_mod3(1, 0, 0));
    assert(t[neighborhood_index(0, 1, 0)] == sum_mod3(0, 1, 0));
    assert(t[neighborhood_index(0, 0, 1)] == sum_mod3(0, 0, 1));
}

proof fn lemma_sum_mod3_linear(l1: int, c1: int, r1: int, l2: int, c2: int, r2: int)
    ensures
        sum_mod3((l1 + l2) % 3, (c1 + c2) % 3, (r1 + r2) % 3) == (sum_mod3(l1, c1, r1) + sum_mod3(
            l2,
            c2,
            r2,
        )) % 3,
        0 <= (l1 + l2) % 3 < 3,
        0 <= (c1 + c2) % 3 < 3,
        0 <= (r1 + r2) % 3 < 3,
{
    let a = l1 + l2;
    let b = c1 + c2;
    let c = r1 + r2;
    vstd::arithmetic::div_mod::lemma_add_mod_noop(a, b, 3);
    vstd::arithmetic::div_mod::lemma_add_mod_noop(a + b, c, 3);
    vstd::arithmetic::div_mod::lemma_mod_twice(a + b, 3);
    vstd::arithmetic::div_mod::lemma_add_mod_noop((a % 3) + (b % 3), c, 3);
    vstd::arithmetic::div_mod::lemma_add_mod_noop(l1 + c1 + r1, l2 + c2 + r2, 3);
    vstd::arithmetic::div_mod::lemma_mod_bound(a, 3);
    vstd::arithmetic::div_mod::lemma_mod_bound(b, 3);
    vstd::arithmetic::div_mod::lemma_mod_bound(c, 3);
    assert(a + b + c == (l1 + c1 + r1) + (l2 + c2 + r2));
}

/// The Wolfram number identifies a rule: two tables of cell states with the
/// same base-3 value are equal, and decoding the value gives the table back.
pub proof fn lemma_wolfram_number_identifies_table(t1: Seq<u8>, t2: Seq<u8>)
    requires
        t1.len() == 27,
        t2.len() == 27,
        all_cells(t1),
        all_cells(t2),
    ensures
        ternary_digits(base3_value(t1), 27) == t1,
        base3_value(t1) < pow3(27),
        base3_value(t1) == base3_value(t2) ==> t1 == t2,
{
    crate::base3::lemma_digits_of_value(t1);
    crate::base3::lemma_digits_of_value(t2);
    lemma_base3_value_bound(t1);
}

/// Decoding any number and encoding the table again gives the number modulo
/// `3^27`: what `wolfram_number` returns for a rule made by `from_wolfram`.
pub proof fn lemma_wolfram_number_of_decoded(w: nat)
    ensures
        base3_value(ternary_digits(w, 27)) == w % pow3(27),
        ternary_digits(w, 27).len() == 27,
        all_cells(ternary_digits(w, 27)),
{
    crate::base3::lemma_value_of_digits(w, 27);
}

proof fn lemma_fill_step(
    before: Seq<u8>,
    after: Seq<u8>,
    idx: int,
    l: int,
    c: int,
    r: int,
    f: spec_fn(int, int, int) -> int,
)
    requires
        before.len() == 27,
        0 <= idx < 27,
        is_cell(l) && is_cell(c) && is_cell(r),
        neighborhood_index(l, c, r) == idx,
        after == before.update(idx, after[idx]),
        after[idx] == f(l, c, r),
        realizes_below(before, idx, f),
    ensures
        realizes_below(after, idx + 1, f),
{
    assert forall|l2: int, c2: int, r2: int|
        is_cell(l2) && is_cell(c2) && is_cell(r2) && neighborhood_index(l2, c2, r2) < idx
            + 1 implies #[trigger] after[neighborhood_index(l2, c2, r2)] == f(l2, c2, r2) by {
        if neighborhood_index(l2, c2, r2) == idx {
            lemma_neighborhood_index_unique(l, c, r, l2, c2, r2);
        } else {
            assert(after[neighborhood_index(l2, c2, r2)] == before[neighborhood_index(l2, c2, r2)]);
        }
    }
}

/// Splits a table position into its neighborhood `(left, center, right)`.
fn neighborhood_at(idx: usize) -> (lcr: (u8, u8, u8))
    requires
        idx < 27,
    ensures
        is_cell(lcr.0 as int) && is_cell(lcr.1 as int) && is_cell(lcr.2 as int),
        neighborhood_index(lcr.0 as int, lcr.1 as int, lcr.2 as int) == idx,
{
    ((idx / 9) as u8, ((idx / 3) % 3) as u8, (idx % 3) as u8)
}

/// A ternary cellular-automaton rule.
///
/// The table maps each neighborhood `(left, center, right)`, at index
/// `9 * left + 3 * center + right`, to an output state. Beside it the rule keeps
/// its Wolfram number as given at construction (for a number of `3^27` or more
/// the table holds only its lowest 27 digits); it takes part in `==`.
#[derive(Clone, Copy, Debug, Eq)]
pub struct TernaryRule {
    table: [u8; 27],
    wolfram_number: u128,
}

impl View for TernaryRule {
    type V = Seq<u8>;

    /// The lookup table.
    closed spec fn view(&self) -> Seq<u8> {
        self.table@
    }
}

impl PartialEq for TernaryRule {
    /// Two rules are equal when their tables and their kept numbers are.
    fn eq(&self, other: &Self) -> (same: bool) {
        let mut i: usize = 0;
        while i < 27
            invariant
                i <= 27,
                self.table@.len() == 27,
                other.table@.len() == 27,
                forall|j: int| 0 <= j < i ==> self.table@[j] == other.table@[j],
            decreases 27 - i,
        {
            if self.table[i] != other.table[i] {
                return false;
            }
            i = i + 1;
        }
        assert(self.table@ =~= other.table@);
        self.wolfram_number == other.wolfram_number
    }
}

impl PartialEqSpecImpl for TernaryRule {
    open spec fn obeys_eq_spec() -> bool {
        true
    }

    open spec fn eq_spec(&self, other: &Self) -> bool {
        self@ == other@ && self.recorded_number() == other.recorded_number()
    }
}

impl TernaryRule {
    /// A table has 27 entries, each a cell state.
    #[verifier::type_invariant]
    spec fn outputs_are_cells(self) -> bool {
        self@.len() == 27 && all_cells(self@)
    }

    /// The Wolfram number kept beside the table at construction.
    pub closed spec fn recorded_number(self) -> u128 {
        self.wolfram_number
    }

    /// Create a rule from a Wolfram number (base-3 encoded lookup table): entry
    /// `i` of the table is digit `i` of `wolfram` in base 3, and the number kept
    /// is `wolfram` itself.
    pub fn from_wolfram_number(wolfram: u128) -> (rule: Self)
        ensures
            rule@ == ternary_digits(wolfram as nat, 27),
            rule.recorded_number() == wolfram,
    {
        let table = TernaryRule::decode_wolfram(wolfram);
        TernaryRule { table, wolfram_number: wolfram }
    }

    /// The table whose entry `i` is digit `i` of `wolfram` in base 3.
    fn decode_wolfram(wolfram: u128) -> (table: [u8; 27])
        ensures
            table@ == ternary_digits(wolfram as nat, 27),
            all_cells(table@),
    {
        let mut w = wolfram;
        let mut table = [0u8; 27];
        let mut i: usize = 0;
        assert(pow3(0) == 1);
        assert(wolfram as nat / 1 == wolfram as nat);
        while i < 27
            invariant
                i <= 27,
                table@.len() == 27,
                all_cells(table@),
                w as nat == wolfram as nat / pow3(i as nat),
                forall|j: int| 0 <= j < i ==> #[trigger] table@[j] == ternary_digit(wolfram as nat, j as nat),
            decreases 27 - i,
        {
            proof {
                lemma_pow3_positive(i as nat);
                vstd::arithmetic::div_mod::lemma_div_denominator(wolfram as int, pow3(i as nat) as int, 3);
            }
            table[i] = (w % 3) as u8;
            w = w / 3;
            i = i + 1;
        }
        assert(table@ =~= ternary_digits(wolfram as nat, 27));
        table
    }

    /// The Wolfram number of a table: the table read as a base-3 numeral,
    /// entry 0 the least significant digit.
    fn fix_wolfram(table: &[u8; 27]) -> (wolfram: u128)
        requires
            all_cells(table@),
        ensures
            wolfram == base3_value(table@),
            wolfram < pow3(27),
    {
        let mut wolfram: u128 = 0;
        let mut i: usize = 27;
        proof {
            lemma_pow3_27();
            assert(table@.subrange(27, 27) =~= Seq::<u8>::empty());
        }
        while i > 0
            invariant
                i <= 27,
                table@.len() == 27,
                all_cells(table@),
                pow3(27) == 7625597484987,
                wolfram == base3_value(table@.subrange(i as int, 27)),
            decreases i,
        {
            let ghost tail = table@.subrange(i as int, 27);
            proof {
                lemma_base3_value_bound(tail);
                lemma_pow3_monotone((27 - i) as nat, 27);
            }
            i = i - 1;
            wolfram = wolfram * 3 + table[i] as u128;
            assert(table@.subrange(i as int, 27).drop_first() =~= tail);
        }
        proof {
            assert(table@.subrange(0, 27) =~= table@);
            lemma_base3_value_bound(table@);
        }
        wolfram
    }

    /// Create a rule from a lookup table (27 entries, indexed by neighborhood);
    /// every entry must be a cell state.
    pub fn from_table(table: [u8; 27]) -> (rule: Self)
        requires
            all_cells(table@),
        ensures
            rule@ == table@,
            rule.recorded_number() == base3_value(table@),
    {
        let wolfram = TernaryRule::fix_wolfram(&table);
        TernaryRule { table, wolfram_number: wolfram }
    }

    /// Create a rule from a Wolfram number: entry `i` of the table is digit `i`
    /// of `wolfram` in base 3, and the number kept is `wolfram` itself.
    pub fn from_wolfram(wolfram: u128) -> (rule: Self)
        ensures
            rule@ == ternary_digits(wolfram as nat, 27),
            rule.recorded_number() == wolfram,
    {
        let table = TernaryRule::decode_wolfram(wolfram);
        TernaryRule { table, wolfram_number: wolfram }
    }

    /// Get the output for a given neighborhood (left, center, right).
    pub fn apply_neighborhood(&self, left: u8, center: u8, right: u8) -> (out: u8)
        requires
            left < 3 && center < 3 && right < 3,
        ensures
            out == self@[neighborhood_index(left as int, center as int, right as int)],
            out < 3,
    {
        proof {
            use_type_invariant(self);
        }
        let idx = left as usize * 9 + center as usize * 3 + right as usize;
        self.table[idx]
    }

    /// Get the Wolfram number for this rule, computed from its table.
    pub fn wolfram_number(&self) -> (wolfram: u128)
        ensures
            wolfram == base3_value(self@),
            wolfram < pow3(27),
    {
        proof {
            use_type_invariant(self);
        }
        TernaryRule::fix_wolfram(&self.table)
    }

    /// Get the lookup table.
    pub fn table(&self) -> (table: &[u8; 27])
        ensures
            table@ == self@,
            self@.len() == 27,
            all_cells(table@),
    {
        proof {
            use_type_invariant(self);
        }
        &self.table
    }

    /// Identity rule: center cell value passes through unchanged.
    pub fn identity() -> (rule: Self)
        ensures
            realizes(rule@, identity_output()),
            rule.recorded_number() == base3_value(rule@),
    {
        let mut table = [0u8; 27];
        let mut idx: usize = 0;
        while idx < 27
            invariant
                idx <= 27,
                table@.len() == 27,
                all_cells(table@),
                realizes_below(table@, idx as int, identity_output()),
            decreases 27 - idx,
        {
            let (left, center, right) = neighborhood_at(idx);
            let ghost before = table@;
            table[idx] = center;
            proof {
                lemma_fill_step(before, table@, idx as int, left as int, center as int, right as int, identity_output());
            }
            idx = idx + 1;
        }
        TernaryRule { table, wolfram_number: TernaryRule::fix_wolfram(&table) }
    }

    /// Rule that maps everything to 0.
    pub fn zero() -> (rule: Self)
        ensures
            realizes(rule@, zero_output()),
            rule.recorded_number() == 0,
            rule.recorded_number() == base3_value(rule@),
    {
        let table = [0u8; 27];
        proof {
            assert forall|i: int| 0 <= i < 27 implies #[trigger] ternary_digits(0, 27)[i] == table@[i] by {
                lemma_pow3_positive(i as nat);
                assert(0nat / pow3(i as nat) == 0);
            }
            assert(ternary_digits(0, 27) =~= table@);
            crate::base3::lemma_value_of_digits(0, 27);
            lemma_pow3_positive(27);
            assert(0nat % pow3(27) == 0);
        }
        TernaryRule { table, wolfram_number: 0 }
    }

    /// Majority rule: the output is the most frequent value among
    /// (left, center, right); when all three differ, it is 2.
    pub fn majority() -> (rule: Self)
        ensures
            realizes(rule@, majority_output()),
            rule.recorded_number() == base3_value(rule@),
    {
        let mut table = [0u8; 27];
        let mut idx: usize = 0;
        while idx < 27
            invariant
                idx <= 27,
                table@.len() == 27,
                all_cells(table@),
                realizes_below(table@, idx as int, majority_output()),
            decreases 27 - idx,
        {
            let (left, center, right) = neighborhood_at(idx);
            // Count the occurrences of each state.
            let mut counts = [0usize; 3];
            counts[left as usize] += 1;
            counts[center as usize] += 1;
            counts[right as usize] += 1;
            // The last state with the greatest count wins.
            let mut majority: u8 = 0;
            if counts[1] >= counts[0] {
                majority = 1;
            }
            if counts[2] >= counts[majority as usize] {
                majority = 2;
            }
            assert(majority == majority_vote(left as int, center as int, right as int));
            let ghost before = table@;
            table[idx] = majority;
            proof {
                lemma_fill_step(before, table@, idx as int, left as int, center as int, right as int, majority_output());
            }
            idx = idx + 1;
        }
        TernaryRule { table, wolfram_number: TernaryRule::fix_wolfram(&table) }
    }

    /// Ternary analog of Rule 110: output = (left + center + right) mod 3.
    pub fn rule_110_ternary() -> (rule: Self)
        ensures
            realizes(rule@, sum_mod3_output()),
            rule.recorded_number() == base3_value(rule@),
    {
        let mut table = [0u8; 27];
        let mut idx: usize = 0;
        while idx < 27
            invariant
                idx <= 27,
                table@.len() == 27,
                all_cells(table@),
                realizes_below(table@, idx as int, sum_mod3_output()),
            decreases 27 - idx,
        {
            let (left, center, right) = neighborhood_at(idx);
            let ghost before = table@;
            table[idx] = (left + center + right) % 3;
            proof {
                lemma_fill_step(before, table@, idx as int, left as int, center as int, right as int, sum_mod3_output());
            }
            idx = idx + 1;
        }
        TernaryRule { table, wolfram_number: TernaryRule::fix_wolfram(&table) }
    }

    /// XOR-like rule: (left + center + right) mod 3, the same rule as
    /// `rule_110_ternary`.
    pub fn xor_rule() -> (rule: Self)
        ensures
            realizes(rule@, sum_mod3_output()),
            rule.recorded_number() == base3_value(rule@),
    {
        Self::rule_110_ternary()
    }

    /// Left shift rule: output = left neighbor value.
    pub fn left_shift() -> (rule: Self)
        ensures
            realizes(rule@, left_output()),
            rule.recorded_number() == base3_value(rule@),
    {
        let mut table = [0u8; 27];
        let mut idx: usize = 0;
        while idx < 27
            invariant
                idx <= 27,
                table@.len() == 27,
                all_cells(table@),
                realizes_below(table@, idx as int, left_output()),
            decreases 27 - idx,
        {
            let (left, center, right) = neighborhood_at(idx);
            let ghost before = table@;
            table[idx] = left;
            proof {
                lemma_fill_step(before, table@, idx as int, left as int, center as int, right as int, left_output());
            }
            idx = idx + 1;
        }
        TernaryRule { table, wolfram_number: TernaryRule::fix_wolfram(&table) }
    }
}

} // verus!
