//! Analysis of rows of cells and of their histories: repetition, counts,
//! distances and text renderings.
use vstd::prelude::*;
use crate::base3::all_cells;
use crate::simulator::same_cells;

verus! {

/// How many cells of `s` hold `v`.
pub open spec fn count_of(s: Seq<u8>, v: u8) -> nat
    decreases s.len(),
{
    if s.len() == 0 {
        0
    } else {
        count_of(s.drop_last(), v) + if s.last() == v { 1nat } else { 0nat }
    }
}

/// How many of the first `n` positions hold different values in `a` and `b`.
pub open spec fn mismatches(a: Seq<u8>, b: Seq<u8>, n: nat) -> nat
    decreases n,
{
    if n == 0 {
        0
    } else {
        mismatches(a, b, (n - 1) as nat) + if a[n - 1] != b[n - 1] { 1nat } else { 0nat }
    }
}

/// The smaller of two lengths.
pub open spec fn min_len(a: nat, b: nat) -> nat {
    if a <= b { a } else { b }
}

/// The decimal digit character of `v`, for `v < 10`.
pub open spec fn digit_char(v: u8) -> char {
    (v + 48) as char
}

/// The block character that shows cell state `v`: light, medium and dark shade
/// for 0, 1 and 2, and `?` for anything else.
pub open spec fn shade_char(v: u8) -> char {
    if v == 0 {
        '\u{2591}'
    } else if v == 1 {
        '\u{2592}'
    } else if v == 2 {
        '\u{2593}'
    } else {
        '?'
    }
}

pub proof fn lemma_count_of_bound(s: Seq<u8>, v: u8)
    ensures
        count_of(s, v) <= s.len(),
    decreases s.len(),
{
    if s.len() > 0 {
        lemma_count_of_bound(s.drop_last(), v);
    }
}

pub proof fn lemma_mismatches_bound(a: Seq<u8>, b: Seq<u8>, n: nat)
    ensures
        mismatches(a, b, n) <= n,
    decreases n,
{
    if n > 0 {
        lemma_mismatches_bound(a, b, (n - 1) as nat);
    }
}

/// The three state counts of a row of cell states add up to its length.
pub proof fn lemma_counts_cover_state(s: Seq<u8>)
    requires
        all_cells(s),
    ensures
        count_of(s, 0) + count_of(s, 1) + count_of(s, 2) == s.len(),
    decreases s.len(),
{
    if s.len() > 0 {
        lemma_counts_cover_state(s.drop_last());
    }
}

/// A row is at distance 0 from itself.
pub proof fn lemma_hamming_self(a: Seq<u8>, n: nat)
    ensures
        mismatches(a, a, n) == 0,
    decreases n,
{
    if n > 0 {
        lemma_hamming_self(a, (n - 1) as nat);
    }
}

/// The Hamming distance is symmetric.
pub proof fn lemma_hamming_symmetric(a: Seq<u8>, b: Seq<u8>, n: nat)
    ensures
        mismatches(a, b, n) == mismatches(b, a, n),
    decreases n,
{
    if n > 0 {
        lemma_hamming_symmetric(a, b, (n - 1) as nat);
    }
}

/// The positions of `s` that hold `v`.
pub open spec fn positions_of(s: Seq<u8>, v: u8) -> Set<int> {
    Set::new(|i: int| 0 <= i < s.len() && s[i] == v)
}

/// The positions below `n` at which `a` and `b` differ.
pub open spec fn differing_positions(a: Seq<u8>, b: Seq<u8>, n: nat) -> Set<int> {
    Set::new(|i: int| 0 <= i < n && a[i] != b[i])
}

/// The count of `v` in a row is the number of positions that hold `v`.
pub proof fn lemma_count_is_number_of_positions(s: Seq<u8>, v: u8)
    ensures
        positions_of(s, v).finite(),
        count_of(s, v) == positions_of(s, v).len(),
    decreases s.len(),
{
    if s.len() == 0 {
        assert(positions_of(s, v) =~= Set::<int>::empty());
    } else {
        let n = s.len() - 1;
        let rest = s.drop_last();
        lemma_count_is_number_of_positions(rest, v);
        if s.last() == v {
            assert(positions_of(s, v) =~= positions_of(rest, v).insert(n));
            assert(!positions_of(rest, v).contains(n));
        } else {
            assert(positions_of(s, v) =~= positions_of(rest, v));
        }
    }
}

/// Appending a cell `x` raises the count of `x` by one and leaves every other
/// count unchanged; the empty row counts nothing.
pub proof fn lemma_count_after_push(s: Seq<u8>, x: u8, v: u8)
    ensures
        count_of(Seq::<u8>::empty(), v) == 0,
        count_of(s.push(x), v) == count_of(s, v) + if x == v { 1nat } else { 0nat },
{
    assert(s.push(x).drop_last() =~= s);
}

/// The number of mismatches below `n` is the number of positions below `n` at
/// which the rows differ.
pub proof fn lemma_mismatches_are_differing_positions(a: Seq<u8>, b: Seq<u8>, n: nat)
    ensures
        differing_positions(a, b, n).finite(),
        mismatches(a, b, n) == differing_positions(a, b, n).len(),
    decreases n,
{
    if n == 0 {
        assert(differing_positions(a, b, n) =~= Set::<int>::empty());
    } else {
        let m = (n - 1) as nat;
        lemma_mismatches_are_differing_positions(a, b, m);
        if a[m as int] != b[m as int] {
            assert(differing_positions(a, b, n) =~= differing_positions(a, b, m).insert(m as int));
            assert(!differing_positions(a, b, m).contains(m as int));
        } else {
            assert(differing_positions(a, b, n) =~= differing_positions(a, b, m));
        }
    }
}

/// Rows that differ at every position below `n` are at distance `n` there.
pub proof fn lemma_mismatches_everywhere(a: Seq<u8>, b: Seq<u8>, n: nat)
    requires
        forall|i: int| 0 <= i < n ==> a[i] != b[i],
    ensures
        mismatches(a, b, n) == n,
    decreases n,
{
    if n > 0 {
        lemma_mismatches_everywhere(a, b, (n - 1) as nat);
    }
}

/// Each decimal digit is rendered by the character whose code is that of `'0'`
/// plus the digit, so the rendering can be read back.
pub proof fn lemma_digit_char_reads_back(v: u8)
    requires
        v < 10,
    ensures
        digit_char(v) as u32 == '0' as u32 + v,
{
}

/// The three cell states are rendered by the consecutive shade characters
/// U+2591, U+2592, U+2593, and every other value by `?`.
pub proof fn lemma_shade_char_codes(v: u8)
    ensures
        v < 3 ==> shade_char(v) as u32 == 0x2591 + v,
        v >= 3 ==> shade_char(v) == '?',
{
}

/// `String::push`: appends the character `c` at the end of `text`.
#[verifier::external_body]
fn push_char(text: &mut String, c: char)
    ensures
        final(text)@ == old(text)@.push(c),
{
    text.push(c);
}

/// Detect if a pattern repeats in the history: when the history holds at least
/// three states and its last state equals an earlier one, the distance from the
/// earliest such state to the last.
pub fn detect_pattern(history: &[Vec<u8>]) -> (distance: Option<usize>)
    ensures
        match distance {
            Some(d) => {
                &&& history@.len() >= 3
                &&& 1 <= d < history@.len()
                &&& history@[history@.len() - 1 - d]@ == history@.last()@
                &&& forall|i: int|
                    0 <= i < history@.len() - 1 - d ==> #[trigger] history@[i]@ != history@.last()@
            },
            None => history@.len() < 3 || forall|i: int|
                0 <= i < history@.len() - 1 ==> #[trigger] history@[i]@ != history@.last()@,
        },
{
    if history.len() < 3 {
        return None;
    }
    // Check if the last state matches any previous state
    let n = history.len();
    let last = history[n - 1].as_slice();
    let mut i: usize = 0;
    while i < n - 1
        invariant
            n == history@.len(),
            n >= 3,
            last@ == history@.last()@,
            i <= n - 1,
            forall|j: int| 0 <= j < i ==> #[trigger] history@[j]@ != history@.last()@,
        decreases n - 1 - i,
    {
        if same_cells(history[i].as_slice(), last) {
            return Some(n - 1 - i);
        }
        i = i + 1;
    }
    None
}

/// Convert a state to a string representation (using characters '0', '1', '2').
/// Every value must be a decimal digit.
pub fn state_to_string(state: &[u8]) -> (text: String)
    requires
        forall|i: int| 0 <= i < state@.len() ==> #[trigger] state@[i] < 10,
    ensures
        text@ == state@.map_values(|v: u8| digit_char(v)),
{
    let mut text = String::new();
    let mut i: usize = 0;
    while i < state.len()
        invariant
            i <= state@.len(),
            forall|j: int| 0 <= j < state@.len() ==> #[trigger] state@[j] < 10,
            text@ == state@.subrange(0, i as int).map_values(|v: u8| digit_char(v)),
        decreases state@.len() - i,
    {
        let v = state[i];
        push_char(&mut text, (v + 48) as char);
        i = i + 1;
        assert(text@ =~= state@.subrange(0, i as int).map_values(|v: u8| digit_char(v)));
    }
    assert(state@.subrange(0, state@.len() as int) =~= state@);
    text
}

/// Convert a state to a visual representation (using block characters).
pub fn state_to_visual(state: &[u8]) -> (text: String)
    ensures
        text@ == state@.map_values(|v: u8| shade_char(v)),
{
    let mut text = String::new();
    let mut i: usize = 0;
    while i < state.len()
        invariant
            i <= state@.len(),
            text@ == state@.subrange(0, i as int).map_values(|v: u8| shade_char(v)),
        decreases state@.len() - i,
    {
        let c = match state[i] {
            0 => '\u{2591}',
            1 => '\u{2592}',
            2 => '\u{2593}',
            _ => '?',
        };
        push_char(&mut text, c);
        i = i + 1;
        assert(text@ =~= state@.subrange(0, i as int).map_values(|v: u8| shade_char(v)));
    }
    assert(state@.subrange(0, state@.len() as int) =~= state@);
    text
}

/// Count the occurrences of each state in a state vector. Every value must be
/// a cell state.
pub fn state_counts(state: &[u8]) -> (counts: [usize; 3])
    requires
        all_cells(state@),
    ensures
        forall|v: int| 0 <= v < 3 ==> #[trigger] counts@[v] == count_of(state@, v as u8),
{
    let mut counts = [0usize; 3];
    let mut i: usize = 0;
    while i < state.len()
        invariant
            i <= state@.len(),
            all_cells(state@),
            counts@.len() == 3,
            forall|v: int| 0 <= v < 3 ==> #[trigger] counts@[v] == count_of(state@.take(i as int), v as u8),
        decreases state@.len() - i,
    {
        let v = state[i];
        proof {
            lemma_count_of_bound(state@.take(i as int), v);
            assert(state@.take(i + 1).drop_last() =~= state@.take(i as int));
        }
        counts[v as usize] += 1;
        i = i + 1;
    }
    assert(state@.take(state@.len() as int) =~= state@);
    counts
}

/// Compute the Hamming distance between two states: the number of positions,
/// up to the shorter length, at which they differ.
pub fn hamming_distance(a: &[u8], b: &[u8]) -> (distance: usize)
    ensures
        distance == mismatches(a@, b@, min_len(a@.len(), b@.len())),
{
    let n = if a.len() <= b.len() { a.len() } else { b.len() };
    let mut distance: usize = 0;
    let mut i: usize = 0;
    while i < n
        invariant
            n == min_len(a@.len(), b@.len()),
            i <= n,
            distance == mismatches(a@, b@, i as nat),
        decreases n - i,
    {
        proof {
            lemma_mismatches_bound(a@, b@, i as nat);
        }
        if a[i] != b[i] {
            distance = distance + 1;
        }
        i = i + 1;
    }
    distance
}

} // verus!
