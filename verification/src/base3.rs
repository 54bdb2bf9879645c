//! Base-3 numerals: the mathematics behind Wolfram numbers of ternary rules.
use vstd::prelude::*;

verus! {

/// Three to the power `n`.
pub open spec fn pow3(n: nat) -> nat
    decreases n,
{
    if n == 0 {
        1
    } else {
        3 * pow3((n - 1) as nat)
    }
}

/// Every entry of `s` is a cell state, that is 0, 1 or 2.
pub open spec fn all_cells(s: Seq<u8>) -> bool {
    forall|i: int| 0 <= i < s.len() ==> #[trigger] s[i] < 3
}

/// The number whose base-3 digits, least significant first, are `s`:
/// `s[0] + 3 * s[1] + 9 * s[2] + ...`.
pub open spec fn base3_value(s: Seq<u8>) -> nat
    decreases s.len(),
{
    if s.len() == 0 {
        0
    } else {
        s[0] as nat + 3 * base3_value(s.drop_first())
    }
}

/// The `i`-th base-3 digit of `w`: `floor(w / 3^i) mod 3`.
pub open spec fn ternary_digit(w: nat, i: nat) -> u8 {
    ((w / pow3(i)) % 3) as u8
}

/// The lowest `n` base-3 digits of `w`, least significant first.
pub open spec fn ternary_digits(w: nat, n: nat) -> Seq<u8> {
    Seq::new(n, |i: int| ternary_digit(w, i as nat))
}

pub proof fn lemma_pow3_positive(n: nat)
    ensures
        pow3(n) >= 1,
    decreases n,
{
    if n > 0 {
        lemma_pow3_positive((n - 1) as nat);
    }
}

pub proof fn lemma_pow3_monotone(a: nat, b: nat)
    requires
        a <= b,
    ensures
        pow3(a) <= pow3(b),
    decreases b,
{
    if a < b {
        lemma_pow3_monotone(a, (b - 1) as nat);
        lemma_pow3_positive((b - 1) as nat);
    }
}

pub proof fn lemma_pow3_27()
    ensures
        pow3(27) == 7625597484987,
{
    reveal_with_fuel(pow3, 28);
}

/// Appending a most significant digit `x` to a numeral of `n` digits adds
/// `x * 3^n`; the empty numeral is 0.
pub proof fn lemma_base3_value_push(s: Seq<u8>, x: u8)
    ensures
        base3_value(Seq::<u8>::empty()) == 0,
        base3_value(s.push(x)) == base3_value(s) + x * pow3(s.len()),
    decreases s.len(),
{
    if s.len() > 0 {
        lemma_base3_value_push(s.drop_first(), x);
        assert(s.push(x).drop_first() =~= s.drop_first().push(x));
        assert(pow3(s.len()) == 3 * pow3((s.len() - 1) as nat));
        assert(3 * (x * pow3((s.len() - 1) as nat)) == x * pow3(s.len())) by (nonlinear_arith)
            requires
                pow3(s.len()) == 3 * pow3((s.len() - 1) as nat),
        ;
    } else {
        assert(s.push(x).drop_first() =~= Seq::<u8>::empty());
        assert(pow3(0) == 1);
    }
}

/// A numeral of `s.len()` base-3 digits is below `3^s.len()`.
pub proof fn lemma_base3_value_bound(s: Seq<u8>)
    requires
        all_cells(s),
    ensures
        base3_value(s) < pow3(s.len()),
    decreases s.len(),
{
    if s.len() > 0 {
        lemma_base3_value_bound(s.drop_first());
    }
}

/// Reading digit `i` of the value of a numeral gives back `s[i]`.
pub proof fn lemma_digit_of_value(s: Seq<u8>, i: nat)
    requires
        all_cells(s),
        i < s.len(),
    ensures
        ternary_digit(base3_value(s), i) == s[i as int],
    decreases i,
{
    let v = base3_value(s);
    let rest = base3_value(s.drop_first());
    assert(v == s[0] as nat + 3 * rest);
    assert(v % 3 == s[0] as nat && v / 3 == rest) by {
        vstd::arithmetic::div_mod::lemma_fundamental_div_mod_converse(
            v as int,
            3,
            rest as int,
            s[0] as int,
        );
    }
    if i == 0 {
        assert(pow3(0) == 1);
        assert(v / 1 == v);
    } else {
        let j = (i - 1) as nat;
        lemma_digit_of_value(s.drop_first(), j);
        lemma_pow3_positive(j);
        vstd::arithmetic::div_mod::lemma_div_denominator(v as int, 3, pow3(j) as int);
        assert(pow3(i) == 3 * pow3(j));
        assert(v / pow3(i) == rest / pow3(j));
    }
}

/// The digits of `w` read back as a numeral give `w mod 3^n`.
pub proof fn lemma_value_of_digits(w: nat, n: nat)
    ensures
        base3_value(ternary_digits(w, n)) == w % pow3(n),
    decreases n,
{
    let d = ternary_digits(w, n);
    if n == 0 {
        assert(w % 1 == 0);
    } else {
        let m = (n - 1) as nat;
        lemma_pow3_positive(m);
        assert forall|i: int| 0 <= i < m implies #[trigger] d.drop_first()[i] == ternary_digits(
            w / 3,
            m,
        )[i] by {
            lemma_pow3_positive(i as nat);
            vstd::arithmetic::div_mod::lemma_div_denominator(w as int, 3, pow3(i as nat) as int);
        }
        assert(d.drop_first() =~= ternary_digits(w / 3, m));
        lemma_value_of_digits(w / 3, m);
        assert(pow3(0) == 1);
        assert(w / 1 == w);
        assert(d[0] == (w % 3) as u8);
        vstd::arithmetic::div_mod::lemma_mod_breakdown(w as int, 3, pow3(m) as int);
    }
}

/// Decoding the value of a numeral gives back the numeral.
pub proof fn lemma_digits_of_value(s: Seq<u8>)
    requires
        all_cells(s),
    ensures
        ternary_digits(base3_value(s), s.len()) == s,
{
    assert forall|i: int| 0 <= i < s.len() implies #[trigger] ternary_digits(
        base3_value(s),
        s.len(),
    )[i] == s[i] by {
        lemma_digit_of_value(s, i as nat);
    }
    assert(ternary_digits(base3_value(s), s.len()) =~= s);
}

} // verus!
