//! Sampling of word codes: five digits drawn one by one and read as a decimal
//! numeral, the first digit drawn being the least significant.

use rand::rngs::ThreadRng;
use rand::Rng;
use vstd::arithmetic::div_mod::{lemma_div_denominator, lemma_fundamental_div_mod_converse};
use vstd::prelude::*;

verus! {

/// Number of digits in a code.
pub const CODE_DIGITS: usize = 5;

/// Smallest digit that is drawn.
pub const DIGIT_MIN: usize = 1;

/// Largest digit that is drawn.
pub const DIGIT_MAX: usize = 8;

/// The thread-local generator of `rand`; its state is opaque here.
#[verifier::external_type_specification]
#[verifier::external_body]
pub struct ExThreadRng(rand::rngs::ThreadRng);

/// `rand::thread_rng`: it hands out a handle to the generator of the current
/// thread, which the system seeds. Nothing is stated of the handle.
pub assume_specification[ rand::thread_rng ]() -> (rng: ThreadRng)
;

/// Ten to the power `e`.
pub open spec fn pow10(e: nat) -> nat
    decreases e,
{
    if e == 0 {
        1
    } else {
        10 * pow10((e - 1) as nat)
    }
}

/// The number whose decimal digit of weight `10^i` is `digits[i]`:
/// the sum of `digits[i] * 10^i` over all positions.
pub open spec fn code_value(digits: Seq<usize>) -> nat
    decreases digits.len(),
{
    if digits.len() == 0 {
        0
    } else {
        code_value(digits.drop_last()) + digits.last() as nat * pow10((digits.len() - 1) as nat)
    }
}

/// The decimal digit of `n` that has weight `10^i`.
pub open spec fn digit_at(n: nat, i: nat) -> nat {
    (n / pow10(i)) % 10
}

/// Whether `d` is a digit that the sampler draws.
pub open spec fn is_drawn_digit(d: nat) -> bool {
    DIGIT_MIN <= d <= DIGIT_MAX
}

/// Whether `n` is a code that the sampler can produce: at most five decimal
/// digits, each of the five in the drawn range.
pub open spec fn is_sampled_code(n: nat) -> bool {
    &&& n < pow10(CODE_DIGITS as nat)
    &&& forall|i: nat| i < CODE_DIGITS ==> is_drawn_digit(#[trigger] digit_at(n, i))
}

proof fn lemma_pow10_values()
    ensures
        pow10(0) == 1,
        pow10(1) == 10,
        pow10(2) == 100,
        pow10(3) == 1_000,
        pow10(4) == 10_000,
        pow10(5) == 100_000,
{
    reveal_with_fuel(pow10, 6);
}

/// A numeral of five digits written out position by position.
pub proof fn lemma_code_value_of_five(digits: Seq<usize>)
    requires
        digits.len() == CODE_DIGITS,
    ensures
        code_value(digits) == digits[0] + 10 * digits[1] + 100 * digits[2] + 1_000 * digits[3]
            + 10_000 * digits[4],
{
    lemma_pow10_values();
    let d4 = digits.drop_last();
    let d3 = d4.drop_last();
    let d2 = d3.drop_last();
    let d1 = d2.drop_last();
    let d0 = d1.drop_last();
    assert(code_value(d0) == 0);
    assert(code_value(d1) == digits[0] * pow10(0));
    assert(code_value(d2) == code_value(d1) + digits[1] * pow10(1));
    assert(code_value(d3) == code_value(d2) + digits[2] * pow10(2));
    assert(code_value(d4) == code_value(d3) + digits[3] * pow10(3));
    assert(code_value(digits) == code_value(d4) + digits[4] * pow10(4));
}

/// Reading five decimal digits as a numeral loses nothing: each digit can be
/// read back from the value at its own position, and the value has no digit
/// beyond the fifth.
pub proof fn lemma_digits_read_back(digits: Seq<usize>)
    requires
        digits.len() == CODE_DIGITS,
        forall|i: int| 0 <= i < digits.len() ==> digits[i] <= 9,
    ensures
        code_value(digits) < pow10(CODE_DIGITS as nat),
        forall|i: nat|
            i < CODE_DIGITS ==> #[trigger] digit_at(code_value(digits), i) == digits[i as int],
{
    lemma_pow10_values();
    lemma_code_value_of_five(digits);
    let v = code_value(digits) as int;
    let d0 = digits[0] as int;
    let d1 = digits[1] as int;
    let d2 = digits[2] as int;
    let d3 = digits[3] as int;
    let d4 = digits[4] as int;
    assert(digit_at(v as nat, 0) == d0) by {
        lemma_fundamental_div_mod_converse(v, 10, d1 + 10 * d2 + 100 * d3 + 1_000 * d4, d0);
    }
    assert(digit_at(v as nat, 1) == d1) by {
        lemma_fundamental_div_mod_converse(v, 10, d1 + 10 * d2 + 100 * d3 + 1_000 * d4, d0);
        lemma_fundamental_div_mod_converse(v / 10, 10, d2 + 10 * d3 + 100 * d4, d1);
    }
    assert(digit_at(v as nat, 2) == d2) by {
        lemma_fundamental_div_mod_converse(v, 100, d2 + 10 * d3 + 100 * d4, d0 + 10 * d1);
        lemma_fundamental_div_mod_converse(v / 100, 10, d3 + 10 * d4, d2);
    }
    assert(digit_at(v as nat, 3) == d3) by {
        lemma_fundamental_div_mod_converse(v, 1_000, d3 + 10 * d4, d0 + 10 * d1 + 100 * d2);
        lemma_fundamental_div_mod_converse(v / 1_000, 10, d4, d3);
    }
    assert(digit_at(v as nat, 4) == d4) by {
        lemma_fundamental_div_mod_converse(v, 10_000, d4, d0 + 10 * d1 + 100 * d2 + 1_000 * d3);
        lemma_fundamental_div_mod_converse(v / 10_000, 10, 0, d4);
    }
    assert forall|i: nat| i < CODE_DIGITS implies #[trigger] digit_at(v as nat, i)
        == digits[i as int] by {
        assert(i == 0 || i == 1 || i == 2 || i == 3 || i == 4);
    }
}

/// The digits decide the code and the code decides the digits: two runs of
/// five decimal digits spell the same number exactly where they are the same
/// digits.
pub proof fn lemma_code_determined_by_digits(a: Seq<usize>, b: Seq<usize>)
    requires
        a.len() == CODE_DIGITS,
        b.len() == CODE_DIGITS,
        forall|i: int| 0 <= i < a.len() ==> a[i] <= 9,
        forall|i: int| 0 <= i < b.len() ==> b[i] <= 9,
    ensures
        a == b <==> code_value(a) == code_value(b),
{
    lemma_digits_read_back(a);
    lemma_digits_read_back(b);
    if code_value(a) == code_value(b) {
        assert forall|i: int| 0 <= i < a.len() implies a[i] == b[i] by {
            assert(digit_at(code_value(a), i as nat) == a[i]);
            assert(digit_at(code_value(b), i as nat) == b[i]);
        }
        assert(a =~= b);
    }
}

/// A number below `10^5` is the sum of its five decimal digits, each times
/// its weight.
pub proof fn lemma_value_is_sum_of_digits(n: nat)
    requires
        n < pow10(CODE_DIGITS as nat),
    ensures
        n == digit_at(n, 0) + 10 * digit_at(n, 1) + 100 * digit_at(n, 2) + 1_000 * digit_at(n, 3)
            + 10_000 * digit_at(n, 4),
{
    lemma_pow10_values();
    let x = n as int;
    let q1 = x / 10;
    let q2 = q1 / 10;
    let q3 = q2 / 10;
    let q4 = q3 / 10;
    assert(q2 == x / 100) by {
        lemma_div_denominator(x, 10, 10);
    }
    assert(q3 == x / 1_000) by {
        lemma_div_denominator(x, 100, 10);
    }
    assert(q4 == x / 10_000) by {
        lemma_div_denominator(x, 1_000, 10);
    }
    assert(x == 10 * q1 + x % 10);
    assert(q1 == 10 * q2 + q1 % 10);
    assert(q2 == 10 * q3 + q2 % 10);
    assert(q3 == 10 * q4 + q3 % 10);
    assert(q4 == q4 % 10);
}

/// Every code that the sampler can produce lies between 11111 and 88888.
pub proof fn lemma_sampled_code_range(n: nat)
    requires
        is_sampled_code(n),
    ensures
        11_111 <= n <= 88_888,
{
    lemma_value_is_sum_of_digits(n);
    assert(is_drawn_digit(digit_at(n, 0)));
    assert(is_drawn_digit(digit_at(n, 1)));
    assert(is_drawn_digit(digit_at(n, 2)));
    assert(is_drawn_digit(digit_at(n, 3)));
    assert(is_drawn_digit(digit_at(n, 4)));
}

/// Reads five decimal digits as one number, `digits[i]` having weight `10^i`.
pub fn compose_code(digits: &[usize]) -> (code: usize)
    requires
        digits.len() == CODE_DIGITS,
        forall|i: int| 0 <= i < digits.len() ==> digits[i] <= 9,
    ensures
        code == code_value(digits@),
{
    proof {
        lemma_code_value_of_five(digits@);
    }
    digits[0] + 10 * digits[1] + 100 * digits[2] + 1_000 * digits[3] + 10_000 * digits[4]
}

/// `Rng::gen_range` of `rand` on the half-open range `low..high` of `usize`:
/// it returns some number of that range. Which one is left open; an empty
/// range, on which it panics, is excluded.
#[verifier::external_body]
fn draw_in_range(rng: &mut ThreadRng, low: usize, high: usize) -> (n: usize)
    requires
        low < high,
    ensures
        low <= n < high,
{
    rng.gen_range(low..high)
}

/// Draws five digits, each between `DIGIT_MIN` and `DIGIT_MAX`, and returns
/// the number they spell, the first digit drawn being the least significant.
pub fn gen_rnd_number(rng: &mut ThreadRng) -> (code: usize)
    ensures
        is_sampled_code(code as nat),
        exists|digits: Seq<usize>|
            {
                &&& digits.len() == CODE_DIGITS
                &&& forall|i: int|
                    0 <= i < digits.len() ==> is_drawn_digit(#[trigger] digits[i] as nat)
                &&& code == #[trigger] code_value(digits)
            },
{
    let mut digits: Vec<usize> = Vec::new();
    while digits.len() < CODE_DIGITS
        invariant
            digits.len() <= CODE_DIGITS,
            forall|i: int| 0 <= i < digits.len() ==> is_drawn_digit(#[trigger] digits[i] as nat),
        decreases CODE_DIGITS - digits.len(),
    {
        let digit: usize = draw_in_range(rng, DIGIT_MIN, DIGIT_MAX + 1);
        digits.push(digit);
    }
    let code: usize = compose_code(digits.as_slice());
    proof {
        lemma_digits_read_back(digits@);
    }
    code
}

} // verus!
