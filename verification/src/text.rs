//! Characters and character sequences: white space, searching, trimming and
//! decimal numerals.

use vstd::prelude::*;
use vstd::slice::slice_subrange;
use vstd::std_specs::iter::IteratorSpec;

verus! {

/// Whether `c` is white space in the sense of Unicode's property White_Space.
pub open spec fn is_white_space(c: char) -> bool {
    let u = c as u32;
    ||| 0x09 <= u <= 0x0D
    ||| u == 0x20
    ||| u == 0x85
    ||| u == 0xA0
    ||| u == 0x1680
    ||| 0x2000 <= u <= 0x200A
    ||| u == 0x2028
    ||| u == 0x2029
    ||| u == 0x202F
    ||| u == 0x205F
    ||| u == 0x3000
}

/// Tests `c` for white space.
pub fn white_space(c: char) -> (b: bool)
    ensures
        b == is_white_space(c),
{
    let u: u32 = c as u32;
    (0x09 <= u && u <= 0x0D) || u == 0x20 || u == 0x85 || u == 0xA0 || u == 0x1680 || (0x2000 <= u
        && u <= 0x200A) || u == 0x2028 || u == 0x2029 || u == 0x202F || u == 0x205F || u == 0x3000
}

/// The characters of `s`, in order.
pub fn chars_of(s: &str) -> (chars: Vec<char>)
    ensures
        chars@ == s@,
{
    let mut chars: Vec<char> = Vec::new();
    for c in rest: s.chars()
        invariant
            chars@ == rest.seq().take(rest.index() as int),
    {
        chars.push(c);
    }
    chars
}

/// `String::push` of std: it appends the character to the end of the string.
pub assume_specification[ String::push ](s: &mut String, c: char)
    ensures
        final(s)@ == old(s)@.push(c),
;

/// The string made of `chars`, in order.
pub fn string_of(chars: &[char]) -> (s: String)
    ensures
        s@ == chars@,
{
    let mut s = String::new();
    let mut i: usize = 0;
    while i < chars.len()
        invariant
            i <= chars.len(),
            s@ == chars@.take(i as int),
        decreases chars.len() - i,
    {
        s.push(chars[i]);
        i += 1;
    }
    s
}

/// Index of the first occurrence of `c` in `s`; the length of `s` where `c`
/// does not occur.
pub open spec fn position_of(s: Seq<char>, c: char) -> nat
    decreases s.len(),
{
    if s.len() == 0 || s[0] == c {
        0
    } else {
        1 + position_of(s.drop_first(), c)
    }
}

/// `position_of` is within the sequence, nothing before it is `c`, and what
/// stands at it is `c`.
pub proof fn lemma_position_of(s: Seq<char>, c: char)
    ensures
        position_of(s, c) <= s.len(),
        forall|j: int| 0 <= j < position_of(s, c) ==> s[j] != c,
        position_of(s, c) < s.len() ==> s[position_of(s, c) as int] == c,
    decreases s.len(),
{
    if s.len() == 0 || s[0] == c {
    } else {
        let t = s.drop_first();
        lemma_position_of(t, c);
        assert forall|j: int| 0 <= j < position_of(s, c) implies s[j] != c by {
            if j > 0 {
                assert(s[j] == t[j - 1]);
            }
        }
    }
}

/// The only index with nothing equal to `c` before it and `c` at it (or the
/// end of the sequence) is `position_of`.
pub proof fn lemma_position_is(s: Seq<char>, c: char, i: int)
    requires
        0 <= i <= s.len(),
        forall|j: int| 0 <= j < i ==> s[j] != c,
        i < s.len() ==> s[i] == c,
    ensures
        position_of(s, c) == i,
{
    lemma_position_of(s, c);
    let p = position_of(s, c) as int;
    if p < i {
        assert(s[p] != c);
    } else if i < p {
        assert(s[i] != c);
    }
}

/// Finds the first occurrence of `c` in `s`.
pub fn find_char(s: &[char], c: char) -> (i: usize)
    ensures
        i == position_of(s@, c),
        i <= s.len(),
{
    let mut i: usize = 0;
    while i < s.len() && s[i] != c
        invariant
            i <= s.len(),
            forall|j: int| 0 <= j < i ==> s@[j] != c,
        decreases s.len() - i,
    {
        i += 1;
    }
    proof {
        lemma_position_is(s@, c, i as int);
    }
    i
}

/// Length of `s` without the white space at its end.
pub open spec fn trimmed_len(s: Seq<char>) -> nat
    decreases s.len(),
{
    if s.len() == 0 || !is_white_space(s.last()) {
        s.len()
    } else {
        trimmed_len(s.drop_last())
    }
}

/// What follows `trimmed_len` is white space, and what stands just before it
/// is not.
pub proof fn lemma_trimmed_len(s: Seq<char>)
    ensures
        trimmed_len(s) <= s.len(),
        forall|j: int| trimmed_len(s) <= j < s.len() ==> is_white_space(s[j]),
        trimmed_len(s) > 0 ==> !is_white_space(s[trimmed_len(s) - 1]),
    decreases s.len(),
{
    if s.len() == 0 || !is_white_space(s.last()) {
    } else {
        let t = s.drop_last();
        lemma_trimmed_len(t);
        assert forall|j: int| trimmed_len(s) <= j < s.len() implies is_white_space(s[j]) by {
            if j < t.len() {
                assert(s[j] == t[j]);
            }
        }
    }
}

/// The only length with white space alone after it and none just before it is
/// `trimmed_len`.
pub proof fn lemma_trimmed_len_is(s: Seq<char>, n: int)
    requires
        0 <= n <= s.len(),
        forall|j: int| n <= j < s.len() ==> is_white_space(s[j]),
        n > 0 ==> !is_white_space(s[n - 1]),
    ensures
        trimmed_len(s) == n,
{
    lemma_trimmed_len(s);
    let t = trimmed_len(s) as int;
    if t < n {
        assert(is_white_space(s[n - 1]));
    } else if n < t {
        assert(is_white_space(s[t - 1]));
    }
}

/// Measures `s` without the white space at its end.
pub fn trim_end_len(s: &[char]) -> (n: usize)
    ensures
        n == trimmed_len(s@),
        n <= s.len(),
{
    let mut n: usize = s.len();
    while n > 0 && white_space(s[n - 1])
        invariant
            n <= s.len(),
            forall|j: int| n <= j < s.len() ==> is_white_space(s@[j]),
        decreases n,
    {
        n -= 1;
    }
    proof {
        lemma_trimmed_len_is(s@, n as int);
    }
    n
}

/// Number of white-space characters at the start of `s`.
pub open spec fn blank_len(s: Seq<char>) -> nat
    decreases s.len(),
{
    if s.len() == 0 || !is_white_space(s[0]) {
        0
    } else {
        1 + blank_len(s.drop_first())
    }
}

/// What precedes `blank_len` is white space, and what stands at it is not.
pub proof fn lemma_blank_len(s: Seq<char>)
    ensures
        blank_len(s) <= s.len(),
        forall|j: int| 0 <= j < blank_len(s) ==> is_white_space(s[j]),
        blank_len(s) < s.len() ==> !is_white_space(s[blank_len(s) as int]),
    decreases s.len(),
{
    if s.len() == 0 || !is_white_space(s[0]) {
    } else {
        let t = s.drop_first();
        lemma_blank_len(t);
        assert forall|j: int| 0 <= j < blank_len(s) implies is_white_space(s[j]) by {
            if j > 0 {
                assert(s[j] == t[j - 1]);
            }
        }
    }
}

/// The only index with white space alone before it and none at it is
/// `blank_len`.
pub proof fn lemma_blank_len_is(s: Seq<char>, n: int)
    requires
        0 <= n <= s.len(),
        forall|j: int| 0 <= j < n ==> is_white_space(s[j]),
        n < s.len() ==> !is_white_space(s[n]),
    ensures
        blank_len(s) == n,
{
    lemma_blank_len(s);
    let b = blank_len(s) as int;
    if b < n {
        assert(is_white_space(s[b]));
    } else if n < b {
        assert(is_white_space(s[n]));
    }
}

/// Counts the white-space characters at the start of `s`.
pub fn skip_white_space(s: &[char]) -> (n: usize)
    ensures
        n == blank_len(s@),
        n <= s.len(),
{
    let mut n: usize = 0;
    while n < s.len() && white_space(s[n])
        invariant
            n <= s.len(),
            forall|j: int| 0 <= j < n ==> is_white_space(s@[j]),
        decreases s.len() - n,
    {
        n += 1;
    }
    proof {
        lemma_blank_len_is(s@, n as int);
    }
    n
}

/// `s` without the white space at its start and at its end.
pub open spec fn trimmed(s: Seq<char>) -> Seq<char> {
    if blank_len(s) >= trimmed_len(s) {
        Seq::empty()
    } else {
        s.subrange(blank_len(s) as int, trimmed_len(s) as int)
    }
}

/// What is left of a sequence after trimming neither begins nor ends with
/// white space.
pub proof fn lemma_trimmed_has_no_margin(s: Seq<char>)
    ensures
        trimmed(s).len() > 0 ==> !is_white_space(trimmed(s).first()) && !is_white_space(
            trimmed(s).last(),
        ),
{
    lemma_blank_len(s);
    lemma_trimmed_len(s);
}

/// A sequence that neither begins nor ends with white space, with white space
/// put before and after it, is had back by trimming.
pub proof fn lemma_trimmed_of_padded(lead: Seq<char>, core: Seq<char>, pad: Seq<char>)
    requires
        forall|i: int| 0 <= i < lead.len() ==> is_white_space(lead[i]),
        forall|i: int| 0 <= i < pad.len() ==> is_white_space(pad[i]),
        core.len() > 0,
        !is_white_space(core.first()),
        !is_white_space(core.last()),
    ensures
        trimmed(lead + core + pad) == core,
{
    let s = lead + core + pad;
    let from = lead.len() as int;
    let to = from + core.len();
    assert(s[from] == core.first());
    assert(s[to - 1] == core.last());
    lemma_blank_len_is(s, from);
    lemma_trimmed_len_is(s, to);
    assert(s.subrange(from, to) == core);
}

/// Trims `s`: the part of it between the white space at its start and the
/// white space at its end.
pub fn trim(s: &[char]) -> (t: &[char])
    ensures
        t@ == trimmed(s@),
{
    let from: usize = skip_white_space(s);
    let to: usize = trim_end_len(s);
    if from >= to {
        slice_subrange(s, 0, 0)
    } else {
        slice_subrange(s, from, to)
    }
}

/// Whether `c` is one of the digits `0` to `9`.
pub open spec fn is_decimal_digit(c: char) -> bool {
    0x30 <= c as u32 <= 0x39
}

/// The value of a decimal digit; 0 for any other character.
pub open spec fn digit_value(c: char) -> nat {
    if is_decimal_digit(c) {
        (c as u32 - 0x30) as nat
    } else {
        0
    }
}

/// The number that the digits `ds` spell, the first being the most
/// significant.
pub open spec fn decimal_value(ds: Seq<char>) -> nat
    decreases ds.len(),
{
    if ds.len() == 0 {
        0
    } else {
        10 * decimal_value(ds.drop_last()) + digit_value(ds.last())
    }
}

/// Whether `ds` is a numeral: one decimal digit or more, and nothing else.
pub open spec fn is_numeral(ds: Seq<char>) -> bool {
    &&& ds.len() > 0
    &&& forall|i: int| 0 <= i < ds.len() ==> is_decimal_digit(#[trigger] ds[i])
}

/// The unsigned number that `s` denotes: an optional `+`, then a numeral
/// whose value fits in `usize`. Any other text denotes none.
pub open spec fn unsigned_of(s: Seq<char>) -> Option<usize> {
    let ds = if s.len() > 0 && s[0] == '+' {
        s.drop_first()
    } else {
        s
    };
    if is_numeral(ds) && decimal_value(ds) <= usize::MAX {
        Some(decimal_value(ds) as usize)
    } else {
        None
    }
}

/// A numeral is worth at least as much as each of its prefixes.
pub proof fn lemma_decimal_value_prefix(ds: Seq<char>, k: int)
    requires
        0 <= k <= ds.len(),
    ensures
        decimal_value(ds.take(k)) <= decimal_value(ds),
    decreases ds.len() - k,
{
    if k == ds.len() {
        assert(ds.take(k) == ds);
    } else {
        lemma_decimal_value_prefix(ds.drop_last(), k);
        assert(ds.drop_last().take(k) == ds.take(k));
    }
}

/// Reads `s` as an unsigned decimal number.
pub fn parse_unsigned(s: &[char]) -> (n: Option<usize>)
    ensures
        n == unsigned_of(s@),
{
    let start: usize = if s.len() > 0 && s[0] == '+' {
        1
    } else {
        0
    };
    let ghost ds = if s@.len() > 0 && s@[0] == '+' {
        s@.drop_first()
    } else {
        s@
    };
    assert(ds == s@.subrange(start as int, s.len() as int));
    if start == s.len() {
        return None;
    }
    let mut value: usize = 0;
    let mut i: usize = start;
    while i < s.len()
        invariant
            start <= i <= s.len(),
            ds == s@.subrange(start as int, s.len() as int),
            ds == if s@.len() > 0 && s@[0] == '+' {
                s@.drop_first()
            } else {
                s@
            },
            forall|j: int| 0 <= j < i - start ==> is_decimal_digit(#[trigger] ds[j]),
            value == decimal_value(ds.take(i - start)),
        decreases s.len() - i,
    {
        let c: char = s[i];
        let u: u32 = c as u32;
        if u < 0x30 || u > 0x39 {
            assert(!is_decimal_digit(ds[i - start]));
            return None;
        }
        let digit: usize = (u - 0x30) as usize;
        proof {
            let next = ds.take(i - start + 1);
            assert(next.drop_last() == ds.take(i - start));
            assert(next.last() == c);
            assert(decimal_value(next) == 10 * value + digit);
            lemma_decimal_value_prefix(ds, i - start + 1);
        }
        let tenfold: usize = match value.checked_mul(10) {
            Some(t) => t,
            None => {
                return None;
            },
        };
        value = match tenfold.checked_add(digit) {
            Some(v) => v,
            None => {
                return None;
            },
        };
        i += 1;
    }
    assert(ds.take(i - start) == ds);
    Some(value)
}

} // verus!
