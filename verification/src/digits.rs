//! Decimal numerals: what a run of ASCII digits denotes, how a number is
//! written, and that the two are inverse to each other.

use vstd::prelude::*;

verus! {

/// ASCII `0`.
pub const ZERO: u8 = 48;

/// ASCII `9`.
pub const NINE: u8 = 57;

/// `b` is an ASCII decimal digit.
pub open spec fn is_digit(b: u8) -> bool {
    ZERO <= b <= NINE
}

/// Every byte of `s` is an ASCII decimal digit.
pub open spec fn all_digits(s: Seq<u8>) -> bool {
    forall|i: int| 0 <= i < s.len() ==> is_digit(#[trigger] s[i])
}

/// `s` is the numeral of some natural number as it is written here: at least
/// one digit, and no `0` in front of another digit.
pub open spec fn is_numeral(s: Seq<u8>) -> bool {
    &&& s.len() >= 1
    &&& all_digits(s)
    &&& (s.len() == 1 || s[0] != ZERO)
}

/// The number that the decimal digits `s` denote, the empty run denoting 0.
pub open spec fn decimal_value(s: Seq<u8>) -> nat
    decreases s.len(),
{
    if s.len() == 0 {
        0
    } else {
        decimal_value(s.drop_last()) * 10 + (if is_digit(s.last()) {
            (s.last() - ZERO) as nat
        } else {
            0
        })
    }
}

/// The numeral of `n`.
pub open spec fn decimal_digits(n: nat) -> Seq<u8>
    decreases n,
{
    if n < 10 {
        seq![(ZERO + n) as u8]
    } else {
        decimal_digits(n / 10).push((ZERO + n % 10) as u8)
    }
}

/// The end of the longest run of digits of `s` that starts at `start`: the
/// index of the first byte from `start` on that is no digit, or the length of
/// `s` if there is none.
pub open spec fn digits_end(s: Seq<u8>, start: int) -> int
    decreases s.len() - start,
{
    if 0 <= start < s.len() && is_digit(s[start]) {
        digits_end(s, start + 1)
    } else {
        start
    }
}

/// `digits_end` is the one index that ends a run of digits from `start`.
pub proof fn lemma_digits_end(s: Seq<u8>, start: int)
    requires
        0 <= start <= s.len(),
    ensures
        start <= digits_end(s, start) <= s.len(),
        all_digits(s.subrange(start, digits_end(s, start))),
        digits_end(s, start) < s.len() ==> !is_digit(s[digits_end(s, start)]),
    decreases s.len() - start,
{
    if start < s.len() && is_digit(s[start]) {
        lemma_digits_end(s, start + 1);
        let end = digits_end(s, start);
        assert forall|i: int| 0 <= i < end - start implies is_digit(
            #[trigger] s.subrange(start, end)[i],
        ) by {
            if i > 0 {
                assert(s.subrange(start, end)[i] == s.subrange(start + 1, end)[i - 1]);
            }
        }
    }
}

/// A run of digits from `start` that stops at `end` is the longest one.
pub proof fn lemma_digits_end_is(s: Seq<u8>, start: int, end: int)
    requires
        0 <= start <= end <= s.len(),
        all_digits(s.subrange(start, end)),
        end < s.len() ==> !is_digit(s[end]),
    ensures
        digits_end(s, start) == end,
    decreases end - start,
{
    if start < end {
        assert(s[start] == s.subrange(start, end)[0]);
        assert forall|i: int| 0 <= i < end - (start + 1) implies is_digit(
            #[trigger] s.subrange(start + 1, end)[i],
        ) by {
            assert(s.subrange(start + 1, end)[i] == s.subrange(start, end)[i + 1]);
        }
        lemma_digits_end_is(s, start + 1, end);
    }
}

/// The numeral of `n` is a numeral, and it is `0` only for `n == 0`.
pub proof fn lemma_decimal_digits_numeral(n: nat)
    ensures
        is_numeral(decimal_digits(n)),
        decimal_digits(n)[0] == ZERO <==> n == 0,
    decreases n,
{
    if n >= 10 {
        lemma_decimal_digits_numeral(n / 10);
        let init = decimal_digits(n / 10);
        let all = decimal_digits(n);
        assert(all == init.push((ZERO + n % 10) as u8));
        assert forall|i: int| 0 <= i < all.len() implies is_digit(#[trigger] all[i]) by {
            if i < init.len() {
                assert(all[i] == init[i]);
            }
        }
        assert(all[0] == init[0]);
    }
}

/// Reading the numeral of `n` gives `n` back.
pub proof fn lemma_value_of_digits(n: nat)
    ensures
        decimal_value(decimal_digits(n)) == n,
    decreases n,
{
    if n < 10 {
        let s = decimal_digits(n);
        assert(s.drop_last().len() == 0);
        assert(decimal_value(s.drop_last()) == 0);
    } else {
        lemma_value_of_digits(n / 10);
        let init = decimal_digits(n / 10);
        let s = decimal_digits(n);
        assert(s.drop_last() == init);
        assert(s.last() == (ZERO + n % 10) as u8);
    }
}

/// A numeral that does not start with `0` denotes a positive number.
pub proof fn lemma_value_positive(s: Seq<u8>)
    requires
        s.len() >= 1,
        all_digits(s),
        s[0] != ZERO,
    ensures
        decimal_value(s) >= 1,
    decreases s.len(),
{
    if s.len() > 1 {
        let init = s.drop_last();
        assert forall|i: int| 0 <= i < init.len() implies is_digit(#[trigger] init[i]) by {
            assert(init[i] == s[i]);
        }
        assert(init[0] == s[0]);
        lemma_value_positive(init);
    } else {
        assert(s.drop_last().len() == 0);
        assert(s.last() == s[0]);
    }
}

/// Writing the number that a numeral denotes gives the numeral back.
pub proof fn lemma_digits_of_value(s: Seq<u8>)
    requires
        is_numeral(s),
    ensures
        decimal_digits(decimal_value(s)) == s,
    decreases s.len(),
{
    let init = s.drop_last();
    let d = (s.last() - ZERO) as nat;
    assert(is_digit(s.last()));
    if s.len() == 1 {
        assert(init.len() == 0);
        assert(decimal_value(s) == d);
        assert(decimal_digits(d) =~= s);
    } else {
        assert forall|i: int| 0 <= i < init.len() implies is_digit(#[trigger] init[i]) by {
            assert(init[i] == s[i]);
        }
        assert(init[0] == s[0]);
        lemma_value_positive(init);
        lemma_digits_of_value(init);
        let v = decimal_value(init);
        assert(decimal_value(s) == v * 10 + d);
        assert((v * 10 + d) / 10 == v && (v * 10 + d) % 10 == d) by (nonlinear_arith)
            requires
                d < 10,
        ;
        assert(decimal_digits(decimal_value(s)) == decimal_digits(v).push((ZERO + d) as u8));
        assert(init.push(s.last()) =~= s);
    }
}

/// Reads the run of digits of `bytes` that starts at `start`. Returns where
/// the run ends and the number it denotes, or `None` for a number above
/// `u64::MAX`.
pub fn scan_digits(bytes: &[u8], start: usize) -> (result: (usize, Option<u64>))
    requires
        start <= bytes.len(),
    ensures
        result.0 == digits_end(bytes@, start as int),
        start <= result.0 <= bytes.len(),
        decimal_value(bytes@.subrange(start as int, result.0 as int)) <= u64::MAX
            ==> result.1 == Some(
            decimal_value(bytes@.subrange(start as int, result.0 as int)) as u64,
        ),
        decimal_value(bytes@.subrange(start as int, result.0 as int)) > u64::MAX ==> result.1
            is None,
{
    let mut i: usize = start;
    let mut total: Option<u64> = Some(0);
    proof {
        assert(bytes@.subrange(start as int, start as int).len() == 0);
    }
    while i < bytes.len() && ZERO <= bytes[i] && bytes[i] <= NINE
        invariant
            start <= i <= bytes.len(),
            digits_end(bytes@, start as int) == digits_end(bytes@, i as int),
            match total {
                Some(n) => n == decimal_value(bytes@.subrange(start as int, i as int)),
                None => decimal_value(bytes@.subrange(start as int, i as int)) > u64::MAX,
            },
        decreases bytes.len() - i,
    {
        let digit: u64 = (bytes[i] - ZERO) as u64;
        proof {
            let run = bytes@.subrange(start as int, i + 1);
            assert(run.drop_last() == bytes@.subrange(start as int, i as int));
            assert(run.last() == bytes@[i as int]);
            assert(decimal_value(run) == decimal_value(run.drop_last()) * 10 + digit);
        }
        total = match total {
            Some(n) => match n.checked_mul(10) {
                Some(tens) => tens.checked_add(digit),
                None => None,
            },
            None => None,
        };
        i += 1;
    }
    (i, total)
}

/// Appends the numeral of `n` to `out`.
pub fn push_decimal(out: &mut Vec<u8>, n: u64)
    ensures
        final(out)@ == old(out)@ + decimal_digits(n as nat),
    decreases n,
{
    if n >= 10 {
        push_decimal(out, n / 10);
    }
    let digit: u8 = (n % 10) as u8;
    out.push(ZERO + digit);
    proof {
        if n >= 10 {
            assert(final(out)@ == (old(out)@ + decimal_digits((n / 10) as nat)).push(
                (ZERO + n % 10) as u8,
            ));
            assert(final(out)@ =~= old(out)@ + decimal_digits(n as nat));
        } else {
            assert(final(out)@ =~= old(out)@ + decimal_digits(n as nat));
        }
    }
}

} // verus!
