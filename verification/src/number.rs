//! Reading and writing unsigned numbers.

use crate::bytes;
use vstd::prelude::*;

verus! {

/// What a hexadecimal digit of either case stands for.
#[verifier::allow_in_spec]
pub fn digit_value(b: u8) -> u8
    returns
        (if bytes::is_digit(b) {
            (b - '0' as u8) as u8
        } else if 'a' as u8 <= b && b <= 'f' as u8 {
            (b - 'a' as u8 + 10) as u8
        } else if 'A' as u8 <= b && b <= 'F' as u8 {
            (b - 'A' as u8 + 10) as u8
        } else {
            0u8
        }),
{
    if bytes::is_digit(b) {
        b - '0' as u8
    } else if 'a' as u8 <= b && b <= 'f' as u8 {
        b - 'a' as u8 + 10
    } else if 'A' as u8 <= b && b <= 'F' as u8 {
        b - 'A' as u8 + 10
    } else {
        0
    }
}

/// Whether `b` is a digit in the given radix, which is at most sixteen.
pub open spec fn is_radix_digit(b: u8, radix: nat) -> bool {
    bytes::is_hex_digit(b) && digit_value(b) < radix
}

/// The number that a string of digits writes in the given radix.
pub open spec fn value(s: Seq<u8>, radix: nat) -> nat
    decreases s.len(),
{
    if s.len() == 0 {
        0
    } else {
        value(s.drop_last(), radix) * radix + digit_value(s.last()) as nat
    }
}

/// The number that `s` writes, where `s` is a nonempty string of digits and
/// the number is at most `max`.
pub open spec fn parsed(s: Seq<u8>, radix: nat, max: nat) -> Option<nat> {
    if s.len() > 0 && bytes::all(s, |b: u8| is_radix_digit(b, radix)) && value(s, radix) <= max {
        Some(value(s, radix))
    } else {
        None
    }
}

/// What is left of `s` without one leading plus sign.
pub open spec fn unsigned(s: Seq<u8>) -> Seq<u8> {
    if s.len() > 0 && s[0] == '+' as u8 {
        bytes::after(s, 1)
    } else {
        s
    }
}

/// The decimal digits of a number, without leading zeros.
pub open spec fn decimal(n: nat) -> Seq<u8>
    decreases n,
{
    if n < 10 {
        seq![('0' as u8 + n) as u8]
    } else {
        decimal(n / 10).push(('0' as u8 + n % 10) as u8)
    }
}

proof fn lemma_value_grows(s: Seq<u8>, i: int, radix: nat)
    requires
        0 <= i <= s.len(),
        radix > 0,
    ensures
        value(bytes::before(s, i), radix) <= value(s, radix),
    decreases s.len() - i,
{
    if i < s.len() {
        lemma_value_grows(s, i + 1, radix);
        let next = bytes::before(s, i + 1);
        assert(next.drop_last() =~= bytes::before(s, i));
        let v = value(bytes::before(s, i), radix);
        assert(v <= v * radix) by (nonlinear_arith)
            requires
                radix >= 1,
        ;
    } else {
        assert(bytes::before(s, i) =~= s);
    }
}

/// Reads a nonempty string of digits as a number of at most `max`.
pub fn parse(s: &[u8], radix: u64, max: u64) -> (result: Option<u64>)
    requires
        1 <= radix <= 16,
    ensures
        match parsed(s@, radix as nat, max as nat) {
            Some(n) => result == Some(n as u64),
            None => result is None,
        },
{
    if s.is_empty() {
        return None;
    }
    let mut total: u64 = 0;
    let mut i: usize = 0;
    while i < s.len()
        invariant
            i <= s.len(),
            1 <= radix <= 16,
            forall|j: int| 0 <= j < i ==> is_radix_digit(#[trigger] s@[j], radix as nat),
            total as nat == value(bytes::before(s@, i as int), radix as nat),
            total <= max,
        decreases s.len() - i,
    {
        let b = s[i];
        if !bytes::is_hex_digit(b) || digit_value(b) as u64 >= radix {
            assert(!is_radix_digit(s@[i as int], radix as nat));
            return None;
        }
        assert(0 <= total * radix <= 0xffff_ffff_ffff_ffff * 16) by (nonlinear_arith)
            requires
                0 <= total <= 0xffff_ffff_ffff_ffff,
                1 <= radix <= 16,
        ;
        let wide: u128 = total as u128 * radix as u128 + digit_value(b) as u128;
        proof {
            assert(bytes::before(s@, i + 1).drop_last() =~= bytes::before(s@, i as int));
            assert(wide == value(bytes::before(s@, i + 1), radix as nat));
            lemma_value_grows(s@, i + 1, radix as nat);
        }
        if wide > max as u128 {
            return None;
        }
        total = wide as u64;
        i += 1;
    }
    assert(bytes::before(s@, i as int) =~= s@);
    Some(total)
}

/// Reads a number as [`parse`] does, after at most one leading plus sign.
pub fn parse_signed(s: &[u8], radix: u64, max: u64) -> (result: Option<u64>)
    requires
        1 <= radix <= 16,
    ensures
        match parsed(unsigned(s@), radix as nat, max as nat) {
            Some(n) => result == Some(n as u64),
            None => result is None,
        },
{
    if !s.is_empty() && s[0] == '+' as u8 {
        parse(&s[1..s.len()], radix, max)
    } else {
        parse(s, radix, max)
    }
}

/// Writes the decimal digits of `n` at the end of `output`.
pub fn push_decimal(output: &mut Vec<u8>, n: u32)
    ensures
        final(output)@ == old(output)@ + decimal(n as nat),
    decreases n,
{
    if n >= 10 {
        push_decimal(output, n / 10);
    }
    output.push('0' as u8 + (n % 10) as u8);
    assert(output@ =~= old(output)@ + decimal(n as nat));
}

/// Reading the digits that were written gives the number back.
pub proof fn law_decimal_reads_back(n: nat, max: nat)
    requires
        n <= max,
    ensures
        parsed(decimal(n), 10, max) == Some(n),
    decreases n,
{
    if n >= 10 {
        law_decimal_reads_back(n / 10, max);
        assert(decimal(n).drop_last() =~= decimal(n / 10));
        assert forall|i: int| 0 <= i < decimal(n).len() implies is_radix_digit(
            #[trigger] decimal(n)[i],
            10,
        ) by {
            if i < decimal(n).len() - 1 {
                assert(is_radix_digit(decimal(n / 10)[i], 10));
            }
        }
    } else {
        assert(decimal(n).drop_last() =~= Seq::<u8>::empty());
        assert(value(decimal(n).drop_last(), 10) == 0);
        assert(digit_value(decimal(n)[0]) == n);
    }
    assert(value(decimal(n), 10) == n);
    assert(forall|i: int| 0 <= i < decimal(n).len() ==> is_radix_digit(#[trigger] decimal(n)[i], 10));
}

/// The numbers of a machine have at most twenty decimal digits.
pub proof fn lemma_decimal_length(n: nat)
    requires
        n <= u64::MAX,
    ensures
        1 <= decimal(n).len() <= 20,
{
    reveal_with_fuel(decimal, 20);
}

/// Only zero itself is written with a zero in front.
pub proof fn lemma_decimal_has_no_leading_zero(n: nat)
    ensures
        decimal(n).len() >= 1,
        n > 0 ==> decimal(n)[0] != '0' as u8,
        n == 0 ==> decimal(n).len() == 1,
    decreases n,
{
    if n >= 10 {
        lemma_decimal_has_no_leading_zero(n / 10);
        assert(decimal(n)[0] == decimal(n / 10)[0]);
    }
}

/// What a digit stands for: `0` to `9`, and from ten on `a` to `f` in either
/// case.
pub open spec fn digit(b: u8) -> Option<nat> {
    if 0x30 <= b <= 0x39 {
        Some((b - 0x30) as nat)
    } else if 0x41 <= b <= 0x46 {
        Some((b - 0x41 + 10) as nat)
    } else if 0x61 <= b <= 0x66 {
        Some((b - 0x61 + 10) as nat)
    } else {
        None
    }
}

/// Whether a text writes a number in positional notation, with any number of
/// zeros in front: its last digit is what the number leaves over, and what
/// stands before writes the quotient.
pub open spec fn writes(s: Seq<u8>, radix: nat, n: nat) -> bool
    decreases s.len(),
{
    &&& s.len() > 0
    &&& digit(s.last()) == Some(n % radix)
    &&& if s.len() == 1 {
        n < radix
    } else {
        writes(s.drop_last(), radix, n / radix)
    }
}

/// What writes a number is a string of digits with that value.
proof fn lemma_writes_value(s: Seq<u8>, radix: nat, n: nat)
    requires
        2 <= radix <= 16,
        writes(s, radix, n),
    ensures
        s.len() > 0,
        bytes::all(s, |b: u8| is_radix_digit(b, radix)),
        value(s, radix) == n,
    decreases s.len(),
{
    vstd::arithmetic::div_mod::lemma_fundamental_div_mod(n as int, radix as int);
    vstd::arithmetic::div_mod::lemma_mod_bound(n as int, radix as int);
    vstd::arithmetic::mul::lemma_mul_is_commutative((n / radix) as int, radix as int);
    assert(is_radix_digit(s.last(), radix));
    assert(digit_value(s.last()) == n % radix);
    if s.len() == 1 {
        assert(s.drop_last() =~= Seq::<u8>::empty());
        vstd::arithmetic::div_mod::lemma_small_mod(n, radix);
        assert(value(s.drop_last(), radix) == 0);
        assert(0 * radix == 0) by (nonlinear_arith);
    } else {
        lemma_writes_value(s.drop_last(), radix, n / radix);
        assert forall|i: int| 0 <= i < s.len() implies is_radix_digit(#[trigger] s[i], radix) by {
            if i < s.len() - 1 {
                assert(is_radix_digit(s.drop_last()[i], radix));
            }
        }
    }
}

/// A string of digits writes its value.
proof fn lemma_value_is_written(s: Seq<u8>, radix: nat)
    requires
        2 <= radix <= 16,
        s.len() > 0,
        bytes::all(s, |b: u8| is_radix_digit(b, radix)),
    ensures
        writes(s, radix, value(s, radix)),
    decreases s.len(),
{
    let n = value(s, radix);
    let rest = value(s.drop_last(), radix);
    let last = digit_value(s.last()) as nat;
    assert(is_radix_digit(s.last(), radix));
    assert(digit(s.last()) == Some(last));
    vstd::arithmetic::div_mod::lemma_fundamental_div_mod_converse(
        n as int,
        radix as int,
        rest as int,
        last as int,
    );
    if s.len() == 1 {
        assert(s.drop_last() =~= Seq::<u8>::empty());
        assert(rest == 0);
        assert(0 * radix == 0) by (nonlinear_arith);
    } else {
        assert forall|i: int| 0 <= i < s.drop_last().len() implies is_radix_digit(
            #[trigger] s.drop_last()[i],
            radix,
        ) by {
            assert(is_radix_digit(s[i], radix));
        }
        lemma_value_is_written(s.drop_last(), radix);
    }
}

/// A text is read as a number exactly where it writes that number in positional
/// notation, and the number is not too great.
pub proof fn law_written_numbers_are_read(s: Seq<u8>, radix: nat, n: nat, max: nat)
    requires
        2 <= radix <= 16,
    ensures
        parsed(s, radix, max) == Some(n) <==> writes(s, radix, n) && n <= max,
{
    if writes(s, radix, n) {
        lemma_writes_value(s, radix, n);
    }
    if parsed(s, radix, max) == Some(n) {
        lemma_value_is_written(s, radix);
    }
}

/// A text writes one number at most.
pub proof fn lemma_writes_one_number(s: Seq<u8>, radix: nat, n: nat, m: nat)
    requires
        2 <= radix <= 16,
        writes(s, radix, n),
        writes(s, radix, m),
    ensures
        n == m,
{
    lemma_writes_value(s, radix, n);
    lemma_writes_value(s, radix, m);
}

/// The digits of a number write it, and begin with a zero only where the number
/// is zero; nothing else without a zero in front writes it.
pub proof fn law_decimals_are_canonical(s: Seq<u8>, n: nat)
    ensures
        writes(decimal(n), 10, n),
        writes(s, 10, n) && (s.len() > 1 ==> s[0] != 0x30) ==> s == decimal(n),
        decimal(n).len() > 1 ==> decimal(n)[0] != 0x30,
    decreases s.len(),
{
    law_decimal_reads_back(n, n);
    law_written_numbers_are_read(decimal(n), 10, n, n);
    lemma_decimal_has_no_leading_zero(n);
    if writes(s, 10, n) && (s.len() > 1 ==> s[0] != 0x30) {
        if s.len() == 1 {
            assert(s =~= decimal(n));
        } else {
            law_decimals_are_canonical(s.drop_last(), n / 10);
            assert(s.drop_last().len() > 1 ==> s.drop_last()[0] == s[0]);
            if n < 10 {
                assert(n / 10 == 0);
                lemma_decimal_has_no_leading_zero(0);
                assert(s.drop_last() == decimal(0));
                assert(s.drop_last()[0] == s[0]);
                assert(decimal(0)[0] == 0x30);
            } else {
                assert(s =~= s.drop_last().push(s.last()));
            }
        }
    }
}

} // verus!
