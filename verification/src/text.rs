//! Text building blocks: numerals and string assembly.

use vstd::prelude::*;

verus! {

/// `String::push` appends the given character to the end of the string.
pub assume_specification[ String::push ](s: &mut String, c: char)
    ensures
        final(s)@ == old(s)@.push(c),
;

/// The character of the digit `d` in bases up to sixteen.
pub open spec fn digit_char(d: int, upper: bool) -> char {
    if d < 10 {
        (48 + d) as char
    } else if upper {
        (55 + d) as char
    } else {
        (87 + d) as char
    }
}

/// The numeral of `n` in the given base, most significant digit first and
/// without leading zeros.
pub open spec fn numeral(n: nat, base: nat, upper: bool) -> Seq<char>
    decreases n,
{
    if n < base || base < 2 {
        seq![digit_char(n as int, upper)]
    } else {
        proof {
            assert(n / base < n) by (nonlinear_arith)
                requires
                    n >= base,
                    base >= 2,
            ;
        }
        numeral(n / base, base, upper).push(digit_char((n % base) as int, upper))
    }
}

/// The decimal numeral of `n`.
pub open spec fn decimal(n: nat) -> Seq<char> {
    numeral(n, 10, false)
}

/// The upper-case hexadecimal numeral of `n`.
pub open spec fn hex_upper(n: nat) -> Seq<char> {
    numeral(n, 16, true)
}

/// The lower-case hexadecimal numeral of `n`.
pub open spec fn hex_lower(n: nat) -> Seq<char> {
    numeral(n, 16, false)
}

/// `s` with zeros in front of it, so that it has at least `width` characters.
pub open spec fn zero_padded(s: Seq<char>, width: nat) -> Seq<char> {
    if s.len() >= width {
        s
    } else {
        Seq::new((width - s.len()) as nat, |i: int| '0') + s
    }
}

/// Appends `t` to `s`.
pub fn push_str(s: &mut String, t: &str)
    ensures
        final(s)@ == old(s)@ + t@,
{
    s.append(t);
}

/// The character of one digit.
fn digit(d: u8, upper: bool) -> (c: char)
    requires
        d < 16,
    ensures
        c == digit_char(d as int, upper),
{
    if d < 10 {
        (48u8 + d) as char
    } else if upper {
        (55u8 + d) as char
    } else {
        (87u8 + d) as char
    }
}

/// Appends the numeral of `n` in base ten or sixteen.
fn push_numeral(s: &mut String, n: u64, base: u8, upper: bool)
    requires
        base == 10 || base == 16,
    ensures
        final(s)@ == old(s)@ + numeral(n as nat, base as nat, upper),
    decreases n,
{
    if n >= base as u64 {
        push_numeral(s, n / (base as u64), base, upper);
    }
    s.push(digit((n % (base as u64)) as u8, upper));
    assert(s@ =~= old(s)@ + numeral(n as nat, base as nat, upper));
}

/// Appends the decimal numeral of `n`.
pub fn push_decimal(s: &mut String, n: u64)
    ensures
        final(s)@ == old(s)@ + decimal(n as nat),
{
    push_numeral(s, n, 10, false);
}

/// Appends the upper-case hexadecimal numeral of `n`.
pub fn push_hex_upper(s: &mut String, n: u64)
    ensures
        final(s)@ == old(s)@ + hex_upper(n as nat),
{
    push_numeral(s, n, 16, true);
}

/// Appends the lower-case hexadecimal numeral of `n`.
pub fn push_hex_lower(s: &mut String, n: u64)
    ensures
        final(s)@ == old(s)@ + hex_lower(n as nat),
{
    push_numeral(s, n, 16, false);
}

/// Appends the upper-case hexadecimal numeral of `n`, padded with zeros to
/// `width` digits.
pub fn push_hex_padded(s: &mut String, n: u64, width: usize)
    ensures
        final(s)@ == old(s)@ + zero_padded(hex_upper(n as nat), width as nat),
    decreases n, width,
{
    if n >= 16 {
        push_hex_padded(s, n / 16, if width > 0 { width - 1 } else { 0 });
        let ghost shorter = hex_upper((n / 16) as nat);
        s.push(digit((n % 16) as u8, true));
        assert(hex_upper(n as nat) == shorter.push(digit_char((n % 16) as int, true)));
        assert(s@ =~= old(s)@ + zero_padded(hex_upper(n as nat), width as nat));
    } else if width > 1 {
        s.push('0');
        let ghost mid = s@;
        push_hex_padded(s, n, width - 1);
        assert(s@ =~= old(s)@ + zero_padded(hex_upper(n as nat), width as nat));
    } else {
        s.push(digit(n as u8, true));
        assert(s@ =~= old(s)@ + zero_padded(hex_upper(n as nat), width as nat));
    }
}

// ---------------------------------------------------------------------------
// Laws
// ---------------------------------------------------------------------------

/// The value of a digit, upper case or lower case.
pub open spec fn digit_value(c: char) -> int {
    if '0' <= c <= '9' {
        c as int - 48
    } else if 'A' <= c <= 'F' {
        c as int - 55
    } else if 'a' <= c <= 'f' {
        c as int - 87
    } else {
        -1
    }
}

/// The number that digits stand for in the given base.
pub open spec fn number_of(digits: Seq<char>, base: int) -> int
    decreases digits.len(),
{
    if digits.len() == 0 {
        0
    } else {
        number_of(digits.drop_last(), base) * base + digit_value(digits.last())
    }
}

/// A numeral stands for its number, has digits of its base only, and has no
/// zero in front.
pub proof fn law_numerals_stand_for_their_numbers(n: nat, base: nat, upper: bool)
    requires
        2 <= base <= 16,
    ensures
        number_of(numeral(n, base, upper), base as int) == n,
        numeral(n, base, upper).len() > 0,
        n > 0 ==> numeral(n, base, upper)[0] != '0',
        forall|i: int|
            0 <= i < numeral(n, base, upper).len() ==> 0 <= digit_value(
                #[trigger] numeral(n, base, upper)[i],
            ) < base && if upper {
                !('a' <= numeral(n, base, upper)[i] <= 'f')
            } else {
                !('A' <= numeral(n, base, upper)[i] <= 'F')
            },
    decreases n,
{
    let s = numeral(n, base, upper);
    if n < base {
        assert(s.drop_last() =~= Seq::empty());
        assert(number_of(s.drop_last(), base as int) == 0);
        assert(s.last() == digit_char(n as int, upper));
        assert(0 * base == 0);
    } else {
        assert(n / base < n) by (nonlinear_arith)
            requires
                n >= base,
                base >= 2,
        ;
        assert(n / base > 0) by (nonlinear_arith)
            requires
                n >= base,
                base >= 2,
        ;
        let front = numeral(n / base, base, upper);
        law_numerals_stand_for_their_numbers(n / base, base, upper);
        assert(s.drop_last() =~= front);
        vstd::arithmetic::div_mod::lemma_fundamental_div_mod(n as int, base as int);
        assert(base as int * (n as int / base as int) == (n as int / base as int) * base as int)
            by (nonlinear_arith);
        assert(s[0] == front[0]);
        assert(0 <= n % base < base);
        assert forall|i: int| 0 <= i < s.len() implies 0 <= digit_value(#[trigger] s[i]) < base
            && if upper {
            !('a' <= s[i] <= 'f')
        } else {
            !('A' <= s[i] <= 'F')
        } by {
            if i < front.len() {
                assert(s[i] == front[i]);
            }
        }
    }
}

/// Decimal numerals are in base ten, hexadecimal ones in base sixteen, with
/// letters of their case. Zeros in front fill up to the width and change
/// nothing else.
pub proof fn law_numerals(n: nat, width: nat)
    ensures
        decimal(n) == numeral(n, 10, false),
        hex_upper(n) == numeral(n, 16, true),
        hex_lower(n) == numeral(n, 16, false),
        zero_padded(hex_upper(n), width).len() == if hex_upper(n).len() > width {
            hex_upper(n).len()
        } else {
            width
        },
        number_of(zero_padded(hex_upper(n), width), 16) == n,
        hex_upper(n).is_suffix_of(zero_padded(hex_upper(n), width)),
{
    law_numerals_stand_for_their_numbers(n, 16, true);
    let s = hex_upper(n);
    let padded = zero_padded(s, width);
    assert(padded.subrange(padded.len() - s.len(), padded.len() as int) =~= s);
    if s.len() < width {
        let k = (width - s.len()) as nat;
        lemma_zeros_in_front(Seq::new(k, |i: int| '0'), s);
    }
}

proof fn lemma_zeros_in_front(zeros: Seq<char>, s: Seq<char>)
    requires
        forall|i: int| 0 <= i < zeros.len() ==> zeros[i] == '0',
    ensures
        number_of(zeros + s, 16) == number_of(s, 16),
    decreases zeros.len() + s.len(),
{
    if s.len() > 0 {
        assert((zeros + s).drop_last() =~= zeros + s.drop_last());
        lemma_zeros_in_front(zeros, s.drop_last());
    } else if zeros.len() > 0 {
        assert(zeros + s =~= zeros);
        let shorter = zeros.drop_last();
        assert forall|i: int| 0 <= i < shorter.len() implies shorter[i] == '0' by {
            assert(zeros[i] == '0');
        }
        lemma_zeros_in_front(shorter, Seq::empty());
        assert(shorter + Seq::<char>::empty() =~= shorter);
        assert(zeros[zeros.len() - 1] == '0');
    }
}

} // verus!
