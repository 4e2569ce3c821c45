//! Decimal numerals.

use vstd::prelude::*;

verus! {

/// The decimal digits of `n`, most significant first, as ASCII bytes. Zero is
/// one digit.
pub open spec fn digits(n: nat) -> Seq<u8>
    decreases n,
{
    if n < 10 {
        seq![(0x30 + n) as u8]
    } else {
        digits(n / 10).push((0x30 + n % 10) as u8)
    }
}

/// The decimal numeral of `n` as characters.
pub open spec fn numeral(n: nat) -> Seq<char> {
    digits(n).map_values(|b: u8| b as char)
}

/// The decimal digits of `n` as ASCII bytes.
pub fn decimal_bytes(n: u64) -> (r: Vec<u8>)
    ensures
        r@ == digits(n as nat),
{
    let mut reversed: Vec<u8> = Vec::new();
    let mut rest: u64 = n;
    while rest >= 10
        invariant
            digits(n as nat) == digits(rest as nat) + reversed@.reverse(),
        decreases rest,
    {
        let digit = 0x30u8 + (rest % 10) as u8;
        let ghost before = reversed@;
        reversed.push(digit);
        proof {
            assert(digits(rest as nat) == digits((rest / 10) as nat).push(digit));
            assert(digits((rest / 10) as nat).push(digit) + before.reverse() =~= digits(
                (rest / 10) as nat,
            ) + reversed@.reverse());
        }
        rest = rest / 10;
    }
    let mut out: Vec<u8> = Vec::new();
    out.push(0x30u8 + rest as u8);
    let mut left: usize = reversed.len();
    proof {
        assert(out@ == digits(rest as nat));
        assert(out@ + reversed@.reverse() =~= digits(n as nat));
        assert(reversed@.reverse() =~= reversed@.take(left as int).reverse());
    }
    while left > 0
        invariant
            left <= reversed.len(),
            out@ + reversed@.take(left as int).reverse() == digits(n as nat),
        decreases left,
    {
        let ghost before = out@;
        let ghost tail = reversed@.take(left as int).reverse();
        left = left - 1;
        out.push(reversed[left]);
        proof {
            assert(out@ + reversed@.take(left as int).reverse() =~= before + tail);
        }
    }
    proof {
        assert(out@ + reversed@.take(0).reverse() =~= out@);
    }
    out
}

/// Append the decimal numeral of `n` to `out`.
pub fn append_number(out: &mut String, n: u64)
    ensures
        final(out)@ == old(out)@ + numeral(n as nat),
{
    let bytes = decimal_bytes(n);
    let mut i: usize = 0;
    proof {
        lemma_digits_are_decimal(n as nat);
        assert(bytes@.take(0).map_values(|b: u8| b as char) =~= Seq::<char>::empty());
        assert(out@ + Seq::<char>::empty() =~= out@);
    }
    while i < bytes.len()
        invariant
            i <= bytes.len(),
            forall|j: int| 0 <= j < bytes.len() ==> 0x30 <= #[trigger] bytes@[j] <= 0x39,
            out@ == old(out)@ + bytes@.take(i as int).map_values(|b: u8| b as char),
        decreases bytes.len() - i,
    {
        let ghost before = out@;
        append_digit(out, bytes[i]);
        proof {
            assert(bytes@.take(i + 1).map_values(|b: u8| b as char) =~= bytes@.take(
                i as int,
            ).map_values(|b: u8| b as char).push(bytes@[i as int] as char));
            assert(out@ =~= old(out)@ + bytes@.take(i + 1).map_values(|b: u8| b as char));
        }
        i = i + 1;
    }
    proof {
        assert(bytes@.take(bytes@.len() as int) =~= bytes@);
    }
}

fn append_digit(out: &mut String, digit: u8)
    requires
        0x30 <= digit <= 0x39,
    ensures
        final(out)@ == old(out)@.push(digit as char),
{
    proof {
        reveal_strlit("0");
        reveal_strlit("1");
        reveal_strlit("2");
        reveal_strlit("3");
        reveal_strlit("4");
        reveal_strlit("5");
        reveal_strlit("6");
        reveal_strlit("7");
        reveal_strlit("8");
        reveal_strlit("9");
    }
    let glyph = if digit == 0x30 {
        "0"
    } else if digit == 0x31 {
        "1"
    } else if digit == 0x32 {
        "2"
    } else if digit == 0x33 {
        "3"
    } else if digit == 0x34 {
        "4"
    } else if digit == 0x35 {
        "5"
    } else if digit == 0x36 {
        "6"
    } else if digit == 0x37 {
        "7"
    } else if digit == 0x38 {
        "8"
    } else {
        "9"
    };
    assert(glyph@ =~= seq![digit as char]);
    out.append(glyph);
    assert(out@ =~= old(out)@.push(digit as char));
}

pub proof fn lemma_digits_are_decimal(n: nat)
    ensures
        digits(n).len() >= 1,
        forall|i: int| 0 <= i < digits(n).len() ==> 0x30 <= #[trigger] digits(n)[i] <= 0x39,
    decreases n,
{
    if n >= 10 {
        lemma_digits_are_decimal(n / 10);
    }
}

}
