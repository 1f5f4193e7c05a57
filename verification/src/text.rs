//! Numbers and bit runs as text, for the messages of errors.

use vstd::prelude::*;
use vstd::string::StringExecFns;

verus! {

/// The character of a decimal digit.
pub open spec fn digit_char(d: nat) -> char {
    if d == 0 {
        '0'
    } else if d == 1 {
        '1'
    } else if d == 2 {
        '2'
    } else if d == 3 {
        '3'
    } else if d == 4 {
        '4'
    } else if d == 5 {
        '5'
    } else if d == 6 {
        '6'
    } else if d == 7 {
        '7'
    } else if d == 8 {
        '8'
    } else {
        '9'
    }
}

/// The decimal digits of `n`, most significant first; none for 0.
pub open spec fn digits_text(n: nat) -> Seq<char>
    decreases n,
{
    if n == 0 {
        Seq::empty()
    } else {
        digits_text(n / 10).push(digit_char(n % 10))
    }
}

/// The decimal numeral of `n`.
pub open spec fn decimal_text(n: nat) -> Seq<char> {
    if n == 0 {
        seq!['0']
    } else {
        digits_text(n)
    }
}

/// The decimal numerals of the elements of `s`, one after the other.
pub open spec fn run_text(s: Seq<u8>) -> Seq<char>
    decreases s.len(),
{
    if s.len() == 0 {
        Seq::empty()
    } else {
        run_text(s.drop_last()) + decimal_text(s.last() as nat)
    }
}

/// `n` with its `k` lowest decimal digits taken off.
pub open spec fn without_digits(n: nat, k: nat) -> nat
    decreases k,
{
    if k == 0 {
        n
    } else {
        without_digits(n, (k - 1) as nat) / 10
    }
}

/// The decimal digit number `j` of `n`, counted from the lowest.
pub open spec fn digit_at(n: nat, j: int) -> nat {
    without_digits(n, j as nat) % 10
}

/// The text of one decimal digit.
pub fn digit_str(d: u8) -> (r: &'static str)
    requires
        d < 10,
    ensures
        r@ == seq![digit_char(d as nat)],
{
    proof {
        reveal_strlit("0");
        reveal_strlit("1");
        reveal_strlit("2");
        reveal_strlit("3");
        reveal_strlit("4");
        reveal_strlit("5");
        reveal_strlit("6");
        reveal_strlit("7");
        reveal_strlit("8");
        reveal_strlit("9");
    }
    let r = if d == 0 {
        "0"
    } else if d == 1 {
        "1"
    } else if d == 2 {
        "2"
    } else if d == 3 {
        "3"
    } else if d == 4 {
        "4"
    } else if d == 5 {
        "5"
    } else if d == 6 {
        "6"
    } else if d == 7 {
        "7"
    } else if d == 8 {
        "8"
    } else {
        "9"
    };
    assert(r@ =~= seq![digit_char(d as nat)]);
    r
}

/// Writes `n` in decimal.
pub fn decimal(n: u128) -> (r: String)
    ensures
        r@ == decimal_text(n as nat),
{
    if n == 0 {
        proof {
            reveal_strlit("0");
            assert("0"@ =~= seq!['0']);
        }
        return String::from_str("0");
    }
    let mut rest: u128 = n;
    let mut low_first: Vec<u8> = Vec::new();
    while rest != 0
        invariant
            rest == without_digits(n as nat, low_first.len() as nat),
            forall|j: int|
                0 <= j < low_first.len() ==> #[trigger] low_first[j] == digit_at(n as nat, j),
            forall|j: int|
                0 <= j < low_first.len() ==> #[trigger] without_digits(n as nat, j as nat) != 0,
        decreases rest,
    {
        low_first.push((rest % 10) as u8);
        rest = rest / 10;
    }
    let mut out = String::new();
    let mut i: usize = low_first.len();
    while i > 0
        invariant
            i <= low_first.len(),
            forall|j: int|
                0 <= j < low_first.len() ==> #[trigger] low_first[j] == digit_at(n as nat, j),
            forall|j: int|
                0 <= j < low_first.len() ==> #[trigger] without_digits(n as nat, j as nat) != 0,
            out@ == digits_text(without_digits(n as nat, i as nat)),
        decreases i,
    {
        i -= 1;
        let ghost before = out@;
        proof {
            let here = without_digits(n as nat, i as nat);
            assert(without_digits(n as nat, (i + 1) as nat) == here / 10);
            assert(low_first[i as int] == digit_at(n as nat, i as int));
            assert(here != 0);
        }
        out.append(digit_str(low_first[i]));
        proof {
            assert(out@ =~= before.push(digit_char(low_first[i as int] as nat)));
        }
    }
    out
}

/// Writes a number in decimal, with a minus sign where `negative` is set.
pub fn signed_decimal(negative: bool, size: u128) -> (r: String)
    ensures
        r@ == if negative {
            seq!['-'] + decimal_text(size as nat)
        } else {
            decimal_text(size as nat)
        },
{
    let digits = decimal(size);
    if negative {
        proof {
            reveal_strlit("-");
            assert("-"@ =~= seq!['-']);
        }
        let mut out = String::from_str("-");
        out.append(digits.as_str());
        out
    } else {
        digits
    }
}

/// Writes the elements `from .. to` of `bits` in decimal, one after the
/// other.
pub fn run(bits: &[u8], from: usize, to: usize) -> (r: String)
    requires
        from <= to <= bits.len(),
    ensures
        r@ == run_text(bits@.subrange(from as int, to as int)),
{
    let ghost field = bits@.subrange(from as int, to as int);
    let mut out = String::new();
    let mut i: usize = from;
    while i < to
        invariant
            from <= i <= to <= bits.len(),
            field == bits@.subrange(from as int, to as int),
            out@ == run_text(field.take(i - from)),
        decreases to - i,
    {
        let digits = decimal(bits[i] as u128);
        proof {
            assert(field.take(i - from + 1).drop_last() =~= field.take(i - from));
        }
        out.append(digits.as_str());
        i += 1;
    }
    proof {
        assert(field.take(to - from) =~= field);
    }
    out
}

} // verus!
