//! Numbers as they are written in the results.

use vstd::prelude::*;

verus! {

/// The digit for a number below ten.
pub open spec fn digit(d: int) -> char {
    (48 + d) as char
}

/// Whether `c` is one of the ten digits.
pub open spec fn is_digit(c: char) -> bool {
    '0' <= c <= '9'
}

/// `n` in decimal, without leading zeros.
pub open spec fn decimal(n: nat) -> Seq<char>
    decreases n,
{
    if n < 10 {
        seq![digit(n as int)]
    } else {
        decimal(n / 10).push(digit((n % 10) as int))
    }
}

/// `n` in decimal, with a minus sign when it is negative.
pub open spec fn signed_decimal(n: int) -> Seq<char> {
    if n < 0 {
        seq!['-'] + decimal((-n) as nat)
    } else {
        decimal(n as nat)
    }
}

/// `n` in decimal, with zeros before it up to `width` characters.
pub open spec fn padded(n: nat, width: nat) -> Seq<char> {
    let text = decimal(n);
    if text.len() < width {
        Seq::new((width - text.len()) as nat, |i: int| '0') + text
    } else {
        text
    }
}

/// The number that a sequence of digits stands for.
pub open spec fn value(digits: Seq<char>) -> int
    decreases digits.len(),
{
    if digits.len() == 0 {
        0
    } else {
        10 * value(digits.drop_last()) + (digits.last() as int - 48)
    }
}

/// A number is written with digits only, and can be read back from them.
pub proof fn lemma_decimal(n: nat)
    ensures
        decimal(n).len() > 0,
        forall|i: int| 0 <= i < decimal(n).len() ==> is_digit(#[trigger] decimal(n)[i]),
        value(decimal(n)) == n,
    decreases n,
{
    if n < 10 {
        assert(seq![digit(n as int)].drop_last() =~= Seq::empty());
        assert(value(Seq::empty()) == 0);
    } else {
        lemma_decimal(n / 10);
        let head = decimal(n / 10);
        assert(decimal(n).drop_last() =~= head);
        assert forall|i: int| 0 <= i < decimal(n).len() implies is_digit(#[trigger] decimal(n)[i]) by {
            if i < head.len() {
                assert(is_digit(head[i]));
            }
        }
    }
}

/// A padded number is written with digits only.
pub proof fn lemma_padded(n: nat, width: nat)
    ensures
        forall|i: int| 0 <= i < padded(n, width).len() ==> is_digit(#[trigger] padded(n, width)[i]),
{
    lemma_decimal(n);
    let text = decimal(n);
    if text.len() < width {
        let zeros = (width - text.len()) as int;
        assert forall|i: int| 0 <= i < padded(n, width).len() implies is_digit(
            #[trigger] padded(n, width)[i],
        ) by {
            if i >= zeros {
                assert(padded(n, width)[i] == text[i - zeros]);
            }
        }
    }
}

/// Different numbers are written differently.
pub proof fn lemma_decimal_injective(m: nat, n: nat)
    requires
        decimal(m) == decimal(n),
    ensures
        m == n,
{
    lemma_decimal(m);
    lemma_decimal(n);
}

/// Writes a number in decimal.
pub fn write_decimal(n: u64) -> (text: String)
    ensures
        text@ == decimal(n as nat),
    decreases n,
{
    let mut text = if n >= 10 {
        write_decimal(n / 10)
    } else {
        String::new()
    };
    let last: u8 = 48 + (n % 10) as u8;
    text.push(last as char);
    assert(text@ =~= decimal(n as nat));
    text
}

/// Writes a number in decimal, with a minus sign when it is negative.
pub fn write_signed(n: i32) -> (text: String)
    ensures
        text@ == signed_decimal(n as int),
{
    if n < 0 {
        let mut text = String::new();
        text.push('-');
        let magnitude: i64 = -(n as i64);
        text.append(write_decimal(magnitude as u64).as_str());
        assert(text@ =~= signed_decimal(n as int));
        text
    } else {
        write_decimal(n as u64)
    }
}

/// A number is written with its own digits: they are digits, the first is no needless zero, and
/// the number is read back from them. So different numbers are written differently.
pub proof fn law_number_reads_back(n: nat)
    ensures
        decimal(n).len() > 0,
        forall|i: int| 0 <= i < decimal(n).len() ==> '0' <= #[trigger] decimal(n)[i] <= '9',
        decimal(n).len() > 1 ==> decimal(n)[0] != '0',
        value(decimal(n)) == n,
    decreases n,
{
    lemma_decimal(n);
    assert forall|i: int| 0 <= i < decimal(n).len() implies '0' <= #[trigger] decimal(n)[i]
        <= '9' by {
        assert(is_digit(decimal(n)[i]));
    }
    if n >= 10 {
        law_number_reads_back(n / 10);
        assert(decimal(n)[0] == decimal(n / 10)[0]);
        if n / 10 < 10 {
            assert(decimal(n / 10) =~= seq![digit((n / 10) as int)]);
            assert(digit((n / 10) as int) as int == 48 + n / 10);
        } else {
            lemma_decimal(n / 10 / 10);
        }
    }
}

/// Numbers with a sign are written differently when they differ.
pub proof fn lemma_signed_decimal_injective(m: int, n: int)
    requires
        signed_decimal(m) == signed_decimal(n),
    ensures
        m == n,
{
    if m < 0 {
        assert(signed_decimal(m)[0] == '-');
        lemma_decimal((-m) as nat);
        assert(signed_decimal(m).skip(1) =~= decimal((-m) as nat));
    } else {
        lemma_decimal(m as nat);
        assert(is_digit(decimal(m as nat)[0]));
    }
    if n < 0 {
        assert(signed_decimal(n)[0] == '-');
        lemma_decimal((-n) as nat);
        assert(signed_decimal(n).skip(1) =~= decimal((-n) as nat));
    } else {
        lemma_decimal(n as nat);
        assert(is_digit(decimal(n as nat)[0]));
    }
}

/// Zeros before a number fill it up to a width, and change nothing about its value; a number that
/// is wide enough is left alone.
pub proof fn law_zeros_fill_up(n: nat, width: nat)
    ensures
        decimal(n).len() >= width ==> padded(n, width) == decimal(n),
        decimal(n).len() < width ==> padded(n, width).len() == width,
        value(padded(n, width)) == n,
{
    let zeros = (width - decimal(n).len()) as nat;
    lemma_decimal(n);
    if decimal(n).len() < width {
        lemma_zeros_before(zeros, decimal(n));
    }
}

proof fn lemma_zeros_before(zeros: nat, digits: Seq<char>)
    ensures
        value(Seq::new(zeros, |i: int| '0') + digits) == value(digits),
    decreases zeros + digits.len(),
{
    let all = Seq::new(zeros, |i: int| '0') + digits;
    if digits.len() > 0 {
        lemma_zeros_before(zeros, digits.drop_last());
        assert(all.drop_last() =~= Seq::new(zeros, |i: int| '0') + digits.drop_last());
    } else if zeros > 0 {
        let fewer = (zeros - 1) as nat;
        lemma_zeros_before(fewer, digits);
        assert(all.drop_last() =~= Seq::new(fewer, |i: int| '0') + digits);
        assert(all.last() == '0');
    } else {
        assert(all =~= digits);
    }
}

} // verus!
