//! Numbers as text.
use vstd::prelude::*;
use vstd::string::StringExecFns;

verus! {

/// The digit `d` of a number system with up to sixteen digits, in lower case.
pub open spec fn digit_char(d: int) -> char {
    if d < 10 {
        (48 + d) as char
    } else {
        (87 + d) as char
    }
}

/// `n` in decimal, without leading zeros.
pub open spec fn decimal(n: nat) -> Seq<char>
    decreases n,
{
    if n < 10 {
        seq![digit_char(n as int)]
    } else {
        decimal(n / 10).push(digit_char((n % 10) as int))
    }
}

/// Ten to the power of `w`.
pub open spec fn pow10(w: nat) -> nat
    decreases w,
{
    if w == 0 {
        1
    } else {
        10 * pow10((w - 1) as nat)
    }
}

/// A number below ten to the power of `w` has at most `w` digits, and at least one.
pub proof fn lemma_decimal_len(n: nat, w: nat)
    requires
        n < pow10(w),
        w > 0,
    ensures
        1 <= decimal(n).len() <= w,
    decreases w,
{
    if n >= 10 {
        assert(w > 1) by {
            reveal_with_fuel(pow10, 2);
        }
        lemma_decimal_len(n / 10, (w - 1) as nat);
    }
}

/// A number in decimal is made of digits.
pub proof fn lemma_decimal_digits(n: nat)
    ensures
        decimal(n).len() >= 1,
        forall|i: int| 0 <= i < decimal(n).len() ==> '0' <= #[trigger] decimal(n)[i] <= '9',
    decreases n,
{
    if n >= 10 {
        lemma_decimal_digits(n / 10);
    }
}

/// Different numbers are different in decimal.
pub proof fn lemma_decimal_apart(m: nat, n: nat)
    requires
        decimal(m) == decimal(n),
    ensures
        m == n,
    decreases m,
{
    lemma_decimal_digits(m / 10);
    lemma_decimal_digits(n / 10);
    assert(decimal(m).last() == decimal(n).last());
    assert((m % 10) as int == decimal(m).last() as int - 48);
    assert((n % 10) as int == decimal(n).last() as int - 48);
    if m >= 10 && n >= 10 {
        assert(decimal(m).drop_last() =~= decimal(m / 10));
        assert(decimal(n).drop_last() =~= decimal(n / 10));
        lemma_decimal_apart(m / 10, n / 10);
    }
}

/// The last `width` digits of `n` in the number system with base `base`.
pub open spec fn fixed(n: nat, base: nat, width: nat) -> Seq<char>
    decreases width,
{
    if width == 0 {
        seq![]
    } else {
        fixed(n / base, base, (width - 1) as nat).push(digit_char((n % base) as int))
    }
}

/// The digits, one by one.
pub proof fn lemma_digit_chars(d: int)
    requires
        0 <= d < 16,
    ensures
        digit_char(d) == "0123456789abcdef"@[d],
{
    reveal_strlit("0123456789abcdef");
}

/// How decimals are made: a number below ten is one digit, and one more digit behind a number that
/// is not zero multiplies it by ten and adds the digit.
pub proof fn lemma_decimal_grows(n: nat, d: nat)
    requires
        d < 10,
    ensures
        decimal(d) == seq!["0123456789"@[d as int]],
        n > 0 ==> decimal(n * 10 + d) == decimal(n).push("0123456789"@[d as int]),
{
    reveal_strlit("0123456789");
    assert((n * 10 + d) / 10 == n);
    assert((n * 10 + d) % 10 == d);
}

/// How texts of fixed width are made: one more digit behind a number multiplies it by the base and
/// adds the digit.
pub proof fn lemma_fixed_grows(n: nat, base: nat, width: nat, d: nat)
    requires
        d < base <= 16,
    ensures
        fixed(n, base, 0) == Seq::<char>::empty(),
        fixed(n * base + d, base, width + 1) == fixed(n, base, width).push(
            "0123456789abcdef"@[d as int],
        ),
{
    lemma_digit_chars(d as int);
    vstd::arithmetic::div_mod::lemma_fundamental_div_mod_converse(
        (n * base + d) as int,
        base as int,
        n as int,
        d as int,
    );
}

/// The length of a text of fixed width.
pub proof fn lemma_fixed_len(n: nat, base: nat, width: nat)
    requires
        base > 0,
    ensures
        fixed(n, base, width).len() == width,
    decreases width,
{
    if width > 0 {
        lemma_fixed_len(n / base, base, (width - 1) as nat);
    }
}

fn digit_str(d: u64) -> (r: &'static str)
    requires
        d < 16,
    ensures
        r@ == seq![digit_char(d as int)],
{
    proof {
        reveal_strlit("0");
        reveal_strlit("1");
        reveal_strlit("2");
        reveal_strlit("3");
        reveal_strlit("4");
        reveal_strlit("5");
        reveal_strlit("6");
        reveal_strlit("7");
        reveal_strlit("8");
        reveal_strlit("9");
        reveal_strlit("a");
        reveal_strlit("b");
        reveal_strlit("c");
        reveal_strlit("d");
        reveal_strlit("e");
        reveal_strlit("f");
        assert("0"@ =~= seq![digit_char(0)]);
        assert("1"@ =~= seq![digit_char(1)]);
        assert("2"@ =~= seq![digit_char(2)]);
        assert("3"@ =~= seq![digit_char(3)]);
        assert("4"@ =~= seq![digit_char(4)]);
        assert("5"@ =~= seq![digit_char(5)]);
        assert("6"@ =~= seq![digit_char(6)]);
        assert("7"@ =~= seq![digit_char(7)]);
        assert("8"@ =~= seq![digit_char(8)]);
        assert("9"@ =~= seq![digit_char(9)]);
        assert("a"@ =~= seq![digit_char(10)]);
        assert("b"@ =~= seq![digit_char(11)]);
        assert("c"@ =~= seq![digit_char(12)]);
        assert("d"@ =~= seq![digit_char(13)]);
        assert("e"@ =~= seq![digit_char(14)]);
        assert("f"@ =~= seq![digit_char(15)]);
    }
    if d == 0 {
        "0"
    } else if d == 1 {
        "1"
    } else if d == 2 {
        "2"
    } else if d == 3 {
        "3"
    } else if d == 4 {
        "4"
    } else if d == 5 {
        "5"
    } else if d == 6 {
        "6"
    } else if d == 7 {
        "7"
    } else if d == 8 {
        "8"
    } else if d == 9 {
        "9"
    } else if d == 10 {
        "a"
    } else if d == 11 {
        "b"
    } else if d == 12 {
        "c"
    } else if d == 13 {
        "d"
    } else if d == 14 {
        "e"
    } else {
        "f"
    }
}

/// Appends `n` in decimal.
pub fn push_decimal(s: &mut String, n: u64)
    ensures
        final(s)@ == old(s)@ + decimal(n as nat),
    decreases n,
{
    if n >= 10 {
        push_decimal(s, n / 10);
    }
    s.append(digit_str(n % 10));
    assert(s@ =~= old(s)@ + decimal(n as nat));
}

/// Appends the last `width` digits of `n` in the number system with base `base`.
pub fn push_fixed(s: &mut String, n: u64, base: u64, width: u64)
    requires
        2 <= base <= 16,
    ensures
        final(s)@ == old(s)@ + fixed(n as nat, base as nat, width as nat),
    decreases width,
{
    if width > 0 {
        push_fixed(s, n / base, base, width - 1);
        s.append(digit_str(n % base));
    }
    assert(s@ =~= old(s)@ + fixed(n as nat, base as nat, width as nat));
}

} // verus!
