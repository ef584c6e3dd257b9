//! The addressing values written onto units.

use vstd::prelude::*;
use vstd::string::StringExecFns;

verus! {

/// The decimal digit `d`, as text.
pub open spec fn digit(d: nat) -> Seq<char> {
    if d == 0 {
        "0"@
    } else if d == 1 {
        "1"@
    } else if d == 2 {
        "2"@
    } else if d == 3 {
        "3"@
    } else if d == 4 {
        "4"@
    } else if d == 5 {
        "5"@
    } else if d == 6 {
        "6"@
    } else if d == 7 {
        "7"@
    } else if d == 8 {
        "8"@
    } else {
        "9"@
    }
}

/// The decimal numeral of `n`, without leading zeros.
pub open spec fn decimal(n: nat) -> Seq<char>
    decreases n,
{
    if n < 10 {
        digit(n)
    } else {
        decimal(n / 10) + digit(n % 10)
    }
}

/// The addressing value of unit `n`.
pub open spec fn label(n: nat) -> Seq<char> {
    "para_"@ + decimal(n)
}

/// A digit is one character, and different digits are different characters.
pub proof fn lemma_digits(a: nat, b: nat)
    requires
        a < 10,
        b < 10,
    ensures
        digit(a).len() == 1,
        digit(a) == digit(b) ==> a == b,
{
    reveal_strlit("0");
    reveal_strlit("1");
    reveal_strlit("2");
    reveal_strlit("3");
    reveal_strlit("4");
    reveal_strlit("5");
    reveal_strlit("6");
    reveal_strlit("7");
    reveal_strlit("8");
    reveal_strlit("9");
    if digit(a) == digit(b) {
        assert(digit(a)[0] == digit(b)[0]);
    }
}

/// A numeral of `n` has a digit, and more than one from 10 on.
pub proof fn lemma_decimal_len(n: nat)
    ensures
        decimal(n).len() >= 1,
        n >= 10 ==> decimal(n).len() >= 2,
    decreases n,
{
    if n < 10 {
        lemma_digits(n, n);
    } else {
        lemma_decimal_len(n / 10);
        lemma_digits(n % 10, n % 10);
    }
}

/// Different numbers have different numerals.
pub proof fn lemma_decimal_injective(n: nat, m: nat)
    requires
        decimal(n) == decimal(m),
    ensures
        n == m,
    decreases n,
{
    lemma_decimal_len(n);
    lemma_decimal_len(m);
    if n < 10 {
        lemma_digits(n, n);
        if m < 10 {
            lemma_digits(n, m);
        }
    } else {
        if m >= 10 {
            let a = decimal(n / 10);
            let b = decimal(m / 10);
            lemma_digits(n % 10, m % 10);
            lemma_digits(m % 10, m % 10);
            assert(decimal(n) == a + digit(n % 10));
            assert(decimal(m) == b + digit(m % 10));
            assert(a.len() == b.len());
            assert(a =~= decimal(n).subrange(0, a.len() as int));
            assert(b =~= decimal(m).subrange(0, b.len() as int));
            assert(digit(n % 10) =~= decimal(n).subrange(a.len() as int, decimal(n).len() as int));
            assert(digit(m % 10) =~= decimal(m).subrange(b.len() as int, decimal(m).len() as int));
            lemma_decimal_injective(n / 10, m / 10);
        } else {
            lemma_digits(m, m);
        }
    }
}

/// Different units have different addressing values.
pub proof fn lemma_label_injective(n: nat, m: nat)
    requires
        label(n) == label(m),
    ensures
        n == m,
{
    let p = "para_"@;
    assert(decimal(n) =~= label(n).subrange(p.len() as int, label(n).len() as int));
    assert(decimal(m) =~= label(m).subrange(p.len() as int, label(m).len() as int));
    lemma_decimal_injective(n, m);
}

fn digit_text(d: u32) -> (r: &'static str)
    requires
        d < 10,
    ensures
        r@ == digit(d as nat),
{
    if d == 0 {
        "0"
    } else if d == 1 {
        "1"
    } else if d == 2 {
        "2"
    } else if d == 3 {
        "3"
    } else if d == 4 {
        "4"
    } else if d == 5 {
        "5"
    } else if d == 6 {
        "6"
    } else if d == 7 {
        "7"
    } else if d == 8 {
        "8"
    } else {
        "9"
    }
}

/// The decimal numeral of `n`.
pub fn decimal_string(n: u32) -> (r: String)
    ensures
        r@ == decimal(n as nat),
    decreases n,
{
    if n < 10 {
        String::from_str(digit_text(n))
    } else {
        let mut out = decimal_string(n / 10);
        out.append(digit_text(n % 10));
        out
    }
}

/// The addressing value of unit `n`.
pub fn label_string(n: u32) -> (r: String)
    ensures
        r@ == label(n as nat),
{
    let mut out = String::from_str("para_");
    let digits = decimal_string(n);
    out.append(digits.as_str());
    out
}

} // verus!
