//! Decimal names for per-layer placeholders and taps.
//!
//! Layer `i`'s weight placeholder is named `weights_<i>`, and the tap for
//! its gradient `gradient_<i>`. The decimal spelling is injective, which
//! is what keeps the names of different layers distinct.

use vstd::prelude::*;
use vstd::string::StringExecFns;

verus! {

/// The character for a single decimal digit.
pub open spec fn digit_char(d: nat) -> char {
    if d == 0 {
        '0'
    } else if d == 1 {
        '1'
    } else if d == 2 {
        '2'
    } else if d == 3 {
        '3'
    } else if d == 4 {
        '4'
    } else if d == 5 {
        '5'
    } else if d == 6 {
        '6'
    } else if d == 7 {
        '7'
    } else if d == 8 {
        '8'
    } else {
        '9'
    }
}

/// The decimal spelling of `n`, most significant digit first.
pub open spec fn decimal(n: nat) -> Seq<char>
    decreases n,
{
    if n < 10 {
        seq![digit_char(n)]
    } else {
        decimal(n / 10).push(digit_char(n % 10))
    }
}

/// The name of layer `i`'s weight placeholder.
pub open spec fn weights_name_spec(i: nat) -> Seq<char> {
    "weights_"@ + decimal(i)
}

/// The tap name of layer `i`'s weight gradient.
pub open spec fn gradient_name_spec(i: nat) -> Seq<char> {
    "gradient_"@ + decimal(i)
}

/// A decimal spelling is never empty and holds digit characters only.
pub proof fn lemma_decimal_len(n: nat)
    ensures
        decimal(n).len() >= 1,
        forall|p: int| 0 <= p < decimal(n).len() ==> exists|d: nat| d < 10 && #[trigger] decimal(n)[p] == digit_char(d),
    decreases n,
{
    if n < 10 {
        assert(decimal(n)[0] == digit_char(n % 10));
        assert(n % 10 < 10);
    } else {
        lemma_decimal_len(n / 10);
        assert forall|p: int| 0 <= p < decimal(n).len() implies exists|d: nat|
            d < 10 && #[trigger] decimal(n)[p] == digit_char(d) by {
            if p < decimal(n).len() - 1 {
                assert(decimal(n)[p] == decimal(n / 10)[p]);
            } else {
                assert(decimal(n)[p] == digit_char(n % 10));
                assert(n % 10 < 10);
            }
        }
    }
}

/// Distinct numbers have distinct decimal spellings.
pub proof fn lemma_decimal_injective(a: nat, b: nat)
    requires
        decimal(a) == decimal(b),
    ensures
        a == b,
    decreases a,
{
    lemma_decimal_len(a);
    lemma_decimal_len(b);
    if a < 10 && b < 10 {
        assert(decimal(a)[0] == digit_char(a));
        assert(decimal(b)[0] == digit_char(b));
    } else if a < 10 && b >= 10 {
        lemma_decimal_len(b / 10);
        assert(decimal(b).len() >= 2);
    } else if a >= 10 && b < 10 {
        lemma_decimal_len(a / 10);
        assert(decimal(a).len() >= 2);
    } else {
        assert(decimal(a).last() == digit_char(a % 10));
        assert(decimal(b).last() == digit_char(b % 10));
        assert(a % 10 == b % 10);
        assert(decimal(a).drop_last() =~= decimal(a / 10));
        assert(decimal(b).drop_last() =~= decimal(b / 10));
        lemma_decimal_injective(a / 10, b / 10);
    }
}

/// Distinct layers have distinct weight-placeholder names, and distinct
/// gradient-tap names.
pub proof fn lemma_names_injective(a: nat, b: nat)
    requires
        a != b,
    ensures
        weights_name_spec(a) != weights_name_spec(b),
        gradient_name_spec(a) != gradient_name_spec(b),
{
    if weights_name_spec(a) == weights_name_spec(b) {
        assert(decimal(a) =~= weights_name_spec(a).skip("weights_"@.len() as int));
        assert(decimal(b) =~= weights_name_spec(b).skip("weights_"@.len() as int));
        lemma_decimal_injective(a, b);
    }
    if gradient_name_spec(a) == gradient_name_spec(b) {
        assert(decimal(a) =~= gradient_name_spec(a).skip("gradient_"@.len() as int));
        assert(decimal(b) =~= gradient_name_spec(b).skip("gradient_"@.len() as int));
        lemma_decimal_injective(a, b);
    }
}

/// Placeholder and tap names never collide with the fixed leaf and tap
/// names the library uses.
pub proof fn lemma_names_not_special(i: nat)
    ensures
        weights_name_spec(i) != "input"@,
        weights_name_spec(i) != "inputs"@,
        weights_name_spec(i) != "targets"@,
        gradient_name_spec(i) != "outputs"@,
{
    reveal_strlit("weights_");
    reveal_strlit("gradient_");
    reveal_strlit("input");
    reveal_strlit("inputs");
    reveal_strlit("targets");
    reveal_strlit("outputs");
    assert(weights_name_spec(i)[0] == 'w');
    assert(gradient_name_spec(i)[0] == 'g');
}

/// The digit as a one-character string slice.
fn digit_str(d: usize) -> (r: &'static str)
    requires
        d < 10,
    ensures
        r@ == seq![digit_char(d as nat)],
{
    let r: &'static str = if d == 0 {
        "0"
    } else if d == 1 {
        "1"
    } else if d == 2 {
        "2"
    } else if d == 3 {
        "3"
    } else if d == 4 {
        "4"
    } else if d == 5 {
        "5"
    } else if d == 6 {
        "6"
    } else if d == 7 {
        "7"
    } else if d == 8 {
        "8"
    } else {
        "9"
    };
    proof {
        reveal_strlit("0");
        reveal_strlit("1");
        reveal_strlit("2");
        reveal_strlit("3");
        reveal_strlit("4");
        reveal_strlit("5");
        reveal_strlit("6");
        reveal_strlit("7");
        reveal_strlit("8");
        reveal_strlit("9");
        assert(r@ =~= seq![digit_char(d as nat)]);
    }
    r
}

/// The decimal spelling of `n` as a string.
pub fn decimal_string(n: usize) -> (r: String)
    ensures
        r@ == decimal(n as nat),
    decreases n,
{
    if n < 10 {
        let r = digit_str(n).to_owned();
        proof {
            assert(r@ =~= decimal(n as nat));
        }
        r
    } else {
        let mut r = decimal_string(n / 10);
        r.append(digit_str(n % 10));
        proof {
            assert(r@ =~= decimal(n as nat));
        }
        r
    }
}

/// The name of layer `i`'s weight placeholder, `weights_<i>`.
pub fn weights_name(i: usize) -> (r: String)
    ensures
        r@ == weights_name_spec(i as nat),
{
    let mut r = String::from_str("weights_");
    let d = decimal_string(i);
    r.append(d.as_str());
    proof {
        assert(r@ =~= weights_name_spec(i as nat));
    }
    r
}

/// The tap name of layer `i`'s weight gradient, `gradient_<i>`.
pub fn gradient_name(i: usize) -> (r: String)
    ensures
        r@ == gradient_name_spec(i as nat),
{
    let mut r = String::from_str("gradient_");
    let d = decimal_string(i);
    r.append(d.as_str());
    proof {
        assert(r@ =~= gradient_name_spec(i as nat));
    }
    r
}

} // verus!
