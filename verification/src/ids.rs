//! Server-assigned client identifiers.
//!
//! Identifiers have the form `client<N>` where `N` is a 1-based counter
//! value rendered in canonical decimal. Rendering is injective, so two
//! distinct counter values never produce the same identifier; this is what
//! makes assigned identifiers unique and never reused.

use vstd::prelude::*;
use vstd::string::StringExecFns;

verus! {

/// The character for one decimal digit.
pub open spec fn digit_char(d: nat) -> char {
    if d == 0 {
        '0'
    } else if d == 1 {
        '1'
    } else if d == 2 {
        '2'
    } else if d == 3 {
        '3'
    } else if d == 4 {
        '4'
    } else if d == 5 {
        '5'
    } else if d == 6 {
        '6'
    } else if d == 7 {
        '7'
    } else if d == 8 {
        '8'
    } else {
        '9'
    }
}

/// The canonical decimal rendering of `n`: no leading zeros, `"0"` for zero.
pub open spec fn decimal_rep(n: nat) -> Seq<char>
    decreases n,
{
    if n < 10 {
        seq![digit_char(n)]
    } else {
        decimal_rep(n / 10).push(digit_char(n % 10))
    }
}

/// The identifier assigned for counter value `n`.
pub open spec fn client_name_seq(n: nat) -> Seq<char> {
    "client"@ + decimal_rep(n)
}

/// Distinct digits render as distinct characters.
proof fn lemma_digit_char_injective(a: nat, b: nat)
    requires
        a < 10,
        b < 10,
        digit_char(a) == digit_char(b),
    ensures
        a == b,
{
}

/// A decimal rendering has at least one character, and at least two once
/// the value has two digits.
proof fn lemma_decimal_rep_len(n: nat)
    ensures
        decimal_rep(n).len() >= 1,
        n >= 10 ==> decimal_rep(n).len() >= 2,
    decreases n,
{
    if n >= 10 {
        lemma_decimal_rep_len(n / 10);
    }
}

/// Canonical decimal rendering is injective.
pub proof fn lemma_decimal_rep_injective(a: nat, b: nat)
    requires
        decimal_rep(a) == decimal_rep(b),
    ensures
        a == b,
    decreases a,
{
    lemma_decimal_rep_len(a);
    lemma_decimal_rep_len(b);
    if a < 10 && b < 10 {
        assert(decimal_rep(a)[0] == digit_char(a));
        assert(decimal_rep(b)[0] == digit_char(b));
        lemma_digit_char_injective(a, b);
    } else if a < 10 || b < 10 {
        assert(false);
    } else {
        assert(decimal_rep(a).last() == digit_char(a % 10));
        assert(decimal_rep(b).last() == digit_char(b % 10));
        lemma_digit_char_injective(a % 10, b % 10);
        assert(decimal_rep(a).drop_last() =~= decimal_rep(a / 10));
        assert(decimal_rep(b).drop_last() =~= decimal_rep(b / 10));
        lemma_decimal_rep_injective(a / 10, b / 10);
    }
}

/// Distinct counter values yield distinct identifiers.
pub proof fn lemma_client_name_injective(a: nat, b: nat)
    requires
        client_name_seq(a) == client_name_seq(b),
    ensures
        a == b,
{
    let p = "client"@;
    assert(decimal_rep(a) =~= client_name_seq(a).skip(p.len() as int));
    assert(decimal_rep(b) =~= client_name_seq(b).skip(p.len() as int));
    lemma_decimal_rep_injective(a, b);
}

/// The literal for one decimal digit.
fn digit_str(d: u64) -> (r: &'static str)
    requires
        d < 10,
    ensures
        r@ =~= seq![digit_char(d as nat)],
{
    proof {
        reveal_strlit("0");
        reveal_strlit("1");
        reveal_strlit("2");
        reveal_strlit("3");
        reveal_strlit("4");
        reveal_strlit("5");
        reveal_strlit("6");
        reveal_strlit("7");
        reveal_strlit("8");
        reveal_strlit("9");
    }
    if d == 0 {
        "0"
    } else if d == 1 {
        "1"
    } else if d == 2 {
        "2"
    } else if d == 3 {
        "3"
    } else if d == 4 {
        "4"
    } else if d == 5 {
        "5"
    } else if d == 6 {
        "6"
    } else if d == 7 {
        "7"
    } else if d == 8 {
        "8"
    } else {
        "9"
    }
}

/// Renders `n` in canonical decimal.
pub fn decimal_string(n: u64) -> (s: String)
    ensures
        s@ == decimal_rep(n as nat),
    decreases n,
{
    if n < 10 {
        let s = String::from_str(digit_str(n));
        proof {
            assert(s@ =~= decimal_rep(n as nat));
        }
        s
    } else {
        let mut s = decimal_string(n / 10);
        s.append(digit_str(n % 10));
        proof {
            assert((n / 10) as nat == (n as nat) / 10);
            assert((n % 10) as nat == (n as nat) % 10);
            assert(s@ =~= decimal_rep((n as nat) / 10).push(digit_char((n as nat) % 10)));
        }
        s
    }
}

/// Builds the identifier `client<n>`.
pub fn client_name(n: u64) -> (s: String)
    ensures
        s@ == client_name_seq(n as nat),
{
    let mut s = String::from_str("client");
    let digits = decimal_string(n);
    s.append(digits.as_str());
    s
}

} // verus!
