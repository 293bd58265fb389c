//! Decimal rendering of numbers and of durations.

use vstd::prelude::*;

use crate::time::{whole_seconds, Duration};

verus! {

/// The character of a decimal digit.
pub open spec fn digit_char(n: nat) -> char {
    if n == 0 {
        '0'
    } else if n == 1 {
        '1'
    } else if n == 2 {
        '2'
    } else if n == 3 {
        '3'
    } else if n == 4 {
        '4'
    } else if n == 5 {
        '5'
    } else if n == 6 {
        '6'
    } else if n == 7 {
        '7'
    } else if n == 8 {
        '8'
    } else {
        '9'
    }
}

/// The decimal digits of `n`, most significant first, without leading zeros.
pub open spec fn digits_of(n: nat) -> Seq<char>
    decreases n,
{
    if n < 10 {
        seq![digit_char(n)]
    } else {
        digits_of(n / 10) + seq![digit_char(n % 10)]
    }
}

/// A magnitude written in decimal, with a minus sign when it is negative
/// and not zero.
pub open spec fn signed_text(negative: bool, magnitude: nat) -> Seq<char> {
    if negative && magnitude > 0 {
        seq!['-'] + digits_of(magnitude)
    } else {
        digits_of(magnitude)
    }
}

/// A text padded on the left with `'0'` to at least two characters.
pub open spec fn pad2(s: Seq<char>) -> Seq<char> {
    if s.len() < 2 {
        seq!['0'] + s
    } else {
        s
    }
}

pub open spec fn abs(d: int) -> nat {
    if d < 0 {
        (-d) as nat
    } else {
        d as nat
    }
}

/// `H:MM:SS` for a signed number of seconds. Hours, minutes and seconds are
/// each the truncated quotient or remainder of the signed value, so a
/// negative duration gives negative parts (`-65` gives `0:-1:-5`).
pub open spec fn duration_text(d: int) -> Seq<char> {
    let a = abs(d);
    let neg = d < 0;
    signed_text(neg, a / 3600) + seq![':'] + pad2(signed_text(neg, (a % 3600) / 60)) + seq![':']
        + pad2(signed_text(neg, a % 60))
}

fn digit_str(n: u128) -> (r: &'static str)
    requires
        n < 10,
    ensures
        r@ == seq![digit_char(n as nat)],
{
    proof {
        reveal_strlit("0");
        reveal_strlit("1");
        reveal_strlit("2");
        reveal_strlit("3");
        reveal_strlit("4");
        reveal_strlit("5");
        reveal_strlit("6");
        reveal_strlit("7");
        reveal_strlit("8");
        reveal_strlit("9");
    }
    if n == 0 {
        "0"
    } else if n == 1 {
        "1"
    } else if n == 2 {
        "2"
    } else if n == 3 {
        "3"
    } else if n == 4 {
        "4"
    } else if n == 5 {
        "5"
    } else if n == 6 {
        "6"
    } else if n == 7 {
        "7"
    } else if n == 8 {
        "8"
    } else {
        "9"
    }
}

/// Appends the decimal digits of `n` to `out`.
pub fn push_digits(out: &mut String, n: u128)
    ensures
        final(out)@ == old(out)@ + digits_of(n as nat),
    decreases n,
{
    if n >= 10 {
        push_digits(out, n / 10);
    }
    out.append(digit_str(n % 10));
    proof {
        if n >= 10 {
            assert(old(out)@ + digits_of(n as nat) =~= old(out)@ + digits_of((n / 10) as nat) + seq![
                digit_char((n % 10) as nat),
            ]);
        }
    }
}

/// The decimal text of `n`.
pub fn number_text(n: u128) -> (r: String)
    ensures
        r@ == digits_of(n as nat),
{
    let mut out = String::new();
    push_digits(&mut out, n);
    proof {
        assert(out@ =~= digits_of(n as nat));
    }
    out
}

proof fn lemma_digits_len(n: nat)
    ensures
        digits_of(n).len() >= 1,
        digits_of(n).len() == 1 <==> n < 10,
    decreases n,
{
    if n >= 10 {
        lemma_digits_len(n / 10);
    }
}

/// Appends `signed_text(negative, x)` padded to two characters.
fn push_part(out: &mut String, negative: bool, x: u128, pad: bool)
    ensures
        final(out)@ == old(out)@ + (if pad {
            pad2(signed_text(negative, x as nat))
        } else {
            signed_text(negative, x as nat)
        }),
{
    proof {
        reveal_strlit("-");
        reveal_strlit("0");
        lemma_digits_len(x as nat);
    }
    let ghost start = out@;
    if negative && x > 0 {
        out.append("-");
    } else if pad && x < 10 {
        out.append("0");
    }
    push_digits(out, x);
    proof {
        let s = signed_text(negative, x as nat);
        if negative && x > 0 {
            assert(s =~= seq!['-'] + digits_of(x as nat));
        }
        assert(out@ =~= start + (if pad {
            pad2(s)
        } else {
            s
        }));
    }
}

/// Formats a length of time as `H:MM:SS` of its whole seconds, truncated
/// toward zero; the hours take as many digits as they need.
pub fn format_duration(d: &Duration) -> (r: String)
    requires
        d.wf(),
    ensures
        r@ == duration_text(whole_seconds(d.total())),
{
    format_seconds(d.num_seconds())
}

/// Formats a signed number of seconds as `H:MM:SS`.
pub fn format_seconds(d: i128) -> (r: String)
    ensures
        r@ == duration_text(d as int),
{
    let negative = d < 0;
    let a: u128 = if negative {
        ((-(d + 1)) as u128) + 1
    } else {
        d as u128
    };
    proof {
        reveal_strlit(":");
    }
    let mut out = String::new();
    push_part(&mut out, negative, a / 3600, false);
    out.append(":");
    push_part(&mut out, negative, (a % 3600) / 60, true);
    out.append(":");
    push_part(&mut out, negative, a % 60, true);
    proof {
        assert(out@ =~= duration_text(d as int));
    }
    out
}


/// Whether two texts hold the same characters.
pub fn same_text(a: &str, b: &str) -> (r: bool)
    ensures
        r == (a@ == b@),
{
    let n = a.unicode_len();
    if n != b.unicode_len() {
        return false;
    }
    let mut i: usize = 0;
    while i < n
        invariant
            i <= n,
            n == a@.len(),
            n == b@.len(),
            forall|j: int| 0 <= j < i ==> a@[j] == b@[j],
        decreases n - i,
    {
        if a.get_char(i) != b.get_char(i) {
            return false;
        }
        i = i + 1;
    }
    proof {
        assert(a@ =~= b@);
    }
    true
}

/// Whether `v` holds the text `s`.
pub fn contains_text(v: &Vec<String>, s: &str) -> (r: bool)
    ensures
        r == exists|i: int| 0 <= i < v@.len() && (#[trigger] v@[i])@ == s@,
{
    let mut i: usize = 0;
    while i < v.len()
        invariant
            i <= v@.len(),
            forall|j: int| 0 <= j < i ==> (#[trigger] v@[j])@ != s@,
        decreases v@.len() - i,
    {
        if same_text(v[i].as_str(), s) {
            return true;
        }
        i = i + 1;
    }
    false
}

} // verus!
