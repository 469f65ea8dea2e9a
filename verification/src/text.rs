//! Numbers written out in decimal, for the text that describes a handle.

use vstd::prelude::*;
use vstd::string::StringExecFns;

verus! {

/// The text of one decimal digit.
pub open spec fn digit_text(d: nat) -> Seq<char> {
    if d == 0 {
        "0"@
    } else if d == 1 {
        "1"@
    } else if d == 2 {
        "2"@
    } else if d == 3 {
        "3"@
    } else if d == 4 {
        "4"@
    } else if d == 5 {
        "5"@
    } else if d == 6 {
        "6"@
    } else if d == 7 {
        "7"@
    } else if d == 8 {
        "8"@
    } else {
        "9"@
    }
}

/// The decimal text of a number: no sign, no leading zero (but for zero
/// itself, which is written `0`).
pub open spec fn decimal(n: nat) -> Seq<char>
    decreases n,
{
    if n < 10 {
        digit_text(n)
    } else {
        decimal(n / 10) + digit_text(n % 10)
    }
}

/// The text that describes a handle: its slot and the slot's reference
/// count.
pub open spec fn handle_text(index: nat, ref_count: nat) -> Seq<char> {
    "Arc{ offset: "@ + decimal(index) + ", ref_count: "@ + decimal(ref_count) + " }"@
}

/// The text of the digit `d`.
pub fn digit_str(d: usize) -> (text: &'static str)
    requires
        d < 10,
    ensures
        text@ == digit_text(d as nat),
{
    if d == 0 {
        "0"
    } else if d == 1 {
        "1"
    } else if d == 2 {
        "2"
    } else if d == 3 {
        "3"
    } else if d == 4 {
        "4"
    } else if d == 5 {
        "5"
    } else if d == 6 {
        "6"
    } else if d == 7 {
        "7"
    } else if d == 8 {
        "8"
    } else {
        "9"
    }
}

/// Appends the decimal text of `n` to `out`.
pub fn push_decimal(out: &mut String, n: usize)
    ensures
        final(out)@ == old(out)@ + decimal(n as nat),
    decreases n,
{
    if n >= 10 {
        push_decimal(out, n / 10);
    }
    out.append(digit_str(n % 10));
    assert(out@ =~= old(out)@ + decimal(n as nat));
}

/// The text that describes a handle to the slot `index` whose reference
/// count is `ref_count`.
pub fn describe_handle(index: usize, ref_count: usize) -> (text: String)
    ensures
        text@ == handle_text(index as nat, ref_count as nat),
{
    let mut text = String::from_str("Arc{ offset: ");
    push_decimal(&mut text, index);
    text.append(", ref_count: ");
    push_decimal(&mut text, ref_count);
    text.append(" }");
    text
}

} // verus!
