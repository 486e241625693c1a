use num_format::ToFormattedString;
use vstd::prelude::*;

verus! {

/// The character of the decimal digit `d`.
pub open spec fn digit(d: nat) -> char {
    seq!['0', '1', '2', '3', '4', '5', '6', '7', '8', '9'][d as int]
}

/// `n` in decimal, without leading zeros.
pub open spec fn decimal(n: nat) -> Seq<char>
    decreases n,
{
    if n < 10 {
        seq![digit(n)]
    } else {
        decimal(n / 10).push(digit(n % 10))
    }
}

/// The three decimal digits of `n < 1000`, zeros included.
pub open spec fn three_digits(n: nat) -> Seq<char> {
    seq![digit(n / 100), digit((n / 10) % 10), digit(n % 10)]
}

/// `n` in decimal with a comma between each group of three digits,
/// counting from the right.
pub open spec fn grouped_decimal(n: nat) -> Seq<char>
    decreases n,
{
    if n < 1000 {
        decimal(n)
    } else {
        grouped_decimal(n / 1000) + seq![','] + three_digits(n % 1000)
    }
}

/// Relies on num_format's `ToFormattedString::to_formatted_string` with
/// `Locale::en`, whose separator is "," and whose grouping is by three.
#[verifier::external_body]
fn to_thousands(n: u64) -> (r: String)
    ensures
        r@ == grouped_decimal(n as nat),
{
    n.to_formatted_string(&num_format::Locale::en)
}

/// The reclaimed byte count as reported: decimal digits grouped by three
/// with commas.
pub fn format_gain(gain: u64) -> (r: String)
    ensures
        r@ == grouped_decimal(gain as nat),
{
    to_thousands(gain)
}

} // verus!
