//! Building blocks of the statistics texts: decimal numbers, and the sizes
//! and ages that `humansize` and `timeago` put into words.
use vstd::prelude::*;

verus! {

/// The character of a decimal digit.
pub open spec fn digit_char(d: nat) -> char {
    if d == 0 { '0' }
    else if d == 1 { '1' }
    else if d == 2 { '2' }
    else if d == 3 { '3' }
    else if d == 4 { '4' }
    else if d == 5 { '5' }
    else if d == 6 { '6' }
    else if d == 7 { '7' }
    else if d == 8 { '8' }
    else { '9' }
}

/// The decimal digits of `n`, most significant first, without leading zeros.
pub open spec fn decimal(n: nat) -> Seq<char>
    decreases n,
{
    if n < 10 {
        seq![digit_char(n)]
    } else {
        decimal(n / 10).push(digit_char(n % 10))
    }
}

/// The text of a count.
pub open spec fn count_text(n: u64) -> Seq<char> {
    decimal(n as nat)
}

/// Calls `String::push`: appends one character.
#[verifier::external_body]
pub(crate) fn push_char(s: &mut String, c: char)
    ensures
        final(s)@ == old(s)@.push(c),
{
    s.push(c);
}

fn digit(d: u64) -> (c: char)
    requires
        d < 10,
    ensures
        c == digit_char(d as nat),
{
    if d == 0 { '0' }
    else if d == 1 { '1' }
    else if d == 2 { '2' }
    else if d == 3 { '3' }
    else if d == 4 { '4' }
    else if d == 5 { '5' }
    else if d == 6 { '6' }
    else if d == 7 { '7' }
    else if d == 8 { '8' }
    else { '9' }
}

/// Appends the decimal digits of `n` to `s`.
pub fn push_decimal(s: &mut String, n: u64)
    ensures
        final(s)@ == old(s)@ + decimal(n as nat),
    decreases n,
{
    if n < 10 {
        push_char(s, digit(n));
        assert(old(s)@.push(digit_char(n as nat)) =~= old(s)@ + decimal(n as nat));
    } else {
        push_decimal(s, n / 10);
        push_char(s, digit(n % 10));
        assert(old(s)@ + decimal((n / 10) as nat) + seq![digit_char((n % 10) as nat)] =~= old(s)@ + decimal(n as nat));
    }
}

/// The decimal text of `n`.
pub fn decimal_text(n: u64) -> (res: String)
    ensures
        res@ == decimal(n as nat),
{
    let mut s = String::new();
    push_decimal(&mut s, n);
    assert(Seq::<char>::empty() + decimal(n as nat) =~= decimal(n as nat));
    s
}

/// What `humansize::format_size` makes of `bytes` with binary units (KiB,
/// MiB, ...), two decimal places when the scaled value has a fraction,
/// `decimal_zeroes` places when it has none, and a space before the unit.
pub uninterp spec fn size_text(bytes: u64, decimal_zeroes: usize) -> Seq<char>;

/// Calls `humansize::format_size` with the `BINARY` options and
/// `decimal_zeroes` places for a value without fraction. Its text is a
/// function of the two arguments; what it is, is left unsaid here. The
/// places go to a runtime format precision, which std keeps in 16 bits, so
/// only small counts are admitted.
#[verifier::external_body]
pub(crate) fn format_size_binary(bytes: u64, decimal_zeroes: usize) -> (res: String)
    requires
        decimal_zeroes <= 2,
    ensures
        res@ == size_text(bytes, decimal_zeroes),
{
    let mut options = humansize::FormatSizeOptions::from(humansize::BINARY);
    options.decimal_zeroes = decimal_zeroes;
    humansize::format_size(bytes, options)
}

/// What `timeago::Formatter::new().convert` says of a duration of `nanos`
/// nanoseconds (such as "5 seconds ago").
pub uninterp spec fn ago_text(nanos: u64) -> Seq<char>;

/// Calls `timeago::Formatter::new().convert` on a duration of `nanos`
/// nanoseconds. Its text is a function of the duration; what it is, is left
/// unsaid here.
#[verifier::external_body]
pub(crate) fn time_ago(nanos: u64) -> (res: String)
    ensures
        res@ == ago_text(nanos),
{
    timeago::Formatter::new().convert(std::time::Duration::from_nanos(nanos))
}

} // verus!
