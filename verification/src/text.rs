//! Decimal text: the receiver's output file name and the human-readable
//! size report.

use vstd::prelude::*;
use vstd::string::StringExecFns;

verus! {

/// Bytes per kilobyte.
pub const KB: usize = 1024;

/// Bytes per megabyte.
pub const MB: usize = 1048576;

/// The character of a single decimal digit.
pub open spec fn digit_char(d: int) -> char
    recommends
        0 <= d <= 9,
{
    ((d + 48) as u8) as char
}

/// The decimal numeral of `n`, most significant digit first.
pub open spec fn decimal_of(n: nat) -> Seq<char>
    decreases n,
{
    if n < 10 {
        seq![digit_char(n as int)]
    } else {
        decimal_of(n / 10).push(digit_char((n % 10) as int))
    }
}

fn digit_str(d: u64) -> (r: &'static str)
    requires
        d <= 9,
    ensures
        r@ == seq![digit_char(d as int)],
{
    let r: &'static str = match d {
        0 => "0",
        1 => "1",
        2 => "2",
        3 => "3",
        4 => "4",
        5 => "5",
        6 => "6",
        7 => "7",
        8 => "8",
        _ => "9",
    };
    proof {
        reveal_strlit("0");
        reveal_strlit("1");
        reveal_strlit("2");
        reveal_strlit("3");
        reveal_strlit("4");
        reveal_strlit("5");
        reveal_strlit("6");
        reveal_strlit("7");
        reveal_strlit("8");
        reveal_strlit("9");
        assert(r@ =~= seq![digit_char(d as int)]);
    }
    r
}

/// The decimal numeral of `n`.
pub fn u64_to_string(n: u64) -> (r: String)
    ensures
        r@ == decimal_of(n as nat),
    decreases n,
{
    if n < 10 {
        let r = digit_str(n).to_owned();
        r
    } else {
        let mut s = u64_to_string(n / 10);
        s.append(digit_str(n % 10));
        proof {
            assert(s@ =~= decimal_of(n as nat));
        }
        s
    }
}

/// The receiver's output file name for a run finished at Unix time
/// `now_secs`: a timestamp-derived name with no extension, so that runs do
/// not collide.
pub fn generate_output_filename(now_secs: u64) -> (r: String)
    ensures
        r@ == "received_file_"@ + decimal_of(now_secs as nat),
{
    let mut s = String::from_str("received_file_");
    let num = u64_to_string(now_secs);
    s.append(num.as_str());
    s
}

/// The exact rational `bytes / unit`, rounded to two decimal places — to the
/// nearest hundredth, ties to even, as the usual two-decimal float formatting
/// rounds a value that a float holds exactly — as a pair of the whole part
/// and the two-digit fraction.
pub open spec fn rounded_hundredths(bytes: nat, unit: nat) -> (nat, nat)
    recommends
        unit > 0,
{
    let q = (bytes % unit) * 100 / unit;
    let r = (bytes % unit) * 100 % unit;
    let frac = if 2 * r > unit || (2 * r == unit && q % 2 == 1) {
        q + 1
    } else {
        q
    };
    if frac == 100 {
        (bytes / unit + 1, 0 as nat)
    } else {
        (bytes / unit, frac)
    }
}

/// `bytes / unit` with two decimal places, rounded to nearest, ties to even.
pub open spec fn scaled_text(bytes: nat, unit: nat) -> Seq<char>
    recommends
        unit > 0,
{
    let (whole, frac) = rounded_hundredths(bytes, unit);
    decimal_of(whole) + seq!['.'] + seq![
        digit_char(frac as int / 10),
        digit_char(frac as int % 10),
    ]
}

/// The size report: plain bytes below 1 KB, otherwise KB or MB with two
/// decimal places, rounded to nearest, ties to even.
pub open spec fn spec_file_size_text(bytes: nat) -> Seq<char> {
    if bytes >= MB {
        scaled_text(bytes, MB as nat) + " MB"@
    } else if bytes >= KB {
        scaled_text(bytes, KB as nat) + " KB"@
    } else {
        decimal_of(bytes) + " bytes"@
    }
}

fn scaled(bytes: usize, unit: usize) -> (r: String)
    requires
        2 <= unit <= 1048576,
    ensures
        r@ == scaled_text(bytes as nat, unit as nat),
{
    let u: u64 = unit as u64;
    let num: u64 = ((bytes % unit) as u64) * 100;
    let q: u64 = num / u;
    let rest: u64 = num % u;
    proof {
        let b = bytes as int;
        let ui = unit as int;
        assert((b % ui) * 100 < ui * 100);
        vstd::arithmetic::div_mod::lemma_multiply_divide_lt((b % ui) * 100, ui, 100);
        assert(q <= 99);
        vstd::arithmetic::div_mod::lemma_div_is_ordered_by_denominator(b, 2, ui);
    }
    let frac: u64 = if 2 * rest > u || (2 * rest == u && q % 2 == 1) {
        q + 1
    } else {
        q
    };
    let mut whole: u64 = (bytes / unit) as u64;
    let mut frac2: u64 = frac;
    if frac == 100 {
        whole = whole + 1;
        frac2 = 0;
    }
    let mut s = u64_to_string(whole);
    s.append(".");
    s.append(digit_str(frac2 / 10));
    s.append(digit_str(frac2 % 10));
    proof {
        reveal_strlit(".");
        assert(s@ =~= scaled_text(bytes as nat, unit as nat));
    }
    s
}

/// Formats a byte count for the final status report.
pub fn format_file_size(bytes: usize) -> (r: String)
    ensures
        r@ == spec_file_size_text(bytes as nat),
{
    if bytes >= MB {
        let mut s = scaled(bytes, MB);
        s.append(" MB");
        s
    } else if bytes >= KB {
        let mut s = scaled(bytes, KB);
        s.append(" KB");
        s
    } else {
        let mut s = u64_to_string(bytes as u64);
        s.append(" bytes");
        s
    }
}

} // verus!
