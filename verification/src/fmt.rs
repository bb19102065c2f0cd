//! Decimal rendering for reports: thousands-separated counts, scaled file
//! sizes, bin sizes, and the tab-separated coverage rows.

use vstd::prelude::*;
use vstd::string::StrSliceExecFns;
use vstd::string::StringExecFns;

verus! {

/// The character for one decimal digit value.
pub open spec fn digit_char(d: nat) -> char {
    if d == 0 {
        '0'
    } else if d == 1 {
        '1'
    } else if d == 2 {
        '2'
    } else if d == 3 {
        '3'
    } else if d == 4 {
        '4'
    } else if d == 5 {
        '5'
    } else if d == 6 {
        '6'
    } else if d == 7 {
        '7'
    } else if d == 8 {
        '8'
    } else {
        '9'
    }
}

/// Decimal digit values of `n`, most significant first.
pub open spec fn spec_digit_vals(n: nat) -> Seq<nat>
    decreases n,
{
    if n < 10 {
        seq![n]
    } else {
        spec_digit_vals(n / 10) + seq![n % 10]
    }
}

/// Decimal rendering of `n`, without separators.
pub open spec fn spec_digits(n: nat) -> Seq<char> {
    spec_digit_vals(n).map_values(|d: nat| digit_char(d))
}

/// Digits with a `,` before every group of three counted from the right.
pub open spec fn spec_grouped(digits: Seq<char>) -> Seq<char>
    decreases digits.len(),
{
    if digits.len() <= 3 {
        digits
    } else {
        spec_grouped(digits.take(digits.len() - 3)) + seq![','] + digits.skip(digits.len() - 3)
    }
}

/// A one-character string for a decimal digit value.
fn digit_str(d: u64) -> (s: &'static str)
    requires
        d < 10,
    ensures
        s@ =~= seq![digit_char(d as nat)],
{
    if d == 0 {
        proof {
            reveal_strlit("0");
        }
        "0"
    } else if d == 1 {
        proof {
            reveal_strlit("1");
        }
        "1"
    } else if d == 2 {
        proof {
            reveal_strlit("2");
        }
        "2"
    } else if d == 3 {
        proof {
            reveal_strlit("3");
        }
        "3"
    } else if d == 4 {
        proof {
            reveal_strlit("4");
        }
        "4"
    } else if d == 5 {
        proof {
            reveal_strlit("5");
        }
        "5"
    } else if d == 6 {
        proof {
            reveal_strlit("6");
        }
        "6"
    } else if d == 7 {
        proof {
            reveal_strlit("7");
        }
        "7"
    } else if d == 8 {
        proof {
            reveal_strlit("8");
        }
        "8"
    } else {
        proof {
            reveal_strlit("9");
        }
        "9"
    }
}

/// The decimal digit values of `n`, most significant first.
fn digits_of(n: u64) -> (v: Vec<u64>)
    ensures
        forall|i: int| 0 <= i < v@.len() ==> #[trigger] v@[i] < 10,
        v@.map_values(|d: u64| d as nat) =~= spec_digit_vals(n as nat),
    decreases n,
{
    if n < 10 {
        let mut v: Vec<u64> = Vec::new();
        v.push(n);
        proof {
            assert(v@.map_values(|d: u64| d as nat) =~= seq![n as nat]);
        }
        v
    } else {
        let mut v = digits_of(n / 10);
        v.push(n % 10);
        proof {
            let f = |d: u64| d as nat;
            assert(v@.map_values(f) =~= v@.drop_last().map_values(f) + seq![(n % 10) as nat]);
        }
        v
    }
}

/// Append the decimal rendering of `n`.
fn push_u64(out: &mut String, n: u64)
    ensures
        final(out)@ == old(out)@ + spec_digits(n as nat),
    decreases n,
{
    if n < 10 {
        out.append(digit_str(n));
        proof {
            assert(final(out)@ =~= old(out)@ + spec_digits(n as nat));
        }
    } else {
        push_u64(out, n / 10);
        out.append(digit_str(n % 10));
        proof {
            assert(spec_digits(n as nat) =~= spec_digits((n / 10) as nat) + seq![
                digit_char((n % 10) as nat),
            ]);
            assert(final(out)@ =~= old(out)@ + spec_digits(n as nat));
        }
    }
}

/// Append the digit characters of `digits[from..to]`.
fn push_digit_range(out: &mut String, digits: &Vec<u64>, from: usize, to: usize)
    requires
        from <= to <= digits@.len(),
        forall|i: int| 0 <= i < digits@.len() ==> #[trigger] digits@[i] < 10,
    ensures
        final(out)@ == old(out)@ + digits@.subrange(from as int, to as int).map_values(
            |d: u64| digit_char(d as nat),
        ),
{
    let ghost ds = digits@;
    let ghost start_str = out@;
    proof {
        assert(out@ =~= start_str + ds.subrange(from as int, from as int).map_values(
            |d: u64| digit_char(d as nat),
        ));
    }
    let mut i = from;
    while i < to
        invariant
            from <= i <= to <= ds.len(),
            digits@ == ds,
            forall|j: int| 0 <= j < ds.len() ==> #[trigger] ds[j] < 10,
            out@ == start_str + ds.subrange(from as int, i as int).map_values(
                |d: u64| digit_char(d as nat),
            ),
        decreases to - i,
    {
        out.append(digit_str(digits[i]));
        proof {
            assert(ds.subrange(from as int, i + 1).map_values(|d: u64| digit_char(d as nat))
                =~= ds.subrange(from as int, i as int).map_values(|d: u64| digit_char(d as nat))
                + seq![digit_char(ds[i as int] as nat)]);
            assert(out@ =~= start_str + ds.subrange(from as int, i + 1).map_values(
                |d: u64| digit_char(d as nat),
            ));
        }
        i = i + 1;
    }
    proof {
        assert(out@ =~= start_str + ds.subrange(from as int, to as int).map_values(
            |d: u64| digit_char(d as nat),
        ));
    }
}

/// Append the first `m` digits with thousands separators.
fn push_grouped(out: &mut String, digits: &Vec<u64>, m: usize)
    requires
        m <= digits@.len(),
        forall|i: int| 0 <= i < digits@.len() ==> #[trigger] digits@[i] < 10,
    ensures
        final(out)@ == old(out)@ + spec_grouped(
            digits@.subrange(0, m as int).map_values(|d: u64| digit_char(d as nat)),
        ),
    decreases m,
{
    let ghost chars = digits@.subrange(0, m as int).map_values(|d: u64| digit_char(d as nat));
    if m <= 3 {
        push_digit_range(out, digits, 0, m);
    } else {
        push_grouped(out, digits, m - 3);
        out.append(",");
        push_digit_range(out, digits, m - 3, m);
        proof {
            reveal_strlit(",");
            assert(","@ =~= seq![',']);
            assert(chars.take(m - 3) =~= digits@.subrange(0, m as int - 3).map_values(
                |d: u64| digit_char(d as nat),
            ));
            assert(chars.skip(m - 3) =~= digits@.subrange(m as int - 3, m as int).map_values(
                |d: u64| digit_char(d as nat),
            ));
            assert(final(out)@ =~= old(out)@ + spec_grouped(chars));
        }
    }
}

/// `num / den` rounded to the nearest integer, ties to the even neighbour —
/// the rounding that floating-point formatting applies to exactly
/// representable quotients.
pub open spec fn spec_round_half_even(num: nat, den: nat) -> nat {
    let q = num / den;
    let r = num % den;
    if 2 * r > den {
        q + 1
    } else if 2 * r < den {
        q
    } else if q % 2 == 0 {
        q
    } else {
        q + 1
    }
}

/// Two zero-padded digits for a value below one hundred.
pub open spec fn spec_two_digits(f: nat) -> Seq<char> {
    seq![digit_char(f / 10), digit_char(f % 10)]
}

/// `size / unit` rendered with two decimal places.
pub open spec fn spec_scaled(size: nat, unit: nat) -> Seq<char> {
    let h = spec_round_half_even(size * 100, unit);
    spec_digits(h / 100) + seq!['.'] + spec_two_digits(h % 100)
}

/// A byte count rendered with the appropriate unit: plain bytes below one
/// KiB, otherwise scaled to KB, MB or GB with two decimal places.
pub open spec fn spec_file_size(size: nat) -> Seq<char> {
    if size < 1024 {
        spec_digits(size) + " B"@
    } else if size < 1048576 {
        spec_scaled(size, 1024) + " KB"@
    } else if size < 1073741824 {
        spec_scaled(size, 1048576) + " MB"@
    } else {
        spec_scaled(size, 1073741824) + " GB"@
    }
}

/// Round `num / den` to the nearest integer, ties to even.
fn round_half_even(num: u128, den: u128) -> (h: u128)
    requires
        1 <= den <= u64::MAX,
        num <= u64::MAX as u128 * 100,
    ensures
        h == spec_round_half_even(num as nat, den as nat),
{
    let q = num / den;
    let r = num % den;
    if 2 * r > den {
        q + 1
    } else if 2 * r < den {
        q
    } else if q % 2 == 0 {
        q
    } else {
        q + 1
    }
}

/// Append `size / unit` with two decimal places.
fn push_scaled(out: &mut String, size: u64, unit: u64)
    requires
        unit >= 1,
    ensures
        final(out)@ == old(out)@ + spec_scaled(size as nat, unit as nat),
{
    let num: u128 = size as u128 * 100;
    let h = round_half_even(num, unit as u128);
    proof {
        assert(h as nat <= num as nat / unit as nat + 1);
        assert(num as nat / unit as nat <= num as nat) by {
            vstd::arithmetic::div_mod::lemma_div_is_ordered_by_denominator(
                num as int,
                1,
                unit as int,
            );
        }
        assert(h / 100 <= u64::MAX) by {
            assert(h <= num + 1);
            assert((num + 1) / 100 <= u64::MAX) by {
                assert(num + 1 <= u64::MAX as nat * 100 + 1);
            }
            vstd::arithmetic::div_mod::lemma_div_is_ordered(h as int, num as int + 1, 100);
        }
    }
    let whole = (h / 100) as u64;
    let frac = (h % 100) as u64;
    push_u64(out, whole);
    out.append(".");
    out.append(digit_str(frac / 10));
    out.append(digit_str(frac % 10));
    proof {
        reveal_strlit(".");
        assert("."@ =~= seq!['.']);
        assert(final(out)@ =~= old(out)@ + spec_scaled(size as nat, unit as nat));
    }
}

/// Format a byte count with the appropriate unit (`B`, `KB`, `MB`, `GB`),
/// scaled values carrying two decimal places.
pub fn format_file_size(size_bytes: u64) -> (r: String)
    ensures
        r@ == spec_file_size(size_bytes as nat),
{
    let mut out = String::new();
    if size_bytes < 1024 {
        push_u64(&mut out, size_bytes);
        out.append(" B");
    } else if size_bytes < 1048576 {
        push_scaled(&mut out, size_bytes, 1024);
        out.append(" KB");
    } else if size_bytes < 1073741824 {
        push_scaled(&mut out, size_bytes, 1048576);
        out.append(" MB");
    } else {
        push_scaled(&mut out, size_bytes, 1073741824);
        out.append(" GB");
    }
    proof {
        assert(out@ =~= spec_file_size(size_bytes as nat));
    }
    out
}

/// The bin width used to draw a genomic range: wider ranges get coarser
/// bins, from single bases up to megabase bins.
pub open spec fn spec_bin_size(range_size: u32) -> u32 {
    if range_size > 100000000 {
        1000000
    } else if range_size > 10000000 {
        100000
    } else if range_size > 1000000 {
        10000
    } else if range_size > 100000 {
        1000
    } else if range_size > 10000 {
        100
    } else {
        1
    }
}

/// Pick the bin width for a genomic range.
pub fn calculate_bin_size(range_size: u32) -> (bin: u32)
    ensures
        bin == spec_bin_size(range_size),
{
    if range_size > 100_000_000 {
        1_000_000
    } else if range_size > 10_000_000 {
        100_000
    } else if range_size > 1_000_000 {
        10_000
    } else if range_size > 100_000 {
        1_000
    } else if range_size > 10_000 {
        100
    } else {
        1
    }
}

/// A bin width rendered for display: megabases, kilobases or base pairs.
pub open spec fn spec_bin_label(bin_size: u32) -> Seq<char> {
    if bin_size >= 1000000 {
        spec_digits((bin_size / 1000000) as nat) + " Mb"@
    } else if bin_size >= 1000 {
        spec_digits((bin_size / 1000) as nat) + " kb"@
    } else {
        spec_digits(bin_size as nat) + " bp"@
    }
}

/// Format a bin width for display (`10 kb`, `1 Mb`, `500 bp`).
pub fn format_bin_size(bin_size: u32) -> (r: String)
    ensures
        r@ == spec_bin_label(bin_size),
{
    let mut out = String::new();
    if bin_size >= 1_000_000 {
        push_u64(&mut out, (bin_size / 1_000_000) as u64);
        out.append(" Mb");
    } else if bin_size >= 1_000 {
        push_u64(&mut out, (bin_size / 1_000) as u64);
        out.append(" kb");
    } else {
        push_u64(&mut out, bin_size as u64);
        out.append(" bp");
    }
    proof {
        assert(out@ =~= spec_bin_label(bin_size));
    }
    out
}

/// One output row per covered position: chromosome, position and depth,
/// tab-separated, one row per line, positions in ascending order.
pub open spec fn spec_coverage_rows(chrom: Seq<char>, entries: Seq<(u32, u32)>) -> Seq<char>
    decreases entries.len(),
{
    if entries.len() == 0 {
        Seq::empty()
    } else {
        spec_coverage_rows(chrom, entries.drop_last()) + chrom + "\t"@ + spec_digits(
            entries.last().0 as nat,
        ) + "\t"@ + spec_digits(entries.last().1 as nat) + "\n"@
    }
}

/// Render a chromosome's coverage map as its tab-separated report rows,
/// positions ascending.
pub fn render_coverage_rows(chrom: &String, cov: &crate::covmap::CovMap) -> (r: String)
    requires
        cov.wf(),
    ensures
        r@ == spec_coverage_rows(chrom@, cov@),
{
    let mut out = String::new();
    let entries = cov.entries();
    let ghost es = entries@;
    proof {
        assert(out@ =~= spec_coverage_rows(chrom@, es.subrange(0, 0)));
    }
    let mut i: usize = 0;
    while i < entries.len()
        invariant
            entries@ == es,
            i <= es.len(),
            out@ == spec_coverage_rows(chrom@, es.subrange(0, i as int)),
        decreases es.len() - i,
    {
        let (pos, count) = entries[i];
        out.append(chrom.as_str());
        out.append("\t");
        push_u64(&mut out, pos as u64);
        out.append("\t");
        push_u64(&mut out, count as u64);
        out.append("\n");
        proof {
            let pref1 = es.subrange(0, i + 1);
            assert(pref1.drop_last() =~= es.subrange(0, i as int));
            assert(pref1.last() == es[i as int]);
            assert(out@ =~= spec_coverage_rows(chrom@, pref1));
        }
        i = i + 1;
    }
    proof {
        assert(es.subrange(0, es.len() as int) =~= es);
    }
    out
}

/// Format a count with thousands separators, `1,234,567`-style.
pub fn format_number(num: u64) -> (r: String)
    ensures
        r@ == spec_grouped(spec_digits(num as nat)),
{
    let digits = digits_of(num);
    let mut out = String::new();
    let m = digits.len();
    push_grouped(&mut out, &digits, m);
    proof {
        let f = |d: u64| digit_char(d as nat);
        assert(digits@.subrange(0, m as int) =~= digits@);
        assert(digits@.map_values(f) =~= spec_digits(num as nat)) by {
            let vals = digits@.map_values(|d: u64| d as nat);
            assert(vals =~= spec_digit_vals(num as nat));
            assert(digits@.map_values(f) =~= vals.map_values(|d: nat| digit_char(d)));
        }
        assert(out@ =~= spec_grouped(spec_digits(num as nat)));
    }
    out
}

} // verus!
