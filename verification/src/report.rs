//! HTML report rendering with human-readable magnitudes.
//!
//! The reporter is a pure formatter: it turns a total pixel count and a
//! ranked entry sequence into one self-contained HTML document — fixed
//! header, a summary line, one visual row per entry in the order given,
//! and a fixed footer. Magnitudes divide by powers of 1000 and take a
//! unit suffix (none, K, M, G) only when the raw value strictly exceeds
//! the threshold; scaled values show two decimals, hundredths rounded
//! half up.

use vstd::prelude::*;
use crate::histogram::{Entry, Histogram};

verus! {

/// Decimal digit character of `d`.
pub open spec fn digit_char(d: int) -> char {
    if d == 0 {
        '0'
    } else if d == 1 {
        '1'
    } else if d == 2 {
        '2'
    } else if d == 3 {
        '3'
    } else if d == 4 {
        '4'
    } else if d == 5 {
        '5'
    } else if d == 6 {
        '6'
    } else if d == 7 {
        '7'
    } else if d == 8 {
        '8'
    } else {
        '9'
    }
}

/// Decimal rendering of `n`, most significant digit first, no leading
/// zeros (a single zero for `n == 0`).
pub open spec fn spec_decimal(n: nat) -> Seq<char>
    decreases n,
{
    if n < 10 {
        seq![digit_char(n as int)]
    } else {
        spec_decimal(n / 10).push(digit_char((n % 10) as int))
    }
}

/// One-character string for digit `d`.
fn digit_str(d: u64) -> (r: &'static str)
    requires
        d < 10,
    ensures
        r@ == seq![digit_char(d as int)],
{
    let s: &'static str = if d == 0 {
        "0"
    } else if d == 1 {
        "1"
    } else if d == 2 {
        "2"
    } else if d == 3 {
        "3"
    } else if d == 4 {
        "4"
    } else if d == 5 {
        "5"
    } else if d == 6 {
        "6"
    } else if d == 7 {
        "7"
    } else if d == 8 {
        "8"
    } else {
        "9"
    };
    proof {
        reveal_strlit("0");
        reveal_strlit("1");
        reveal_strlit("2");
        reveal_strlit("3");
        reveal_strlit("4");
        reveal_strlit("5");
        reveal_strlit("6");
        reveal_strlit("7");
        reveal_strlit("8");
        reveal_strlit("9");
        assert(s@ =~= seq![digit_char(d as int)]);
    }
    s
}

/// Decimal rendering of `n`, executable.
pub fn to_decimal(n: u64) -> (r: String)
    ensures
        r@ == spec_decimal(n as nat),
    decreases n,
{
    if n < 10 {
        String::from_str(digit_str(n))
    } else {
        let mut s = to_decimal(n / 10);
        s.append(digit_str(n % 10));
        proof {
            assert(s@ =~= spec_decimal((n / 10) as nat).push(digit_char((n % 10) as int)));
        }
        s
    }
}

/// Scaled rendering of `s / div` with two decimals, hundredths rounded
/// half up: whole part, a dot, then exactly two digits.
pub open spec fn spec_scaled(s: nat, div: nat) -> Seq<char>
    recommends
        div >= 2,
{
    let h = (100 * s + div / 2) / div;
    spec_decimal(h / 100) + seq!['.', digit_char(((h % 100) / 10) as int), digit_char((h % 10) as int)]
}

/// Human-readable magnitude: the raw integer up to 1000, then the value
/// scaled by the largest strictly exceeded power of 1000 with two decimals
/// and the matching unit suffix, `suffix` always appended last. The
/// thresholds are strict: 1000 itself still prints as `1000`.
pub open spec fn spec_human(s: u64, suffix: Seq<char>) -> Seq<char> {
    if s > 1000000000 {
        spec_scaled(s as nat, 1000000000) + seq!['G'] + suffix
    } else if s > 1000000 {
        spec_scaled(s as nat, 1000000) + seq!['M'] + suffix
    } else if s > 1000 {
        spec_scaled(s as nat, 1000) + seq!['K'] + suffix
    } else {
        spec_decimal(s as nat) + suffix
    }
}

/// Scaled rendering, executable. The hundredths are computed in 128-bit
/// arithmetic, which cannot overflow: `100 * s + div / 2 < 2^71`.
fn scaled(s: u64, div: u64) -> (r: String)
    requires
        div == 1000 || div == 1000000 || div == 1000000000,
    ensures
        r@ == spec_scaled(s as nat, div as nat),
{
    let h_wide: u128 = (100u128 * (s as u128) + (div as u128) / 2) / (div as u128);
    proof {
        let x = 100 * (s as int) + (div as int) / 2;
        let xmax = 100 * 0xffff_ffff_ffff_ffffi128 as int + 500000000;
        vstd::arithmetic::div_mod::lemma_div_is_ordered_by_denominator(x, 1000, div as int);
        vstd::arithmetic::div_mod::lemma_div_is_ordered(x, xmax, 1000);
        assert(xmax / 1000 < 0xffff_ffff_ffff_ffff);
        vstd::arithmetic::div_mod::lemma_div_pos_is_pos(x, div as int);
    }
    let h = h_wide as u64;
    let mut r = to_decimal(h / 100);
    r.append(".");
    r.append(digit_str(h % 100 / 10));
    r.append(digit_str(h % 10));
    proof {
        reveal_strlit(".");
        let hs = ((100 * (s as nat) + (div as nat) / 2) / (div as nat)) as nat;
        assert(h == hs);
        assert(r@ =~= spec_scaled(s as nat, div as nat));
    }
    r
}

/// Human-readable magnitude, executable.
pub fn human(s: u64, suffix: &str) -> (r: String)
    ensures
        r@ == spec_human(s, suffix@),
{
    if s > 1000000000 {
        let mut r = scaled(s, 1000000000);
        r.append("G");
        r.append(suffix);
        proof {
            reveal_strlit("G");
            assert(r@ =~= spec_human(s, suffix@));
        }
        r
    } else if s > 1000000 {
        let mut r = scaled(s, 1000000);
        r.append("M");
        r.append(suffix);
        proof {
            reveal_strlit("M");
            assert(r@ =~= spec_human(s, suffix@));
        }
        r
    } else if s > 1000 {
        let mut r = scaled(s, 1000);
        r.append("K");
        r.append(suffix);
        proof {
            reveal_strlit("K");
            assert(r@ =~= spec_human(s, suffix@));
        }
        r
    } else {
        let mut r = to_decimal(s);
        r.append(suffix);
        r
    }
}

/// Fixed document header.
pub const HTML_HEADER: &'static str = "<!DOCTYPE html>\n<html>\n<head>\n    <meta http-equiv='X-UA-Compatible' content='IE=edge'>\n    <meta name='viewport' content='width=device-width, initial-scale=1'>\n    <meta http-equiv='Content-Type' content='text/html; charset=utf-8' />\n</head>\n<body>\n";

/// Fixed document footer.
pub const HTML_FOOTER: &'static str = "</body>\n</html>\n";

/// Summary line, before the human-readable total.
pub const SUMMARY_HEAD: &'static str = "<div style='margin:20px'>total: ";

/// Summary line, after the human-readable total.
pub const SUMMARY_TAIL: &'static str = " pixels</div>\n";

/// Row template up to the swatch color.
pub const ROW_HEAD: &'static str = "<div style='margin:2px'><div style='padding-left: 200px; background-color:rgb(";

/// Row template between the swatch color and the human-readable count.
pub const ROW_MID: &'static str = "); display:inline'></div><span style='margin:10px; width:400px; height:50px;'>pixels: ";

/// Row template between the count and the color label.
pub const ROW_COLOR: &'static str = "; color: (";

/// Row template after the color label.
pub const ROW_TAIL: &'static str = "); </span></div>\n";

/// A color triple as decimal channel values with the given separator.
pub open spec fn spec_color_triple(r: u8, g: u8, b: u8, sep: Seq<char>) -> Seq<char> {
    spec_decimal(r as nat) + sep + spec_decimal(g as nat) + sep + spec_decimal(b as nat)
}

/// One visual row: a swatch in the entry's representative color and a text
/// label with its human-readable count and color triple.
pub open spec fn spec_row(e: Entry) -> Seq<char> {
    ROW_HEAD.view() + spec_color_triple(e.1, e.2, e.3, ",".view()) + ROW_MID.view() + spec_human(
        e.0 as u64,
        Seq::empty(),
    ) + ROW_COLOR.view() + spec_color_triple(e.1, e.2, e.3, ", ".view()) + ROW_TAIL.view()
}

/// All rows, in the order the entries were given.
pub open spec fn spec_rows(entries: Seq<Entry>) -> Seq<char>
    decreases entries.len(),
{
    if entries.len() == 0 {
        Seq::empty()
    } else {
        spec_rows(entries.drop_last()) + spec_row(entries.last())
    }
}

/// The whole document: header, summary with the human-readable total,
/// exactly the given entries as rows in the given order, footer.
pub open spec fn spec_report(pixels: u64, entries: Seq<Entry>) -> Seq<char> {
    HTML_HEADER.view() + SUMMARY_HEAD.view() + spec_human(pixels, Seq::empty())
        + SUMMARY_TAIL.view() + spec_rows(entries) + HTML_FOOTER.view()
}

/// Append the decimal color triple of `e` with separator `sep`.
fn append_color_triple(out: &mut String, r: u8, g: u8, b: u8, sep: &str)
    ensures
        final(out)@ == old(out)@ + spec_color_triple(r, g, b, sep@),
{
    let dr = to_decimal(r as u64);
    out.append(dr.as_str());
    out.append(sep);
    let dg = to_decimal(g as u64);
    out.append(dg.as_str());
    out.append(sep);
    let db = to_decimal(b as u64);
    out.append(db.as_str());
    proof {
        assert(out@ =~= old(out)@ + spec_color_triple(r, g, b, sep@));
    }
}

/// Append one row for entry `e`.
fn append_row(out: &mut String, e: &Entry)
    requires
        e.0 <= u64::MAX,
    ensures
        final(out)@ == old(out)@ + spec_row(*e),
{
    out.append(ROW_HEAD);
    append_color_triple(out, e.1, e.2, e.3, ",");
    out.append(ROW_MID);
    let hc = human(e.0 as u64, "");
    out.append(hc.as_str());
    out.append(ROW_COLOR);
    append_color_triple(out, e.1, e.2, e.3, ", ");
    out.append(ROW_TAIL);
    proof {
        reveal_strlit("");
        assert(""@ =~= Seq::<char>::empty());
        assert(out@ =~= old(out)@ + spec_row(*e));
    }
}

/// Render the whole report for a total pixel count and a ranked entry
/// sequence. Pure formatting: the entries appear exactly as given, in the
/// order given.
pub fn render_report(pixels: u64, entries: &Vec<Entry>) -> (r: String)
    ensures
        r@ == spec_report(pixels, entries@),
{
    let mut out = String::from_str(HTML_HEADER);
    out.append(SUMMARY_HEAD);
    let ht = human(pixels, "");
    out.append(ht.as_str());
    out.append(SUMMARY_TAIL);
    proof {
        reveal_strlit("");
        assert(""@ =~= Seq::<char>::empty());
    }
    let ghost prefix = out@;
    let mut i: usize = 0;
    while i < entries.len()
        invariant
            i <= entries@.len(),
            forall|t: int| 0 <= t < entries@.len() ==> (#[trigger] entries@[t]).0 <= u64::MAX,
            out@ == prefix + spec_rows(entries@.take(i as int)),
        decreases entries@.len() - i,
    {
        let e = entries[i];
        append_row(&mut out, &e);
        proof {
            assert(entries@.take(i as int + 1).drop_last() =~= entries@.take(i as int));
            assert(entries@.take(i as int + 1).last() == entries@[i as int]);
            assert(out@ =~= prefix + spec_rows(entries@.take(i as int + 1)));
        }
        i = i + 1;
    }
    out.append(HTML_FOOTER);
    proof {
        assert(entries@.take(entries@.len() as int) =~= entries@);
        assert(out@ =~= spec_report(pixels, entries@));
    }
    out
}

impl Histogram {
    /// The finished report for this histogram: its ranked extraction
    /// rendered below its human-readable total.
    pub fn to_html(&self) -> (r: String)
        requires
            self.wf(),
        ensures
            r@ == spec_report(self.pixels as u64, self.spec_ranked()),
    {
        let entries = self.histo();
        render_report(self.pixels as u64, &entries)
    }
}

} // verus!
