//! The final report: one line for each key, `key=mean/min/max`, keys
//! ascending, every number with exactly one fractional digit.

use crate::agg_map::{entry_views, summary_ok, AggMap};
use crate::aggregate::{Aggregate, Summary};
use crate::order::{is_report_order, lemma_report_order_unique, lemma_sorted_listing, sort_entries};
use crate::record::{MINUS, NEWLINE, POINT};
use vstd::prelude::*;

verus! {

/// The byte between a key and its numbers.
pub const EQUALS: u8 = 61;

/// The byte between two numbers of a line.
pub const SLASH: u8 = 47;

/// The decimal digits of `n`, without leading zeros.
pub open spec fn digits(n: nat) -> Seq<u8>
    decreases n,
{
    if n < 10 {
        seq![(48 + n) as u8]
    } else {
        digits(n / 10).push((48 + n % 10) as u8)
    }
}

/// The text of a number of tenths: a minus sign if it is negative, its
/// whole part, a decimal point and one fractional digit.
pub open spec fn tenths_text(v: int) -> Seq<u8> {
    let m = if v < 0 {
        -v
    } else {
        v
    };
    let sign = if v < 0 {
        seq![MINUS]
    } else {
        Seq::<u8>::empty()
    };
    sign + digits((m / 10) as nat) + seq![POINT, (48 + m % 10) as u8]
}

/// The mean of a summary's values, in tenths, rounded to the nearest tenth;
/// a mean halfway between two tenths goes to the one farther from zero.
pub open spec fn mean_tenths(s: Summary) -> int {
    let n = s.count as int;
    if s.sum >= 0 {
        (2 * s.sum + n) / (2 * n)
    } else {
        -((2 * (-s.sum) + n) / (2 * n))
    }
}

/// The line of the report for one key.
pub open spec fn line_text(key: Seq<u8>, s: Summary) -> Seq<u8> {
    key + seq![EQUALS] + tenths_text(mean_tenths(s)) + seq![SLASH] + tenths_text(s.min) + seq![
        SLASH,
    ] + tenths_text(s.max) + seq![NEWLINE]
}

/// The lines of a list of entries, one after the other.
pub open spec fn report_text(v: Seq<(Seq<u8>, Summary)>) -> Seq<u8>
    decreases v.len(),
{
    if v.len() == 0 {
        Seq::empty()
    } else {
        report_text(v.drop_last()) + line_text(v.last().0, v.last().1)
    }
}

/// The entries of `m` in the order of the report.
pub open spec fn report_order(m: Map<Seq<u8>, Summary>) -> Seq<(Seq<u8>, Summary)> {
    choose|v: Seq<(Seq<u8>, Summary)>| is_report_order(v, m)
}

/// The report of a map: the lines of its entries, keys ascending.
pub open spec fn report_of(m: Map<Seq<u8>, Summary>) -> Seq<u8> {
    report_text(report_order(m))
}

/// The size of a number, without its sign.
fn magnitude(v: i64) -> (m: u64)
    ensures
        m == if v < 0 {
            -v
        } else {
            v as int
        },
{
    if v < 0 {
        ((-(v + 1)) as u64) + 1
    } else {
        v as u64
    }
}

/// Appends the decimal digits of `n` to `out`.
fn push_digits(out: &mut Vec<u8>, n: u64)
    ensures
        final(out)@ == old(out)@ + digits(n as nat),
    decreases n,
{
    if n >= 10 {
        push_digits(out, n / 10);
    }
    out.push(48 + (n % 10) as u8);
    proof {
        if n >= 10 {
            assert(out@ =~= old(out)@ + digits((n / 10) as nat).push((48 + n % 10) as u8));
        } else {
            assert(out@ =~= old(out)@ + seq![(48 + n) as u8]);
        }
    }
}

/// Appends the text of `v` tenths to `out`.
pub fn push_tenths(out: &mut Vec<u8>, v: i64)
    ensures
        final(out)@ == old(out)@ + tenths_text(v as int),
{
    let m = magnitude(v);
    if v < 0 {
        out.push(MINUS);
    }
    let ghost mid = out@;
    push_digits(out, m / 10);
    out.push(POINT);
    out.push(48 + (m % 10) as u8);
    proof {
        assert(out@ =~= mid + digits((m / 10) as nat) + seq![POINT, (48 + m % 10) as u8]);
        if v < 0 {
            assert(mid =~= old(out)@ + seq![MINUS]);
        } else {
            assert(mid =~= old(out)@ + Seq::<u8>::empty());
        }
        assert(out@ =~= old(out)@ + tenths_text(v as int));
    }
}

/// The mean of the values of `agg`, in tenths, rounded to the nearest
/// tenth, halves away from zero.
pub fn mean_of(agg: &Aggregate) -> (r: i64)
    requires
        agg.count > 0,
    ensures
        r == mean_tenths(agg@),
{
    let m = magnitude(agg.sum);
    let num: u128 = 2 * (m as u128) + agg.count as u128;
    let den: u128 = 2 * (agg.count as u128);
    let q: u128 = num / den;
    proof {
        vstd::arithmetic::div_mod::lemma_fundamental_div_mod(num as int, den as int);
        vstd::arithmetic::div_mod::lemma_mod_pos_bound(num as int, den as int);
        assert(q <= m) by (nonlinear_arith)
            requires
                num == den * q + (num as int % den as int),
                0 <= (num as int % den as int),
                num == 2 * m + agg.count,
                den == 2 * agg.count,
                agg.count >= 1,
                q >= 0,
                m >= 0,
        ;
    }
    if agg.sum < 0 {
        if q == 0x8000_0000_0000_0000 {
            i64::MIN
        } else {
            -(q as i64)
        }
    } else {
        q as i64
    }
}

/// Appends the bytes of `bytes` to `out`.
fn push_bytes(out: &mut Vec<u8>, bytes: &[u8])
    ensures
        final(out)@ == old(out)@ + bytes@,
{
    let mut i: usize = 0;
    while i < bytes.len()
        invariant
            i <= bytes@.len(),
            out@ == old(out)@ + bytes@.subrange(0, i as int),
        decreases bytes@.len() - i,
    {
        out.push(bytes[i]);
        proof {
            assert(bytes@.subrange(0, i as int).push(bytes@[i as int]) =~= bytes@.subrange(
                0,
                i + 1,
            ));
        }
        i += 1;
    }
    proof {
        assert(bytes@.subrange(0, i as int) =~= bytes@);
    }
}

/// Appends the line of the report for `key` and `agg` to `out`.
pub fn push_line(out: &mut Vec<u8>, key: &[u8], agg: &Aggregate)
    requires
        agg.count > 0,
    ensures
        final(out)@ == old(out)@ + line_text(key@, agg@),
{
    push_bytes(out, key);
    out.push(EQUALS);
    push_tenths(out, mean_of(agg));
    out.push(SLASH);
    push_tenths(out, agg.min);
    out.push(SLASH);
    push_tenths(out, agg.max);
    out.push(NEWLINE);
    proof {
        assert(out@ =~= old(out)@ + line_text(key@, agg@));
    }
}

/// The lines of the entries of `entries`, in their order.
pub fn render(entries: &Vec<(Vec<u8>, Aggregate)>) -> (out: Vec<u8>)
    requires
        forall|i: int| 0 <= i < entries@.len() ==> (#[trigger] entries@[i]).1.count > 0,
    ensures
        out@ == report_text(entry_views(entries@)),
{
    let ghost all = entry_views(entries@);
    let mut out: Vec<u8> = Vec::new();
    let mut i: usize = 0;
    while i < entries.len()
        invariant
            i <= entries@.len(),
            all == entry_views(entries@),
            forall|j: int| 0 <= j < entries@.len() ==> (#[trigger] entries@[j]).1.count > 0,
            out@ == report_text(all.subrange(0, i as int)),
        decreases entries@.len() - i,
    {
        push_line(&mut out, entries[i].0.as_slice(), &entries[i].1);
        proof {
            let next = all.subrange(0, i + 1);
            assert(next.drop_last() =~= all.subrange(0, i as int));
            assert(next.last() == all[i as int]);
        }
        i += 1;
    }
    proof {
        assert(all.subrange(0, i as int) =~= all);
    }
    out
}

/// The entries of `totals` in the order of the report: keys ascending.
pub fn sorted_entries(totals: &AggMap) -> (v: Vec<(Vec<u8>, Aggregate)>)
    ensures
        is_report_order(entry_views(v@), totals@),
        entry_views(v@) == report_order(totals@),
{
    let listing = totals.entries();
    let v = sort_entries(listing);
    proof {
        lemma_sorted_listing(entry_views(listing@), entry_views(v@), totals@);
        lemma_report_order_unique(entry_views(v@), report_order(totals@), totals@);
    }
    v
}

/// The report of `totals`: for each key, in ascending order, the line
/// `key=mean/min/max`.
pub fn format_report(totals: &AggMap) -> (out: Vec<u8>)
    requires
        totals.wf(),
    ensures
        out@ == report_of(totals@),
{
    let v = sorted_entries(totals);
    proof {
        totals.lemma_wf();
        assert forall|i: int| 0 <= i < v@.len() implies (#[trigger] v@[i]).1.count > 0 by {
            let e = entry_views(v@);
            assert(totals@.contains_key(e[i].0));
            assert(summary_ok(totals@[e[i].0]));
        }
    }
    render(&v)
}

} // verus!
