//! The output formatter: rounded means, fixed-point text, and the
//! deterministic sorted report.

use vstd::prelude::*;
use vstd::arithmetic::div_mod::{lemma_div_pos_is_pos, lemma_fundamental_div_mod, lemma_mod_bound};
use crate::record::{MeasurementRecord, RecModel, rec_wf};
use crate::model::AggModel;
use crate::parse::{SEMI, NL};
use crate::aggmap::AggMap;

verus! {

/// The mean in fixed-point units, rounded half away from zero: half of the
/// count is added to the sum's magnitude before the integer division.
pub open spec fn round_mean(sum: int, count: int) -> int {
    if sum >= 0 {
        (sum + count / 2) / count
    } else {
        -(((-sum) + count / 2) / count)
    }
}

/// For every well-formed record, the rounded mean lies between the
/// minimum and the maximum.
pub proof fn lemma_mean_in_range(r: RecModel)
    requires
        rec_wf(r),
    ensures
        r.min <= round_mean(r.sum, r.count) <= r.max,
{
    let c = r.count;
    let h = c / 2;
    lemma_div_pos_is_pos(c, 2);
    lemma_mod_bound(c, 2);
    lemma_fundamental_div_mod(c, 2);
    assert(0 <= h < c);
    if r.sum >= 0 {
        let x = r.sum + h;
        let q = x / c;
        lemma_fundamental_div_mod(x, c);
        lemma_mod_bound(x, c);
        // upper bound: x < c * (max + 1), so q <= max
        assert(r.sum <= c * r.max);
        assert(c * (r.max + 1) == c * r.max + c) by (nonlinear_arith);
        assert(q <= r.max) by (nonlinear_arith)
            requires
                x == c * q + x % c,
                0 <= x % c < c,
                x < c * (r.max + 1),
                c >= 1,
        ;
        // lower bound
        if r.min <= 0 {
            lemma_div_pos_is_pos(x, c);
        } else {
            assert(q >= r.min) by (nonlinear_arith)
                requires
                    x == c * q + x % c,
                    0 <= x % c < c,
                    x >= c * r.min,
                    c >= 1,
            ;
        }
    } else {
        let x = (-r.sum) + h;
        let q = x / c;
        lemma_fundamental_div_mod(x, c);
        lemma_mod_bound(x, c);
        // the magnitude is below c * (-min + 1), so q <= -min
        assert(c * r.min <= r.sum);
        assert(c * ((-r.min) + 1) == -(c * r.min) + c) by (nonlinear_arith);
        assert(c * (-r.max) == -(c * r.max)) by (nonlinear_arith);
        assert(q <= -r.min) by (nonlinear_arith)
            requires
                x == c * q + x % c,
                0 <= x % c < c,
                x < c * ((-r.min) + 1),
                c >= 1,
        ;
        if r.max >= 0 {
            lemma_div_pos_is_pos(x, c);
        } else {
            assert(q >= -r.max) by (nonlinear_arith)
                requires
                    x == c * q + x % c,
                    0 <= x % c < c,
                    x >= c * (-r.max),
                    c >= 1,
            ;
        }
    }
}

/// The rounded mean of a record, computed on unsigned magnitudes.
pub fn mean_of(rec: &MeasurementRecord) -> (m: i16)
    requires
        rec_wf(rec@),
        rec@.count <= u64::MAX,
    ensures
        m as int == round_mean(rec@.sum, rec@.count),
        rec.min <= m <= rec.max,
{
    proof {
        lemma_mean_in_range(rec@);
        crate::record::lemma_sum_bounded(rec@);
    }
    let c: u128 = rec.count as u128;
    let h: u128 = c / 2;
    if rec.sum >= 0 {
        let x: u128 = rec.sum as u128 + h;
        let q: u128 = x / c;
        q as i16
    } else {
        let x: u128 = (-rec.sum) as u128 + h;
        let q: u128 = x / c;
        -(q as i16)
    }
}

/// The digit character of `n` (for `0 <= n <= 9`).
pub open spec fn digit_ch(n: int) -> u8 {
    (48 + n) as u8
}

/// A non-negative fixed-point magnitude rendered with one decimal digit:
/// one integer digit below ten point zero, three above.
pub open spec fn format_mag(m: int) -> Seq<u8> {
    if m >= 100 {
        seq![digit_ch(m / 100), digit_ch((m / 10) % 10), 46u8, digit_ch(m % 10)]
    } else {
        seq![digit_ch((m / 10) % 10), 46u8, digit_ch(m % 10)]
    }
}

/// A fixed-point value rendered with one decimal digit and an explicit
/// sign for negative values.
pub open spec fn format_fixed_spec(n: int) -> Seq<u8> {
    if n < 0 {
        seq![45u8] + format_mag(-n)
    } else {
        format_mag(n)
    }
}

/// Append the fixed-point rendering of `n` to `out`.
pub fn format_fixed_into(out: &mut Vec<u8>, n: i16)
    requires
        -999 <= n <= 999,
    ensures
        final(out)@ == old(out)@ + format_fixed_spec(n as int),
{
    let ghost base = old(out)@;
    let mag: u16 = if n < 0 {
        out.push(45);
        (-(n as i32)) as u16
    } else {
        n as u16
    };
    let ghost mid = out@;
    if mag >= 100 {
        out.push((mag / 100) as u8 + 48);
        out.push((mag / 10 % 10) as u8 + 48);
        out.push(46);
        out.push((mag % 10) as u8 + 48);
    } else {
        out.push((mag / 10 % 10) as u8 + 48);
        out.push(46);
        out.push((mag % 10) as u8 + 48);
    }
    proof {
        assert(out@ =~= mid + format_mag(mag as int));
        assert(out@ =~= base + format_fixed_spec(n as int));
    }
}

/// Byte-wise lexicographic order on keys.
pub open spec fn lex_le(a: Seq<u8>, b: Seq<u8>) -> bool
    decreases a.len(),
{
    if a.len() == 0 {
        true
    } else if b.len() == 0 {
        false
    } else if a[0] < b[0] {
        true
    } else if a[0] > b[0] {
        false
    } else {
        lex_le(a.drop_first(), b.drop_first())
    }
}

/// Any two keys are ordered one way or the other.
pub proof fn lemma_lex_total(a: Seq<u8>, b: Seq<u8>)
    ensures
        lex_le(a, b) || lex_le(b, a),
    decreases a.len(),
{
    if a.len() > 0 && b.len() > 0 && a[0] == b[0] {
        lemma_lex_total(a.drop_first(), b.drop_first());
    }
}

/// Every key is ordered with itself.
pub proof fn lemma_lex_refl(a: Seq<u8>)
    ensures
        lex_le(a, a),
    decreases a.len(),
{
    if a.len() > 0 {
        lemma_lex_refl(a.drop_first());
    }
}

/// The key order is transitive.
pub proof fn lemma_lex_trans(a: Seq<u8>, b: Seq<u8>, c: Seq<u8>)
    requires
        lex_le(a, b),
        lex_le(b, c),
    ensures
        lex_le(a, c),
    decreases a.len(),
{
    if a.len() > 0 {
        assert(b.len() > 0);
        assert(c.len() > 0);
        if a[0] == b[0] && b[0] == c[0] {
            lemma_lex_trans(a.drop_first(), b.drop_first(), c.drop_first());
        }
    }
}

/// Keys ordered both ways are equal.
pub proof fn lemma_lex_antisym(a: Seq<u8>, b: Seq<u8>)
    requires
        lex_le(a, b),
        lex_le(b, a),
    ensures
        a == b,
    decreases a.len(),
{
    if a.len() > 0 {
        assert(b.len() > 0);
        assert(a[0] == b[0]);
        lemma_lex_antisym(a.drop_first(), b.drop_first());
        assert(a =~= seq![a[0]] + a.drop_first());
        assert(b =~= seq![b[0]] + b.drop_first());
    } else {
        assert(b.len() == 0);
        assert(a =~= b);
    }
}

/// Decide `lex_le` on byte vectors.
pub fn lex_le_bytes(a: &Vec<u8>, b: &Vec<u8>) -> (r: bool)
    ensures
        r == lex_le(a@, b@),
{
    let mut i: usize = 0;
    proof {
        assert(a@.skip(0) =~= a@);
        assert(b@.skip(0) =~= b@);
    }
    while i < a.len() && i < b.len()
        invariant
            i <= a@.len(),
            i <= b@.len(),
            lex_le(a@, b@) == lex_le(a@.skip(i as int), b@.skip(i as int)),
        decreases a@.len() - i,
    {
        let x = a[i];
        let y = b[i];
        proof {
            assert(a@.skip(i as int)[0] == a@[i as int]);
            assert(b@.skip(i as int)[0] == b@[i as int]);
            assert(a@.skip(i as int).drop_first() =~= a@.skip(i as int + 1));
            assert(b@.skip(i as int).drop_first() =~= b@.skip(i as int + 1));
        }
        if x < y {
            return true;
        }
        if x > y {
            return false;
        }
        i = i + 1;
    }
    proof {
        if i >= a@.len() {
            assert(a@.skip(i as int).len() == 0);
        } else {
            assert(b@.skip(i as int).len() == 0);
            assert(a@.skip(i as int).len() > 0);
        }
    }
    a.len() <= b.len()
}

/// Sort entries ascending by byte-wise key order. Keeps exactly the same
/// entries, and keeps keys distinct when they were distinct.
pub fn sort_entries(es: Vec<(Vec<u8>, MeasurementRecord)>) -> (out: Vec<
    (Vec<u8>, MeasurementRecord),
>)
    requires
        forall|i: int, j: int| 0 <= i < j < es@.len() ==> es@[i].0@ != es@[j].0@,
    ensures
        out@.len() == es@.len(),
        forall|i: int, j: int| 0 <= i < j < out@.len() ==> lex_le(out@[i].0@, out@[j].0@),
        forall|i: int, j: int| 0 <= i < j < out@.len() ==> out@[i].0@ != out@[j].0@,
        forall|i: int| 0 <= i < out@.len() ==> es@.contains(#[trigger] out@[i]),
        forall|i: int| 0 <= i < es@.len() ==> out@.contains(#[trigger] es@[i]),
{
    let ghost orig = es@;
    let mut src = es;
    let mut out: Vec<(Vec<u8>, MeasurementRecord)> = Vec::new();
    while src.len() > 0
        invariant
            out@.len() + src@.len() == orig.len(),
            forall|i: int, j: int| 0 <= i < j < src@.len() ==> src@[i].0@ != src@[j].0@,
            forall|i: int, j: int| 0 <= i < j < out@.len() ==> out@[i].0@ != out@[j].0@,
            forall|i: int, j: int|
                0 <= i < out@.len() && 0 <= j < src@.len() ==> out@[i].0@ != src@[j].0@,
            forall|i: int, j: int| 0 <= i < j < out@.len() ==> lex_le(out@[i].0@, out@[j].0@),
            forall|i: int, j: int|
                0 <= i < out@.len() && 0 <= j < src@.len() ==> lex_le(out@[i].0@, src@[j].0@),
            forall|i: int| 0 <= i < out@.len() ==> orig.contains(#[trigger] out@[i]),
            forall|i: int| 0 <= i < src@.len() ==> orig.contains(#[trigger] src@[i]),
            forall|i: int|
                0 <= i < orig.len() ==> out@.contains(#[trigger] orig[i]) || src@.contains(
                    orig[i],
                ),
        decreases src@.len(),
    {
        // select the least remaining key
        let mut m: usize = 0;
        let mut j: usize = 1;
        proof {
            lemma_lex_refl(src@[0].0@);
        }
        while j < src.len()
            invariant
                src@.len() > 0,
                m < j <= src@.len(),
                forall|t: int| 0 <= t < j ==> lex_le(src@[m as int].0@, #[trigger] src@[t].0@),
            decreases src@.len() - j,
        {
            if !lex_le_bytes(&src[m].0, &src[j].0) {
                proof {
                    let ghost old_m = m as int;
                    lemma_lex_total(src@[old_m].0@, src@[j as int].0@);
                    assert forall|t: int| 0 <= t < j + 1 implies lex_le(
                        src@[j as int].0@,
                        #[trigger] src@[t].0@,
                    ) by {
                        if t < j {
                            lemma_lex_trans(src@[j as int].0@, src@[old_m].0@, src@[t].0@);
                        } else {
                            lemma_lex_refl(src@[j as int].0@);
                        }
                    }
                }
                m = j;
            } else {
                proof {
                    lemma_lex_refl(src@[j as int].0@);
                }
            }
            j = j + 1;
        }
        proof {
            lemma_lex_refl(src@[m as int].0@);
        }
        let ghost pre_src = src@;
        let ghost pre_out = out@;
        let picked = src.remove(m);
        out.push(picked);
        proof {
            let mi = m as int;
            assert(picked == pre_src[mi]);
            assert(src@ =~= pre_src.remove(mi));
            // every original entry is still in `out` or in `src`
            assert forall|i: int|
                0 <= i < orig.len() implies out@.contains(#[trigger] orig[i]) || src@.contains(
                orig[i],
            ) by {
                if pre_out.contains(orig[i]) {
                    let t = choose|t: int| 0 <= t < pre_out.len() && pre_out[t] == orig[i];
                    assert(out@[t] == orig[i]);
                } else {
                    let t = choose|t: int| 0 <= t < pre_src.len() && pre_src[t] == orig[i];
                    if t == mi {
                        assert(out@[out@.len() - 1] == orig[i]);
                    } else if t < mi {
                        assert(src@[t] == orig[i]);
                    } else {
                        assert(src@[t - 1] == orig[i]);
                    }
                }
            }
            // everything in `src` and `out` still comes from the original
            assert forall|i: int| 0 <= i < src@.len() implies orig.contains(
                #[trigger] src@[i],
            ) by {
                if i < mi {
                    assert(src@[i] == pre_src[i]);
                } else {
                    assert(src@[i] == pre_src[i + 1]);
                }
            }
            assert forall|i: int| 0 <= i < out@.len() implies orig.contains(
                #[trigger] out@[i],
            ) by {
                if i < out@.len() - 1 {
                    assert(out@[i] == pre_out[i]);
                }
            }
            // key distinctness and ordering across the moved element
            assert forall|i: int, j2: int|
                0 <= i < j2 < src@.len() implies src@[i].0@ != src@[j2].0@ by {
                let i0 = if i < mi {
                    i
                } else {
                    i + 1
                };
                let j0 = if j2 < mi {
                    j2
                } else {
                    j2 + 1
                };
                assert(src@[i] == pre_src[i0]);
                assert(src@[j2] == pre_src[j0]);
            }
            assert forall|i: int, j2: int|
                0 <= i < out@.len() && 0 <= j2 < src@.len() implies out@[i].0@
                != src@[j2].0@ by {
                let j0 = if j2 < mi {
                    j2
                } else {
                    j2 + 1
                };
                assert(src@[j2] == pre_src[j0]);
                if i < out@.len() - 1 {
                    assert(out@[i] == pre_out[i]);
                }
            }
            assert forall|i: int, j2: int|
                0 <= i < out@.len() && 0 <= j2 < src@.len() implies lex_le(
                out@[i].0@,
                src@[j2].0@,
            ) by {
                let j0 = if j2 < mi {
                    j2
                } else {
                    j2 + 1
                };
                assert(src@[j2] == pre_src[j0]);
                assert(lex_le(pre_src[mi].0@, pre_src[j0].0@));
                if i < out@.len() - 1 {
                    assert(out@[i] == pre_out[i]);
                }
            }
            assert forall|i: int, j2: int|
                0 <= i < j2 < out@.len() implies lex_le(out@[i].0@, out@[j2].0@) by {
                assert(out@[i] == pre_out[i]);
                if j2 < out@.len() - 1 {
                    assert(out@[j2] == pre_out[j2]);
                }
            }
            assert forall|i: int, j2: int|
                0 <= i < j2 < out@.len() implies out@[i].0@ != out@[j2].0@ by {
                assert(out@[i] == pre_out[i]);
                if j2 < out@.len() - 1 {
                    assert(out@[j2] == pre_out[j2]);
                }
            }
        }
    }
    out
}

/// One report line: `key;min;mean;max` and a line terminator.
pub open spec fn render_entry(k: Seq<u8>, r: RecModel) -> Seq<u8> {
    k + seq![SEMI] + format_fixed_spec(r.min) + seq![SEMI] + format_fixed_spec(
        round_mean(r.sum, r.count),
    ) + seq![SEMI] + format_fixed_spec(r.max) + seq![NL]
}

/// The report text of a sequence of entries, in order.
pub open spec fn render_entries(es: Seq<(Seq<u8>, RecModel)>) -> Seq<u8>
    decreases es.len(),
{
    if es.len() == 0 {
        Seq::empty()
    } else {
        render_entries(es.drop_last()) + render_entry(es.last().0, es.last().1)
    }
}

/// `es` lists exactly the entries of the model `m`, sorted ascending by
/// byte-wise key order, each key once.
pub open spec fn sorted_entries_of(es: Seq<(Seq<u8>, RecModel)>, m: AggModel) -> bool {
    &&& forall|i: int, j: int| 0 <= i < j < es.len() ==> lex_le(es[i].0, es[j].0)
    &&& forall|i: int, j: int| 0 <= i < j < es.len() ==> es[i].0 != es[j].0
    &&& forall|i: int|
        0 <= i < es.len() ==> m.dom().contains(#[trigger] es[i].0) && es[i].1 == m[es[i].0]
    &&& forall|k: Seq<u8>|
        #[trigger] m.dom().contains(k) ==> exists|i: int| 0 <= i < es.len() && #[trigger] es[i].0
            == k
}

/// Taking one more entry appends its line to the report.
proof fn lemma_render_take_step(es: Seq<(Seq<u8>, RecModel)>, i: int)
    requires
        0 <= i < es.len(),
    ensures
        render_entries(es.take(i + 1)) == render_entries(es.take(i)) + render_entry(
            es[i].0,
            es[i].1,
        ),
{
    assert(es.take(i + 1).drop_last() =~= es.take(i));
    assert(es.take(i + 1).last() == es[i]);
}

/// The deterministic report of an aggregation map: one line per key,
/// sorted ascending by key bytes.
pub fn render_report(map: &AggMap) -> (out: Vec<u8>)
    requires
        map.wf(),
    ensures
        exists|es: Seq<(Seq<u8>, RecModel)>|
            #[trigger] sorted_entries_of(es, map@) && out@ == render_entries(es),
{
    let raw = map.entries();
    let sorted = sort_entries(raw);
    let ghost raws = raw@;
    let ghost evs = sorted@.map_values(|p: (Vec<u8>, MeasurementRecord)| (p.0@, p.1@));
    proof {
        map.lemma_nrec_bound();
        assert forall|i: int|
            0 <= i < evs.len() implies map@.dom().contains(#[trigger] evs[i].0) && evs[i].1
            == map@[evs[i].0] by {
            assert(raws.contains(sorted@[i]));
            let t = choose|t: int| 0 <= t < raws.len() && raws[t] == sorted@[i];
            assert(raws[t].1@ == map@[raws[t].0@]);
        }
        assert forall|k: Seq<u8>| #[trigger] map@.dom().contains(k) implies exists|i: int|
            0 <= i < evs.len() && #[trigger] evs[i].0 == k by {
            let t = choose|t: int| 0 <= t < raws.len() && #[trigger] raws[t].0@ == k;
            assert(sorted@.contains(raws[t]));
            let u = choose|u: int| 0 <= u < sorted@.len() && sorted@[u] == raws[t];
            assert(evs[u].0 == k);
        }
        assert(sorted_entries_of(evs, map@));
    }
    let mut out: Vec<u8> = Vec::new();
    let n = sorted.len();
    let mut i: usize = 0;
    proof {
        assert(evs.take(0) =~= Seq::<(Seq<u8>, RecModel)>::empty());
    }
    while i < n
        invariant
            n == sorted@.len(),
            i <= n,
            evs == sorted@.map_values(|p: (Vec<u8>, MeasurementRecord)| (p.0@, p.1@)),
            map.wf(),
            map.nrec() <= u64::MAX,
            forall|t: int|
                0 <= t < evs.len() ==> map@.dom().contains(#[trigger] evs[t].0) && evs[t].1
                    == map@[evs[t].0],
            out@ == render_entries(evs.take(i as int)),
        decreases n - i,
    {
        let ghost pre = out@;
        let key: &Vec<u8> = &sorted[i].0;
        let rec: MeasurementRecord = sorted[i].1;
        proof {
            assert(evs[i as int] == (sorted@[i as int].0@, sorted@[i as int].1@));
            assert(map@.dom().contains(evs[i as int].0));
            assert(rec@ == map@[evs[i as int].0]);
            assert(rec_wf(rec@));
            assert(rec@.count <= map.nrec());
        }
        out.extend_from_slice(key.as_slice());
        out.push(SEMI);
        format_fixed_into(&mut out, rec.min);
        out.push(SEMI);
        let m = mean_of(&rec);
        format_fixed_into(&mut out, m);
        out.push(SEMI);
        format_fixed_into(&mut out, rec.max);
        out.push(NL);
        proof {
            lemma_render_take_step(evs, i as int);
            assert(out@ =~= pre + render_entry(evs[i as int].0, evs[i as int].1));
        }
        i = i + 1;
    }
    proof {
        assert(evs.take(n as int) =~= evs);
    }
    out
}

/// The sorted entry list of a model is unique: the report is a function
/// of the aggregated statistics alone.
pub proof fn lemma_sorted_entries_unique(
    es1: Seq<(Seq<u8>, RecModel)>,
    es2: Seq<(Seq<u8>, RecModel)>,
    m: AggModel,
)
    requires
        sorted_entries_of(es1, m),
        sorted_entries_of(es2, m),
    ensures
        es1 == es2,
    decreases es1.len(),
{
    if es1.len() == 0 {
        if es2.len() > 0 {
            assert(m.dom().contains(es2[0].0));
            let i = choose|i: int| 0 <= i < es1.len() && es1[i].0 == es2[0].0;
            assert(false);
        }
        assert(es1 =~= es2);
    } else {
        if es2.len() == 0 {
            assert(m.dom().contains(es1[0].0));
            let i = choose|i: int| 0 <= i < es2.len() && es2[i].0 == es1[0].0;
            assert(false);
        }
        // both heads carry the least key of the model
        let k = es1[0].0;
        assert(m.dom().contains(k));
        let j2 = choose|j: int| 0 <= j < es2.len() && es2[j].0 == k;
        assert(lex_le(es2[0].0, es2[j2].0)) by {
            if j2 > 0 {
            } else {
                lemma_lex_refl(es2[0].0);
            }
        }
        let k2 = es2[0].0;
        assert(m.dom().contains(k2));
        let j1 = choose|j: int| 0 <= j < es1.len() && es1[j].0 == k2;
        assert(lex_le(es1[0].0, es1[j1].0)) by {
            if j1 > 0 {
            } else {
                lemma_lex_refl(es1[0].0);
            }
        }
        lemma_lex_antisym(k, k2);
        assert(es1[0] == es2[0]);
        // the tails list the model without that key
        let m2 = m.remove(k);
        let t1 = es1.drop_first();
        let t2 = es2.drop_first();
        assert forall|i: int|
            0 <= i < t1.len() implies m2.dom().contains(#[trigger] t1[i].0) && t1[i].1
            == m2[t1[i].0] by {
            assert(t1[i] == es1[i + 1]);
            assert(es1[i + 1].0 != es1[0].0);
        }
        assert forall|i: int|
            0 <= i < t2.len() implies m2.dom().contains(#[trigger] t2[i].0) && t2[i].1
            == m2[t2[i].0] by {
            assert(t2[i] == es2[i + 1]);
            assert(es2[i + 1].0 != es2[0].0);
        }
        assert forall|kk: Seq<u8>| #[trigger] m2.dom().contains(kk) implies exists|i: int|
            0 <= i < t1.len() && #[trigger] t1[i].0 == kk by {
            let i = choose|i: int| 0 <= i < es1.len() && #[trigger] es1[i].0 == kk;
            assert(i != 0);
            assert(t1[i - 1].0 == kk);
        }
        assert forall|kk: Seq<u8>| #[trigger] m2.dom().contains(kk) implies exists|i: int|
            0 <= i < t2.len() && #[trigger] t2[i].0 == kk by {
            let i = choose|i: int| 0 <= i < es2.len() && #[trigger] es2[i].0 == kk;
            assert(i != 0);
            assert(t2[i - 1].0 == kk);
        }
        assert forall|i: int, j: int| 0 <= i < j < t1.len() implies lex_le(t1[i].0, t1[j].0)
            && t1[i].0 != t1[j].0 by {
            assert(t1[i] == es1[i + 1] && t1[j] == es1[j + 1]);
        }
        assert forall|i: int, j: int| 0 <= i < j < t2.len() implies lex_le(t2[i].0, t2[j].0)
            && t2[i].0 != t2[j].0 by {
            assert(t2[i] == es2[i + 1] && t2[j] == es2[j + 1]);
        }
        assert(sorted_entries_of(t1, m2));
        assert(sorted_entries_of(t2, m2));
        lemma_sorted_entries_unique(t1, t2, m2);
        assert(es1 =~= seq![es1[0]] + t1);
        assert(es2 =~= seq![es2[0]] + t2);
    }
}

} // verus!
