//! Driving one aggregation pass: every boundary-adjusted span is parsed
//! into a partial map, the partial maps merge into one global map, and the
//! global map renders as the sorted report.

use vstd::prelude::*;
use crate::aggmap::AggMap;
use crate::model::{agg_empty, agg_seq, lemma_split_merge};
use crate::parse::{
    NL, ParseError, find_byte, keys_clean, lemma_clean_scan, lemma_find_byte,
    lemma_records_boundary, lemma_records_len, process_span, records_from, scan_end,
};
use crate::partition::{
    adjust_span, adjusted_end, adjusted_span, boundaries_wf, lemma_adjusted_span_bounds,
    lemma_boundaries_in_range, lemma_boundaries_monotone, lemma_find_byte_extend,
};
use crate::output::{render_entries, render_report, sorted_entries_of};
use crate::record::RecModel;

verus! {

/// The records of every boundary-adjusted span from chunk `i` on,
/// concatenated in chunk order; nothing when any span is malformed.
pub open spec fn chunks_records(d: Seq<u8>, bs: Seq<int>, i: int) -> Option<Seq<(Seq<u8>, int)>>
    decreases bs.len() - i,
{
    if i < 0 || i + 1 >= bs.len() {
        Some(Seq::empty())
    } else {
        let sp = adjusted_span(d, bs[i], bs[i + 1]);
        match records_from(d, sp.0, sp.1) {
            None => None,
            Some(rs) => match chunks_records(d, bs, i + 1) {
                None => None,
                Some(rest) => Some(rs + rest),
            },
        }
    }
}

/// A boundary list fit for one aggregation pass: well-formed, and its
/// second entry (when there is one) leaves the first raw span nonempty, so
/// that no two spans start at byte zero.
pub open spec fn pass_boundaries(bs: Seq<int>, len: int) -> bool {
    &&& boundaries_wf(bs, len)
    &&& bs.len() >= 2 ==> (len == 0 || bs[1] > 0)
}

/// Process every boundary-adjusted span into its own partial map and
/// merge the partials, in order, into one global map.
pub fn aggregate_all(data: &Vec<u8>, bounds: &Vec<usize>) -> (r: Result<AggMap, ParseError>)
    requires
        pass_boundaries(bounds@.map_values(|b: usize| b as int), data@.len() as int),
        data@.len() < u64::MAX,
    ensures
        ({
            let bsv = bounds@.map_values(|b: usize| b as int);
            match r {
                Ok(m) => {
                    &&& m.wf()
                    &&& chunks_records(data@, bsv, 0) is Some
                    &&& m@ == agg_seq(agg_empty(), chunks_records(data@, bsv, 0).unwrap())
                    &&& m.nrec() == chunks_records(data@, bsv, 0).unwrap().len()
                },
                Err(err) => {
                    &&& chunks_records(data@, bsv, 0) is None
                    &&& err.offset <= data@.len()
                },
            }
        }),
{
    let ghost d = data@;
    let ghost bsv = bounds@.map_values(|b: usize| b as int);
    let ghost len_i = data@.len() as int;
    let mut global = AggMap::new();
    let ghost mut acc: Seq<(Seq<u8>, int)> = Seq::empty();
    let ghost mut pe: int = -1;
    let n = bounds.len();
    let mut i: usize = 0;
    proof {
        if chunks_records(d, bsv, 0) is Some {
            assert(acc + chunks_records(d, bsv, 0).unwrap() =~= chunks_records(
                d,
                bsv,
                0,
            ).unwrap());
        }
    }
    while i + 1 < n
        invariant
            n == bounds@.len(),
            bsv == bounds@.map_values(|b: usize| b as int),
            pass_boundaries(bsv, len_i),
            d == data@,
            len_i == data@.len() as int,
            len_i < u64::MAX,
            i < n,
            global.wf(),
            global@ == agg_seq(agg_empty(), acc),
            global.nrec() == acc.len(),
            acc.len() <= pe + 1,
            -1 <= pe <= len_i,
            (bsv[i as int] == 0 && pe == -1) || (bsv[i as int] > 0 && pe == adjusted_end(
                d,
                bsv[i as int],
            )),
            chunks_records(d, bsv, 0) == (match chunks_records(d, bsv, i as int) {
                None => None::<Seq<(Seq<u8>, int)>>,
                Some(rest) => Some(acc + rest),
            }),
        decreases n - i,
    {
        let b0 = bounds[i];
        let b1 = bounds[i + 1];
        proof {
            assert(bsv.len() == bounds@.len());
            lemma_boundaries_in_range(bsv, len_i, i as int);
            lemma_boundaries_in_range(bsv, len_i, i as int + 1);
            assert(bsv[i as int] == b0 as int);
            assert(bsv[i as int + 1] == b1 as int);
            assert(bsv[i as int] <= bsv[i as int + 1]);
            lemma_adjusted_span_bounds(d, b0 as int, b1 as int);
        }
        let span = adjust_span(data, b0, b1);
        let s = span.0;
        let e = span.1;
        let mut part = AggMap::new();
        match process_span(data, s, e, &mut part) {
            Ok(()) => {},
            Err(err) => {
                proof {
                    assert((s as int, e as int) == adjusted_span(
                        d,
                        bsv[i as int],
                        bsv[i as int + 1],
                    ));
                    assert(records_from(d, s as int, e as int) is None);
                    assert(chunks_records(d, bsv, i as int) is None);
                }
                return Err(err);
            },
        }
        let ghost rs = records_from(d, s as int, e as int).unwrap();
        proof {
            lemma_records_len(d, s as int, e as int);
            assert(s as int == adjusted_span(d, b0 as int, b1 as int).0);
            assert(e as int == adjusted_span(d, b0 as int, b1 as int).1);
            lemma_find_byte(d, NL, b0 as int, b1 as int);
            lemma_find_byte_extend(d, NL, b0 as int, b1 as int, d.len() as int);
            lemma_find_byte(d, NL, b1 as int, d.len() as int);
            // where the span sits relative to the covered prefix
            if b0 == 0 {
                assert(acc.len() == 0);
                assert(e as int == adjusted_end(d, b1 as int));
            } else {
                match find_byte(d, NL, b0 as int, b1 as int) {
                    Some(i0) => {
                        assert(s as int == i0 + 1);
                        assert(adjusted_end(d, b0 as int) == i0);
                        assert(e as int == adjusted_end(d, b1 as int));
                    },
                    None => {
                        assert(s == e);
                        assert(adjusted_end(d, b0 as int) == adjusted_end(d, b1 as int));
                    },
                }
            }
            assert(acc.len() + rs.len() <= adjusted_end(d, b1 as int) + 1);
            assert(adjusted_end(d, b1 as int) <= len_i);
            assert(acc.len() + rs.len() <= u64::MAX);
        }
        global.merge_into(&part);
        proof {
            lemma_split_merge(acc, rs);
            // fold this span's records into the running decomposition
            assert(chunks_records(d, bsv, i as int) == (match chunks_records(
                d,
                bsv,
                i as int + 1,
            ) {
                None => None::<Seq<(Seq<u8>, int)>>,
                Some(rest2) => Some(rs + rest2),
            }));
            if chunks_records(d, bsv, i as int + 1) is Some {
                let rest2 = chunks_records(d, bsv, i as int + 1).unwrap();
                assert(acc + (rs + rest2) =~= (acc + rs) + rest2);
            }
            acc = acc + rs;
            // the newline closing the covered prefix moves to this span's end
            if b1 as int == 0 {
                if i as int + 1 >= 2 {
                    lemma_boundaries_monotone(bsv, len_i, 1, i as int + 1);
                }
                assert(len_i == 0);
                pe = -1;
                assert(acc.len() == 0);
            } else {
                pe = adjusted_end(d, b1 as int);
            }
        }
        i = i + 1;
    }
    proof {
        assert(i as int == n - 1);
        assert(chunks_records(d, bsv, i as int) == Some(Seq::<(Seq<u8>, int)>::empty()));
        assert(acc + Seq::<(Seq<u8>, int)>::empty() =~= acc);
    }
    Ok(global)
}

/// One whole pass: aggregate every span, then render the sorted report.
pub fn run_report(data: &Vec<u8>, bounds: &Vec<usize>) -> (r: Result<Vec<u8>, ParseError>)
    requires
        pass_boundaries(bounds@.map_values(|b: usize| b as int), data@.len() as int),
        data@.len() < u64::MAX,
    ensures
        ({
            let bsv = bounds@.map_values(|b: usize| b as int);
            match r {
                Ok(out) => {
                    &&& chunks_records(data@, bsv, 0) is Some
                    &&& exists|es: Seq<(Seq<u8>, RecModel)>|
                        #[trigger] sorted_entries_of(
                            es,
                            agg_seq(agg_empty(), chunks_records(data@, bsv, 0).unwrap()),
                        ) && out@ == render_entries(es)
                },
                Err(err) => {
                    &&& chunks_records(data@, bsv, 0) is None
                    &&& err.offset <= data@.len()
                },
            }
        }),
{
    match aggregate_all(data, bounds) {
        Ok(m) => Ok(render_report(&m)),
        Err(err) => Err(err),
    }
}

/// The adjusted span of `[b0, b1)` lines up with the rest of the buffer:
/// it runs to the end of the buffer, or its scan lands one past the
/// newline that closes it, or its raw span holds no newline at all and it
/// yields nothing. This holds of every span whenever each newline in the
/// buffer terminates a record — in particular when no line is empty and
/// no key byte is a line terminator.
pub open spec fn span_aligned(d: Seq<u8>, b0: int, b1: int) -> bool {
    let sp = adjusted_span(d, b0, b1);
    ||| sp.1 == d.len()
    ||| scan_end(d, sp.0, sp.1) == sp.1 + 1
    ||| (b0 > 0 && find_byte(d, NL, b0, b1) is None)
}

/// Once no newline remains at or after `bs[j]`, every later span yields
/// no records at all.
proof fn lemma_chunks_after_end(d: Seq<u8>, bs: Seq<int>, j: int)
    requires
        pass_boundaries(bs, d.len() as int),
        1 <= j <= bs.len() - 1,
        bs[j] > 0 || d.len() == 0,
        find_byte(d, NL, bs[j], d.len() as int) is None,
    ensures
        chunks_records(d, bs, j) == Some(Seq::<(Seq<u8>, int)>::empty()),
    decreases bs.len() - j,
{
    let len = d.len() as int;
    lemma_find_byte(d, NL, bs[j], len);
    if j < bs.len() - 1 {
        lemma_boundaries_in_range(bs, len, j);
        lemma_boundaries_in_range(bs, len, j + 1);
        assert(bs[j] <= bs[j + 1]);
        let sp = adjusted_span(d, bs[j], bs[j + 1]);
        if bs[j] == 0 {
            assert(len == 0);
            assert(find_byte(d, NL, 0, 0) is None);
            assert(sp == (0int, 0int));
        } else {
            lemma_find_byte(d, NL, bs[j], bs[j + 1]);
            if find_byte(d, NL, bs[j], bs[j + 1]) is Some {
                let k = find_byte(d, NL, bs[j], bs[j + 1]).unwrap();
                assert(d[k] != NL);
                assert(false);
            }
            assert(sp == (bs[j + 1], bs[j + 1]));
        }
        assert(records_from(d, sp.0, sp.1) == Some(Seq::<(Seq<u8>, int)>::empty()));
        assert(find_byte(d, NL, bs[j + 1], len) is None) by {
            lemma_find_byte(d, NL, bs[j + 1], len);
            if find_byte(d, NL, bs[j + 1], len) is Some {
                let k = find_byte(d, NL, bs[j + 1], len).unwrap();
                assert(d[k] != NL);
                assert(false);
            }
        }
        assert(bs[j + 1] > 0 || len == 0);
        lemma_chunks_after_end(d, bs, j + 1);
        assert(Seq::<(Seq<u8>, int)>::empty() + Seq::<(Seq<u8>, int)>::empty()
            =~= Seq::<(Seq<u8>, int)>::empty());
    }
}

/// From span `i` on, the records of the spans concatenate to the records
/// the sequential scan reads from the first uncovered position.
#[verifier::rlimit(80)]
proof fn lemma_chunks_from(d: Seq<u8>, bs: Seq<int>, i: int)
    requires
        pass_boundaries(bs, d.len() as int),
        0 <= i <= bs.len() - 1,
        chunks_records(d, bs, i) is Some,
        forall|j: int| i <= j < bs.len() - 1 ==> #[trigger] span_aligned(d, bs[j], bs[j + 1]),
    ensures
        records_from(
            d,
            if bs[i] == 0 {
                0
            } else {
                adjusted_end(d, bs[i]) + 1
            },
            d.len() as int,
        ) == chunks_records(d, bs, i),
    decreases bs.len() - i,
{
    let len = d.len() as int;
    let q: int = if bs[i] == 0 {
        0
    } else {
        adjusted_end(d, bs[i]) + 1
    };
    lemma_boundaries_in_range(bs, len, i);
    lemma_find_byte(d, NL, bs[i], len);
    if i == bs.len() - 1 {
        assert(bs[i] == len);
        assert(q >= len);
        assert(records_from(d, q, len) == Some(Seq::<(Seq<u8>, int)>::empty()));
    } else {
        let b0 = bs[i];
        let b1 = bs[i + 1];
        lemma_boundaries_in_range(bs, len, i + 1);
        assert(b0 <= b1);
        let sp = adjusted_span(d, b0, b1);
        let s = sp.0;
        let e = sp.1;
        let rs = records_from(d, s, e).unwrap();
        assert(records_from(d, s, e) is Some && chunks_records(d, bs, i + 1) is Some);
        let rest = chunks_records(d, bs, i + 1).unwrap();
        assert(chunks_records(d, bs, i) == Some(rs + rest));
        lemma_find_byte(d, NL, b0, b1);
        lemma_find_byte_extend(d, NL, b0, b1, len);
        lemma_find_byte(d, NL, b1, len);
        assert(span_aligned(d, b0, b1));
        if b0 > 0 && find_byte(d, NL, b0, b1) is None {
            // nothing of this raw span is ours; the covered prefix is unchanged
            assert(s == b1 && e == b1);
            assert(rs =~= Seq::<(Seq<u8>, int)>::empty());
            assert(adjusted_end(d, b0) == adjusted_end(d, b1));
            assert(b1 > 0);
            lemma_chunks_from(d, bs, i + 1);
            assert(rs + rest =~= rest);
        } else {
            // the span starts where the covered prefix ends
            assert(q == s);
            assert(e == adjusted_end(d, b1));
            if e == len {
                assert(records_from(d, q, len) == Some(rs));
                assert(b1 > 0 || len == 0) by {
                    if b1 == 0 {
                        lemma_boundaries_in_range(bs, len, 1);
                        lemma_boundaries_monotone(bs, len, 1, i + 1);
                    }
                }
                assert(find_byte(d, NL, b1, len) is None);
                lemma_chunks_after_end(d, bs, i + 1);
                assert(rs + rest =~= rs);
            } else {
                assert(find_byte(d, NL, b1, len) == Some(e));
                assert(d[e] == NL);
                assert(scan_end(d, s, e) == e + 1);
                lemma_records_boundary(d, s, e, len);
                assert(b1 > 0) by {
                    if b1 == 0 {
                        lemma_boundaries_in_range(bs, len, 1);
                        lemma_boundaries_monotone(bs, len, 1, i + 1);
                        assert(len == 0);
                    }
                }
                assert(adjusted_end(d, b1) + 1 == e + 1);
                lemma_chunks_from(d, bs, i + 1);
                assert(records_from(d, e + 1, len) == Some(rest));
                assert(records_from(d, q, len) == Some(rs + rest));
            }
        }
    }
}

/// Splitting the buffer does not change what is read: when every span
/// lines up with the buffer's newlines, the spans' records concatenate to
/// exactly the records of one sequential scan, so the aggregated result —
/// by the merge lemmas — is the sequential one, for every worker count
/// and both partitioning strategies.
pub proof fn lemma_partition_equals_whole(d: Seq<u8>, bs: Seq<int>)
    requires
        pass_boundaries(bs, d.len() as int),
        chunks_records(d, bs, 0) is Some,
        forall|j: int| 0 <= j < bs.len() - 1 ==> #[trigger] span_aligned(d, bs[j], bs[j + 1]),
    ensures
        records_from(d, 0, d.len() as int) == chunks_records(d, bs, 0),
{
    lemma_chunks_from(d, bs, 0);
}

/// The records of one boundary-adjusted span.
pub open spec fn span_records(d: Seq<u8>, b0: int, b1: int) -> Option<Seq<(Seq<u8>, int)>> {
    let sp = adjusted_span(d, b0, b1);
    records_from(d, sp.0, sp.1)
}

/// In a buffer that scans completely with newline-free keys, every raw
/// span's adjusted span lines up and parses.
proof fn lemma_clean_span(d: Seq<u8>, b0: int, b1: int)
    requires
        0 <= b0 <= b1 <= d.len(),
        records_from(d, 0, d.len() as int) is Some,
        keys_clean(records_from(d, 0, d.len() as int).unwrap()),
    ensures
        span_aligned(d, b0, b1),
        span_records(d, b0, b1) is Some,
{
    let len = d.len() as int;
    let sp = adjusted_span(d, b0, b1);
    lemma_find_byte(d, NL, b0, b1);
    lemma_find_byte(d, NL, b1, len);
    if b0 == 0 {
        let e = sp.1;
        if e == len {
            assert(sp.0 == 0);
        } else {
            assert(d[e] == NL);
            lemma_clean_scan(d, 0, e);
        }
    } else {
        match find_byte(d, NL, b0, b1) {
            None => {
                assert(sp == (b1, b1));
            },
            Some(k) => {
                assert(d[k] == NL && k < len);
                lemma_clean_scan(d, 0, k);
                let e = sp.1;
                assert(sp.0 == k + 1);
                if e == len {
                } else {
                    assert(d[e] == NL);
                    assert(k + 1 <= b1 <= e);
                    lemma_clean_scan(d, k + 1, e);
                }
            },
        }
    }
}

/// When every span parses, the whole pass parses.
proof fn lemma_chunks_some(d: Seq<u8>, bs: Seq<int>, i: int)
    requires
        0 <= i <= bs.len() - 1,
        forall|j: int| i <= j < bs.len() - 1 ==> #[trigger] span_records(d, bs[j], bs[j + 1])
            is Some,
    ensures
        chunks_records(d, bs, i) is Some,
    decreases bs.len() - i,
{
    if i < bs.len() - 1 {
        assert(span_records(d, bs[i], bs[i + 1]) is Some);
        lemma_chunks_some(d, bs, i + 1);
    }
}

/// The headline guarantee: over any buffer that scans completely with
/// newline-free keys, every spanning — any worker count of the static
/// strategy, any span size of the work-stealing strategy, or any other
/// well-formed cut — reads exactly the records of one sequential scan, so
/// the aggregated statistics are those of sequential processing.
pub proof fn lemma_clean_partition(d: Seq<u8>, bs: Seq<int>)
    requires
        pass_boundaries(bs, d.len() as int),
        records_from(d, 0, d.len() as int) is Some,
        keys_clean(records_from(d, 0, d.len() as int).unwrap()),
    ensures
        chunks_records(d, bs, 0) == records_from(d, 0, d.len() as int),
{
    let len = d.len() as int;
    assert forall|j: int| 0 <= j < bs.len() - 1 implies #[trigger] span_aligned(
        d,
        bs[j],
        bs[j + 1],
    ) by {
        lemma_boundaries_in_range(bs, len, j);
        lemma_boundaries_in_range(bs, len, j + 1);
        assert(bs[j] <= bs[j + 1]);
        lemma_clean_span(d, bs[j], bs[j + 1]);
    }
    assert forall|j: int| 0 <= j < bs.len() - 1 implies #[trigger] span_records(
        d,
        bs[j],
        bs[j + 1],
    ) is Some by {
        lemma_boundaries_in_range(bs, len, j);
        lemma_boundaries_in_range(bs, len, j + 1);
        assert(bs[j] <= bs[j + 1]);
        lemma_clean_span(d, bs[j], bs[j + 1]);
    }
    lemma_chunks_some(d, bs, 0);
    lemma_partition_equals_whole(d, bs);
}

/// Any two spannings that line up with the buffer's newlines read the
/// same records, so every worker count and both partitioning strategies
/// aggregate to the same final statistics.
pub proof fn lemma_any_partition_same_records(d: Seq<u8>, bs1: Seq<int>, bs2: Seq<int>)
    requires
        pass_boundaries(bs1, d.len() as int),
        pass_boundaries(bs2, d.len() as int),
        chunks_records(d, bs1, 0) is Some,
        chunks_records(d, bs2, 0) is Some,
        forall|j: int| 0 <= j < bs1.len() - 1 ==> #[trigger] span_aligned(d, bs1[j], bs1[j + 1]),
        forall|j: int| 0 <= j < bs2.len() - 1 ==> #[trigger] span_aligned(d, bs2[j], bs2[j + 1]),
    ensures
        chunks_records(d, bs1, 0) == chunks_records(d, bs2, 0),
{
    lemma_partition_equals_whole(d, bs1);
    lemma_partition_equals_whole(d, bs2);
}

/// With the single span `[0, len)`, the pass sees exactly the records of
/// the whole buffer.
pub proof fn lemma_single_chunk(d: Seq<u8>)
    ensures
        chunks_records(d, seq![0int, d.len() as int], 0) == records_from(d, 0, d.len() as int),
{
    let bs = seq![0int, d.len() as int];
    assert(bs[0] == 0 && bs[1] == d.len() as int);
    let sp = adjusted_span(d, 0, d.len() as int);
    assert(find_byte(d, NL, d.len() as int, d.len() as int) is None);
    assert(sp == (0int, d.len() as int));
    assert(chunks_records(d, bs, 1) == Some(Seq::<(Seq<u8>, int)>::empty()));
    if records_from(d, 0, d.len() as int) is Some {
        let rs = records_from(d, 0, d.len() as int).unwrap();
        assert(rs + Seq::<(Seq<u8>, int)>::empty() =~= rs);
    }
}

/// One sequential pass over the whole buffer.
pub fn run_sequential(data: &Vec<u8>) -> (r: Result<Vec<u8>, ParseError>)
    requires
        data@.len() < u64::MAX,
    ensures
        match r {
            Ok(out) => {
                &&& records_from(data@, 0, data@.len() as int) is Some
                &&& exists|es: Seq<(Seq<u8>, RecModel)>|
                    #[trigger] sorted_entries_of(
                        es,
                        agg_seq(
                            agg_empty(),
                            records_from(data@, 0, data@.len() as int).unwrap(),
                        ),
                    ) && out@ == render_entries(es)
            },
            Err(err) => {
                &&& records_from(data@, 0, data@.len() as int) is None
                &&& err.offset <= data@.len()
            },
        },
{
    let mut bounds: Vec<usize> = Vec::new();
    bounds.push(0);
    bounds.push(data.len());
    proof {
        assert(bounds@.map_values(|b: usize| b as int) =~= seq![0int, data@.len() as int]);
        lemma_single_chunk(data@);
    }
    run_report(data, &bounds)
}

} // verus!
