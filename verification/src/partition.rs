//! The chunk partitioner: raw byte spans are boundary-adjusted to the
//! nearest line terminators, so that every line belongs to exactly one
//! span and no line is ever split between two workers.

use vstd::prelude::*;
use crate::parse::{NL, find_byte, find_byte_in, lemma_find_byte};

verus! {

/// The adjusted end of a span whose raw end is `b`: the position of the
/// first newline at or after `b`, or the end of the buffer.
pub open spec fn adjusted_end(d: Seq<u8>, b: int) -> int {
    match find_byte(d, NL, b, d.len() as int) {
        Some(i) => i,
        None => d.len() as int,
    }
}

/// The adjusted span of the raw span `[start, end)`. A raw start other
/// than zero moves just past the first newline of the raw span, so no
/// partial line is processed twice; when the raw span holds no newline at
/// all, the span yields no lines. The end always extends to the next line
/// terminator, or to the end of the buffer.
pub open spec fn adjusted_span(d: Seq<u8>, start: int, end: int) -> (int, int) {
    if start == 0 {
        (0, adjusted_end(d, end))
    } else {
        match find_byte(d, NL, start, end) {
            Some(i) => (i + 1, adjusted_end(d, end)),
            None => (end, end),
        }
    }
}

/// Searching a range is searching a front part, then the rest.
pub proof fn lemma_find_byte_extend(d: Seq<u8>, c: u8, from: int, mid: int, end: int)
    requires
        from <= mid <= end,
    ensures
        find_byte(d, c, from, end) == (match find_byte(d, c, from, mid) {
            Some(i) => Some(i),
            None => find_byte(d, c, mid, end),
        }),
    decreases mid - from,
{
    if from < mid && d[from] != c {
        lemma_find_byte_extend(d, c, from + 1, mid, end);
    }
}

/// The adjusted span sits inside the buffer, and its end never precedes
/// its start.
pub proof fn lemma_adjusted_span_bounds(d: Seq<u8>, start: int, end: int)
    requires
        0 <= start <= end <= d.len(),
    ensures
        ({
            let (s, e) = adjusted_span(d, start, end);
            &&& 0 <= s
            &&& s <= e
            &&& e <= d.len()
            &&& end <= e || (s == e)
        }),
{
    lemma_find_byte(d, NL, start, end);
    lemma_find_byte(d, NL, end, d.len() as int);
}

/// Boundary-adjust the raw span `[start, end)`.
pub fn adjust_span(data: &Vec<u8>, start: usize, end: usize) -> (r: (usize, usize))
    requires
        start <= end <= data@.len(),
    ensures
        (r.0 as int, r.1 as int) == adjusted_span(data@, start as int, end as int),
        r.0 <= r.1 <= data@.len(),
{
    proof {
        lemma_adjusted_span_bounds(data@, start as int, end as int);
    }
    let e = match find_byte_in(data, NL, end, data.len()) {
        Some(i) => i,
        None => data.len(),
    };
    if start == 0 {
        (0, e)
    } else {
        match find_byte_in(data, NL, start, end) {
            Some(i) => (i + 1, e),
            None => (end, end),
        }
    }
}

/// A boundary list cuts the buffer into consecutive raw spans: it starts
/// at zero, ends at the buffer length, and never steps backwards.
pub open spec fn boundaries_wf(bs: Seq<int>, len: int) -> bool {
    &&& bs.len() >= 1
    &&& bs[0] == 0
    &&& bs[bs.len() - 1] == len
    &&& forall|i: int| 0 <= i < bs.len() - 1 ==> #[trigger] bs[i] <= bs[i + 1]
}

/// Boundaries are bounded by the buffer length.
pub proof fn lemma_boundaries_in_range(bs: Seq<int>, len: int, i: int)
    requires
        boundaries_wf(bs, len),
        0 <= i < bs.len(),
    ensures
        0 <= bs[i] <= len,
    decreases bs.len(),
{
    if i < bs.len() - 1 {
        lemma_boundaries_monotone(bs, len, i, bs.len() - 1);
        lemma_boundaries_monotone(bs, len, 0, i);
    } else {
        lemma_boundaries_monotone(bs, len, 0, i);
    }
}

/// Boundaries never decrease between any two positions.
pub proof fn lemma_boundaries_monotone(bs: Seq<int>, len: int, i: int, j: int)
    requires
        boundaries_wf(bs, len),
        0 <= i <= j < bs.len(),
    ensures
        bs[i] <= bs[j],
    decreases j - i,
{
    if i < j {
        lemma_boundaries_monotone(bs, len, i + 1, j);
    }
}

/// The raw spans of the static strategy: the buffer divided into
/// `workers` nearly even consecutive spans.
pub fn static_boundaries(len: usize, workers: usize) -> (r: Vec<usize>)
    requires
        workers >= 1,
    ensures
        boundaries_wf(r@.map_values(|b: usize| b as int), len as int),
        r@.len() == workers + 1,
{
    let per: usize = len / workers;
    let rem: usize = len % workers;
    let mut out: Vec<usize> = Vec::new();
    let mut b: usize = 0;
    out.push(0);
    let mut i: usize = 0;
    proof {
        vstd::arithmetic::div_mod::lemma_fundamental_div_mod(len as int, workers as int);
    }
    while i < workers
        invariant
            workers >= 1,
            i <= workers,
            per == len / workers,
            rem == len % workers,
            rem < workers,
            len == per * workers + rem,
            out@.len() == i + 1,
            out@[0] == 0,
            b == out@[i as int],
            b == i * per + (if i <= rem {
                i as int
            } else {
                rem as int
            }),
            b <= len,
            forall|j: int| 0 <= j < out@.len() - 1 ==> #[trigger] out@[j] <= out@[j + 1],
            forall|j: int| 0 <= j < out@.len() ==> #[trigger] out@[j] <= len,
        decreases workers - i,
    {
        proof {
            if i < rem {
                assert(per + 1 <= len) by (nonlinear_arith)
                    requires
                        len == per * workers + rem,
                        0 <= i < rem,
                        rem < workers,
                        0 <= per,
                ;
            }
        }
        let step: usize = if i < rem {
            per + 1
        } else {
            per
        };
        proof {
            assert((i + 1) * per + (if i + 1 <= rem {
                i + 1
            } else {
                rem as int
            }) <= workers * per + rem) by (nonlinear_arith)
                requires
                    0 <= i < workers,
                    0 <= per,
                    0 <= rem < workers,
            ;
            assert(workers * per + rem == len) by {
                assert(len == per * workers + rem);
                assert(per * workers == workers * per) by (nonlinear_arith);
            }
            assert(i * per + per == (i + 1) * per) by (nonlinear_arith);
        }
        b = b + step;
        out.push(b);
        i = i + 1;
    }
    proof {
        assert(workers * per + rem == len) by {
            assert(len == per * workers + rem);
            assert(per * workers == workers * per) by (nonlinear_arith);
        }
        assert(out@[workers as int] == len);
        assert(out@.map_values(|x: usize| x as int).len() == out@.len());
    }
    out
}

/// The raw spans of the work-stealing strategy: consecutive fixed-size
/// spans, the last one clipped to the buffer end. A buffer whose length is
/// an exact multiple of the span size gets no empty trailing span.
pub fn chunk_boundaries(len: usize, chunk: usize) -> (r: Vec<usize>)
    requires
        chunk >= 1,
    ensures
        boundaries_wf(r@.map_values(|b: usize| b as int), len as int),
        forall|i: int| 0 <= i < r@.len() - 1 ==> #[trigger] r@[i] < r@[i + 1],
    {
    let mut out: Vec<usize> = Vec::new();
    let mut b: usize = 0;
    out.push(0);
    while b < len
        invariant
            chunk >= 1,
            out@.len() >= 1,
            out@[0] == 0,
            out@[out@.len() - 1] == b,
            b <= len,
            forall|j: int| 0 <= j < out@.len() - 1 ==> #[trigger] out@[j] < out@[j + 1],
            forall|j: int| 0 <= j < out@.len() ==> #[trigger] out@[j] <= len,
        decreases len - b,
    {
        if chunk > len - b {
            b = len;
        } else {
            b = b + chunk;
        }
        out.push(b);
    }
    proof {
        assert(out@.map_values(|x: usize| x as int).len() == out@.len());
    }
    out
}

} // verus!
