//! The fixed-point line parser: decodes `key;value` lines, where `value`
//! has an integer part of one to three characters and exactly one digit
//! after the decimal point, into key bytes and a value scaled by ten.

use vstd::prelude::*;
use vstd::slice::slice_subrange;
use crate::aggmap::AggMap;
use crate::model::{agg_seq, agg_upd};

verus! {

/// The byte `';'`.
pub const SEMI: u8 = 59;

/// The byte `'.'`.
pub const DOT: u8 = 46;

/// The byte `'-'`.
pub const MINUS: u8 = 45;

/// The byte `'\n'`.
pub const NL: u8 = 10;

/// An input byte that does not fit the record grammar, at `offset`.
#[derive(Clone, Copy, Debug, PartialEq, Eq, Structural)]
pub struct ParseError {
    pub offset: usize,
}

pub open spec fn is_digit(b: u8) -> bool {
    48 <= b <= 57
}

pub open spec fn digit_val(b: u8) -> int {
    b - 48
}

/// Position of the first occurrence of `c` in `d[from..end]`, if any.
pub open spec fn find_byte(d: Seq<u8>, c: u8, from: int, end: int) -> Option<int>
    decreases end - from,
{
    if from >= end {
        None
    } else if d[from] == c {
        Some(from)
    } else {
        find_byte(d, c, from + 1, end)
    }
}

/// What `find_byte` returns: the first matching position, or none.
pub proof fn lemma_find_byte(d: Seq<u8>, c: u8, from: int, end: int)
    ensures
        match find_byte(d, c, from, end) {
            Some(i) => from <= i < end && d[i] == c && forall|j: int|
                from <= j < i ==> d[j] != c,
            None => forall|j: int| from <= j < end ==> d[j] != c,
        },
    decreases end - from,
{
    if from < end && d[from] != c {
        lemma_find_byte(d, c, from + 1, end);
    }
}

/// Parsing one line of `d[s..e]`: either the offset of the offending byte,
/// or the key bytes, the decoded value, and the cursor after the record.
pub ghost enum LineOutcome {
    Bad { at: int },
    Rec { key: Seq<u8>, value: int, next: int },
}

/// Decoding of the value, once the delimiters are known. The integer part
/// sits in `d[semi+1 .. dot]`; three integer characters are taken only with
/// a leading minus sign, so magnitudes stop below one hundred when positive
/// and below one thousand when negative.
pub open spec fn parse_number(d: Seq<u8>, s: int, e: int, semi: int, dot: int) -> LineOutcome {
    let ilen = dot - semi - 1;
    if !(1 <= ilen <= 3) {
        LineOutcome::Bad { at: semi + 1 }
    } else if dot + 1 >= e {
        LineOutcome::Bad { at: dot + 1 }
    } else if !is_digit(d[dot + 1]) {
        LineOutcome::Bad { at: dot + 1 }
    } else if dot + 2 < e && d[dot + 2] != NL {
        LineOutcome::Bad { at: dot + 2 }
    } else {
        let key = d.subrange(s, semi);
        let frac = digit_val(d[dot + 1]);
        if ilen == 1 {
            if is_digit(d[semi + 1]) {
                LineOutcome::Rec { key, value: digit_val(d[semi + 1]) * 10 + frac, next: dot + 3 }
            } else {
                LineOutcome::Bad { at: semi + 1 }
            }
        } else if ilen == 2 {
            if d[semi + 1] == MINUS {
                if is_digit(d[semi + 2]) {
                    LineOutcome::Rec {
                        key,
                        value: -(digit_val(d[semi + 2]) * 10 + frac),
                        next: dot + 3,
                    }
                } else {
                    LineOutcome::Bad { at: semi + 2 }
                }
            } else if !is_digit(d[semi + 1]) {
                LineOutcome::Bad { at: semi + 1 }
            } else if !is_digit(d[semi + 2]) {
                LineOutcome::Bad { at: semi + 2 }
            } else {
                LineOutcome::Rec {
                    key,
                    value: digit_val(d[semi + 1]) * 100 + digit_val(d[semi + 2]) * 10 + frac,
                    next: dot + 3,
                }
            }
        } else {
            if d[semi + 1] != MINUS {
                LineOutcome::Bad { at: semi + 1 }
            } else if !is_digit(d[semi + 2]) {
                LineOutcome::Bad { at: semi + 2 }
            } else if !is_digit(d[semi + 3]) {
                LineOutcome::Bad { at: semi + 3 }
            } else {
                LineOutcome::Rec {
                    key,
                    value: -(digit_val(d[semi + 2]) * 100 + digit_val(d[semi + 3]) * 10 + frac),
                    next: dot + 3,
                }
            }
        }
    }
}

/// One line parsed out of `d[s..e]`: the key runs to the first `';'`, the
/// value to the first `'.'` after it, with one fractional digit and a line
/// terminator (absent only at the very end of the range).
pub open spec fn parse_line(d: Seq<u8>, s: int, e: int) -> LineOutcome {
    match find_byte(d, SEMI, s, e) {
        None => LineOutcome::Bad { at: s },
        Some(semi) => match find_byte(d, DOT, semi + 1, e) {
            None => LineOutcome::Bad { at: semi + 1 },
            Some(dot) => parse_number(d, s, e, semi, dot),
        },
    }
}

/// A parsed record sits inside the range, advances the cursor by at least
/// five positions, and carries an in-range value and the key up to `';'`.
pub proof fn lemma_parse_line_rec(d: Seq<u8>, s: int, e: int)
    requires
        parse_line(d, s, e) is Rec,
    ensures
        ({
            let rec = parse_line(d, s, e);
            &&& s + 5 <= rec->next
            &&& rec->next <= e + 1
            &&& -999 <= rec->value <= 999
        }),
{
    lemma_find_byte(d, SEMI, s, e);
    let semi = find_byte(d, SEMI, s, e).unwrap();
    lemma_find_byte(d, DOT, semi + 1, e);
}

/// The records of `d[s..e]`, in order, or nothing when some line is
/// malformed. A record without its own line terminator is accepted only at
/// the end of the range.
pub open spec fn records_from(d: Seq<u8>, s: int, e: int) -> Option<Seq<(Seq<u8>, int)>>
    decreases e - s,
    via records_from_dec
{
    if s >= e {
        Some(Seq::empty())
    } else {
        match parse_line(d, s, e) {
            LineOutcome::Bad { at } => None,
            LineOutcome::Rec { key, value, next } => {
                let nx = if next > e {
                    e
                } else {
                    next
                };
                match records_from(d, nx, e) {
                    None => None,
                    Some(rest) => Some(seq![(key, value)] + rest),
                }
            },
        }
    }
}

#[via_fn]
proof fn records_from_dec(d: Seq<u8>, s: int, e: int) {
    if s < e && parse_line(d, s, e) is Rec {
        lemma_parse_line_rec(d, s, e);
    }
}

/// When the records of a range exist, there are no more of them than the
/// range has bytes.
pub proof fn lemma_records_len(d: Seq<u8>, s: int, e: int)
    requires
        s <= e,
        records_from(d, s, e) is Some,
    ensures
        records_from(d, s, e).unwrap().len() <= e - s,
    decreases e - s,
{
    if s < e && parse_line(d, s, e) is Rec {
        lemma_parse_line_rec(d, s, e);
        let next = parse_line(d, s, e)->next;
        let nx = if next > e {
            e
        } else {
            next
        };
        lemma_records_len(d, nx, e);
    }
}

/// The cursor position after scanning `d[s..e]`, before any clamping: one
/// past the line terminator of the last record (so `e + 1` when the last
/// record's terminator sits at `e`, and `e` when the last record ends
/// inside the range).
pub open spec fn scan_end(d: Seq<u8>, s: int, e: int) -> int
    decreases e - s,
    via scan_end_dec
{
    if s >= e {
        s
    } else {
        match parse_line(d, s, e) {
            LineOutcome::Bad { at } => s,
            LineOutcome::Rec { key, value, next } => {
                if next > e {
                    next
                } else {
                    scan_end(d, next, e)
                }
            },
        }
    }
}

#[via_fn]
proof fn scan_end_dec(d: Seq<u8>, s: int, e: int) {
    if s < e && parse_line(d, s, e) is Rec {
        lemma_parse_line_rec(d, s, e);
    }
}

/// The offset of the offending byte: where the scan of `d[s..e]` stops
/// when some line is malformed (meaningful exactly when `records_from`
/// yields nothing).
pub open spec fn fail_offset(d: Seq<u8>, s: int, e: int) -> int
    decreases e - s,
    via fail_offset_dec
{
    if s >= e {
        s
    } else {
        match parse_line(d, s, e) {
            LineOutcome::Bad { at } => at,
            LineOutcome::Rec { key, value, next } => {
                let nx = if next > e {
                    e
                } else {
                    next
                };
                fail_offset(d, nx, e)
            },
        }
    }
}

#[via_fn]
proof fn fail_offset_dec(d: Seq<u8>, s: int, e: int) {
    if s < e && parse_line(d, s, e) is Rec {
        lemma_parse_line_rec(d, s, e);
    }
}

/// A record that parses inside `d[s..p]`, for a `p` holding a line
/// terminator, parses the same way inside any wider range: the narrow
/// range ends where the wide range sees that very terminator.
pub proof fn lemma_parse_line_widen(d: Seq<u8>, s: int, p: int, e: int)
    requires
        0 <= s < p < e <= d.len(),
        d[p] == NL,
        parse_line(d, s, p) is Rec,
    ensures
        parse_line(d, s, e) == parse_line(d, s, p),
{
    lemma_find_byte(d, SEMI, s, p);
    let semi = find_byte(d, SEMI, s, p).unwrap();
    crate::partition::lemma_find_byte_extend(d, SEMI, s, p, e);
    lemma_find_byte(d, DOT, semi + 1, p);
    let dot = find_byte(d, DOT, semi + 1, p).unwrap();
    crate::partition::lemma_find_byte_extend(d, DOT, semi + 1, p, e);
}

/// Parsing splits at a line terminator: when `d[s..p]` parses completely,
/// with the terminator of its last record at `p` itself, the records of
/// any wider range are those records followed by the records after `p`.
pub proof fn lemma_records_boundary(d: Seq<u8>, s: int, p: int, e: int)
    requires
        0 <= s <= p < e <= d.len(),
        d[p] == NL,
        records_from(d, s, p) is Some,
        scan_end(d, s, p) == p + 1,
    ensures
        records_from(d, s, e) == (match records_from(d, p + 1, e) {
            None => None::<Seq<(Seq<u8>, int)>>,
            Some(rest) => Some(records_from(d, s, p).unwrap() + rest),
        }),
    decreases p - s,
{
    assert(s < p);
    let rec = parse_line(d, s, p);
    assert(rec is Rec);
    lemma_parse_line_rec(d, s, p);
    let next = rec->next;
    lemma_parse_line_widen(d, s, p, e);
    if next <= p {
        // the record ends inside the narrow range; its terminator was
        // checked there, and scanning goes on from `next` in both ranges
        assert(scan_end(d, s, p) == scan_end(d, next, p));
        assert(next < p);
        let head = records_from(d, s, p).unwrap();
        let tail_small = records_from(d, next, p).unwrap();
        assert(head == seq![(rec->key, rec->value)] + tail_small);
        lemma_records_boundary(d, next, p, e);
        match records_from(d, p + 1, e) {
            None => {
                assert(records_from(d, next, e) is None);
            },
            Some(rest) => {
                assert(records_from(d, next, e) == Some(tail_small + rest));
                assert(seq![(rec->key, rec->value)] + (tail_small + rest) =~= (seq![
                    (rec->key, rec->value),
                ] + tail_small) + rest);
            },
        }
    } else {
        // the last record: its cursor lands one past the terminator at `p`
        assert(scan_end(d, s, p) == next);
        assert(next == p + 1);
        assert(records_from(d, p, p) == Some(Seq::<(Seq<u8>, int)>::empty()));
        let head = records_from(d, s, p).unwrap();
        assert(head == seq![(rec->key, rec->value)] + Seq::<(Seq<u8>, int)>::empty());
        assert(head =~= seq![(rec->key, rec->value)]);
        match records_from(d, p + 1, e) {
            None => {},
            Some(rest) => {
                assert(records_from(d, s, e) == Some(seq![(rec->key, rec->value)] + rest));
                assert(seq![(rec->key, rec->value)] + rest =~= head + rest);
            },
        }
    }
}

/// No key of the record list holds a line terminator.
pub open spec fn keys_clean(rs: Seq<(Seq<u8>, int)>) -> bool {
    forall|i: int, j: int|
        0 <= i < rs.len() && 0 <= j < rs[i].0.len() ==> #[trigger] rs[i].0[j] != NL
}

/// In a buffer that scans completely with newline-free keys, every
/// newline terminates a record: the scan up to any newline position
/// succeeds, lands exactly one past it, and the scan resumes there.
pub proof fn lemma_clean_scan(d: Seq<u8>, s: int, p: int)
    requires
        0 <= s <= p < d.len(),
        d[p] == NL,
        records_from(d, s, d.len() as int) is Some,
        keys_clean(records_from(d, s, d.len() as int).unwrap()),
    ensures
        records_from(d, s, p) is Some,
        scan_end(d, s, p) == p + 1,
        records_from(d, p + 1, d.len() as int) is Some,
        keys_clean(records_from(d, p + 1, d.len() as int).unwrap()),
    decreases p - s,
{
    let ll = d.len() as int;
    let g = records_from(d, s, ll).unwrap();
    let rec = parse_line(d, s, ll);
    assert(rec is Rec);
    lemma_find_byte(d, SEMI, s, ll);
    let semi = find_byte(d, SEMI, s, ll).unwrap();
    lemma_find_byte(d, DOT, semi + 1, ll);
    let dot = find_byte(d, DOT, semi + 1, ll).unwrap();
    let ilen = dot - semi - 1;
    assert(1 <= ilen <= 3);
    // the head record's key is newline-free, so nothing before the
    // number is a newline
    assert(rec->key == d.subrange(s, semi));
    let nx0 = if rec->next > ll {
        ll
    } else {
        rec->next
    };
    let rest = records_from(d, nx0, ll).unwrap();
    assert(g == seq![(rec->key, rec->value)] + rest);
    assert(g[0] == (rec->key, rec->value));
    assert(forall|t: int|
        s <= t < semi ==> #[trigger] d[t] != NL) by {
        assert forall|t: int| s <= t < semi implies #[trigger] d[t] != NL by {
            assert(g[0].0[t - s] == d[t]);
        }
    }
    // nor is anything inside the number a newline
    assert(d[semi] == SEMI);
    assert(d[dot] == DOT);
    assert(is_digit(d[dot + 1]));
    assert(forall|t: int| semi < t < dot ==> #[trigger] d[t] != NL) by {
        assert forall|t: int| semi < t < dot implies #[trigger] d[t] != NL by {
            assert(t - semi == 1 || t - semi == 2 || t - semi == 3);
            assert(is_digit(d[t]) || d[t] == MINUS);
        }
    }
    if dot + 2 >= ll {
        // the head record runs to the end of the buffer, leaving no room
        // for the newline at `p`
        assert(p < dot + 2);
        assert(false);
    }
    assert(d[dot + 2] == NL);
    let p0 = dot + 2;
    assert(forall|t: int| s <= t < p0 ==> #[trigger] d[t] != NL);
    assert(p >= p0);
    // the record parses identically inside `d[s..p]`
    crate::partition::lemma_find_byte_extend(d, SEMI, s, p, ll);
    lemma_find_byte(d, SEMI, s, p);
    assert(find_byte(d, SEMI, s, p) == Some(semi));
    crate::partition::lemma_find_byte_extend(d, DOT, semi + 1, p, ll);
    lemma_find_byte(d, DOT, semi + 1, p);
    assert(find_byte(d, DOT, semi + 1, p) == Some(dot));
    assert(rec->next == dot + 3);
    if p == p0 {
        // its terminator is the very newline at `p`
        let narrow = parse_line(d, s, p);
        assert(narrow is Rec && narrow->next == dot + 3);
        assert(records_from(d, p, p) == Some(Seq::<(Seq<u8>, int)>::empty()));
        assert(records_from(d, s, p) == Some(seq![(narrow->key, narrow->value)]
            + Seq::<(Seq<u8>, int)>::empty()));
        assert(scan_end(d, s, p) == dot + 3);
        assert(nx0 == p + 1);
        assert(keys_clean(rest)) by {
            assert forall|i: int, j: int|
                0 <= i < rest.len() && 0 <= j < rest[i].0.len() implies #[trigger] rest[i].0[j]
                != NL by {
                assert(g[i + 1] == rest[i]);
            }
        }
    } else {
        // its terminator comes earlier; scanning continues past it in
        // both ranges, and the claim follows for the rest of the span
        let narrow = parse_line(d, s, p);
        assert(narrow is Rec && narrow->next == dot + 3);
        assert(nx0 == p0 + 1);
        assert(keys_clean(rest)) by {
            assert forall|i: int, j: int|
                0 <= i < rest.len() && 0 <= j < rest[i].0.len() implies #[trigger] rest[i].0[j]
                != NL by {
                assert(g[i + 1] == rest[i]);
            }
        }
        lemma_clean_scan(d, p0 + 1, p);
        assert(records_from(d, s, p) == (match records_from(d, p0 + 1, p) {
            None => None::<Seq<(Seq<u8>, int)>>,
            Some(r2) => Some(seq![(narrow->key, narrow->value)] + r2),
        }));
        assert(scan_end(d, s, p) == scan_end(d, p0 + 1, p));
    }
}

/// One record parsed by the executable scanner: the key spans
/// `data[key_start..key_end]`, `value` is scaled by ten, and `next` is the
/// clamped cursor position of the following record.
pub struct ParsedRecord {
    pub key_start: usize,
    pub key_end: usize,
    pub value: i16,
    pub next: usize,
}

/// Find the first occurrence of `c` in `data[from..end]`.
pub fn find_byte_in(data: &Vec<u8>, c: u8, from: usize, end: usize) -> (r: Option<usize>)
    requires
        from <= end <= data@.len(),
    ensures
        match r {
            Some(i) => find_byte(data@, c, from as int, end as int) == Some(i as int) && from <= i
                < end,
            None => find_byte(data@, c, from as int, end as int) is None,
        },
{
    let mut j: usize = from;
    while j < end
        invariant
            from <= j <= end <= data@.len(),
            find_byte(data@, c, from as int, end as int) == find_byte(
                data@,
                c,
                j as int,
                end as int,
            ),
        decreases end - j,
    {
        if data[j] == c {
            return Some(j);
        }
        j = j + 1;
    }
    None
}

/// Parse the record at `data[s..e]`, mirroring `parse_line` exactly.
pub fn parse_record(data: &Vec<u8>, s: usize, e: usize) -> (r: Result<ParsedRecord, ParseError>)
    requires
        s < e <= data@.len(),
    ensures
        match r {
            Ok(p) => {
                let rec = parse_line(data@, s as int, e as int);
                &&& rec is Rec
                &&& p.key_start == s
                &&& s <= p.key_end < e
                &&& rec->key == data@.subrange(s as int, p.key_end as int)
                &&& rec->value == p.value
                &&& -999 <= p.value <= 999
                &&& p.next == (if rec->next > e {
                    e as int
                } else {
                    rec->next
                })
                &&& s < p.next <= e
            },
            Err(err) => {
                let rec = parse_line(data@, s as int, e as int);
                &&& rec is Bad
                &&& rec->at == err.offset
                &&& s <= err.offset <= e
            },
        },
{
    proof {
        lemma_find_byte(data@, SEMI, s as int, e as int);
    }
    let semi: usize = match find_byte_in(data, SEMI, s, e) {
        Some(i) => i,
        None => {
            return Err(ParseError { offset: s });
        },
    };
    proof {
        lemma_find_byte(data@, DOT, semi as int + 1, e as int);
    }
    let dot: usize = match find_byte_in(data, DOT, semi + 1, e) {
        Some(i) => i,
        None => {
            return Err(ParseError { offset: semi + 1 });
        },
    };
    let ilen: usize = dot - semi - 1;
    if !(1 <= ilen && ilen <= 3) {
        return Err(ParseError { offset: semi + 1 });
    }
    if e - dot <= 1 {
        return Err(ParseError { offset: dot + 1 });
    }
    let fb: u8 = data[dot + 1];
    if !(48 <= fb && fb <= 57) {
        return Err(ParseError { offset: dot + 1 });
    }
    if e - dot > 2 && data[dot + 2] != NL {
        return Err(ParseError { offset: dot + 2 });
    }
    let frac: i16 = (fb - 48) as i16;
    let next: usize = if e - dot < 3 {
        e
    } else {
        dot + 3
    };
    if ilen == 1 {
        let b0: u8 = data[semi + 1];
        if !(48 <= b0 && b0 <= 57) {
            return Err(ParseError { offset: semi + 1 });
        }
        let value: i16 = (b0 - 48) as i16 * 10 + frac;
        Ok(ParsedRecord { key_start: s, key_end: semi, value, next })
    } else if ilen == 2 {
        let b0: u8 = data[semi + 1];
        let b1: u8 = data[semi + 2];
        if b0 == MINUS {
            if !(48 <= b1 && b1 <= 57) {
                return Err(ParseError { offset: semi + 2 });
            }
            let value: i16 = -((b1 - 48) as i16 * 10 + frac);
            Ok(ParsedRecord { key_start: s, key_end: semi, value, next })
        } else if !(48 <= b0 && b0 <= 57) {
            return Err(ParseError { offset: semi + 1 });
        } else if !(48 <= b1 && b1 <= 57) {
            return Err(ParseError { offset: semi + 2 });
        } else {
            let value: i16 = (b0 - 48) as i16 * 100 + (b1 - 48) as i16 * 10 + frac;
            Ok(ParsedRecord { key_start: s, key_end: semi, value, next })
        }
    } else {
        let b0: u8 = data[semi + 1];
        let b1: u8 = data[semi + 2];
        let b2: u8 = data[semi + 3];
        if b0 != MINUS {
            return Err(ParseError { offset: semi + 1 });
        }
        if !(48 <= b1 && b1 <= 57) {
            return Err(ParseError { offset: semi + 2 });
        }
        if !(48 <= b2 && b2 <= 57) {
            return Err(ParseError { offset: semi + 3 });
        }
        let value: i16 = -((b1 - 48) as i16 * 100 + (b2 - 48) as i16 * 10 + frac);
        Ok(ParsedRecord { key_start: s, key_end: semi, value, next })
    }
}

/// Wrap `done + rest` over an optional remainder.
pub open spec fn opt_prepend(pre: Seq<(Seq<u8>, int)>, o: Option<Seq<(Seq<u8>, int)>>) -> Option<
    Seq<(Seq<u8>, int)>,
> {
    match o {
        Some(r) => Some(pre + r),
        None => None,
    }
}

/// Run the parser over `data[start..end]` and fold every record into the
/// map. On a malformed line nothing more is folded in and the offending
/// offset is returned.
pub fn process_span(data: &Vec<u8>, start: usize, end: usize, map: &mut AggMap) -> (r: Result<
    (),
    ParseError,
>)
    requires
        start <= end <= data@.len(),
        old(map).wf(),
        old(map).nrec() + (end - start) <= u64::MAX,
    ensures
        final(map).wf(),
        final(map).nrec() <= old(map).nrec() + (end - start),
        match r {
            Ok(()) => ({
                &&& records_from(data@, start as int, end as int) is Some
                &&& final(map)@ == agg_seq(
                    old(map)@,
                    records_from(data@, start as int, end as int).unwrap(),
                )
                &&& final(map).nrec() == old(map).nrec() + records_from(
                    data@,
                    start as int,
                    end as int,
                ).unwrap().len()
            }),
            Err(err) => {
                &&& records_from(data@, start as int, end as int) is None
                &&& err.offset == fail_offset(data@, start as int, end as int)
                &&& start <= err.offset <= end
            },
        },
{
    let ghost m0 = old(map)@;
    let ghost d = data@;
    let ghost e_i = end as int;
    let mut cur: usize = start;
    let ghost mut done: Seq<(Seq<u8>, int)> = Seq::empty();
    proof {
        assert(opt_prepend(done, records_from(d, cur as int, e_i)) == records_from(
            d,
            start as int,
            e_i,
        )) by {
            if records_from(d, start as int, e_i) is Some {
                assert(done + records_from(d, start as int, e_i).unwrap() =~= records_from(
                    d,
                    start as int,
                    e_i,
                ).unwrap());
            }
        }
    }
    while cur < end
        invariant
            start <= cur <= end <= data@.len(),
            d == data@,
            e_i == end as int,
            map.wf(),
            map@ == agg_seq(m0, done),
            map.nrec() == old(map).nrec() + done.len(),
            done.len() <= cur - start,
            old(map).nrec() + (end - start) <= u64::MAX,
            opt_prepend(done, records_from(d, cur as int, e_i)) == records_from(
                d,
                start as int,
                e_i,
            ),
            records_from(d, cur as int, e_i) is None ==> fail_offset(d, start as int, e_i)
                == fail_offset(d, cur as int, e_i),
        decreases end - cur,
    {
        let p = match parse_record(data, cur, end) {
            Ok(p) => p,
            Err(err) => {
                proof {
                    assert(records_from(d, cur as int, e_i) is None);
                }
                return Err(err);
            },
        };
        let key: &[u8] = slice_subrange(data.as_slice(), p.key_start, p.key_end);
        let ghost rec = parse_line(d, cur as int, e_i);
        let ghost pre_map = map@;
        map.update(key, p.value);
        proof {
            let step = (rec->key, rec->value);
            assert(key@ == rec->key);
            assert(map@ == agg_upd(pre_map, rec->key, rec->value));
            lemma_agg_seq_push(m0, done, rec->key, rec->value);
            let nx = p.next as int;
            assert(records_from(d, cur as int, e_i) == (match records_from(d, nx, e_i) {
                None => None::<Seq<(Seq<u8>, int)>>,
                Some(rest) => Some(seq![step] + rest),
            }));
            assert(opt_prepend(done.push(step), records_from(d, nx, e_i)) == records_from(
                d,
                start as int,
                e_i,
            )) by {
                if records_from(d, nx, e_i) is Some {
                    let rest = records_from(d, nx, e_i).unwrap();
                    assert(done + (seq![step] + rest) =~= done.push(step) + rest);
                }
            }
            done = done.push(step);
        }
        cur = p.next;
    }
    proof {
        assert(records_from(d, cur as int, e_i) == Some(Seq::<(Seq<u8>, int)>::empty()));
        assert(done + Seq::<(Seq<u8>, int)>::empty() =~= done);
        assert(records_from(d, start as int, e_i) == Some(done));
    }
    Ok(())
}

/// Folding one more observation extends the aggregation of the sequence.
pub proof fn lemma_agg_seq_push(m: crate::model::AggModel, rs: Seq<(Seq<u8>, int)>, k: Seq<u8>, v: int)
    ensures
        agg_seq(m, rs.push((k, v))) == agg_upd(agg_seq(m, rs), k, v),
    decreases rs.len(),
{
    let s2 = rs.push((k, v));
    if rs.len() == 0 {
        assert(s2.len() == 1);
        assert(s2[0] == (k, v));
        assert(s2.drop_first() =~= Seq::<(Seq<u8>, int)>::empty());
        assert(agg_seq(m, s2) == agg_seq(agg_upd(m, k, v), s2.drop_first()));
        assert(agg_seq(agg_upd(m, k, v), s2.drop_first()) == agg_upd(m, k, v));
        assert(agg_seq(m, rs) == m);
    } else {
        assert(s2[0] == rs[0]);
        assert(s2.drop_first() =~= rs.drop_first().push((k, v)));
        lemma_agg_seq_push(agg_upd(m, rs[0].0, rs[0].1), rs.drop_first(), k, v);
        assert(agg_seq(m, s2) == agg_seq(agg_upd(m, s2[0].0, s2[0].1), s2.drop_first()));
        assert(agg_seq(m, rs) == agg_seq(agg_upd(m, rs[0].0, rs[0].1), rs.drop_first()));
    }
}

} // verus!
