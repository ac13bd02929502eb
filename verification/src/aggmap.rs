//! The aggregation map: key bytes to running statistics, backed by a
//! hashbrown hash table behind trusted wrappers, with the verified update
//! and merge protocol on top.

use vstd::prelude::*;
use vstd::slice::slice_to_vec;
use crate::record::{MeasurementRecord, RecModel};
use crate::model::{AggModel, agg_upd, agg_merge, agg_merge_one, agg_wf};

verus! {

/// The hash table itself. Verus sees nothing inside: every access goes
/// through the wrappers below, whose contracts speak of `table_model`.
#[verifier::external_body]
pub struct AggTable {
    inner: hashbrown::HashMap<Vec<u8>, MeasurementRecord>,
}

/// The contents of the table: which key bytes map to which record.
pub uninterp spec fn table_model(t: AggTable) -> Map<Seq<u8>, RecModel>;

impl AggTable {
    /// Relies on `hashbrown::HashMap::new`: a new map holds no entries.
    #[verifier::external_body]
    pub(crate) fn new() -> (r: Self)
        ensures
            table_model(r) == crate::model::agg_empty(),
    {
        AggTable { inner: hashbrown::HashMap::new() }
    }

    /// Relies on `hashbrown::HashMap::get`: returns the value the key maps
    /// to, looked up by content, or nothing when the key is absent.
    #[verifier::external_body]
    pub(crate) fn get(&self, key: &[u8]) -> (r: Option<MeasurementRecord>)
        ensures
            match r {
                Some(v) => table_model(*self).dom().contains(key@) && v@ == table_model(
                    *self,
                )[key@],
                None => !table_model(*self).dom().contains(key@),
            },
    {
        self.inner.get(key).copied()
    }

    /// Relies on `hashbrown::HashMap::insert`: maps the key to the value,
    /// replacing the old entry if the key was present.
    #[verifier::external_body]
    pub(crate) fn insert(&mut self, key: Vec<u8>, value: MeasurementRecord)
        ensures
            table_model(*final(self)) == table_model(*old(self)).insert(key@, value@),
    {
        let _ = self.inner.insert(key, value);
    }

    /// Relies on `hashbrown::HashMap::get_mut`: overwrites the value under
    /// the key in place when the key is present; no allocation happens.
    #[verifier::external_body]
    pub(crate) fn update_in_place(&mut self, key: &[u8], value: MeasurementRecord) -> (found:
        bool)
        ensures
            found == table_model(*old(self)).dom().contains(key@),
            found ==> table_model(*final(self)) == table_model(*old(self)).insert(key@, value@),
            !found ==> table_model(*final(self)) == table_model(*old(self)),
    {
        match self.inner.get_mut(key) {
            Some(r) => {
                *r = value;
                true
            },
            None => false,
        }
    }

    /// Relies on `hashbrown::HashMap::iter`: yields every entry exactly
    /// once; the order is left open.
    #[verifier::external_body]
    pub(crate) fn entries(&self) -> (r: Vec<(Vec<u8>, MeasurementRecord)>)
        ensures
            forall|i: int, j: int| 0 <= i < j < r@.len() ==> r@[i].0@ != r@[j].0@,
            forall|i: int|
                0 <= i < r@.len() ==> table_model(*self).dom().contains(#[trigger] r@[i].0@)
                    && r@[i].1@ == table_model(*self)[r@[i].0@],
            forall|k: Seq<u8>|
                #[trigger] table_model(*self).dom().contains(k) ==> exists|i: int|
                    0 <= i < r@.len() && #[trigger] r@[i].0@ == k,
    {
        let mut out = Vec::new();
        for (k, v) in self.inner.iter() {
            out.push((k.clone(), *v));
        }
        out
    }
}

/// An aggregation map together with a bound on how many observations have
/// been folded into it, which keeps every count strictly below `u64::MAX`.
pub struct AggMap {
    table: AggTable,
    records: u64,
}

impl View for AggMap {
    type V = AggModel;

    closed spec fn view(&self) -> AggModel {
        table_model(self.table)
    }
}

impl AggMap {
    /// Number of observations folded into the map so far; merging adds
    /// the two numbers.
    pub closed spec fn nrec(self) -> int {
        self.records as int
    }

    /// Every record is well-formed and counts no more observations than
    /// were folded into the whole map.
    pub open spec fn wf(self) -> bool {
        &&& agg_wf(self@)
        &&& forall|k: Seq<u8>| #[trigger] self@.dom().contains(k) ==> self@[k].count
            <= self.nrec()
    }

    /// An empty aggregation map.
    pub fn new() -> (r: Self)
        ensures
            r@ == crate::model::agg_empty(),
            r.nrec() == 0,
            r.wf(),
    {
        AggMap { table: AggTable::new(), records: 0 }
    }

    /// Fold one observation into the map: create the record on the key's
    /// first occurrence, update it in place on every later one.
    pub fn update(&mut self, key: &[u8], value: i16)
        requires
            old(self).wf(),
            crate::record::VALUE_MIN <= value <= crate::record::VALUE_MAX,
            old(self).nrec() < u64::MAX,
        ensures
            final(self).wf(),
            final(self)@ == agg_upd(old(self)@, key@, value as int),
            final(self).nrec() == old(self).nrec() + 1,
    {
        match self.table.get(key) {
            Some(rec) => {
                let mut r = rec;
                r.add_value(value);
                let found = self.table.update_in_place(key, r);
                proof {
                    assert(found);
                }
            },
            None => {
                let r = MeasurementRecord::new(value);
                self.table.insert(slice_to_vec(key), r);
            },
        }
        self.records = self.records + 1;
    }

    /// Fold every record of `other` into the map.
    pub fn merge_into(&mut self, other: &AggMap)
        requires
            old(self).wf(),
            other.wf(),
            old(self).nrec() + other.nrec() <= u64::MAX,
        ensures
            final(self).wf(),
            final(self)@ == agg_merge(old(self)@, other@),
            final(self).nrec() == old(self).nrec() + other.nrec(),
    {
        let ghost m0 = self@;
        let ghost r0 = old(self).records as int;
        let es = other.table.entries();
        let ghost evs = es@.map_values(|p: (Vec<u8>, MeasurementRecord)| (p.0@, p.1@));
        proof {
            lemma_entries_model(evs);
            assert forall|k: Seq<u8>| #[trigger] other@.dom().contains(k) implies entries_model(
                evs,
            ).dom().contains(k) && entries_model(evs)[k] == other@[k] by {
                let i = choose|i: int| 0 <= i < es@.len() && #[trigger] es@[i].0@ == k;
                assert(evs[i] == (es@[i].0@, es@[i].1@));
                assert(evs[i].0 == k);
            }
            assert forall|k: Seq<u8>| #[trigger] entries_model(evs).dom().contains(k)
                implies other@.dom().contains(k) by {
                let a = choose|a: int| 0 <= a < evs.len() && #[trigger] evs[a].0 == k;
            }
            assert(entries_model(evs) =~= other@);
        }
        let n = es.len();
        let mut i: usize = 0;
        while i < n
            invariant
                n == es.len(),
                i <= n,
                evs == es@.map_values(|p: (Vec<u8>, MeasurementRecord)| (p.0@, p.1@)),
                forall|a: int, b: int| 0 <= a < b < evs.len() ==> evs[a].0 != evs[b].0,
                forall|a: int|
                    0 <= a < evs.len() ==> other@.dom().contains(#[trigger] evs[a].0) && evs[a].1
                        == other@[evs[a].0],
                entries_model(evs) == other@,
                self@ == agg_merge(m0, entries_model(evs.take(i as int))),
                self.records == r0,
                agg_wf(m0),
                agg_wf(other@),
                forall|k: Seq<u8>| #[trigger] m0.dom().contains(k) ==> m0[k].count <= r0,
                forall|k: Seq<u8>| #[trigger] other@.dom().contains(k) ==> other@[k].count
                    <= other.nrec(),
                r0 + other.nrec() <= u64::MAX,
            decreases n - i,
        {
            let key_ref: &Vec<u8> = &es[i].0;
            let rec: MeasurementRecord = es[i].1;
            let ghost pre = self@;
            let ghost k = key_ref@;
            proof {
                assert(evs[i as int] == (es@[i as int].0@, es@[i as int].1@));
                assert(other@.dom().contains(k));
                assert(rec@ == other@[k]);
                // the key of this entry is new to the processed prefix
                assert(!entries_model(evs.take(i as int)).dom().contains(k)) by {
                    lemma_entries_model(evs.take(i as int));
                    if entries_model(evs.take(i as int)).dom().contains(k) {
                        let j = choose|j: int|
                            0 <= j < evs.take(i as int).len() && #[trigger] evs.take(
                                i as int,
                            )[j].0 == k;
                        assert(evs[j].0 == evs[i as int].0);
                    }
                }
                assert(pre.dom().contains(k) ==> pre[k] == m0[k] && m0.dom().contains(k));
            }
            match self.table.get(key_ref.as_slice()) {
                Some(cur) => {
                    let mut r = cur;
                    r.combine(&rec);
                    let found = self.table.update_in_place(key_ref.as_slice(), r);
                    proof {
                        assert(found);
                    }
                },
                None => {
                    self.table.insert(slice_to_vec(key_ref.as_slice()), rec);
                },
            }
            proof {
                assert(self@ =~= agg_merge_one(pre, k, rec@));
                lemma_take_entries_step(evs, i as int);
                crate::model::lemma_merge_one_new(
                    m0,
                    entries_model(evs.take(i as int)),
                    evs[i as int].0,
                    evs[i as int].1,
                );
            }
            i = i + 1;
        }
        proof {
            assert(evs.take(n as int) =~= evs);
        }
        self.records = self.records + other.records;
        proof {
            crate::model::lemma_agg_merge_wf(m0, other@);
            assert(self@ == agg_merge(m0, other@));
        }
    }

    /// The number of observations never exceeds the counter's range.
    pub proof fn lemma_nrec_bound(&self)
        ensures
            self.nrec() <= u64::MAX,
    {
    }

    /// The number of observations folded into the map so far.
    pub fn records_count(&self) -> (r: u64)
        ensures
            r == self.nrec(),
    {
        self.records
    }

    /// All entries of the map, in no fixed order.
    pub fn entries(&self) -> (r: Vec<(Vec<u8>, MeasurementRecord)>)
        ensures
            forall|i: int, j: int| 0 <= i < j < r@.len() ==> r@[i].0@ != r@[j].0@,
            forall|i: int|
                0 <= i < r@.len() ==> self@.dom().contains(#[trigger] r@[i].0@) && r@[i].1@
                    == self@[r@[i].0@],
            forall|k: Seq<u8>|
                #[trigger] self@.dom().contains(k) ==> exists|i: int|
                    0 <= i < r@.len() && #[trigger] r@[i].0@ == k,
    {
        self.table.entries()
    }
}

/// The model induced by a sequence of entries, later entries winning.
pub open spec fn entries_model(s: Seq<(Seq<u8>, RecModel)>) -> AggModel
    decreases s.len(),
{
    if s.len() == 0 {
        Map::<Seq<u8>, RecModel>::empty()
    } else {
        entries_model(s.drop_last()).insert(s.last().0, s.last().1)
    }
}

/// With distinct keys, the induced model maps exactly the listed keys to
/// the listed records.
pub proof fn lemma_entries_model(s: Seq<(Seq<u8>, RecModel)>)
    requires
        forall|a: int, b: int| 0 <= a < b < s.len() ==> s[a].0 != s[b].0,
    ensures
        forall|a: int|
            0 <= a < s.len() ==> entries_model(s).dom().contains(#[trigger] s[a].0)
                && entries_model(s)[s[a].0] == s[a].1,
        forall|k: Seq<u8>|
            #[trigger] entries_model(s).dom().contains(k) ==> exists|a: int|
                0 <= a < s.len() && #[trigger] s[a].0 == k,
    decreases s.len(),
{
    if s.len() > 0 {
        let d = s.drop_last();
        lemma_entries_model(d);
        assert(d =~= s.subrange(0, s.len() - 1));
        assert forall|a: int|
            0 <= a < s.len() implies entries_model(s).dom().contains(#[trigger] s[a].0)
            && entries_model(s)[s[a].0] == s[a].1 by {
            if a < s.len() - 1 {
                assert(d[a] == s[a]);
                assert(s[a].0 != s[s.len() - 1].0);
                assert(entries_model(d).dom().contains(d[a].0));
            } else {
                assert(s[a] == s.last());
            }
        }
        assert forall|k: Seq<u8>| #[trigger] entries_model(s).dom().contains(k) implies exists|
            a: int,
        | 0 <= a < s.len() && #[trigger] s[a].0 == k by {
            if k == s.last().0 {
                let a = s.len() - 1;
                assert(0 <= a < s.len() && s[a].0 == k);
            } else {
                assert(entries_model(d).dom().contains(k));
                let a = choose|a: int| 0 <= a < d.len() && #[trigger] d[a].0 == k;
                assert(d[a] == s[a]);
                assert(0 <= a < s.len() && s[a].0 == k);
            }
        }
    }
}

/// Taking one more entry extends the induced model by that entry.
pub proof fn lemma_take_entries_step(s: Seq<(Seq<u8>, RecModel)>, i: int)
    requires
        0 <= i < s.len(),
    ensures
        entries_model(s.take(i + 1)) == entries_model(s.take(i)).insert(s[i].0, s[i].1),
{
    assert(s.take(i + 1).drop_last() =~= s.take(i));
    assert(s.take(i + 1).last() == s[i]);
}

} // verus!
