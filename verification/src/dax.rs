//! Delta store: master buffers, delta buffers of records, effective views
//! over a master and a delta, branching, rollback and lineage fingerprints.
//! Every object gets its id from one counter shared by the whole store.

use vstd::prelude::*;

verus! {

/// Advances the counter by one and returns its new value.
pub fn next_id(counter: &mut u64) -> (id: u64)
    requires
        *old(counter) < u64::MAX,
    ensures
        id == *old(counter) + 1,
        *final(counter) == id,
{
    *counter = *counter + 1;
    *counter
}

/// A single delta record (event). `heat_bits` is the IEEE-754 bit pattern
/// of the record's heat value.
#[derive(Debug)]
pub struct DeltaRecord {
    pub id: u64,
    pub domain: u8,
    pub kind: u8,
    pub ts_start: u64,
    pub ts_end: u64,
    pub heat_bits: u32,
    pub tag: Option<String>,
}

/// Master buffer.
#[derive(Debug)]
pub struct MasterBuffer {
    pub id: u64,
    pub domain: u8,
    pub fingerprint: u64,
    pub created_at_ms: u64,
}

/// Delta buffer: the ids of the records attached to it, in order.
#[derive(Debug)]
pub struct DeltaBuffer {
    pub id: u64,
    pub domain: u8,
    pub master_id: u64,
    pub records: Vec<u64>,
}

/// Effective view of a master overlaid with a delta.
#[derive(Debug)]
pub struct EffectiveView {
    pub id: u64,
    pub domain: u8,
    pub master_id: u64,
    pub delta_id: u64,
    pub fingerprint: u64,
}

/// The whole store.
#[derive(Debug)]
pub struct DeltaStore {
    pub id_counter: u64,
    pub masters: Vec<MasterBuffer>,
    pub deltas: Vec<DeltaBuffer>,
    pub records: Vec<DeltaRecord>,
    pub views: Vec<EffectiveView>,
}

impl Default for DeltaStore {
    fn default() -> (s: Self)
        ensures
            s.id_counter == 0,
            s.masters@ == Seq::<MasterBuffer>::empty(),
            s.deltas@ == Seq::<DeltaBuffer>::empty(),
            s.records@ == Seq::<DeltaRecord>::empty(),
            s.views@ == Seq::<EffectiveView>::empty(),
    {
        DeltaStore {
            id_counter: 0,
            masters: Vec::new(),
            deltas: Vec::new(),
            records: Vec::new(),
            views: Vec::new(),
        }
    }
}

/// `i` is the first position of `id` in `ids`.
pub open spec fn first_index_of(ids: Seq<u64>, id: u64, i: int) -> bool {
    &&& 0 <= i < ids.len()
    &&& ids[i] == id
    &&& forall|k: int| 0 <= k < i ==> ids[k] != id
}

/// The first position of `id` in `ids`, or -1 if it does not occur.
pub open spec fn find_first(ids: Seq<u64>, id: u64) -> int {
    if ids.contains(id) {
        choose|i: int| first_index_of(ids, id, i)
    } else {
        -1
    }
}

/// A first position, once found, is the one `find_first` names.
pub proof fn lemma_find_first(ids: Seq<u64>, id: u64, i: int)
    requires
        first_index_of(ids, id, i),
    ensures
        find_first(ids, id) == i,
{
    assert(ids.contains(id));
    let j = choose|j: int| first_index_of(ids, id, j);
    assert(first_index_of(ids, id, j));
    if j < i {
        assert(ids[j] != id);
    } else if i < j {
        assert(ids[i] != id);
    }
}

pub open spec fn master_ids(ms: Seq<MasterBuffer>) -> Seq<u64> {
    ms.map_values(|m: MasterBuffer| m.id)
}

pub open spec fn delta_ids(ds: Seq<DeltaBuffer>) -> Seq<u64> {
    ds.map_values(|d: DeltaBuffer| d.id)
}

/// The domain of the first master with id `m`, or 0 if there is none.
pub open spec fn domain_of_master(ms: Seq<MasterBuffer>, m: u64) -> u8 {
    let i = find_first(master_ids(ms), m);
    if i >= 0 {
        ms[i].domain
    } else {
        0
    }
}

/// The fingerprint of the first master with id `m`, or 0 if there is none.
pub open spec fn fingerprint_of_master(ms: Seq<MasterBuffer>, m: u64) -> u64 {
    let i = find_first(master_ids(ms), m);
    if i >= 0 {
        ms[i].fingerprint
    } else {
        0
    }
}

/// The masters after the first one with id `m` has had its fingerprint set
/// to `view_id`; unchanged if there is no such master.
pub open spec fn rolled_back(ms: Seq<MasterBuffer>, m: u64, view_id: u64) -> Seq<MasterBuffer> {
    let i = find_first(master_ids(ms), m);
    if i >= 0 {
        ms.update(
            i,
            MasterBuffer {
                id: ms[i].id,
                domain: ms[i].domain,
                fingerprint: view_id,
                created_at_ms: ms[i].created_at_ms,
            },
        )
    } else {
        ms
    }
}

/// `init` xor-ed with every value of `s`, in order.
pub open spec fn xor_fold(init: u64, s: Seq<u64>) -> u64
    decreases s.len(),
{
    if s.len() == 0 {
        init
    } else {
        xor_fold(init, s.drop_last()) ^ s.last()
    }
}

/// The lineage fingerprint of master `m` and delta `d`: `m ^ d`, xor-ed with
/// every record attached to the first delta with id `d`, if there is one.
pub open spec fn lineage_fingerprint(ds: Seq<DeltaBuffer>, m: u64, d: u64) -> u64 {
    let i = find_first(delta_ids(ds), d);
    if i >= 0 {
        xor_fold(m ^ d, ds[i].records@)
    } else {
        m ^ d
    }
}

impl DeltaStore {
    /// No object of the store carries an id the counter has not handed out.
    pub open spec fn wf(&self) -> bool {
        &&& forall|i: int| 0 <= i < self.masters@.len() ==> #[trigger] self.masters@[i].id <= self.id_counter
        &&& forall|i: int| 0 <= i < self.deltas@.len() ==> #[trigger] self.deltas@[i].id <= self.id_counter
        &&& forall|i: int| 0 <= i < self.records@.len() ==> #[trigger] self.records@[i].id <= self.id_counter
        &&& forall|i: int| 0 <= i < self.views@.len() ==> #[trigger] self.views@[i].id <= self.id_counter
    }

    fn find_master(&self, id: u64) -> (r: Option<usize>)
        ensures
            match r {
                Some(i) => first_index_of(master_ids(self.masters@), id, i as int),
                None => !master_ids(self.masters@).contains(id),
            },
    {
        let mut i: usize = 0;
        while i < self.masters.len()
            invariant
                0 <= i <= self.masters@.len(),
                forall|k: int| 0 <= k < i ==> master_ids(self.masters@)[k] != id,
            decreases self.masters.len() - i,
        {
            if self.masters[i].id == id {
                return Some(i);
            }
            i = i + 1;
        }
        None
    }

    fn find_delta(&self, id: u64) -> (r: Option<usize>)
        ensures
            match r {
                Some(i) => first_index_of(delta_ids(self.deltas@), id, i as int),
                None => !delta_ids(self.deltas@).contains(id),
            },
    {
        let mut i: usize = 0;
        while i < self.deltas.len()
            invariant
                0 <= i <= self.deltas@.len(),
                forall|k: int| 0 <= k < i ==> delta_ids(self.deltas@)[k] != id,
            decreases self.deltas.len() - i,
        {
            if self.deltas[i].id == id {
                return Some(i);
            }
            i = i + 1;
        }
        None
    }

    /// Creates a master buffer with a fresh id, fingerprint 0 and the given
    /// creation time, and returns its id.
    pub fn add_master_buffer(&mut self, domain: u8, created_at_ms: u64) -> (id: u64)
        requires
            old(self).id_counter < u64::MAX,
        ensures
            id == old(self).id_counter + 1,
            final(self).id_counter == id,
            final(self).masters@ == old(self).masters@.push(
                MasterBuffer { id, domain, fingerprint: 0, created_at_ms },
            ),
            final(self).deltas@ == old(self).deltas@,
            final(self).records@ == old(self).records@,
            final(self).views@ == old(self).views@,
            old(self).wf() ==> final(self).wf(),
    {
        let id = next_id(&mut self.id_counter);
        self.masters.push(MasterBuffer { id, domain, fingerprint: 0, created_at_ms });
        id
    }

    /// Creates a delta record with a fresh id and returns its id.
    pub fn add_delta(
        &mut self,
        domain: u8,
        kind: u8,
        ts_start: u64,
        ts_end: u64,
        heat_bits: u32,
        tag: Option<String>,
    ) -> (id: u64)
        requires
            old(self).id_counter < u64::MAX,
        ensures
            id == old(self).id_counter + 1,
            final(self).id_counter == id,
            final(self).records@ == old(self).records@.push(
                DeltaRecord { id, domain, kind, ts_start, ts_end, heat_bits, tag },
            ),
            final(self).masters@ == old(self).masters@,
            final(self).deltas@ == old(self).deltas@,
            final(self).views@ == old(self).views@,
            old(self).wf() ==> final(self).wf(),
    {
        let id = next_id(&mut self.id_counter);
        self.records.push(DeltaRecord { id, domain, kind, ts_start, ts_end, heat_bits, tag });
        id
    }

    /// Creates an empty delta buffer over `master_id` with a fresh id and
    /// returns its id.
    pub fn add_delta_buffer(&mut self, domain: u8, master_id: u64) -> (id: u64)
        requires
            old(self).id_counter < u64::MAX,
        ensures
            id == old(self).id_counter + 1,
            final(self).id_counter == id,
            final(self).deltas@.len() == old(self).deltas@.len() + 1,
            final(self).deltas@.drop_last() == old(self).deltas@,
            final(self).deltas@.last().id == id,
            final(self).deltas@.last().domain == domain,
            final(self).deltas@.last().master_id == master_id,
            final(self).deltas@.last().records@ == Seq::<u64>::empty(),
            final(self).masters@ == old(self).masters@,
            final(self).records@ == old(self).records@,
            final(self).views@ == old(self).views@,
            old(self).wf() ==> final(self).wf(),
    {
        let id = next_id(&mut self.id_counter);
        self.deltas.push(DeltaBuffer { id, domain, master_id, records: Vec::new() });
        proof {
            assert(self.deltas@.drop_last() =~= old(self).deltas@);
        }
        id
    }

    /// Appends `record_id` to the first delta buffer with id `delta_id`;
    /// does nothing if there is none.
    pub fn attach_record_to_delta(&mut self, delta_id: u64, record_id: u64)
        ensures
            final(self).deltas@.len() == old(self).deltas@.len(),
            delta_ids(final(self).deltas@) == delta_ids(old(self).deltas@),
            forall|j: int|
                0 <= j < old(self).deltas@.len() && j != find_first(
                    delta_ids(old(self).deltas@),
                    delta_id,
                ) ==> #[trigger] final(self).deltas@[j] == old(self).deltas@[j],
            find_first(delta_ids(old(self).deltas@), delta_id) >= 0 ==> {
                let i = find_first(delta_ids(old(self).deltas@), delta_id);
                &&& final(self).deltas@[i].domain == old(self).deltas@[i].domain
                &&& final(self).deltas@[i].master_id == old(self).deltas@[i].master_id
                &&& final(self).deltas@[i].records@ == old(self).deltas@[i].records@.push(
                    record_id,
                )
            },
            final(self).id_counter == old(self).id_counter,
            final(self).masters@ == old(self).masters@,
            final(self).records@ == old(self).records@,
            final(self).views@ == old(self).views@,
            old(self).wf() ==> final(self).wf(),
            forall|m: u64|
                #[trigger] lineage_fingerprint(final(self).deltas@, m, delta_id) == if delta_ids(
                    old(self).deltas@,
                ).contains(delta_id) {
                    lineage_fingerprint(old(self).deltas@, m, delta_id) ^ record_id
                } else {
                    lineage_fingerprint(old(self).deltas@, m, delta_id)
                },
    {
        match self.find_delta(delta_id) {
            Some(i) => {
                proof {
                    lemma_find_first(delta_ids(self.deltas@), delta_id, i as int);
                }
                self.deltas[i].records.push(record_id);
                proof {
                    assert(delta_ids(self.deltas@) =~= delta_ids(old(self).deltas@));
                    assert(self.deltas@[i as int].records@.drop_last() =~= old(
                        self,
                    ).deltas@[i as int].records@);
                }
            },
            None => {},
        }
    }

    /// The lineage fingerprint of `master_id` and `delta_id`.
    fn compute_fingerprint(&self, master_id: u64, delta_id: u64) -> (fp: u64)
        ensures
            fp == lineage_fingerprint(self.deltas@, master_id, delta_id),
    {
        let mut fp = master_id ^ delta_id;
        match self.find_delta(delta_id) {
            Some(i) => {
                proof {
                    lemma_find_first(delta_ids(self.deltas@), delta_id, i as int);
                }
                let delta = &self.deltas[i];
                let mut k: usize = 0;
                while k < delta.records.len()
                    invariant
                        0 <= k <= delta.records@.len(),
                        fp == xor_fold(master_id ^ delta_id, delta.records@.take(k as int)),
                    decreases delta.records.len() - k,
                {
                    proof {
                        assert(delta.records@.take(k + 1).drop_last() =~= delta.records@.take(
                            k as int,
                        ));
                    }
                    fp = fp ^ delta.records[k];
                    k = k + 1;
                }
                proof {
                    assert(delta.records@.take(delta.records@.len() as int) =~= delta.records@);
                }
            },
            None => {},
        }
        fp
    }

    /// The domain of the first master with id `master_id`, or 0.
    fn master_domain(&self, master_id: u64) -> (d: u8)
        ensures
            d == domain_of_master(self.masters@, master_id),
    {
        match self.find_master(master_id) {
            Some(i) => {
                proof {
                    lemma_find_first(master_ids(self.masters@), master_id, i as int);
                }
                self.masters[i].domain
            },
            None => 0,
        }
    }

    /// Creates a view of master `master_id` overlaid with delta `delta_id`,
    /// carrying the master's domain and the lineage fingerprint of the two,
    /// and returns its fresh id.
    pub fn create_effective_view(&mut self, master_id: u64, delta_id: u64) -> (id: u64)
        requires
            old(self).id_counter < u64::MAX,
        ensures
            id == old(self).id_counter + 1,
            final(self).id_counter == id,
            final(self).views@ == old(self).views@.push(
                EffectiveView {
                    id,
                    domain: domain_of_master(old(self).masters@, master_id),
                    master_id,
                    delta_id,
                    fingerprint: lineage_fingerprint(old(self).deltas@, master_id, delta_id),
                },
            ),
            final(self).masters@ == old(self).masters@,
            final(self).deltas@ == old(self).deltas@,
            final(self).records@ == old(self).records@,
            old(self).wf() ==> final(self).wf(),
    {
        let id = next_id(&mut self.id_counter);
        let fingerprint = self.compute_fingerprint(master_id, delta_id);
        let domain = self.master_domain(master_id);
        self.views.push(EffectiveView { id, domain, master_id, delta_id, fingerprint });
        id
    }

    /// Branches a new view from a master: creates an empty delta buffer over
    /// it (in the master's domain) and a view of the two. Returns the master
    /// id, the delta id and the view id.
    pub fn branch_view_from(&mut self, master_id: u64) -> (res: (u64, u64, u64))
        requires
            old(self).id_counter < u64::MAX - 1,
        ensures
            res.0 == master_id,
            res.1 == old(self).id_counter + 1,
            res.2 == old(self).id_counter + 2,
            final(self).id_counter == res.2,
            final(self).deltas@.len() == old(self).deltas@.len() + 1,
            final(self).deltas@.drop_last() == old(self).deltas@,
            final(self).deltas@.last().id == res.1,
            final(self).deltas@.last().domain == domain_of_master(old(self).masters@, master_id),
            final(self).deltas@.last().master_id == master_id,
            final(self).deltas@.last().records@ == Seq::<u64>::empty(),
            final(self).views@ == old(self).views@.push(
                EffectiveView {
                    id: res.2,
                    domain: domain_of_master(old(self).masters@, master_id),
                    master_id,
                    delta_id: res.1,
                    fingerprint: lineage_fingerprint(final(self).deltas@, master_id, res.1),
                },
            ),
            final(self).masters@ == old(self).masters@,
            final(self).records@ == old(self).records@,
            old(self).wf() ==> final(self).wf(),
            old(self).wf() ==> final(self).views@.last().fingerprint == master_id ^ res.1,
    {
        let domain = self.master_domain(master_id);
        let delta_id = self.add_delta_buffer(domain, master_id);
        proof {
            if old(self).wf() {
                let ids = delta_ids(self.deltas@);
                let last = self.deltas@.len() - 1;
                assert forall|k: int| 0 <= k < last implies ids[k] != delta_id by {
                    assert(self.deltas@[k] == old(self).deltas@[k]);
                }
                assert(first_index_of(ids, delta_id, last));
                lemma_find_first(ids, delta_id, last);
                assert(self.deltas@[last].records@.len() == 0);
            }
        }
        let view_id = self.create_effective_view(master_id, delta_id);
        (master_id, delta_id, view_id)
    }

    /// Sets the fingerprint of the first master with id `master_id` to
    /// `view_id`; does nothing if there is none.
    pub fn rollback_master_to(&mut self, master_id: u64, view_id: u64)
        ensures
            final(self).masters@ == rolled_back(old(self).masters@, master_id, view_id),
            final(self).id_counter == old(self).id_counter,
            final(self).deltas@ == old(self).deltas@,
            final(self).records@ == old(self).records@,
            final(self).views@ == old(self).views@,
            old(self).wf() ==> final(self).wf(),
    {
        match self.find_master(master_id) {
            Some(i) => {
                proof {
                    lemma_find_first(master_ids(self.masters@), master_id, i as int);
                }
                let m = &self.masters[i];
                let updated = MasterBuffer {
                    id: m.id,
                    domain: m.domain,
                    fingerprint: view_id,
                    created_at_ms: m.created_at_ms,
                };
                self.masters.set(i, updated);
            },
            None => {},
        }
    }

    /// The fingerprint of the first master with id `master_id`, or 0.
    pub fn fingerprint_for_master(&self, master_id: u64) -> (fp: u64)
        ensures
            fp == fingerprint_of_master(self.masters@, master_id),
    {
        match self.find_master(master_id) {
            Some(i) => {
                proof {
                    lemma_find_first(master_ids(self.masters@), master_id, i as int);
                }
                self.masters[i].fingerprint
            },
            None => 0,
        }
    }
}

/// Rolling a master back to a view and then reading its fingerprint gives
/// the view back; the fingerprints of all other masters are unchanged.
pub proof fn lemma_rollback_then_fingerprint(ms: Seq<MasterBuffer>, m: u64, view_id: u64, other: u64)
    requires
        master_ids(ms).contains(m),
    ensures
        fingerprint_of_master(rolled_back(ms, m, view_id), m) == view_id,
        other != m ==> fingerprint_of_master(rolled_back(ms, m, view_id), other)
            == fingerprint_of_master(ms, other),
{
    let i = find_first(master_ids(ms), m);
    let j0 = choose|j: int| 0 <= j < master_ids(ms).len() && master_ids(ms)[j] == m;
    lemma_first_exists(master_ids(ms), m, j0);
    let r = rolled_back(ms, m, view_id);
    assert(first_index_of(master_ids(ms), m, i));
    assert(master_ids(r) =~= master_ids(ms));
    lemma_find_first(master_ids(r), m, i);
    if other != m && master_ids(ms).contains(other) {
        let k0 = choose|k: int| 0 <= k < master_ids(ms).len() && master_ids(ms)[k] == other;
        lemma_first_exists(master_ids(ms), other, k0);
        let j = find_first(master_ids(ms), other);
        assert(first_index_of(master_ids(ms), other, j));
        assert(j != i);
        assert(r[j] == ms[j]);
    }
}

/// A value that occurs has a first position.
pub proof fn lemma_first_exists(ids: Seq<u64>, id: u64, j: int)
    requires
        0 <= j < ids.len(),
        ids[j] == id,
    ensures
        exists|i: int| first_index_of(ids, id, i),
    decreases j,
{
    if exists|k: int| 0 <= k < j && ids[k] == id {
        let k = choose|k: int| 0 <= k < j && ids[k] == id;
        lemma_first_exists(ids, id, k);
    } else {
        assert(first_index_of(ids, id, j));
    }
}

/// Logs a predictor result as lineage: when there are top nodes and scores,
/// creates in domain 1 a master created at `ts`, a record of kind 1 spanning
/// `ts` with the given heat and the tag "predictor_activity", a delta buffer
/// over the master holding that record, and a view of the master and the
/// delta. Does nothing otherwise.
pub fn log_predictor_delta(
    dax: &mut DeltaStore,
    top_nodes: &Vec<crate::types::WebNodeId>,
    score_count: usize,
    ts: u64,
    heat_bits: u32,
)
    requires
        old(dax).id_counter < u64::MAX - 3,
    ensures
        (top_nodes@.len() == 0 || score_count == 0) ==> *final(dax) == *old(dax),
        top_nodes@.len() > 0 && score_count > 0 ==> {
            let c = old(dax).id_counter;
            &&& final(dax).id_counter == c + 4
            &&& final(dax).masters@ == old(dax).masters@.push(
                MasterBuffer { id: (c + 1) as u64, domain: 1, fingerprint: 0, created_at_ms: ts },
            )
            &&& final(dax).records@.len() == old(dax).records@.len() + 1
            &&& final(dax).records@.drop_last() == old(dax).records@
            &&& final(dax).records@.last().id == c + 2
            &&& final(dax).records@.last().domain == 1
            &&& final(dax).records@.last().kind == 1
            &&& final(dax).records@.last().ts_start == ts
            &&& final(dax).records@.last().ts_end == ts
            &&& final(dax).records@.last().heat_bits == heat_bits
            &&& final(dax).records@.last().tag matches Some(t) && t@ == "predictor_activity"@
            &&& final(dax).deltas@.len() == old(dax).deltas@.len() + 1
            &&& final(dax).deltas@.last().id == c + 3
            &&& final(dax).deltas@.last().domain == 1
            &&& final(dax).deltas@.last().master_id == c + 1
            &&& old(dax).wf() ==> final(dax).deltas@.drop_last() == old(dax).deltas@
            &&& old(dax).wf() ==> final(dax).deltas@.last().records@ == seq![(c + 2) as u64]
            &&& final(dax).views@.len() == old(dax).views@.len() + 1
            &&& final(dax).views@.drop_last() == old(dax).views@
            &&& final(dax).views@.last().id == c + 4
            &&& final(dax).views@.last().master_id == c + 1
            &&& final(dax).views@.last().delta_id == c + 3
            &&& old(dax).wf() ==> final(dax).views@.last().domain == 1
            &&& old(dax).wf() ==> final(dax).views@.last().fingerprint == ((c + 1) as u64 ^ (c
                + 3) as u64) ^ (c + 2) as u64
            &&& old(dax).wf() ==> final(dax).wf()
        },
{
    if top_nodes.len() == 0 || score_count == 0 {
        return;
    }
    let domain: u8 = 1;
    let kind: u8 = 1;
    let master_id = dax.add_master_buffer(domain, ts);
    let rec_id = dax.add_delta(domain, kind, ts, ts, heat_bits, Some("predictor_activity".to_owned()));
    let delta_id = dax.add_delta_buffer(domain, master_id);
    let ghost ds1 = dax.deltas@;
    proof {
        assert(ds1.drop_last() == old(dax).deltas@);
        let last = ds1.len() - 1;
        let ids = delta_ids(ds1);
        assert(ids[last] == delta_id);
        if old(dax).wf() {
            assert forall|k: int| 0 <= k < last implies ids[k] != delta_id by {
                assert(ds1[k] == old(dax).deltas@[k]);
                assert(old(dax).deltas@[k].id <= old(dax).id_counter);
            }
            assert(first_index_of(ids, delta_id, last));
            lemma_find_first(ids, delta_id, last);
        }
        lemma_first_exists(ids, delta_id, last);
    }
    dax.attach_record_to_delta(delta_id, rec_id);
    let ghost before_view = *dax;
    proof {
        let last = ds1.len() - 1;
        let ids = delta_ids(ds1);
        assert(delta_ids(dax.deltas@) == ids);
        if old(dax).wf() {
            assert(find_first(ids, delta_id) == last);
            assert(dax.deltas@[last].records@ =~= seq![rec_id]);
            assert(seq![rec_id].drop_last() =~= Seq::<u64>::empty());
            assert(dax.deltas@.drop_last() =~= ds1.drop_last());
            let mids = master_ids(dax.masters@);
            let mlast = dax.masters@.len() - 1;
            assert forall|k: int| 0 <= k < mlast implies mids[k] != master_id by {
                assert(dax.masters@[k] == old(dax).masters@[k]);
                assert(old(dax).masters@[k].id <= old(dax).id_counter);
            }
            assert(first_index_of(mids, master_id, mlast));
            lemma_find_first(mids, master_id, mlast);
        } else {
            assert(dax.deltas@.len() == ds1.len());
        }
    }
    let _view_id = dax.create_effective_view(master_id, delta_id);
    proof {
        assert(dax.records@.drop_last() =~= old(dax).records@);
        assert(dax.views@.drop_last() =~= before_view.views@);
    }
}

} // verus!
