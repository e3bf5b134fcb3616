//! The versioned zone store.
//!
//! A zone holds a published snapshot: a set of RRsets keyed by owner name
//! (case-insensitively) and record type. A write builds a new snapshot and
//! publishes it whole at commit, which can also yield the record-level
//! difference against the previous snapshot for incremental transfer.

use vstd::prelude::*;
use crate::message::{
    Rdata, RdataV, RT_SOA, RT_NS, RT_CNAME, RT_RRSIG, RT_NSEC, RT_NSEC3, RT_ANY, RCODE_NOERROR,
    RCODE_NXDOMAIN,
};
use crate::name::{Name, name_key, wf_name, ancestor_of};
use crate::wire::wf_rdata;

verus! {

//---------- Rrset ----------------------------------------------------------------

/// The records of one type at one owner: a single TTL and the set of
/// record data, without duplicates.
pub struct Rrset {
    pub rtype: u16,
    pub ttl: u32,
    pub data: Vec<Rdata>,
}

pub ghost struct RrsetV {
    pub rtype: u16,
    pub ttl: u32,
    pub data: Seq<RdataV>,
}

/// The views of a vector of record data.
pub open spec fn rdata_view(v: Seq<Rdata>) -> Seq<RdataV> {
    Seq::new(v.len(), |i: int| v[i]@)
}

impl View for Rrset {
    type V = RrsetV;

    open spec fn view(&self) -> RrsetV {
        RrsetV { rtype: self.rtype, ttl: self.ttl, data: rdata_view(self.data@) }
    }
}

impl Clone for Rrset {
    fn clone(&self) -> (r: Self)
        ensures
            r@ == self@,
    {
        let mut data: Vec<Rdata> = Vec::new();
        let mut i: usize = 0;
        while i < self.data.len()
            invariant
                i <= self.data.len(),
                data@.len() == i,
                forall|j: int| 0 <= j < i ==> #[trigger] data@[j]@ == self@.data[j],
            decreases self.data.len() - i,
        {
            data.push(self.data[i].clone());
            i = i + 1;
        }
        let r = Rrset { rtype: self.rtype, ttl: self.ttl, data };
        proof {
            assert(r@.data =~= self@.data);
        }
        r
    }
}

/// A well-formed RRset: at least one record, data fitting the type, no two
/// records alike.
pub open spec fn wf_rrset(r: RrsetV) -> bool {
    &&& r.data.len() >= 1
    &&& forall|i: int| 0 <= i < r.data.len() ==> wf_rdata(r.rtype, #[trigger] r.data[i])
    &&& forall|i: int, j: int| 0 <= i < j < r.data.len() ==> r.data[i] != r.data[j]
}

impl Rrset {
    /// An RRset of one record.
    pub fn single(rtype: u16, ttl: u32, rdata: Rdata) -> (r: Rrset)
        ensures
            r@.rtype == rtype,
            r@.ttl == ttl,
            r@.data == seq![rdata@],
    {
        let mut data: Vec<Rdata> = Vec::new();
        data.push(rdata);
        let r = Rrset { rtype, ttl, data };
        proof {
            assert(r@.data =~= seq![r.data@[0]@]);
        }
        r
    }

    /// Adds one record's data, unless an identical one is present.
    pub fn push_data(&mut self, rdata: Rdata)
        ensures
            final(self)@.rtype == old(self)@.rtype,
            final(self)@.ttl == old(self)@.ttl,
            (exists|i: int| 0 <= i < old(self)@.data.len() && old(self)@.data[i] == rdata@)
                ==> final(self)@ == old(self)@,
            !(exists|i: int| 0 <= i < old(self)@.data.len() && old(self)@.data[i] == rdata@)
                ==> final(self)@.data == old(self)@.data + seq![rdata@],
    {
        let mut i: usize = 0;
        while i < self.data.len()
            invariant
                i <= self.data.len(),
                forall|j: int| 0 <= j < i ==> self@.data[j] != rdata@,
                self@ == old(self)@,
            decreases self.data.len() - i,
        {
            if rdata_eq(&self.data[i], &rdata) {
                proof {
                    assert(old(self)@.data[i as int] == rdata@);
                }
                return ;
            }
            i = i + 1;
        }
        self.data.push(rdata);
        proof {
            assert(self@.data =~= old(self)@.data + seq![rdata@]);
        }
    }
}

/// Structural equality of record data values.
pub fn rdata_eq(a: &Rdata, b: &Rdata) -> (r: bool)
    ensures
        r == (a@ == b@),
{
    match (a, b) {
        (
            Rdata::Soa { mname: m1, rname: r1, serial: s1, refresh: f1, retry: t1, expire: e1, minimum: n1 },
            Rdata::Soa { mname: m2, rname: r2, serial: s2, refresh: f2, retry: t2, expire: e2, minimum: n2 },
        ) => {
            name_exact_eq(m1, m2) && name_exact_eq(r1, r2) && *s1 == *s2 && *f1 == *f2 && *t1
                == *t2 && *e1 == *e2 && *n1 == *n2
        },
        (Rdata::Ns { nsdname: a1 }, Rdata::Ns { nsdname: a2 }) => name_exact_eq(a1, a2),
        (Rdata::Cname { cname: a1 }, Rdata::Cname { cname: a2 }) => name_exact_eq(a1, a2),
        (Rdata::Other { data: d1 }, Rdata::Other { data: d2 }) => bytes_eq(d1, d2),
        _ => false,
    }
}

/// Byte-for-byte equality of two buffers.
pub fn bytes_eq(a: &Vec<u8>, b: &Vec<u8>) -> (r: bool)
    ensures
        r == (a@ == b@),
{
    if a.len() != b.len() {
        proof {
            assert(a@.len() != b@.len());
        }
        return false;
    }
    let mut i: usize = 0;
    while i < a.len()
        invariant
            i <= a.len(),
            a.len() == b.len(),
            forall|j: int| 0 <= j < i ==> a@[j] == b@[j],
        decreases a.len() - i,
    {
        if a[i] != b[i] {
            proof {
                assert(a@[i as int] != b@[i as int]);
            }
            return false;
        }
        i = i + 1;
    }
    proof {
        assert(a@ =~= b@);
    }
    true
}

/// Case-sensitive, label-for-label equality of two names.
pub fn name_exact_eq(a: &Name, b: &Name) -> (r: bool)
    ensures
        r == (a@ == b@),
{
    if a.labels.len() != b.labels.len() {
        proof {
            assert(a@.len() != b@.len());
        }
        return false;
    }
    let mut i: usize = 0;
    while i < a.labels.len()
        invariant
            i <= a.labels.len(),
            a.labels.len() == b.labels.len(),
            forall|j: int| 0 <= j < i ==> a@[j] == b@[j],
        decreases a.labels.len() - i,
    {
        if !bytes_eq(&a.labels[i], &b.labels[i]) {
            proof {
                assert(a@[i as int] == a.labels@[i as int]@);
                assert(b@[i as int] == b.labels@[i as int]@);
            }
            return false;
        }
        i = i + 1;
    }
    proof {
        assert(a@ =~= b@);
    }
    true
}

//---------- Zone entries and snapshots --------------------------------------------

/// One RRset under its owner name.
pub struct ZoneEntry {
    pub owner: Name,
    pub rrset: Rrset,
}

pub ghost struct ZoneEntryV {
    pub owner: Seq<Seq<u8>>,
    pub rrset: RrsetV,
}

impl View for ZoneEntry {
    type V = ZoneEntryV;

    open spec fn view(&self) -> ZoneEntryV {
        ZoneEntryV { owner: self.owner@, rrset: self.rrset@ }
    }
}

impl Clone for ZoneEntry {
    fn clone(&self) -> (r: Self)
        ensures
            r@ == self@,
    {
        ZoneEntry { owner: self.owner.clone(), rrset: self.rrset.clone() }
    }
}

/// The key an entry is stored under: the owner's comparison form and the
/// record type.
pub open spec fn entry_key(e: ZoneEntryV) -> (Seq<Seq<u8>>, u16) {
    (name_key(e.owner), e.rrset.rtype)
}

/// The views of a vector of entries.
pub open spec fn entries_view(v: Seq<ZoneEntry>) -> Seq<ZoneEntryV> {
    Seq::new(v.len(), |i: int| v[i]@)
}

/// The entries as a map from key to entry. With unique keys the order of
/// the entries does not matter.
pub open spec fn entries_map(s: Seq<ZoneEntryV>) -> Map<(Seq<Seq<u8>>, u16), ZoneEntryV>
    decreases s.len(),
{
    if s.len() == 0 {
        Map::empty()
    } else {
        entries_map(s.drop_last()).insert(entry_key(s.last()), s.last())
    }
}

/// Keys are pairwise distinct.
pub open spec fn unique_keys(s: Seq<ZoneEntryV>) -> bool {
    forall|i: int, j: int| 0 <= i < j < s.len() ==> entry_key(s[i]) != entry_key(s[j])
}

/// A well-formed entry: a well-formed owner and a well-formed RRset.
pub open spec fn wf_entry(e: ZoneEntryV) -> bool {
    wf_name(e.owner) && wf_rrset(e.rrset)
}

/// A well-formed snapshot body: well-formed entries under distinct keys.
pub open spec fn wf_entries(s: Seq<ZoneEntryV>) -> bool {
    &&& unique_keys(s)
    &&& forall|i: int| 0 <= i < s.len() ==> wf_entry(#[trigger] s[i])
}

/// Every entry is in the map under its key.
pub proof fn lemma_entries_map_index(s: Seq<ZoneEntryV>, i: int)
    requires
        unique_keys(s),
        0 <= i < s.len(),
    ensures
        entries_map(s).contains_key(entry_key(s[i])),
        entries_map(s)[entry_key(s[i])] == s[i],
    decreases s.len(),
{
    if i < s.len() - 1 {
        assert(unique_keys(s.drop_last())) by {
            assert(forall|a: int, b: int|
                0 <= a < b < s.len() - 1 ==> entry_key(s.drop_last()[a]) != entry_key(
                    s.drop_last()[b],
                ));
        }
        lemma_entries_map_index(s.drop_last(), i);
        assert(entry_key(s[i]) != entry_key(s.last()));
    }
}

/// Every key in the map names some entry.
pub proof fn lemma_entries_map_dom(s: Seq<ZoneEntryV>, k: (Seq<Seq<u8>>, u16))
    requires
        entries_map(s).contains_key(k),
    ensures
        exists|i: int| 0 <= i < s.len() && entry_key(#[trigger] s[i]) == k,
    decreases s.len(),
{
    if s.len() > 0 {
        if k == entry_key(s.last()) {
            assert(entry_key(s[s.len() - 1]) == k);
        } else {
            lemma_entries_map_dom(s.drop_last(), k);
            let i = choose|i: int|
                0 <= i < s.drop_last().len() && entry_key(#[trigger] s.drop_last()[i]) == k;
            assert(entry_key(s[i]) == k);
        }
    }
}

/// A key no entry carries is not in the map.
pub proof fn lemma_entries_map_absent(s: Seq<ZoneEntryV>, k: (Seq<Seq<u8>>, u16))
    requires
        forall|i: int| 0 <= i < s.len() ==> entry_key(#[trigger] s[i]) != k,
    ensures
        !entries_map(s).contains_key(k),
    decreases s.len(),
{
    if s.len() > 0 {
        lemma_entries_map_absent(s.drop_last(), k);
    }
}

//---------- Snapshot ---------------------------------------------------------------

/// An immutable view of a zone at a point in time: its apex and its
/// entries.
pub struct Snapshot {
    pub apex: Name,
    pub entries: Vec<ZoneEntry>,
}

pub ghost struct SnapshotV {
    pub apex: Seq<Seq<u8>>,
    pub entries: Seq<ZoneEntryV>,
}

impl View for Snapshot {
    type V = SnapshotV;

    open spec fn view(&self) -> SnapshotV {
        SnapshotV { apex: self.apex@, entries: entries_view(self.entries@) }
    }
}

impl Clone for Snapshot {
    fn clone(&self) -> (r: Self)
        ensures
            r@ == self@,
    {
        let mut entries: Vec<ZoneEntry> = Vec::new();
        let mut i: usize = 0;
        while i < self.entries.len()
            invariant
                i <= self.entries.len(),
                entries@.len() == i,
                forall|j: int| 0 <= j < i ==> #[trigger] entries@[j]@ == self@.entries[j],
            decreases self.entries.len() - i,
        {
            entries.push(self.entries[i].clone());
            i = i + 1;
        }
        let r = Snapshot { apex: self.apex.clone(), entries };
        proof {
            assert(r@.entries =~= self@.entries);
        }
        r
    }
}

/// The map a snapshot holds.
pub open spec fn snap_map(s: SnapshotV) -> Map<(Seq<Seq<u8>>, u16), ZoneEntryV> {
    entries_map(s.entries)
}

impl Snapshot {
    /// Whether the snapshot's entries are well formed under unique keys.
    pub open spec fn wf(&self) -> bool {
        wf_entries(self@.entries)
    }

    /// An empty snapshot under the given apex.
    pub fn new(apex: Name) -> (r: Snapshot)
        ensures
            r@.apex == apex@,
            r@.entries == Seq::<ZoneEntryV>::empty(),
            r.wf(),
    {
        let r = Snapshot { apex, entries: Vec::new() };
        proof {
            assert(r@.entries =~= Seq::<ZoneEntryV>::empty());
        }
        r
    }

    /// Finds the entry under `(owner, rtype)`, by index.
    pub fn find(&self, owner: &Name, rtype: u16) -> (r: Option<usize>)
        requires
            self.wf(),
        ensures
            match r {
                Some(i) => {
                    &&& i < self@.entries.len()
                    &&& entry_key(self@.entries[i as int]) == (name_key(owner@), rtype)
                    &&& snap_map(self@).contains_key((name_key(owner@), rtype))
                    &&& snap_map(self@)[(name_key(owner@), rtype)] == self@.entries[i as int]
                },
                None => !snap_map(self@).contains_key((name_key(owner@), rtype)),
            },
    {
        let mut i: usize = 0;
        while i < self.entries.len()
            invariant
                i <= self.entries.len(),
                forall|j: int|
                    0 <= j < i ==> entry_key(#[trigger] self@.entries[j]) != (
                        name_key(owner@),
                        rtype,
                    ),
                self.wf(),
            decreases self.entries.len() - i,
        {
            let e = &self.entries[i];
            if e.rrset.rtype == rtype && e.owner.eq_ignore_case(owner) {
                proof {
                    lemma_entries_map_index(self@.entries, i as int);
                }
                return Some(i);
            }
            i = i + 1;
        }
        proof {
            lemma_entries_map_absent(self@.entries, (name_key(owner@), rtype));
        }
        None
    }

    /// Inserts or replaces the RRset at its key.
    pub fn upsert(&mut self, entry: ZoneEntry)
        requires
            old(self).wf(),
            wf_entry(entry@),
        ensures
            final(self).wf(),
            final(self)@.apex == old(self)@.apex,
            snap_map(final(self)@) == snap_map(old(self)@).insert(entry_key(entry@), entry@),
    {
        let ghost oldent = self@.entries;
        let ow = entry.owner.clone();
        let rt = entry.rrset.rtype;
        match self.find(&ow, rt) {
            Some(i) => {
                proof {
                    lemma_set_key(oldent, i as int, entry@);
                }
                self.entries.set(i, entry);
                proof {
                    assert(entries_view(self.entries@) =~= oldent.update(i as int, entry@));
                }
            },
            None => {
                proof {
                    assert forall|i: int| 0 <= i < oldent.len() implies entry_key(
                        #[trigger] oldent[i],
                    ) != entry_key(entry@) by {
                        if entry_key(oldent[i]) == entry_key(entry@) {
                            lemma_entries_map_index(oldent, i);
                        }
                    }
                    lemma_push_key(oldent, entry@);
                }
                self.entries.push(entry);
                proof {
                    assert(entries_view(self.entries@) =~= oldent.push(entry@));
                }
            },
        }
    }

    /// Removes the RRset at `(owner, rtype)`; nothing changes when there
    /// is none.
    pub fn remove_entry(&mut self, owner: &Name, rtype: u16)
        requires
            old(self).wf(),
        ensures
            final(self).wf(),
            final(self)@.apex == old(self)@.apex,
            snap_map(final(self)@) == snap_map(old(self)@).remove((name_key(owner@), rtype)),
    {
        let ghost k = (name_key(owner@), rtype);
        let ghost oldent = self@.entries;
        match self.find(owner, rtype) {
            Some(i) => {
                proof {
                    lemma_remove_key(oldent, i as int);
                }
                self.entries.remove(i);
                proof {
                    assert(entries_view(self.entries@) =~= oldent.remove(i as int));
                }
            },
            None => {
                proof {
                    assert(snap_map(self@).remove(k) =~= snap_map(self@));
                }
            },
        }
    }
}

//---------- Diffs ------------------------------------------------------------------

/// The record-level difference a commit produced: the RRsets the new
/// snapshot dropped or replaced, and those it brought in, with the SOA
/// serials on either side.
pub struct ZoneDiff {
    pub old_serial: u32,
    pub new_serial: u32,
    pub removed: Vec<ZoneEntry>,
    pub added: Vec<ZoneEntry>,
}

pub ghost struct ZoneDiffV {
    pub old_serial: u32,
    pub new_serial: u32,
    pub removed: Seq<ZoneEntryV>,
    pub added: Seq<ZoneEntryV>,
}

impl View for ZoneDiff {
    type V = ZoneDiffV;

    open spec fn view(&self) -> ZoneDiffV {
        ZoneDiffV {
            old_serial: self.old_serial,
            new_serial: self.new_serial,
            removed: entries_view(self.removed@),
            added: entries_view(self.added@),
        }
    }
}

/// The keys at which `a` differs from `b`: present in `a` but absent from
/// `b`, or mapped to something else.
pub open spec fn changed(
    a: Map<(Seq<Seq<u8>>, u16), ZoneEntryV>,
    b: Map<(Seq<Seq<u8>>, u16), ZoneEntryV>,
) -> Set<(Seq<Seq<u8>>, u16)> {
    Set::new(|k: (Seq<Seq<u8>>, u16)| a.contains_key(k) && (!b.contains_key(k) || b[k] != a[k]))
}

/// What a correct diff of `om` against `nm` holds: exactly the changed
/// entries of either side.
pub open spec fn diff_ok(
    om: Map<(Seq<Seq<u8>>, u16), ZoneEntryV>,
    nm: Map<(Seq<Seq<u8>>, u16), ZoneEntryV>,
    d: ZoneDiffV,
) -> bool {
    &&& entries_map(d.removed) == om.restrict(changed(om, nm))
    &&& entries_map(d.added) == nm.restrict(changed(nm, om))
    &&& unique_keys(d.removed)
    &&& unique_keys(d.added)
}

/// Structural equality of two RRsets, order of the data included.
pub fn rrset_eq(a: &Rrset, b: &Rrset) -> (r: bool)
    ensures
        r == (a@ == b@),
{
    if a.rtype != b.rtype || a.ttl != b.ttl || a.data.len() != b.data.len() {
        proof {
            if a.rtype == b.rtype && a.ttl == b.ttl {
                assert(a@.data.len() != b@.data.len());
            }
        }
        return false;
    }
    let mut i: usize = 0;
    while i < a.data.len()
        invariant
            i <= a.data.len(),
            a.data.len() == b.data.len(),
            a.rtype == b.rtype,
            a.ttl == b.ttl,
            forall|j: int| 0 <= j < i ==> a@.data[j] == b@.data[j],
        decreases a.data.len() - i,
    {
        if !rdata_eq(&a.data[i], &b.data[i]) {
            proof {
                assert(a@.data[i as int] != b@.data[i as int]);
            }
            return false;
        }
        i = i + 1;
    }
    proof {
        assert(a@.data =~= b@.data);
    }
    true
}

/// Structural equality of two zone entries.
pub fn entry_eq(a: &ZoneEntry, b: &ZoneEntry) -> (r: bool)
    ensures
        r == (a@ == b@),
{
    name_exact_eq(&a.owner, &b.owner) && rrset_eq(&a.rrset, &b.rrset)
}

/// Computes the difference between two snapshots: the entries of the old
/// one that the new one dropped or replaced, and the entries of the new
/// one that are fresh or replacements.
pub fn compute_diff(oldp: &Snapshot, newp: &Snapshot, old_serial: u32, new_serial: u32) -> (d:
    ZoneDiff)
    requires
        oldp.wf(),
        newp.wf(),
    ensures
        d@.old_serial == old_serial,
        d@.new_serial == new_serial,
        diff_ok(snap_map(oldp@), snap_map(newp@), d@),
        forall|i: int| 0 <= i < d@.removed.len() ==> wf_entry(#[trigger] d@.removed[i]),
        forall|i: int| 0 <= i < d@.added.len() ==> wf_entry(#[trigger] d@.added[i]),
    decreases 0int,
{
    let ghost om = snap_map(oldp@);
    let ghost nm = snap_map(newp@);
    let mut removed: Vec<ZoneEntry> = Vec::new();
    let mut i: usize = 0;
    proof {
        assert(entries_view(removed@) =~= Seq::<ZoneEntryV>::empty());
        assert(entries_map(entries_view(removed@)) =~= om.restrict(changed(om, nm)).restrict(
            entries_map(oldp@.entries.take(0)).dom(),
        ));
    }
    while i < oldp.entries.len()
        invariant
            i <= oldp.entries.len(),
            oldp.wf(),
            newp.wf(),
            om == snap_map(oldp@),
            nm == snap_map(newp@),
            unique_keys(entries_view(removed@)),
            forall|j: int| 0 <= j < removed@.len() ==> wf_entry(#[trigger] entries_view(removed@)[j]),
            entries_map(entries_view(removed@)) == om.restrict(changed(om, nm)).restrict(
                entries_map(oldp@.entries.take(i as int)).dom(),
            ),
            forall|j: int|
                0 <= j < removed@.len() ==> entries_map(oldp@.entries.take(i as int)).dom().contains(
                    entry_key(#[trigger] entries_view(removed@)[j]),
                ),
        decreases oldp.entries.len() - i,
    {
        let e = &oldp.entries[i];
        let ghost ev = e@;
        let ghost k = entry_key(ev);
        proof {
            lemma_entries_map_index(oldp@.entries, i as int);
            assert(oldp@.entries.take(i + 1).drop_last() =~= oldp@.entries.take(i as int));
            assert(oldp@.entries.take(i + 1).last() == ev);
        }
        let is_changed = match newp.find(&e.owner, e.rrset.rtype) {
            None => true,
            Some(j) => !entry_eq(e, &newp.entries[j]),
        };
        let ghost pre_removed = entries_view(removed@);
        let ghost dom_old = entries_map(oldp@.entries.take(i as int)).dom();
        let ghost dom_new = entries_map(oldp@.entries.take(i + 1)).dom();
        proof {
            assert(entries_map(oldp@.entries.take(i + 1)) == entries_map(
                oldp@.entries.take(i as int),
            ).insert(k, ev));
            assert(dom_new =~= dom_old.insert(k));
        }
        if is_changed {
            proof {
                assert(changed(om, nm).contains(k));
                assert forall|j: int| 0 <= j < pre_removed.len() implies entry_key(
                    #[trigger] pre_removed[j],
                ) != k by {
                    if entry_key(pre_removed[j]) == k {
                        lemma_entries_map_dom(oldp@.entries.take(i as int), k);
                        let x = choose|x: int|
                            0 <= x < oldp@.entries.take(i as int).len() && entry_key(
                                #[trigger] oldp@.entries.take(i as int)[x],
                            ) == k;
                        assert(entry_key(oldp@.entries[x]) == entry_key(oldp@.entries[i as int]));
                    }
                }
                lemma_push_key(pre_removed, ev);
            }
            removed.push(e.clone());
            proof {
                assert(entries_view(removed@) =~= pre_removed.push(ev));
                assert(entries_map(entries_view(removed@)) =~= om.restrict(changed(om, nm)).restrict(
                    dom_new,
                ));
            }
        } else {
            proof {
                assert(!changed(om, nm).contains(k));
                assert(entries_map(entries_view(removed@)) =~= om.restrict(changed(om, nm)).restrict(
                    dom_new,
                ));
            }
        }
        i = i + 1;
    }
    proof {
        assert(oldp@.entries.take(i as int) =~= oldp@.entries);
        lemma_restrict_full(om, nm);
    }
    let mut added: Vec<ZoneEntry> = Vec::new();
    let mut i2: usize = 0;
    proof {
        assert(entries_view(added@) =~= Seq::<ZoneEntryV>::empty());
        assert(entries_map(entries_view(added@)) =~= nm.restrict(changed(nm, om)).restrict(
            entries_map(newp@.entries.take(0)).dom(),
        ));
    }
    while i2 < newp.entries.len()
        invariant
            i2 <= newp.entries.len(),
            oldp.wf(),
            newp.wf(),
            om == snap_map(oldp@),
            nm == snap_map(newp@),
            unique_keys(entries_view(added@)),
            forall|j: int| 0 <= j < added@.len() ==> wf_entry(#[trigger] entries_view(added@)[j]),
            entries_map(entries_view(added@)) == nm.restrict(changed(nm, om)).restrict(
                entries_map(newp@.entries.take(i2 as int)).dom(),
            ),
            forall|j: int|
                0 <= j < added@.len() ==> entries_map(newp@.entries.take(i2 as int)).dom().contains(
                    entry_key(#[trigger] entries_view(added@)[j]),
                ),
        decreases newp.entries.len() - i2,
    {
        let e = &newp.entries[i2];
        let ghost ev = e@;
        let ghost k = entry_key(ev);
        proof {
            lemma_entries_map_index(newp@.entries, i2 as int);
            assert(newp@.entries.take(i2 + 1).drop_last() =~= newp@.entries.take(i2 as int));
            assert(newp@.entries.take(i2 + 1).last() == ev);
        }
        let is_changed = match oldp.find(&e.owner, e.rrset.rtype) {
            None => true,
            Some(j) => !entry_eq(e, &oldp.entries[j]),
        };
        let ghost pre_added = entries_view(added@);
        let ghost dom_old = entries_map(newp@.entries.take(i2 as int)).dom();
        let ghost dom_new = entries_map(newp@.entries.take(i2 + 1)).dom();
        proof {
            assert(entries_map(newp@.entries.take(i2 + 1)) == entries_map(
                newp@.entries.take(i2 as int),
            ).insert(k, ev));
            assert(dom_new =~= dom_old.insert(k));
        }
        if is_changed {
            proof {
                assert(changed(nm, om).contains(k));
                assert forall|j: int| 0 <= j < pre_added.len() implies entry_key(
                    #[trigger] pre_added[j],
                ) != k by {
                    if entry_key(pre_added[j]) == k {
                        lemma_entries_map_dom(newp@.entries.take(i2 as int), k);
                        let x = choose|x: int|
                            0 <= x < newp@.entries.take(i2 as int).len() && entry_key(
                                #[trigger] newp@.entries.take(i2 as int)[x],
                            ) == k;
                        assert(entry_key(newp@.entries[x]) == entry_key(newp@.entries[i2 as int]));
                    }
                }
                lemma_push_key(pre_added, ev);
            }
            added.push(e.clone());
            proof {
                assert(entries_view(added@) =~= pre_added.push(ev));
                assert(entries_map(entries_view(added@)) =~= nm.restrict(changed(nm, om)).restrict(
                    dom_new,
                ));
            }
        } else {
            proof {
                assert(!changed(nm, om).contains(k));
                assert(entries_map(entries_view(added@)) =~= nm.restrict(changed(nm, om)).restrict(
                    dom_new,
                ));
            }
        }
        i2 = i2 + 1;
    }
    proof {
        assert(newp@.entries.take(i2 as int) =~= newp@.entries);
        lemma_restrict_full(nm, om);
    }
    ZoneDiff { old_serial, new_serial, removed, added }
}

/// Restricting the changed part of `a` to all of `a`'s keys changes
/// nothing.
pub proof fn lemma_restrict_full(
    a: Map<(Seq<Seq<u8>>, u16), ZoneEntryV>,
    b: Map<(Seq<Seq<u8>>, u16), ZoneEntryV>,
)
    ensures
        a.restrict(changed(a, b)).restrict(a.dom()) == a.restrict(changed(a, b)),
{
    assert(a.restrict(changed(a, b)).restrict(a.dom()) =~= a.restrict(changed(a, b)));
}

/// Applies a diff to a snapshot: its removed keys are dropped, its added
/// entries take their places.
pub fn apply_diff(s: &Snapshot, d: &ZoneDiff) -> (r: Snapshot)
    requires
        s.wf(),
        forall|i: int| 0 <= i < d@.added.len() ==> wf_entry(#[trigger] d@.added[i]),
    ensures
        r.wf(),
        r@.apex == s@.apex,
        snap_map(r@) == snap_map(s@).remove_keys(entries_map(d@.removed).dom()).union_prefer_right(
            entries_map(d@.added),
        ),
{
    let mut cur = s.clone();
    let ghost base = snap_map(s@);
    let mut i: usize = 0;
    proof {
        assert(snap_map(cur@) =~= base.remove_keys(entries_map(d@.removed.take(0)).dom()));
    }
    while i < d.removed.len()
        invariant
            i <= d.removed.len(),
            cur.wf(),
            cur@.apex == s@.apex,
            base == snap_map(s@),
            d@.removed == entries_view(d.removed@),
            snap_map(cur@) == base.remove_keys(entries_map(d@.removed.take(i as int)).dom()),
        decreases d.removed.len() - i,
    {
        let e = &d.removed[i];
        proof {
            assert(d@.removed.take(i + 1).drop_last() =~= d@.removed.take(i as int));
            assert(d@.removed.take(i + 1).last() == e@);
        }
        cur.remove_entry(&e.owner, e.rrset.rtype);
        i = i + 1;
        proof {
            assert(snap_map(cur@) =~= base.remove_keys(entries_map(d@.removed.take(i as int)).dom()));
        }
    }
    proof {
        assert(d@.removed.take(i as int) =~= d@.removed);
    }
    let ghost mid = snap_map(cur@);
    let mut j: usize = 0;
    proof {
        assert(snap_map(cur@) =~= mid.union_prefer_right(entries_map(d@.added.take(0))));
    }
    while j < d.added.len()
        invariant
            j <= d.added.len(),
            cur.wf(),
            cur@.apex == s@.apex,
            d@.added == entries_view(d.added@),
            forall|x: int| 0 <= x < d@.added.len() ==> wf_entry(#[trigger] d@.added[x]),
            snap_map(cur@) == mid.union_prefer_right(entries_map(d@.added.take(j as int))),
        decreases d.added.len() - j,
    {
        let e = d.added[j].clone();
        proof {
            assert(d@.added.take(j + 1).drop_last() =~= d@.added.take(j as int));
            assert(d@.added.take(j + 1).last() == e@);
        }
        cur.upsert(e);
        j = j + 1;
        proof {
            assert(snap_map(cur@) =~= mid.union_prefer_right(entries_map(d@.added.take(j as int))));
        }
    }
    proof {
        assert(d@.added.take(j as int) =~= d@.added);
    }
    cur
}

/// The diff swapped around: what undoes the commit that produced it.
pub fn reverse_diff(d: &ZoneDiff) -> (r: ZoneDiff)
    ensures
        r@.old_serial == d@.new_serial,
        r@.new_serial == d@.old_serial,
        r@.removed == d@.added,
        r@.added == d@.removed,
{
    let mut removed: Vec<ZoneEntry> = Vec::new();
    let mut i: usize = 0;
    while i < d.added.len()
        invariant
            i <= d.added.len(),
            removed@.len() == i,
            forall|j: int| 0 <= j < i ==> #[trigger] removed@[j]@ == d@.added[j],
        decreases d.added.len() - i,
    {
        removed.push(d.added[i].clone());
        i = i + 1;
    }
    let mut added: Vec<ZoneEntry> = Vec::new();
    let mut j: usize = 0;
    while j < d.removed.len()
        invariant
            j <= d.removed.len(),
            added@.len() == j,
            forall|x: int| 0 <= x < j ==> #[trigger] added@[x]@ == d@.removed[x],
        decreases d.removed.len() - j,
    {
        added.push(d.removed[j].clone());
        j = j + 1;
    }
    let r = ZoneDiff { old_serial: d.new_serial, new_serial: d.old_serial, removed, added };
    proof {
        assert(r@.removed =~= d@.added);
        assert(r@.added =~= d@.removed);
    }
    r
}

/// The law of commits and their diffs: applying a commit's diff to the
/// snapshot before it yields the snapshot after it, and applying the diff
/// in reverse takes the snapshot after back to the one before.
pub proof fn lemma_diff_round_trip(
    om: Map<(Seq<Seq<u8>>, u16), ZoneEntryV>,
    nm: Map<(Seq<Seq<u8>>, u16), ZoneEntryV>,
    d: ZoneDiffV,
)
    requires
        diff_ok(om, nm, d),
    ensures
        om.remove_keys(entries_map(d.removed).dom()).union_prefer_right(entries_map(d.added))
            == nm,
        nm.remove_keys(entries_map(d.added).dom()).union_prefer_right(entries_map(d.removed))
            == om,
{
    let rm = entries_map(d.removed);
    let am = entries_map(d.added);
    assert(om.remove_keys(rm.dom()).union_prefer_right(am) =~= nm) by {
        assert forall|k: (Seq<Seq<u8>>, u16)|
            #![auto]
            om.remove_keys(rm.dom()).union_prefer_right(am).contains_key(k) == nm.contains_key(
                k,
            ) by {}
    }
    assert(nm.remove_keys(am.dom()).union_prefer_right(rm) =~= om) by {
        assert forall|k: (Seq<Seq<u8>>, u16)|
            #![auto]
            nm.remove_keys(am.dom()).union_prefer_right(rm).contains_key(k) == om.contains_key(
                k,
            ) by {}
    }
}

//---------- Zone -------------------------------------------------------------------

/// Record types that may stand beside a CNAME at the same owner.
pub open spec fn is_dnssec_type(t: u16) -> bool {
    t == RT_RRSIG || t == RT_NSEC || t == RT_NSEC3
}

/// What a committed zone must satisfy: well-formed entries under distinct
/// keys, all owners at or below the apex, exactly one SOA record at the
/// apex, at least one NS at the apex, and no CNAME beside other data.
pub open spec fn valid_zone_contents(s: SnapshotV) -> bool {
    &&& wf_entries(s.entries)
    &&& snap_map(s).contains_key((name_key(s.apex), RT_SOA))
    &&& snap_map(s)[(name_key(s.apex), RT_SOA)].rrset.data.len() == 1
    &&& snap_map(s).contains_key((name_key(s.apex), RT_NS))
    &&& forall|i: int|
        0 <= i < s.entries.len() ==> ancestor_of(s.apex, #[trigger] s.entries[i].owner)
    &&& forall|i: int, j: int|
        0 <= i < s.entries.len() && 0 <= j < s.entries.len() && i != j && (#[trigger] s.entries[
            i
        ]).rrset.rtype == RT_CNAME && name_key(s.entries[i].owner) == name_key(
            (#[trigger] s.entries[j]).owner,
        ) ==> is_dnssec_type(s.entries[j].rrset.rtype)
}

/// The serial in an entry's first SOA record.
pub open spec fn soa_serial(e: ZoneEntryV) -> u32 {
    match e.rrset.data[0] {
        RdataV::Soa { serial, .. } => serial,
        _ => 0,
    }
}

/// Reads the serial out of a SOA entry.
pub fn soa_serial_of(e: &ZoneEntry) -> (r: u32)
    requires
        e@.rrset.data.len() >= 1,
        wf_rrset(e@.rrset),
        e@.rrset.rtype == RT_SOA,
    ensures
        r == soa_serial(e@),
{
    match &e.rrset.data[0] {
        Rdata::Soa { serial, .. } => *serial,
        _ => {
            proof {
                assert(wf_rdata(RT_SOA, e@.rrset.data[0]));
                assert(false);
            }
            0
        },
    }
}

/// Why a commit was refused.
#[derive(Clone, Copy, Debug, PartialEq, Eq, Structural)]
pub enum ZoneError {
    /// The apex has no SOA RRset.
    MissingSoa,
    /// The apex SOA RRset holds more than one record.
    MultipleSoaRdata,
    /// The apex has no NS RRset.
    MissingNs,
    /// An owner name lies outside the zone.
    OutOfZone,
    /// A CNAME stands beside other data at the same owner.
    CnameConflict,
}

pub ghost struct ZoneV {
    pub apex: Seq<Seq<u8>>,
    pub class: u16,
    pub published: SnapshotV,
}

/// A zone: an apex name, a class, and the snapshot its readers see.
/// Writers build a new snapshot aside and publish it whole at commit.
pub struct Zone {
    pub apex: Name,
    pub class: u16,
    pub published: Snapshot,
}

impl View for Zone {
    type V = ZoneV;

    open spec fn view(&self) -> ZoneV {
        ZoneV { apex: self.apex@, class: self.class, published: self.published@ }
    }
}

/// A write in progress: the snapshot being built. Nothing of it is
/// visible to readers until the zone commits it.
pub struct WriteGuard {
    pub pending: Snapshot,
}

impl WriteGuard {
    /// Inserts or replaces an RRset under its owner.
    pub fn update_rrset(&mut self, owner: &Name, rrset: Rrset)
        requires
            old(self).pending.wf(),
            wf_name(owner@),
            wf_rrset(rrset@),
        ensures
            final(self).pending.wf(),
            final(self).pending@.apex == old(self).pending@.apex,
            snap_map(final(self).pending@) == snap_map(old(self).pending@).insert(
                (name_key(owner@), rrset@.rtype),
                ZoneEntryV { owner: owner@, rrset: rrset@ },
            ),
    {
        let entry = ZoneEntry { owner: owner.clone(), rrset };
        self.pending.upsert(entry);
    }

    /// Removes the RRset of the given type at the owner.
    pub fn remove_rrset(&mut self, owner: &Name, rtype: u16)
        requires
            old(self).pending.wf(),
        ensures
            final(self).pending.wf(),
            final(self).pending@.apex == old(self).pending@.apex,
            snap_map(final(self).pending@) == snap_map(old(self).pending@).remove(
                (name_key(owner@), rtype),
            ),
    {
        self.pending.remove_entry(owner, rtype);
    }
}

impl Zone {
    /// The zone and its published snapshot are in shape: names agree and
    /// the snapshot's entries are well formed.
    pub open spec fn wf(&self) -> bool {
        &&& wf_name(self@.apex)
        &&& self.published.wf()
        &&& self@.published.apex == self@.apex
    }

    /// A new, empty zone. Its first commit gives it contents.
    pub fn new(apex: Name, class: u16) -> (r: Zone)
        requires
            wf_name(apex@),
        ensures
            r@.apex == apex@,
            r@.class == class,
            r@.published.entries == Seq::<ZoneEntryV>::empty(),
            r.wf(),
    {
        let published = Snapshot::new(apex.clone());
        Zone { apex, class, published }
    }

    /// The snapshot readers see. The value is the reader's own: commits
    /// that follow do not touch it.
    pub fn read(&self) -> (s: Snapshot)
        ensures
            s@ == self@.published,
    {
        self.published.clone()
    }

    /// Opens a write: a copy of the published snapshot to change freely.
    pub fn write(&self) -> (w: WriteGuard)
        ensures
            w.pending@ == self@.published,
    {
        WriteGuard { pending: self.published.clone() }
    }

    /// Publishes a pending snapshot, after checking the zone invariants.
    /// On success readers from now on see the new snapshot, and — when
    /// asked, and when the previous snapshot had a SOA — the record-level
    /// diff comes back for incremental transfer. On failure the published
    /// snapshot stays as it was.
    pub fn commit(&mut self, w: WriteGuard, create_diff: bool) -> (r: Result<
        Option<ZoneDiff>,
        ZoneError,
    >)
        requires
            old(self).wf(),
            w.pending.wf(),
            w.pending@.apex == old(self)@.apex,
        ensures
            match r {
                Ok(d) => {
                    &&& valid_zone_contents(w.pending@)
                    &&& final(self)@.published == w.pending@
                    &&& final(self)@.apex == old(self)@.apex
                    &&& final(self)@.class == old(self)@.class
                    &&& final(self).wf()
                    &&& match d {
                        Some(diff) => {
                            &&& create_diff
                            &&& snap_map(old(self)@.published).contains_key(
                                (name_key(old(self)@.apex), RT_SOA),
                            )
                            &&& diff_ok(
                                snap_map(old(self)@.published),
                                snap_map(w.pending@),
                                diff@,
                            )
                            &&& diff@.old_serial == soa_serial(
                                snap_map(old(self)@.published)[(name_key(old(self)@.apex), RT_SOA)],
                            )
                            &&& diff@.new_serial == soa_serial(
                                snap_map(w.pending@)[(name_key(w.pending@.apex), RT_SOA)],
                            )
                        },
                        None => !create_diff || !snap_map(old(self)@.published).contains_key(
                            (name_key(old(self)@.apex), RT_SOA),
                        ),
                    }
                },
                Err(_) => {
                    &&& !valid_zone_contents(w.pending@)
                    &&& *final(self) == *old(self)
                },
            },
    {
        let pending = w.pending;
        // every owner must lie at or below the apex; CNAMEs must stand alone
        let mut i: usize = 0;
        while i < pending.entries.len()
            invariant
                i <= pending.entries.len(),
                pending.wf(),
                pending@ == w.pending@,
                forall|x: int|
                    0 <= x < i ==> ancestor_of(pending@.apex, #[trigger] pending@.entries[x].owner),
                forall|x: int, j: int|
                    0 <= x < i && 0 <= j < pending@.entries.len() && x != j && (
                    #[trigger] pending@.entries[x]).rrset.rtype == RT_CNAME && name_key(
                        pending@.entries[x].owner,
                    ) == name_key((#[trigger] pending@.entries[j]).owner) ==> is_dnssec_type(
                        pending@.entries[j].rrset.rtype,
                    ),
            decreases pending.entries.len() - i,
        {
            let e = &pending.entries[i];
            if !pending.apex.is_ancestor_of(&e.owner) {
                proof {
                    assert(!ancestor_of(w.pending@.apex, w.pending@.entries[i as int].owner));
                    assert(!valid_zone_contents(w.pending@));
                }
                return Err(ZoneError::OutOfZone);
            }
            if e.rrset.rtype == RT_CNAME {
                let mut j: usize = 0;
                while j < pending.entries.len()
                    invariant
                        j <= pending.entries.len(),
                        i < pending.entries.len(),
                        pending.wf(),
                        pending@ == w.pending@,
                        pending@.entries[i as int].rrset.rtype == RT_CNAME,
                        forall|y: int|
                            0 <= y < j && y != i && name_key(pending@.entries[i as int].owner)
                                == name_key((#[trigger] pending@.entries[y]).owner)
                                ==> is_dnssec_type(pending@.entries[y].rrset.rtype),
                    decreases pending.entries.len() - j,
                {
                    if j != i {
                        let o = &pending.entries[j];
                        if o.owner.eq_ignore_case(&pending.entries[i].owner) {
                            let t = o.rrset.rtype;
                            if !(t == RT_RRSIG || t == RT_NSEC || t == RT_NSEC3) {
                                proof {
                                    assert(w.pending@.entries[i as int].rrset.rtype == RT_CNAME);
                                    assert(name_key(w.pending@.entries[i as int].owner)
                                        == name_key(w.pending@.entries[j as int].owner));
                                    assert(!is_dnssec_type(
                                        w.pending@.entries[j as int].rrset.rtype,
                                    ));
                                    assert(!valid_zone_contents(w.pending@));
                                }
                                return Err(ZoneError::CnameConflict);
                            }
                        }
                    }
                    j = j + 1;
                }
            }
            i = i + 1;
        }
        // the apex must carry exactly one SOA record and at least one NS
        let old_soa = match self.published.find(&self.apex, RT_SOA) {
            Some(k) => Some(self.published.entries[k].clone()),
            None => None,
        };
        let soa_idx = match pending.find(&pending.apex, RT_SOA) {
            Some(k) => k,
            None => {
                return Err(ZoneError::MissingSoa);
            },
        };
        if pending.entries[soa_idx].rrset.data.len() != 1 {
            return Err(ZoneError::MultipleSoaRdata);
        }
        match pending.find(&pending.apex, RT_NS) {
            Some(_) => {},
            None => {
                return Err(ZoneError::MissingNs);
            },
        }
        let new_serial = soa_serial_of(&pending.entries[soa_idx]);
        let diff = if create_diff {
            match old_soa {
                Some(old_entry) => {
                    let old_serial = soa_serial_of(&old_entry);
                    Some(compute_diff(&self.published, &pending, old_serial, new_serial))
                },
                None => None,
            }
        } else {
            None
        };
        self.published = pending;
        Ok(diff)
    }
}

//---------- Answers ----------------------------------------------------------------

pub ghost struct AnswerV {
    pub rcode: u8,
    pub answer: Seq<ZoneEntryV>,
    pub authority: Seq<ZoneEntryV>,
    pub additional: Seq<ZoneEntryV>,
}

/// What a lookup found: a response code and the RRsets for the three
/// response sections.
pub struct Answer {
    pub rcode: u8,
    pub answer: Vec<ZoneEntry>,
    pub authority: Vec<ZoneEntry>,
    pub additional: Vec<ZoneEntry>,
}

impl View for Answer {
    type V = AnswerV;

    open spec fn view(&self) -> AnswerV {
        AnswerV {
            rcode: self.rcode,
            answer: entries_view(self.answer@),
            authority: entries_view(self.authority@),
            additional: entries_view(self.additional@),
        }
    }
}

impl Answer {
    /// An empty answer with just a response code.
    pub fn new(rcode: u8) -> (r: Answer)
        ensures
            r@.rcode == rcode,
            r@.answer == Seq::<ZoneEntryV>::empty(),
            r@.authority == Seq::<ZoneEntryV>::empty(),
            r@.additional == Seq::<ZoneEntryV>::empty(),
    {
        let r = Answer {
            rcode,
            answer: Vec::new(),
            authority: Vec::new(),
            additional: Vec::new(),
        };
        proof {
            assert(r@.answer =~= Seq::<ZoneEntryV>::empty());
            assert(r@.authority =~= Seq::<ZoneEntryV>::empty());
            assert(r@.additional =~= Seq::<ZoneEntryV>::empty());
        }
        r
    }
}

/// The full message an answer becomes: the request's question, the
/// answer's sections expanded to records, and its response code.
pub open spec fn answer_message(
    a: AnswerV,
    req: crate::message::MessageV,
    class: u16,
) -> crate::message::MessageV {
    crate::message::MessageV {
        header: crate::message::Header { rcode: a.rcode, ..crate::message::empty_header() },
        questions: req.questions,
        answers: crate::xfr::records_of_entries(a.answer, class),
        authorities: crate::xfr::records_of_entries(a.authority, class),
        additionals: crate::xfr::records_of_entries(a.additional, class),
    }
}

impl Answer {
    /// Builds the reply this answer describes: the request's question
    /// echoed, the answer's RRsets expanded into the three sections, the
    /// response code set. Refused only when the whole would outgrow a
    /// frame.
    #[verifier::rlimit(100)]
    pub fn to_message(
        &self,
        request: &crate::message::Message,
        class: u16,
    ) -> (r: Result<crate::builder::ResponseBuilder, crate::builder::ShortBuf>)
        requires
            self@.rcode < 16,
            forall|i: int|
                0 <= i < request@.questions.len() ==> crate::wire::wf_question(
                    #[trigger] request@.questions[i],
                ),
            request@.questions.len() <= 65535,
            forall|i: int| 0 <= i < self@.answer.len() ==> wf_entry(#[trigger] self@.answer[i]),
            forall|i: int|
                0 <= i < self@.authority.len() ==> wf_entry(#[trigger] self@.authority[i]),
            forall|i: int|
                0 <= i < self@.additional.len() ==> wf_entry(#[trigger] self@.additional[i]),
        ensures
            match r {
                Ok(b) => {
                    &&& b.wf()
                    &&& b@ == answer_message(self@, request@, class)
                },
                Err(_) => crate::wire::wire_message(answer_message(self@, request@, class)).len()
                    > 65535,
            },
    {
        let ghost target = answer_message(self@, request@, class);
        let ghost wq = crate::wire::wire_questions(target.questions);
        let ghost wa = crate::wire::wire_records(target.answers);
        let ghost wn = crate::wire::wire_records(target.authorities);
        let ghost wr = crate::wire::wire_records(target.additionals);
        proof {
            assert(crate::wire::wire_message(target).len() == 12 + wq.len() + wa.len() + wn.len()
                + wr.len());
        }
        let mut builder = match answer_start(request, self.rcode) {
            Ok(b) => b,
            Err(e) => {
                return Err(e);
            },
        };
        let ans_records = crate::xfr::entries_to_records(&self.answer, class);
        let aut_records = crate::xfr::entries_to_records(&self.authority, class);
        let add_records = crate::xfr::entries_to_records(&self.additional, class);
        let ghost base = 12 + wq.len() as int;
        proof {
            assert(target.answers.take(0) =~= Seq::<crate::message::RecordV>::empty());
            assert(crate::wire::wire_records(target.answers.take(0)).len() == 0);
            assert(builder@ == (crate::message::MessageV {
                answers: target.answers.take(0),
                authorities: Seq::empty(),
                additionals: Seq::empty(),
                ..target
            }));
        }
        let mut i: usize = 0;
        while i < ans_records.len()
            invariant
                i <= ans_records.len(),
                target == answer_message(self@, request@, class),
                crate::message::records_view(ans_records@) == target.answers,
                forall|x: int|
                    0 <= x < target.answers.len() ==> crate::wire::wf_record(
                        #[trigger] target.answers[x],
                    ),
                builder.wf(),
                builder@ == (crate::message::MessageV {
                    answers: target.answers.take(i as int),
                    authorities: Seq::empty(),
                    additionals: Seq::empty(),
                    ..target
                }),
                crate::wire::wire_message(builder@).len() == base + crate::wire::wire_records(
                    target.answers.take(i as int),
                ).len(),
                base + crate::wire::wire_records(target.answers).len() <= crate::wire::wire_message(
                    target,
                ).len(),
                base == 12 + crate::wire::wire_questions(target.questions).len(),
            decreases ans_records.len() - i,
        {
            proof {
                lemma_section_step(target.answers, i as int);
            }
            match builder.push_answer(ans_records[i].clone()) {
                Ok(()) => {
                    proof {
                        assert(builder@.answers =~= target.answers.take(i + 1));
                        assert(builder@ == (crate::message::MessageV {
                            answers: target.answers.take(i + 1),
                            authorities: Seq::empty(),
                            additionals: Seq::empty(),
                            ..target
                        }));
                    }
                },
                Err(e) => {
                    proof {
                        crate::wire::lemma_wire_records_min(target.answers.take(i as int));
                        assert(crate::wire::wire_message(target).len() > 65535);
                    }
                    return Err(e);
                },
            }
            i = i + 1;
        }
        proof {
            assert(target.answers.take(i as int) =~= target.answers);
        }
        let ghost base2 = base + crate::wire::wire_records(target.answers).len() as int;
        proof {
            assert(target.authorities.take(0) =~= Seq::<crate::message::RecordV>::empty());
            assert(crate::wire::wire_records(target.authorities.take(0)).len() == 0);
            assert(builder@ == (crate::message::MessageV {
                authorities: target.authorities.take(0),
                additionals: Seq::empty(),
                ..target
            }));
        }
        let mut i2: usize = 0;
        while i2 < aut_records.len()
            invariant
                i2 <= aut_records.len(),
                target == answer_message(self@, request@, class),
                crate::message::records_view(aut_records@) == target.authorities,
                forall|x: int|
                    0 <= x < target.authorities.len() ==> crate::wire::wf_record(
                        #[trigger] target.authorities[x],
                    ),
                builder.wf(),
                builder@ == (crate::message::MessageV {
                    authorities: target.authorities.take(i2 as int),
                    additionals: Seq::empty(),
                    ..target
                }),
                crate::wire::wire_message(builder@).len() == base2 + crate::wire::wire_records(
                    target.authorities.take(i2 as int),
                ).len(),
                base2 + crate::wire::wire_records(target.authorities).len()
                    <= crate::wire::wire_message(target).len(),
            decreases aut_records.len() - i2,
        {
            proof {
                lemma_section_step(target.authorities, i2 as int);
            }
            match builder.push_authority(aut_records[i2].clone()) {
                Ok(()) => {
                    proof {
                        assert(builder@.authorities =~= target.authorities.take(i2 + 1));
                        assert(builder@ == (crate::message::MessageV {
                            authorities: target.authorities.take(i2 + 1),
                            additionals: Seq::empty(),
                            ..target
                        }));
                    }
                },
                Err(e) => {
                    proof {
                        crate::wire::lemma_wire_records_min(target.authorities.take(i2 as int));
                        assert(crate::wire::wire_message(target).len() > 65535);
                    }
                    return Err(e);
                },
            }
            i2 = i2 + 1;
        }
        proof {
            assert(target.authorities.take(i2 as int) =~= target.authorities);
        }
        let ghost base3 = base2 + crate::wire::wire_records(target.authorities).len() as int;
        proof {
            assert(target.additionals.take(0) =~= Seq::<crate::message::RecordV>::empty());
            assert(crate::wire::wire_records(target.additionals.take(0)).len() == 0);
            assert(builder@ == (crate::message::MessageV {
                additionals: target.additionals.take(0),
                ..target
            }));
        }
        let mut i3: usize = 0;
        while i3 < add_records.len()
            invariant
                i3 <= add_records.len(),
                target == answer_message(self@, request@, class),
                crate::message::records_view(add_records@) == target.additionals,
                forall|x: int|
                    0 <= x < target.additionals.len() ==> crate::wire::wf_record(
                        #[trigger] target.additionals[x],
                    ),
                builder.wf(),
                builder@ == (crate::message::MessageV {
                    additionals: target.additionals.take(i3 as int),
                    ..target
                }),
                crate::wire::wire_message(builder@).len() == base3 + crate::wire::wire_records(
                    target.additionals.take(i3 as int),
                ).len(),
                base3 + crate::wire::wire_records(target.additionals).len()
                    <= crate::wire::wire_message(target).len(),
            decreases add_records.len() - i3,
        {
            proof {
                lemma_section_step(target.additionals, i3 as int);
            }
            match builder.push_additional(add_records[i3].clone()) {
                Ok(()) => {
                    proof {
                        assert(builder@.additionals =~= target.additionals.take(i3 + 1));
                        assert(builder@ == (crate::message::MessageV {
                            additionals: target.additionals.take(i3 + 1),
                            ..target
                        }));
                    }
                },
                Err(e) => {
                    proof {
                        crate::wire::lemma_wire_records_min(target.additionals.take(i3 as int));
                        assert(crate::wire::wire_message(target).len() > 65535);
                    }
                    return Err(e);
                },
            }
            i3 = i3 + 1;
        }
        proof {
            assert(target.additionals.take(i3 as int) =~= target.additionals);
            assert(builder@ == target);
        }
        Ok(builder)
    }
}

/// A section splits around any index, and one record's wire length is
/// bounded by the rest of the section.
pub proof fn lemma_section_step(rs: Seq<crate::message::RecordV>, i: int)
    requires
        0 <= i < rs.len(),
    ensures
        rs.take(i + 1) == rs.take(i) + seq![rs[i]],
        crate::wire::wire_records(rs.take(i + 1)) == crate::wire::wire_records(rs.take(i))
            + crate::wire::wire_record(rs[i]),
        crate::wire::wire_records(rs.take(i)).len() + crate::wire::wire_record(rs[i]).len()
            <= crate::wire::wire_records(rs).len(),
{
    assert(rs.take(i + 1) =~= rs.take(i) + seq![rs[i]]);
    crate::wire::lemma_wire_records_add(rs.take(i), seq![rs[i]]);
    crate::wire::lemma_wire_records_single(rs[i]);
    assert(rs =~= rs.take(i + 1) + rs.skip(i + 1));
    crate::wire::lemma_wire_records_add(rs.take(i + 1), rs.skip(i + 1));
}

/// Starts an answer's reply: the request's question and the response
/// code, nothing else.
fn answer_start(
    request: &crate::message::Message,
    rcode: u8,
) -> (r: Result<crate::builder::ResponseBuilder, crate::builder::ShortBuf>)
    requires
        rcode < 16,
        forall|i: int|
            0 <= i < request@.questions.len() ==> crate::wire::wf_question(
                #[trigger] request@.questions[i],
            ),
        request@.questions.len() <= 65535,
    ensures
        match r {
            Ok(b) => {
                &&& b.wf()
                &&& b@ == (crate::message::MessageV {
                    header: crate::message::Header {
                        rcode,
                        ..crate::message::empty_header()
                    },
                    questions: request@.questions,
                    answers: Seq::empty(),
                    authorities: Seq::empty(),
                    additionals: Seq::empty(),
                })
                &&& crate::wire::wire_message(b@).len() == 12 + crate::wire::wire_questions(
                    request@.questions,
                ).len()
            },
            Err(_) => 12 + crate::wire::wire_questions(request@.questions).len() > 65535,
        },
{
    let mut builder = crate::builder::ResponseBuilder::new();
    proof {
        crate::builder::lemma_empty_message_wire(builder@);
        assert(builder@.questions =~= request@.questions.take(0));
        assert(crate::wire::wire_questions(request@.questions.take(0)).len() == 0);
    }
    builder.set_rcode(rcode);
    let qs = &request.questions;
    let ghost qv = request@.questions;
    let mut i: usize = 0;
    while i < qs.len()
        invariant
            i <= qs.len(),
            qv == crate::message::questions_view(qs@),
            qv == request@.questions,
            qv.len() <= 65535,
            forall|x: int| 0 <= x < qv.len() ==> crate::wire::wf_question(#[trigger] qv[x]),
            builder.wf(),
            builder@.header == (crate::message::Header {
                rcode,
                ..crate::message::empty_header()
            }),
            builder@.questions == qv.take(i as int),
            builder@.answers.len() == 0,
            builder@.authorities.len() == 0,
            builder@.additionals.len() == 0,
            crate::wire::wire_message(builder@).len() == 12 + crate::wire::wire_questions(
                qv.take(i as int),
            ).len(),
        decreases qs.len() - i,
    {
        proof {
            assert(qv.take(i + 1) =~= qv.take(i as int) + seq![qv[i as int]]);
            crate::wire::lemma_wire_questions_add(qv.take(i as int), seq![qv[i as int]]);
            crate::wire::lemma_wire_questions_single(qv[i as int]);
            assert(qv =~= qv.take(i as int) + (seq![qv[i as int]] + qv.skip(i + 1)));
            crate::wire::lemma_wire_questions_add(
                qv.take(i as int),
                seq![qv[i as int]] + qv.skip(i + 1),
            );
            crate::wire::lemma_wire_questions_add(seq![qv[i as int]], qv.skip(i + 1));
        }
        match builder.push_question(qs[i].clone()) {
            Ok(()) => {},
            Err(e) => {
                proof {
                    assert(12 + crate::wire::wire_questions(qv).len() > 65535);
                }
                return Err(e);
            },
        }
        i = i + 1;
    }
    proof {
        assert(qv.take(i as int) =~= qv);
        assert(builder@.answers =~= Seq::<crate::message::RecordV>::empty());
        assert(builder@.authorities =~= Seq::<crate::message::RecordV>::empty());
        assert(builder@.additionals =~= Seq::<crate::message::RecordV>::empty());
    }
    Ok(builder)
}

//---------- Authoritative lookup ----------------------------------------------------

/// Entry `i` delegates the queried name away: an NS set strictly below the
/// apex, at or above the queried name.
pub open spec fn cut_entry_at(s: SnapshotV, q: Seq<Seq<u8>>, i: int) -> bool {
    &&& 0 <= i < s.entries.len()
    &&& s.entries[i].rrset.rtype == RT_NS
    &&& name_key(s.entries[i].owner) != name_key(s.apex)
    &&& ancestor_of(s.entries[i].owner, q)
}

/// The queried name lies at or below a delegation.
pub open spec fn has_cut(s: SnapshotV, q: Seq<Seq<u8>>) -> bool {
    exists|i: int| cut_entry_at(s, q, i)
}

/// The name exists in the zone: it is at or above some entry's owner.
pub open spec fn name_exists(s: SnapshotV, q: Seq<Seq<u8>>) -> bool {
    exists|i: int| 0 <= i < s.entries.len() && ancestor_of(q, #[trigger] s.entries[i].owner)
}

/// The entries owned by exactly the queried name.
pub open spec fn entries_at(s: SnapshotV, q: Seq<Seq<u8>>) -> Seq<ZoneEntryV> {
    s.entries.filter(|e: ZoneEntryV| name_key(e.owner) == name_key(q))
}

/// The authority section of a negative answer: the apex SOA when the
/// zone has one, nothing otherwise.
pub open spec fn apex_soa_authority(s: SnapshotV) -> Seq<ZoneEntryV> {
    if snap_map(s).contains_key((name_key(s.apex), RT_SOA)) {
        seq![snap_map(s)[(name_key(s.apex), RT_SOA)]]
    } else {
        Seq::<ZoneEntryV>::empty()
    }
}

/// Everything the authoritative lookup promises of its answer `a` for a
/// query `(q, qtype)` against a snapshot `s`: the referral, positive, ANY,
/// CNAME, NODATA and NXDOMAIN cases, each pinned.
pub open spec fn query_answer_ok(s: SnapshotV, q: Seq<Seq<u8>>, qtype: u16, a: AnswerV) -> bool {
    &&& a.additional.len() == 0
    &&& forall|i: int| 0 <= i < a.answer.len() ==> wf_entry(#[trigger] a.answer[i])
    &&& forall|i: int| 0 <= i < a.authority.len() ==> wf_entry(#[trigger] a.authority[i])
    &&& has_cut(s, q) ==> {
        &&& a.rcode == RCODE_NOERROR
        &&& a.answer.len() == 0
        &&& exists|i: int|
            {
                &&& #[trigger] cut_entry_at(s, q, i)
                &&& a.authority == seq![s.entries[i]]
                &&& forall|j: int|
                    #[trigger] cut_entry_at(s, q, j) ==> s.entries[i].owner.len() <= s.entries[
                        j
                    ].owner.len()
            }
    }
    &&& !has_cut(s, q) && qtype == RT_ANY ==> {
        &&& a.answer == entries_at(s, q)
        &&& if entries_at(s, q).len() > 0 {
            a.rcode == RCODE_NOERROR && a.authority.len() == 0
        } else {
            a.rcode == (if name_exists(s, q) {
                RCODE_NOERROR
            } else {
                RCODE_NXDOMAIN
            }) && a.authority == apex_soa_authority(s)
        }
    }
    &&& !has_cut(s, q) && qtype != RT_ANY && snap_map(s).contains_key(
        (name_key(q), qtype),
    ) ==> {
        &&& a.rcode == RCODE_NOERROR
        &&& a.answer == seq![snap_map(s)[(name_key(q), qtype)]]
        &&& a.authority.len() == 0
    }
    &&& !has_cut(s, q) && qtype != RT_ANY && !snap_map(s).contains_key((name_key(q), qtype))
        && qtype != RT_CNAME && snap_map(s).contains_key((name_key(q), RT_CNAME)) ==> {
        &&& a.rcode == RCODE_NOERROR
        &&& a.answer == seq![snap_map(s)[(name_key(q), RT_CNAME)]]
        &&& a.authority.len() == 0
    }
    &&& !has_cut(s, q) && qtype != RT_ANY && !snap_map(s).contains_key((name_key(q), qtype)) && (
    qtype == RT_CNAME || !snap_map(s).contains_key((name_key(q), RT_CNAME))) ==> {
        &&& a.answer.len() == 0
        &&& a.rcode == (if name_exists(s, q) {
            RCODE_NOERROR
        } else {
            RCODE_NXDOMAIN
        })
        &&& a.authority == apex_soa_authority(s)
    }
}

impl Snapshot {
    /// The authoritative answer for a query within this zone: a referral
    /// below a delegation; the matching RRset (or, for ANY, every RRset at
    /// the name); the CNAME at the name when the type differs; NODATA with
    /// the SOA when the name exists without the type; NXDOMAIN with the
    /// SOA when it does not exist.
    pub fn query(&self, qname: &Name, qtype: u16) -> (a: Answer)
        requires
            self.wf(),
            ancestor_of(self@.apex, qname@),
        ensures
            query_answer_ok(self@, qname@, qtype, a@),
    {
        // a delegation above the name wins: answer with a referral
        let mut best_cut: Option<usize> = None;
        let mut i: usize = 0;
        while i < self.entries.len()
            invariant
                i <= self.entries.len(),
                self.wf(),
                match best_cut {
                    Some(b) => {
                        &&& cut_entry_at(self@, qname@, b as int)
                        &&& b < i
                        &&& forall|j: int|
                            0 <= j < i && #[trigger] cut_entry_at(self@, qname@, j) ==> self@.entries[
                                b as int
                            ].owner.len() <= self@.entries[j].owner.len()
                    },
                    None => forall|j: int| 0 <= j < i ==> !cut_entry_at(self@, qname@, j),
                },
            decreases self.entries.len() - i,
        {
            let e = &self.entries[i];
            if e.rrset.rtype == RT_NS && !e.owner.eq_ignore_case(&self.apex)
                && e.owner.is_ancestor_of(qname) {
                proof {
                    assert(cut_entry_at(self@, qname@, i as int));
                }
                match best_cut {
                    Some(b) => {
                        if self.entries[i].owner.label_count()
                            < self.entries[b].owner.label_count() {
                            best_cut = Some(i);
                        }
                    },
                    None => {
                        best_cut = Some(i);
                    },
                }
            }
            i = i + 1;
        }
        match best_cut {
            Some(b) => {
                let mut authority: Vec<ZoneEntry> = Vec::new();
                authority.push(self.entries[b].clone());
                let a = Answer {
                    rcode: RCODE_NOERROR,
                    answer: Vec::new(),
                    authority,
                    additional: Vec::new(),
                };
                proof {
                    assert(a@.answer =~= Seq::<ZoneEntryV>::empty());
                    assert(a@.additional =~= Seq::<ZoneEntryV>::empty());
                    assert(a@.authority =~= seq![self@.entries[b as int]]);
                    assert(cut_entry_at(self@, qname@, b as int));
                }
                return a;
            },
            None => {},
        }
        // ANY: every RRset at the name
        if qtype == RT_ANY {
            let mut answer: Vec<ZoneEntry> = Vec::new();
            let mut k: usize = 0;
            proof {
                assert(entries_view(answer@) =~= self@.entries.take(0).filter(
                    |e: ZoneEntryV| name_key(e.owner) == name_key(qname@),
                ));
            }
            while k < self.entries.len()
                invariant
                    k <= self.entries.len(),
                    self.wf(),
                    entries_view(answer@) == self@.entries.take(k as int).filter(
                        |e: ZoneEntryV| name_key(e.owner) == name_key(qname@),
                    ),
                    forall|x: int|
                        0 <= x < answer@.len() ==> wf_entry(#[trigger] entries_view(answer@)[x]),
                decreases self.entries.len() - k,
            {
                let ghost pre = entries_view(answer@);
                proof {
                    reveal_with_fuel(Seq::filter, 2);
                    assert(self@.entries.take(k + 1).drop_last() =~= self@.entries.take(k as int));
                    assert(self@.entries.take(k + 1).last() == self@.entries[k as int]);
                }
                if self.entries[k].owner.eq_ignore_case(qname) {
                    answer.push(self.entries[k].clone());
                    proof {
                        assert(entries_view(answer@) =~= pre.push(self@.entries[k as int]));
                    }
                }
                k = k + 1;
            }
            proof {
                assert(self@.entries.take(k as int) =~= self@.entries);
            }
            if answer.len() > 0 {
                return Answer {
                    rcode: RCODE_NOERROR,
                    answer,
                    authority: Vec::new(),
                    additional: Vec::new(),
                };
            }
        } else {
            // the RRset of the asked type at the name
            match self.find(qname, qtype) {
                Some(idx) => {
                    let mut answer: Vec<ZoneEntry> = Vec::new();
                    answer.push(self.entries[idx].clone());
                    let a = Answer {
                        rcode: RCODE_NOERROR,
                        answer,
                        authority: Vec::new(),
                        additional: Vec::new(),
                    };
                    proof {
                        assert(a@.answer =~= seq![snap_map(self@)[(name_key(qname@), qtype)]]);
                    }
                    return a;
                },
                None => {},
            }
            // a CNAME at the name, for the caller to chase
            if qtype != RT_CNAME {
                match self.find(qname, RT_CNAME) {
                    Some(idx) => {
                        let mut answer: Vec<ZoneEntry> = Vec::new();
                        answer.push(self.entries[idx].clone());
                        let a = Answer {
                            rcode: RCODE_NOERROR,
                            answer,
                            authority: Vec::new(),
                            additional: Vec::new(),
                        };
                        proof {
                            assert(a@.answer =~= seq![
                                snap_map(self@)[(name_key(qname@), RT_CNAME)],
                            ]);
                        }
                        return a;
                    },
                    None => {},
                }
            }
        }
        // NODATA or NXDOMAIN, with the SOA in authority
        let mut exists_flag = false;
        let mut k2: usize = 0;
        while k2 < self.entries.len()
            invariant
                k2 <= self.entries.len(),
                self.wf(),
                !exists_flag ==> forall|j: int|
                    0 <= j < k2 ==> !ancestor_of(qname@, #[trigger] self@.entries[j].owner),
                exists_flag ==> name_exists(self@, qname@),
            decreases self.entries.len() - k2,
        {
            if qname.is_ancestor_of(&self.entries[k2].owner) {
                proof {
                    assert(ancestor_of(qname@, self@.entries[k2 as int].owner));
                }
                exists_flag = true;
            }
            k2 = k2 + 1;
        }
        let mut authority: Vec<ZoneEntry> = Vec::new();
        match self.find(&self.apex, RT_SOA) {
            Some(soa_idx) => {
                authority.push(self.entries[soa_idx].clone());
                proof {
                    assert(entries_view(authority@) =~= apex_soa_authority(self@));
                }
            },
            None => {
                proof {
                    assert(entries_view(authority@) =~= apex_soa_authority(self@));
                }
            },
        }
        let rcode = if exists_flag {
            RCODE_NOERROR
        } else {
            RCODE_NXDOMAIN
        };
        let a = Answer { rcode, answer: Vec::new(), authority, additional: Vec::new() };
        proof {
            assert(a@.answer =~= Seq::<ZoneEntryV>::empty());
            assert(a@.authority =~= apex_soa_authority(self@));
            if qtype == RT_ANY {
                assert(a@.answer =~= entries_at(self@, qname@));
            }
        }
        a
    }
}

//---------- Runtime validity checks ------------------------------------------------

/// Checks record data against its record type.
pub fn check_rdata(rtype: u16, rd: &Rdata) -> (r: bool)
    ensures
        r == wf_rdata(rtype, rd@),
{
    match rd {
        Rdata::Soa { mname, rname, .. } => rtype == RT_SOA && mname.is_wf() && rname.is_wf(),
        Rdata::Ns { nsdname } => rtype == RT_NS && nsdname.is_wf(),
        Rdata::Cname { cname } => rtype == RT_CNAME && cname.is_wf(),
        Rdata::Other { data } => rtype != RT_SOA && rtype != RT_NS && rtype != RT_CNAME
            && data.len() <= 16383,
    }
}

/// Checks an RRset: data present, fitting the type, without duplicates.
pub fn check_rrset(rs: &Rrset) -> (r: bool)
    ensures
        r == wf_rrset(rs@),
{
    if rs.data.len() == 0 {
        return false;
    }
    let mut i: usize = 0;
    while i < rs.data.len()
        invariant
            i <= rs.data.len(),
            rs.data@.len() >= 1,
            forall|x: int| 0 <= x < i ==> wf_rdata(rs@.rtype, #[trigger] rs@.data[x]),
            forall|x: int, y: int| 0 <= x < y < i ==> rs@.data[x] != rs@.data[y],
        decreases rs.data.len() - i,
    {
        if !check_rdata(rs.rtype, &rs.data[i]) {
            proof {
                assert(!wf_rdata(rs@.rtype, rs@.data[i as int]));
            }
            return false;
        }
        let mut j: usize = 0;
        while j < i
            invariant
                j <= i < rs.data.len(),
                forall|x: int| 0 <= x < j ==> rs@.data[x] != rs@.data[i as int],
            decreases i - j,
        {
            if rdata_eq(&rs.data[j], &rs.data[i]) {
                proof {
                    assert(rs@.data[j as int] == rs@.data[i as int]);
                }
                return false;
            }
            j = j + 1;
        }
        i = i + 1;
    }
    true
}

/// Checks a whole snapshot against the committed-zone invariants.
pub fn check_zone_contents(s: &Snapshot) -> (r: bool)
    ensures
        r == (s.wf() && valid_zone_contents(s@)),
{
    // entries well formed, keys distinct
    let mut i: usize = 0;
    while i < s.entries.len()
        invariant
            i <= s.entries.len(),
            forall|x: int| 0 <= x < i ==> wf_entry(#[trigger] s@.entries[x]),
            forall|x: int, y: int|
                0 <= x < y < i ==> entry_key(s@.entries[x]) != entry_key(s@.entries[y]),
        decreases s.entries.len() - i,
    {
        if !s.entries[i].owner.is_wf() || !check_rrset(&s.entries[i].rrset) {
            proof {
                assert(!wf_entry(s@.entries[i as int]));
            }
            return false;
        }
        let mut j: usize = 0;
        while j < i
            invariant
                j <= i < s.entries.len(),
                forall|x: int|
                    0 <= x < j ==> #[trigger] entry_key(s@.entries[x]) != entry_key(
                        s@.entries[i as int],
                    ),
            decreases i - j,
        {
            let o = &s.entries[j];
            if o.rrset.rtype == s.entries[i].rrset.rtype && o.owner.eq_ignore_case(
                &s.entries[i].owner,
            ) {
                proof {
                    assert(entry_key(s@.entries[j as int]) == entry_key(s@.entries[i as int]));
                    assert(!unique_keys(s@.entries));
                }
                return false;
            }
            j = j + 1;
        }
        i = i + 1;
    }
    // apex SOA with exactly one record, apex NS, owners in zone, CNAMEs alone
    match s.find(&s.apex, RT_SOA) {
        Some(k) => {
            if s.entries[k].rrset.data.len() != 1 {
                return false;
            }
        },
        None => {
            return false;
        },
    }
    match s.find(&s.apex, RT_NS) {
        Some(_) => {},
        None => {
            return false;
        },
    }
    let mut i2: usize = 0;
    while i2 < s.entries.len()
        invariant
            i2 <= s.entries.len(),
            s.wf(),
            forall|x: int|
                0 <= x < i2 ==> ancestor_of(s@.apex, #[trigger] s@.entries[x].owner),
            forall|x: int, y: int|
                0 <= x < i2 && 0 <= y < s@.entries.len() && x != y && (
                #[trigger] s@.entries[x]).rrset.rtype == RT_CNAME && name_key(
                    s@.entries[x].owner,
                ) == name_key((#[trigger] s@.entries[y]).owner) ==> is_dnssec_type(
                    s@.entries[y].rrset.rtype,
                ),
        decreases s.entries.len() - i2,
    {
        let e = &s.entries[i2];
        if !s.apex.is_ancestor_of(&e.owner) {
            proof {
                assert(!ancestor_of(s@.apex, s@.entries[i2 as int].owner));
            }
            return false;
        }
        if e.rrset.rtype == RT_CNAME {
            let mut j2: usize = 0;
            while j2 < s.entries.len()
                invariant
                    j2 <= s.entries.len(),
                    i2 < s.entries.len(),
                    s.wf(),
                    s@.entries[i2 as int].rrset.rtype == RT_CNAME,
                    forall|y: int|
                        0 <= y < j2 && y != i2 && name_key(s@.entries[i2 as int].owner)
                            == name_key((#[trigger] s@.entries[y]).owner) ==> is_dnssec_type(
                            s@.entries[y].rrset.rtype,
                        ),
                decreases s.entries.len() - j2,
            {
                if j2 != i2 {
                    let o = &s.entries[j2];
                    if o.owner.eq_ignore_case(&s.entries[i2].owner) {
                        let t = o.rrset.rtype;
                        if !(t == RT_RRSIG || t == RT_NSEC || t == RT_NSEC3) {
                            proof {
                                assert(name_key(s@.entries[i2 as int].owner) == name_key(
                                    s@.entries[j2 as int].owner,
                                ));
                                assert(!is_dnssec_type(s@.entries[j2 as int].rrset.rtype));
                                assert(!valid_zone_contents(s@));
                            }
                            return false;
                        }
                    }
                }
                j2 = j2 + 1;
            }
        }
        i2 = i2 + 1;
    }
    true
}

//---------- ZoneTree ---------------------------------------------------------------

/// Why a zone could not be added to the tree.
#[derive(Clone, Copy, Debug, PartialEq, Eq, Structural)]
pub enum ZoneTreeError {
    /// A zone with this apex and class is already in the tree.
    ZoneExists,
}

/// Whether a zone serves a name: same class, apex at or above the name.
pub open spec fn zone_matches(z: ZoneV, name: Seq<Seq<u8>>, class: u16) -> bool {
    z.class == class && ancestor_of(z.apex, name)
}

/// Index `i` is the zone the tree serves `name` from: it matches, no zone
/// is deeper, and no earlier zone is as deep. At most one index satisfies
/// this.
pub open spec fn chosen_zone(zs: Seq<ZoneV>, name: Seq<Seq<u8>>, class: u16, i: int) -> bool {
    &&& 0 <= i < zs.len()
    &&& zone_matches(zs[i], name, class)
    &&& forall|j: int|
        0 <= j < zs.len() && zone_matches(#[trigger] zs[j], name, class) ==> zs[j].apex.len()
            <= zs[i].apex.len()
    &&& forall|j: int|
        0 <= j < i && zone_matches(#[trigger] zs[j], name, class) ==> zs[j].apex.len() < zs[
            i
        ].apex.len()
}

/// The set of zones a server answers for, looked up by the deepest apex
/// at or above a queried name.
pub struct ZoneTree {
    pub zones: Vec<Zone>,
}

impl ZoneTree {
    /// The views of the zones.
    pub open spec fn zones_view(&self) -> Seq<ZoneV> {
        Seq::new(self.zones@.len(), |i: int| self.zones@[i]@)
    }

    /// Apex-and-class pairs are distinct.
    pub open spec fn wf(&self) -> bool {
        forall|i: int, j: int|
            0 <= i < j < self.zones@.len() ==> (
            name_key(#[trigger] self.zones_view()[i].apex),
            self.zones_view()[i].class,
            ) != (name_key(#[trigger] self.zones_view()[j].apex), self.zones_view()[j].class)
    }

    /// An empty tree.
    pub fn new() -> (r: ZoneTree)
        ensures
            r.zones_view() == Seq::<ZoneV>::empty(),
            r.wf(),
    {
        let r = ZoneTree { zones: Vec::new() };
        proof {
            assert(r.zones_view() =~= Seq::<ZoneV>::empty());
        }
        r
    }

    /// Adds a zone; refused when its apex and class are already taken.
    pub fn insert_zone(&mut self, zone: Zone) -> (r: Result<(), ZoneTreeError>)
        requires
            old(self).wf(),
        ensures
            match r {
                Ok(()) => {
                    &&& final(self).zones_view() == old(self).zones_view().push(zone@)
                    &&& final(self).wf()
                    &&& forall|i: int|
                        0 <= i < old(self).zones_view().len() ==> (
                        name_key(#[trigger] old(self).zones_view()[i].apex),
                        old(self).zones_view()[i].class,
                        ) != (name_key(zone@.apex), zone@.class)
                },
                Err(ZoneTreeError::ZoneExists) => {
                    &&& *final(self) == *old(self)
                    &&& exists|i: int|
                        0 <= i < old(self).zones_view().len() && (
                        name_key(#[trigger] old(self).zones_view()[i].apex),
                        old(self).zones_view()[i].class,
                        ) == (name_key(zone@.apex), zone@.class)
                },
            },
    {
        let mut i: usize = 0;
        while i < self.zones.len()
            invariant
                i <= self.zones.len(),
                forall|j: int|
                    0 <= j < i ==> (
                    name_key(#[trigger] self.zones_view()[j].apex),
                    self.zones_view()[j].class,
                    ) != (name_key(zone@.apex), zone@.class),
                self.wf(),
            decreases self.zones.len() - i,
        {
            if self.zones[i].class == zone.class && self.zones[i].apex.eq_ignore_case(&zone.apex) {
                proof {
                    assert((name_key(self.zones_view()[i as int].apex), self.zones_view()[
                        i as int
                    ].class) == (name_key(zone@.apex), zone@.class));
                }
                return Err(ZoneTreeError::ZoneExists);
            }
            i = i + 1;
        }
        let ghost oldz = self.zones_view();
        self.zones.push(zone);
        proof {
            assert(self.zones_view() =~= oldz.push(self.zones@[oldz.len() as int]@));
        }
        Ok(())
    }

    /// Finds the zone with the deepest apex at or above `name` in the
    /// given class.
    pub fn find_zone(&self, name: &Name, class: u16) -> (r: Option<usize>)
        ensures
            match r {
                Some(i) => chosen_zone(self.zones_view(), name@, class, i as int),
                None => forall|j: int|
                    0 <= j < self.zones@.len() ==> !zone_matches(
                        #[trigger] self.zones_view()[j],
                        name@,
                        class,
                    ),
            },
    {
        let mut best: Option<usize> = None;
        let mut i: usize = 0;
        while i < self.zones.len()
            invariant
                i <= self.zones.len(),
                match best {
                    Some(b) => {
                        &&& b < i
                        &&& zone_matches(self.zones_view()[b as int], name@, class)
                        &&& forall|j: int|
                            0 <= j < i && zone_matches(
                                #[trigger] self.zones_view()[j],
                                name@,
                                class,
                            ) ==> self.zones_view()[j].apex.len() <= self.zones_view()[
                                b as int
                            ].apex.len()
                        &&& forall|j: int|
                            0 <= j < b && zone_matches(
                                #[trigger] self.zones_view()[j],
                                name@,
                                class,
                            ) ==> self.zones_view()[j].apex.len() < self.zones_view()[
                                b as int
                            ].apex.len()
                    },
                    None => forall|j: int|
                        0 <= j < i ==> !zone_matches(
                            #[trigger] self.zones_view()[j],
                            name@,
                            class,
                        ),
                },
            decreases self.zones.len() - i,
        {
            let z = &self.zones[i];
            if z.class == class && z.apex.is_ancestor_of(name) {
                match best {
                    Some(b) => {
                        if self.zones[i].apex.label_count() > self.zones[b].apex.label_count() {
                            best = Some(i);
                        }
                    },
                    None => {
                        best = Some(i);
                    },
                }
            }
            i = i + 1;
        }
        best
    }

    /// Removes the zone with exactly this apex and class, if any: the
    /// first match leaves, every other zone stays where it was.
    pub fn remove_zone(&mut self, name: &Name, class: u16)
        requires
            old(self).wf(),
        ensures
            final(self).wf(),
            (exists|i: int|
                0 <= i < old(self).zones_view().len() && name_key(
                    (#[trigger] old(self).zones_view()[i]).apex,
                ) == name_key(name@) && old(self).zones_view()[i].class == class) ==> exists|
                i: int,
            |
                {
                    &&& 0 <= i < old(self).zones_view().len()
                    &&& name_key((#[trigger] old(self).zones_view()[i]).apex) == name_key(name@)
                    &&& old(self).zones_view()[i].class == class
                    &&& forall|j: int|
                        0 <= j < i ==> !(name_key(
                            (#[trigger] old(self).zones_view()[j]).apex,
                        ) == name_key(name@) && old(self).zones_view()[j].class == class)
                    &&& final(self).zones_view() == old(self).zones_view().remove(i)
                },
            (forall|j: int|
                0 <= j < old(self).zones_view().len() ==> !(name_key(
                    (#[trigger] old(self).zones_view()[j]).apex,
                ) == name_key(name@) && old(self).zones_view()[j].class == class)) ==> *final(self)
                == *old(self),
            forall|j: int|
                0 <= j < final(self).zones_view().len() ==> !(
                name_key((#[trigger] final(self).zones_view()[j]).apex) == name_key(name@)
                    && final(self).zones_view()[j].class == class),
    {
        let mut i: usize = 0;
        while i < self.zones.len()
            invariant
                i <= self.zones.len(),
                self.wf(),
                *self == *old(self),
                forall|j: int|
                    0 <= j < i ==> !(name_key((#[trigger] self.zones_view()[j]).apex) == name_key(
                        name@,
                    ) && self.zones_view()[j].class == class),
            decreases self.zones.len() - i,
        {
            if self.zones[i].class == class && self.zones[i].apex.eq_ignore_case(name) {
                let ghost oldz = self.zones_view();
                self.zones.remove(i);
                proof {
                    assert(name_key(oldz[i as int].apex) == name_key(name@));
                    assert(self.zones_view() =~= oldz.remove(i as int));
                    assert forall|j: int|
                        0 <= j < self.zones_view().len() implies !(name_key(
                        (#[trigger] self.zones_view()[j]).apex,
                    ) == name_key(name@) && self.zones_view()[j].class == class) by {
                        if j >= i {
                            assert(oldz[j + 1] == self.zones_view()[j]);
                            assert((name_key(oldz[i as int].apex), oldz[i as int].class) != (
                            name_key(oldz[j + 1].apex),
                            oldz[j + 1].class,
                            ));
                        }
                    }
                }
                return ;
            }
            i = i + 1;
        }
    }
}

/// Dropping the last entry keeps the keys distinct.
pub proof fn lemma_unique_drop_last(s: Seq<ZoneEntryV>)
    requires
        unique_keys(s),
        s.len() > 0,
    ensures
        unique_keys(s.drop_last()),
{
    assert(forall|a: int, b: int|
        0 <= a < b < s.len() - 1 ==> entry_key(s.drop_last()[a]) != entry_key(s.drop_last()[b]));
}

/// Replacing the entry at `i` by one with the same key updates the map at
/// that key.
pub proof fn lemma_set_key(s: Seq<ZoneEntryV>, i: int, e: ZoneEntryV)
    requires
        unique_keys(s),
        0 <= i < s.len(),
        entry_key(e) == entry_key(s[i]),
    ensures
        entries_map(s.update(i, e)) == entries_map(s).insert(entry_key(e), e),
        unique_keys(s.update(i, e)),
    decreases s.len(),
{
    let k = entry_key(e);
    assert(unique_keys(s.update(i, e)));
    lemma_unique_drop_last(s);
    if i == s.len() - 1 {
        assert(s.update(i, e).drop_last() =~= s.drop_last());
        assert(s.update(i, e).last() == e);
        assert(entries_map(s.drop_last()).insert(entry_key(s.last()), s.last()).insert(k, e)
            =~= entries_map(s.drop_last()).insert(k, e));
    } else {
        let body = s.drop_last();
        let last = s.last();
        assert(s.update(i, e).drop_last() =~= body.update(i, e));
        assert(s.update(i, e).last() == last);
        lemma_set_key(body, i, e);
        assert(entry_key(last) != k);
        assert(entries_map(body).insert(k, e).insert(entry_key(last), last) =~= entries_map(
            body,
        ).insert(entry_key(last), last).insert(k, e));
    }
}

/// Appending an entry under a fresh key inserts it into the map.
pub proof fn lemma_push_key(s: Seq<ZoneEntryV>, e: ZoneEntryV)
    requires
        unique_keys(s),
        forall|i: int| 0 <= i < s.len() ==> entry_key(#[trigger] s[i]) != entry_key(e),
    ensures
        entries_map(s.push(e)) == entries_map(s).insert(entry_key(e), e),
        unique_keys(s.push(e)),
{
    assert(s.push(e).drop_last() =~= s);
    assert(s.push(e).last() == e);
    assert(forall|a: int, b: int|
        0 <= a < b < s.push(e).len() ==> entry_key(s.push(e)[a]) != entry_key(s.push(e)[b]));
}

/// Removing the entry at `i` removes its key from the map.
pub proof fn lemma_remove_key(s: Seq<ZoneEntryV>, i: int)
    requires
        unique_keys(s),
        0 <= i < s.len(),
    ensures
        entries_map(s.remove(i)) == entries_map(s).remove(entry_key(s[i])),
        unique_keys(s.remove(i)),
    decreases s.len(),
{
    let k = entry_key(s[i]);
    assert(unique_keys(s.remove(i)));
    lemma_unique_drop_last(s);
    if i == s.len() - 1 {
        assert(s.remove(i) =~= s.drop_last());
        lemma_entries_map_absent(s.drop_last(), k);
        assert(entries_map(s.drop_last()).insert(k, s.last()).remove(k) =~= entries_map(
            s.drop_last(),
        ));
    } else {
        let body = s.drop_last();
        let last = s.last();
        assert(s.remove(i).drop_last() =~= body.remove(i));
        assert(s.remove(i).last() == last);
        lemma_remove_key(body, i);
        assert(entry_key(last) != k);
        assert(entries_map(body).remove(k).insert(entry_key(last), last) =~= entries_map(
            body,
        ).insert(entry_key(last), last).remove(k));
    }
}

} // verus!
