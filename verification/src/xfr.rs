//! Zone transfers.
//!
//! An AXFR stream carries the apex SOA, every other RRset, and the apex
//! SOA again; collected and applied to an empty zone it rebuilds the
//! snapshot it came from. An IXFR stream carries a chain of diffs between
//! two serials; applied to the older snapshot it yields the newer one.
//! When no chain is on hand the engine substitutes the AXFR form.

use vstd::prelude::*;
use crate::builder::{ResponseBuilder, ShortBuf};
use crate::message::{Record, RecordV, MessageV, empty_header, RT_SOA};
use crate::name::{Name, name_key, wf_name};
use crate::wire::{wf_record, wire_record, wire_message, lemma_wf_record_size};
use crate::zonetree::{
    Snapshot, SnapshotV, ZoneEntry, ZoneEntryV, ZoneDiff, ZoneDiffV, entries_view, entries_map,
    entry_key, snap_map, wf_entry, wf_entries, valid_zone_contents, lemma_entries_map_index,
    lemma_remove_key,
};

verus! {

//---------- Records of entries ---------------------------------------------------

/// The records one entry expands to: one per data item, under the entry's
/// owner, type and TTL.
pub open spec fn entry_records(e: ZoneEntryV, class: u16) -> Seq<RecordV> {
    Seq::new(
        e.rrset.data.len(),
        |i: int|
            RecordV {
                owner: e.owner,
                rtype: e.rrset.rtype,
                class,
                ttl: e.rrset.ttl,
                rdata: e.rrset.data[i],
            },
    )
}

/// The records a run of entries expands to, in order.
pub open spec fn records_of_entries(es: Seq<ZoneEntryV>, class: u16) -> Seq<RecordV>
    decreases es.len(),
{
    if es.len() == 0 {
        Seq::<RecordV>::empty()
    } else {
        entry_records(es[0], class) + records_of_entries(es.skip(1), class)
    }
}

/// Expansion distributes over concatenation.
pub proof fn lemma_records_of_entries_add(a: Seq<ZoneEntryV>, b: Seq<ZoneEntryV>, class: u16)
    ensures
        records_of_entries(a + b, class) == records_of_entries(a, class) + records_of_entries(
            b,
            class,
        ),
    decreases a.len(),
{
    if a.len() == 0 {
        assert(a + b =~= b);
        assert(records_of_entries(a, class) + records_of_entries(b, class) =~= records_of_entries(
            b,
            class,
        ));
    } else {
        assert((a + b).skip(1) =~= a.skip(1) + b);
        lemma_records_of_entries_add(a.skip(1), b, class);
        assert(records_of_entries(a + b, class) =~= records_of_entries(a, class)
            + records_of_entries(b, class));
    }
}

/// The expansion of a single entry.
pub proof fn lemma_records_of_entries_single(e: ZoneEntryV, class: u16)
    ensures
        records_of_entries(seq![e], class) == entry_records(e, class),
{
    assert(seq![e].skip(1) =~= Seq::<ZoneEntryV>::empty());
    assert(records_of_entries(seq![e].skip(1), class) == Seq::<RecordV>::empty()) by {
        assert(records_of_entries(Seq::<ZoneEntryV>::empty(), class) == Seq::<RecordV>::empty());
    }
    assert(records_of_entries(seq![e], class) =~= entry_records(e, class));
}

/// Expands entries into records.
pub fn entries_to_records(es: &Vec<ZoneEntry>, class: u16) -> (r: Vec<Record>)
    requires
        forall|i: int| 0 <= i < es@.len() ==> wf_entry(#[trigger] entries_view(es@)[i]),
    ensures
        crate::message::records_view(r@) == records_of_entries(entries_view(es@), class),
        forall|i: int|
            0 <= i < r@.len() ==> wf_record(#[trigger] crate::message::records_view(r@)[i]),
{
    let ghost ev = entries_view(es@);
    let mut out: Vec<Record> = Vec::new();
    let mut i: usize = 0;
    proof {
        assert(crate::message::records_view(out@) =~= records_of_entries(ev.take(0), class));
    }
    while i < es.len()
        invariant
            i <= es.len(),
            ev == entries_view(es@),
            forall|x: int| 0 <= x < es@.len() ==> wf_entry(#[trigger] ev[x]),
            crate::message::records_view(out@) == records_of_entries(ev.take(i as int), class),
            forall|x: int|
                0 <= x < out@.len() ==> wf_record(
                    #[trigger] crate::message::records_view(out@)[x],
                ),
        decreases es.len() - i,
    {
        let e = &es[i];
        proof {
            assert(ev.take(i + 1) =~= ev.take(i as int) + seq![ev[i as int]]);
            lemma_records_of_entries_add(ev.take(i as int), seq![ev[i as int]], class);
            lemma_records_of_entries_single(ev[i as int], class);
        }
        let ghost pre = crate::message::records_view(out@);
        let mut j: usize = 0;
        while j < e.rrset.data.len()
            invariant
                j <= e.rrset.data.len(),
                e@ == ev[i as int],
                0 <= i < ev.len(),
                wf_entry(ev[i as int]),
                crate::message::records_view(out@) == pre + entry_records(ev[i as int], class).take(
                    j as int,
                ),
                forall|x: int|
                    0 <= x < out@.len() ==> wf_record(
                        #[trigger] crate::message::records_view(out@)[x],
                    ),
            decreases e.rrset.data.len() - j,
        {
            let rec = Record {
                owner: e.owner.clone(),
                rtype: e.rrset.rtype,
                class,
                ttl: e.rrset.ttl,
                rdata: e.rrset.data[j].clone(),
            };
            proof {
                assert(rec@ == entry_records(ev[i as int], class)[j as int]);
                assert(wf_record(rec@));
                assert(pre + entry_records(ev[i as int], class).take(j + 1) =~= (pre
                    + entry_records(ev[i as int], class).take(j as int)).push(rec@));
            }
            out.push(rec);
            proof {
                assert(crate::message::records_view(out@) =~= pre + entry_records(
                    ev[i as int],
                    class,
                ).take(j + 1));
            }
            j = j + 1;
        }
        proof {
            assert(entry_records(ev[i as int], class).take(e.rrset.data@.len() as int)
                =~= entry_records(ev[i as int], class));
        }
        i = i + 1;
    }
    proof {
        assert(ev.take(i as int) =~= ev);
    }
    out
}

/// A run of entries whose first is well formed expands to at least one
/// record.
pub proof fn lemma_records_of_entries_first(es: Seq<ZoneEntryV>, class: u16)
    requires
        es.len() > 0,
        wf_entry(es[0]),
    ensures
        records_of_entries(es, class).len() > 0,
{
    assert(entry_records(es[0], class).len() == es[0].rrset.data.len());
}

/// Moves the first SOA entry of a run to the front, keeping the order of
/// the rest; refused when the run holds no SOA.
pub fn front_soa(es: &Vec<ZoneEntry>) -> (r: Option<Vec<ZoneEntry>>)
    ensures
        match r {
            Some(v) => exists|i: int|
                {
                    &&& 0 <= i < es@.len()
                    &&& (#[trigger] entries_view(es@)[i]).rrset.rtype == RT_SOA
                    &&& entries_view(v@) == seq![entries_view(es@)[i]] + entries_view(
                        es@,
                    ).remove(i)
                },
            None => forall|i: int|
                0 <= i < es@.len() ==> (#[trigger] entries_view(es@)[i]).rrset.rtype != RT_SOA,
        },
{
    let ghost ev = entries_view(es@);
    let mut soa_idx: usize = 0;
    let mut found = false;
    let mut k: usize = 0;
    while k < es.len()
        invariant
            k <= es.len(),
            ev == entries_view(es@),
            !found ==> forall|i: int| 0 <= i < k ==> (#[trigger] ev[i]).rrset.rtype != RT_SOA,
            found ==> soa_idx < es@.len() && ev[soa_idx as int].rrset.rtype == RT_SOA,
        decreases es.len() - k,
    {
        if !found && es[k].rrset.rtype == RT_SOA {
            soa_idx = k;
            found = true;
        }
        k = k + 1;
    }
    if !found {
        return None;
    }
    let ghost soa = ev[soa_idx as int];
    let mut out: Vec<ZoneEntry> = Vec::new();
    out.push(es[soa_idx].clone());
    let mut i: usize = 0;
    proof {
        assert(entries_view(out@) =~= seq![soa] + ev.take(0));
    }
    while i < es.len()
        invariant
            i <= es.len(),
            soa_idx < es.len(),
            ev == entries_view(es@),
            soa == ev[soa_idx as int],
            i <= soa_idx ==> entries_view(out@) == seq![soa] + ev.take(i as int),
            i > soa_idx ==> entries_view(out@) == seq![soa] + ev.take(i as int).remove(
                soa_idx as int,
            ),
        decreases es.len() - i,
    {
        let ghost pre = entries_view(out@);
        if i != soa_idx {
            out.push(es[i].clone());
            proof {
                assert(entries_view(out@) =~= pre.push(ev[i as int]));
                if i < soa_idx {
                    assert(seq![soa] + ev.take(i + 1) =~= pre.push(ev[i as int]));
                } else {
                    assert(ev.take(i + 1).remove(soa_idx as int) =~= ev.take(i as int).remove(
                        soa_idx as int,
                    ).push(ev[i as int]));
                    assert(seq![soa] + ev.take(i + 1).remove(soa_idx as int) =~= pre.push(
                        ev[i as int],
                    ));
                }
            }
        } else {
            proof {
                assert(ev.take(i + 1).remove(soa_idx as int) =~= ev.take(i as int));
            }
        }
        i = i + 1;
    }
    proof {
        assert(ev.take(ev.len() as int) =~= ev);
        assert(entries_view(out@) =~= seq![soa] + ev.remove(soa_idx as int));
    }
    Some(out)
}

//---------- AXFR -----------------------------------------------------------------

/// The AXFR order of a snapshot's entries: the apex SOA first, every
/// other entry in snapshot order, the apex SOA again.
pub fn axfr_entries(s: &Snapshot) -> (r: Vec<ZoneEntry>)
    requires
        s.wf(),
        valid_zone_contents(s@),
    ensures
        forall|x: int| 0 <= x < r@.len() ==> wf_entry(#[trigger] entries_view(r@)[x]),
        exists|i: int|
            {
                &&& 0 <= i < s@.entries.len()
                &&& entry_key(#[trigger] s@.entries[i]) == (name_key(s@.apex), RT_SOA)
                &&& entries_view(r@) == seq![s@.entries[i]] + s@.entries.remove(i) + seq![
                    s@.entries[i],
                ]
            },
{
    let soa_idx = match s.find(&s.apex, RT_SOA) {
        Some(k) => k,
        None => {
            proof {
                assert(false);
            }
            0
        },
    };
    let ghost ev = s@.entries;
    let ghost soa = ev[soa_idx as int];
    let mut out: Vec<ZoneEntry> = Vec::new();
    out.push(s.entries[soa_idx].clone());
    let mut i: usize = 0;
    proof {
        assert(entries_view(out@) =~= seq![soa] + ev.take(0));
    }
    while i < s.entries.len()
        invariant
            i <= s.entries.len(),
            soa_idx < s.entries.len(),
            ev == s@.entries,
            soa == ev[soa_idx as int],
            s.wf(),
            i <= soa_idx ==> entries_view(out@) == seq![soa] + ev.take(i as int),
            i > soa_idx ==> entries_view(out@) == seq![soa] + ev.take(i as int).remove(
                soa_idx as int,
            ),
        decreases s.entries.len() - i,
    {
        let ghost pre = entries_view(out@);
        if i != soa_idx {
            out.push(s.entries[i].clone());
            proof {
                assert(entries_view(out@) =~= pre.push(ev[i as int]));
                if i < soa_idx {
                    assert(seq![soa] + ev.take(i + 1) =~= pre.push(ev[i as int]));
                } else {
                    assert(ev.take(i + 1).remove(soa_idx as int) =~= ev.take(i as int).remove(
                        soa_idx as int,
                    ).push(ev[i as int]));
                    assert(seq![soa] + ev.take(i + 1).remove(soa_idx as int) =~= pre.push(
                        ev[i as int],
                    ));
                }
            }
        } else {
            proof {
                assert(ev.take(i + 1).remove(soa_idx as int) =~= ev.take(i as int));
            }
        }
        i = i + 1;
    }
    out.push(s.entries[soa_idx].clone());
    proof {
        assert(ev.take(ev.len() as int) =~= ev);
        assert(entries_view(out@) =~= seq![soa] + ev.remove(soa_idx as int) + seq![soa]);
        assert(entry_key(ev[soa_idx as int]) == (name_key(s@.apex), RT_SOA));
    }
    out
}

/// Rebuilds a zone snapshot from a run of entries, as a transfer's
/// receiver does: each entry in order into an empty zone.
pub fn apply_entries_to_empty(apex: Name, entries: &Vec<ZoneEntry>) -> (r: Snapshot)
    requires
        wf_name(apex@),
        forall|i: int| 0 <= i < entries@.len() ==> wf_entry(#[trigger] entries_view(entries@)[i]),
    ensures
        r.wf(),
        r@.apex == apex@,
        snap_map(r@) == entries_map(entries_view(entries@)),
{
    let ghost ev = entries_view(entries@);
    let mut s = Snapshot::new(apex);
    let mut i: usize = 0;
    proof {
        assert(snap_map(s@) =~= entries_map(ev.take(0)));
    }
    while i < entries.len()
        invariant
            i <= entries.len(),
            ev == entries_view(entries@),
            forall|x: int| 0 <= x < entries@.len() ==> wf_entry(#[trigger] ev[x]),
            s.wf(),
            s@.apex == apex@,
            snap_map(s@) == entries_map(ev.take(i as int)),
        decreases entries.len() - i,
    {
        proof {
            assert(ev.take(i + 1).drop_last() =~= ev.take(i as int));
            assert(ev.take(i + 1).last() == ev[i as int]);
        }
        s.upsert(entries[i].clone());
        i = i + 1;
    }
    proof {
        assert(ev.take(i as int) =~= ev);
    }
    s
}

/// Prepending an entry under a key the rest does not hold inserts it.
pub proof fn lemma_entries_map_front(e: ZoneEntryV, t: Seq<ZoneEntryV>)
    requires
        forall|i: int| 0 <= i < t.len() ==> entry_key(#[trigger] t[i]) != entry_key(e),
    ensures
        entries_map(seq![e] + t) == entries_map(t).insert(entry_key(e), e),
    decreases t.len(),
{
    let k = entry_key(e);
    if t.len() == 0 {
        assert(seq![e] + t =~= seq![e]);
        assert(t =~= Seq::<ZoneEntryV>::empty());
        assert(seq![e].drop_last() =~= Seq::<ZoneEntryV>::empty());
        assert(entries_map(Seq::<ZoneEntryV>::empty()) == Map::<
            (Seq<Seq<u8>>, u16),
            ZoneEntryV,
        >::empty());
        assert(entries_map(seq![e]) =~= entries_map(t).insert(k, e));
    } else {
        let w = seq![e] + t;
        assert(w.drop_last() =~= seq![e] + t.drop_last());
        assert(w.last() == t.last());
        lemma_entries_map_front(e, t.drop_last());
        assert(entries_map(w) == entries_map(t.drop_last()).insert(k, e).insert(
            entry_key(t.last()),
            t.last(),
        ));
        assert(entry_key(t[t.len() - 1]) != k);
        assert(entries_map(t.drop_last()).insert(k, e).insert(entry_key(t.last()), t.last())
            =~= entries_map(t.drop_last()).insert(entry_key(t.last()), t.last()).insert(k, e));
    }
}

/// The AXFR round trip: collecting the transfer's entries and applying
/// them to an empty zone rebuilds exactly the snapshot's contents.
pub proof fn lemma_axfr_round_trip(s: SnapshotV, i: int)
    requires
        wf_entries(s.entries),
        0 <= i < s.entries.len(),
    ensures
        entries_map(seq![s.entries[i]] + s.entries.remove(i) + seq![s.entries[i]]) == snap_map(s),
{
    let e = s.entries[i];
    let k = entry_key(e);
    let rem = s.entries.remove(i);
    let front = seq![e] + rem;
    let whole = front + seq![e];
    lemma_remove_key(s.entries, i);
    assert(forall|x: int| 0 <= x < rem.len() ==> entry_key(#[trigger] rem[x]) != k) by {
        assert forall|x: int| 0 <= x < rem.len() implies entry_key(#[trigger] rem[x]) != k by {
            if x < i {
                assert(rem[x] == s.entries[x]);
            } else {
                assert(rem[x] == s.entries[x + 1]);
            }
        }
    }
    lemma_entries_map_front(e, rem);
    // the trailing SOA overwrites with the same value
    assert(whole.drop_last() =~= front);
    assert(whole.last() == e);
    assert(entries_map(whole) == entries_map(front).insert(k, e));
    lemma_entries_map_index(s.entries, i);
    assert(entries_map(rem).insert(k, e).insert(k, e) =~= entries_map(rem).insert(k, e));
    assert(entries_map(rem).insert(k, e) =~= entries_map(s.entries));
}

//---------- Batching into messages -------------------------------------------------

/// The answer sections of a run of messages, joined in order.
pub open spec fn answers_concat(ms: Seq<MessageV>) -> Seq<RecordV>
    decreases ms.len(),
{
    if ms.len() == 0 {
        Seq::<RecordV>::empty()
    } else {
        ms[0].answers + answers_concat(ms.skip(1))
    }
}

/// Concatenation distributes over appending a message run.
pub proof fn lemma_answers_concat_add(a: Seq<MessageV>, b: Seq<MessageV>)
    ensures
        answers_concat(a + b) == answers_concat(a) + answers_concat(b),
    decreases a.len(),
{
    if a.len() == 0 {
        assert(a + b =~= b);
        assert(answers_concat(a) + answers_concat(b) =~= answers_concat(b));
    } else {
        assert((a + b).skip(1) =~= a.skip(1) + b);
        lemma_answers_concat_add(a.skip(1), b);
        assert(answers_concat(a + b) =~= answers_concat(a) + answers_concat(b));
    }
}

/// The views of a run of builders.
pub open spec fn builders_view(v: Seq<ResponseBuilder>) -> Seq<MessageV> {
    Seq::new(v.len(), |i: int| v[i]@)
}

/// A batch message is a plain reply body: zero header, records in the
/// answer section only.
pub open spec fn batch_message_ok(m: MessageV) -> bool {
    &&& m.header == empty_header()
    &&& m.questions.len() == 0
    &&& m.authorities.len() == 0
    &&& m.additionals.len() == 0
}

/// Packs records into as few messages as fit: each message takes records
/// in order until the frame limit would be passed. Together the messages
/// carry exactly the given records.
pub fn batch_records(records: Vec<Record>) -> (out: Vec<ResponseBuilder>)
    requires
        forall|i: int|
            0 <= i < records@.len() ==> wf_record(
                #[trigger] crate::message::records_view(records@)[i],
            ),
        records@.len() > 0,
    ensures
        answers_concat(builders_view(out@)) == crate::message::records_view(records@),
        forall|i: int| 0 <= i < out@.len() ==> (#[trigger] builders_view(out@)[i]).answers.len()
            > 0,
        forall|i: int| 0 <= i < out@.len() ==> batch_message_ok(#[trigger] builders_view(out@)[i]),
        forall|i: int|
            0 <= i < out@.len() ==> wire_message(#[trigger] builders_view(out@)[i]).len() <= 65535,
        out@.len() > 0,
{
    let ghost rv = crate::message::records_view(records@);
    let mut out: Vec<ResponseBuilder> = Vec::new();
    let mut cur = ResponseBuilder::new();
    let mut i: usize = 0;
    let ghost n = records@.len() as int;
    proof {
        assert(answers_concat(builders_view(out@)) + cur@.answers =~= rv.take(0));
        assert(builders_view(out@) =~= Seq::<MessageV>::empty());
    }
    let mut records = records;
    while i < records.len()
        invariant
            i <= records.len(),
            rv == crate::message::records_view(records@),
            forall|x: int| 0 <= x < records@.len() ==> wf_record(#[trigger] rv[x]),
            cur.wf(),
            batch_message_ok(cur@),
            answers_concat(builders_view(out@)) + cur@.answers == rv.take(i as int),
            forall|x: int|
                0 <= x < out@.len() ==> (#[trigger] builders_view(out@)[x]).answers.len() > 0,
            forall|x: int| 0 <= x < out@.len() ==> batch_message_ok(
                #[trigger] builders_view(out@)[x],
            ),
            forall|x: int|
                0 <= x < out@.len() ==> wire_message(#[trigger] builders_view(out@)[x]).len()
                    <= 65535,
            i > 0 ==> out@.len() + cur@.answers.len() > 0,
        decreases records.len() - i,
    {
        let rec = records[i].clone();
        let ghost pre_out = builders_view(out@);
        let ghost pre_cur = cur@;
        proof {
            assert(rv.take(i + 1) =~= rv.take(i as int).push(rv[i as int]));
        }
        match cur.push_answer(rec) {
            Ok(()) => {
                proof {
                    assert(answers_concat(builders_view(out@)) + cur@.answers =~= rv.take(i + 1));
                }
            },
            Err(ShortBuf) => {
                // the current message is full: start the next one
                let rec2 = records[i].clone();
                proof {
                    lemma_wf_record_size(rv[i as int]);
                    crate::builder::lemma_empty_message_wire(
                        MessageV {
                            header: empty_header(),
                            questions: Seq::empty(),
                            answers: Seq::empty(),
                            authorities: Seq::empty(),
                            additionals: Seq::empty(),
                        },
                    );
                    // a full message holds at least one record
                    assert(cur@.answers.len() > 0);
                }
                let full = cur;
                cur = ResponseBuilder::new();
                match cur.push_answer(rec2) {
                    Ok(()) => {},
                    Err(ShortBuf) => {
                        proof {
                            assert(false);
                        }
                    },
                }
                out.push(full);
                proof {
                    assert(builders_view(out@) =~= pre_out.push(pre_cur));
                    lemma_answers_concat_add(pre_out, seq![pre_cur]);
                    assert(answers_concat(seq![pre_cur]) =~= pre_cur.answers) by {
                        assert(seq![pre_cur].skip(1) =~= Seq::<MessageV>::empty());
                        assert(answers_concat(Seq::<MessageV>::empty()) == Seq::<RecordV>::empty());
                    }
                    assert(pre_out.push(pre_cur) =~= pre_out + seq![pre_cur]);
                    assert(answers_concat(builders_view(out@)) + cur@.answers =~= rv.take(i + 1));
                }
            },
        }
        i = i + 1;
    }
    proof {
        assert(rv.take(i as int) =~= rv);
    }
    if cur.msg.answers.len() > 0 {
        let ghost pre_out = builders_view(out@);
        let ghost pre_cur = cur@;
        out.push(cur);
        proof {
            assert(builders_view(out@) =~= pre_out + seq![pre_cur]);
            lemma_answers_concat_add(pre_out, seq![pre_cur]);
            assert(answers_concat(seq![pre_cur]) =~= pre_cur.answers) by {
                assert(seq![pre_cur].skip(1) =~= Seq::<MessageV>::empty());
                assert(answers_concat(Seq::<MessageV>::empty()) == Seq::<RecordV>::empty());
            }
        }
    } else {
        proof {
            assert(answers_concat(builders_view(out@)) =~= rv) by {
                assert(cur@.answers.len() == 0);
                assert(cur@.answers =~= Seq::<RecordV>::empty());
                assert(answers_concat(builders_view(out@)) + cur@.answers =~= answers_concat(
                    builders_view(out@),
                ));
            }
        }
    }
    out
}

//---------- The diff store ---------------------------------------------------------

/// A bounded store of committed diffs, oldest first. When it is full the
/// oldest diff leaves; a full transfer then stands in for the lost
/// history.
pub struct DiffStore {
    pub diffs: Vec<ZoneDiff>,
    pub capacity: usize,
}

impl DiffStore {
    /// The views of the stored diffs.
    pub open spec fn diffs_view(&self) -> Seq<ZoneDiffV> {
        Seq::new(self.diffs@.len(), |i: int| self.diffs@[i]@)
    }

    /// An empty store that will keep at most `capacity` diffs.
    pub fn new(capacity: usize) -> (r: DiffStore)
        requires
            capacity >= 1,
        ensures
            r.diffs_view() == Seq::<ZoneDiffV>::empty(),
            r.capacity == capacity,
    {
        let r = DiffStore { diffs: Vec::new(), capacity };
        proof {
            assert(r.diffs_view() =~= Seq::<ZoneDiffV>::empty());
        }
        r
    }

    /// Keeps a diff, discarding the oldest when full.
    pub fn add_diff(&mut self, d: ZoneDiff)
        requires
            old(self).capacity >= 1,
        ensures
            final(self).capacity == old(self).capacity,
            old(self).diffs_view().len() < old(self).capacity ==> final(self).diffs_view() == old(
                self,
            ).diffs_view().push(d@),
            old(self).diffs_view().len() >= old(self).capacity ==> final(self).diffs_view() == old(
                self,
            ).diffs_view().skip(1).push(d@),
    {
        let ghost oldv = self.diffs_view();
        if self.diffs.len() >= self.capacity {
            self.diffs.remove(0);
            proof {
                assert(self.diffs_view() =~= oldv.skip(1));
            }
        }
        let ghost mid = self.diffs_view();
        self.diffs.push(d);
        proof {
            assert(self.diffs_view() =~= mid.push(d@));
        }
    }

    /// Follows stored diffs from one serial to another: exactly the walk
    /// `chain_walk` describes. When a run of diffs comes back, its serials
    /// link `from` to `to` in order; when none does, the walk finds none.
    pub fn find_chain(&self, from: u32, to: u32) -> (r: Option<Vec<usize>>)
        ensures
            from == to ==> r is None,
            from != to ==> match r {
                Some(chain) => {
                    &&& chain_walk(self.diffs_view(), from, to, self.diffs@.len() as nat)
                        == Some(Seq::new(chain@.len(), |k: int| chain@[k] as int))
                    &&& chain@.len() > 0
                    &&& forall|k: int|
                        0 <= k < chain@.len() ==> #[trigger] chain@[k] < self.diffs@.len()
                    &&& self.diffs_view()[chain@[0] as int].old_serial == from
                    &&& self.diffs_view()[chain@[chain@.len() - 1] as int].new_serial == to
                    &&& forall|k: int|
                        0 <= k < chain@.len() - 1 ==> self.diffs_view()[
                            #[trigger] chain@[k] as int
                        ].new_serial == self.diffs_view()[chain@[k + 1] as int].old_serial
                },
                None => chain_walk(self.diffs_view(), from, to, self.diffs@.len() as nat)
                    is None,
            },
    {
        if from == to {
            return None;
        }
        let ghost dv = self.diffs_view();
        let n = self.diffs.len();
        let ghost fuel = n as nat;
        let mut chain: Vec<usize> = Vec::new();
        let mut cur = from;
        let mut steps: usize = 0;
        while steps < n
            invariant
                from != to,
                n == self.diffs@.len(),
                dv == self.diffs_view(),
                chain@.len() == steps,
                steps <= n,
                forall|k: int| 0 <= k < chain@.len() ==> #[trigger] chain@[k] < n,
                chain@.len() > 0 ==> dv[chain@[0] as int].old_serial == from,
                chain@.len() > 0 ==> dv[chain@[chain@.len() - 1] as int].new_serial == cur,
                chain@.len() == 0 ==> cur == from,
                forall|k: int|
                    0 <= k < chain@.len() - 1 ==> dv[#[trigger] chain@[k] as int].new_serial
                        == dv[chain@[k + 1] as int].old_serial,
                ({
                    let whole = chain_walk(dv, from, to, n as nat);
                    let rest = chain_walk(dv, cur, to, (n - steps) as nat);
                    match rest {
                        None => whole is None,
                        Some(tail) => whole == Some(
                            Seq::new(chain@.len(), |k: int| chain@[k] as int) + tail,
                        ),
                    }
                }),
            decreases n - steps,
        {
            // the next link: the first diff starting at the serial reached
            let mut found: Option<usize> = None;
            let mut i: usize = 0;
            while i < n
                invariant
                    i <= n,
                    n == self.diffs@.len(),
                    dv == self.diffs_view(),
                    match found {
                        Some(f) => f < n && dv[f as int].old_serial == cur && forall|j: int|
                            0 <= j < f ==> dv[j].old_serial != cur,
                        None => forall|j: int| 0 <= j < i ==> dv[j].old_serial != cur,
                    },
                    found is Some ==> i >= n,
                decreases n - i,
            {
                if self.diffs[i].old_serial == cur {
                    found = Some(i);
                    i = n;
                } else {
                    i = i + 1;
                }
            }
            match found {
                Some(f) => {
                    proof {
                        lemma_find_link_at(dv, cur, f as int);
                        assert(chain_walk(dv, cur, to, (n - steps) as nat) matches Some(_)
                            || chain_walk(dv, cur, to, (n - steps) as nat) is None);
                    }
                    let ghost pre = chain@;
                    let next = self.diffs[f].new_serial;
                    chain.push(f);
                    proof {
                        assert(chain@ =~= pre.push(f));
                    }
                    if next == to {
                        proof {
                            assert(chain_walk(dv, cur, to, (n - steps) as nat) == Some(
                                seq![f as int],
                            ));
                            assert(Seq::new(pre.len(), |k: int| pre[k] as int) + seq![f as int]
                                =~= Seq::new(chain@.len(), |k: int| chain@[k] as int));
                        }
                        return Some(chain);
                    }
                    cur = next;
                    steps = steps + 1;
                    proof {
                        let whole = chain_walk(dv, from, to, n as nat);
                        let outer = chain_walk(dv, dv[f as int].old_serial, to, (n - steps
                            + 1) as nat);
                        let inner = chain_walk(dv, cur, to, (n - steps) as nat);
                        match inner {
                            None => {
                                assert(outer is None);
                            },
                            Some(tail) => {
                                assert(outer == Some(seq![f as int] + tail));
                                assert(Seq::new(pre.len(), |k: int| pre[k] as int) + (seq![
                                    f as int,
                                ] + tail) =~= Seq::new(chain@.len(), |k: int| chain@[k] as int)
                                    + tail);
                            },
                        }
                    }
                },
                None => {
                    proof {
                        lemma_find_link_none(dv, cur);
                        assert(chain_walk(dv, cur, to, (n - steps) as nat) is None);
                    }
                    return None;
                },
            }
        }
        proof {
            assert(chain_walk(dv, cur, to, 0) is None);
        }
        None
    }
}

/// The first stored diff that starts at a serial.
pub open spec fn find_link(ds: Seq<ZoneDiffV>, cur: u32) -> Option<int>
    decreases ds.len(),
{
    if ds.len() == 0 {
        None
    } else if ds[0].old_serial == cur {
        Some(0)
    } else {
        match find_link(ds.skip(1), cur) {
            None => None,
            Some(i) => Some(i + 1),
        }
    }
}

/// The walk the store makes from one serial toward another: follow, at
/// each step, the first diff starting at the serial reached so far, until
/// one ends at the goal or none goes on.
pub open spec fn chain_walk(ds: Seq<ZoneDiffV>, cur: u32, to: u32, fuel: nat) -> Option<Seq<int>>
    decreases fuel,
{
    if fuel == 0 {
        None
    } else {
        match find_link(ds, cur) {
            None => None,
            Some(i) => if ds[i].new_serial == to {
                Some(seq![i])
            } else {
                match chain_walk(ds, ds[i].new_serial, to, (fuel - 1) as nat) {
                    None => None,
                    Some(rest) => Some(seq![i] + rest),
                }
            },
        }
    }
}

/// The first index starting at a serial is what `find_link` finds.
pub proof fn lemma_find_link_at(ds: Seq<ZoneDiffV>, cur: u32, f: int)
    requires
        0 <= f < ds.len(),
        ds[f].old_serial == cur,
        forall|j: int| 0 <= j < f ==> ds[j].old_serial != cur,
    ensures
        find_link(ds, cur) == Some(f),
    decreases f,
{
    if f > 0 {
        assert(ds.skip(1)[f - 1] == ds[f]);
        assert(forall|j: int| 0 <= j < f - 1 ==> ds.skip(1)[j] == ds[j + 1]);
        lemma_find_link_at(ds.skip(1), cur, f - 1);
    }
}

/// With no diff starting at a serial, `find_link` finds none.
pub proof fn lemma_find_link_none(ds: Seq<ZoneDiffV>, cur: u32)
    requires
        forall|j: int| 0 <= j < ds.len() ==> ds[j].old_serial != cur,
    ensures
        find_link(ds, cur) is None,
    decreases ds.len(),
{
    if ds.len() > 0 {
        assert(forall|j: int| 0 <= j < ds.skip(1).len() ==> ds.skip(1)[j] == ds[j + 1]);
        lemma_find_link_none(ds.skip(1), cur);
    }
}

//---------- The IXFR chain law -----------------------------------------------------

/// One diff applied to a snapshot map.
pub open spec fn apply_diff_map(
    m: Map<(Seq<Seq<u8>>, u16), ZoneEntryV>,
    d: ZoneDiffV,
) -> Map<(Seq<Seq<u8>>, u16), ZoneEntryV> {
    m.remove_keys(entries_map(d.removed).dom()).union_prefer_right(entries_map(d.added))
}

/// A chain of diffs applied in order.
pub open spec fn apply_chain(
    m: Map<(Seq<Seq<u8>>, u16), ZoneEntryV>,
    ds: Seq<ZoneDiffV>,
) -> Map<(Seq<Seq<u8>>, u16), ZoneEntryV>
    decreases ds.len(),
{
    if ds.len() == 0 {
        m
    } else {
        apply_chain(apply_diff_map(m, ds[0]), ds.skip(1))
    }
}

/// The incremental transfer law: a chain of correct diffs carries the
/// older snapshot to the newer one, step by step.
pub proof fn lemma_ixfr_chain(maps: Seq<Map<(Seq<Seq<u8>>, u16), ZoneEntryV>>, ds: Seq<ZoneDiffV>)
    requires
        maps.len() == ds.len() + 1,
        forall|k: int|
            0 <= k < ds.len() ==> crate::zonetree::diff_ok(maps[k], maps[k + 1], #[trigger] ds[k]),
    ensures
        apply_chain(maps[0], ds) == maps[maps.len() - 1],
    decreases ds.len(),
{
    if ds.len() == 0 {
    } else {
        crate::zonetree::lemma_diff_round_trip(maps[0], maps[1], ds[0]);
        assert(apply_diff_map(maps[0], ds[0]) == maps[1]);
        let maps2 = maps.skip(1);
        let ds2 = ds.skip(1);
        assert(forall|k: int|
            0 <= k < ds2.len() ==> crate::zonetree::diff_ok(
                maps2[k],
                maps2[k + 1],
                #[trigger] ds2[k],
            ));
        lemma_ixfr_chain(maps2, ds2);
        assert(maps2[0] == maps[1]);
        assert(apply_chain(maps[1], ds2) == maps[maps.len() - 1]);
    }
}

/// Applies a run of diffs to a snapshot, in order.
pub fn apply_diff_chain(s: &Snapshot, ds: &Vec<ZoneDiff>) -> (r: Snapshot)
    requires
        s.wf(),
        forall|k: int, i: int|
            0 <= k < ds@.len() && 0 <= i < (#[trigger] ds@[k]@).added.len() ==> wf_entry(
                #[trigger] ds@[k]@.added[i],
            ),
    ensures
        r.wf(),
        r@.apex == s@.apex,
        snap_map(r@) == apply_chain(
            snap_map(s@),
            Seq::new(ds@.len(), |i: int| ds@[i]@),
        ),
{
    let ghost dv = Seq::new(ds@.len(), |i: int| ds@[i]@);
    let mut cur = s.clone();
    let mut k: usize = 0;
    proof {
        assert(apply_chain(snap_map(s@), dv.take(0)) == snap_map(s@));
    }
    while k < ds.len()
        invariant
            k <= ds.len(),
            dv == Seq::new(ds@.len(), |i: int| ds@[i]@),
            forall|x: int, i: int|
                0 <= x < ds@.len() && 0 <= i < (#[trigger] ds@[x]@).added.len() ==> wf_entry(
                    #[trigger] ds@[x]@.added[i],
                ),
            cur.wf(),
            cur@.apex == s@.apex,
            snap_map(cur@) == apply_chain(snap_map(s@), dv.take(k as int)),
        decreases ds.len() - k,
    {
        let next = crate::zonetree::apply_diff(&cur, &ds[k]);
        proof {
            lemma_apply_chain_snoc(snap_map(s@), dv, k as int);
        }
        cur = next;
        k = k + 1;
    }
    proof {
        assert(dv.take(k as int) =~= dv);
    }
    cur
}

/// Extending a chain by one diff applies it last.
pub proof fn lemma_apply_chain_snoc(
    m: Map<(Seq<Seq<u8>>, u16), ZoneEntryV>,
    ds: Seq<ZoneDiffV>,
    k: int,
)
    requires
        0 <= k < ds.len(),
    ensures
        apply_chain(m, ds.take(k + 1)) == apply_diff_map(apply_chain(m, ds.take(k)), ds[k]),
    decreases k,
{
    if k == 0 {
        assert(ds.take(1)[0] == ds[0]);
        assert(ds.take(1).skip(1) =~= Seq::<ZoneDiffV>::empty());
        assert(ds.take(0) =~= Seq::<ZoneDiffV>::empty());
        assert(apply_chain(m, Seq::<ZoneDiffV>::empty()) == m);
        assert(apply_chain(apply_diff_map(m, ds[0]), Seq::<ZoneDiffV>::empty()) == apply_diff_map(
            m,
            ds[0],
        ));
        assert(apply_chain(m, ds.take(1)) == apply_diff_map(m, ds[0]));
    } else {
        let m2 = apply_diff_map(m, ds[0]);
        let ds2 = ds.skip(1);
        assert(ds.take(k + 1)[0] == ds[0]);
        assert(ds.take(k + 1).skip(1) =~= ds2.take(k));
        assert(ds.take(k).skip(1) =~= ds2.take(k - 1));
        assert(ds.take(k)[0] == ds[0]);
        lemma_apply_chain_snoc(m2, ds2, k - 1);
        assert(ds2[k - 1] == ds[k]);
        assert(apply_chain(m, ds.take(k + 1)) == apply_chain(m2, ds2.take(k)));
        assert(apply_chain(m, ds.take(k)) == apply_chain(m2, ds2.take(k - 1)));
    }
}

} // verus!
