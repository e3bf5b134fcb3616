//! Services shipped with the framework: the authoritative zone lookup
//! service, and the transfer middleware that answers AXFR and IXFR
//! queries out of its own zones before its inner service sees them.

use vstd::prelude::*;
use vstd::string::StringExecFns;
use crate::builder::ResponseBuilder;
use crate::context::ContextAwareMessage;
use crate::message::{
    Message, MessageV, Question, Rdata, RecordV, RT_SOA, RT_AXFR, RT_IXFR, RCODE_FORMERR,
    RCODE_NXDOMAIN, RCODE_NOTIMP, RCODE_SERVFAIL, CLASS_IN,
};
use crate::service::{CallResult, Service, ServiceError, ServiceResult, Transaction};
use crate::wire::wf_question;
use crate::xfr::{
    DiffStore, answers_concat, batch_records, builders_view, axfr_entries, entries_to_records,
    records_of_entries,
};
use crate::zonetree::{
    Answer, AnswerV, Snapshot, ZoneEntry, ZoneEntryV, ZoneTree, Zone, ZoneDiff, answer_message,
    check_zone_contents, check_rrset, chosen_zone, entries_view, entry_key, query_answer_ok,
    wf_entry, valid_zone_contents, zone_matches,
};
use crate::name::name_key;

verus! {

/// Whether every question of a section is well formed.
pub fn questions_wf(qs: &Vec<Question>) -> (r: bool)
    ensures
        r == forall|i: int|
            0 <= i < crate::message::questions_view(qs@).len() ==> wf_question(
                #[trigger] crate::message::questions_view(qs@)[i],
            ),
{
    let mut i: usize = 0;
    while i < qs.len()
        invariant
            i <= qs.len(),
            forall|j: int|
                0 <= j < i ==> wf_question(#[trigger] crate::message::questions_view(qs@)[j]),
        decreases qs.len() - i,
    {
        if !qs[i].qname.is_wf() {
            proof {
                assert(!wf_question(crate::message::questions_view(qs@)[i as int]));
            }
            return false;
        }
        i = i + 1;
    }
    true
}

/// Whether every entry of a run is well formed.
pub fn check_entries_wf(es: &Vec<ZoneEntry>) -> (r: bool)
    ensures
        r == forall|i: int| 0 <= i < es@.len() ==> wf_entry(#[trigger] entries_view(es@)[i]),
{
    let mut i: usize = 0;
    while i < es.len()
        invariant
            i <= es.len(),
            forall|j: int| 0 <= j < i ==> wf_entry(#[trigger] entries_view(es@)[j]),
        decreases es.len() - i,
    {
        if !es[i].owner.is_wf() || !check_rrset(&es[i].rrset) {
            proof {
                assert(!wf_entry(entries_view(es@)[i as int]));
            }
            return false;
        }
        i = i + 1;
    }
    true
}

/// The answer of a reply that carries only a response code.
pub open spec fn empty_answer(rcode: u8) -> AnswerV {
    AnswerV {
        rcode,
        answer: Seq::<ZoneEntryV>::empty(),
        authority: Seq::<ZoneEntryV>::empty(),
        additional: Seq::<ZoneEntryV>::empty(),
    }
}

/// What every reply needs of the request it echoes: a well-formed
/// question section that fits a frame on its own. When this holds, a
/// service reply is owed.
pub open spec fn questions_ok(m: MessageV) -> bool {
    &&& forall|i: int| 0 <= i < m.questions.len() ==> wf_question(#[trigger] m.questions[i])
    &&& m.questions.len() <= 65535
    &&& 12 + crate::wire::wire_questions(m.questions).len() <= 65535
}

/// Builds the one-item transaction around an empty answer with the given
/// response code, echoing the request's question. Refused exactly when
/// the question section itself is unusable.
fn rcode_reply<E>(request: &Message, rcode: u8, class: u16) -> (r: ServiceResult<E>)
    requires
        rcode < 16,
    ensures
        match r {
            Ok(t) => {
                &&& t is Single
                &&& t.remaining().len() == 1
                &&& match t.remaining()[0] {
                    Ok(cr) => {
                        &&& cr@.command is None
                        &&& cr@.response == Some(
                            answer_message(empty_answer(rcode), request@, class),
                        )
                    },
                    Err(_) => false,
                }
            },
            Err(e) => e is Other && !questions_ok(request@),
        },
{
    proof {
        lemma_empty_answer_message_len(rcode, request@, class);
    }
    if !questions_wf(&request.questions) || request.questions.len() > 65535 {
        return Err(ServiceError::Other(String::from_str("malformed question section")));
    }
    let a = Answer::new(rcode);
    proof {
        assert(a@ == empty_answer(rcode));
    }
    match a.to_message(request, class) {
        Ok(b) => Ok(Transaction::single(Ok(CallResult::new(b)))),
        Err(_) => Err(ServiceError::Other(String::from_str("response does not fit a frame"))),
    }
}

/// A reply with an empty answer weighs twelve bytes plus its question.
proof fn lemma_empty_answer_message_len(rcode: u8, m: MessageV, class: u16)
    ensures
        crate::wire::wire_message(answer_message(empty_answer(rcode), m, class)).len() == 12
            + crate::wire::wire_questions(m.questions).len(),
{
    let am = answer_message(empty_answer(rcode), m, class);
    assert(records_of_entries(Seq::<ZoneEntryV>::empty(), class) == Seq::<RecordV>::empty());
    assert(crate::wire::wire_records(am.answers).len() == 0);
    assert(crate::wire::wire_records(am.authorities).len() == 0);
    assert(crate::wire::wire_records(am.additionals).len() == 0);
}

//---------- The zone lookup service ------------------------------------------------

/// The reference service: authoritative answers out of a zone tree.
pub struct ZoneService {
    pub zones: ZoneTree,
}

impl ZoneService {
    /// A service over the given zones.
    pub fn new(zones: ZoneTree) -> (r: ZoneService)
        ensures
            r.zones == zones,
    {
        ZoneService { zones }
    }
}

impl Service for ZoneService {
    type Error = ();

    /// One lookup per request, with the reply pinned case by case: a
    /// request without exactly one question gets FORMERR; a name under no
    /// zone gets NXDOMAIN; a zone that fails its own invariants gets
    /// SERVFAIL; otherwise the reply carries the authoritative answer of
    /// the chosen zone's snapshot, or SERVFAIL when that answer cannot
    /// fit a frame. A reply is owed whenever the question section is
    /// usable.
    fn call(&self, request: &ContextAwareMessage) -> (r: ServiceResult<Self::Error>)
        ensures
            ({
                let m = request@.msg;
                let zs = self.zones.zones_view();
                match r {
                    Ok(t) => {
                        &&& t is Single
                        &&& t.remaining().len() == 1
                        &&& match t.remaining()[0] {
                            Ok(cr) => {
                                &&& cr@.command is None
                                &&& cr@.response matches Some(resp) && {
                                    if m.questions.len() != 1 {
                                        resp == answer_message(
                                            empty_answer(RCODE_FORMERR),
                                            m,
                                            CLASS_IN,
                                        )
                                    } else {
                                        let qn = m.questions[0].qname;
                                        let qt = m.questions[0].qtype;
                                        let qc = m.questions[0].qclass;
                                        if forall|j: int|
                                            0 <= j < zs.len() ==> !zone_matches(
                                                #[trigger] zs[j],
                                                qn,
                                                qc,
                                            ) {
                                            resp == answer_message(
                                                empty_answer(RCODE_NXDOMAIN),
                                                m,
                                                qc,
                                            )
                                        } else {
                                            exists|zi: int|
                                                #[trigger] chosen_zone(zs, qn, qc, zi) && {
                                                    let snap = zs[zi].published;
                                                    if !valid_zone_contents(snap) {
                                                        resp == answer_message(
                                                            empty_answer(RCODE_SERVFAIL),
                                                            m,
                                                            qc,
                                                        )
                                                    } else if !crate::name::ancestor_of(
                                                        snap.apex,
                                                        qn,
                                                    ) {
                                                        resp == answer_message(
                                                            empty_answer(RCODE_NXDOMAIN),
                                                            m,
                                                            qc,
                                                        )
                                                    } else {
                                                        exists|a: AnswerV|
                                                            #[trigger] query_answer_ok(
                                                                snap,
                                                                qn,
                                                                qt,
                                                                a,
                                                            ) && (resp == answer_message(a, m, qc)
                                                                || (crate::wire::wire_message(
                                                                answer_message(a, m, qc),
                                                            ).len() > 65535 && resp
                                                                == answer_message(
                                                                empty_answer(RCODE_SERVFAIL),
                                                                m,
                                                                qc,
                                                            )))
                                                    }
                                                }
                                        }
                                    }
                                }
                            },
                            Err(_) => false,
                        }
                    },
                    Err(e) => e is Other && !questions_ok(m),
                }
            }),
    {
        let m = request.message();
        if m.questions.len() != 1 {
            return rcode_reply(m, RCODE_FORMERR, CLASS_IN);
        }
        let qname = &m.questions[0].qname;
        let qtype = m.questions[0].qtype;
        let qclass = m.questions[0].qclass;
        match self.zones.find_zone(qname, qclass) {
            None => rcode_reply(m, RCODE_NXDOMAIN, qclass),
            Some(zi) => {
                let snap = self.zones.zones[zi].read();
                if !check_zone_contents(&snap) {
                    return rcode_reply(m, RCODE_SERVFAIL, qclass);
                }
                if !snap.apex.is_ancestor_of(qname) {
                    return rcode_reply(m, RCODE_NXDOMAIN, qclass);
                }
                let answer = snap.query(qname, qtype);
                if !questions_wf(&m.questions) || m.questions.len() > 65535 {
                    return Err(ServiceError::Other(
                        String::from_str("malformed question section"),
                    ));
                }
                match answer.to_message(m, qclass) {
                    Ok(b) => Ok(Transaction::single(Ok(CallResult::new(b)))),
                    Err(_) => rcode_reply(m, RCODE_SERVFAIL, qclass),
                }
            },
        }
    }
}

//---------- Joined answers of call results ------------------------------------------

/// The answer sections of a run of call results, joined in order.
pub open spec fn call_results_answers(rs: Seq<CallResult>) -> Seq<RecordV>
    decreases rs.len(),
{
    if rs.len() == 0 {
        Seq::<RecordV>::empty()
    } else {
        (match rs[0]@.response {
            Some(resp) => resp.answers,
            None => Seq::<RecordV>::empty(),
        }) + call_results_answers(rs.skip(1))
    }
}

/// Joining distributes over concatenation.
pub proof fn lemma_call_results_answers_add(a: Seq<CallResult>, b: Seq<CallResult>)
    ensures
        call_results_answers(a + b) == call_results_answers(a) + call_results_answers(b),
    decreases a.len(),
{
    if a.len() == 0 {
        assert(a + b =~= b);
        assert(call_results_answers(a) + call_results_answers(b) =~= call_results_answers(b));
    } else {
        assert((a + b).skip(1) =~= a.skip(1) + b);
        lemma_call_results_answers_add(a.skip(1), b);
        assert(call_results_answers(a + b) =~= call_results_answers(a) + call_results_answers(b));
    }
}

/// The answer sections of a transaction's items, joined in order; an
/// errored or empty item contributes nothing.
pub open spec fn stream_items_answers<E>(
    items: Seq<Result<CallResult, ServiceError<E>>>,
) -> Seq<RecordV>
    decreases items.len(),
{
    if items.len() == 0 {
        Seq::<RecordV>::empty()
    } else {
        (match items[0] {
            Ok(cr) => match cr@.response {
                Some(resp) => resp.answers,
                None => Seq::<RecordV>::empty(),
            },
            Err(_) => Seq::<RecordV>::empty(),
        }) + stream_items_answers(items.skip(1))
    }
}

/// Every item of the stream carries a response and no command.
pub open spec fn stream_items_ok<E>(items: Seq<Result<CallResult, ServiceError<E>>>) -> bool {
    forall|k: int|
        0 <= k < items.len() ==> (#[trigger] items[k] matches Ok(cr) && cr@.response is Some
            && cr@.command is None)
}

/// The joined answers of a full transfer: the snapshot's apex SOA, every
/// other entry's records in snapshot order, the apex SOA again.
pub open spec fn axfr_answers_shape(ans: Seq<RecordV>, snap: crate::zonetree::SnapshotV, class: u16) -> bool {
    exists|i: int|
        {
            &&& 0 <= i < snap.entries.len()
            &&& entry_key(#[trigger] snap.entries[i]) == (
                crate::name::name_key(snap.apex),
                RT_SOA,
            )
            &&& ans == records_of_entries(
                seq![snap.entries[i]] + snap.entries.remove(i) + seq![snap.entries[i]],
                class,
            )
        }
}

/// The joined answers of an incremental transfer: a run of entries led
/// and closed by the snapshot's current apex SOA.
pub open spec fn incr_answers_shape(ans: Seq<RecordV>, snap: crate::zonetree::SnapshotV, class: u16) -> bool {
    exists|es: Seq<ZoneEntryV>|
        {
            &&& es.len() >= 1
            &&& #[trigger] records_of_entries(es, class) == ans
            &&& es[0] == crate::zonetree::snap_map(snap)[(crate::name::name_key(snap.apex), RT_SOA)]
            &&& es[es.len() - 1] == es[0]
        }
}

/// Items built by wrapping well-behaved call results carry exactly those
/// results' answers.
proof fn lemma_stream_items<E>(
    items: Seq<Result<CallResult, ServiceError<E>>>,
    results: Seq<CallResult>,
)
    requires
        items.len() == results.len(),
        forall|i: int|
            0 <= i < items.len() ==> (#[trigger] items[i] matches Ok(cr) && cr == results[i]),
        forall|i: int|
            0 <= i < results.len() ==> (#[trigger] results[i]@).command is None
                && results[i]@.response is Some,
    ensures
        stream_items_answers(items) == call_results_answers(results),
        stream_items_ok(items),
    decreases items.len(),
{
    if items.len() > 0 {
        assert(forall|i: int|
            0 <= i < items.skip(1).len() ==> #[trigger] items.skip(1)[i] == items[i + 1]);
        assert(forall|i: int|
            0 <= i < results.skip(1).len() ==> #[trigger] results.skip(1)[i] == results[i + 1]);
        lemma_stream_items(items.skip(1), results.skip(1));
        assert(stream_items_answers(items) =~= call_results_answers(results));
    }
}

/// Wraps each batched message in a call result carrying it.
fn results_of_builders(builders: Vec<ResponseBuilder>) -> (r: Vec<CallResult>)
    ensures
        r@.len() == builders@.len(),
        forall|i: int|
            0 <= i < r@.len() ==> (#[trigger] r@[i]@).command is None && r@[i]@.response is Some,
        call_results_answers(r@) == answers_concat(builders_view(builders@)),
{
    let ghost bv = builders_view(builders@);
    let ghost n = bv.len();
    let mut out: Vec<CallResult> = Vec::new();
    let mut rest = builders;
    let n_exec = rest.len();
    proof {
        assert(n == n_exec);
        assert(call_results_answers(out@) =~= answers_concat(bv.take(0)));
        assert(builders_view(rest@) =~= bv.skip(0));
    }
    while rest.len() > 0
        invariant
            out@.len() + rest@.len() == n,
            n <= usize::MAX,
            bv.len() == n,
            builders_view(rest@) == bv.skip(out@.len() as int),
            forall|j: int|
                0 <= j < out@.len() ==> (#[trigger] out@[j]@).command is None && out@[j]@.response
                    is Some,
            call_results_answers(out@) == answers_concat(bv.take(out@.len() as int)),
        decreases rest@.len(),
    {
        let ghost k = out@.len() as int;
        let ghost pre = out@;
        let ghost prerest = rest@;
        let b = rest.remove(0);
        proof {
            assert(builders_view(prerest)[0] == bv.skip(k)[0]);
            assert(bv.skip(k)[0] == bv[k]);
            assert(b@ == bv[k]);
            assert forall|x: int| 0 <= x < builders_view(rest@).len() implies builders_view(
                rest@,
            )[x] == bv.skip(k + 1)[x] by {
                assert(rest@[x] == prerest[x + 1]);
                assert(builders_view(prerest)[x + 1] == bv.skip(k)[x + 1]);
            }
            assert(builders_view(rest@) =~= bv.skip(k + 1));
        }
        let cr = CallResult::new(b);
        out.push(cr);
        proof {
            assert(out@ =~= pre.push(cr));
            assert(pre.push(cr) =~= pre + seq![cr]);
            lemma_call_results_answers_add(pre, seq![cr]);
            assert(call_results_answers(seq![cr]) =~= bv[k].answers) by {
                assert(seq![cr].skip(1) =~= Seq::<CallResult>::empty());
                assert(call_results_answers(Seq::<CallResult>::empty()) == Seq::<
                    RecordV,
                >::empty());
            }
            assert(bv.take(k + 1) =~= bv.take(k).push(bv[k]));
            assert(bv.take(k).push(bv[k]) =~= bv.take(k) + seq![bv[k]]);
            crate::xfr::lemma_answers_concat_add(bv.take(k), seq![bv[k]]);
            assert(answers_concat(seq![bv[k]]) =~= bv[k].answers) by {
                assert(seq![bv[k]].skip(1) =~= Seq::<MessageV>::empty());
                assert(answers_concat(Seq::<MessageV>::empty()) == Seq::<RecordV>::empty());
            }
        }
    }
    proof {
        assert(bv.take(out@.len() as int) =~= bv);
    }
    out
}

/// Wraps call results as the items of a stream transaction.
fn items_of_results<E>(results: Vec<CallResult>) -> (r: Vec<Result<CallResult, ServiceError<E>>>)
    ensures
        r@.len() == results@.len(),
        forall|i: int|
            0 <= i < r@.len() ==> (#[trigger] r@[i] matches Ok(cr) && cr == results@[i]),
{
    let mut out: Vec<Result<CallResult, ServiceError<E>>> = Vec::new();
    let mut rest = results;
    let ghost rv = rest@;
    let n_exec = rest.len();
    proof {
        assert(rv.len() == n_exec);
    }
    let mut i: usize = 0;
    while rest.len() > 0
        invariant
            i + rest@.len() == rv.len(),
            rv.len() <= usize::MAX,
            i == out@.len(),
            rest@ == rv.skip(i as int),
            forall|j: int|
                0 <= j < i ==> (#[trigger] out@[j] matches Ok(cr) && cr == rv[j]),
        decreases rest@.len(),
    {
        let ghost prerest = rest@;
        let cr = rest.remove(0);
        proof {
            assert(rv.skip(i as int)[0] == rv[i as int]);
            assert forall|x: int| 0 <= x < rest@.len() implies rest@[x] == rv.skip(i + 1)[x] by {
                assert(rest@[x] == prerest[x + 1]);
            }
            assert(rest@ =~= rv.skip(i + 1));
        }
        out.push(Ok(cr));
        i = i + 1;
    }
    out
}

/// The serial of the first record that is a SOA in both type and data.
pub open spec fn first_soa_serial(rs: Seq<RecordV>) -> Option<u32>
    decreases rs.len(),
{
    if rs.len() == 0 {
        None
    } else {
        match rs[0].rdata {
            crate::message::RdataV::Soa { serial, .. } => if rs[0].rtype == RT_SOA {
                Some(serial)
            } else {
                first_soa_serial(rs.skip(1))
            },
            _ => first_soa_serial(rs.skip(1)),
        }
    }
}

/// The serial an IXFR client states: the first SOA of its authority
/// section.
pub open spec fn client_serial_spec(m: MessageV) -> Option<u32> {
    first_soa_serial(m.authorities)
}

//---------- The transfer middleware -------------------------------------------------

/// A service wrapper that answers zone transfer queries for the zones it
/// was given, and hands everything else to the service it wraps.
pub struct XfrMiddlewareService<S> {
    pub upstream: S,
    pub zones: ZoneTree,
    pub diffs: DiffStore,
}

impl<S> XfrMiddlewareService<S> {
    /// Wraps a service; no zones, no diffs yet.
    pub fn new(upstream: S) -> (r: XfrMiddlewareService<S>)
        ensures
            r.zones.zones_view() == Seq::<crate::zonetree::ZoneV>::empty(),
            r.diffs.diffs_view() == Seq::<crate::zonetree::ZoneDiffV>::empty(),
            r.diffs.capacity == 64,
            r.zones.wf(),
    {
        XfrMiddlewareService { upstream, zones: ZoneTree::new(), diffs: DiffStore::new(64) }
    }

    /// Adds a zone this middleware will serve transfers for; refused
    /// exactly when its apex and class are already taken.
    pub fn add_zone(&mut self, zone: Zone) -> (r: Result<(), crate::zonetree::ZoneTreeError>)
        requires
            old(self).zones.wf(),
        ensures
            final(self).zones.wf(),
            final(self).diffs == old(self).diffs,
            final(self).upstream == old(self).upstream,
            match r {
                Ok(()) => {
                    &&& final(self).zones.zones_view() == old(self).zones.zones_view().push(
                        zone@,
                    )
                    &&& forall|i: int|
                        0 <= i < old(self).zones.zones_view().len() ==> (
                        name_key(#[trigger] old(self).zones.zones_view()[i].apex),
                        old(self).zones.zones_view()[i].class,
                        ) != (name_key(zone@.apex), zone@.class)
                },
                Err(crate::zonetree::ZoneTreeError::ZoneExists) => {
                    &&& final(self).zones == old(self).zones
                    &&& exists|i: int|
                        0 <= i < old(self).zones.zones_view().len() && (
                        name_key(#[trigger] old(self).zones.zones_view()[i].apex),
                        old(self).zones.zones_view()[i].class,
                        ) == (name_key(zone@.apex), zone@.class)
                },
            },
    {
        self.zones.insert_zone(zone)
    }

    /// Adds a committed diff for incremental transfers.
    pub fn add_diff(&mut self, d: ZoneDiff)
        requires
            old(self).diffs.capacity >= 1,
        ensures
            final(self).diffs.capacity == old(self).diffs.capacity,
            final(self).zones == old(self).zones,
    {
        self.diffs.add_diff(d)
    }

    /// The streamed messages of a full transfer.
    fn stream_axfr(snap: &Snapshot, class: u16) -> (r: Vec<CallResult>)
        requires
            snap.wf(),
            valid_zone_contents(snap@),
        ensures
            r@.len() > 0,
            forall|i: int|
                0 <= i < r@.len() ==> (#[trigger] r@[i]@).command is None && r@[i]@.response
                    is Some,
            exists|i: int|
                {
                    &&& 0 <= i < snap@.entries.len()
                    &&& entry_key(#[trigger] snap@.entries[i]) == (name_key(snap@.apex), RT_SOA)
                    &&& call_results_answers(r@) == records_of_entries(
                        seq![snap@.entries[i]] + snap@.entries.remove(i) + seq![
                            snap@.entries[i],
                        ],
                        class,
                    )
                },
    {
        let entries = axfr_entries(snap);
        let records = entries_to_records(&entries, class);
        proof {
            let i = choose|i: int|
                {
                    &&& 0 <= i < snap@.entries.len()
                    &&& entry_key(#[trigger] snap@.entries[i]) == (name_key(snap@.apex), RT_SOA)
                    &&& entries_view(entries@) == seq![snap@.entries[i]] + snap@.entries.remove(i)
                        + seq![snap@.entries[i]]
                };
            assert(entries_view(entries@)[0] == snap@.entries[i]);
            assert(wf_entry(entries_view(entries@)[0]));
            crate::xfr::lemma_records_of_entries_first(entries_view(entries@), class);
        }
        let builders = batch_records(records);
        results_of_builders(builders)
    }

    /// The client's serial in an IXFR query: the serial of the first SOA
    /// record in the authority section.
    fn client_serial(m: &Message) -> (r: Option<u32>)
        ensures
            r == client_serial_spec(m@),
    {
        let ghost av = m@.authorities;
        let mut i: usize = 0;
        proof {
            assert(av.skip(0) =~= av);
        }
        while i < m.authorities.len()
            invariant
                i <= m.authorities.len(),
                av == m@.authorities,
                first_soa_serial(av) == first_soa_serial(av.skip(i as int)),
            decreases m.authorities.len() - i,
        {
            proof {
                assert(av.skip(i as int)[0] == av[i as int]);
                assert(av.skip(i as int).skip(1) =~= av.skip(i + 1));
            }
            if m.authorities[i].rtype == RT_SOA {
                match &m.authorities[i].rdata {
                    Rdata::Soa { serial, .. } => {
                        return Some(*serial);
                    },
                    _ => {},
                }
            }
            i = i + 1;
        }
        proof {
            assert(av.skip(i as int).len() == 0);
        }
        None
    }

    /// The entries of an incremental stream: the current SOA, then per
    /// diff its removed entries led by their SOA and its added entries led
    /// by theirs, then the current SOA again. Refused when a diff in the
    /// chain has a side without a SOA entry.
    fn ixfr_entries_chain(&self, chain: &Vec<usize>, cur_soa: &ZoneEntry) -> (r: Option<
        Vec<ZoneEntry>,
    >)
        requires
            forall|k: int| 0 <= k < chain@.len() ==> #[trigger] chain@[k] < self.diffs.diffs@.len(),
        ensures
            match r {
                Some(v) => {
                    &&& v@.len() >= 2
                    &&& entries_view(v@)[0] == cur_soa@
                    &&& entries_view(v@)[v@.len() - 1] == cur_soa@
                },
                None => true,
            },
    {
        let mut out: Vec<ZoneEntry> = Vec::new();
        out.push(cur_soa.clone());
        let mut k: usize = 0;
        while k < chain.len()
            invariant
                k <= chain.len(),
                forall|x: int|
                    0 <= x < chain@.len() ==> #[trigger] chain@[x] < self.diffs.diffs@.len(),
                out@.len() >= 1,
                entries_view(out@)[0] == cur_soa@,
            decreases chain.len() - k,
        {
            let d = &self.diffs.diffs[chain[k]];
            let removed = match crate::xfr::front_soa(&d.removed) {
                Some(v) => v,
                None => {
                    return None;
                },
            };
            let added = match crate::xfr::front_soa(&d.added) {
                Some(v) => v,
                None => {
                    return None;
                },
            };
            let ghost pre = entries_view(out@);
            let mut removed = removed;
            let mut added = added;
            append_entries(&mut out, &mut removed);
            append_entries(&mut out, &mut added);
            k = k + 1;
        }
        let ghost pre = entries_view(out@);
        out.push(cur_soa.clone());
        proof {
            assert(entries_view(out@)[0] == pre[0]);
            assert(entries_view(out@)[out@.len() - 1] == cur_soa@);
        }
        Some(out)
    }
}

/// Moves every entry of `src_entries` to the end of `dst`, in order.
fn append_entries(dst: &mut Vec<ZoneEntry>, src_entries: &mut Vec<ZoneEntry>)
    ensures
        entries_view(final(dst)@) == entries_view(old(dst)@) + entries_view(old(src_entries)@),
        final(dst)@.len() == old(dst)@.len() + old(src_entries)@.len(),
        forall|i: int|
            0 <= i < old(dst)@.len() ==> #[trigger] entries_view(final(dst)@)[i] == entries_view(
                old(dst)@,
            )[i],
{
    let ghost base = entries_view(dst@);
    let ghost sv = entries_view(src_entries@);
    let n_exec = src_entries.len();
    proof {
        assert(sv.len() == n_exec);
    }
    let mut i: usize = 0;
    while src_entries.len() > 0
        invariant
            i + src_entries@.len() == sv.len(),
            sv.len() <= usize::MAX,
            entries_view(src_entries@) == sv.skip(i as int),
            entries_view(dst@) == base + sv.take(i as int),
        decreases src_entries@.len(),
    {
        let ghost prerest = src_entries@;
        let e = src_entries.remove(0);
        proof {
            assert(entries_view(prerest)[0] == sv.skip(i as int)[0]);
            assert(sv.skip(i as int)[0] == sv[i as int]);
            assert(e@ == sv[i as int]);
            assert forall|x: int| 0 <= x < entries_view(src_entries@).len() implies entries_view(
                src_entries@,
            )[x] == sv.skip(i + 1)[x] by {
                assert(src_entries@[x] == prerest[x + 1]);
                assert(entries_view(prerest)[x + 1] == sv.skip(i as int)[x + 1]);
            }
            assert(entries_view(src_entries@) =~= sv.skip(i + 1));
        }
        let ghost pre = entries_view(dst@);
        dst.push(e);
        i = i + 1;
        proof {
            assert(entries_view(dst@) =~= pre.push(sv[i - 1]));
            assert(base + sv.take(i as int) =~= pre.push(sv[i - 1]));
        }
    }
    proof {
        assert(sv.take(i as int) =~= sv);
    }
}

/// Batches well-formed entries into streamed messages whose answers,
/// joined, are exactly the entries' records.
fn stream_entries(entries: &Vec<ZoneEntry>, class: u16) -> (r: Vec<CallResult>)
    requires
        forall|i: int| 0 <= i < entries@.len() ==> wf_entry(#[trigger] entries_view(entries@)[i]),
        entries@.len() >= 1,
    ensures
        r@.len() > 0,
        forall|i: int|
            0 <= i < r@.len() ==> (#[trigger] r@[i]@).command is None && r@[i]@.response is Some,
        call_results_answers(r@) == records_of_entries(entries_view(entries@), class),
{
    let records = entries_to_records(entries, class);
    proof {
        crate::xfr::lemma_records_of_entries_first(entries_view(entries@), class);
    }
    let builders = batch_records(records);
    results_of_builders(builders)
}

impl<S: Service> Service for XfrMiddlewareService<S> {
    type Error = S::Error;

    /// Transfer queries over a stream transport for a zone this
    /// middleware holds are answered here, and the contract pins them: a
    /// full stream whose joined answers are the SOA-bracketed entries for
    /// AXFR, an incremental SOA-led stream for IXFR when a stored diff
    /// chain covers the client's serial, the full stream as fallback
    /// otherwise. Transfer queries over a datagram transport get NOTIMP.
    /// Everything else goes to the wrapped service, whose answer this
    /// contract leaves open.
    fn call(&self, request: &ContextAwareMessage) -> (r: ServiceResult<Self::Error>)
        ensures
            ({
                let m = request@.msg;
                let zs = self.zones.zones_view();
                let dv = self.diffs.diffs_view();
                (m.questions.len() == 1 && (m.questions[0].qtype == RT_AXFR
                    || m.questions[0].qtype == RT_IXFR)) ==> {
                    let qn = m.questions[0].qname;
                    let qt = m.questions[0].qtype;
                    let qc = m.questions[0].qclass;
                    if request@.udp {
                        match r {
                            Ok(t) => {
                                &&& t is Single
                                &&& t.remaining().len() == 1
                                &&& match t.remaining()[0] {
                                    Ok(cr) => {
                                        &&& cr@.command is None
                                        &&& cr@.response == Some(
                                            answer_message(empty_answer(RCODE_NOTIMP), m, qc),
                                        )
                                    },
                                    Err(_) => false,
                                }
                            },
                            Err(e) => e is Other && !questions_ok(m),
                        }
                    } else if exists|zi: int| chosen_zone(zs, qn, qc, zi) {
                        exists|zi: int|
                            #[trigger] chosen_zone(zs, qn, qc, zi) && {
                                let snap = zs[zi].published;
                                if !valid_zone_contents(snap) {
                                    match r {
                                        Ok(t) => {
                                            &&& t is Single
                                            &&& t.remaining().len() == 1
                                            &&& match t.remaining()[0] {
                                                Ok(cr) => {
                                                    &&& cr@.command is None
                                                    &&& cr@.response == Some(
                                                        answer_message(
                                                            empty_answer(RCODE_SERVFAIL),
                                                            m,
                                                            qc,
                                                        ),
                                                    )
                                                },
                                                Err(_) => false,
                                            }
                                        },
                                        Err(e) => e is Other && !questions_ok(m),
                                    }
                                } else {
                                    match r {
                                        Ok(t) => {
                                            &&& t is Stream
                                            &&& stream_items_ok(t.remaining())
                                            &&& {
                                                let ans = stream_items_answers(t.remaining());
                                                if qt == RT_AXFR {
                                                    axfr_answers_shape(ans, snap, qc)
                                                } else {
                                                    match client_serial_spec(m) {
                                                        None => axfr_answers_shape(ans, snap, qc),
                                                        Some(s) => {
                                                            let cur = crate::zonetree::soa_serial(
                                                                crate::zonetree::snap_map(snap)[
                                                                    (
                                                                        crate::name::name_key(
                                                                            snap.apex,
                                                                        ),
                                                                        RT_SOA,
                                                                    )
                                                                ],
                                                            );
                                                            if s == cur {
                                                                incr_answers_shape(ans, snap, qc)
                                                            } else if crate::xfr::chain_walk(
                                                                dv,
                                                                s,
                                                                cur,
                                                                dv.len() as nat,
                                                            ) is None {
                                                                axfr_answers_shape(ans, snap, qc)
                                                            } else {
                                                                axfr_answers_shape(ans, snap, qc)
                                                                    || incr_answers_shape(
                                                                    ans,
                                                                    snap,
                                                                    qc,
                                                                )
                                                            }
                                                        },
                                                    }
                                                }
                                            }
                                        },
                                        Err(_) => false,
                                    }
                                }
                            }
                    } else {
                        true
                    }
                }
            }),
    {
        let m = request.message();
        if m.questions.len() != 1 {
            return self.upstream.call(request);
        }
        let qtype = m.questions[0].qtype;
        if qtype != RT_AXFR && qtype != RT_IXFR {
            return self.upstream.call(request);
        }
        let qclass = m.questions[0].qclass;
        if request.transport().is_udp() {
            return rcode_reply(m, RCODE_NOTIMP, qclass);
        }
        let qname = &m.questions[0].qname;
        let zi = match self.zones.find_zone(qname, qclass) {
            Some(zi) => zi,
            None => {
                return self.upstream.call(request);
            },
        };
        let snap = self.zones.zones[zi].read();
        proof {
            assert(snap@ == self.zones.zones_view()[zi as int].published);
        }
        if !check_zone_contents(&snap) {
            return rcode_reply(m, RCODE_SERVFAIL, qclass);
        }
        if qtype == RT_IXFR {
            let cur_soa_idx = match snap.find(&snap.apex, RT_SOA) {
                Some(i) => i,
                None => {
                    proof {
                        assert(false);
                    }
                    return rcode_reply(m, RCODE_SERVFAIL, qclass);
                },
            };
            let cur_serial = crate::zonetree::soa_serial_of(&snap.entries[cur_soa_idx]);
            match Self::client_serial(m) {
                Some(serial) => {
                    if serial == cur_serial {
                        // the client is current: a single message with the SOA
                        let mut one: Vec<ZoneEntry> = Vec::new();
                        one.push(snap.entries[cur_soa_idx].clone());
                        proof {
                            assert(wf_entry(entries_view(one@)[0]));
                        }
                        let results = stream_entries(&one, qclass);
                        let ghost rv = results@;
                        let items = items_of_results(results);
                        proof {
                            lemma_stream_items(items@, rv);
                            assert(entries_view(one@) =~= seq![snap@.entries[cur_soa_idx as int]]);
                            assert(incr_answers_shape(
                                stream_items_answers(items@),
                                snap@,
                                qclass,
                            ));
                        }
                        return Ok(Transaction::stream(items));
                    }
                    match self.diffs.find_chain(serial, cur_serial) {
                        Some(chain) => {
                            match self.ixfr_entries_chain(&chain, &snap.entries[cur_soa_idx]) {
                                Some(entries) => {
                                    if check_entries_wf(&entries) {
                                        let results = stream_entries(&entries, qclass);
                                        let ghost rv = results@;
                                        let items = items_of_results(results);
                                        proof {
                                            lemma_stream_items(items@, rv);
                                            assert(incr_answers_shape(
                                                stream_items_answers(items@),
                                                snap@,
                                                qclass,
                                            )) by {
                                                let es = entries_view(entries@);
                                                assert(records_of_entries(es, qclass)
                                                    == stream_items_answers(items@));
                                            }
                                        }
                                        return Ok(Transaction::stream(items));
                                    }
                                },
                                None => {},
                            }
                        },
                        None => {},
                    }
                },
                None => {},
            }
        }
        // AXFR, or IXFR falling back to the full transfer
        let results = Self::stream_axfr(&snap, qclass);
        let ghost rv = results@;
        let items = items_of_results(results);
        proof {
            lemma_stream_items(items@, rv);
            assert(axfr_answers_shape(stream_items_answers(items@), snap@, qclass));
        }
        Ok(Transaction::stream(items))
    }
}

} // verus!