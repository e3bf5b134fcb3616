//! The DNS message data model.
//!
//! A message is a header and four sections. Record data is kept typed for
//! the types the zone logic reads (SOA, NS, CNAME) and as raw bytes for
//! everything else. The EDNS OPT pseudo-record travels in the additional
//! section like any other record; its fields are read out of the record's
//! class and TTL.

use vstd::prelude::*;
use crate::name::Name;

verus! {

//---------- Record type and class numbers -----------------------------------

pub const RT_A: u16 = 1;
pub const RT_NS: u16 = 2;
pub const RT_CNAME: u16 = 5;
pub const RT_SOA: u16 = 6;
pub const RT_AAAA: u16 = 28;
pub const RT_OPT: u16 = 41;
pub const RT_RRSIG: u16 = 46;
pub const RT_NSEC: u16 = 47;
pub const RT_DNSKEY: u16 = 48;
pub const RT_NSEC3: u16 = 50;
pub const RT_IXFR: u16 = 251;
pub const RT_AXFR: u16 = 252;
pub const RT_ANY: u16 = 255;

pub const CLASS_IN: u16 = 1;

//---------- Response codes and opcodes ---------------------------------------

pub const RCODE_NOERROR: u8 = 0;
pub const RCODE_FORMERR: u8 = 1;
pub const RCODE_SERVFAIL: u8 = 2;
pub const RCODE_NXDOMAIN: u8 = 3;
pub const RCODE_NOTIMP: u8 = 4;
pub const RCODE_REFUSED: u8 = 5;

pub const OPCODE_QUERY: u8 = 0;

//---------- Header -----------------------------------------------------------

/// The fixed DNS header, without the section counts, which follow from the
/// sections themselves.
#[derive(Clone, Copy, Debug, PartialEq, Eq, Structural)]
pub struct Header {
    pub id: u16,
    pub qr: bool,
    pub opcode: u8,
    pub aa: bool,
    pub tc: bool,
    pub rd: bool,
    pub ra: bool,
    pub z: bool,
    pub ad: bool,
    pub cd: bool,
    pub rcode: u8,
}

/// The all-zero header value.
pub open spec fn empty_header() -> Header {
    Header {
        id: 0u16,
        qr: false,
        opcode: 0u8,
        aa: false,
        tc: false,
        rd: false,
        ra: false,
        z: false,
        ad: false,
        cd: false,
        rcode: 0u8,
    }
}

impl Header {
    /// All-zero header, as a fresh query or reply starts out.
    pub fn new() -> (r: Header)
        ensures
            r == empty_header(),
    {
        Header {
            id: 0,
            qr: false,
            opcode: 0,
            aa: false,
            tc: false,
            rd: false,
            ra: false,
            z: false,
            ad: false,
            cd: false,
            rcode: 0,
        }
    }
}

/// A header is well formed when its two four-bit fields fit.
pub open spec fn wf_header(h: Header) -> bool {
    h.opcode < 16 && h.rcode < 16
}

//---------- Question ----------------------------------------------------------

pub struct Question {
    pub qname: Name,
    pub qtype: u16,
    pub qclass: u16,
}

pub ghost struct QuestionV {
    pub qname: Seq<Seq<u8>>,
    pub qtype: u16,
    pub qclass: u16,
}

impl View for Question {
    type V = QuestionV;

    open spec fn view(&self) -> QuestionV {
        QuestionV { qname: self.qname@, qtype: self.qtype, qclass: self.qclass }
    }
}

impl Clone for Question {
    fn clone(&self) -> (r: Self)
        ensures
            r@ == self@,
    {
        Question { qname: self.qname.clone(), qtype: self.qtype, qclass: self.qclass }
    }
}

//---------- Record data --------------------------------------------------------

/// Record data: typed for what the zone logic reads, raw bytes otherwise.
pub enum Rdata {
    Soa {
        mname: Name,
        rname: Name,
        serial: u32,
        refresh: u32,
        retry: u32,
        expire: u32,
        minimum: u32,
    },
    Ns { nsdname: Name },
    Cname { cname: Name },
    Other { data: Vec<u8> },
}

pub ghost enum RdataV {
    Soa {
        mname: Seq<Seq<u8>>,
        rname: Seq<Seq<u8>>,
        serial: u32,
        refresh: u32,
        retry: u32,
        expire: u32,
        minimum: u32,
    },
    Ns { nsdname: Seq<Seq<u8>> },
    Cname { cname: Seq<Seq<u8>> },
    Other { data: Seq<u8> },
}

impl View for Rdata {
    type V = RdataV;

    open spec fn view(&self) -> RdataV {
        match self {
            Rdata::Soa { mname, rname, serial, refresh, retry, expire, minimum } => RdataV::Soa {
                mname: mname@,
                rname: rname@,
                serial: *serial,
                refresh: *refresh,
                retry: *retry,
                expire: *expire,
                minimum: *minimum,
            },
            Rdata::Ns { nsdname } => RdataV::Ns { nsdname: nsdname@ },
            Rdata::Cname { cname } => RdataV::Cname { cname: cname@ },
            Rdata::Other { data } => RdataV::Other { data: data@ },
        }
    }
}

impl Clone for Rdata {
    fn clone(&self) -> (r: Self)
        ensures
            r@ == self@,
    {
        match self {
            Rdata::Soa { mname, rname, serial, refresh, retry, expire, minimum } => Rdata::Soa {
                mname: mname.clone(),
                rname: rname.clone(),
                serial: *serial,
                refresh: *refresh,
                retry: *retry,
                expire: *expire,
                minimum: *minimum,
            },
            Rdata::Ns { nsdname } => Rdata::Ns { nsdname: nsdname.clone() },
            Rdata::Cname { cname } => Rdata::Cname { cname: cname.clone() },
            Rdata::Other { data } => Rdata::Other { data: data.clone() },
        }
    }
}

//---------- Record -------------------------------------------------------------

pub struct Record {
    pub owner: Name,
    pub rtype: u16,
    pub class: u16,
    pub ttl: u32,
    pub rdata: Rdata,
}

pub ghost struct RecordV {
    pub owner: Seq<Seq<u8>>,
    pub rtype: u16,
    pub class: u16,
    pub ttl: u32,
    pub rdata: RdataV,
}

impl View for Record {
    type V = RecordV;

    open spec fn view(&self) -> RecordV {
        RecordV {
            owner: self.owner@,
            rtype: self.rtype,
            class: self.class,
            ttl: self.ttl,
            rdata: self.rdata@,
        }
    }
}

impl Clone for Record {
    fn clone(&self) -> (r: Self)
        ensures
            r@ == self@,
    {
        Record {
            owner: self.owner.clone(),
            rtype: self.rtype,
            class: self.class,
            ttl: self.ttl,
            rdata: self.rdata.clone(),
        }
    }
}

//---------- Message ------------------------------------------------------------

pub struct Message {
    pub header: Header,
    pub questions: Vec<Question>,
    pub answers: Vec<Record>,
    pub authorities: Vec<Record>,
    pub additionals: Vec<Record>,
}

pub ghost struct MessageV {
    pub header: Header,
    pub questions: Seq<QuestionV>,
    pub answers: Seq<RecordV>,
    pub authorities: Seq<RecordV>,
    pub additionals: Seq<RecordV>,
}

/// The views of a vector of questions.
pub open spec fn questions_view(v: Seq<Question>) -> Seq<QuestionV> {
    Seq::new(v.len(), |i: int| v[i]@)
}

/// The views of a vector of records.
pub open spec fn records_view(v: Seq<Record>) -> Seq<RecordV> {
    Seq::new(v.len(), |i: int| v[i]@)
}

impl View for Message {
    type V = MessageV;

    open spec fn view(&self) -> MessageV {
        MessageV {
            header: self.header,
            questions: questions_view(self.questions@),
            answers: records_view(self.answers@),
            authorities: records_view(self.authorities@),
            additionals: records_view(self.additionals@),
        }
    }
}

impl Clone for Message {
    fn clone(&self) -> (r: Self)
        ensures
            r@ == self@,
    {
        let r = Message {
            header: self.header,
            questions: clone_questions(&self.questions),
            answers: clone_records(&self.answers),
            authorities: clone_records(&self.authorities),
            additionals: clone_records(&self.additionals),
        };
        proof {
            assert(r@.questions =~= self@.questions);
            assert(r@.answers =~= self@.answers);
            assert(r@.authorities =~= self@.authorities);
            assert(r@.additionals =~= self@.additionals);
        }
        r
    }
}

/// Clones a question section.
pub fn clone_questions(v: &Vec<Question>) -> (r: Vec<Question>)
    ensures
        questions_view(r@) == questions_view(v@),
{
    let mut out: Vec<Question> = Vec::new();
    let mut i: usize = 0;
    while i < v.len()
        invariant
            i <= v.len(),
            out@.len() == i,
            forall|j: int| 0 <= j < i ==> #[trigger] out@[j]@ == v@[j]@,
        decreases v.len() - i,
    {
        out.push(v[i].clone());
        i = i + 1;
    }
    proof {
        assert(questions_view(out@) =~= questions_view(v@));
    }
    out
}

/// Clones a record section.
pub fn clone_records(v: &Vec<Record>) -> (r: Vec<Record>)
    ensures
        records_view(r@) == records_view(v@),
{
    let mut out: Vec<Record> = Vec::new();
    let mut i: usize = 0;
    while i < v.len()
        invariant
            i <= v.len(),
            out@.len() == i,
            forall|j: int| 0 <= j < i ==> #[trigger] out@[j]@ == v@[j]@,
        decreases v.len() - i,
    {
        out.push(v[i].clone());
        i = i + 1;
    }
    proof {
        assert(records_view(out@) =~= records_view(v@));
    }
    out
}

impl Message {
    /// An empty message: zero header, no sections.
    pub fn new() -> (r: Message)
        ensures
            r@.header == empty_header(),
            r@.questions == Seq::<QuestionV>::empty(),
            r@.answers == Seq::<RecordV>::empty(),
            r@.authorities == Seq::<RecordV>::empty(),
            r@.additionals == Seq::<RecordV>::empty(),
    {
        let r = Message {
            header: Header::new(),
            questions: Vec::new(),
            answers: Vec::new(),
            authorities: Vec::new(),
            additionals: Vec::new(),
        };
        proof {
            assert(r@.questions =~= Seq::<QuestionV>::empty());
            assert(r@.answers =~= Seq::<RecordV>::empty());
            assert(r@.authorities =~= Seq::<RecordV>::empty());
            assert(r@.additionals =~= Seq::<RecordV>::empty());
        }
        r
    }
}

//---------- OPT helpers --------------------------------------------------------

/// Positions of the OPT records within a record sequence.
pub open spec fn opt_count(rs: Seq<RecordV>) -> int {
    rs.filter(|r: RecordV| r.rtype == RT_OPT).len() as int
}

/// The first OPT record of a sequence, when there is one.
pub open spec fn first_opt(rs: Seq<RecordV>) -> Option<RecordV> {
    let f = rs.filter(|r: RecordV| r.rtype == RT_OPT);
    if f.len() > 0 {
        Some(f[0])
    } else {
        None
    }
}

/// Whether a message carries an OPT record in its additional section.
pub open spec fn has_opt(m: MessageV) -> bool {
    opt_count(m.additionals) > 0
}

/// Counts the OPT records in the additional section.
pub fn count_opts(rs: &Vec<Record>) -> (r: usize)
    ensures
        r == opt_count(records_view(rs@)),
{
    let mut n: usize = 0;
    let mut i: usize = 0;
    while i < rs.len()
        invariant
            i <= rs.len(),
            n == opt_count(records_view(rs@).take(i as int)),
            n <= i,
        decreases rs.len() - i,
    {
        proof {
            let rv = records_view(rs@);
            assert(rv.take(i + 1).drop_last() =~= rv.take(i as int));
            reveal_with_fuel(Seq::filter, 2);
            assert(rv.take(i + 1).last() == rv[i as int]);
        }
        if rs[i].rtype == RT_OPT {
            n = n + 1;
        }
        i = i + 1;
    }
    proof {
        assert(records_view(rs@).take(i as int) =~= records_view(rs@));
    }
    n
}

/// Finds the index of the first OPT record in a section.
pub fn find_opt(rs: &Vec<Record>) -> (r: Option<usize>)
    ensures
        match r {
            Some(i) => {
                &&& i < rs@.len()
                &&& records_view(rs@)[i as int].rtype == RT_OPT
                &&& forall|j: int| 0 <= j < i ==> records_view(rs@)[j].rtype != RT_OPT
                &&& first_opt(records_view(rs@)) == Some(records_view(rs@)[i as int])
            },
            None => {
                &&& forall|j: int|
                    0 <= j < rs@.len() ==> records_view(rs@)[j].rtype != RT_OPT
                &&& first_opt(records_view(rs@)) is None
            },
        },
{
    let mut i: usize = 0;
    while i < rs.len()
        invariant
            i <= rs.len(),
            forall|j: int| 0 <= j < i ==> records_view(rs@)[j].rtype != RT_OPT,
        decreases rs.len() - i,
    {
        if rs[i].rtype == RT_OPT {
            proof {
                lemma_first_opt_at(records_view(rs@), i as int);
            }
            return Some(i);
        }
        i = i + 1;
    }
    proof {
        lemma_no_opt(records_view(rs@));
    }
    None
}

/// When every record before `i` is not OPT and `rs[i]` is, the first OPT is
/// `rs[i]`.
pub proof fn lemma_first_opt_at(rs: Seq<RecordV>, i: int)
    requires
        0 <= i < rs.len(),
        rs[i].rtype == RT_OPT,
        forall|j: int| 0 <= j < i ==> rs[j].rtype != RT_OPT,
    ensures
        first_opt(rs) == Some(rs[i]),
        opt_count(rs) > 0,
    decreases rs.len(),
{
    reveal_with_fuel(Seq::filter, 2);
    if i == 0 {
        lemma_filter_first(rs, |r: RecordV| r.rtype == RT_OPT);
    } else {
        lemma_filter_skip_head(rs, |r: RecordV| r.rtype == RT_OPT);
        lemma_first_opt_at(rs.skip(1), i - 1);
    }
}

/// When no record is OPT, there is no first OPT.
pub proof fn lemma_no_opt(rs: Seq<RecordV>)
    requires
        forall|j: int| 0 <= j < rs.len() ==> rs[j].rtype != RT_OPT,
    ensures
        first_opt(rs) is None,
        opt_count(rs) == 0,
    decreases rs.len(),
{
    reveal_with_fuel(Seq::filter, 2);
    if rs.len() > 0 {
        lemma_filter_skip_head(rs, |r: RecordV| r.rtype == RT_OPT);
        lemma_no_opt(rs.skip(1));
    }
}

/// Filtering a non-empty sequence whose head satisfies the predicate puts
/// the head first.
pub proof fn lemma_filter_first(rs: Seq<RecordV>, p: spec_fn(RecordV) -> bool)
    requires
        rs.len() > 0,
        p(rs[0]),
    ensures
        rs.filter(p).len() > 0,
        rs.filter(p)[0] == rs[0],
    decreases rs.len(),
{
    reveal_with_fuel(Seq::filter, 2);
    if rs.len() == 1 {
        assert(rs.drop_last() =~= Seq::<RecordV>::empty());
    } else {
        lemma_filter_first(rs.drop_last(), p);
        assert(rs.drop_last()[0] == rs[0]);
        if p(rs.last()) {
            assert(rs.filter(p) == rs.drop_last().filter(p).push(rs.last()));
            assert(rs.filter(p)[0] == rs.drop_last().filter(p)[0]);
        }
    }
}

/// Filtering skips a head that the predicate rejects and keeps one it
/// accepts.
pub proof fn lemma_filter_skip_head(rs: Seq<RecordV>, p: spec_fn(RecordV) -> bool)
    requires
        rs.len() > 0,
    ensures
        p(rs[0]) ==> rs.filter(p) == seq![rs[0]] + rs.skip(1).filter(p),
        !p(rs[0]) ==> rs.filter(p) == rs.skip(1).filter(p),
    decreases rs.len(),
{
    reveal_with_fuel(Seq::filter, 2);
    if rs.len() == 1 {
        assert(rs.drop_last() =~= Seq::<RecordV>::empty());
        assert(rs.skip(1) =~= Seq::<RecordV>::empty());
        if p(rs[0]) {
            assert(rs.filter(p) =~= seq![rs[0]] + rs.skip(1).filter(p));
        }
    } else {
        let body = rs.drop_last();
        lemma_filter_skip_head(body, p);
        assert(body[0] == rs[0]);
        assert(rs.filter(p) == if p(rs.last()) {
            body.filter(p).push(rs.last())
        } else {
            body.filter(p)
        });
        assert(body.skip(1).push(rs.last()) =~= rs.skip(1));
        assert(rs.skip(1).drop_last() =~= body.skip(1));
        if p(rs[0]) {
            assert(rs.filter(p) =~= seq![rs[0]] + rs.skip(1).filter(p));
        } else {
            assert(rs.filter(p) =~= rs.skip(1).filter(p));
        }
    }
}

} // verus!
