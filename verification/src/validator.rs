//! The validating transport: a connection that sends requests upstream
//! with DNSSEC checking turned on, and rewrites the responses according
//! to the validation outcome before handing them back.
//!
//! The validation itself — cryptography over an upstream trust chain — is
//! an outside concern; what stands here is every decision around it: how
//! the request's flags are prepared, and how a response is rewritten for
//! each validation state.

use vstd::prelude::*;
use crate::message::{
    Header, Message, MessageV, Record, RecordV, Rdata, RdataV, records_view, first_opt, find_opt,
    RT_OPT, RT_ANY, RT_DNSKEY, RT_RRSIG, RT_NSEC, RT_NSEC3,
};
use crate::wire::wire_u16;

verus! {

//---------- Validation outcomes -----------------------------------------------------

/// What validation concluded about a response.
#[derive(Clone, Copy, Debug, PartialEq, Eq, Structural)]
pub enum ValidationState {
    Secure,
    Insecure,
    Bogus,
    Indeterminate,
}

/// An EDNS option to add to a response, as an extended-error report is.
pub struct EdnsOption {
    pub code: u16,
    pub data: Vec<u8>,
}

//---------- DNSSEC record types -----------------------------------------------------

/// The record types validation concerns itself with.
pub open spec fn is_dnssec_rtype(t: u16) -> bool {
    t == RT_DNSKEY || t == RT_RRSIG || t == RT_NSEC || t == RT_NSEC3
}

/// Whether a type is a DNSSEC type that stripping removes.
pub fn is_dnssec(rtype: u16) -> (r: bool)
    ensures
        r == is_dnssec_rtype(rtype),
{
    rtype == RT_DNSKEY || rtype == RT_RRSIG || rtype == RT_NSEC || rtype == RT_NSEC3
}

//---------- OPT flag helpers --------------------------------------------------------

/// The DO bit in an OPT record's TTL field.
pub const OPT_DO_MASK: u32 = 0x8000;

/// The version byte in an OPT record's TTL field.
pub const OPT_VERSION_MASK: u32 = 0x00FF0000;

/// Whether a message asks for DNSSEC records: the DO bit of its first OPT.
pub open spec fn dnssec_ok(m: MessageV) -> bool {
    match first_opt(m.additionals) {
        Some(o) => o.ttl & OPT_DO_MASK != 0,
        None => false,
    }
}

/// The option bytes an OPT record carries.
pub open spec fn opt_bytes(rd: RdataV) -> Seq<u8> {
    match rd {
        RdataV::Other { data } => data,
        _ => Seq::<u8>::empty(),
    }
}

//---------- Stripping DNSSEC records ------------------------------------------------

/// The question type stripping spares in the answer section: the last
/// question's type, or ANY when there is none.
pub open spec fn stripping_qtype(m: MessageV) -> u16 {
    if m.questions.len() > 0 {
        m.questions[m.questions.len() - 1].qtype
    } else {
        RT_ANY
    }
}

/// The rebuilt OPT of a stripped response: payload size and version kept,
/// DO cleared, extension flags and extended response code dropped, the
/// options themselves kept.
pub open spec fn stripped_opt(o: RecordV) -> RecordV {
    RecordV {
        owner: Seq::<Seq<u8>>::empty(),
        rtype: RT_OPT,
        class: o.class,
        ttl: o.ttl & OPT_VERSION_MASK,
        rdata: o.rdata,
    }
}

/// A response without its DNSSEC records: RRSIG and friends leave the
/// answer section unless they were asked for, every DNSSEC record leaves
/// the authority and additional sections, the AD bit becomes the given
/// value, CD is cleared, and the OPT is rebuilt with DO off.
pub open spec fn remove_dnssec_spec(m: MessageV, ad: bool) -> MessageV {
    let qtype = stripping_qtype(m);
    MessageV {
        header: Header { ad, cd: false, ..m.header },
        questions: m.questions,
        answers: m.answers.filter(
            |r: RecordV| !(is_dnssec_rtype(r.rtype) && r.rtype != qtype),
        ),
        authorities: m.authorities.filter(|r: RecordV| !is_dnssec_rtype(r.rtype)),
        additionals: m.additionals.filter(
            |r: RecordV| r.rtype != RT_OPT && !is_dnssec_rtype(r.rtype),
        ) + (match first_opt(m.additionals) {
            Some(o) => seq![stripped_opt(o)],
            None => Seq::<RecordV>::empty(),
        }),
    }
}

/// Copies the records a predicate keeps. The three section filters of
/// stripping use this with their own predicates.
fn filter_records(rs: &Vec<Record>, keep_dnssec_qtype: u16, section: u8) -> (r: Vec<Record>)
    requires
        section < 3,
    ensures
        section == 0 ==> records_view(r@) == records_view(rs@).filter(
            |x: RecordV| !(is_dnssec_rtype(x.rtype) && x.rtype != keep_dnssec_qtype),
        ),
        section == 1 ==> records_view(r@) == records_view(rs@).filter(
            |x: RecordV| !is_dnssec_rtype(x.rtype),
        ),
        section == 2 ==> records_view(r@) == records_view(rs@).filter(
            |x: RecordV| x.rtype != RT_OPT && !is_dnssec_rtype(x.rtype),
        ),
{
    let ghost rv = records_view(rs@);
    let ghost p0 = |x: RecordV| !(is_dnssec_rtype(x.rtype) && x.rtype != keep_dnssec_qtype);
    let ghost p1 = |x: RecordV| !is_dnssec_rtype(x.rtype);
    let ghost p2 = |x: RecordV| x.rtype != RT_OPT && !is_dnssec_rtype(x.rtype);
    let mut out: Vec<Record> = Vec::new();
    let mut i: usize = 0;
    proof {
        assert(records_view(out@) =~= rv.take(0).filter(p0));
        assert(records_view(out@) =~= rv.take(0).filter(p1));
        assert(records_view(out@) =~= rv.take(0).filter(p2));
    }
    while i < rs.len()
        invariant
            i <= rs.len(),
            section < 3,
            rv == records_view(rs@),
            p0 == (|x: RecordV| !(is_dnssec_rtype(x.rtype) && x.rtype != keep_dnssec_qtype)),
            p1 == (|x: RecordV| !is_dnssec_rtype(x.rtype)),
            p2 == (|x: RecordV| x.rtype != RT_OPT && !is_dnssec_rtype(x.rtype)),
            section == 0 ==> records_view(out@) == rv.take(i as int).filter(p0),
            section == 1 ==> records_view(out@) == rv.take(i as int).filter(p1),
            section == 2 ==> records_view(out@) == rv.take(i as int).filter(p2),
        decreases rs.len() - i,
    {
        let ghost pre = records_view(out@);
        proof {
            reveal_with_fuel(Seq::filter, 2);
            assert(rv.take(i + 1).drop_last() =~= rv.take(i as int));
            assert(rv.take(i + 1).last() == rv[i as int]);
        }
        let t = rs[i].rtype;
        let keep = if section == 0 {
            !(is_dnssec(t) && t != keep_dnssec_qtype)
        } else if section == 1 {
            !is_dnssec(t)
        } else {
            t != RT_OPT && !is_dnssec(t)
        };
        if keep {
            out.push(rs[i].clone());
            proof {
                assert(records_view(out@) =~= pre.push(rv[i as int]));
            }
        }
        i = i + 1;
    }
    proof {
        assert(rv.take(i as int) =~= rv);
    }
    out
}

/// Returns a response stripped of its DNSSEC records, with the AD bit set
/// as given and CD cleared.
pub fn remove_dnssec(msg: &Message, ad: bool) -> (r: Message)
    ensures
        r@ == remove_dnssec_spec(msg@, ad),
{
    let qtype = if msg.questions.len() > 0 {
        msg.questions[msg.questions.len() - 1].qtype
    } else {
        RT_ANY
    };
    let mut header = msg.header;
    header.ad = ad;
    header.cd = false;
    let answers = filter_records(&msg.answers, qtype, 0);
    let authorities = filter_records(&msg.authorities, 0, 1);
    let mut additionals = filter_records(&msg.additionals, 0, 2);
    match find_opt(&msg.additionals) {
        Some(i) => {
            let o = &msg.additionals[i];
            let ghost pre = records_view(additionals@);
            additionals.push(
                Record {
                    owner: crate::name::Name::root(),
                    rtype: RT_OPT,
                    class: o.class,
                    ttl: o.ttl & OPT_VERSION_MASK,
                    rdata: o.rdata.clone(),
                },
            );
            proof {
                assert(records_view(additionals@) =~= pre + seq![
                    stripped_opt(first_opt(msg@.additionals).unwrap()),
                ]);
            }
        },
        None => {
            proof {
                assert(records_view(additionals@) + Seq::<RecordV>::empty() =~= records_view(
                    additionals@,
                ));
            }
        },
    }
    let r = Message {
        header,
        questions: crate::message::clone_questions(&msg.questions),
        answers,
        authorities,
        additionals,
    };
    proof {
        assert(r@.questions =~= remove_dnssec_spec(msg@, ad).questions);
        assert(r@.additionals =~= remove_dnssec_spec(msg@, ad).additionals);
    }
    r
}

//---------- Adding an option ---------------------------------------------------------

/// An OPT's data with one more option behind it: the option's code, its
/// length, its bytes.
pub open spec fn appended_opt_data(rd: RdataV, code: u16, data: Seq<u8>) -> RdataV {
    RdataV::Other {
        data: opt_bytes(rd) + wire_u16(code) + wire_u16(data.len() as u16) + data,
    }
}

/// The rebuilt OPT with the extra option: payload size, version and DO
/// kept, extension flags and extended response code dropped.
pub open spec fn extended_opt(o: RecordV, code: u16, data: Seq<u8>) -> RecordV {
    RecordV {
        owner: Seq::<Seq<u8>>::empty(),
        rtype: RT_OPT,
        class: o.class,
        ttl: o.ttl & (OPT_VERSION_MASK | OPT_DO_MASK),
        rdata: appended_opt_data(o.rdata, code, data),
    }
}

/// A response with an option added to its OPT. A response without an OPT
/// keeps its sections, merely losing any stray extra OPTs, and the option
/// is not added.
pub open spec fn add_opt_spec(m: MessageV, code: u16, data: Seq<u8>) -> MessageV {
    MessageV {
        header: m.header,
        questions: m.questions,
        answers: m.answers,
        authorities: m.authorities,
        additionals: m.additionals.filter(|r: RecordV| r.rtype != RT_OPT) + (match first_opt(
            m.additionals,
        ) {
            Some(o) => seq![extended_opt(o, code, data)],
            None => Seq::<RecordV>::empty(),
        }),
    }
}

/// Returns the response with the option appended to its OPT record.
pub fn add_opt(msg: &Message, ede: &EdnsOption) -> (r: Message)
    requires
        ede.data@.len() <= 65535,
    ensures
        r@ == add_opt_spec(msg@, ede.code, ede.data@),
{
    let ghost rv = records_view(msg.additionals@);
    let ghost p = |x: RecordV| x.rtype != RT_OPT;
    let mut additionals: Vec<Record> = Vec::new();
    let mut i: usize = 0;
    proof {
        assert(records_view(additionals@) =~= rv.take(0).filter(p));
    }
    while i < msg.additionals.len()
        invariant
            i <= msg.additionals.len(),
            rv == records_view(msg.additionals@),
            p == (|x: RecordV| x.rtype != RT_OPT),
            records_view(additionals@) == rv.take(i as int).filter(p),
        decreases msg.additionals.len() - i,
    {
        let ghost pre = records_view(additionals@);
        proof {
            reveal_with_fuel(Seq::filter, 2);
            assert(rv.take(i + 1).drop_last() =~= rv.take(i as int));
            assert(rv.take(i + 1).last() == rv[i as int]);
        }
        if msg.additionals[i].rtype != RT_OPT {
            additionals.push(msg.additionals[i].clone());
            proof {
                assert(records_view(additionals@) =~= pre.push(rv[i as int]));
            }
        }
        i = i + 1;
    }
    proof {
        assert(rv.take(i as int) =~= rv);
    }
    match find_opt(&msg.additionals) {
        Some(oi) => {
            let o = &msg.additionals[oi];
            let mut data: Vec<u8> = match &o.rdata {
                Rdata::Other { data } => data.clone(),
                _ => Vec::new(),
            };
            proof {
                assert(data@ == opt_bytes(o.rdata@));
            }
            crate::wire::push_u16(&mut data, ede.code);
            crate::wire::push_u16(&mut data, ede.data.len() as u16);
            let mut k: usize = 0;
            let ghost mid = data@;
            while k < ede.data.len()
                invariant
                    k <= ede.data.len(),
                    data@ == mid + ede.data@.take(k as int),
                decreases ede.data.len() - k,
            {
                data.push(ede.data[k]);
                k = k + 1;
                proof {
                    assert(data@ =~= mid + ede.data@.take(k as int));
                }
            }
            proof {
                assert(ede.data@.take(k as int) =~= ede.data@);
                assert(data@ =~= opt_bytes(first_opt(msg@.additionals).unwrap().rdata)
                    + wire_u16(ede.code) + wire_u16(ede.data@.len() as u16) + ede.data@);
            }
            let ghost pre = records_view(additionals@);
            additionals.push(
                Record {
                    owner: crate::name::Name::root(),
                    rtype: RT_OPT,
                    class: o.class,
                    ttl: o.ttl & (OPT_VERSION_MASK | OPT_DO_MASK),
                    rdata: Rdata::Other { data },
                },
            );
            proof {
                assert(records_view(additionals@) =~= pre + seq![
                    extended_opt(first_opt(msg@.additionals).unwrap(), ede.code, ede.data@),
                ]);
            }
        },
        None => {
            proof {
                assert(records_view(additionals@) + Seq::<RecordV>::empty() =~= records_view(
                    additionals@,
                ));
            }
        },
    }
    let r = Message {
        header: msg.header,
        questions: crate::message::clone_questions(&msg.questions),
        answers: crate::message::clone_records(&msg.answers),
        authorities: crate::message::clone_records(&msg.authorities),
        additionals,
    };
    proof {
        assert(r@.questions =~= add_opt_spec(msg@, ede.code, ede.data@).questions);
        assert(r@.answers =~= add_opt_spec(msg@, ede.code, ede.data@).answers);
        assert(r@.authorities =~= add_opt_spec(msg@, ede.code, ede.data@).authorities);
        assert(r@.additionals =~= add_opt_spec(msg@, ede.code, ede.data@).additionals);
    }
    r
}

//---------- The response decision ----------------------------------------------------

/// The response as it goes back to the caller, by validation outcome and
/// the flags the request first carried.
pub open spec fn process_response_spec(
    m: MessageV,
    do_flag: bool,
    cd: bool,
    req_ad: bool,
    state: ValidationState,
    ede: Option<(u16, Seq<u8>)>,
) -> MessageV {
    if cd {
        if m.header.ad {
            MessageV { header: Header { ad: false, ..m.header }, ..m }
        } else {
            m
        }
    } else {
        match state {
            ValidationState::Secure => if do_flag {
                MessageV { header: Header { ad: true, cd: false, ..m.header }, ..m }
            } else {
                remove_dnssec_spec(m, req_ad)
            },
            ValidationState::Insecure | ValidationState::Indeterminate => {
                let m2 = match ede {
                    Some((code, data)) => add_opt_spec(m, code, data),
                    None => m,
                };
                if do_flag {
                    MessageV { header: Header { ad: false, cd: false, ..m2.header }, ..m2 }
                } else {
                    remove_dnssec_spec(m2, false)
                }
            },
            ValidationState::Bogus => m,
        }
    }
}

/// Rewrites a validated response for the caller: with CD set it goes back
/// as received, at most losing a stray AD bit; a secure answer carries AD
/// when DNSSEC was asked for and is stripped otherwise; an insecure or
/// indeterminate answer carries the extended error, loses AD and CD, and
/// is stripped when DNSSEC was not asked for.
pub fn process_response(
    response: &Message,
    do_flag: bool,
    cd: bool,
    req_ad: bool,
    state: ValidationState,
    ede: Option<&EdnsOption>,
) -> (r: Message)
    requires
        cd || state != ValidationState::Bogus,
        match ede {
            Some(e) => e.data@.len() <= 65535,
            None => true,
        },
    ensures
        r@ == process_response_spec(
            response@,
            do_flag,
            cd,
            req_ad,
            state,
            match ede {
                Some(e) => Some((e.code, e.data@)),
                None => None,
            },
        ),
{
    if cd {
        if response.header.ad {
            let mut r = response.clone();
            r.header.ad = false;
            return r;
        }
        return response.clone();
    }
    match state {
        ValidationState::Secure => {
            if do_flag {
                let mut r = response.clone();
                r.header.ad = true;
                r.header.cd = false;
                r
            } else {
                remove_dnssec(response, req_ad)
            }
        },
        _ => {
            let m2 = match ede {
                Some(e) => add_opt(response, e),
                None => response.clone(),
            };
            if do_flag {
                let mut r = m2;
                r.header.ad = false;
                r.header.cd = false;
                r
            } else {
                remove_dnssec(&m2, false)
            }
        },
    }
}

//---------- The connection -----------------------------------------------------------

/// Configuration of a validating connection.
#[derive(Clone, Copy, Debug, PartialEq, Eq, Structural)]
pub struct Config {}

impl Config {
    /// A config with default values.
    pub fn new() -> (r: Config)
        ensures
            r == (Config {  }),
    {
        Config {  }
    }
}

/// A connection that validates responses from an upstream connection
/// against a validation context.
pub struct Connection<Upstream, VCUpstream> {
    pub upstream: Upstream,
    pub vc: VCUpstream,
    pub config: Config,
}

impl<Upstream, VCUpstream> Connection<Upstream, VCUpstream> {
    /// A connection with the default configuration.
    pub fn new(upstream: Upstream, vc: VCUpstream) -> (r: Connection<Upstream, VCUpstream>)
        ensures
            r.upstream == upstream,
            r.vc == vc,
            r.config == Config::new_spec(),
    {
        Self::with_config(upstream, vc, Config {  })
    }

    /// A connection with the given configuration.
    pub fn with_config(upstream: Upstream, vc: VCUpstream, config: Config) -> (r: Connection<
        Upstream,
        VCUpstream,
    >)
        ensures
            r.upstream == upstream,
            r.vc == vc,
            r.config == config,
    {
        Connection { upstream, vc, config }
    }
}

impl Config {
    /// The default configuration value.
    pub open spec fn new_spec() -> Config {
        Config {  }
    }
}

/// The state of one request moving through a validating connection.
pub struct Request<CR, Upstream, VCUpstream> {
    pub request_msg: CR,
    pub upstream: Upstream,
    pub vc: VCUpstream,
    pub config: Config,
}

impl<CR, Upstream, VCUpstream> Request<CR, Upstream, VCUpstream> {
    /// A new request against the given upstream and validation context.
    pub fn new(request_msg: CR, upstream: Upstream, vc: VCUpstream, config: Config) -> (r:
        Request<CR, Upstream, VCUpstream>)
        ensures
            r.request_msg == request_msg,
            r.upstream == upstream,
            r.vc == vc,
            r.config == config,
    {
        Request { request_msg, upstream, vc, config }
    }
}

//---------- Preparing the request ----------------------------------------------------

/// The OPT record a request gains when it had none: root owner, a plain
/// payload size, the DO bit set.
pub open spec fn fresh_do_opt() -> RecordV {
    RecordV {
        owner: Seq::<Seq<u8>>::empty(),
        rtype: RT_OPT,
        class: 1232u16,
        ttl: OPT_DO_MASK,
        rdata: RdataV::Other { data: Seq::<u8>::empty() },
    }
}

/// Prepares a request for validation: remembers its DO and CD flags, then
/// sets both, so that the upstream answer carries everything validation
/// needs. Returns the remembered flags.
pub fn prepare_request(msg: &mut Message) -> (saved: (bool, bool))
    ensures
        saved.0 == dnssec_ok(old(msg)@),
        saved.1 == old(msg)@.header.cd,
        final(msg)@.header == (Header { cd: true, ..old(msg)@.header }),
        final(msg)@.questions == old(msg)@.questions,
        final(msg)@.answers == old(msg)@.answers,
        final(msg)@.authorities == old(msg)@.authorities,
        match first_opt(old(msg)@.additionals) {
            Some(_) => exists|i: int|
                {
                    &&& 0 <= i < old(msg)@.additionals.len()
                    &&& (#[trigger] old(msg)@.additionals[i]).rtype == RT_OPT
                    &&& forall|j: int|
                        0 <= j < i ==> old(msg)@.additionals[j].rtype != RT_OPT
                    &&& final(msg)@.additionals == old(msg)@.additionals.update(
                        i,
                        RecordV {
                            ttl: old(msg)@.additionals[i].ttl | OPT_DO_MASK,
                            ..old(msg)@.additionals[i]
                        },
                    )
                },
            None => final(msg)@.additionals == old(msg)@.additionals + seq![fresh_do_opt()],
        },
{
    let saved_cd = msg.header.cd;
    let saved_do = match find_opt(&msg.additionals) {
        Some(i) => msg.additionals[i].ttl & OPT_DO_MASK != 0,
        None => false,
    };
    msg.header.cd = true;
    match find_opt(&msg.additionals) {
        Some(i) => {
            let o = &msg.additionals[i];
            let updated = Record {
                owner: o.owner.clone(),
                rtype: o.rtype,
                class: o.class,
                ttl: o.ttl | OPT_DO_MASK,
                rdata: o.rdata.clone(),
            };
            let ghost pre = records_view(msg.additionals@);
            msg.additionals.set(i, updated);
            proof {
                assert(records_view(msg.additionals@) =~= pre.update(
                    i as int,
                    RecordV { ttl: pre[i as int].ttl | OPT_DO_MASK, ..pre[i as int] },
                ));
            }
        },
        None => {
            let ghost pre = records_view(msg.additionals@);
            msg.additionals.push(
                Record {
                    owner: crate::name::Name::root(),
                    rtype: RT_OPT,
                    class: 1232,
                    ttl: OPT_DO_MASK,
                    rdata: Rdata::Other { data: Vec::new() },
                },
            );
            proof {
                assert(records_view(msg.additionals@) =~= pre + seq![fresh_do_opt()]);
            }
        },
    }
    (saved_do, saved_cd)
}

} // verus!
