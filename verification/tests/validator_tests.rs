//! The validating transport's decisions.

use domain::message::{
    Header, Message, Question, Rdata, Record, RT_A, RT_DNSKEY, RT_NS, RT_OPT, RT_RRSIG, CLASS_IN,
};
use domain::name::Name;
use domain::validator::{
    add_opt, is_dnssec, prepare_request, process_response, remove_dnssec, Config, Connection,
    EdnsOption, Request, ValidationState, OPT_DO_MASK,
};

fn name(labels: &[&str]) -> Name {
    Name::from_labels(labels.iter().map(|l| l.as_bytes().to_vec()).collect())
}

fn rrsig(owner: &[&str]) -> Record {
    Record {
        owner: name(owner),
        rtype: RT_RRSIG,
        class: CLASS_IN,
        ttl: 60,
        rdata: Rdata::Other { data: vec![1, 2, 3] },
    }
}

fn a_record(owner: &[&str]) -> Record {
    Record {
        owner: name(owner),
        rtype: RT_A,
        class: CLASS_IN,
        ttl: 60,
        rdata: Rdata::Other { data: vec![192, 0, 2, 1] },
    }
}

fn opt_record(ttl: u32) -> Record {
    Record {
        owner: Name::root(),
        rtype: RT_OPT,
        class: 1232,
        ttl,
        rdata: Rdata::Other { data: vec![] },
    }
}

fn response(answers: Vec<Record>, authorities: Vec<Record>, additionals: Vec<Record>) -> Message {
    let mut header = Header::new();
    header.id = 5;
    header.qr = true;
    header.ad = true;
    header.cd = true;
    Message {
        header,
        questions: vec![Question { qname: name(&["example", "com"]), qtype: RT_A, qclass: CLASS_IN }],
        answers,
        authorities,
        additionals,
    }
}

#[test]
fn dnssec_types_are_recognised() {
    assert!(is_dnssec(RT_RRSIG));
    assert!(is_dnssec(RT_DNSKEY));
    assert!(is_dnssec(47));
    assert!(is_dnssec(50));
    assert!(!is_dnssec(RT_A));
    assert!(!is_dnssec(RT_NS));
}

#[test]
fn stripping_removes_dnssec_records() {
    let m = response(
        vec![a_record(&["example", "com"]), rrsig(&["example", "com"])],
        vec![rrsig(&["example", "com"])],
        vec![rrsig(&["x", "example", "com"]), opt_record(OPT_DO_MASK | 0x30000)],
    );
    let stripped = remove_dnssec(&m, true);
    // the RRSIG leaves answer (qtype is A), authority and additional
    assert_eq!(stripped.answers.len(), 1);
    assert_eq!(stripped.answers[0].rtype, RT_A);
    assert_eq!(stripped.authorities.len(), 0);
    // the OPT is rebuilt with DO cleared and the version kept
    assert_eq!(stripped.additionals.len(), 1);
    let opt = &stripped.additionals[0];
    assert_eq!(opt.rtype, RT_OPT);
    assert_eq!(opt.ttl & OPT_DO_MASK, 0);
    assert_eq!(opt.ttl & 0x00FF0000, 0x30000);
    // AD becomes the asked value, CD is cleared
    assert!(stripped.header.ad);
    assert!(!stripped.header.cd);
}

#[test]
fn stripping_keeps_dnssec_records_that_were_asked_for() {
    let mut m = response(vec![rrsig(&["example", "com"])], vec![], vec![]);
    m.questions[0].qtype = RT_RRSIG;
    let stripped = remove_dnssec(&m, false);
    assert_eq!(stripped.answers.len(), 1);
    assert_eq!(stripped.answers[0].rtype, RT_RRSIG);
    assert!(!stripped.header.ad);
}

#[test]
fn add_opt_appends_the_option() {
    let m = response(vec![], vec![], vec![opt_record(OPT_DO_MASK)]);
    let ede = EdnsOption { code: 15, data: vec![0, 6] };
    let extended = add_opt(&m, &ede);
    assert_eq!(extended.additionals.len(), 1);
    let opt = &extended.additionals[0];
    assert_eq!(opt.rtype, RT_OPT);
    // DO survives the rebuild
    assert_ne!(opt.ttl & OPT_DO_MASK, 0);
    match &opt.rdata {
        Rdata::Other { data } => {
            // the appended option: code 15, length 2, the two data bytes
            assert_eq!(data, &vec![0, 15, 0, 2, 0, 6]);
        }
        _ => panic!("OPT data stays raw"),
    }
}

#[test]
fn add_opt_without_an_opt_changes_nothing_material() {
    let m = response(vec![a_record(&["example", "com"])], vec![], vec![]);
    let ede = EdnsOption { code: 15, data: vec![] };
    let extended = add_opt(&m, &ede);
    assert_eq!(extended.additionals.len(), 0);
    assert_eq!(extended.answers.len(), 1);
}

#[test]
fn cd_requests_pass_through_without_ad() {
    let m = response(vec![rrsig(&["example", "com"])], vec![], vec![]);
    let out = process_response(&m, true, true, false, ValidationState::Secure, None);
    // nothing stripped, only AD cleared
    assert_eq!(out.answers.len(), 1);
    assert!(!out.header.ad);
}

#[test]
fn secure_with_do_sets_ad() {
    let mut m = response(vec![rrsig(&["example", "com"])], vec![], vec![]);
    m.header.ad = false;
    let out = process_response(&m, true, false, false, ValidationState::Secure, None);
    assert!(out.header.ad);
    assert!(!out.header.cd);
    assert_eq!(out.answers.len(), 1);
}

#[test]
fn secure_without_do_strips() {
    let m = response(
        vec![a_record(&["example", "com"]), rrsig(&["example", "com"])],
        vec![],
        vec![],
    );
    let out = process_response(&m, false, false, true, ValidationState::Secure, None);
    assert_eq!(out.answers.len(), 1);
    assert_eq!(out.answers[0].rtype, RT_A);
    assert!(out.header.ad);
}

#[test]
fn insecure_clears_ad_and_carries_the_error() {
    let m = response(vec![], vec![], vec![opt_record(0)]);
    let ede = EdnsOption { code: 15, data: vec![0, 22] };
    let out = process_response(&m, true, false, false, ValidationState::Insecure, Some(&ede));
    assert!(!out.header.ad);
    assert!(!out.header.cd);
    match &out.additionals[0].rdata {
        Rdata::Other { data } => assert_eq!(data, &vec![0, 15, 0, 2, 0, 22]),
        _ => panic!("OPT data stays raw"),
    }
}

#[test]
fn preparing_a_request_sets_do_and_cd() {
    let mut header = Header::new();
    header.id = 9;
    let mut m = Message {
        header,
        questions: vec![Question { qname: name(&["example", "com"]), qtype: RT_A, qclass: CLASS_IN }],
        answers: vec![],
        authorities: vec![],
        additionals: vec![],
    };
    let (had_do, had_cd) = prepare_request(&mut m);
    assert!(!had_do);
    assert!(!had_cd);
    assert!(m.header.cd);
    assert_eq!(m.additionals.len(), 1);
    assert_eq!(m.additionals[0].rtype, RT_OPT);
    assert_ne!(m.additionals[0].ttl & OPT_DO_MASK, 0);
    // preparing again finds the flags already set
    let (had_do2, had_cd2) = prepare_request(&mut m);
    assert!(had_do2);
    assert!(had_cd2);
    assert_eq!(m.additionals.len(), 1);
}

#[test]
fn connection_carries_its_parts() {
    let conn = Connection::new(1u32, 2u32);
    assert_eq!(conn.upstream, 1);
    assert_eq!(conn.vc, 2);
    let conn2 = Connection::with_config(3u32, 4u32, Config::new());
    assert_eq!(conn2.config, Config::new());
    let req = Request::new(7u8, conn.upstream, conn.vc, conn.config);
    assert_eq!(req.request_msg, 7);
    assert_eq!(req.upstream, 1);
}
