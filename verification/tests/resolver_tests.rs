use std::collections::HashMap;

use recursor::backend::make_query;
use recursor::daemon;
use recursor::name::Name;
use recursor::records::{IpAddress, Message, Query, RData, Record, RecordType, ResponseCode};
use recursor::resolver::{
    classify_response, first_ip, is_final, Backend, QueryResponse, RecursiveResolver,
    ResolutionError,
};
use recursor::target::{find_in_glue, get_name_if_ns, get_target, NsProvider, RootsProvider, Target};

fn name(s: &str) -> Name {
    let trimmed = s.strip_suffix('.').unwrap_or(s);
    let labels: Vec<Vec<u8>> = if trimmed.is_empty() {
        Vec::new()
    } else {
        trimmed.split('.').map(|l| l.as_bytes().to_vec()).collect()
    };
    Name::from_labels(&labels).expect("valid name")
}

fn ipv4(s: &str) -> u32 {
    s.split('.').fold(0u32, |acc, o| (acc << 8) | o.parse::<u32>().expect("octet"))
}

fn ip(s: &str) -> IpAddress {
    IpAddress::V4(ipv4(s))
}

fn a(owner: &str, addr: &str) -> Record {
    Record { name: name(owner), record_type: RecordType::A, ttl: 0, rdata: Some(RData::A(ipv4(addr))) }
}

fn ns(owner: &str, target: &str) -> Record {
    Record { name: name(owner), record_type: RecordType::Ns, ttl: 0, rdata: Some(RData::Ns(name(target))) }
}

fn refer(name_servers: Vec<Record>, glue: Vec<Record>) -> Message {
    let mut msg = Message::new();
    msg.name_servers = name_servers;
    msg.additionals = glue;
    msg
}

fn answer(record: Record) -> Message {
    let mut msg = Message::new();
    msg.authoritative = true;
    msg.answers = vec![record];
    msg
}

struct FakeBackend {
    answers: HashMap<(IpAddress, Name, RecordType), Message>,
}

impl FakeBackend {
    fn new() -> Self {
        FakeBackend { answers: HashMap::new() }
    }

    fn add(&mut self, target: &str, to_resolve: &str, record_type: RecordType, message: Message) {
        self.answers.insert((ip(target), name(to_resolve), record_type), message);
    }
}

impl Backend for FakeBackend {
    fn query(
        &self,
        target: IpAddress,
        to_resolve: &Name,
        record_type: RecordType,
    ) -> Result<Message, ResolutionError> {
        self.answers
            .get(&(target, to_resolve.clone(), record_type))
            .cloned()
            .ok_or(ResolutionError::ServFail("Could not find response".to_string()))
    }
}

struct ServFailBackend {}

impl Backend for ServFailBackend {
    fn query(&self, _: IpAddress, _: &Name, _: RecordType) -> Result<Message, ResolutionError> {
        Err(ResolutionError::ServFail("from ServFailBackend".to_string()))
    }
}

const NOW: u64 = 1000;

#[test]
fn test_is_final() {
    // not authoritative, no answer
    let m = Message::new();
    assert!(!is_final(&m));

    // authoritative, no answer
    let mut m = Message::new();
    m.authoritative = true;
    assert!(!is_final(&m));

    // not authoritative, answer
    m.authoritative = false;
    m.answers.push(a("a.b", "10.0.0.1"));
    assert!(!is_final(&m));

    m.authoritative = true;
    assert!(is_final(&m));
}

#[test]
fn test_resolve() {
    let mut b = FakeBackend::new();
    b.add("10.0.0.1", "a.b", RecordType::A, refer(vec![ns("b", "ns.e.f")], vec![a("ns.e.f", "10.0.0.2")]));
    b.add("10.0.0.2", "a.b", RecordType::A, refer(vec![ns("a.b", "ns.c.d")], vec![]));
    b.add(
        "10.0.0.1",
        "ns.c.d",
        RecordType::A,
        refer(vec![ns("c.d", "ns.c.d")], vec![a("ns.c.d", "10.0.0.3")]),
    );
    b.add("10.0.0.3", "ns.c.d", RecordType::A, answer(a("ns.c.d", "10.0.0.3")));
    b.add("10.0.0.3", "a.b", RecordType::A, answer(a("a.b", "10.0.0.42")));

    let mut resolver = RecursiveResolver::with_backend(b, vec![ip("10.0.0.1")], 64);

    let result = resolver.resolve(&name("a.b"), RecordType::A, NOW).expect("should resolve");
    let record = result.first().expect("Could not find record in response");
    assert_eq!(record.name, name("a.b"));
    if let Some(RData::A(addr)) = record.rdata {
        assert_eq!(addr, ipv4("10.0.0.42"));
    } else {
        panic!("Could not find A record in result");
    }
}

#[test]
fn test_cross_referencing_domains() {
    let mut b = FakeBackend::new();
    b.add(
        "10.0.0.1",
        "ns.a.b",
        RecordType::A,
        refer(vec![ns("b", "ns.e.f")], vec![a("ns.e.f", "10.0.0.2")]),
    );
    b.add("10.0.0.2", "ns.a.b", RecordType::A, refer(vec![ns("a.b", "ns.c.d")], vec![]));
    b.add(
        "10.0.0.1",
        "ns.c.d",
        RecordType::A,
        refer(vec![ns("c.d", "e.f.g")], vec![a("e.f.g", "10.0.0.3")]),
    );
    // NS record for ns.c.d points back to ns.a.b.
    b.add("10.0.0.3", "ns.c.d", RecordType::A, refer(vec![ns("c.d", "ns.a.b")], vec![]));

    let mut resolver = RecursiveResolver::with_backend(b, vec![ip("10.0.0.1")], 64);

    let result = resolver.resolve(&name("ns.a.b"), RecordType::A, NOW);

    if let Err(ResolutionError::ServFail(e)) = result {
        assert_eq!(e, "Broken DNS config, seen ns.a.b A twice");
    } else {
        panic!("This resolve() call should fail");
    }
}

#[test]
fn resolve_surfaces_nxdomain() {
    let mut b = FakeBackend::new();
    let mut msg = Message::new();
    msg.response_code = ResponseCode::NxDomain;
    b.add("10.0.0.1", "gone.example", RecordType::A, msg);

    let mut resolver = RecursiveResolver::with_backend(b, vec![ip("10.0.0.1")], 64);
    let result = resolver.resolve(&name("gone.example"), RecordType::A, NOW);
    assert!(matches!(result, Err(ResolutionError::NxDomain)));
}

#[test]
fn daemon_maps_nxdomain() {
    let mut b = FakeBackend::new();
    let mut upstream = Message::new();
    upstream.response_code = ResponseCode::NxDomain;
    b.add("10.0.0.1", "gone.example", RecordType::A, upstream);

    let mut resolver = RecursiveResolver::with_backend(b, vec![ip("10.0.0.1")], 64);
    let mut request = Message::new();
    request.id = 77;
    request.queries.push(Query { to_resolve: name("gone.example"), record_type: RecordType::A });

    let response = daemon::resolve(request, &mut resolver, NOW);
    assert_eq!(response.response_code, ResponseCode::NxDomain);
    assert_eq!(77, response.id);
}

#[test]
fn test_resolve_non_query() {
    // no question present, should return a FormErr
    let mut msg = Message::new();
    msg.id = 4711;
    let mut resolver = RecursiveResolver::with_backend(ServFailBackend {}, vec![], 64);
    let response = daemon::resolve(msg, &mut resolver, NOW);
    assert_eq!(response.response_code, ResponseCode::FormErr);
    assert_eq!(4711, response.id);
}

#[test]
fn test_resolve_servfail() {
    let mut resolver = RecursiveResolver::with_backend(ServFailBackend {}, vec![], 64);
    let mut msg = Message::new();
    msg.id = 4712;
    msg.queries.push(Query { to_resolve: name("example.com"), record_type: RecordType::A });
    let response = daemon::resolve(msg, &mut resolver, NOW);
    assert_eq!(response.response_code, ResponseCode::ServFail);
    assert_eq!(4712, response.id);
}

#[test]
fn target_test_find_in_glue() {
    let ip0 = "172.104.148.31";
    let glue = vec![a("ns0.c.d", ip0), a("ns1.c.d", "140.238.85.157")];
    let result = find_in_glue(&name("ns0.c.d"), &glue);
    assert_eq!(Some(ip(ip0)), result);
}

#[test]
fn selector_test_find_in_glue() {
    let ip0 = "172.104.148.31";
    let glue = vec![a("ns0.resare.com", ip0), a("ns1.resare.com", "140.238.85.157")];
    let result = find_in_glue(&name("ns0.resare.com"), &glue);
    assert_eq!(Some(ip(ip0)), result);
}

#[test]
fn test_get_name_if_ns() {
    match get_name_if_ns(&ns("com.", "ns0.com.")) {
        Some(Ok(n)) => assert_eq!(&name("ns0.com."), n),
        _ => panic!("expected the NS target name"),
    }
    assert!(get_name_if_ns(&a("foo.com.", "127.0.0.1")).is_none());
    // a record of type NS with no rdata at all
    let r = Record { name: name("ns0.com"), record_type: RecordType::Ns, ttl: 60, rdata: None };
    match get_name_if_ns(&r) {
        Some(Err(ResolutionError::ServFail(m))) => assert_eq!("no rdata", m),
        _ => panic!("expected a server failure"),
    }
    // an inconsistent record, claiming to be an NS but with A rdata
    let mut r = a("ns0.com.", "127.0.0.1");
    r.record_type = RecordType::Ns;
    match get_name_if_ns(&r) {
        Some(Err(ResolutionError::ServFail(m))) => assert_eq!("inconsistent rdata type", m),
        _ => panic!("expected a server failure"),
    }
}

#[test]
fn test_get_target_invalid_input() {
    // the case where the record is of the wrong type
    let result = get_target(&a("a.b.", "1.2.3.4"), &Vec::new()).unwrap_err();
    match result {
        ResolutionError::ServFail(m) => {
            assert_eq!("inconsistent data, NsProvider was fed a non-ns record", m)
        },
        _ => panic!("expected a server failure"),
    }
    // the case where the record is of the right type but with the wrong data
    let mut r = a("ns0.com.", "127.0.0.1");
    r.record_type = RecordType::Ns;
    let result = get_target(&r, &Vec::new()).unwrap_err();
    match result {
        ResolutionError::ServFail(m) => assert_eq!("inconsistent rdata type", m),
        _ => panic!("expected a server failure"),
    }
}

#[test]
fn get_target_prefers_glue() {
    let glue = vec![a("ns0.com", "10.0.0.9")];
    match get_target(&ns("com", "ns0.com"), &glue) {
        Ok(Target::Ip(addr)) => assert_eq!(ip("10.0.0.9"), addr),
        _ => panic!("expected a concrete address"),
    }
    match get_target(&ns("com", "ns1.com"), &glue) {
        Ok(Target::Name(n)) => assert_eq!(name("ns1.com"), n),
        _ => panic!("expected the NS name"),
    }
}

#[test]
fn roots_provider_yields_each_root_once() {
    let roots = vec![ip("10.0.0.1"), ip("10.0.0.2"), ip("10.0.0.3")];
    let mut provider = RootsProvider::new(&roots);
    let mut got: Vec<u32> = Vec::new();
    while let Ok(Some(Target::Ip(IpAddress::V4(bits)))) = provider.next() {
        got.push(bits);
    }
    assert!(matches!(provider.next(), Ok(None)));
    got.sort();
    assert_eq!(vec![ipv4("10.0.0.1"), ipv4("10.0.0.2"), ipv4("10.0.0.3")], got);
}

#[test]
fn ns_provider_drops_records_of_other_types() {
    let provider_input = vec![ns("com", "ns0.com"), a("junk.com", "10.0.0.8")];
    let mut provider = NsProvider::new(provider_input, vec![]);
    match provider.next() {
        Ok(Some(Target::Name(n))) => assert_eq!(name("ns0.com"), n),
        _ => panic!("expected one NS target"),
    }
    assert!(matches!(provider.next(), Ok(None)));
}

#[test]
fn classify_response_cases() {
    let mut m = Message::new();
    m.response_code = ResponseCode::NxDomain;
    assert!(matches!(classify_response(&m), Err(ResolutionError::NxDomain)));

    let final_response = answer(a("a.b", "10.0.0.42"));
    match classify_response(&final_response) {
        Ok(QueryResponse::Answer(records)) => assert_eq!(vec![a("a.b", "10.0.0.42")], records),
        _ => panic!("expected answers"),
    }

    let referral = refer(vec![ns("b", "ns.e.f")], vec![a("ns.e.f", "10.0.0.2")]);
    match classify_response(&referral) {
        Ok(QueryResponse::Referral(nss, glue)) => {
            assert_eq!(vec![ns("b", "ns.e.f")], nss);
            assert_eq!(vec![a("ns.e.f", "10.0.0.2")], glue);
        },
        _ => panic!("expected a referral"),
    }
}

#[test]
fn make_query_sets_flags_and_question() {
    let m = make_query(&name("a.b"), RecordType::A);
    assert!(m.recursion_desired);
    assert!(m.authentic_data);
    assert!(!m.authoritative);
    assert_eq!(ResponseCode::NoError, m.response_code);
    assert_eq!(1, m.queries.len());
    assert_eq!(name("a.b"), m.queries[0].to_resolve);
    assert_eq!(RecordType::A, m.queries[0].record_type);
    assert!(m.answers.is_empty() && m.name_servers.is_empty() && m.additionals.is_empty());
}

#[test]
fn first_ip_takes_last_a_record() {
    let mut records = vec![a("a.b", "10.0.0.1"), a("a.b", "10.0.0.2")];
    assert_eq!(Ok(ip("10.0.0.2")), first_ip(&mut records));

    let mut empty: Vec<Record> = Vec::new();
    match first_ip(&mut empty) {
        Err(ResolutionError::ServFail(m)) => assert_eq!("unexpected empty result", m),
        _ => panic!("expected a server failure"),
    }

    let mut wrong = vec![ns("a.b", "ns.a.b")];
    match first_ip(&mut wrong) {
        Err(ResolutionError::ServFail(m)) => assert_eq!("no rdata, or wrong type of rdata", m),
        _ => panic!("expected a server failure"),
    }
}

struct IoErrorBackend {}

impl Backend for IoErrorBackend {
    fn query(&self, _: IpAddress, _: &Name, _: RecordType) -> Result<Message, ResolutionError> {
        Err(ResolutionError::IOError("connection refused".to_string()))
    }
}

#[test]
fn backend_errors_abort_the_resolution() {
    let mut resolver = RecursiveResolver::with_backend(IoErrorBackend {}, vec![ip("10.0.0.1")], 64);
    match resolver.resolve(&name("example.com"), RecordType::A, NOW) {
        Err(ResolutionError::IOError(m)) => assert_eq!("connection refused", m),
        _ => panic!("expected the backend's error to surface"),
    }
}

#[test]
fn resolve_uses_cached_answers() {
    // an authoritative answer with a positive ttl is cached; a second
    // resolution is served from the cache even with no backend entries
    let mut b = FakeBackend::new();
    let mut cached = a("a.b", "10.0.0.42");
    cached.ttl = 300;
    b.add("10.0.0.1", "a.b", RecordType::A, answer(cached.clone()));

    let mut resolver = RecursiveResolver::with_backend(b, vec![ip("10.0.0.1")], 64);
    let first = resolver.resolve(&name("a.b"), RecordType::A, NOW).expect("first");
    assert_eq!(vec![cached.clone()], first);

    // the resolver now holds the answer in its cache; a read a second
    // later is served from it with the remaining lifetime as the ttl
    let second = resolver.resolve(&name("a.b"), RecordType::A, NOW + 1).expect("second");
    assert_eq!(1, second.len());
    assert_eq!(name("a.b"), second[0].name);
    assert_eq!(299, second[0].ttl);
}
