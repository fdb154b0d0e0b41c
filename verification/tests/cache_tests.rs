use recursor::cache::{make_referral_query, parents, update_ttl, CacheResponse, DnsCache};
use recursor::cache::eligible;
use recursor::name::Name;
use recursor::records::{Query, RData, Record, RecordType};

fn name(s: &str) -> Name {
    let trimmed = s.strip_suffix('.').unwrap_or(s);
    let labels: Vec<Vec<u8>> = if trimmed.is_empty() {
        Vec::new()
    } else {
        trimmed.split('.').map(|l| l.as_bytes().to_vec()).collect()
    };
    Name::from_labels(&labels).expect("valid name")
}

fn ipv4(s: &str) -> u32 {
    s.split('.').fold(0u32, |acc, o| (acc << 8) | o.parse::<u32>().expect("octet"))
}

fn a(owner: &str, addr: &str) -> Record {
    Record { name: name(owner), record_type: RecordType::A, ttl: 60, rdata: Some(RData::A(ipv4(addr))) }
}

fn ns(owner: &str, target: &str) -> Record {
    Record { name: name(owner), record_type: RecordType::Ns, ttl: 60, rdata: Some(RData::Ns(name(target))) }
}

fn query(n: &str, record_type: RecordType) -> Query {
    Query { to_resolve: name(n), record_type }
}

#[test]
fn test_cache() {
    let mut cache = DnsCache::new(5);
    let now: u64 = 1000;
    for i in 0..5 {
        let key = format!("key{i}.example");
        cache.store_with_ttl(query(&key, RecordType::A), vec![a(&key, "10.0.0.1")], now + 10);
    }

    let result = cache.get_with_remaining_ttl(&query("key0.example", RecordType::A), now);
    assert!(result.is_some());
    let (records, remaining) = result.unwrap();
    assert_eq!(vec![a("key0.example", "10.0.0.1")], records);
    assert_eq!(10, remaining);

    assert_eq!(5, cache.len());
    // at the expiry instant the entry is removed, shrinking the cache
    let result = cache.get_with_remaining_ttl(&query("key1.example", RecordType::A), now + 20);
    assert!(result.is_none());
    assert_eq!(4, cache.len());

    // a key never stored misses without changing anything
    assert!(cache.get_with_remaining_ttl(&query("key42.example", RecordType::A), now).is_none());
    assert_eq!(4, cache.len());
}

#[test]
fn test_update_ttl() {
    let mut record = a("example.com", "127.0.0.1");
    record.ttl = 47;
    let mut another = a("another.com", "127.0.0.1");
    another.ttl = 48;

    let result = update_ttl((vec![record, another], 42));
    assert!(result.into_iter().map(|r| r.ttl).all(|ttl| ttl == 42));
}

#[test]
fn test_zero_ttl() {
    let mut record = a("example.com", "127.0.0.1");
    record.ttl = 0;
    let mut cache = DnsCache::new(1);
    let q = query("example.com", RecordType::A);

    let when: u64 = 1000;
    cache.store(q.clone(), vec![record], when);

    assert!(cache.get_and_update_ttl(&q, when).is_none());
}

#[test]
fn test_get_and_update_ttl() {
    let mut record = a("example.com", "127.0.0.1");
    record.ttl = 47;
    let mut cache = DnsCache::new(1);
    let q = query("example.com", RecordType::A);
    let when: u64 = 1000;
    cache.store(q.clone(), vec![record], when);

    let result = cache.get_and_update_ttl(&q, when + 10);
    assert!(result.is_some());
    assert!(result.unwrap().iter().all(|r| r.ttl == 37));
}

#[test]
fn test_eligible() {
    let to_resolve = name("example.com.");
    assert!(eligible(&vec![ns("example.com.", "dns.foo.bar")], &vec![], &to_resolve));
    assert!(eligible(&vec![ns("com", "dns.foo.bar")], &vec![], &to_resolve));
    assert!(!eligible(&vec![ns("net", "dns.foo.bar")], &vec![], &to_resolve));

    assert!(eligible(
        &vec![ns("com", "dns.foo.com")],
        &vec![a("dns.foo.com", "127.0.0.1")],
        &to_resolve
    ));
    assert!(!eligible(
        &vec![ns("com", "dns.foo.com")],
        &vec![a("dns.victim.org", "127.0.0.1")],
        &to_resolve
    ));
    // verify that this is case-insensitive
    assert!(eligible(
        &vec![ns("com", "dns.FOO.com")],
        &vec![a("dns.foo.com", "127.0.0.1")],
        &to_resolve
    ));
}

#[test]
fn test_make_referral_query() {
    let result = make_referral_query(&vec![ns("com", "a.com"), ns("com", "b.com")]);
    assert_eq!(
        vec![(query("com", RecordType::Ns), vec![ns("com", "a.com"), ns("com", "b.com")])],
        result
    );
}

#[test]
fn test_store_referral() {
    let mut cache = DnsCache::new(3);
    let now: u64 = 1000;
    cache.store_referral(
        vec![ns("com", "a.com"), ns("com", "b.com")],
        vec![a("a.com", "127.0.0.1"), a("b.com", "127.0.0.3")],
        &name("example.com"),
        now,
    );

    let result = cache.get_and_update_ttl(&query("com", RecordType::Ns), now);
    assert_eq!(Some(vec![ns("com", "a.com"), ns("com", "b.com")]), result);

    let result = cache.get_and_update_ttl(&query("a.com", RecordType::A), now);
    assert_eq!(Some(vec![a("a.com", "127.0.0.1")]), result);
}

#[test]
fn test_store_referral_empty_glue() {
    let mut cache = DnsCache::new(3);
    let now: u64 = 1000;
    cache.store_referral(
        vec![ns("com", "a.com"), ns("com", "b.com")],
        vec![],
        &name("example.com"),
        now,
    );
    let result = cache.get_and_update_ttl(&query("com", RecordType::Ns), now);
    assert_eq!(Some(vec![ns("com", "a.com"), ns("com", "b.com")]), result);
}

#[test]
fn test_get_best_record_authoritative() {
    let mut cache = DnsCache::new(1);
    let now: u64 = 1000;
    let q = query("example.com", RecordType::A);
    cache.store(q.clone(), vec![a("example.com", "127.0.0.1")], now);
    // direct hit
    let result = cache.get_best_record(&q, now);
    assert_eq!(CacheResponse::Authoritative(vec![a("example.com", "127.0.0.1")]), result);
}

#[test]
fn test_get_best_record_referral() {
    let mut cache = DnsCache::new(3);
    let now: u64 = 1000;
    cache.store_referral(
        vec![ns("com.", "a.com."), ns("com.", "b.com.")],
        vec![a("a.com.", "127.0.0.1"), a("b.com.", "127.0.0.3")],
        &name("example.com."),
        now,
    );

    let result = cache.get_and_update_ttl(&query("com.", RecordType::Ns), now);
    assert_eq!(Some(vec![ns("com.", "a.com."), ns("com.", "b.com.")]), result);

    let mut cache = DnsCache::new(100);
    cache.store_referral(
        vec![ns("com.", "ns0.com."), ns("com.", "ns1.com.")],
        vec![a("ns0.com.", "127.0.0.1"), a("ns1.com.", "127.0.0.2")],
        &name("foo.com."),
        now,
    );

    let result = cache.get_best_record(&query("bar.com", RecordType::A), now);
    assert_eq!(
        CacheResponse::Referral(
            vec![ns("com", "ns0.com"), ns("com", "ns1.com")],
            vec![a("ns0.com", "127.0.0.1"), a("ns1.com", "127.0.0.2")]
        ),
        result
    );
}

#[test]
fn test_parents() {
    assert!(parents(&name("")).is_empty());

    assert_eq!(vec![name("b.com"), name("com")], parents(&name("a.b.com")));
    assert_eq!(
        vec![name("b.c.com"), name("c.com"), name("com")],
        parents(&name("a.b.c.com"))
    );
}

#[test]
fn expired_entry_is_gone() {
    let mut cache = DnsCache::new(2);
    let q = query("example.com", RecordType::A);
    let t0: u64 = 1000;
    cache.store(q.clone(), vec![a("example.com", "127.0.0.1")], t0);

    // a read before the expiry instant returns the value
    assert!(cache.get_and_update_ttl(&q, t0 + 59).is_some());
    // at the expiry instant the entry is dropped and stays gone
    assert!(cache.get_and_update_ttl(&q, t0 + 60).is_none());
    assert!(cache.get_and_update_ttl(&q, t0).is_none());
}

#[test]
fn lru_evicts_earliest_not_read() {
    let mut cache = DnsCache::new(2);
    let now: u64 = 1000;
    cache.store(query("a.com", RecordType::A), vec![a("a.com", "10.0.0.1")], now);
    cache.store(query("b.com", RecordType::A), vec![a("b.com", "10.0.0.2")], now);
    cache.store(query("c.com", RecordType::A), vec![a("c.com", "10.0.0.3")], now);

    // capacity 2 and three distinct inserts: the earliest key is gone
    assert!(cache.get_and_update_ttl(&query("a.com", RecordType::A), now).is_none());
    assert!(cache.get_and_update_ttl(&query("b.com", RecordType::A), now).is_some());
    assert!(cache.get_and_update_ttl(&query("c.com", RecordType::A), now).is_some());
}

#[test]
fn lru_read_refreshes_position() {
    let mut cache = DnsCache::new(2);
    let now: u64 = 1000;
    cache.store(query("a.com", RecordType::A), vec![a("a.com", "10.0.0.1")], now);
    cache.store(query("b.com", RecordType::A), vec![a("b.com", "10.0.0.2")], now);
    // reading a.com makes b.com the least recently used entry
    assert!(cache.get_and_update_ttl(&query("a.com", RecordType::A), now).is_some());
    cache.store(query("c.com", RecordType::A), vec![a("c.com", "10.0.0.3")], now);

    assert!(cache.get_and_update_ttl(&query("a.com", RecordType::A), now).is_some());
    assert!(cache.get_and_update_ttl(&query("b.com", RecordType::A), now).is_none());
}

#[test]
fn store_referral_is_idempotent() {
    let now: u64 = 1000;
    let ns_records = vec![ns("com", "ns0.com"), ns("com", "ns1.com")];
    let glue = vec![a("ns0.com", "10.0.0.1"), a("ns1.com", "10.0.0.2")];

    let mut once = DnsCache::new(10);
    once.store_referral(ns_records.clone(), glue.clone(), &name("example.com"), now);

    let mut twice = DnsCache::new(10);
    twice.store_referral(ns_records.clone(), glue.clone(), &name("example.com"), now);
    twice.store_referral(ns_records.clone(), glue.clone(), &name("example.com"), now);

    for q in [
        query("com", RecordType::Ns),
        query("ns0.com", RecordType::A),
        query("ns1.com", RecordType::A),
    ] {
        assert_eq!(once.get_and_update_ttl(&q, now), twice.get_and_update_ttl(&q, now));
    }
}

#[test]
fn ineligible_referral_leaves_cache_empty() {
    let mut cache = DnsCache::new(10);
    let now: u64 = 1000;
    // NS owner `net` is not an ancestor of `example.com`
    cache.store_referral(vec![ns("net", "dns.foo.bar")], vec![], &name("example.com"), now);

    assert!(cache.get_and_update_ttl(&query("net", RecordType::Ns), now).is_none());
    assert_eq!(
        CacheResponse::Nothing,
        cache.get_best_record(&query("example.com", RecordType::A), now)
    );
}

#[test]
fn names_compare_case_insensitively() {
    assert_eq!(name("Example.COM"), name("example.com"));
    assert_eq!(name("example.com."), name("example.com"));
    assert!(name("com").zone_of(&name("example.COM")));
    assert!(!name("net").zone_of(&name("example.com")));
    assert!(name("example.com").zone_of(&name("example.com")));
    assert!(!name("a.example.com").zone_of(&name("example.com")));
    assert!(name("").zone_of(&name("example.com")));
}

#[test]
fn name_display_joins_labels() {
    assert_eq!("ns.a.b", name("ns.a.b").to_display());
    assert_eq!("", name("").to_display());
    assert_eq!("example.com", name("Example.COM").to_display());
}

#[test]
fn base_name_strips_leftmost_label() {
    assert_eq!(name("b.com"), name("a.b.com").base_name());
    assert_eq!(name(""), name("com").base_name());
    assert_eq!(name(""), name("").base_name());
    assert_eq!(3, name("a.b.com").num_labels());
}
