use vstd::prelude::*;
use crate::name::Name;

verus! {

/// The DNS record types this resolver works with.
#[derive(Clone, Copy, PartialEq, Eq, Structural, Debug, Hash)]
pub enum RecordType {
    A,
    Aaaa,
    Ns,
    Other(u16),
}

/// The response codes this resolver works with.
#[derive(Clone, Copy, PartialEq, Eq, Structural, Debug, Hash)]
pub enum ResponseCode {
    NoError,
    FormErr,
    ServFail,
    NxDomain,
    Other(u16),
}

/// An IP address, as plain bits: 32 for IPv4, 128 for IPv6.
#[derive(Clone, Copy, PartialEq, Eq, Structural, Debug, Hash)]
pub enum IpAddress {
    V4(u32),
    V6(u128),
}

/// Record data: an IPv4 address, an IPv6 address, or the target name of an
/// NS record.
#[derive(PartialEq, Eq, Debug)]
pub enum RData {
    A(u32),
    Aaaa(u128),
    Ns(Name),
}

/// The mathematical value of an `RData`.
#[verifier::ext_equal]
pub enum RDataV {
    A(u32),
    Aaaa(u128),
    Ns(Seq<Seq<u8>>),
}

/// A DNS resource record: owner name, type, time to live in seconds, and
/// data.  A record may carry no data at all, as a decoded wire record can.
#[derive(PartialEq, Eq, Debug)]
pub struct Record {
    pub name: Name,
    pub record_type: RecordType,
    pub ttl: u32,
    pub rdata: Option<RData>,
}

/// The mathematical value of a `Record`.
#[verifier::ext_equal]
pub struct RecordV {
    pub name: Seq<Seq<u8>>,
    pub record_type: RecordType,
    pub ttl: u32,
    pub rdata: Option<RDataV>,
}

impl View for RData {
    type V = RDataV;

    open spec fn view(&self) -> RDataV {
        match self {
            RData::A(bits) => RDataV::A(*bits),
            RData::Aaaa(bits) => RDataV::Aaaa(*bits),
            RData::Ns(n) => RDataV::Ns(n@),
        }
    }
}

impl View for Record {
    type V = RecordV;

    open spec fn view(&self) -> RecordV {
        RecordV {
            name: self.name@,
            record_type: self.record_type,
            ttl: self.ttl,
            rdata: match self.rdata {
                Some(d) => Some(d@),
                None => None,
            },
        }
    }
}

/// The views of a sequence's elements, in order.
pub open spec fn views<T: View>(s: Seq<T>) -> Seq<T::V> {
    Seq::new(s.len(), |i: int| s[i]@)
}

/// Two lists equal as multisets have views equal as multisets.
pub proof fn lemma_views_multiset<T: View>(a: Seq<T>, b: Seq<T>)
    requires
        a.to_multiset() == b.to_multiset(),
    ensures
        views(a).to_multiset() == views(b).to_multiset(),
    decreases a.len(),
{
    broadcast use vstd::seq_lib::group_to_multiset_ensures;

    if a.len() == 0 {
        assert(a.len() == a.to_multiset().len());
        assert(b.len() == b.to_multiset().len());
        assert(b.len() == 0);
        assert(views(a) =~= Seq::<T::V>::empty());
        assert(views(b) =~= Seq::<T::V>::empty());
        assert(views(a).to_multiset() =~= views(b).to_multiset());
    } else {
        let x = a.last();
        let a0 = a.drop_last();
        assert(a =~= a0.push(x));
        assert(a.to_multiset() =~= a0.to_multiset().insert(x));
        assert(b.to_multiset().count(x) > 0);
        assert(b.contains(x));
        let i = choose|i: int| 0 <= i < b.len() && b[i] == x;
        let b0 = b.remove(i);
        assert(b0.to_multiset() =~= b.to_multiset().remove(x));
        assert(a0.to_multiset() =~= a.to_multiset().remove(x));
        lemma_views_multiset(a0, b0);
        assert(views(a) =~= views(a0).push(x@));
        assert(views(a).to_multiset() =~= views(a0).to_multiset().insert(x@));
        assert(views(b0) =~= views(b).remove(i));
        assert(views(b).remove(i).to_multiset() =~= views(b).to_multiset().remove(views(b)[i]));
        assert(views(b)[i] == x@);
        assert(views(b).to_multiset().count(x@) > 0) by {
            assert(views(b).contains(views(b)[i]));
        }
        assert(views(b).to_multiset() =~= views(b).to_multiset().remove(x@).insert(x@));
        assert(views(b).to_multiset() =~= views(b0).to_multiset().insert(x@));
    }
}

impl Clone for RData {
    fn clone(&self) -> (r: Self)
        ensures
            r@ == self@,
    {
        match self {
            RData::A(bits) => RData::A(*bits),
            RData::Aaaa(bits) => RData::Aaaa(*bits),
            RData::Ns(n) => RData::Ns(n.clone()),
        }
    }
}

impl Clone for Record {
    fn clone(&self) -> (r: Self)
        ensures
            r@ == self@,
    {
        Record {
            name: self.name.clone(),
            record_type: self.record_type,
            ttl: self.ttl,
            rdata: match &self.rdata {
                Some(d) => Some(d.clone()),
                None => None,
            },
        }
    }
}

/// A copy of a record list, with the same views.
pub fn clone_records(rs: &Vec<Record>) -> (r: Vec<Record>)
    ensures
        views(r@) =~= views(rs@),
{
    let mut out: Vec<Record> = Vec::new();
    let mut i: usize = 0;
    while i < rs.len()
        invariant
            0 <= i <= rs@.len(),
            out@.len() == i,
            forall|j: int| 0 <= j < i ==> (#[trigger] out@[j]@) == rs@[j]@,
        decreases rs@.len() - i,
    {
        out.push(rs[i].clone());
        i += 1;
    }
    out
}

/// The minimum ttl over a record list; 0 when the list is empty.
pub open spec fn min_ttl_spec(rs: Seq<RecordV>) -> u32
    decreases rs.len(),
{
    if rs.len() == 0 {
        0u32
    } else {
        let rest = min_ttl_spec(rs.drop_first());
        if rs.len() == 1 || rs.first().ttl <= rest {
            rs.first().ttl
        } else {
            rest
        }
    }
}

/// Computes the minimum ttl over a record list, 0 when it is empty.
pub fn min_ttl(rs: &Vec<Record>) -> (r: u32)
    ensures
        r == min_ttl_spec(views(rs@)),
{
    proof {
        lemma_min_ttl_bound(views(rs@));
    }
    if rs.len() == 0 {
        return 0;
    }
    let mut best: u32 = rs[0].ttl;
    let mut i: usize = 1;
    while i < rs.len()
        invariant
            1 <= i <= rs@.len(),
            min_ttl_spec(views(rs@).take(i as int)) == best,
        decreases rs@.len() - i,
    {
        proof {
            lemma_min_ttl_snoc(views(rs@).take(i as int), rs@[i as int]@);
            assert(views(rs@).take(i + 1) =~= views(rs@).take(i as int).push(rs@[i as int]@));
        }
        if rs[i].ttl < best {
            best = rs[i].ttl;
        }
        i += 1;
    }
    proof {
        assert(views(rs@).take(rs@.len() as int) =~= views(rs@));
    }
    best
}

/// The minimum ttl is the ttl of some record, when the list is nonempty.
pub proof fn lemma_min_ttl_bound(rs: Seq<RecordV>)
    ensures
        forall|i: int| 0 <= i < rs.len() ==> min_ttl_spec(rs) <= (#[trigger] rs[i]).ttl,
        rs.len() > 0 ==> exists|i: int| 0 <= i < rs.len() && (#[trigger] rs[i]).ttl == min_ttl_spec(
            rs,
        ),
    decreases rs.len(),
{
    if rs.len() > 0 {
        lemma_min_ttl_bound(rs.drop_first());
        assert forall|i: int| 0 <= i < rs.len() implies min_ttl_spec(rs) <= (
        #[trigger] rs[i]).ttl by {
            if i > 0 {
                assert(rs.drop_first()[i - 1] == rs[i]);
            }
        }
        if rs.len() == 1 || rs.first().ttl <= min_ttl_spec(rs.drop_first()) {
            assert(rs[0].ttl == min_ttl_spec(rs));
        } else {
            let j = choose|j: int|
                0 <= j < rs.drop_first().len() && (#[trigger] rs.drop_first()[j]).ttl
                    == min_ttl_spec(rs.drop_first());
            assert(rs[j + 1].ttl == min_ttl_spec(rs));
        }
    }
}

/// Extending a record list can only keep or lower the minimum ttl, and the
/// new minimum is the smaller of the old one and the new record's ttl.
pub proof fn lemma_min_ttl_snoc(rs: Seq<RecordV>, r: RecordV)
    ensures
        min_ttl_spec(rs.push(r)) == if rs.len() == 0 {
            r.ttl
        } else if min_ttl_spec(rs) <= r.ttl {
            min_ttl_spec(rs)
        } else {
            r.ttl
        },
    decreases rs.len(),
{
    if rs.len() == 0 {
        assert(rs.push(r).len() == 1);
        assert(rs.push(r).first() == r);
    } else {
        lemma_min_ttl_snoc(rs.drop_first(), r);
        assert(rs.push(r).drop_first() =~= rs.drop_first().push(r));
        assert(rs.push(r).first() == rs.first());
    }
}

/// A decoded DNS message: header flags, response code, the question
/// section, and the three record sections.
#[derive(PartialEq, Eq, Debug)]
pub struct Message {
    pub id: u16,
    pub authoritative: bool,
    pub recursion_desired: bool,
    pub authentic_data: bool,
    pub response_code: ResponseCode,
    pub queries: Vec<Query>,
    pub answers: Vec<Record>,
    pub name_servers: Vec<Record>,
    pub additionals: Vec<Record>,
}

/// The mathematical value of a `Message`.
#[verifier::ext_equal]
pub struct MessageV {
    pub id: u16,
    pub authoritative: bool,
    pub recursion_desired: bool,
    pub authentic_data: bool,
    pub response_code: ResponseCode,
    pub queries: Seq<QueryV>,
    pub answers: Seq<RecordV>,
    pub name_servers: Seq<RecordV>,
    pub additionals: Seq<RecordV>,
}

impl View for Message {
    type V = MessageV;

    open spec fn view(&self) -> MessageV {
        MessageV {
            id: self.id,
            authoritative: self.authoritative,
            recursion_desired: self.recursion_desired,
            authentic_data: self.authentic_data,
            response_code: self.response_code,
            queries: views(self.queries@),
            answers: views(self.answers@),
            name_servers: views(self.name_servers@),
            additionals: views(self.additionals@),
        }
    }
}

impl Message {
    /// An empty message: no flags set, `NoError`, no records.
    pub fn new() -> (r: Message)
        ensures
            r@ =~= (MessageV {
                id: 0,
                authoritative: false,
                recursion_desired: false,
                authentic_data: false,
                response_code: ResponseCode::NoError,
                queries: Seq::empty(),
                answers: Seq::empty(),
                name_servers: Seq::empty(),
                additionals: Seq::empty(),
            }),
    {
        Message {
            id: 0,
            authoritative: false,
            recursion_desired: false,
            authentic_data: false,
            response_code: ResponseCode::NoError,
            queries: Vec::new(),
            answers: Vec::new(),
            name_servers: Vec::new(),
            additionals: Vec::new(),
        }
    }
}

/// A copy of a query list, with the same views.
pub fn clone_queries(qs: &Vec<Query>) -> (r: Vec<Query>)
    ensures
        views(r@) =~= views(qs@),
{
    let mut out: Vec<Query> = Vec::new();
    let mut i: usize = 0;
    while i < qs.len()
        invariant
            0 <= i <= qs@.len(),
            out@.len() == i,
            forall|j: int| 0 <= j < i ==> (#[trigger] out@[j]@) == qs@[j]@,
        decreases qs@.len() - i,
    {
        out.push(qs[i].clone());
        i += 1;
    }
    out
}

impl Clone for Message {
    fn clone(&self) -> (r: Self)
        ensures
            r@ == self@,
    {
        let r = Message {
            id: self.id,
            authoritative: self.authoritative,
            recursion_desired: self.recursion_desired,
            authentic_data: self.authentic_data,
            response_code: self.response_code,
            queries: clone_queries(&self.queries),
            answers: clone_records(&self.answers),
            name_servers: clone_records(&self.name_servers),
            additionals: clone_records(&self.additionals),
        };
        proof {
            assert(r@ =~= self@);
        }
        r
    }
}

/// The key a cached answer is stored under, and the question a resolution
/// asks: a name and a record type.  Name comparison is case-insensitive
/// because `Name` normalizes on construction.
#[derive(Eq, Debug, Hash)]
pub struct Query {
    pub to_resolve: Name,
    pub record_type: RecordType,
}

/// The mathematical value of a `Query`.
#[verifier::ext_equal]
pub struct QueryV {
    pub to_resolve: Seq<Seq<u8>>,
    pub record_type: RecordType,
}

impl View for Query {
    type V = QueryV;

    open spec fn view(&self) -> QueryV {
        QueryV { to_resolve: self.to_resolve@, record_type: self.record_type }
    }
}

impl Clone for Query {
    fn clone(&self) -> (r: Self)
        ensures
            r@ == self@,
    {
        Query { to_resolve: self.to_resolve.clone(), record_type: self.record_type }
    }
}

impl PartialEq for Query {
    fn eq(&self, other: &Query) -> (r: bool) {
        let same = self.to_resolve == other.to_resolve && self.record_type == other.record_type;
        proof {
            if same {
                assert(self@ =~= other@);
            }
        }
        same
    }
}

impl vstd::std_specs::cmp::PartialEqSpecImpl for Query {
    open spec fn obeys_eq_spec() -> bool {
        true
    }

    open spec fn eq_spec(&self, other: &Query) -> bool {
        self@ == other@
    }
}

} // verus!
