use vstd::prelude::*;
use rand::seq::SliceRandom;
use crate::name::Name;
use crate::records::{views, IpAddress, RData, RDataV, Record, RecordType, RecordV};
use crate::resolver::ResolutionError;

verus! {

/// The next place to contact: a concrete IP address, or an NS name that
/// must itself be resolved to one first.
#[derive(Debug)]
pub enum Target {
    Ip(IpAddress),
    Name(Name),
}

/// The mathematical value of a `Target`.
#[verifier::ext_equal]
pub enum TargetV {
    Ip(IpAddress),
    Name(Seq<Seq<u8>>),
}

impl View for Target {
    type V = TargetV;

    open spec fn view(&self) -> TargetV {
        match self {
            Target::Ip(ip) => TargetV::Ip(*ip),
            Target::Name(n) => TargetV::Name(n@),
        }
    }
}

/// A source of candidate targets; `Ok(None)` signals exhaustion.
/// Providers are single-use.
pub trait TargetProvider {
    fn next(&mut self) -> Result<Option<Target>, ResolutionError>;
}

/// Relies on rand's `SliceRandom::shuffle` with `thread_rng`: the slice
/// is permuted in place; which permutation comes out is not stated.
#[verifier::external_body]
fn shuffle<T>(v: &mut Vec<T>)
    ensures
        final(v)@.to_multiset() == old(v)@.to_multiset(),
{
    v.as_mut_slice().shuffle(&mut rand::thread_rng());
}

/// Hands out a resolver's root IP addresses, each at most once, in an
/// order shuffled at construction.
pub struct RootsProvider {
    shuffled_pointers: Vec<IpAddress>,
}

impl RootsProvider {
    /// The roots not yet handed out; the next one comes from the end.
    pub closed spec fn remaining(&self) -> Seq<IpAddress> {
        self.shuffled_pointers@
    }

    /// A provider over the given roots, in an order shuffled once, here.
    pub fn new(roots: &Vec<IpAddress>) -> (r: RootsProvider)
        ensures
            r.remaining().to_multiset() == roots@.to_multiset(),
    {
        let mut shuffled_pointers: Vec<IpAddress> = Vec::new();
        let mut i: usize = 0;
        while i < roots.len()
            invariant
                0 <= i <= roots@.len(),
                shuffled_pointers@ =~= roots@.take(i as int),
            decreases roots@.len() - i,
        {
            shuffled_pointers.push(roots[i]);
            i += 1;
        }
        proof {
            assert(roots@.take(roots@.len() as int) =~= roots@);
        }
        shuffle(&mut shuffled_pointers);
        RootsProvider { shuffled_pointers }
    }

    /// The next root, as a concrete IP target.
    pub fn next(&mut self) -> (r: Result<Option<Target>, ResolutionError>)
        ensures
            match r {
                Ok(Some(t)) => old(self).remaining().len() > 0 && t@ == TargetV::Ip(
                    old(self).remaining().last(),
                ) && final(self).remaining() =~= old(self).remaining().drop_last(),
                Ok(None) => old(self).remaining().len() == 0 && final(self).remaining()
                    =~= old(self).remaining(),
                Err(_) => false,
            },
    {
        match self.shuffled_pointers.pop() {
            Some(ip) => Ok(Some(Target::Ip(ip))),
            None => Ok(None),
        }
    }
}

impl TargetProvider for RootsProvider {
    fn next(&mut self) -> Result<Option<Target>, ResolutionError> {
        RootsProvider::next(self)
    }
}

/// The first usable IPv4 glue address for `n`: the first glue record of
/// type A whose owner is `n` and whose data is an IPv4 address.
pub open spec fn find_in_glue_spec(n: Seq<Seq<u8>>, glue: Seq<RecordV>) -> Option<IpAddress>
    decreases glue.len(),
{
    if glue.len() == 0 {
        None
    } else if glue[0].record_type == RecordType::A && glue[0].name == n && (glue[0].rdata matches
    Some(RDataV::A(_))) {
        Some(IpAddress::V4(glue[0].rdata->Some_0->A_0))
    } else {
        find_in_glue_spec(n, glue.drop_first())
    }
}

/// Looks a name up in a glue record list, per `find_in_glue_spec`.
pub fn find_in_glue(name: &Name, glue: &Vec<Record>) -> (r: Option<IpAddress>)
    ensures
        r == find_in_glue_spec(name@, views(glue@)),
{
    let ghost gv = views(glue@);
    proof {
        assert(gv.skip(0) =~= gv);
    }
    let mut i: usize = 0;
    while i < glue.len()
        invariant
            0 <= i <= glue@.len(),
            gv == views(glue@),
            find_in_glue_spec(name@, gv) == find_in_glue_spec(name@, gv.skip(i as int)),
        decreases glue@.len() - i,
    {
        let rec = &glue[i];
        proof {
            assert(gv.skip(i as int)[0] == rec@);
        }
        if rec.record_type == RecordType::A && rec.name == *name {
            if let Some(RData::A(bits)) = &rec.rdata {
                return Some(IpAddress::V4(*bits));
            }
        }
        proof {
            assert(gv.skip(i as int).drop_first() =~= gv.skip(i + 1));
        }
        i += 1;
    }
    proof {
        assert(gv.skip(gv.len() as int).len() == 0);
    }
    None
}

/// The target name of an NS record, when the record is consistent.
pub open spec fn ns_name_of(r: RecordV) -> Option<Seq<Seq<u8>>> {
    if r.record_type == RecordType::Ns && (r.rdata matches Some(RDataV::Ns(_))) {
        Some(r.rdata->Some_0->Ns_0)
    } else {
        None
    }
}

/// The NS target name of a record that is not of type NS is `None`; of an
/// NS record with non-NS or missing data, an error naming the fault.
pub fn get_name_if_ns<'a>(record: &'a Record) -> (r: Option<Result<&'a Name, ResolutionError>>)
    ensures
        match r {
            None => record@.record_type != RecordType::Ns,
            Some(inner) => record@.record_type == RecordType::Ns && match inner {
                Ok(n) => ns_name_of(record@) == Some(n@),
                Err(e) => ns_name_of(record@) is None && (e matches ResolutionError::ServFail(_)),
            },
        },
{
    if record.record_type != RecordType::Ns {
        return None;
    }
    match &record.rdata {
        Some(RData::Ns(n)) => Some(Ok(n)),
        Some(_) => Some(Err(ResolutionError::ServFail(String::from_str("inconsistent rdata type")))),
        None => Some(Err(ResolutionError::ServFail(String::from_str("no rdata")))),
    }
}

/// As `get_name_if_ns`, but a record that is not of type NS is an error
/// too rather than `None`.
pub fn get_ns_name<'a>(record: &'a Record) -> (r: Result<&'a Name, ResolutionError>)
    ensures
        match r {
            Ok(n) => ns_name_of(record@) == Some(n@),
            Err(_) => ns_name_of(record@) is None,
        },
{
    match get_name_if_ns(record) {
        None => Err(ResolutionError::ServFail(String::from_str("Record type not NS"))),
        Some(inner) => inner,
    }
}

/// What one NS record yields as a target: an error for a record that is
/// not a consistent NS record; otherwise the glue address when there is
/// one, else the NS name itself for the caller to resolve.
pub open spec fn target_spec(ns: RecordV, glue: Seq<RecordV>) -> Option<TargetV> {
    match ns_name_of(ns) {
        Some(n) => match find_in_glue_spec(n, glue) {
            Some(ip) => Some(TargetV::Ip(ip)),
            None => Some(TargetV::Name(n)),
        },
        None => None,
    }
}

/// Derives a target from one NS record, per `target_spec`.
pub fn get_target(ns: &Record, glue: &Vec<Record>) -> (r: Result<Target, ResolutionError>)
    ensures
        match r {
            Ok(t) => target_spec(ns@, views(glue@)) == Some(t@),
            Err(e) => target_spec(ns@, views(glue@)) is None && (e matches
            ResolutionError::ServFail(_)),
        },
{
    let name = match get_name_if_ns(ns) {
        None => {
            return Err(
                ResolutionError::ServFail(
                    String::from_str("inconsistent data, NsProvider was fed a non-ns record"),
                ),
            );
        },
        Some(Ok(name)) => name,
        Some(Err(e)) => {
            return Err(e);
        },
    };
    if let Some(ip) = find_in_glue(name, glue) {
        return Ok(Target::Ip(ip));
    }
    Ok(Target::Name(name.clone()))
}

/// Hands out targets for the name servers of a referral, one per NS
/// record, in an order shuffled at construction, resolving each against
/// the referral's glue.
pub struct NsProvider {
    shuffled_nameservers: Vec<Record>,
    glue: Vec<Record>,
}

impl NsProvider {
    /// The NS records not yet handed out; the next one comes from the end.
    pub closed spec fn remaining(&self) -> Seq<RecordV> {
        views(self.shuffled_nameservers@)
    }

    /// The referral's glue records.
    pub closed spec fn glue_view(&self) -> Seq<RecordV> {
        views(self.glue@)
    }

    /// A provider over the NS records of `nameservers` (records of other
    /// types are dropped), in an order shuffled once, here.
    pub fn new(nameservers: Vec<Record>, glue: Vec<Record>) -> (r: NsProvider)
        ensures
            r.remaining().to_multiset() == views(nameservers@).filter(
                |rec: RecordV| rec.record_type == RecordType::Ns,
            ).to_multiset(),
            r.glue_view() == views(glue@),
    {
        let ghost nv = views(nameservers@);
        let mut shuffled_nameservers: Vec<Record> = Vec::new();
        let mut i: usize = 0;
        proof {
            reveal(Seq::filter);
            assert(nv.take(0) =~= Seq::<RecordV>::empty());
            assert(views(shuffled_nameservers@) =~= nv.take(0).filter(
                |rec: RecordV| rec.record_type == RecordType::Ns,
            ));
        }
        while i < nameservers.len()
            invariant
                0 <= i <= nameservers@.len(),
                nv == views(nameservers@),
                views(shuffled_nameservers@) =~= nv.take(i as int).filter(
                    |rec: RecordV| rec.record_type == RecordType::Ns,
                ),
            decreases nameservers@.len() - i,
        {
            let ghost pred = |rec: RecordV| rec.record_type == RecordType::Ns;
            let ghost before = views(shuffled_nameservers@);
            let rec = &nameservers[i];
            if rec.record_type == RecordType::Ns {
                shuffled_nameservers.push(rec.clone());
            }
            proof {
                crate::cache::lemma_filter_push(nv.take(i as int), nv[i as int], pred);
                assert(nv.take(i as int).push(nv[i as int]) =~= nv.take(i + 1));
                if nv[i as int].record_type == RecordType::Ns {
                    assert(views(shuffled_nameservers@) =~= before.push(nv[i as int]));
                } else {
                    assert(views(shuffled_nameservers@) =~= before);
                }
            }
            i += 1;
        }
        proof {
            assert(nv.take(nv.len() as int) =~= nv);
        }
        let ghost pre = shuffled_nameservers@;
        shuffle(&mut shuffled_nameservers);
        proof {
            crate::records::lemma_views_multiset(shuffled_nameservers@, pre);
        }
        NsProvider { shuffled_nameservers, glue }
    }

    /// The next target, derived from the next NS record against the glue.
    pub fn next(&mut self) -> (r: Result<Option<Target>, ResolutionError>)
        ensures
            final(self).glue_view() == old(self).glue_view(),
            match r {
                Ok(None) => old(self).remaining().len() == 0 && final(self).remaining()
                    =~= old(self).remaining(),
                Ok(Some(t)) => old(self).remaining().len() > 0 && final(self).remaining()
                    =~= old(self).remaining().drop_last() && target_spec(
                    old(self).remaining().last(),
                    old(self).glue_view(),
                ) == Some(t@),
                Err(_) => old(self).remaining().len() > 0 && final(self).remaining()
                    =~= old(self).remaining().drop_last() && target_spec(
                    old(self).remaining().last(),
                    old(self).glue_view(),
                ) is None,
            },
    {
        let ghost before = self.remaining();
        match self.shuffled_nameservers.pop() {
            None => Ok(None),
            Some(ns) => {
                proof {
                    assert(ns@ == before.last());
                    assert(views(self.shuffled_nameservers@) =~= before.drop_last());
                }
                match get_target(&ns, &self.glue) {
                    Ok(t) => Ok(Some(t)),
                    Err(e) => Err(e),
                }
            },
        }
    }
}

impl TargetProvider for NsProvider {
    fn next(&mut self) -> Result<Option<Target>, ResolutionError> {
        NsProvider::next(self)
    }
}

} // verus!
