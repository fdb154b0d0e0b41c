use vstd::prelude::*;
use crate::cache::{best_spec, CacheResponseV};
use crate::records::{views, Message, QueryV, Record, ResponseCode};
use crate::resolver::{Backend, RecursiveResolver, ResolutionError};

verus! {

/// Builds the daemon's response from a resolution outcome: the request
/// id is echoed; answers fill the answer section on success; `NxDomain`
/// maps to the `NXDomain` response code and any other error to
/// `ServFail`.
pub fn make_response(id: u16, result: Result<Vec<Record>, ResolutionError>) -> (m: Message)
    ensures
        m@.id == id,
        match result {
            Ok(records) => m@.response_code == ResponseCode::NoError && m@.answers =~= views(
                records@,
            ),
            Err(ResolutionError::NxDomain) => m@.response_code == ResponseCode::NxDomain
                && m@.answers.len() == 0,
            Err(_) => m@.response_code == ResponseCode::ServFail && m@.answers.len() == 0,
        },
        m@.queries.len() == 0,
        m@.name_servers.len() == 0,
        m@.additionals.len() == 0,
{
    let mut response = Message::new();
    response.id = id;
    match result {
        Ok(records) => {
            response.answers = records;
        },
        Err(ResolutionError::NxDomain) => {
            response.response_code = ResponseCode::NxDomain;
        },
        Err(_) => {
            response.response_code = ResponseCode::ServFail;
        },
    }
    response
}

/// Handles one decoded client message: echoes its id; a message without
/// a question gets `FormErr`; otherwise the first question is resolved
/// and the outcome rendered per `make_response`.
pub fn resolve<B: Backend>(message: Message, resolver: &mut RecursiveResolver<B>, now: u64) -> (r:
    Message)
    requires
        old(resolver).wf(),
        now <= u64::MAX - (u32::MAX as u64),
    ensures
        final(resolver).wf(),
        final(resolver).roots_view() == old(resolver).roots_view(),
        final(resolver).backend_view() == old(resolver).backend_view(),
        r@.id == message@.id,
        message@.queries.len() == 0 ==> r@.response_code == ResponseCode::FormErr && r@.answers.len()
            == 0,
        message@.queries.len() > 0 ==> (r@.response_code == ResponseCode::NoError
            || r@.response_code == ResponseCode::NxDomain || r@.response_code
            == ResponseCode::ServFail),
        message@.queries.len() > 0 ==> (best_spec(
            old(resolver).cache_view(),
            message@.queries[0],
            now,
        ) matches CacheResponseV::Authoritative(rs) ==> r@.response_code == ResponseCode::NoError
            && r@.answers == rs),
{
    if message.queries.len() == 0 {
        let mut response = Message::new();
        response.id = message.id;
        response.response_code = ResponseCode::FormErr;
        return response;
    }
    let question = &message.queries[0];
    proof {
        assert(question@ =~= message@.queries[0]);
        assert((QueryV { to_resolve: question.to_resolve@, record_type: question.record_type })
            =~= message@.queries[0]);
    }
    let result = resolver.resolve(&question.to_resolve, question.record_type, now);
    make_response(message.id, result)
}

} // verus!
