use vstd::prelude::*;
use crate::name::Name;
use crate::records::{Message, Query, QueryV, RecordType, ResponseCode};

verus! {

/// Max size for the UDP receive buffer as recommended by RFC 6891.
pub const MAX_RECEIVE_BUFFER_SIZE: usize = 4096;

/// The port upstream servers are contacted on by default.
const DEFAULT_TARGET_PORT: u16 = 53;

/// The configuration of the UDP backend: the upstream port.  The socket
/// work itself is I/O and lives in the program around the library, which
/// implements `Backend` with it.
pub struct UdpBackend {
    pub target_port: u16,
}

impl UdpBackend {
    /// A UDP backend configuration for the standard DNS port.
    pub fn new() -> (r: UdpBackend)
        ensures
            r.target_port == 53,
    {
        UdpBackend { target_port: DEFAULT_TARGET_PORT }
    }
}

/// Relies on `rand::random::<u16>` for a message id; nothing is promised
/// of its value.
#[verifier::external_body]
fn random_id() -> u16 {
    rand::random()
}

/// Builds the query message one backend exchange sends: a single
/// question for the name and type, recursion desired, authentic data,
/// and a random message id.
pub fn make_query(name: &Name, record_type: RecordType) -> (m: Message)
    ensures
        m@.recursion_desired,
        m@.authentic_data,
        !m@.authoritative,
        m@.response_code == ResponseCode::NoError,
        m@.queries =~= seq![QueryV { to_resolve: name@, record_type }],
        m@.answers.len() == 0,
        m@.name_servers.len() == 0,
        m@.additionals.len() == 0,
{
    let mut message = Message::new();
    message.id = random_id();
    message.recursion_desired = true;
    message.authentic_data = true;
    message.queries.push(Query { to_resolve: name.clone(), record_type });
    message
}

} // verus!
