//! A peer that passes on what it is sent to the one who makes the decisions.

use vstd::prelude::*;
use vstd::string::StringExecFns;

use crate::addr::SocketAddr;
use crate::text::escaped_text;
use crate::types::{Message, PeerId};

pub use crate::text::escaped;

verus! {

/// The largest request that is read, in bytes.
pub const MAX_REQUEST_SIZE: usize = 65536;

/// What becomes of a request.
#[derive(Debug)]
pub struct Request {
    /// What the log says about it.
    pub log: String,
    /// Who sent it, and the message that is passed on.
    pub message: (SocketAddr, Message),
    /// What is sent back.
    pub response: [u8; 5],
}

/// Handles the bytes that came on a stream from the given address. Whatever
/// they are, a ping is passed on.
pub fn read_message(remote_address: SocketAddr, id: PeerId, req: &[u8]) -> (r: Request)
    ensures
        r.log@ == "got request: \""@ + escaped_text(req@) + "\""@,
        r.message == (remote_address, Message::Ping { id }),
        r.response@ == seq![66u8, 97, 114, 33, 33],
{
    let msg = escaped(req);
    let mut log = "got request: \"".to_string();
    log.append(msg.as_str());
    log.append("\"");
    let message = (remote_address, Message::Ping { id });
    Request { log, message, response: [66, 97, 114, 33, 33] }
}

/// What is said to a peer when a connection to it is made.
pub fn greeting() -> (r: [u8; 4])
    ensures
        r@ == seq![70u8, 111, 111, 33],
{
    [70, 111, 111, 33]
}

/// A request is passed on as a ping from whoever sent it, whatever it is; its
/// escaped bytes stand in the log between quotes, and the response is always the
/// same.
pub proof fn law_request_is_passed_on(from: SocketAddr, id: PeerId, req: &[u8], r: Request)
    requires
        call_ensures(read_message, (from, id, req), r),
    ensures
        r.message.0 == from,
        r.message.1 == (Message::Ping { id }),
        r.log@.len() == 14 + escaped_text(req@).len() + 1,
        r.log@.take(14) == "got request: \""@,
        r.log@.subrange(14, r.log@.len() - 1) == escaped_text(req@),
        r.log@.last() == '"',
        r.response@ == seq![66u8, 97, 114, 33, 33],
{
    reveal_strlit("got request: \"");
    reveal_strlit("\"");
    assert(r.log@.take(14) =~= "got request: \""@);
    assert(r.log@.subrange(14, r.log@.len() - 1) =~= escaped_text(req@));
}

} // verus!
