//! The service that sends back what it was sent, and what its clients say.

use vstd::prelude::*;
use vstd::string::StringExecFns;
use vstd::utf8::{decode_utf8, valid_utf8};

use crate::text::{decimal, push_decimal};

verus! {

/// The largest request that is read, in bytes.
pub const MAX_REQUEST_SIZE: usize = 65536;

/// The text that `String::from_utf8_lossy` reads from bytes.
pub uninterp spec fn lossy_text(bytes: Seq<u8>) -> Seq<char>;

/// `String::from_utf8_lossy`. Bytes that are UTF-8 give the text that they
/// stand for. Of other bytes nothing is claimed but that the text depends on
/// them alone.
#[verifier::external_body]
fn from_utf8_lossy(bytes: &[u8]) -> (r: String)
    ensures
        r@ == lossy_text(bytes@),
        valid_utf8(bytes@) ==> r@ == decode_utf8(bytes@),
{
    String::from_utf8_lossy(bytes).into_owned()
}

/// What comes next on a connection.
#[derive(Copy, Clone, Debug, PartialEq, Eq)]
pub enum NextStream {
    /// The client opened a stream, for a new request.
    Opened,
    /// The client closed the connection.
    Closed,
    /// The connection failed.
    Failed,
    /// There are no more streams.
    Ended,
}

/// What the server does about it.
#[derive(Copy, Clone, Debug, PartialEq, Eq)]
pub enum ServerStep {
    /// Serve the request, and wait for the next stream.
    Serve,
    /// Be done with the connection.
    Finish,
    /// Give up on the connection, and report why.
    GiveUp,
}

/// Decides what the server does next on a connection.
pub fn next_step(next: NextStream) -> (r: ServerStep)
    ensures
        r == ServerStep::Serve <==> next == NextStream::Opened,
        r == ServerStep::GiveUp <==> next == NextStream::Failed,
        r == ServerStep::Finish <==> next == NextStream::Closed || next == NextStream::Ended,
{
    match next {
        NextStream::Opened => ServerStep::Serve,
        NextStream::Closed => ServerStep::Finish,
        NextStream::Failed => ServerStep::GiveUp,
        NextStream::Ended => ServerStep::Finish,
    }
}

/// The response to a request with the given text.
pub fn response_with(text: &str) -> (r: String)
    ensures
        r@ == "Received: "@ + text@,
{
    let mut resp = "Received: ".to_string();
    resp.append(text);
    resp
}

/// The response to a request: the request as text, with what is no UTF-8
/// replaced, behind a note that it was received.
pub fn response_to(req: &[u8]) -> (r: String)
    ensures
        r@ == "Received: "@ + lossy_text(req@),
        valid_utf8(req@) ==> r@ == "Received: "@ + decode_utf8(req@),
{
    let text = from_utf8_lossy(req);
    response_with(text.as_str())
}

/// What the client with the given number says.
pub fn client_message(i: u8) -> (r: String)
    ensures
        r@ == "This is client "@ + decimal(i),
{
    let mut msg = "This is client ".to_string();
    push_decimal(&mut msg, i);
    msg
}

/// Every stream that a client opens is served; a connection that was closed or
/// has come to its end is done with, and one that failed is given up.
pub proof fn law_every_stream_is_served(next: NextStream, r: ServerStep)
    requires
        call_ensures(next_step, (next,), r),
    ensures
        next is Opened ==> r is Serve,
        next is Closed || next is Ended ==> r is Finish,
        next is Failed ==> r is GiveUp,
{
}

/// A response ends with all of the text that was sent, and has the same in front
/// of it whatever that is.
pub proof fn law_response_echoes_the_text(a: &str, b: &str, ra: String, rb: String)
    requires
        call_ensures(response_with, (a,), ra),
        call_ensures(response_with, (b,), rb),
    ensures
        ra@.len() == 10 + a@.len(),
        ra@.skip(10) == a@,
        ra@.take(10) == rb@.take(10),
        ra@.take(10) == "Received: "@,
{
    reveal_strlit("Received: ");
    assert(ra@.skip(10) =~= a@);
    assert(ra@.take(10) =~= "Received: "@);
    assert(rb@.take(10) =~= "Received: "@);
}

/// A request that is UTF-8 is echoed as the text that it stands for, whatever it
/// is.
pub proof fn law_request_is_echoed(req: &[u8], r: String)
    requires
        call_ensures(response_to, (req,), r),
    ensures
        r@.len() == 10 + lossy_text(req@).len(),
        r@.skip(10) == lossy_text(req@),
        valid_utf8(req@) ==> r@.skip(10) == decode_utf8(req@),
        r@.take(10) == "Received: "@,
{
    reveal_strlit("Received: ");
    assert(r@.skip(10) =~= lossy_text(req@));
    if valid_utf8(req@) {
        assert(r@.skip(10) =~= decode_utf8(req@));
    }
    assert(r@.take(10) =~= "Received: "@);
}

/// Each client says its own number.
pub proof fn law_clients_say_their_number(i: u8, r: String)
    requires
        call_ensures(client_message, (i,), r),
    ensures
        r@.take(15) == "This is client "@,
        r@.skip(15) == decimal(i),
{
    reveal_strlit("This is client ");
    assert(r@.take(15) =~= "This is client "@);
    assert(r@.skip(15) =~= decimal(i));
}

} // verus!
