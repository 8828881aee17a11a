//! Byte streams between peers, and a pair of them that is joined in memory.

use std::sync::mpsc::{Receiver, Sender};
use vstd::prelude::*;

verus! {

#[verifier::external_type_specification]
#[verifier::external_body]
#[verifier::reject_recursive_types(T)]
pub struct ExSender<T>(Sender<T>);

#[verifier::external_type_specification]
#[verifier::external_body]
#[verifier::reject_recursive_types(T)]
pub struct ExReceiver<T>(Receiver<T>);

/// The bytes that the channel of a sender carries, by position: the first byte
/// that is sent has position zero, whenever it is sent.
pub uninterp spec fn sender_bytes(tx: Sender<u8>) -> Map<int, u8>;

/// How many bytes a sender has sent.
pub uninterp spec fn sender_count(tx: Sender<u8>) -> nat;

/// What a sender has handed to its channel so far, byte by byte, and whether
/// the channel took it.
pub uninterp spec fn sender_tries(tx: Sender<u8>) -> Seq<(u8, bool)>;

/// The bytes that the channel of a receiver carries, by position.
pub uninterp spec fn receiver_bytes(rx: Receiver<u8>) -> Map<int, u8>;

/// How many bytes a receiver has received.
pub uninterp spec fn receiver_count(rx: Receiver<u8>) -> nat;

/// What a receiver has found so far, look by look.
pub uninterp spec fn receiver_looks(rx: Receiver<u8>) -> Seq<Received>;

/// Which channel a sender belongs to.
pub uninterp spec fn sender_channel(tx: Sender<u8>) -> int;

/// Which channel a receiver belongs to.
pub uninterp spec fn receiver_channel(rx: Receiver<u8>) -> int;

/// Runs `std::sync::mpsc::channel`, which makes the two ends of a new channel.
/// Nothing has been sent or received on it.
#[verifier::external_body]
fn channel() -> (r: (Sender<u8>, Receiver<u8>))
    ensures
        sender_channel(r.0) == receiver_channel(r.1),
        sender_bytes(r.0) == receiver_bytes(r.1),
        sender_count(r.0) == 0,
        sender_tries(r.0) == Seq::<(u8, bool)>::empty(),
        receiver_count(r.1) == 0,
        receiver_looks(r.1) == Seq::<Received>::empty(),
{
    std::sync::mpsc::channel()
}

/// Runs `Sender::send`, which says whether the channel took the byte. One that
/// it took is the next that the channel carries; here every sender is the only
/// one of its channel. It takes the byte if the receiver still exists. That is
/// certain when the receiver is at hand, in `beside`, and left open otherwise;
/// the byte and the answer go on record.
#[verifier::external_body]
fn send(tx: &mut Sender<u8>, b: u8, beside: Option<&Receiver<u8>>) -> (r: bool)
    ensures
        beside matches Some(rx) ==> receiver_channel(*rx) == sender_channel(*old(tx)) ==> r,
        sender_channel(*final(tx)) == sender_channel(*old(tx)),
        sender_bytes(*final(tx)) == sender_bytes(*old(tx)),
        r ==> sender_bytes(*old(tx))[sender_count(*old(tx)) as int] == b,
        sender_count(*final(tx)) == sender_count(*old(tx)) + (if r {
            1nat
        } else {
            0nat
        }),
        sender_tries(*final(tx)) == sender_tries(*old(tx)).push((b, r)),
{
    tx.send(b).is_ok()
}

/// What a receiver finds when it looks.
#[derive(Copy, Clone, Debug, PartialEq, Eq, Structural)]
pub enum Received {
    /// The next byte.
    Byte(u8),
    /// Nothing has arrived yet.
    Empty,
    /// Nothing more will ever arrive.
    Disconnected,
}

/// Runs `Receiver::try_recv`, which takes the next byte in the order in which
/// they were sent, or says that there is none yet or never will be. Which of
/// these it is depends on what the other end has done. When the sender is at
/// hand, in `beside`, there is a byte exactly if the sender has sent more than
/// was received, and never less than that; otherwise it is left open. It goes on
/// record as what this look has found.
#[verifier::external_body]
fn try_recv(rx: &mut Receiver<u8>, beside: Option<&Sender<u8>>) -> (r: Received)
    ensures
        beside matches Some(tx) ==> sender_channel(*tx) == receiver_channel(*old(rx)) ==> {
            &&& receiver_count(*old(rx)) <= sender_count(*tx)
            &&& r is Byte <==> receiver_count(*old(rx)) < sender_count(*tx)
            &&& !(r is Disconnected)
        },
        receiver_channel(*final(rx)) == receiver_channel(*old(rx)),
        receiver_bytes(*final(rx)) == receiver_bytes(*old(rx)),
        r matches Received::Byte(b) ==> receiver_bytes(*old(rx))[receiver_count(*old(rx)) as int]
            == b,
        receiver_count(*final(rx)) == receiver_count(*old(rx)) + (if r is Byte {
            1nat
        } else {
            0nat
        }),
        receiver_looks(*final(rx)) == receiver_looks(*old(rx)).push(r),
{
    match rx.try_recv() {
        Ok(b) => Received::Byte(b),
        Err(std::sync::mpsc::TryRecvError::Empty) => Received::Empty,
        Err(std::sync::mpsc::TryRecvError::Disconnected) => Received::Disconnected,
    }
}

/// Why a stream could not do what was asked.
#[derive(Copy, Clone, Debug, PartialEq, Eq, Structural)]
pub enum StreamError {
    /// The other end is gone.
    NotConnected,
    /// The stream has come to its end.
    Finished,
}

/// What a poll says: done, or not yet.
#[derive(Debug, PartialEq, Eq, Structural)]
pub enum Async<T> {
    Ready(T),
    NotReady,
}

/// Whether `buf` stands in `bytes` from position `start` on.
pub open spec fn stands_at(bytes: Map<int, u8>, start: nat, buf: Seq<u8>) -> bool {
    forall|i: int| 0 <= i < buf.len() ==> bytes[start + i] == #[trigger] buf[i]
}

/// One direction of a stream: the bytes that go over it, by position, whenever
/// they do, and how many of them have gone by.
pub struct Wire {
    pub bytes: Map<int, u8>,
    pub count: nat,
}

/// What sending has done: `n` more bytes are out, and they are the first of
/// `buf`.
pub open spec fn has_sent(before: Wire, after: Wire, buf: Seq<u8>, n: int) -> bool {
    &&& 0 <= n <= buf.len()
    &&& after.bytes == before.bytes
    &&& after.count == before.count + n
    &&& stands_at(before.bytes, before.count, buf.take(n))
}

/// What receiving has done: `n` more bytes are in, and they are at the start of
/// the buffer, which is otherwise as it was.
pub open spec fn has_received(
    before: Wire,
    after: Wire,
    buf_before: Seq<u8>,
    buf_after: Seq<u8>,
    n: int,
) -> bool {
    &&& after.bytes == before.bytes
    &&& after.count == before.count + n
    &&& filled_by(before.bytes, before.count, buf_before, buf_after, n)
}

/// What sending has done when it broke off: only a part of `buf` is out.
pub open spec fn has_sent_part(before: Wire, after: Wire, buf: Seq<u8>) -> bool {
    &&& after.count < before.count + buf.len()
    &&& has_sent(before, after, buf, after.count - before.count)
}

/// What receiving has done when it broke off: the buffer is not full.
pub open spec fn has_received_part(
    before: Wire,
    after: Wire,
    buf_before: Seq<u8>,
    buf_after: Seq<u8>,
) -> bool {
    &&& after.count < before.count + buf_before.len()
    &&& has_received(before, after, buf_before, buf_after, after.count - before.count)
}

/// What goes on record when the channel takes bytes one after the other.
pub open spec fn taken(bytes: Seq<u8>) -> Seq<(u8, bool)> {
    bytes.map_values(|b: u8| (b, true))
}

/// What trying has done when all of `buf` went out: each byte was handed over,
/// in order, and taken.
pub open spec fn has_handed_all(
    before: Seq<(u8, bool)>,
    after: Seq<(u8, bool)>,
    buf: Seq<u8>,
) -> bool {
    after == before + taken(buf)
}

/// What trying has done when it broke off after `n` bytes of `buf`: they were
/// handed over, in order, and taken, and the next one was refused.
pub open spec fn has_handed_part(
    before: Seq<(u8, bool)>,
    after: Seq<(u8, bool)>,
    buf: Seq<u8>,
    n: int,
) -> bool {
    &&& 0 <= n < buf.len()
    &&& after == before + taken(buf.take(n)) + seq![(buf[n], false)]
}

/// The bytes that went out, going by the record of the sender.
pub open spec fn sent_bytes(tries: Seq<(u8, bool)>) -> Seq<u8>
    decreases tries.len(),
{
    if tries.len() == 0 {
        seq![]
    } else if tries.last().1 {
        sent_bytes(tries.drop_last()).push(tries.last().0)
    } else {
        sent_bytes(tries.drop_last())
    }
}

/// The bytes that came in, going by the record of the receiver.
pub open spec fn received_bytes(looks: Seq<Received>) -> Seq<u8>
    decreases looks.len(),
{
    if looks.len() == 0 {
        seq![]
    } else {
        match looks.last() {
            Received::Byte(b) => received_bytes(looks.drop_last()).push(b),
            _ => received_bytes(looks.drop_last()),
        }
    }
}

/// Whether just the given bytes have gone by on a wire.
pub open spec fn has_carried(wire: Wire, bytes: Seq<u8>) -> bool {
    &&& wire.count == bytes.len()
    &&& stands_at(wire.bytes, 0, bytes)
}

/// What a receiver finds when bytes arrive one after the other.
pub open spec fn arrived(bytes: Seq<u8>) -> Seq<Received> {
    bytes.map_values(|b: u8| Received::Byte(b))
}

/// What looking has done: the first `n` bytes of `buf` were found, in order,
/// then what is in `end`, and nothing else.
pub open spec fn has_found(
    before: Seq<Received>,
    after: Seq<Received>,
    buf: Seq<u8>,
    n: int,
    end: Seq<Received>,
) -> bool {
    &&& 0 <= n <= buf.len()
    &&& after == before + arrived(buf.take(n)) + end
}

/// What looking has done when `n` bytes were read into `buf`: it stopped short
/// only where nothing more had arrived.
pub open spec fn has_found_all(
    before: Seq<Received>,
    after: Seq<Received>,
    buf: Seq<u8>,
    n: int,
) -> bool {
    has_found(
        before,
        after,
        buf,
        n,
        if n < buf.len() {
            seq![Received::Empty]
        } else {
            seq![]
        },
    )
}

/// How many bytes a buffer with the given room takes of what is out and not in
/// yet: all that fit.
pub open spec fn takes(room: nat, out: Wire, inc: Wire) -> int {
    if out.count <= inc.count {
        0
    } else if out.count - inc.count < room {
        out.count - inc.count
    } else {
        room as int
    }
}

/// A stream that bytes can be sent on.
pub trait SendStream: Sized {
    /// What goes out on the stream.
    spec fn outgoing(&self) -> Wire;

    /// Sends bytes of `buf`, from its start on, and says how many.
    fn write(&mut self, buf: &[u8]) -> (r: Result<usize, StreamError>)
        ensures
            r matches Ok(n) ==> has_sent(
                old(self).outgoing(),
                final(self).outgoing(),
                buf@,
                n as int,
            ),
    ;

    /// Waits until what was sent has gone out.
    fn flush(&mut self) -> (r: Result<(), StreamError>)
        ensures
            has_sent(old(self).outgoing(), final(self).outgoing(), seq![], 0),
    ;

    /// Sends bytes like `write`, if that needs no waiting.
    fn poll_write(&mut self, buf: &[u8]) -> (r: Result<Async<usize>, StreamError>)
        ensures
            r matches Ok(Async::Ready(n)) ==> has_sent(
                old(self).outgoing(),
                final(self).outgoing(),
                buf@,
                n as int,
            ),
            r matches Ok(Async::NotReady) ==> has_sent(
                old(self).outgoing(),
                final(self).outgoing(),
                buf@,
                0,
            ),
    ;

    /// Finds out whether what was sent has gone out.
    fn poll_flush(&mut self) -> (r: Result<Async<()>, StreamError>)
        ensures
            has_sent(old(self).outgoing(), final(self).outgoing(), seq![], 0),
    ;

    /// Ends sending, after what was sent.
    fn poll_finish(&mut self) -> (r: Result<Async<()>, StreamError>)
        ensures
            has_sent(old(self).outgoing(), final(self).outgoing(), seq![], 0),
    ;

    /// Ends the stream.
    fn shutdown(&mut self) -> (r: Result<Async<()>, StreamError>)
        ensures
            has_sent(old(self).outgoing(), final(self).outgoing(), seq![], 0),
    ;

    /// Gives up sending.
    fn reset(&mut self, error_code: u16)
        ensures
            has_sent(old(self).outgoing(), final(self).outgoing(), seq![], 0),
    ;
}

/// A stream that bytes can be sent and received on.
pub trait Stream: SendStream {
    /// What comes in on the stream.
    spec fn incoming(&self) -> Wire;

    /// Fills `buf` from its start with bytes that have arrived, and says how
    /// many there were.
    fn read(&mut self, buf: &mut [u8]) -> (r: Result<usize, StreamError>)
        ensures
            r matches Ok(n) ==> has_received(
                old(self).incoming(),
                final(self).incoming(),
                old(buf)@,
                final(buf)@,
                n as int,
            ),
    ;

    /// Reads like `read`, if that needs no waiting.
    fn poll_read(&mut self, buf: &mut [u8]) -> (r: Result<Async<usize>, StreamError>)
        ensures
            r matches Ok(Async::Ready(n)) ==> has_received(
                old(self).incoming(),
                final(self).incoming(),
                old(buf)@,
                final(buf)@,
                n as int,
            ),
            r matches Ok(Async::NotReady) ==> has_received(
                old(self).incoming(),
                final(self).incoming(),
                old(buf)@,
                final(buf)@,
                0,
            ),
    ;

    /// Takes bytes in whatever order they come, with their offset.
    fn poll_read_unordered(&mut self) -> (r: Result<Async<(Vec<u8>, u64)>, StreamError>)
        ensures
            final(self).incoming().bytes == old(self).incoming().bytes,
            final(self).incoming().count >= old(self).incoming().count,
    ;

    /// Gives up receiving.
    fn stop(&mut self, error_code: u16)
        ensures
            has_received(old(self).incoming(), final(self).incoming(), seq![], seq![], 0),
    ;
}

/// Whether `after` is `before` with its first `n` bytes replaced by the bytes
/// from position `start` on.
pub open spec fn filled_by(
    bytes: Map<int, u8>,
    start: nat,
    before: Seq<u8>,
    after: Seq<u8>,
    n: int,
) -> bool {
    &&& 0 <= n <= before.len()
    &&& after.len() == before.len()
    &&& forall|i: int| 0 <= i < n ==> #[trigger] after[i] == bytes[start + i]
    &&& forall|i: int| n <= i < after.len() ==> #[trigger] after[i] == before[i]
}

/// How reading goes on after one look at the receiver.
#[derive(Copy, Clone, Debug, PartialEq, Eq, Structural)]
pub enum ReadStep {
    /// Look again.
    More,
    /// Stop, with this many bytes in the buffer.
    Stop(usize),
    /// The other end is gone.
    Fail,
}

/// Puts what was received at place `i` of the buffer, and says how reading goes
/// on.
pub fn read_step(buf: &mut [u8], i: usize, got: Received) -> (r: ReadStep)
    requires
        i < old(buf)@.len(),
    ensures
        match got {
            Received::Byte(b) => r == ReadStep::More && final(buf)@ == old(buf)@.update(
                i as int,
                b,
            ),
            Received::Empty => r == ReadStep::Stop(i) && final(buf)@ == old(buf)@,
            Received::Disconnected => r == ReadStep::Fail && final(buf)@ == old(buf)@,
        },
{
    match got {
        Received::Byte(b) => {
            buf[i] = b;
            ReadStep::More
        },
        Received::Empty => ReadStep::Stop(i),
        Received::Disconnected => ReadStep::Fail,
    }
}

/// One end of a pair of streams that is joined in memory.
pub struct TestStream {
    send_stream: Sender<u8>,
    recv_stream: Receiver<u8>,
}

impl TestStream {
    /// What this end has handed to the other so far.
    pub closed spec fn tries(&self) -> Seq<(u8, bool)> {
        sender_tries(self.send_stream)
    }

    /// Whether the bytes that have gone by are those on record. That is so from
    /// the start, and every operation keeps it so.
    pub open spec fn in_step(&self) -> bool {
        &&& has_carried(self.outgoing(), sent_bytes(self.tries()))
        &&& has_carried(self.incoming(), received_bytes(self.looks()))
    }

    /// What this end has found so far when it looked for bytes.
    pub closed spec fn looks(&self) -> Seq<Received> {
        receiver_looks(self.recv_stream)
    }

    /// The channels that this end sends and receives on.
    pub closed spec fn channels(&self) -> (int, int) {
        (sender_channel(self.send_stream), receiver_channel(self.recv_stream))
    }

    /// Whether what this end sends is what the other receives.
    pub open spec fn feeds(&self, other: &TestStream) -> bool {
        &&& self.channels().0 == other.channels().1
        &&& self.outgoing().bytes == other.incoming().bytes
    }

    /// Makes two streams, each of which receives what the other sends.
    pub fn new_pair() -> (r: (Self, Self))
        ensures
            r.0.outgoing() == r.1.incoming(),
            r.1.outgoing() == r.0.incoming(),
            r.0.feeds(&r.1),
            r.1.feeds(&r.0),
            r.0.outgoing().count == 0,
            r.1.outgoing().count == 0,
            r.0.looks() == Seq::<Received>::empty(),
            r.1.looks() == Seq::<Received>::empty(),
            r.0.tries() == Seq::<(u8, bool)>::empty(),
            r.1.tries() == Seq::<(u8, bool)>::empty(),
            r.0.in_step(),
            r.1.in_step(),
    {
        let (s1, r1) = channel();
        let (s2, r2) = channel();
        let stream1 = TestStream { send_stream: s1, recv_stream: r2 };
        let stream2 = TestStream { send_stream: s2, recv_stream: r1 };
        (stream1, stream2)
    }

    /// Sends all of `buf`. With the other end at hand that succeeds.
    fn send_all(&mut self, buf: &[u8], beside: Option<&TestStream>) -> (r: Result<
        usize,
        StreamError,
    >)
        ensures
            beside matches Some(other) ==> old(self).feeds(other) ==> r is Ok,
            r matches Ok(n) ==> has_sent(
                old(self).outgoing(),
                final(self).outgoing(),
                buf@,
                n as int,
            ),
            final(self).incoming() == old(self).incoming(),
            final(self).looks() == old(self).looks(),
            final(self).channels() == old(self).channels(),
            old(self).in_step() ==> final(self).in_step(),
            match r {
                Ok(n) => {
                    &&& n == buf@.len()
                    &&& has_handed_all(old(self).tries(), final(self).tries(), buf@)
                },
                Err(e) => {
                    &&& e == StreamError::NotConnected
                    &&& has_sent_part(old(self).outgoing(), final(self).outgoing(), buf@)
                    &&& has_handed_part(
                        old(self).tries(),
                        final(self).tries(),
                        buf@,
                        final(self).outgoing().count - old(self).outgoing().count,
                    )
                },
            },
    {
        let receiver = match beside {
            Some(other) => Some(&other.recv_stream),
            None => None,
        };
        let mut i: usize = 0;
        assert(self.tries() =~= self.tries() + taken(buf@.take(0)));
        while i < buf.len()
            invariant
                beside matches Some(other) ==> receiver == Some(&other.recv_stream),
                i <= buf@.len(),
                self.recv_stream == old(self).recv_stream,
                has_sent(old(self).outgoing(), self.outgoing(), buf@, i as int),
                has_handed_all(old(self).tries(), self.tries(), buf@.take(i as int)),
                old(self).in_step() ==> self.in_step(),
                self.channels() == old(self).channels(),
            decreases buf@.len() - i,
        {
            let ghost before = *self;
            let ghost b = buf@[i as int];
            let took = send(&mut self.send_stream, buf[i], receiver);
            assert(self.tries().drop_last() =~= before.tries());
            if !took {
                assert(self.tries() =~= before.tries() + seq![(b, false)]);
                return Err(StreamError::NotConnected);
            }
            i += 1;
            assert(buf@.take(i as int) =~= buf@.take(i - 1).push(b));
            assert(taken(buf@.take(i as int)) =~= taken(buf@.take(i - 1)).push((b, true)));
            assert(self.tries() =~= old(self).tries() + taken(buf@.take(i as int)));
        }
        assert(buf@.take(i as int) =~= buf@);
        Ok(buf.len())
    }

    /// Takes what has arrived, until `buf` is full or nothing more is there. With
    /// the other end at hand, that is what it has sent and was not read yet.
    fn take_all(&mut self, buf: &mut [u8], beside: Option<&TestStream>) -> (r: Result<
        usize,
        StreamError,
    >)
        ensures
            beside matches Some(other) ==> other.feeds(old(self)) ==> {
                &&& r matches Ok(n)
                &&& n == takes(old(buf)@.len(), other.outgoing(), old(self).incoming())
                &&& old(buf)@.len() > 0 ==> final(self).incoming().count <= other.outgoing().count
            },
            r matches Ok(n) ==> has_received(
                old(self).incoming(),
                final(self).incoming(),
                old(buf)@,
                final(buf)@,
                n as int,
            ),
            final(self).outgoing() == old(self).outgoing(),
            final(self).tries() == old(self).tries(),
            final(self).channels() == old(self).channels(),
            old(self).in_step() ==> final(self).in_step(),
            match r {
                Ok(n) => has_found_all(
                    old(self).looks(),
                    final(self).looks(),
                    final(buf)@,
                    n as int,
                ),
                Err(e) => {
                    &&& e == StreamError::NotConnected
                    &&& has_received_part(
                        old(self).incoming(),
                        final(self).incoming(),
                        old(buf)@,
                        final(buf)@,
                    )
                    &&& has_found(
                        old(self).looks(),
                        final(self).looks(),
                        final(buf)@,
                        final(self).incoming().count - old(self).incoming().count,
                        seq![Received::Disconnected],
                    )
                },
            },
            old(buf)@.len() == 0 ==> r == Ok::<usize, StreamError>(0),
    {
        let sender = match beside {
            Some(other) => Some(&other.send_stream),
            None => None,
        };
        let mut i: usize = 0;
        assert(self.looks() =~= self.looks() + arrived(buf@.take(0)) + seq![]);
        while i < buf.len()
            invariant
                beside matches Some(other) ==> sender == Some(&other.send_stream),
                i <= buf@.len(),
                buf@.len() == old(buf)@.len(),
                self.send_stream == old(self).send_stream,
                has_received(old(self).incoming(), self.incoming(), old(buf)@, buf@, i as int),
                has_found(old(self).looks(), self.looks(), buf@, i as int, seq![]),
                old(self).in_step() ==> self.in_step(),
                self.channels() == old(self).channels(),
                sender matches Some(tx) ==> sender_channel(*tx) == old(self).channels().1 ==> i > 0
                    ==> self.incoming().count <= sender_count(*tx),
            decreases buf@.len() - i,
        {
            let ghost before = self.looks();
            let ghost bytes = buf@.take(i as int);
            let got = try_recv(&mut self.recv_stream, sender);
            assert(self.looks() =~= before + seq![got]);
            assert(self.looks().drop_last() =~= before);
            assert(before =~= old(self).looks() + arrived(bytes));
            match read_step(buf, i, got) {
                ReadStep::More => {
                    assert(arrived(buf@.take(i + 1)) =~= arrived(bytes) + seq![got]);
                    assert(self.looks() =~= old(self).looks() + arrived(buf@.take(i + 1))
                        + seq![]);
                },
                ReadStep::Stop(n) => {
                    return Ok(n);
                },
                ReadStep::Fail => {
                    return Err(StreamError::NotConnected);
                },
            }
            i += 1;
        }
        Ok(buf.len())
    }

    /// Sends all of `buf`, while the other end is at hand.
    pub fn write_beside(&mut self, other: &TestStream, buf: &[u8]) -> (r: usize)
        requires
            old(self).feeds(other),
        ensures
            r == buf@.len(),
            has_sent(old(self).outgoing(), final(self).outgoing(), buf@, r as int),
            has_handed_all(old(self).tries(), final(self).tries(), buf@),
            final(self).incoming() == old(self).incoming(),
            final(self).looks() == old(self).looks(),
            final(self).feeds(other),
            old(self).in_step() ==> final(self).in_step(),
            other.feeds(old(self)) ==> other.feeds(final(self)),
    {
        match self.send_all(buf, Some(other)) {
            Ok(n) => n,
            Err(_) => 0,
        }
    }

    /// Takes what the other end, which is at hand, has sent and was not read yet,
    /// until `buf` is full.
    pub fn read_beside(&mut self, other: &TestStream, buf: &mut [u8]) -> (r: usize)
        requires
            other.feeds(old(self)),
        ensures
            r == takes(old(buf)@.len(), other.outgoing(), old(self).incoming()),
            old(buf)@.len() > 0 ==> final(self).incoming().count <= other.outgoing().count,
            has_received(
                old(self).incoming(),
                final(self).incoming(),
                old(buf)@,
                final(buf)@,
                r as int,
            ),
            has_found_all(old(self).looks(), final(self).looks(), final(buf)@, r as int),
            final(self).outgoing() == old(self).outgoing(),
            final(self).tries() == old(self).tries(),
            other.feeds(final(self)),
            old(self).in_step() ==> final(self).in_step(),
            old(self).feeds(other) ==> final(self).feeds(other),
    {
        match self.take_all(buf, Some(other)) {
            Ok(n) => n,
            Err(_) => 0,
        }
    }
}

impl SendStream for TestStream {
    closed spec fn outgoing(&self) -> Wire {
        Wire { bytes: sender_bytes(self.send_stream), count: sender_count(self.send_stream) }
    }

    /// Sends all of `buf`. That succeeds exactly when the other end takes every
    /// byte; the first one that it refuses, because it is gone, is the last that
    /// is tried. The bytes that went out before stand at the start of `buf`.
    fn write(&mut self, buf: &[u8]) -> (r: Result<usize, StreamError>)
        ensures
            final(self).incoming() == old(self).incoming(),
            final(self).looks() == old(self).looks(),
            final(self).channels() == old(self).channels(),
            old(self).in_step() ==> final(self).in_step(),
            match r {
                Ok(n) => {
                    &&& n == buf@.len()
                    &&& has_handed_all(old(self).tries(), final(self).tries(), buf@)
                },
                Err(e) => {
                    &&& e == StreamError::NotConnected
                    &&& has_sent_part(old(self).outgoing(), final(self).outgoing(), buf@)
                    &&& has_handed_part(
                        old(self).tries(),
                        final(self).tries(),
                        buf@,
                        final(self).outgoing().count - old(self).outgoing().count,
                    )
                },
            },
    {
        self.send_all(buf, None)
    }

    /// There is nothing to wait for.
    fn flush(&mut self) -> (r: Result<(), StreamError>)
        ensures
            *final(self) == *old(self),
            r == Ok::<(), StreamError>(()),
    {
        Ok(())
    }

    /// Sends all of `buf`, as `write` does.
    fn poll_write(&mut self, buf: &[u8]) -> (r: Result<Async<usize>, StreamError>)
        ensures
            final(self).incoming() == old(self).incoming(),
            final(self).looks() == old(self).looks(),
            final(self).channels() == old(self).channels(),
            old(self).in_step() ==> final(self).in_step(),
            match r {
                Ok(polled) => {
                    &&& polled == Async::Ready(buf.len())
                    &&& has_handed_all(old(self).tries(), final(self).tries(), buf@)
                },
                Err(e) => {
                    &&& e == StreamError::NotConnected
                    &&& has_sent_part(old(self).outgoing(), final(self).outgoing(), buf@)
                    &&& has_handed_part(
                        old(self).tries(),
                        final(self).tries(),
                        buf@,
                        final(self).outgoing().count - old(self).outgoing().count,
                    )
                },
            },
    {
        match self.write(buf) {
            Ok(n) => Ok(Async::Ready(n)),
            Err(e) => Err(e),
        }
    }

    /// There is nothing to wait for.
    fn poll_flush(&mut self) -> (r: Result<Async<()>, StreamError>)
        ensures
            *final(self) == *old(self),
            r == Ok::<Async<()>, StreamError>(Async::Ready(())),
    {
        Ok(Async::Ready(()))
    }

    /// There is nothing to do.
    fn poll_finish(&mut self) -> (r: Result<Async<()>, StreamError>)
        ensures
            *final(self) == *old(self),
            r == Ok::<Async<()>, StreamError>(Async::Ready(())),
    {
        Ok(Async::Ready(()))
    }

    /// There is nothing to do.
    fn shutdown(&mut self) -> (r: Result<Async<()>, StreamError>)
        ensures
            *final(self) == *old(self),
            r == Ok::<Async<()>, StreamError>(Async::Ready(())),
    {
        Ok(Async::Ready(()))
    }

    /// There is nothing to do.
    fn reset(&mut self, error_code: u16)
        ensures
            *final(self) == *old(self),
    {
    }
}

impl Stream for TestStream {
    closed spec fn incoming(&self) -> Wire {
        Wire { bytes: receiver_bytes(self.recv_stream), count: receiver_count(self.recv_stream) }
    }

    /// Takes what has arrived, until `buf` is full or nothing more is there. That
    /// fails only when the other end is found to be gone before `buf` is full;
    /// the bytes that came in before are in `buf`.
    fn read(&mut self, buf: &mut [u8]) -> (r: Result<usize, StreamError>)
        ensures
            final(self).outgoing() == old(self).outgoing(),
            final(self).tries() == old(self).tries(),
            final(self).channels() == old(self).channels(),
            old(self).in_step() ==> final(self).in_step(),
            match r {
                Ok(n) => has_found_all(
                    old(self).looks(),
                    final(self).looks(),
                    final(buf)@,
                    n as int,
                ),
                Err(e) => {
                    &&& e == StreamError::NotConnected
                    &&& has_received_part(
                        old(self).incoming(),
                        final(self).incoming(),
                        old(buf)@,
                        final(buf)@,
                    )
                    &&& has_found(
                        old(self).looks(),
                        final(self).looks(),
                        final(buf)@,
                        final(self).incoming().count - old(self).incoming().count,
                        seq![Received::Disconnected],
                    )
                },
            },
            old(buf)@.len() == 0 ==> r == Ok::<usize, StreamError>(0),
    {
        self.take_all(buf, None)
    }

    /// Reads as `read` does; the end of the stream is the only error.
    fn poll_read(&mut self, buf: &mut [u8]) -> (r: Result<Async<usize>, StreamError>)
        ensures
            final(self).outgoing() == old(self).outgoing(),
            final(self).tries() == old(self).tries(),
            final(self).channels() == old(self).channels(),
            old(self).in_step() ==> final(self).in_step(),
            match r {
                Ok(Async::Ready(n)) => has_found_all(
                    old(self).looks(),
                    final(self).looks(),
                    final(buf)@,
                    n as int,
                ),
                Ok(Async::NotReady) => false,
                Err(e) => {
                    &&& e == StreamError::Finished
                    &&& has_received_part(
                        old(self).incoming(),
                        final(self).incoming(),
                        old(buf)@,
                        final(buf)@,
                    )
                    &&& has_found(
                        old(self).looks(),
                        final(self).looks(),
                        final(buf)@,
                        final(self).incoming().count - old(self).incoming().count,
                        seq![Received::Disconnected],
                    )
                },
            },
            old(buf)@.len() == 0 ==> r == Ok::<Async<usize>, StreamError>(Async::Ready(0)),
    {
        match self.read(buf) {
            Ok(n) => Ok(Async::Ready(n)),
            Err(_) => Err(StreamError::Finished),
        }
    }

    /// Reads into no room at all: nothing, at offset zero.
    fn poll_read_unordered(&mut self) -> (r: Result<Async<(Vec<u8>, u64)>, StreamError>)
        ensures
            *final(self) == *old(self),
            r matches Ok(Async::Ready(p)) && p.0@.len() == 0 && p.1 == 0,
    {
        Ok(Async::Ready((Vec::new(), 0)))
    }

    /// There is nothing to do.
    fn stop(&mut self, error_code: u16)
        ensures
            *final(self) == *old(self),
    {
    }
}

/// What comes out of a stream is what was put in at the other end, in order: if
/// the ends are joined and a read stays inside what one write has sent, then it
/// gets those bytes of the write that it has reached.
pub proof fn law_read_is_what_was_written(
    out_before: Wire,
    out_after: Wire,
    written: Seq<u8>,
    in_before: Wire,
    in_after: Wire,
    before: Seq<u8>,
    after: Seq<u8>,
    n: int,
)
    requires
        out_before.bytes == in_before.bytes,
        has_sent(out_before, out_after, written, written.len() as int),
        has_received(in_before, in_after, before, after, n),
        out_before.count <= in_before.count,
        in_after.count <= out_after.count,
    ensures
        after.take(n) == written.subrange(
            in_before.count - out_before.count,
            in_before.count - out_before.count + n,
        ),
{
    let k = in_before.count - out_before.count;
    assert(written.take(written.len() as int) =~= written);
    assert forall|i: int| 0 <= i < n implies after.take(n)[i] == written.subrange(k, k + n)[i] by {
        assert(after[i] == in_before.bytes[in_before.count + i]);
        assert(written[k + i] == out_before.bytes[out_before.count + (k + i)]);
    }
    assert(after.take(n) =~= written.subrange(k, k + n));
}

/// A read gives back what was written: when all that was sent before has been
/// read, it gets the bytes of the next write, all of them if there is room.
pub proof fn law_read_gives_back_a_write(
    out_before: Wire,
    out_after: Wire,
    written: Seq<u8>,
    in_before: Wire,
    in_after: Wire,
    before: Seq<u8>,
    after: Seq<u8>,
)
    requires
        out_before == in_before,
        has_sent(out_before, out_after, written, written.len() as int),
        has_received(
            in_before,
            in_after,
            before,
            after,
            takes(before.len(), out_after, in_before),
        ),
    ensures
        written.len() <= before.len() ==> after.take(written.len() as int) == written,
        before.len() < written.len() ==> after == written.take(before.len() as int),
{
    let n = takes(before.len(), out_after, in_before);
    law_read_is_what_was_written(
        out_before,
        out_after,
        written,
        in_before,
        in_after,
        before,
        after,
        n,
    );
    if written.len() <= before.len() {
        assert(written.subrange(0, n) =~= written);
    } else {
        assert(after.take(n) =~= after);
        assert(written.subrange(0, n) =~= written.take(n));
    }
}

/// A pair of ends carries bytes in order, whatever was written and read, and
/// however often: byte for byte, what one end has read is what the other has
/// written.
pub proof fn law_pair_carries_in_order(
    out: Wire,
    tries: Seq<(u8, bool)>,
    inc: Wire,
    looks: Seq<Received>,
    i: int,
)
    requires
        out.bytes == inc.bytes,
        has_carried(out, sent_bytes(tries)),
        has_carried(inc, received_bytes(looks)),
        0 <= i < sent_bytes(tries).len(),
        i < received_bytes(looks).len(),
    ensures
        received_bytes(looks)[i] == sent_bytes(tries)[i],
{
    assert(out.bytes[0 + i] == sent_bytes(tries)[i]);
    assert(inc.bytes[0 + i] == received_bytes(looks)[i]);
}

/// What sending does, byte by byte: the bytes of `buf` from its start on follow
/// what went before, and nothing else goes out.
pub proof fn law_bytes_go_out_in_order(before: Wire, after: Wire, buf: Seq<u8>, n: int, i: int)
    requires
        has_sent(before, after, buf, n),
    ensures
        0 <= n <= buf.len(),
        after.bytes == before.bytes,
        after.count == before.count + n,
        0 <= i < n ==> after.bytes[before.count + i] == buf[i],
{
    if 0 <= i < n {
        assert(before.bytes[before.count + i] == buf.take(n)[i]);
    }
}

/// What sending does when it breaks off: fewer bytes than `buf` has are out, and
/// they are those at its start.
pub proof fn law_bytes_go_out_in_order_in_part(before: Wire, after: Wire, buf: Seq<u8>, i: int)
    requires
        has_sent_part(before, after, buf),
    ensures
        before.count <= after.count < before.count + buf.len(),
        after.bytes == before.bytes,
        0 <= i < after.count - before.count ==> after.bytes[before.count + i] == buf[i],
{
    law_bytes_go_out_in_order(before, after, buf, after.count - before.count, i);
}

/// What receiving does, byte by byte: the bytes that follow what came before
/// fill the buffer from its start on, and the rest of it stays.
pub proof fn law_bytes_come_in_in_order(
    before: Wire,
    after: Wire,
    buf_before: Seq<u8>,
    buf_after: Seq<u8>,
    n: int,
    i: int,
)
    requires
        has_received(before, after, buf_before, buf_after, n),
    ensures
        0 <= n <= buf_before.len(),
        buf_after.len() == buf_before.len(),
        after.bytes == before.bytes,
        after.count == before.count + n,
        0 <= i < n ==> buf_after[i] == before.bytes[before.count + i],
        n <= i < buf_after.len() ==> buf_after[i] == buf_before[i],
{
}

/// What receiving does when it breaks off: the buffer is not full, and holds the
/// bytes that came in before.
pub proof fn law_bytes_come_in_in_order_in_part(
    before: Wire,
    after: Wire,
    buf_before: Seq<u8>,
    buf_after: Seq<u8>,
    i: int,
)
    requires
        has_received_part(before, after, buf_before, buf_after),
    ensures
        before.count <= after.count < before.count + buf_before.len(),
        buf_after.len() == buf_before.len(),
        after.bytes == before.bytes,
        0 <= i < after.count - before.count ==> buf_after[i] == before.bytes[before.count + i],
        after.count - before.count <= i < buf_after.len() ==> buf_after[i] == buf_before[i],
{
}

/// A write that succeeds has handed over every byte of `buf`, in order and once,
/// and each was taken.
pub proof fn law_every_byte_is_handed_over(
    before: Seq<(u8, bool)>,
    after: Seq<(u8, bool)>,
    buf: Seq<u8>,
    i: int,
)
    requires
        has_handed_all(before, after, buf),
    ensures
        after.len() == before.len() + buf.len(),
        0 <= i < before.len() ==> after[i] == before[i],
        0 <= i < buf.len() ==> after[before.len() + i] == (buf[i], true),
{
}

/// A write that fails has handed over the bytes of `buf` up to one that was
/// refused, in order and once, and no more.
pub proof fn law_a_refusal_is_the_last_try(
    before: Seq<(u8, bool)>,
    after: Seq<(u8, bool)>,
    buf: Seq<u8>,
    n: int,
    i: int,
)
    requires
        has_handed_part(before, after, buf, n),
    ensures
        0 <= n < buf.len(),
        after.len() == before.len() + n + 1,
        0 <= i < before.len() ==> after[i] == before[i],
        0 <= i < n ==> after[before.len() + i] == (buf[i], true),
        after[before.len() + n] == (buf[n], false),
{
}

/// A read that succeeds has looked once for each byte that it got, and found it;
/// only if there is room left has it looked once more, and found nothing.
pub proof fn law_a_read_takes_all_there_is(
    before: Seq<Received>,
    after: Seq<Received>,
    buf: Seq<u8>,
    n: int,
    i: int,
)
    requires
        has_found_all(before, after, buf, n),
    ensures
        0 <= n <= buf.len(),
        n < buf.len() ==> after.len() == before.len() + n + 1 && after[before.len() + n]
            == Received::Empty,
        n == buf.len() ==> after.len() == before.len() + n,
        0 <= i < before.len() ==> after[i] == before[i],
        0 <= i < n ==> after[before.len() + i] == Received::Byte(buf[i]),
{
}

/// A read that fails has found the bytes that it got, then that the other end is
/// gone, and has not looked again.
pub proof fn law_a_read_fails_at_the_end(
    before: Seq<Received>,
    after: Seq<Received>,
    buf: Seq<u8>,
    n: int,
    i: int,
)
    requires
        has_found(before, after, buf, n, seq![Received::Disconnected]),
    ensures
        0 <= n <= buf.len(),
        after.len() == before.len() + n + 1,
        0 <= i < before.len() ==> after[i] == before[i],
        0 <= i < n ==> after[before.len() + i] == Received::Byte(buf[i]),
        after[before.len() + n] == Received::Disconnected,
{
}

/// The records grow by one: a byte counts as sent exactly if it was taken, and
/// as received exactly if it was found.
pub proof fn law_records_one_by_one(
    tries: Seq<(u8, bool)>,
    looks: Seq<Received>,
    b: u8,
)
    ensures
        sent_bytes(Seq::<(u8, bool)>::empty()).len() == 0,
        sent_bytes(tries.push((b, true))) == sent_bytes(tries).push(b),
        sent_bytes(tries.push((b, false))) == sent_bytes(tries),
        received_bytes(Seq::<Received>::empty()).len() == 0,
        received_bytes(looks.push(Received::Byte(b))) == received_bytes(looks).push(b),
        received_bytes(looks.push(Received::Empty)) == received_bytes(looks),
        received_bytes(looks.push(Received::Disconnected)) == received_bytes(looks),
{
    assert(tries.push((b, true)).drop_last() =~= tries);
    assert(tries.push((b, false)).drop_last() =~= tries);
    assert(looks.push(Received::Byte(b)).drop_last() =~= looks);
    assert(looks.push(Received::Empty).drop_last() =~= looks);
    assert(looks.push(Received::Disconnected).drop_last() =~= looks);
}

/// With both ends at hand a read takes what is out and not in yet, as far as
/// there is room, and no more.
pub proof fn law_a_read_takes_what_fits(room: nat, out: Wire, inc: Wire)
    requires
        inc.count <= out.count,
    ensures
        takes(room, out, inc) <= room,
        takes(room, out, inc) <= out.count - inc.count,
        takes(room, out, inc) == room || takes(room, out, inc) == out.count - inc.count,
{
}

/// A write, told by what goes in and comes out: it hands over the bytes of `buf`
/// in order, one at a time, until one is refused or all are taken; it succeeds
/// exactly in the second case.
pub proof fn law_write_hands_over_every_byte(
    stream: &mut TestStream,
    buf: &[u8],
    r: Result<usize, StreamError>,
    i: int,
)
    requires
        call_ensures(<TestStream as SendStream>::write, (stream, buf), r),
    ensures
        r matches Ok(n) ==> {
            &&& n == buf@.len()
            &&& final(stream).tries().len() == old(stream).tries().len() + buf@.len()
            &&& 0 <= i < buf@.len() ==> final(stream).tries()[old(stream).tries().len() + i] == (
                buf@[i],
                true,
            )
        },
        r matches Err(e) ==> {
            let n = final(stream).tries().len() - old(stream).tries().len() - 1;
            &&& e == StreamError::NotConnected
            &&& 0 <= n < buf@.len()
            &&& 0 <= i < n ==> final(stream).tries()[old(stream).tries().len() + i] == (
                buf@[i],
                true,
            )
            &&& final(stream).tries()[old(stream).tries().len() + n] == (buf@[n], false)
        },
        0 <= i < old(stream).tries().len() ==> final(stream).tries()[i]
            == old(stream).tries()[i],
        final(stream).incoming() == old(stream).incoming(),
{
}

/// A read, told by what goes in and comes out: it looks until the buffer is full,
/// or nothing more is there, or the other end is gone, and puts what it finds in
/// the buffer, in order.
pub proof fn law_read_takes_all_there_is(
    stream: &mut TestStream,
    buf: &mut [u8],
    r: Result<usize, StreamError>,
    i: int,
)
    requires
        call_ensures(<TestStream as Stream>::read, (stream, buf), r),
    ensures
        final(buf)@.len() == old(buf)@.len(),
        r matches Ok(n) ==> {
            let found = final(stream).looks().skip(old(stream).looks().len() as int);
            &&& n <= old(buf)@.len()
            &&& n < old(buf)@.len() ==> found.len() == n + 1 && found[n as int] == Received::Empty
            &&& n == old(buf)@.len() ==> found.len() == n
            &&& 0 <= i < n ==> found[i] == Received::Byte(final(buf)@[i])
            &&& n <= i < old(buf)@.len() ==> final(buf)@[i] == old(buf)@[i]
        },
        r matches Err(e) ==> {
            let found = final(stream).looks().skip(old(stream).looks().len() as int);
            &&& e == StreamError::NotConnected
            &&& 0 < found.len() <= old(buf)@.len()
            &&& found.last() == Received::Disconnected
            &&& 0 <= i < found.len() - 1 ==> found[i] == Received::Byte(final(buf)@[i])
        },
        final(stream).outgoing() == old(stream).outgoing(),
{
}

/// A polled write does what a write does, and is never left waiting.
pub proof fn law_polled_write_hands_over_every_byte(
    stream: &mut TestStream,
    buf: &[u8],
    r: Result<Async<usize>, StreamError>,
    i: int,
)
    requires
        call_ensures(<TestStream as SendStream>::poll_write, (stream, buf), r),
    ensures
        r matches Ok(polled) ==> {
            &&& polled == Async::Ready(buf@.len() as usize)
            &&& final(stream).tries().len() == old(stream).tries().len() + buf@.len()
            &&& 0 <= i < buf@.len() ==> final(stream).tries()[old(stream).tries().len() + i] == (
                buf@[i],
                true,
            )
        },
        r matches Err(e) ==> {
            let n = final(stream).tries().len() - old(stream).tries().len() - 1;
            &&& e == StreamError::NotConnected
            &&& 0 <= n < buf@.len()
            &&& 0 <= i < n ==> final(stream).tries()[old(stream).tries().len() + i] == (
                buf@[i],
                true,
            )
            &&& final(stream).tries()[old(stream).tries().len() + n] == (buf@[n], false)
        },
        final(stream).incoming() == old(stream).incoming(),
{
}

/// A polled read does what a read does, and is never left waiting; the end of the
/// stream is its only error.
pub proof fn law_polled_read_takes_all_there_is(
    stream: &mut TestStream,
    buf: &mut [u8],
    r: Result<Async<usize>, StreamError>,
    i: int,
)
    requires
        call_ensures(<TestStream as Stream>::poll_read, (stream, buf), r),
    ensures
        !(r matches Ok(Async::NotReady)),
        r matches Ok(Async::Ready(n)) ==> {
            let found = final(stream).looks().skip(old(stream).looks().len() as int);
            &&& n <= old(buf)@.len()
            &&& n < old(buf)@.len() ==> found.len() == n + 1 && found[n as int] == Received::Empty
            &&& n == old(buf)@.len() ==> found.len() == n
            &&& 0 <= i < n ==> found[i] == Received::Byte(final(buf)@[i])
            &&& n <= i < old(buf)@.len() ==> final(buf)@[i] == old(buf)@[i]
        },
        r matches Err(e) ==> {
            let found = final(stream).looks().skip(old(stream).looks().len() as int);
            &&& e == StreamError::Finished
            &&& 0 < found.len() <= old(buf)@.len()
            &&& found.last() == Received::Disconnected
            &&& 0 <= i < found.len() - 1 ==> found[i] == Received::Byte(final(buf)@[i])
        },
        final(stream).outgoing() == old(stream).outgoing(),
{
}

} // verus!
