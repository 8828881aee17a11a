//! Many workers together: who takes part, when, and who gets which message.

use vstd::prelude::*;

use crate::addr::SocketAddr;
use crate::closest::lemma_filter_subset;
use crate::hash::{blake2s_digest, BLAKE2_HASH_SIZE};
use crate::rng::{
    bytes_highest_first, bytes_lowest_first, draws, rand64_start, state_after, Rand64,
};
use crate::types::{Message, PeerId};

verus! {

/// A simulated network of workers of type `W`.
pub struct WorkerSim<W> {
    /// The workers that take part, by address.
    workers: Vec<(SocketAddr, W)>,
    /// The address that new workers turn to first.
    bootstrap: Option<SocketAddr>,
    /// Workers that are to be added, each with the nanoseconds after the start
    /// at which it is.
    worker_add_queue: Vec<(SocketAddr, W, u128)>,
    /// Where the identities of new workers come from.
    rng: Rand64,
}

/// Whether no address is listed twice.
pub open spec fn one_worker_each<W>(workers: Seq<(SocketAddr, W)>) -> bool {
    forall|i: int, j: int|
        0 <= i < j < workers.len() ==> #[trigger] workers[i].0 != #[trigger] workers[j].0
}

/// Whether there is a worker at an address.
pub open spec fn has_worker<W>(workers: Seq<(SocketAddr, W)>, addr: SocketAddr) -> bool {
    exists|i: int| 0 <= i < workers.len() && #[trigger] workers[i].0 == addr
}

/// Where the worker at an address is listed.
pub open spec fn worker_place<W>(workers: Seq<(SocketAddr, W)>, addr: SocketAddr) -> int {
    choose|i: int| 0 <= i < workers.len() && #[trigger] workers[i].0 == addr
}

/// The workers with one put at an address, in the place of one that was there.
pub open spec fn with_worker<W>(
    workers: Seq<(SocketAddr, W)>,
    addr: SocketAddr,
    worker: W,
) -> Seq<(SocketAddr, W)> {
    if has_worker(workers, addr) {
        workers.update(worker_place(workers, addr), (addr, worker))
    } else {
        workers.push((addr, worker))
    }
}

/// Whether later entries of a queue are due no later.
pub open spec fn latest_first<W>(queue: Seq<(SocketAddr, W, u128)>) -> bool {
    forall|i: int, j: int|
        0 <= i < j < queue.len() ==> #[trigger] queue[i].2 >= #[trigger] queue[j].2
}

/// Says of an entry of a queue that it is due at `delay`.
pub open spec fn due_at<W>(delay: u128) -> spec_fn((SocketAddr, W, u128)) -> bool {
    |e: (SocketAddr, W, u128)| e.2 == delay
}

/// Whether two queues list the same workers, those that are due at one time in
/// the same order.
pub open spec fn same_entries<W>(
    a: Seq<(SocketAddr, W, u128)>,
    b: Seq<(SocketAddr, W, u128)>,
) -> bool {
    forall|delay: u128| a.filter(#[trigger] due_at(delay)) == b.filter(due_at(delay))
}

/// What becomes of messages that are given with source and destination: the
/// place of the worker that gets it, the source and the message for each whose
/// destination is known, in order.
pub open spec fn routed<W>(
    workers: Seq<(SocketAddr, W)>,
    messages: Seq<(SocketAddr, SocketAddr, Message)>,
) -> Seq<(usize, SocketAddr, Message)>
    decreases messages.len(),
{
    if messages.len() == 0 {
        seq![]
    } else {
        let (src, dest, msg) = messages.last();
        let before = routed(workers, messages.drop_last());
        if has_worker(workers, dest) {
            before.push((worker_place(workers, dest) as usize, src, msg))
        } else {
            before
        }
    }
}

/// Whether the worker at the end of a queue has its delay behind it.
pub open spec fn is_due<W>(queue: Seq<(SocketAddr, W, u128)>, elapsed: u128) -> bool {
    queue.len() > 0 && queue.last().2 < elapsed
}

/// The queue without the worker at its end, if that one is due.
pub open spec fn still_queued<W>(queue: Seq<(SocketAddr, W, u128)>, elapsed: u128) -> Seq<
    (SocketAddr, W, u128),
> {
    if is_due(queue, elapsed) {
        queue.drop_last()
    } else {
        queue
    }
}

/// The workers with the one at the end of the queue, if that one is due.
pub open spec fn with_due<W>(
    workers: Seq<(SocketAddr, W)>,
    queue: Seq<(SocketAddr, W, u128)>,
    elapsed: u128,
) -> Seq<(SocketAddr, W)> {
    if is_due(queue, elapsed) {
        with_worker(workers, queue.last().0, queue.last().1)
    } else {
        workers
    }
}

/// One round of a run: the nanoseconds since the start when the queue is looked
/// at, and then the messages that the workers want sent, with source and
/// destination.
pub struct Round {
    pub elapsed: u128,
    pub messages: Seq<(SocketAddr, SocketAddr, Message)>,
}

/// The queue after some rounds.
pub open spec fn queue_after<W>(queue: Seq<(SocketAddr, W, u128)>, rounds: Seq<Round>) -> Seq<
    (SocketAddr, W, u128),
>
    decreases rounds.len(),
{
    if rounds.len() == 0 {
        queue
    } else {
        still_queued(queue_after(queue, rounds.drop_last()), rounds.last().elapsed)
    }
}

/// The workers that take part after some rounds.
pub open spec fn workers_after<W>(
    workers: Seq<(SocketAddr, W)>,
    queue: Seq<(SocketAddr, W, u128)>,
    rounds: Seq<Round>,
) -> Seq<(SocketAddr, W)>
    decreases rounds.len(),
{
    if rounds.len() == 0 {
        workers
    } else {
        with_due(
            workers_after(workers, queue, rounds.drop_last()),
            queue_after(queue, rounds.drop_last()),
            rounds.last().elapsed,
        )
    }
}

/// Who has joined in some rounds, in order, each with the time of the round.
pub open spec fn joined<W>(queue: Seq<(SocketAddr, W, u128)>, rounds: Seq<Round>) -> Seq<
    ((SocketAddr, W, u128), u128),
>
    decreases rounds.len(),
{
    if rounds.len() == 0 {
        seq![]
    } else {
        let before = queue_after(queue, rounds.drop_last());
        let elapsed = rounds.last().elapsed;
        if is_due(before, elapsed) {
            joined(queue, rounds.drop_last()).push((before.last(), elapsed))
        } else {
            joined(queue, rounds.drop_last())
        }
    }
}

/// The workers with those who have joined, one after the other.
pub open spec fn with_all<W>(
    workers: Seq<(SocketAddr, W)>,
    joined: Seq<((SocketAddr, W, u128), u128)>,
) -> Seq<(SocketAddr, W)>
    decreases joined.len(),
{
    if joined.len() == 0 {
        workers
    } else {
        with_worker(with_all(workers, joined.drop_last()), joined.last().0.0, joined.last().0.1)
    }
}

/// Says of a message that there is a worker at its destination.
pub open spec fn is_deliverable<W>(
    workers: Seq<(SocketAddr, W)>,
) -> spec_fn((SocketAddr, SocketAddr, Message)) -> bool {
    |m: (SocketAddr, SocketAddr, Message)| has_worker(workers, m.1)
}

/// What is delivered in some rounds, in order: in each, what becomes of its
/// messages among the workers that take part then.
pub open spec fn delivered<W>(
    workers: Seq<(SocketAddr, W)>,
    queue: Seq<(SocketAddr, W, u128)>,
    rounds: Seq<Round>,
) -> Seq<(usize, SocketAddr, Message)>
    decreases rounds.len(),
{
    if rounds.len() == 0 {
        seq![]
    } else {
        delivered(workers, queue, rounds.drop_last()) + routed(
            workers_after(workers, queue, rounds),
            rounds.last().messages,
        )
    }
}

/// The messages of some rounds, in order, that there was a worker for in their
/// round, each with the workers that took part then.
pub open spec fn deliverable<W>(
    workers: Seq<(SocketAddr, W)>,
    queue: Seq<(SocketAddr, W, u128)>,
    rounds: Seq<Round>,
) -> Seq<(Seq<(SocketAddr, W)>, (SocketAddr, SocketAddr, Message))>
    decreases rounds.len(),
{
    if rounds.len() == 0 {
        seq![]
    } else {
        let then = workers_after(workers, queue, rounds);
        deliverable(workers, queue, rounds.drop_last()) + rounds.last().messages.filter(
            is_deliverable(then),
        ).map_values(|m: (SocketAddr, SocketAddr, Message)| (then, m))
    }
}

/// Whether a delivery is that of a message: it has its source and its text, and
/// goes to the worker at its destination.
pub open spec fn is_delivery_of<W>(
    delivery: (usize, SocketAddr, Message),
    workers: Seq<(SocketAddr, W)>,
    message: (SocketAddr, SocketAddr, Message),
) -> bool {
    &&& delivery.0 < workers.len()
    &&& workers[delivery.0 as int].0 == message.1
    &&& delivery.1 == message.0
    &&& delivery.2 == message.2
}

impl<W> WorkerSim<W> {
    /// The workers that take part, by address.
    pub closed spec fn workers(&self) -> Seq<(SocketAddr, W)> {
        self.workers@
    }

    /// The address that new workers turn to first.
    pub closed spec fn bootstrap(&self) -> Option<SocketAddr> {
        self.bootstrap
    }

    /// The workers that are to be added.
    pub closed spec fn queue(&self) -> Seq<(SocketAddr, W, u128)> {
        self.worker_add_queue@
    }

    /// The state of the generator that the identities of new workers come from.
    pub closed spec fn rng(&self) -> (u128, u128) {
        self.rng@
    }

    /// Whether each address has one worker at most.
    pub open spec fn wf(&self) -> bool {
        one_worker_each(self.workers())
    }

    /// A network without workers.
    pub fn new() -> (r: Self)
        ensures
            r.wf(),
            r.workers() == Seq::<(SocketAddr, W)>::empty(),
            r.bootstrap() is None,
            r.queue() == Seq::<(SocketAddr, W, u128)>::empty(),
            r.rng() == rand64_start(12345),
    {
        WorkerSim {
            workers: Vec::new(),
            bootstrap: None,
            worker_add_queue: Vec::new(),
            rng: Rand64::new(12345),
        }
    }

    /// Makes up a random identity for a new worker.
    ///
    /// The machine decides in which order the bytes of a random word are hashed.
    pub fn new_worker_id(&mut self) -> (r: PeerId)
        ensures
            r@ == blake2s_digest(
                bytes_lowest_first(draws(old(self).rng(), BLAKE2_HASH_SIZE as nat)),
            ) || r@ == blake2s_digest(
                bytes_highest_first(draws(old(self).rng(), BLAKE2_HASH_SIZE as nat)),
            ),
            final(self).rng() == state_after(old(self).rng(), BLAKE2_HASH_SIZE as nat),
            final(self).workers() == old(self).workers(),
            final(self).bootstrap() == old(self).bootstrap(),
            final(self).queue() == old(self).queue(),
    {
        PeerId::new_insecure_random(&mut self.rng)
    }

    /// Sets which bootstrap address new workers will attempt to connect to.
    pub fn set_bootstrap(&mut self, bootstrap: SocketAddr)
        ensures
            final(self).workers() == old(self).workers(),
            final(self).bootstrap() == Some(bootstrap),
            final(self).rng() == old(self).rng(),
            final(self).queue() == old(self).queue(),
    {
        self.bootstrap = Some(bootstrap);
    }

    /// Adds an already-created worker with the given address.
    pub fn add_worker(&mut self, addr: SocketAddr, worker: W)
        requires
            old(self).wf(),
        ensures
            final(self).wf(),
            final(self).workers() == with_worker(old(self).workers(), addr, worker),
            final(self).bootstrap() == old(self).bootstrap(),
            final(self).rng() == old(self).rng(),
            final(self).queue() == old(self).queue(),
    {
        let ghost before = self.workers@;
        let mut i: usize = 0;
        while i < self.workers.len()
            invariant
                *self == *old(self),
                before == self.workers@,
                one_worker_each(before),
                i <= before.len(),
                forall|j: int| 0 <= j < i ==> #[trigger] before[j].0 != addr,
            decreases before.len() - i,
        {
            if self.workers[i].0 == addr {
                proof {
                    lemma_worker_place(before, i as int);
                }
                self.workers[i] = (addr, worker);
                return;
            }
            i += 1;
        }
        self.workers.push((addr, worker));
    }

    /// The messages that a new worker with the given identity sends, each with
    /// the address that it goes to: if there is a bootstrap address, a ping and
    /// a question about itself, to get some nearby peers.
    pub fn bootstrap_messages(&self, id: PeerId) -> (r: Vec<(SocketAddr, Message)>)
        ensures
            r@ == (match self.bootstrap() {
                Some(to) => seq![(to, Message::Ping { id }), (to, Message::FindPeer { id })],
                None => seq![],
            }),
    {
        let mut out: Vec<(SocketAddr, Message)> = Vec::new();
        if let Some(bootstrap) = self.bootstrap {
            out.push((bootstrap, Message::Ping { id }));
            out.push((bootstrap, Message::FindPeer { id }));
        }
        out
    }

    /// Queues a new worker that takes part after the given delay.
    pub fn add_new_worker(&mut self, addr: SocketAddr, worker: W, delay: u128)
        ensures
            final(self).workers() == old(self).workers(),
            final(self).bootstrap() == old(self).bootstrap(),
            final(self).rng() == old(self).rng(),
            final(self).queue() == old(self).queue().push((addr, worker, delay)),
    {
        self.worker_add_queue.push((addr, worker, delay));
    }

    /// Sorts the queue by delay, in reverse, so that the workers that are due
    /// next can be popped off its end. Workers with the same delay keep their
    /// order.
    pub fn sort_queue(&mut self)
        ensures
            final(self).workers() == old(self).workers(),
            final(self).bootstrap() == old(self).bootstrap(),
            final(self).rng() == old(self).rng(),
            latest_first(final(self).queue()),
            same_entries(old(self).queue(), final(self).queue()),
    {
        let mut sorted: Vec<(SocketAddr, W, u128)> = Vec::new();
        let ghost all = self.worker_add_queue@;
        assert(Seq::<(SocketAddr, W, u128)>::empty() + all =~= all);
        while self.worker_add_queue.len() > 0
            invariant
                self.workers == old(self).workers,
                self.bootstrap == old(self).bootstrap,
                self.rng == old(self).rng,
                all == old(self).worker_add_queue@,
                latest_first(sorted@),
                same_entries(all, sorted@ + self.worker_add_queue@),
            decreases self.worker_add_queue@.len(),
        {
            let ghost left = self.worker_add_queue@;
            let entry = self.worker_add_queue.remove(0);
            let mut at: usize = 0;
            while at < sorted.len() && sorted[at].2 >= entry.2
                invariant
                    at <= sorted@.len(),
                    forall|i: int| 0 <= i < at ==> #[trigger] sorted@[i].2 >= entry.2,
                decreases sorted@.len() - at,
            {
                at += 1;
            }
            proof {
                lemma_insert_latest_first(sorted@, at as int, entry);
                assert(left =~= seq![entry] + self.worker_add_queue@);
                lemma_insert_keeps_entries(all, sorted@, at as int, entry, self.worker_add_queue@);
            }
            sorted.insert(at, entry);
        }
        assert(sorted@ + self.worker_add_queue@ =~= sorted@);
        self.worker_add_queue = sorted;
    }

    /// Lets the worker at the end of the queue take part, if its delay has
    /// elapsed, and says whether it did.
    pub fn add_due_worker(&mut self, elapsed: u128) -> (r: bool)
        requires
            old(self).wf(),
        ensures
            final(self).wf(),
            final(self).bootstrap() == old(self).bootstrap(),
            final(self).rng() == old(self).rng(),
            r == is_due(old(self).queue(), elapsed),
            final(self).queue() == still_queued(old(self).queue(), elapsed),
            final(self).workers() == with_due(old(self).workers(), old(self).queue(), elapsed),
    {
        match self.worker_add_queue.pop() {
            Some((addr, worker, delay)) => if delay < elapsed {
                self.add_worker(addr, worker);
                true
            } else {
                self.worker_add_queue.push((addr, worker, delay));
                assert(self.worker_add_queue@ =~= old(self).worker_add_queue@);
                false
            },
            None => false,
        }
    }

    /// The place of the worker that a message to an address is for. Messages to
    /// unknown addresses are for nobody.
    pub fn recipient(&self, dest: SocketAddr) -> (r: Option<usize>)
        requires
            self.wf(),
        ensures
            r is Some <==> has_worker(self.workers(), dest),
            r matches Some(i) ==> i == worker_place(self.workers(), dest) && i
                < self.workers().len(),
    {
        let mut i: usize = 0;
        while i < self.workers.len()
            invariant
                self.wf(),
                i <= self.workers@.len(),
                forall|j: int| 0 <= j < i ==> #[trigger] self.workers@[j].0 != dest,
            decreases self.workers@.len() - i,
        {
            if self.workers[i].0 == dest {
                proof {
                    lemma_worker_place(self.workers@, i as int);
                }
                return Some(i);
            }
            i += 1;
        }
        None
    }

    /// Decides for each message, given with source and destination, which worker
    /// gets it. Messages to unknown addresses get ignored.
    pub fn deliveries(&self, messages: Vec<(SocketAddr, SocketAddr, Message)>) -> (r: Vec<
        (usize, SocketAddr, Message),
    >)
        requires
            self.wf(),
        ensures
            r@ == routed(self.workers(), messages@),
    {
        let mut left = messages;
        let mut out: Vec<(usize, SocketAddr, Message)> = Vec::new();
        let ghost mut done: Seq<(SocketAddr, SocketAddr, Message)> = seq![];
        assert(done + left@ =~= messages@);
        while left.len() > 0
            invariant
                self.wf(),
                done + left@ == messages@,
                out@ == routed(self.workers(), done),
            decreases left@.len(),
        {
            let ghost before = left@;
            let ghost was_done = done;
            let (src, dest, msg) = left.remove(0);
            proof {
                done = done.push((src, dest, msg));
                assert(done.drop_last() =~= was_done);
                assert(done + left@ =~= was_done + before);
            }
            if let Some(i) = self.recipient(dest) {
                out.push((i, src, msg));
            }
        }
        assert(done =~= messages@);
        out
    }

    /// How many workers take part.
    pub fn worker_count(&self) -> (r: usize)
        ensures
            r == self.workers().len(),
    {
        self.workers.len()
    }

    /// A worker that takes part, with its address.
    pub fn worker(&self, i: usize) -> (r: &(SocketAddr, W))
        requires
            i < self.workers().len(),
        ensures
            *r == self.workers()[i as int],
    {
        &self.workers[i]
    }

    /// Ends the network and hands its workers out.
    pub fn into_workers(self) -> (r: Vec<(SocketAddr, W)>)
        ensures
            r@ == self.workers(),
    {
        self.workers
    }
}

/// A worker is found where it is listed.
proof fn lemma_worker_place<W>(workers: Seq<(SocketAddr, W)>, i: int)
    requires
        one_worker_each(workers),
        0 <= i < workers.len(),
    ensures
        has_worker(workers, workers[i].0),
        worker_place(workers, workers[i].0) == i,
{
    let p = worker_place(workers, workers[i].0);
    assert(has_worker(workers, workers[i].0));
    if p < i {
        assert(workers[p].0 != workers[i].0);
    }
    if i < p {
        assert(workers[i].0 != workers[p].0);
    }
}

proof fn lemma_insert_latest_first<W>(
    sorted: Seq<(SocketAddr, W, u128)>,
    at: int,
    entry: (SocketAddr, W, u128),
)
    requires
        latest_first(sorted),
        0 <= at <= sorted.len(),
        forall|i: int| 0 <= i < at ==> #[trigger] sorted[i].2 >= entry.2,
        at < sorted.len() ==> sorted[at].2 < entry.2,
    ensures
        latest_first(sorted.insert(at, entry)),
{
    let new = sorted.insert(at, entry);
    assert forall|i: int, j: int| 0 <= i < j < new.len() implies #[trigger] new[i].2
        >= #[trigger] new[j].2 by {
        let k = if i < at {
            i
        } else {
            i - 1
        };
        let l = if j < at {
            j
        } else {
            j - 1
        };
        if i != at {
            assert(new[i] == sorted[k]);
        }
        if j != at {
            assert(new[j] == sorted[l]);
            if i == at && at < l {
                assert(sorted[at].2 >= sorted[l].2);
            }
        }
    }
}

proof fn lemma_insert_keeps_entries<W>(
    all: Seq<(SocketAddr, W, u128)>,
    sorted: Seq<(SocketAddr, W, u128)>,
    at: int,
    entry: (SocketAddr, W, u128),
    rest: Seq<(SocketAddr, W, u128)>,
)
    requires
        latest_first(sorted),
        0 <= at <= sorted.len(),
        at < sorted.len() ==> sorted[at].2 < entry.2,
        same_entries(all, sorted + (seq![entry] + rest)),
    ensures
        same_entries(all, sorted.insert(at, entry) + rest),
{
    let one = seq![entry];
    let a = sorted.take(at);
    let b = sorted.skip(at);
    assert(sorted =~= a + b);
    assert(sorted.insert(at, entry) =~= a + one + b);
    assert forall|delay: u128| all.filter(#[trigger] due_at(delay)) == (sorted.insert(at, entry)
        + rest).filter(due_at(delay)) by {
        let p = due_at::<W>(delay);
        assert(all.filter(p) == (sorted + (one + rest)).filter(p));
        Seq::filter_distributes_over_add(sorted, one + rest, p);
        Seq::filter_distributes_over_add(one, rest, p);
        Seq::filter_distributes_over_add(a, b, p);
        Seq::filter_distributes_over_add(a + one + b, rest, p);
        Seq::filter_distributes_over_add(a + one, b, p);
        Seq::filter_distributes_over_add(a, one, p);
        if p(entry) {
            assert forall|i: int| 0 <= i < b.len() implies !p(#[trigger] b[i]) by {
                assert(b[i] == sorted[at + i]);
                if i > 0 {
                    assert(sorted[at].2 >= sorted[at + i].2);
                }
            }
            lemma_filter_nothing(b, p);
        } else {
            lemma_filter_nothing(one, p);
        }
        assert(all.filter(p) =~= (sorted.insert(at, entry) + rest).filter(p));
    }
}

proof fn lemma_filter_nothing<A>(s: Seq<A>, p: spec_fn(A) -> bool)
    requires
        forall|i: int| 0 <= i < s.len() ==> !p(#[trigger] s[i]),
    ensures
        s.filter(p) == Seq::<A>::empty(),
    decreases s.len(),
{
    reveal(Seq::filter);
    if s.len() > 0 {
        assert forall|i: int| 0 <= i < s.drop_last().len() implies !p(
            #[trigger] s.drop_last()[i],
        ) by {
            assert(s.drop_last()[i] == s[i]);
        }
        lemma_filter_nothing(s.drop_last(), p);
        assert(s.last() == s[s.len() - 1]);
    }
    assert(s.filter(p) =~= Seq::<A>::empty());
}

/// Nobody is kept waiting by someone who is due later: in a sorted queue, no
/// worker is due before the one that is added next.
pub proof fn law_next_worker_is_due_first<W>(queue: Seq<(SocketAddr, W, u128)>, i: int)
    requires
        latest_first(queue),
        0 <= i < queue.len(),
    ensures
        queue.last().2 <= queue[i].2,
        latest_first(queue.drop_last()),
{
    if i < queue.len() - 1 {
        assert(queue[i].2 >= queue[queue.len() - 1].2);
    }
    let rest = queue.drop_last();
    assert forall|i: int, j: int| 0 <= i < j < rest.len() implies #[trigger] rest[i].2
        >= #[trigger] rest[j].2 by {
        assert(queue[i].2 >= queue[j].2);
    }
}

/// A worker that was added gets the messages that are sent to its address, and
/// all others get theirs as before.
pub proof fn law_added_worker_is_reached<W>(
    workers: Seq<(SocketAddr, W)>,
    addr: SocketAddr,
    worker: W,
    other: SocketAddr,
)
    requires
        one_worker_each(workers),
        other != addr,
    ensures
        has_worker(with_worker(workers, addr, worker), addr),
        with_worker(workers, addr, worker)[worker_place(
            with_worker(workers, addr, worker),
            addr,
        )].1 == worker,
        has_worker(with_worker(workers, addr, worker), other) == has_worker(workers, other),
        has_worker(workers, other) ==> with_worker(workers, addr, worker)[worker_place(
            with_worker(workers, addr, worker),
            other,
        )] == workers[worker_place(workers, other)],
{
    let new = with_worker(workers, addr, worker);
    lemma_with_worker(workers, addr, worker);
    let p = if has_worker(workers, addr) {
        worker_place(workers, addr)
    } else {
        workers.len() as int
    };
    assert(new[p].0 == addr);
    lemma_worker_place(new, p);
    if has_worker(workers, other) {
        let q = worker_place(workers, other);
        assert(new[q] == workers[q]);
        lemma_worker_place(new, q);
    }
    if has_worker(new, other) {
        let q = worker_place(new, other);
        assert(new[q].0 == other);
        assert(workers[q].0 == other);
    }
}

proof fn lemma_with_worker<W>(workers: Seq<(SocketAddr, W)>, addr: SocketAddr, worker: W)
    requires
        one_worker_each(workers),
    ensures
        one_worker_each(with_worker(workers, addr, worker)),
{
    let new = with_worker(workers, addr, worker);
    assert forall|i: int, j: int| 0 <= i < j < new.len() implies #[trigger] new[i].0
        != #[trigger] new[j].0 by {
        if has_worker(workers, addr) {
            let p = worker_place(workers, addr);
            assert(workers[p].0 == addr);
            assert(workers[i].0 != workers[j].0);
        } else {
            assert(workers[i].0 != addr);
            if j < workers.len() {
                assert(workers[i].0 != workers[j].0);
            }
        }
    }
}

/// Workers join in order of delay, none before its delay has elapsed, each at
/// most once and in the place that the queue gives it; whoever has not joined
/// is still queued, and those who have joined take part.
pub proof fn law_workers_join_in_order<W>(
    workers: Seq<(SocketAddr, W)>,
    queue: Seq<(SocketAddr, W, u128)>,
    rounds: Seq<Round>,
)
    requires
        latest_first(queue),
    ensures
        ({
            let j = joined(queue, rounds);
            &&& j.len() <= queue.len()
            &&& queue_after(queue, rounds) == queue.take(queue.len() - j.len())
            &&& workers_after(workers, queue, rounds) == with_all(workers, j)
            &&& forall|i: int| 0 <= i < j.len() ==> (#[trigger] j[i]).0.2 < j[i].1
            &&& forall|i: int|
                0 <= i < j.len() ==> (#[trigger] j[i]).0 == queue[queue.len() - 1 - i]
            &&& forall|i: int, k: int|
                0 <= i < k < j.len() ==> (#[trigger] j[i]).0.2 <= (#[trigger] j[k]).0.2
        }),
    decreases rounds.len(),
{
    if rounds.len() == 0 {
        assert(queue.take(queue.len() as int) =~= queue);
    } else {
        let rest = rounds.drop_last();
        law_workers_join_in_order(workers, queue, rest);
        let before = joined(queue, rest);
        let j = joined(queue, rounds);
        let q = queue_after(queue, rest);
        if is_due(q, rounds.last().elapsed) {
            assert(q.last() == queue[queue.len() - 1 - before.len()]);
            assert(q.drop_last() =~= queue.take(queue.len() - j.len()));
            assert(j.drop_last() =~= before);
            assert forall|i: int, k: int| 0 <= i < k < j.len() implies (#[trigger] j[i]).0.2
                <= (#[trigger] j[k]).0.2 by {
                assert(j[i].0 == queue[queue.len() - 1 - i]);
                assert(j[k].0 == queue[queue.len() - 1 - k]);
            }
        }
    }
}

/// Each message to a known address is delivered once, in order, with its source,
/// to the worker at that address; no other message is delivered.
pub proof fn law_messages_are_delivered_once<W>(
    workers: Seq<(SocketAddr, W)>,
    messages: Seq<(SocketAddr, SocketAddr, Message)>,
)
    requires
        workers.len() <= usize::MAX,
    ensures
        routed(workers, messages).len() == messages.filter(is_deliverable(workers)).len(),
        forall|i: int|
            0 <= i < routed(workers, messages).len() ==> is_delivery_of(
                #[trigger] routed(workers, messages)[i],
                workers,
                messages.filter(is_deliverable(workers))[i],
            ),
    decreases messages.len(),
{
    reveal(Seq::filter);
    if messages.len() > 0 {
        let rest = messages.drop_last();
        law_messages_are_delivered_once(workers, rest);
        let (src, dest, msg) = messages.last();
        let out = routed(workers, messages);
        let kept = messages.filter(is_deliverable(workers));
        if has_worker(workers, dest) {
            let p = worker_place(workers, dest);
            assert(0 <= p < workers.len() && workers[p].0 == dest);
            assert forall|i: int| 0 <= i < out.len() implies is_delivery_of(
                #[trigger] out[i],
                workers,
                kept[i],
            ) by {
                if i < out.len() - 1 {
                    assert(out[i] == routed(workers, rest)[i]);
                    assert(kept[i] == rest.filter(is_deliverable(workers))[i]);
                }
            }
        }
    }
}

/// Over a whole run, each message is delivered exactly once, in order, to the
/// worker that is then at its destination, and dropped if there is none.
pub proof fn law_run_delivers_once<W>(
    workers: Seq<(SocketAddr, W)>,
    queue: Seq<(SocketAddr, W, u128)>,
    rounds: Seq<Round>,
)
    requires
        workers.len() + queue.len() <= usize::MAX,
    ensures
        delivered(workers, queue, rounds).len() == deliverable(workers, queue, rounds).len(),
        forall|i: int|
            0 <= i < delivered(workers, queue, rounds).len() ==> is_delivery_of(
                #[trigger] delivered(workers, queue, rounds)[i],
                deliverable(workers, queue, rounds)[i].0,
                deliverable(workers, queue, rounds)[i].1,
            ),
    decreases rounds.len(),
{
    if rounds.len() > 0 {
        let rest = rounds.drop_last();
        law_run_delivers_once(workers, queue, rest);
        lemma_workers_after_len(workers, queue, rounds);
        let then = workers_after(workers, queue, rounds);
        let messages = rounds.last().messages;
        law_messages_are_delivered_once(then, messages);
        let out = delivered(workers, queue, rounds);
        let want = deliverable(workers, queue, rounds);
        let before = delivered(workers, queue, rest);
        assert forall|i: int| 0 <= i < out.len() implies is_delivery_of(
            #[trigger] out[i],
            want[i].0,
            want[i].1,
        ) by {
            if i < before.len() {
                assert(out[i] == before[i]);
                assert(want[i] == deliverable(workers, queue, rest)[i]);
            } else {
                let k = i - before.len();
                assert(out[i] == routed(then, messages)[k]);
                assert(want[i] == (then, messages.filter(is_deliverable(then))[k]));
            }
        }
    }
}

/// No more workers take part than there were at the start and in the queue.
proof fn lemma_workers_after_len<W>(
    workers: Seq<(SocketAddr, W)>,
    queue: Seq<(SocketAddr, W, u128)>,
    rounds: Seq<Round>,
)
    ensures
        workers_after(workers, queue, rounds).len() + queue_after(queue, rounds).len()
            <= workers.len() + queue.len(),
    decreases rounds.len(),
{
    if rounds.len() > 0 {
        lemma_workers_after_len(workers, queue, rounds.drop_last());
    }
}

/// A worker is put at its address, and takes the place of one that was there;
/// the workers at all other addresses stay, and none comes to another.
pub proof fn law_worker_is_put_at_its_address<W>(
    workers: Seq<(SocketAddr, W)>,
    addr: SocketAddr,
    worker: W,
    other: (SocketAddr, W),
)
    requires
        forall|i: int, j: int|
            0 <= i < j < workers.len() ==> (#[trigger] workers[i]).0 != (#[trigger] workers[j]).0,
    ensures
        with_worker(workers, addr, worker).contains((addr, worker)),
        other.0 == addr && with_worker(workers, addr, worker).contains(other) ==> other.1
            == worker,
        other.0 != addr ==> (with_worker(workers, addr, worker).contains(other)
            <==> workers.contains(other)),
        with_worker(workers, addr, worker).len() == workers.len() + (if exists|i: int|
            0 <= i < workers.len() && (#[trigger] workers[i]).0 == addr {
            0int
        } else {
            1int
        }),
{
    let new = with_worker(workers, addr, worker);
    lemma_with_worker(workers, addr, worker);
    let p = if has_worker(workers, addr) {
        worker_place(workers, addr)
    } else {
        workers.len() as int
    };
    assert(new[p] == (addr, worker));
    if new.contains(other) {
        let q = choose|q: int| 0 <= q < new.len() && new[q] == other;
        if other.0 == addr {
            if q < p {
                assert(new[q].0 != new[p].0);
            }
            if p < q {
                assert(new[p].0 != new[q].0);
            }
        } else {
            assert(q != p);
            assert(workers[q] == other);
        }
    }
    if workers.contains(other) && other.0 != addr {
        let q = choose|q: int| 0 <= q < workers.len() && workers[q] == other;
        assert(q != p);
        assert(new[q] == other);
    }
}

/// A worker whose time has come joins: if the delay of the one at the end of the
/// queue is behind it, then it takes part at its address, and the queue is
/// shorter by it.
pub proof fn law_due_worker_joins<W>(
    workers: Seq<(SocketAddr, W)>,
    queue: Seq<(SocketAddr, W, u128)>,
    elapsed: u128,
)
    requires
        queue.len() > 0,
        queue[queue.len() - 1].2 < elapsed,
    ensures
        is_due(queue, elapsed),
        still_queued(queue, elapsed) == queue.take(queue.len() - 1),
        with_due(workers, queue, elapsed) == with_worker(
            workers,
            queue[queue.len() - 1].0,
            queue[queue.len() - 1].1,
        ),
        with_due(workers, queue, elapsed).contains(
            (queue[queue.len() - 1].0, queue[queue.len() - 1].1),
        ),
{
    let (addr, worker, delay) = queue.last();
    lemma_with_worker_contains(workers, addr, worker);
    assert(queue.drop_last() =~= queue.take(queue.len() - 1));
}

/// Nobody joins before its time: with an empty queue, or with a delay at its end
/// that is not behind, everything stays as it is.
pub proof fn law_nobody_joins_early<W>(
    workers: Seq<(SocketAddr, W)>,
    queue: Seq<(SocketAddr, W, u128)>,
    elapsed: u128,
)
    requires
        queue.len() == 0 || queue[queue.len() - 1].2 >= elapsed,
    ensures
        !is_due(queue, elapsed),
        still_queued(queue, elapsed) == queue,
        with_due(workers, queue, elapsed) == workers,
{
}

/// A worker that is put at its address takes part.
proof fn lemma_with_worker_contains<W>(
    workers: Seq<(SocketAddr, W)>,
    addr: SocketAddr,
    worker: W,
)
    ensures
        with_worker(workers, addr, worker).contains((addr, worker)),
        forall|x: (SocketAddr, W)|
            x.0 != addr && #[trigger] workers.contains(x) ==> with_worker(
                workers,
                addr,
                worker,
            ).contains(x),
{
    let new = with_worker(workers, addr, worker);
    let p = if has_worker(workers, addr) {
        worker_place(workers, addr)
    } else {
        workers.len() as int
    };
    assert(new[p] == (addr, worker));
    assert forall|x: (SocketAddr, W)|
        x.0 != addr && #[trigger] workers.contains(x) implies new.contains(x) by {
        let q = choose|q: int| 0 <= q < workers.len() && workers[q] == x;
        assert(new[q] == x);
    }
}

/// Everybody joins in the end: after as many rounds as there are workers in the
/// queue, all of them past every delay, the queue is empty, and each worker
/// takes part, unless one that joins later has the same address.
pub proof fn law_everybody_joins<W>(
    workers: Seq<(SocketAddr, W)>,
    queue: Seq<(SocketAddr, W, u128)>,
    rounds: Seq<Round>,
)
    requires
        rounds.len() == queue.len(),
        forall|k: int, i: int|
            0 <= k < rounds.len() && 0 <= i < queue.len() ==> (#[trigger] queue[i]).2 < (
            #[trigger] rounds[k]).elapsed,
    ensures
        queue_after(queue, rounds).len() == 0,
        forall|i: int|
            0 <= i < queue.len() && (forall|j: int| 0 <= j < i ==> queue[j].0 != queue[i].0)
                ==> workers_after(workers, queue, rounds).contains(
                ((#[trigger] queue[i]).0, queue[i].1),
            ),
{
    lemma_joining(workers, queue, rounds);
    let n = queue.len() as int;
    assert(queue.take(0).len() == 0);
    assert forall|i: int|
        0 <= i < n && (forall|j: int|
            0 <= j < i ==> queue[j].0 != queue[i].0) implies workers_after(
        workers,
        queue,
        rounds,
    ).contains(((#[trigger] queue[i]).0, queue[i].1)) by {
        assert(n - rounds.len() <= i);
    }
}

proof fn lemma_joining<W>(
    workers: Seq<(SocketAddr, W)>,
    queue: Seq<(SocketAddr, W, u128)>,
    rounds: Seq<Round>,
)
    requires
        rounds.len() <= queue.len(),
        forall|k: int, i: int|
            0 <= k < rounds.len() && 0 <= i < queue.len() ==> (#[trigger] queue[i]).2 < (
            #[trigger] rounds[k]).elapsed,
    ensures
        queue_after(queue, rounds) == queue.take(queue.len() - rounds.len()),
        forall|i: int|
            queue.len() - rounds.len() <= i < queue.len() && (forall|j: int|
                queue.len() - rounds.len() <= j < i ==> queue[j].0 != queue[i].0)
                ==> workers_after(workers, queue, rounds).contains(
                ((#[trigger] queue[i]).0, queue[i].1),
            ),
    decreases rounds.len(),
{
    let n = queue.len() as int;
    if rounds.len() == 0 {
        assert(queue.take(n) =~= queue);
    } else {
        let rest = rounds.drop_last();
        let m = n - rounds.len();
        assert forall|k: int, i: int| 0 <= k < rest.len() && 0 <= i < n implies (
        #[trigger] queue[i]).2 < (#[trigger] rest[k]).elapsed by {
            assert(rest[k] == rounds[k]);
        }
        lemma_joining(workers, queue, rest);
        let q = queue_after(queue, rest);
        let before = workers_after(workers, queue, rest);
        let elapsed = rounds[rounds.len() - 1].elapsed;
        assert(q == queue.take(m + 1));
        assert(q[q.len() - 1] == queue[m]);
        assert(queue[m].2 < elapsed);
        law_due_worker_joins(before, q, elapsed);
        assert(q.take(m) =~= queue.take(m));
        lemma_with_worker_contains(before, queue[m].0, queue[m].1);
        assert forall|i: int|
            m <= i < n && (forall|j: int|
                m <= j < i ==> queue[j].0 != queue[i].0) implies workers_after(
            workers,
            queue,
            rounds,
        ).contains(((#[trigger] queue[i]).0, queue[i].1)) by {
            if i > m {
                assert(queue[m].0 != queue[i].0);
                assert(before.contains((queue[i].0, queue[i].1)));
            }
        }
    }
}

/// One more message is one more delivery, if there is a worker at its
/// destination: to that worker, with its source and its text. Otherwise nothing
/// more is delivered.
pub proof fn law_routed_one_by_one<W>(
    workers: Seq<(SocketAddr, W)>,
    messages: Seq<(SocketAddr, SocketAddr, Message)>,
    src: SocketAddr,
    dest: SocketAddr,
    msg: Message,
)
    requires
        workers.len() <= usize::MAX,
    ensures
        routed(workers, Seq::<(SocketAddr, SocketAddr, Message)>::empty()).len() == 0,
        ({
            let before = routed(workers, messages);
            let after = routed(workers, messages.push((src, dest, msg)));
            if exists|i: int| 0 <= i < workers.len() && (#[trigger] workers[i]).0 == dest {
                &&& after.len() == before.len() + 1
                &&& after.drop_last() == before
                &&& after.last().0 < workers.len()
                &&& workers[after.last().0 as int].0 == dest
                &&& after.last().1 == src
                &&& after.last().2 == msg
            } else {
                after == before
            }
        }),
{
    let all = messages.push((src, dest, msg));
    assert(all.drop_last() =~= messages);
    if has_worker(workers, dest) {
        let p = worker_place(workers, dest);
        assert(0 <= p < workers.len() && workers[p].0 == dest);
        assert(routed(workers, all).drop_last() =~= routed(workers, messages));
    }
}

/// A worker is found at an address exactly when one is listed there.
pub proof fn law_worker_is_found<W>(workers: Seq<(SocketAddr, W)>, addr: SocketAddr)
    ensures
        has_worker(workers, addr) <==> (exists|i: int|
            0 <= i < workers.len() && (#[trigger] workers[i]).0 == addr),
        has_worker(workers, addr) ==> 0 <= worker_place(workers, addr) < workers.len()
            && workers[worker_place(workers, addr)].0 == addr,
{
}

/// Sorting the queue loses nobody and adds nobody, and leaves those with one
/// delay in their order.
pub proof fn law_sorting_keeps_everybody<W>(
    before: Seq<(SocketAddr, W, u128)>,
    after: Seq<(SocketAddr, W, u128)>,
    entry: (SocketAddr, W, u128),
    delay: u128,
)
    requires
        same_entries(before, after),
    ensures
        before.contains(entry) <==> after.contains(entry),
        before.filter(|e: (SocketAddr, W, u128)| e.2 == delay) == after.filter(
            |e: (SocketAddr, W, u128)| e.2 == delay,
        ),
        before.len() == after.len(),
{
    assert(due_at::<W>(delay) =~= (|e: (SocketAddr, W, u128)| e.2 == delay));
    assert(before.filter(due_at(delay)) == after.filter(due_at(delay)));
    lemma_same_contains(before, after, entry);
    lemma_same_contains(after, before, entry);
    lemma_same_len(before, after);
}

proof fn lemma_same_contains<W>(
    a: Seq<(SocketAddr, W, u128)>,
    b: Seq<(SocketAddr, W, u128)>,
    entry: (SocketAddr, W, u128),
)
    requires
        forall|delay: u128| a.filter(#[trigger] due_at(delay)) == b.filter(due_at(delay)),
    ensures
        a.contains(entry) ==> b.contains(entry),
{
    if a.contains(entry) {
        let p = due_at::<W>(entry.2);
        let i = choose|i: int| 0 <= i < a.len() && a[i] == entry;
        a.lemma_filter_contains(p, i);
        assert(a.filter(p) == b.filter(p));
        let k = choose|k: int| 0 <= k < b.filter(p).len() && b.filter(p)[k] == entry;
        let j = lemma_filter_subset(b, p, k);
        assert(b[j] == entry);
    }
}

/// Queues that list the same workers are of one length.
proof fn lemma_same_len<W>(a: Seq<(SocketAddr, W, u128)>, b: Seq<(SocketAddr, W, u128)>)
    requires
        forall|delay: u128| a.filter(#[trigger] due_at(delay)) == b.filter(due_at(delay)),
    ensures
        a.len() == b.len(),
    decreases a.len(),
{
    if a.len() == 0 {
        if b.len() > 0 {
            let p = due_at::<W>(b[0].2);
            b.lemma_filter_contains(p, 0);
            assert(a.filter(p) == b.filter(p));
            a.lemma_filter_len(p);
        }
    } else {
        let x = a.last();
        let px = due_at::<W>(x.2);
        lemma_same_contains(a, b, x);
        assert(a.contains(a[a.len() - 1]));
        // Take out the last of those in `b` with that delay.
        let m = lemma_last_with(b, px);
        let rest = b.remove(m);
        let front = a.drop_last();
        assert forall|delay: u128| front.filter(#[trigger] due_at(delay)) == rest.filter(
            due_at(delay),
        ) by {
            let p = due_at::<W>(delay);
            assert(a.filter(p) == b.filter(p));
            reveal(Seq::filter);
            lemma_filter_remove_last(b, m, p, px);
            assert(a.filter(p) == (if p(x) {
                front.filter(p).push(x)
            } else {
                front.filter(p)
            }));
            if p(x) {
                assert(p =~= px);
                assert(front.filter(p) =~= a.filter(p).drop_last());
            }
        }
        lemma_same_len(front, rest);
    }
}

/// The last member of which a predicate holds.
proof fn lemma_last_with<A>(s: Seq<A>, p: spec_fn(A) -> bool) -> (m: int)
    requires
        exists|i: int| 0 <= i < s.len() && p(#[trigger] s[i]),
    ensures
        0 <= m < s.len(),
        p(s[m]),
        forall|i: int| m < i < s.len() ==> !p(#[trigger] s[i]),
    decreases s.len(),
{
    let n = s.len() - 1;
    if p(s[n]) {
        n
    } else {
        let rest = s.drop_last();
        let i = choose|i: int| 0 <= i < s.len() && p(#[trigger] s[i]);
        assert(rest[i] == s[i]);
        let m = lemma_last_with(rest, p);
        assert forall|i: int| m < i < s.len() implies !p(#[trigger] s[i]) by {
            if i < n {
                assert(rest[i] == s[i]);
            }
        }
        m
    }
}

/// What a predicate keeps when the last member with some delay is taken out.
proof fn lemma_filter_remove_last<W>(
    s: Seq<(SocketAddr, W, u128)>,
    m: int,
    p: spec_fn((SocketAddr, W, u128)) -> bool,
    q: spec_fn((SocketAddr, W, u128)) -> bool,
)
    requires
        0 <= m < s.len(),
        q(s[m]),
        forall|i: int| m < i < s.len() ==> !q(#[trigger] s[i]),
        p(s[m]) ==> p == q,
    ensures
        !p(s[m]) ==> s.remove(m).filter(p) == s.filter(p),
        p(s[m]) ==> s.filter(p).len() > 0 && s.remove(m).filter(p) == s.filter(p).drop_last(),
{
    let a = s.take(m);
    let one = seq![s[m]];
    let b = s.skip(m + 1);
    assert(s =~= a + one + b);
    assert(s.remove(m) =~= a + b);
    Seq::filter_distributes_over_add(a + one, b, p);
    Seq::filter_distributes_over_add(a, one, p);
    Seq::filter_distributes_over_add(a, b, p);
    reveal_with_fuel(Seq::filter, 2);
    assert(one.drop_last().len() == 0);
    if p(s[m]) {
        assert forall|i: int| 0 <= i < b.len() implies !p(#[trigger] b[i]) by {
            assert(b[i] == s[m + 1 + i]);
        }
        lemma_filter_nothing(b, p);
        assert(one.filter(p) =~= one);
        assert(s.filter(p) =~= a.filter(p) + one);
        assert(s.remove(m).filter(p) =~= s.filter(p).drop_last());
    } else {
        assert(one.filter(p) =~= seq![]);
        assert(s.remove(m).filter(p) =~= s.filter(p));
    }
}

/// A sorted queue has the longest delays first.
pub proof fn law_sorted_queue_is_latest_first<W>(
    queue: Seq<(SocketAddr, W, u128)>,
    i: int,
    j: int,
)
    requires
        latest_first(queue),
        0 <= i < j < queue.len(),
    ensures
        queue[i].2 >= queue[j].2,
{
}

/// The worker at the end of the queue joins exactly when its delay is behind it,
/// told by what goes in and comes out: then it takes part at its address and the
/// queue is shorter by it, and otherwise nothing changes.
pub proof fn law_add_due_worker_adds_whoever_is_due<W>(
    sim: &mut WorkerSim<W>,
    elapsed: u128,
    added: bool,
)
    requires
        old(sim).wf(),
        call_ensures(WorkerSim::<W>::add_due_worker, (sim, elapsed), added),
    ensures
        ({
            let queue = old(sim).queue();
            let n = queue.len() - 1;
            if queue.len() > 0 && queue[n].2 < elapsed {
                &&& added
                &&& final(sim).queue() == queue.take(n)
                &&& final(sim).workers().contains((queue[n].0, queue[n].1))
                &&& forall|x: (SocketAddr, W)|
                    x.0 != queue[n].0 ==> (#[trigger] final(sim).workers().contains(x)
                        == old(sim).workers().contains(x))
            } else {
                &&& !added
                &&& final(sim).queue() == queue
                &&& final(sim).workers() == old(sim).workers()
            }
        }),
        final(sim).bootstrap() == old(sim).bootstrap(),
{
    let queue = old(sim).queue();
    let workers = old(sim).workers();
    let n = queue.len() - 1;
    if queue.len() > 0 && queue[n].2 < elapsed {
        law_due_worker_joins(workers, queue, elapsed);
        assert forall|x: (SocketAddr, W)| x.0 != queue[n].0 implies (
        #[trigger] final(sim).workers().contains(x) == workers.contains(x)) by {
            law_worker_is_put_at_its_address(workers, queue[n].0, queue[n].1, x);
        }
    } else {
        law_nobody_joins_early(workers, queue, elapsed);
    }
}

/// A worker that is added takes part at its address, in place of one that was
/// there; all others stay, and the queue does too.
pub proof fn law_add_worker_puts_it_at_its_address<W>(
    sim: &mut WorkerSim<W>,
    addr: SocketAddr,
    worker: W,
    other: (SocketAddr, W),
)
    requires
        old(sim).wf(),
        call_ensures(WorkerSim::<W>::add_worker, (sim, addr, worker), ()),
    ensures
        final(sim).workers().contains((addr, worker)),
        other.0 == addr && final(sim).workers().contains(other) ==> other.1 == worker,
        other.0 != addr ==> (final(sim).workers().contains(other) == old(sim).workers().contains(
            other,
        )),
        final(sim).queue() == old(sim).queue(),
        final(sim).bootstrap() == old(sim).bootstrap(),
{
    law_worker_is_put_at_its_address(old(sim).workers(), addr, worker, other);
}

/// A new worker is queued, at the end, with its delay.
pub proof fn law_add_new_worker_queues_it<W>(
    sim: &mut WorkerSim<W>,
    addr: SocketAddr,
    worker: W,
    delay: u128,
)
    requires
        call_ensures(WorkerSim::<W>::add_new_worker, (sim, addr, worker, delay), ()),
    ensures
        final(sim).queue() == old(sim).queue().push((addr, worker, delay)),
        final(sim).workers() == old(sim).workers(),
        final(sim).bootstrap() == old(sim).bootstrap(),
{
}

/// Sorting puts the longest delays first, loses nobody and adds nobody, and
/// leaves those with one delay in their order.
pub proof fn law_sort_queue_sorts<W>(
    sim: &mut WorkerSim<W>,
    entry: (SocketAddr, W, u128),
    delay: u128,
    i: int,
    j: int,
)
    requires
        call_ensures(WorkerSim::<W>::sort_queue, (sim,), ()),
    ensures
        0 <= i < j < final(sim).queue().len() ==> final(sim).queue()[i].2
            >= final(sim).queue()[j].2,
        final(sim).queue().len() == old(sim).queue().len(),
        final(sim).queue().contains(entry) == old(sim).queue().contains(entry),
        final(sim).queue().filter(|e: (SocketAddr, W, u128)| e.2 == delay)
            == old(sim).queue().filter(|e: (SocketAddr, W, u128)| e.2 == delay),
        final(sim).workers() == old(sim).workers(),
{
    law_sorting_keeps_everybody(old(sim).queue(), final(sim).queue(), entry, delay);
}

/// A new worker turns to the bootstrap peer first, if there is one: with a ping,
/// and with a question about itself.
pub proof fn law_bootstrap_peer_is_asked<W>(
    sim: WorkerSim<W>,
    id: PeerId,
    r: Vec<(SocketAddr, Message)>,
)
    requires
        call_ensures(WorkerSim::<W>::bootstrap_messages, (&sim, id), r),
    ensures
        sim.bootstrap() is None ==> r@.len() == 0,
        sim.bootstrap() matches Some(to) ==> {
            &&& r@.len() == 2
            &&& r@[0] == (to, Message::Ping { id })
            &&& r@[1] == (to, Message::FindPeer { id })
        },
{
}

/// Messages reach the workers that they are for, told by what goes in and comes
/// out: one delivery for each message whose destination has a worker, in order,
/// to that worker, with its source and its text, and no other.
pub proof fn law_deliveries_reach_the_workers<W>(
    sim: WorkerSim<W>,
    messages: Vec<(SocketAddr, SocketAddr, Message)>,
    r: Vec<(usize, SocketAddr, Message)>,
    i: int,
)
    requires
        sim.wf(),
        sim.workers().len() <= usize::MAX,
        call_ensures(WorkerSim::<W>::deliveries, (&sim, messages), r),
    ensures
        ({
            let known = messages@.filter(
                |m: (SocketAddr, SocketAddr, Message)|
                    exists|k: int|
                        0 <= k < sim.workers().len() && (#[trigger] sim.workers()[k]).0 == m.1,
            );
            &&& r@.len() == known.len()
            &&& 0 <= i < r@.len() ==> {
                &&& r@[i].0 < sim.workers().len()
                &&& sim.workers()[r@[i].0 as int].0 == known[i].1
                &&& r@[i].1 == known[i].0
                &&& r@[i].2 == known[i].2
            }
        }),
{
    let p = |m: (SocketAddr, SocketAddr, Message)|
        exists|k: int| 0 <= k < sim.workers().len() && (#[trigger] sim.workers()[k]).0 == m.1;
    assert(is_deliverable(sim.workers()) =~= p);
    law_messages_are_delivered_once(sim.workers(), messages@);
}

/// The place of the worker at an address, if there is one.
pub proof fn law_recipient_is_the_worker_there<W>(
    sim: WorkerSim<W>,
    dest: SocketAddr,
    r: Option<usize>,
    k: int,
)
    requires
        sim.wf(),
        call_ensures(WorkerSim::<W>::recipient, (&sim, dest), r),
    ensures
        r matches Some(i) ==> i < sim.workers().len() && sim.workers()[i as int].0 == dest,
        0 <= k < sim.workers().len() && sim.workers()[k].0 == dest ==> r is Some,
{
}

} // verus!
