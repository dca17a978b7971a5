use crate::event_type::{EventType, Uid};
use vstd::prelude::*;

verus! {

/// A live connection and the identifier it was given.
pub struct Connection<S> {
    pub uid: Uid,
    pub stream: S,
}

/// The result of one non-blocking read on a connection.
#[derive(Debug, Clone, PartialEq, Eq)]
pub enum ReadOutcome {
    /// Some bytes arrived.
    Received(Vec<u8>),
    /// The read returned zero bytes: the peer shut the connection down.
    Closed,
    /// Nothing to read yet.
    WouldBlock,
    /// Any other read error; the peer is dropped as if it had closed.
    Failed,
}

/// Whether the outcome ends the connection.
pub open spec fn closes(o: ReadOutcome) -> bool {
    o is Closed || o is Failed
}

/// The events for the bytes received in the first `i` reads, in order.
pub open spec fn said_upto(uids: Seq<Uid>, reads: Seq<ReadOutcome>, i: int) -> Seq<EventType>
    decreases i,
{
    if i <= 0 {
        seq![]
    } else {
        let before = said_upto(uids, reads, i - 1);
        match reads[i - 1] {
            ReadOutcome::Received(bytes) => before.push(EventType::PlayerSay(uids[i - 1], bytes)),
            _ => before,
        }
    }
}

/// The disconnect events for the connections closed at index `k` or later,
/// highest index first.
pub open spec fn farewells_from(uids: Seq<Uid>, reads: Seq<ReadOutcome>, k: int) -> Seq<
    EventType,
>
    decreases reads.len() - k,
{
    if k < 0 || k >= reads.len() {
        seq![]
    } else {
        let later = farewells_from(uids, reads, k + 1);
        if closes(reads[k]) {
            later.push(EventType::PlayerDisconnect(uids[k]))
        } else {
            later
        }
    }
}

/// The connections at index `k` or later that stay open, in order.
pub open spec fn kept_from<S>(conns: Seq<Connection<S>>, reads: Seq<ReadOutcome>, k: int) -> Seq<
    Connection<S>,
>
    decreases reads.len() - k,
{
    if k < 0 || k >= reads.len() {
        seq![]
    } else {
        let rest = kept_from(conns, reads, k + 1);
        if closes(reads[k]) {
            rest
        } else {
            seq![conns[k]] + rest
        }
    }
}

/// All events of one poll cycle: what was received, in connection order,
/// then one disconnect per closed connection, in reverse connection order.
pub open spec fn poll_events(uids: Seq<Uid>, reads: Seq<ReadOutcome>) -> Seq<EventType> {
    said_upto(uids, reads, reads.len() as int) + farewells_from(uids, reads, 0)
}

pub open spec fn uids_of<S>(conns: Seq<Connection<S>>) -> Seq<Uid> {
    conns.map_values(|c: Connection<S>| c.uid)
}

/// Identifiers are strictly increasing along the sequence and below `bound`.
pub open spec fn ordered_below(uids: Seq<Uid>, bound: Uid) -> bool {
    &&& forall|i: int, j: int| 0 <= i < j < uids.len() ==> uids[i] < uids[j]
    &&& forall|i: int| 0 <= i < uids.len() ==> uids[i] < bound
}

/// The connections that stay open keep their order, so their identifiers
/// stay strictly increasing.
pub proof fn lemma_kept_ordered<S>(
    conns: Seq<Connection<S>>,
    reads: Seq<ReadOutcome>,
    k: int,
    bound: Uid,
)
    requires
        ordered_below(uids_of(conns), bound),
        conns.len() == reads.len(),
        0 <= k <= reads.len(),
    ensures
        ordered_below(uids_of(kept_from(conns, reads, k)), bound),
        forall|i: int|
            0 <= i < kept_from(conns, reads, k).len() && k > 0 ==> #[trigger] kept_from(
                conns,
                reads,
                k,
            )[i].uid > conns[k - 1].uid,
    decreases reads.len() - k,
{
    if k < reads.len() {
        lemma_kept_ordered(conns, reads, k + 1, bound);
        let rest = kept_from(conns, reads, k + 1);
        let kept = kept_from(conns, reads, k);
        assert(uids_of(conns)[k] == conns[k].uid);
        if k > 0 {
            assert(uids_of(conns)[k - 1] == conns[k - 1].uid);
        }
        if !closes(reads[k]) {
            assert forall|i: int| 0 < i < kept.len() implies #[trigger] kept[i] == rest[i - 1] by {}
        }
        let ku = uids_of(kept);
        let ru = uids_of(rest);
        assert forall|i: int| 0 <= i < ku.len() implies #[trigger] ku[i] == kept[i].uid by {}
        assert forall|i: int| 0 <= i < ru.len() implies #[trigger] ru[i] == rest[i].uid by {}
        assert forall|i: int, j: int| 0 <= i < j < ku.len() implies ku[i] < ku[j] by {
            if !closes(reads[k]) && i == 0 {
                assert(ku[j] == rest[j - 1].uid);
            } else if !closes(reads[k]) {
                assert(ku[i] == ru[i - 1]);
                assert(ku[j] == ru[j - 1]);
            }
        }
        assert forall|i: int| 0 <= i < ku.len() implies ku[i] < bound by {
            if !closes(reads[k]) && i > 0 {
                assert(ku[i] == ru[i - 1]);
            }
        }
        assert(ordered_below(ku, bound));
    }
}

/// The events of `events` that concern the player `u`, in order.
pub open spec fn events_for(events: Seq<EventType>, u: Uid) -> Seq<EventType> {
    events.filter(|e: EventType| e.uid() == u)
}

/// The events that one read on the connection of `u` calls for.
pub open spec fn read_events(u: Uid, o: ReadOutcome) -> Seq<EventType> {
    match o {
        ReadOutcome::Received(bytes) => seq![EventType::PlayerSay(u, bytes)],
        ReadOutcome::WouldBlock => seq![],
        _ => seq![EventType::PlayerDisconnect(u)],
    }
}

pub open spec fn distinct(uids: Seq<Uid>) -> bool {
    forall|i: int, j: int| 0 <= i < uids.len() && 0 <= j < uids.len() && i != j ==> uids[i] != uids[j]
}

proof fn lemma_events_for_push(s: Seq<EventType>, x: EventType, u: Uid)
    ensures
        events_for(s.push(x), u) == if x.uid() == u {
            events_for(s, u).push(x)
        } else {
            events_for(s, u)
        },
{
    reveal(Seq::filter);
    assert(s.push(x).drop_last() =~= s);
}

proof fn lemma_said_for(uids: Seq<Uid>, reads: Seq<ReadOutcome>, i: int, k: int)
    requires
        distinct(uids),
        uids.len() == reads.len(),
        0 <= i <= reads.len(),
        0 <= k < reads.len(),
    ensures
        events_for(said_upto(uids, reads, i), uids[k]) == if k < i && reads[k] is Received {
            seq![EventType::PlayerSay(uids[k], reads[k]->Received_0)]
        } else {
            seq![]
        },
    decreases i,
{
    reveal(Seq::filter);
    if i > 0 {
        lemma_said_for(uids, reads, i - 1, k);
        let before = said_upto(uids, reads, i - 1);
        match reads[i - 1] {
            ReadOutcome::Received(bytes) => {
                lemma_events_for_push(before, EventType::PlayerSay(uids[i - 1], bytes), uids[k]);
            },
            _ => {},
        }
    }
}

proof fn lemma_farewells_for(uids: Seq<Uid>, reads: Seq<ReadOutcome>, j: int, k: int)
    requires
        distinct(uids),
        uids.len() == reads.len(),
        0 <= j <= reads.len(),
        0 <= k < reads.len(),
    ensures
        events_for(farewells_from(uids, reads, j), uids[k]) == if k >= j && closes(reads[k]) {
            seq![EventType::PlayerDisconnect(uids[k])]
        } else {
            seq![]
        },
    decreases reads.len() - j,
{
    reveal(Seq::filter);
    if j < reads.len() {
        lemma_farewells_for(uids, reads, j + 1, k);
        let later = farewells_from(uids, reads, j + 1);
        if closes(reads[j]) {
            lemma_events_for_push(later, EventType::PlayerDisconnect(uids[j]), uids[k]);
        }
    }
}

/// In one poll cycle each live peer gets exactly the events of its own read:
/// none is dropped or duplicated, and none is mixed up with another peer's.
pub proof fn lemma_poll_events_per_peer(
    uids: Seq<Uid>,
    reads: Seq<ReadOutcome>,
    k: int,
    counter: Uid,
)
    requires
        ordered_below(uids, counter),
        uids.len() == reads.len(),
        0 <= k < reads.len(),
    ensures
        events_for(poll_events(uids, reads), uids[k]) == read_events(uids[k], reads[k]),
{
    assert forall|i: int, j: int|
        0 <= i < uids.len() && 0 <= j < uids.len() && i != j implies uids[i] != uids[j] by {
        if i < j {
            assert(uids[i] < uids[j]);
        } else {
            assert(uids[j] < uids[i]);
        }
    }
    lemma_said_for(uids, reads, reads.len() as int, k);
    lemma_farewells_for(uids, reads, 0, k);
    Seq::filter_distributes_over_add(
        said_upto(uids, reads, reads.len() as int),
        farewells_from(uids, reads, 0),
        |e: EventType| e.uid() == uids[k],
    );
    assert(events_for(poll_events(uids, reads), uids[k]) =~= read_events(uids[k], reads[k]));
}

proof fn lemma_kept_members<S>(conns: Seq<Connection<S>>, reads: Seq<ReadOutcome>, k: int)
    requires
        conns.len() == reads.len(),
        0 <= k <= reads.len(),
    ensures
        forall|i: int|
            0 <= i < kept_from(conns, reads, k).len() ==> exists|j: int|
                k <= j < reads.len() && !closes(reads[j]) && #[trigger] kept_from(
                    conns,
                    reads,
                    k,
                )[i] == conns[j],
    decreases reads.len() - k,
{
    if k < reads.len() {
        lemma_kept_members(conns, reads, k + 1);
        let rest = kept_from(conns, reads, k + 1);
        let kept = kept_from(conns, reads, k);
        assert forall|i: int| 0 <= i < kept.len() implies exists|j: int|
            k <= j < reads.len() && !closes(reads[j]) && #[trigger] kept[i] == conns[j] by {
            if closes(reads[k]) {
                assert(kept[i] == rest[i]);
            } else if i == 0 {
                assert(kept[0] == conns[k]);
            } else {
                assert(kept[i] == rest[i - 1]);
            }
        }
    }
}

/// A connection that closes during a poll cycle is gone afterwards, and its
/// identifier lies below the counter, so it is never handed out again: its
/// disconnect is the last event that names it.
pub proof fn lemma_departed_never_return<S>(
    conns: Seq<Connection<S>>,
    reads: Seq<ReadOutcome>,
    k: int,
    counter: Uid,
)
    requires
        ordered_below(uids_of(conns), counter),
        conns.len() == reads.len(),
        0 <= k < reads.len(),
        closes(reads[k]),
    ensures
        !uids_of(kept_from(conns, reads, 0)).contains(conns[k].uid),
        conns[k].uid < counter,
{
    let kept = kept_from(conns, reads, 0);
    let all = uids_of(conns);
    assert(all[k] == conns[k].uid);
    lemma_kept_members(conns, reads, 0);
    if uids_of(kept).contains(conns[k].uid) {
        let i = choose|i: int| 0 <= i < uids_of(kept).len() && uids_of(kept)[i] == conns[k].uid;
        assert(uids_of(kept)[i] == kept[i].uid);
        let j = choose|j: int| 0 <= j < reads.len() && !closes(reads[j]) && kept[i] == conns[j];
        assert(all[j] == conns[j].uid);
        assert(j != k);
    }
}

/// The live connections, and the identifiers handed out so far.
pub struct ConnectionHolder<S> {
    connection_counter: Uid,
    players: Vec<Connection<S>>,
}

impl<S> ConnectionHolder<S> {
    /// The identifier that the next connection receives.
    pub closed spec fn counter(&self) -> Uid {
        self.connection_counter
    }

    /// The live connections, oldest first.
    pub closed spec fn connections(&self) -> Seq<Connection<S>> {
        self.players@
    }

    pub open spec fn uids(&self) -> Seq<Uid> {
        uids_of(self.connections())
    }

    /// Every live identifier is unique and was handed out before.
    pub open spec fn wf(&self) -> bool {
        ordered_below(self.uids(), self.counter())
    }

    pub fn new() -> (r: ConnectionHolder<S>)
        ensures
            r.wf(),
            r.counter() == 0,
            r.connections() == Seq::<Connection<S>>::empty(),
    {
        ConnectionHolder { connection_counter: 0, players: Vec::new() }
    }

    /// The number of live connections.
    pub fn len(&self) -> (r: usize)
        ensures
            r == self.connections().len(),
    {
        self.players.len()
    }

    /// One poll cycle, after each live connection has been read once:
    /// `reads[i]` is what the read on the `i`-th connection gave. Reports the
    /// received bytes in connection order, then drops the closed connections
    /// in reverse index order, reporting each as it goes.
    pub fn process_reads(&mut self, reads: Vec<ReadOutcome>) -> (events: Vec<EventType>)
        requires
            old(self).wf(),
            reads@.len() == old(self).connections().len(),
        ensures
            final(self).wf(),
            final(self).counter() == old(self).counter(),
            final(self).connections() == kept_from(old(self).connections(), reads@, 0),
            events@ == poll_events(old(self).uids(), reads@),
    {
        let ghost conns0 = self.players@;
        let ghost uids0 = uids_of(conns0);
        let ghost reads0 = reads@;
        let n = reads.len();
        let mut reads = reads;
        let mut events: Vec<EventType> = Vec::new();
        let mut closed: Vec<bool> = Vec::new();
        let mut i: usize = 0;
        while i < n
            invariant
                i <= n,
                n == reads0.len(),
                reads@.len() == n,
                conns0.len() == n,
                self.players@ == conns0,
                self.connection_counter == old(self).connection_counter,
                uids0 == uids_of(conns0),
                forall|j: int| i <= j < n ==> reads@[j] == reads0[j],
                closed@.len() == i,
                forall|j: int| 0 <= j < i ==> closed@[j] == closes(reads0[j]),
                events@ == said_upto(uids0, reads0, i as int),
            decreases n - i,
        {
            let mut read = ReadOutcome::WouldBlock;
            std::mem::swap(&mut reads[i], &mut read);
            assert(uids0[i as int] == conns0[i as int].uid);
            match read {
                ReadOutcome::Received(bytes) => {
                    events.push(EventType::PlayerSay(self.players[i].uid, bytes));
                    closed.push(false);
                },
                ReadOutcome::WouldBlock => {
                    closed.push(false);
                },
                _ => {
                    closed.push(true);
                },
            }
            i = i + 1;
        }
        let ghost said = events@;
        let mut kept_rev: Vec<Connection<S>> = Vec::new();
        let mut k: usize = n;
        while k > 0
            invariant
                k <= n,
                n == reads0.len(),
                conns0.len() == n,
                self.players@ == conns0.take(k as int),
                self.connection_counter == old(self).connection_counter,
                uids0 == uids_of(conns0),
                closed@.len() == n,
                forall|j: int| 0 <= j < n ==> closed@[j] == closes(reads0[j]),
                events@ == said + farewells_from(uids0, reads0, k as int),
                kept_rev@.len() == kept_from(conns0, reads0, k as int).len(),
                forall|j: int|
                    0 <= j < kept_rev@.len() ==> #[trigger] kept_rev@[j] == kept_from(
                        conns0,
                        reads0,
                        k as int,
                    )[kept_rev@.len() - 1 - j],
            decreases k,
        {
            let conn = self.players.pop().unwrap();
            k = k - 1;
            assert(conn == conns0[k as int]);
            assert(uids0[k as int] == conn.uid);
            assert(self.players@ =~= conns0.take(k as int));
            let ghost before = kept_rev@;
            if closed[k] {
                events.push(EventType::PlayerDisconnect(conn.uid));
            } else {
                kept_rev.push(conn);
                assert forall|j: int| 0 <= j < kept_rev@.len() implies #[trigger] kept_rev@[j]
                    == kept_from(conns0, reads0, k as int)[kept_rev@.len() - 1 - j] by {
                    if j < before.len() {
                        assert(kept_rev@[j] == before[j]);
                    }
                }
            }
        }
        let ghost kept = kept_from(conns0, reads0, 0);
        assert(self.players@.len() == 0);
        while kept_rev.len() > 0
            invariant
                self.players@.len() + kept_rev@.len() == kept.len(),
                forall|j: int| 0 <= j < self.players@.len() ==> #[trigger] self.players@[j] == kept[j],
                forall|j: int|
                    0 <= j < kept_rev@.len() ==> #[trigger] kept_rev@[j] == kept[kept.len() - 1 - j],
                self.connection_counter == old(self).connection_counter,
            decreases kept_rev@.len(),
        {
            let c = kept_rev.pop().unwrap();
            self.players.push(c);
        }
        assert(self.players@ =~= kept);
        proof {
            lemma_kept_ordered(conns0, reads0, 0, self.connection_counter);
        }
        events
    }

    /// The index of the live connection with identifier `uid`, if any.
    pub fn position_of(&self, uid: Uid) -> (r: Option<usize>)
        requires
            self.wf(),
        ensures
            match r {
                Some(i) => i < self.uids().len() && self.uids()[i as int] == uid,
                None => !self.uids().contains(uid),
            },
    {
        let mut i: usize = 0;
        while i < self.players.len()
            invariant
                i <= self.players@.len(),
                forall|j: int| 0 <= j < i ==> #[trigger] self.uids()[j] != uid,
            decreases self.players@.len() - i,
        {
            assert(self.uids()[i as int] == self.players@[i as int].uid);
            if self.players[i].uid == uid {
                return Some(i);
            }
            i = i + 1;
        }
        None
    }

    /// The stream of the `i`-th live connection, to read from or write to.
    pub fn stream_mut(&mut self, i: usize) -> (r: &mut S)
        requires
            i < old(self).connections().len(),
        ensures
            *r == old(self).connections()[i as int].stream,
            final(self).counter() == old(self).counter(),
            final(self).uids() == old(self).uids(),
            final(self).connections() == old(self).connections().update(
                i as int,
                Connection { uid: old(self).connections()[i as int].uid, stream: *final(r) },
            ),
    {
        &mut self.players[i].stream
    }

    /// Gives a newly accepted connection the next identifier and reports it.
    /// Once every identifier has been handed out, the connection is dropped.
    pub fn try_register_new_connection(&mut self, stream: S) -> (r: Option<EventType>)
        requires
            old(self).wf(),
        ensures
            final(self).wf(),
            old(self).counter() < u32::MAX ==> {
                &&& r == Some(EventType::PlayerConnect(old(self).counter()))
                &&& final(self).counter() == old(self).counter() + 1
                &&& final(self).connections() == old(self).connections().push(
                    Connection { uid: old(self).counter(), stream },
                )
            },
            old(self).counter() == u32::MAX ==> {
                &&& r is None
                &&& final(self).counter() == old(self).counter()
                &&& final(self).connections() == old(self).connections()
            },
    {
        if self.connection_counter == u32::MAX {
            return None;
        }
        let uid = self.connection_counter;
        self.connection_counter = self.connection_counter + 1;
        self.players.push(Connection { uid, stream });
        assert(self.uids() =~= old(self).uids().push(uid));
        Some(EventType::PlayerConnect(uid))
    }
}

} // verus!
