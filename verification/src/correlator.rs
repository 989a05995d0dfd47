//! Matching replies to the requests that caused them.
//!
//! A connection hands every request the next value of one counter, its
//! sequence number. A request that expects a wire reply leaves a pending slot
//! under that number; the receive path later looks the number up and removes
//! the slot in the same step, so that a slot is resolved once and never
//! reused. The slot carries a handle chosen by the caller, typically the
//! sending half of a one-shot channel, which comes back with the outcome.
//!
//! Nothing here performs I/O: the functions decide, and the caller writes,
//! reads and wakes.

use crate::error::{CredentialError, Error, ValidationError};
use crate::protocol::{Arrival, Reply, ReplyKind};
use crate::xauth::Xauth;
use vstd::prelude::*;

verus! {

/// The life of a connection. It only ever moves forward.
#[derive(Clone, Copy, Debug, PartialEq, Eq, Structural)]
pub enum Phase {
    /// The stream is open; the connection is not established yet.
    Open,
    /// Requests can be sent.
    Active,
    /// The connection is gone.
    Closed,
}

/// One outstanding request.
#[derive(Debug, PartialEq, Eq)]
pub struct PendingSlot<S> {
    /// The sequence number the request was sent under.
    pub sequence: u64,
    /// What the caller left to be handed back with the outcome.
    pub handle: S,
    /// Whether the caller has lost interest in the outcome.
    pub abandoned: bool,
}

/// What became of a request that was submitted.
#[derive(Debug, PartialEq, Eq)]
pub enum Dispatch<S> {
    /// The request has no wire reply: once written it is answered by `reply`.
    Immediate { sequence: u64, handle: S, reply: Reply },
    /// The request waits for its reply under this sequence number.
    Registered { sequence: u64 },
    /// The request was not accepted; nothing is to be written.
    Refused { handle: S, error: Error },
}

/// What became of something that arrived, or of a slot at closure.
#[derive(Debug, PartialEq, Eq)]
pub enum Resolution<S> {
    /// The outcome goes to the holder of `handle`.
    Deliver { sequence: u64, handle: S, outcome: Result<Reply, Error> },
    /// The slot was abandoned: the outcome is dropped.
    Discard { sequence: u64, handle: S },
    /// No slot waits under this sequence number.
    Unmatched,
}

impl<S> Resolution<S> {
    /// The sequence number of the slot that was resolved.
    pub open spec fn sequence(self) -> Option<u64> {
        match self {
            Resolution::Deliver { sequence, .. } => Some(sequence),
            Resolution::Discard { sequence, .. } => Some(sequence),
            Resolution::Unmatched => None,
        }
    }
}

/// The outcome that an arrival stands for: a reply is passed on as it came,
/// an error reply becomes a rejection.
pub open spec fn outcome_of(arrival: Arrival) -> Result<Reply, Error> {
    match arrival {
        Arrival::Reply(bytes) => Ok(Reply::Payload(bytes)),
        Arrival::Error(code) => Err(Error::Protocol(code)),
    }
}

/// What is done with a slot once its outcome is known.
pub open spec fn settle<S>(slot: PendingSlot<S>, outcome: Result<Reply, Error>) -> Resolution<S> {
    if slot.abandoned {
        Resolution::Discard { sequence: slot.sequence, handle: slot.handle }
    } else {
        Resolution::Deliver { sequence: slot.sequence, handle: slot.handle, outcome }
    }
}

/// The state of a connection as a mathematical value.
#[verifier::ext_equal]
pub struct Table<S> {
    pub phase: Phase,
    pub next_sequence: u64,
    pub pending: Map<u64, PendingSlot<S>>,
}

impl<S> Table<S> {
    /// Every slot stands under its own sequence number, that number has been
    /// handed out already, and only an active connection has slots.
    pub open spec fn wf(self) -> bool {
        &&& forall|k: u64| #[trigger]
            self.pending.contains_key(k) ==> k < self.next_sequence && self.pending[k].sequence
                == k
        &&& self.phase != Phase::Active ==> self.pending == Map::<u64, PendingSlot<S>>::empty()
        &&& self.pending.dom().finite()
    }

    /// A connection that has just been opened and whose first request will
    /// get the sequence number `first`.
    pub open spec fn starting_at(first: u64) -> Table<S> {
        Table { phase: Phase::Open, next_sequence: first, pending: Map::empty() }
    }

    /// A connection that has just been opened: requests are counted from 1.
    pub open spec fn initial() -> Table<S> {
        Table::starting_at(1)
    }

    /// Establishing: an open connection becomes active if the credential
    /// lookup succeeded, and stays open if it failed.
    pub open spec fn establish(self, credential: Result<Xauth, CredentialError>) -> (
        Table<S>,
        Result<(), Error>,
    ) {
        match self.phase {
            Phase::Closed => (self, Err(Error::ConnectionClosed)),
            Phase::Active => (self, Err(Error::Validation(ValidationError::AlreadyActive))),
            Phase::Open => match credential {
                Err(e) => (self, Err(Error::Credential(e))),
                Ok(_) => (Table { phase: Phase::Active, ..self }, Ok(())),
            },
        }
    }

    /// Submitting a request: an active connection hands out its next sequence
    /// number; a request with a wire reply leaves a slot under it.
    pub open spec fn register(self, kind: ReplyKind, handle: S) -> (Table<S>, Dispatch<S>) {
        match self.phase {
            Phase::Open => (
                self,
                Dispatch::Refused { handle, error: Error::Validation(ValidationError::NotActive) },
            ),
            Phase::Closed => (self, Dispatch::Refused { handle, error: Error::ConnectionClosed }),
            Phase::Active => if self.next_sequence == u64::MAX {
                (
                    self,
                    Dispatch::Refused {
                        handle,
                        error: Error::Validation(ValidationError::SequenceExhausted),
                    },
                )
            } else {
                let sequence = self.next_sequence;
                let next = (sequence + 1) as u64;
                match kind {
                    ReplyKind::Implicit => (
                        Table { next_sequence: next, ..self },
                        Dispatch::Immediate { sequence, handle, reply: Reply::Void },
                    ),
                    ReplyKind::Wire => (
                        Table {
                            next_sequence: next,
                            pending: self.pending.insert(
                                sequence,
                                PendingSlot { sequence, handle, abandoned: false },
                            ),
                            ..self
                        },
                        Dispatch::Registered { sequence },
                    ),
                }
            },
        }
    }

    /// Submitting what the encoder produced: a request that could not be
    /// encoded is refused with the encoder's error and consumes no sequence
    /// number; any other request is registered, and its bytes are to be
    /// written unless the registration is refused.
    pub open spec fn submit(self, encoded: Result<Vec<u8>, Error>, kind: ReplyKind, handle: S) -> (
        Table<S>,
        Dispatch<S>,
        Option<Vec<u8>>,
    ) {
        match encoded {
            Err(error) => (self, Dispatch::Refused { handle, error }, None),
            Ok(bytes) => {
                let (next, dispatch) = self.register(kind, handle);
                if dispatch is Refused {
                    (next, dispatch, None)
                } else {
                    (next, dispatch, Some(bytes))
                }
            },
        }
    }

    /// An arrival: the slot under its sequence number, if there is one, is
    /// taken out of the table and settled.
    pub open spec fn resolve(self, sequence: u64, arrival: Arrival) -> (Table<S>, Resolution<S>) {
        if self.pending.contains_key(sequence) {
            (
                Table { pending: self.pending.remove(sequence), ..self },
                settle(self.pending[sequence], outcome_of(arrival)),
            )
        } else {
            (self, Resolution::Unmatched)
        }
    }

    /// A caller loses interest: the slot is marked and stays.
    pub open spec fn abandon(self, sequence: u64) -> (Table<S>, bool) {
        if self.pending.contains_key(sequence) {
            (
                Table {
                    pending: self.pending.insert(
                        sequence,
                        PendingSlot { abandoned: true, ..self.pending[sequence] },
                    ),
                    ..self
                },
                true,
            )
        } else {
            (self, false)
        }
    }

    /// Closure: no slot is left.
    pub open spec fn close(self) -> Table<S> {
        Table { phase: Phase::Closed, pending: Map::empty(), ..self }
    }

    /// Every step leads from a well-formed table to a well-formed table.
    pub proof fn lemma_steps_keep_wf(
        self,
        credential: Result<Xauth, CredentialError>,
        kind: ReplyKind,
        handle: S,
        sequence: u64,
        arrival: Arrival,
    )
        requires
            self.wf(),
        ensures
            Table::<S>::initial().wf(),
            self.establish(credential).0.wf(),
            self.register(kind, handle).0.wf(),
            self.resolve(sequence, arrival).0.wf(),
            self.abandon(sequence).0.wf(),
            self.close().wf(),
    {
        if self.phase != Phase::Active {
            assert(!self.pending.contains_key(sequence));
        }
    }

    /// Sequence numbers only grow, and a connection never goes back to an
    /// earlier phase.
    pub proof fn lemma_steps_move_forward(
        self,
        credential: Result<Xauth, CredentialError>,
        kind: ReplyKind,
        handle: S,
        sequence: u64,
        arrival: Arrival,
    )
        ensures
            self.establish(credential).0.next_sequence == self.next_sequence,
            self.register(kind, handle).0.next_sequence >= self.next_sequence,
            self.register(kind, handle).1 is Refused <==> self.register(kind, handle).0 == self,
            self.register(kind, handle).1 !is Refused ==> self.register(
                kind,
                handle,
            ).0.next_sequence == self.next_sequence + 1,
            self.resolve(sequence, arrival).0.next_sequence == self.next_sequence,
            self.resolve(sequence, arrival).0.phase == self.phase,
            self.abandon(sequence).0.next_sequence == self.next_sequence,
            self.abandon(sequence).0.phase == self.phase,
            self.close().next_sequence == self.next_sequence,
            self.phase == Phase::Closed ==> self.establish(credential).0.phase == Phase::Closed
                && self.register(kind, handle).0.phase == Phase::Closed,
    {
    }
}

/// A request with a wire reply is answered exactly once. The reply that
/// arrives under its sequence number is delivered, unchanged, with the
/// request's handle; the slot is gone afterwards, so that whatever arrives
/// under that number again finds nothing; and no other slot is touched.
pub proof fn lemma_reply_resolves_exactly_once<S>(
    table: Table<S>,
    handle: S,
    payload: Vec<u8>,
    again: Arrival,
)
    requires
        table.wf(),
        table.phase == Phase::Active,
        table.next_sequence < u64::MAX,
    ensures
        ({
            let sequence = table.next_sequence;
            let (registered, dispatch) = table.register(ReplyKind::Wire, handle);
            let (resolved, first) = registered.resolve(sequence, Arrival::Reply(payload));
            let (after, second) = resolved.resolve(sequence, again);
            &&& dispatch == Dispatch::<S>::Registered { sequence }
            &&& first == Resolution::Deliver {
                sequence,
                handle,
                outcome: Ok::<Reply, Error>(Reply::Payload(payload)),
            }
            &&& second == Resolution::<S>::Unmatched
            &&& after == resolved
            &&& resolved.pending == table.pending
        }),
{
    let sequence = table.next_sequence;
    let registered = table.register(ReplyKind::Wire, handle).0;
    let resolved = registered.resolve(sequence, Arrival::Reply(payload)).0;
    assert(!table.pending.contains_key(sequence));
    assert(resolved.pending =~= table.pending);
}

/// An error reply rejects the request it belongs to and nothing else: the
/// rejection is delivered with the request's handle and the connection stays
/// as it was, less that one slot.
pub proof fn lemma_error_reply_rejects_one<S>(table: Table<S>, sequence: u64, code: u8)
    requires
        table.wf(),
        table.pending.contains_key(sequence),
        !table.pending[sequence].abandoned,
    ensures
        ({
            let (after, resolution) = table.resolve(sequence, Arrival::Error(code));
            &&& resolution == Resolution::Deliver {
                sequence,
                handle: table.pending[sequence].handle,
                outcome: Err::<Reply, Error>(Error::Protocol(code)),
            }
            &&& after.phase == table.phase
            &&& after.pending == table.pending.remove(sequence)
        }),
{
}

/// A request that is refused before encoding leaves no trace: no sequence
/// number is consumed, no slot is made and nothing is to be written.
pub proof fn lemma_refused_request_leaves_no_trace<S>(
    table: Table<S>,
    error: Error,
    kind: ReplyKind,
    handle: S,
)
    ensures
        table.submit(Err::<Vec<u8>, Error>(error), kind, handle) == (
            table,
            Dispatch::Refused { handle, error },
            None::<Vec<u8>>,
        ),
{
}

/// A request without a wire reply is answered at once with the payload-free
/// reply and leaves no slot behind.
pub proof fn lemma_implicit_reply_is_immediate<S>(table: Table<S>, handle: S)
    requires
        table.phase == Phase::Active,
        table.next_sequence < u64::MAX,
    ensures
        ({
            let (after, dispatch) = table.register(ReplyKind::Implicit, handle);
            &&& dispatch == Dispatch::Immediate {
                sequence: table.next_sequence,
                handle,
                reply: Reply::Void,
            }
            &&& after.pending == table.pending
        }),
{
}

/// Two requests sent back to back get increasing sequence numbers, and their
/// replies find them in whichever order they arrive: each handle gets the
/// outcome that arrived under its own number, and the table ends up the same.
pub proof fn lemma_replies_in_any_order<S>(
    table: Table<S>,
    first_handle: S,
    second_handle: S,
    first_arrival: Arrival,
    second_arrival: Arrival,
)
    requires
        table.wf(),
        table.phase == Phase::Active,
        table.next_sequence + 1 < u64::MAX,
    ensures
        ({
            let (one, first_dispatch) = table.register(ReplyKind::Wire, first_handle);
            let (two, second_dispatch) = one.register(ReplyKind::Wire, second_handle);
            let first = table.next_sequence;
            let second = (table.next_sequence + 1) as u64;
            let (in_order_mid, in_order_first) = two.resolve(first, first_arrival);
            let (in_order_end, in_order_second) = in_order_mid.resolve(second, second_arrival);
            let (swapped_mid, swapped_second) = two.resolve(second, second_arrival);
            let (swapped_end, swapped_first) = swapped_mid.resolve(first, first_arrival);
            &&& first_dispatch == Dispatch::<S>::Registered { sequence: first }
            &&& second_dispatch == Dispatch::<S>::Registered { sequence: second }
            &&& first < second
            &&& in_order_first == Resolution::Deliver {
                sequence: first,
                handle: first_handle,
                outcome: outcome_of(first_arrival),
            }
            &&& in_order_second == Resolution::Deliver {
                sequence: second,
                handle: second_handle,
                outcome: outcome_of(second_arrival),
            }
            &&& swapped_first == in_order_first
            &&& swapped_second == in_order_second
            &&& swapped_end == in_order_end
            &&& in_order_end.pending == table.pending
        }),
{
    let first = table.next_sequence;
    let second = (table.next_sequence + 1) as u64;
    let one = table.register(ReplyKind::Wire, first_handle).0;
    let two = one.register(ReplyKind::Wire, second_handle).0;
    let in_order_mid = two.resolve(first, first_arrival).0;
    let in_order_end = in_order_mid.resolve(second, second_arrival).0;
    let swapped_mid = two.resolve(second, second_arrival).0;
    let swapped_end = swapped_mid.resolve(first, first_arrival).0;
    assert(!table.pending.contains_key(first));
    assert(!table.pending.contains_key(second));
    assert(in_order_end.pending =~= table.pending);
    assert(swapped_end.pending =~= table.pending);
}

/// Losing interest does not disturb the table. The slot stays where it was,
/// no other slot changes, and the counter does not move; when the reply
/// arrives it is matched and consumed like any other, only its outcome is
/// dropped; and the table is then exactly what it would have been had the
/// caller kept waiting.
pub proof fn lemma_abandoned_slot_is_still_consumed<S>(
    table: Table<S>,
    sequence: u64,
    arrival: Arrival,
)
    requires
        table.wf(),
        table.pending.contains_key(sequence),
    ensures
        ({
            let (abandoned, was_pending) = table.abandon(sequence);
            let (after, resolution) = abandoned.resolve(sequence, arrival);
            &&& was_pending
            &&& abandoned.pending.dom() == table.pending.dom()
            &&& abandoned.next_sequence == table.next_sequence
            &&& abandoned.phase == table.phase
            &&& forall|k: u64|
                k != sequence && table.pending.contains_key(k) ==> abandoned.pending[k]
                    == table.pending[k]
            &&& resolution == Resolution::Discard {
                sequence,
                handle: table.pending[sequence].handle,
            }
            &&& after == table.resolve(sequence, arrival).0
        }),
{
    let abandoned = table.abandon(sequence).0;
    let after = abandoned.resolve(sequence, arrival).0;
    assert(abandoned.pending.dom() =~= table.pending.dom());
    assert(after.pending =~= table.resolve(sequence, arrival).0.pending);
}

/// Whether the slots stand in strictly ascending order of sequence number,
/// all below `bound`.
spec fn ascending<S>(slots: Seq<PendingSlot<S>>, bound: u64) -> bool {
    &&& forall|i: int, j: int|
        0 <= i < j < slots.len() ==> slots[i].sequence < slots[j].sequence
    &&& forall|i: int| 0 <= i < slots.len() ==> slots[i].sequence < bound
}

/// Whether a slot stands under `k`.
spec fn holds<S>(slots: Seq<PendingSlot<S>>, k: u64) -> bool {
    exists|i: int| 0 <= i < slots.len() && slots[i].sequence == k
}

/// The index of the slot under `k`.
spec fn place<S>(slots: Seq<PendingSlot<S>>, k: u64) -> int {
    choose|i: int| 0 <= i < slots.len() && slots[i].sequence == k
}

/// The map that a queue of slots stands for.
spec fn map_of<S>(slots: Seq<PendingSlot<S>>) -> Map<u64, PendingSlot<S>> {
    Map::new(|k: u64| holds(slots, k), |k: u64| slots[place(slots, k)])
}

/// In an ascending queue every slot is found under its own number, and
/// nothing else is found.
proof fn lemma_map_of<S>(slots: Seq<PendingSlot<S>>, bound: u64)
    requires
        ascending(slots, bound),
    ensures
        forall|i: int|
            0 <= i < slots.len() ==> map_of(slots).contains_key(#[trigger] slots[i].sequence)
                && map_of(slots)[slots[i].sequence] == slots[i],
        forall|k: u64| #[trigger]
            map_of(slots).contains_key(k) ==> 0 <= place(slots, k) < slots.len()
                && slots[place(slots, k)].sequence == k && k < bound,
{
    assert forall|i: int| 0 <= i < slots.len() implies map_of(slots).contains_key(
        #[trigger] slots[i].sequence,
    ) && map_of(slots)[slots[i].sequence] == slots[i] by {
        let k = slots[i].sequence;
        assert(holds(slots, k));
        let j = place(slots, k);
        if j < i {
            assert(slots[j].sequence < slots[i].sequence);
        }
        if i < j {
            assert(slots[i].sequence < slots[j].sequence);
        }
    }
}

/// A slot with a number above all others goes to the end of the queue.
proof fn lemma_map_push<S>(slots: Seq<PendingSlot<S>>, slot: PendingSlot<S>)
    requires
        ascending(slots, slot.sequence),
        slot.sequence < u64::MAX,
    ensures
        ascending(slots.push(slot), (slot.sequence + 1) as u64),
        map_of(slots.push(slot)) == map_of(slots).insert(slot.sequence, slot),
{
    let longer = slots.push(slot);
    let bound = (slot.sequence + 1) as u64;
    assert(ascending(longer, bound));
    lemma_map_of(slots, slot.sequence);
    lemma_map_of(longer, bound);
    let expected = map_of(slots).insert(slot.sequence, slot);
    assert forall|k: u64| map_of(longer).contains_key(k) <==> expected.contains_key(k) by {
        if map_of(longer).contains_key(k) {
            let j = place(longer, k);
            if j < slots.len() {
                assert(slots[j].sequence == k);
            }
        }
        if map_of(slots).contains_key(k) {
            let j = place(slots, k);
            assert(longer[j].sequence == k);
        }
        if k == slot.sequence {
            assert(longer[slots.len() as int].sequence == k);
        }
    }
    assert forall|k: u64| map_of(longer).contains_key(k) implies map_of(longer)[k]
        == expected[k] by {
        let j = place(longer, k);
        assert(map_of(longer)[longer[j].sequence] == longer[j]);
        if j < slots.len() {
            assert(map_of(slots)[slots[j].sequence] == slots[j]);
        }
    }
    assert(map_of(longer) =~= expected);
}

/// Taking a slot out of the queue takes its number out of the map.
proof fn lemma_map_remove<S>(slots: Seq<PendingSlot<S>>, bound: u64, at: int)
    requires
        ascending(slots, bound),
        0 <= at < slots.len(),
    ensures
        ascending(slots.remove(at), bound),
        map_of(slots.remove(at)) == map_of(slots).remove(slots[at].sequence),
        map_of(slots).contains_key(slots[at].sequence),
        map_of(slots)[slots[at].sequence] == slots[at],
{
    let shorter = slots.remove(at);
    assert forall|i: int| 0 <= i < shorter.len() implies #[trigger] shorter[i] == slots[if i
        < at {
        i
    } else {
        i + 1
    }] by {}
    assert(ascending(shorter, bound));
    lemma_map_of(slots, bound);
    lemma_map_of(shorter, bound);
    let gone = slots[at].sequence;
    let expected = map_of(slots).remove(gone);
    assert forall|k: u64| map_of(shorter).contains_key(k) <==> expected.contains_key(k) by {
        if map_of(shorter).contains_key(k) {
            let j = place(shorter, k);
            let origin = if j < at {
                j
            } else {
                j + 1
            };
            assert(slots[origin].sequence == k);
            if origin < at {
                assert(slots[origin].sequence < slots[at].sequence);
            } else {
                assert(slots[at].sequence < slots[origin].sequence);
            }
        }
        if expected.contains_key(k) {
            let j = place(slots, k);
            if j < at {
                assert(shorter[j].sequence == k);
            } else {
                assert(shorter[j - 1].sequence == k);
            }
        }
    }
    assert forall|k: u64| map_of(shorter).contains_key(k) implies map_of(shorter)[k]
        == expected[k] by {
        let j = place(shorter, k);
        let origin = if j < at {
            j
        } else {
            j + 1
        };
        assert(map_of(shorter)[shorter[j].sequence] == shorter[j]);
        assert(map_of(slots)[slots[origin].sequence] == slots[origin]);
    }
    assert(map_of(shorter) =~= expected);
}

/// Putting a slot back where one with the same number was taken out.
proof fn lemma_map_replace<S>(
    slots: Seq<PendingSlot<S>>,
    bound: u64,
    at: int,
    slot: PendingSlot<S>,
)
    requires
        ascending(slots, bound),
        0 <= at < slots.len(),
        slot.sequence == slots[at].sequence,
    ensures
        slots.remove(at).insert(at, slot) == slots.update(at, slot),
        ascending(slots.update(at, slot), bound),
        map_of(slots.update(at, slot)) == map_of(slots).insert(slot.sequence, slot),
{
    let changed = slots.update(at, slot);
    assert(slots.remove(at).insert(at, slot) =~= changed);
    assert(ascending(changed, bound));
    lemma_map_of(slots, bound);
    lemma_map_of(changed, bound);
    let expected = map_of(slots).insert(slot.sequence, slot);
    assert forall|k: u64| map_of(changed).contains_key(k) <==> expected.contains_key(k) by {
        if map_of(changed).contains_key(k) {
            let j = place(changed, k);
            assert(slots[j].sequence == k);
        }
        if expected.contains_key(k) {
            if k == slot.sequence {
                assert(changed[at].sequence == k);
            } else {
                let j = place(slots, k);
                assert(changed[j].sequence == k);
            }
        }
    }
    assert forall|k: u64| map_of(changed).contains_key(k) implies map_of(changed)[k]
        == expected[k] by {
        let j = place(changed, k);
        assert(map_of(changed)[changed[j].sequence] == changed[j]);
        if j != at {
            assert(map_of(slots)[slots[j].sequence] == slots[j]);
        }
    }
    assert(map_of(changed) =~= expected);
}

/// An ascending queue stands for a map with as many entries as it has slots.
proof fn lemma_map_len<S>(slots: Seq<PendingSlot<S>>, bound: u64)
    requires
        ascending(slots, bound),
    ensures
        map_of(slots).dom().finite(),
        map_of(slots).dom().len() == slots.len(),
    decreases slots.len(),
{
    if slots.len() == 0 {
        assert(map_of(slots).dom() =~= Set::<u64>::empty());
    } else {
        let front = slots.drop_last();
        let last = slots.last();
        assert(ascending(front, last.sequence));
        lemma_map_len(front, last.sequence);
        assert(slots =~= front.push(last));
        lemma_map_push(front, last);
        lemma_map_of(front, last.sequence);
        assert(!map_of(front).contains_key(last.sequence));
        assert(map_of(slots).dom() =~= map_of(front).dom().insert(last.sequence));
    }
}

/// An ascending queue that is empty outside the active phase stands for a
/// well-formed table.
proof fn lemma_view_wf<S>(phase: Phase, next_sequence: u64, slots: Seq<PendingSlot<S>>)
    requires
        ascending(slots, next_sequence),
        phase != Phase::Active ==> slots.len() == 0,
    ensures
        (Table { phase, next_sequence, pending: map_of(slots) }).wf(),
{
    lemma_map_of(slots, next_sequence);
    lemma_map_len(slots, next_sequence);
    if phase != Phase::Active {
        assert(map_of(slots) =~= Map::<u64, PendingSlot<S>>::empty());
    }
}

/// Settles a slot: see [`settle`].
pub fn settle_slot<S>(slot: PendingSlot<S>, outcome: Result<Reply, Error>) -> (r: Resolution<S>)
    ensures
        r == settle(slot, outcome),
{
    if slot.abandoned {
        Resolution::Discard { sequence: slot.sequence, handle: slot.handle }
    } else {
        Resolution::Deliver { sequence: slot.sequence, handle: slot.handle, outcome }
    }
}

/// Turns an arrival into an outcome: see [`outcome_of`].
pub fn arrival_outcome(arrival: Arrival) -> (r: Result<Reply, Error>)
    ensures
        r == outcome_of(arrival),
{
    match arrival {
        Arrival::Reply(bytes) => Ok(Reply::Payload(bytes)),
        Arrival::Error(code) => Err(Error::Protocol(code)),
    }
}

/// The bookkeeping of one connection: its phase, its sequence counter and
/// its table of pending slots.
pub struct Correlator<S> {
    phase: Phase,
    next_sequence: u64,
    slots: Vec<PendingSlot<S>>,
}

impl<S> View for Correlator<S> {
    type V = Table<S>;

    closed spec fn view(&self) -> Table<S> {
        Table {
            phase: self.phase,
            next_sequence: self.next_sequence,
            pending: map_of(self.slots@),
        }
    }
}

impl<S> Correlator<S> {
    #[verifier::type_invariant]
    spec fn queue_in_order(&self) -> bool {
        &&& ascending(self.slots@, self.next_sequence)
        &&& self.phase != Phase::Active ==> self.slots@.len() == 0
    }

    /// The bookkeeping of a connection that has just been opened. Requests
    /// are counted from 1.
    pub fn new() -> (c: Correlator<S>)
        ensures
            c@ == Table::<S>::initial(),
            c@.wf(),
    {
        Correlator::starting_at(1)
    }

    /// The bookkeeping of a connection that has just been opened and counts
    /// its requests from `first`.
    pub fn starting_at(first: u64) -> (c: Correlator<S>)
        ensures
            c@ == Table::<S>::starting_at(first),
            c@.wf(),
    {
        let c = Correlator { phase: Phase::Open, next_sequence: first, slots: Vec::new() };
        proof {
            assert(map_of(c.slots@) =~= Map::<u64, PendingSlot<S>>::empty());
            lemma_view_wf(c.phase, c.next_sequence, c.slots@);
        }
        c
    }

    /// The phase the connection is in.
    pub fn phase(&self) -> (p: Phase)
        ensures
            p == self@.phase,
    {
        self.phase
    }

    /// The sequence number that the next request will get.
    pub fn next_sequence(&self) -> (n: u64)
        ensures
            n == self@.next_sequence,
    {
        self.next_sequence
    }

    /// The index of the slot under `sequence`.
    fn find(&self, sequence: u64) -> (r: Option<usize>)
        ensures
            match r {
                Some(at) => at < self.slots@.len() && self.slots@[at as int].sequence == sequence,
                None => forall|i: int|
                    0 <= i < self.slots@.len() ==> self.slots@[i].sequence != sequence,
            },
    {
        let mut at: usize = 0;
        while at < self.slots.len()
            invariant
                at <= self.slots@.len(),
                forall|i: int| 0 <= i < at ==> self.slots@[i].sequence != sequence,
            decreases self.slots@.len() - at,
        {
            if self.slots[at].sequence == sequence {
                return Some(at);
            }
            at = at + 1;
        }
        None
    }

    /// Takes the queue out, leaving an empty one.
    fn take_slots(&mut self) -> (slots: Vec<PendingSlot<S>>)
        ensures
            slots@ == old(self).slots@,
            final(self).slots@.len() == 0,
            final(self).phase == old(self).phase,
            final(self).next_sequence == old(self).next_sequence,
    {
        let mut slots: Vec<PendingSlot<S>> = Vec::new();
        core::mem::swap(&mut self.slots, &mut slots);
        slots
    }

    /// Puts a queue in the place of the one held.
    fn put_slots(&mut self, slots: Vec<PendingSlot<S>>)
        requires
            ascending(slots@, old(self).next_sequence),
            old(self).phase != Phase::Active ==> slots@.len() == 0,
        ensures
            final(self).slots@ == slots@,
            final(self).phase == old(self).phase,
            final(self).next_sequence == old(self).next_sequence,
    {
        let mut slots = slots;
        core::mem::swap(&mut self.slots, &mut slots);
    }

    /// The number of slots that wait.
    pub fn pending_count(&self) -> (n: usize)
        ensures
            n == self@.pending.len(),
    {
        proof {
            use_type_invariant(self);
            lemma_map_len(self.slots@, self.next_sequence);
        }
        self.slots.len()
    }

    /// Whether a slot waits under `sequence`.
    pub fn is_pending(&self, sequence: u64) -> (b: bool)
        ensures
            b == self@.pending.contains_key(sequence),
    {
        proof {
            use_type_invariant(self);
            lemma_map_of(self.slots@, self.next_sequence);
        }
        self.find(sequence).is_some()
    }

    /// Establishes the connection once the credential lookup is known. A
    /// failed lookup leaves the connection open and unestablished.
    pub fn establish(&mut self, credential: &Result<Xauth, CredentialError>) -> (r: Result<
        (),
        Error,
    >)
        ensures
            final(self)@ == old(self)@.establish(*credential).0,
            r == old(self)@.establish(*credential).1,
            final(self)@.wf(),
    {
        proof {
            use_type_invariant(&*self);
            lemma_view_wf(self.phase, self.next_sequence, self.slots@);
        }
        match self.phase {
            Phase::Closed => Err(Error::ConnectionClosed),
            Phase::Active => Err(Error::Validation(ValidationError::AlreadyActive)),
            Phase::Open => match credential {
                Err(e) => Err(Error::Credential(*e)),
                Ok(_) => {
                    self.phase = Phase::Active;
                    proof {
                        lemma_view_wf(self.phase, self.next_sequence, self.slots@);
                    }
                    Ok(())
                },
            },
        }
    }

    /// Submits a request with the given reply contract. On an active
    /// connection the request gets the next sequence number; a request with a
    /// wire reply leaves `handle` in a pending slot, one without gets it back
    /// at once together with the payload-free reply.
    pub fn register(&mut self, kind: ReplyKind, handle: S) -> (d: Dispatch<S>)
        ensures
            final(self)@ == old(self)@.register(kind, handle).0,
            d == old(self)@.register(kind, handle).1,
            final(self)@.wf(),
    {
        proof {
            use_type_invariant(&*self);
            lemma_view_wf(self.phase, self.next_sequence, self.slots@);
        }
        match self.phase {
            Phase::Open => Dispatch::Refused {
                handle,
                error: Error::Validation(ValidationError::NotActive),
            },
            Phase::Closed => Dispatch::Refused { handle, error: Error::ConnectionClosed },
            Phase::Active => {
                if self.next_sequence == u64::MAX {
                    return Dispatch::Refused {
                        handle,
                        error: Error::Validation(ValidationError::SequenceExhausted),
                    };
                }
                let sequence: u64 = self.next_sequence;
                match kind {
                    ReplyKind::Implicit => {
                        self.next_sequence = sequence + 1;
                        proof {
                            lemma_view_wf(self.phase, self.next_sequence, self.slots@);
                        }
                        Dispatch::Immediate { sequence, handle, reply: Reply::Void }
                    },
                    ReplyKind::Wire => {
                        let slot = PendingSlot { sequence, handle, abandoned: false };
                        proof {
                            lemma_map_push(self.slots@, slot);
                        }
                        let mut slots = self.take_slots();
                        slots.push(slot);
                        self.next_sequence = sequence + 1;
                        self.put_slots(slots);
                        proof {
                            lemma_view_wf(self.phase, self.next_sequence, self.slots@);
                        }
                        Dispatch::Registered { sequence }
                    },
                }
            },
        }
    }

    /// Submits a request together with the outcome of encoding it, and says
    /// what is to be written. A request that failed to encode touches
    /// nothing; one that is refused by the connection is not written.
    pub fn submit(&mut self, encoded: Result<Vec<u8>, Error>, kind: ReplyKind, handle: S) -> (out: (
        Dispatch<S>,
        Option<Vec<u8>>,
    ))
        ensures
            final(self)@ == old(self)@.submit(encoded, kind, handle).0,
            out.0 == old(self)@.submit(encoded, kind, handle).1,
            out.1 == old(self)@.submit(encoded, kind, handle).2,
            final(self)@.wf(),
    {
        match encoded {
            Err(error) => {
                proof {
                    use_type_invariant(&*self);
                    lemma_view_wf(self.phase, self.next_sequence, self.slots@);
                }
                (Dispatch::Refused { handle, error }, None)
            },
            Ok(bytes) => {
                let dispatch = self.register(kind, handle);
                match dispatch {
                    Dispatch::Refused { handle, error } => (
                        Dispatch::Refused { handle, error },
                        None,
                    ),
                    accepted => (accepted, Some(bytes)),
                }
            },
        }
    }

    /// Records an arrival for `sequence`. The slot under that number, if
    /// there is one, leaves the table in the same step and comes back
    /// settled; if there is none, nothing changes.
    pub fn resolve(&mut self, sequence: u64, arrival: Arrival) -> (r: Resolution<S>)
        ensures
            final(self)@ == old(self)@.resolve(sequence, arrival).0,
            r == old(self)@.resolve(sequence, arrival).1,
            final(self)@.wf(),
    {
        proof {
            use_type_invariant(&*self);
            lemma_map_of(self.slots@, self.next_sequence);
            lemma_view_wf(self.phase, self.next_sequence, self.slots@);
        }
        match self.find(sequence) {
            None => Resolution::Unmatched,
            Some(at) => {
                proof {
                    lemma_map_remove(self.slots@, self.next_sequence, at as int);
                }
                let mut slots = self.take_slots();
                let slot = slots.remove(at);
                self.put_slots(slots);
                proof {
                    lemma_view_wf(self.phase, self.next_sequence, self.slots@);
                }
                settle_slot(slot, arrival_outcome(arrival))
            },
        }
    }

    /// Records that the caller of `sequence` no longer waits, whether it gave
    /// up or timed out. The slot stays until its reply, an error or closure
    /// is seen. Returns whether a slot waits under that number.
    pub fn abandon(&mut self, sequence: u64) -> (was_pending: bool)
        ensures
            final(self)@ == old(self)@.abandon(sequence).0,
            was_pending == old(self)@.abandon(sequence).1,
            final(self)@.wf(),
    {
        proof {
            use_type_invariant(&*self);
            lemma_map_of(self.slots@, self.next_sequence);
            lemma_view_wf(self.phase, self.next_sequence, self.slots@);
        }
        match self.find(sequence) {
            None => false,
            Some(at) => {
                let ghost before = self.slots@;
                proof {
                    lemma_map_remove(before, self.next_sequence, at as int);
                }
                let mut slots = self.take_slots();
                let slot = slots.remove(at);
                let marked = PendingSlot {
                    sequence: slot.sequence,
                    handle: slot.handle,
                    abandoned: true,
                };
                proof {
                    lemma_map_replace(before, self.next_sequence, at as int, marked);
                }
                slots.insert(at, marked);
                self.put_slots(slots);
                proof {
                    lemma_view_wf(self.phase, self.next_sequence, self.slots@);
                }
                true
            },
        }
    }

    /// Closes the connection. Every outstanding slot is rejected with
    /// `ConnectionClosed`, in ascending order of sequence number, and the
    /// table is empty afterwards.
    pub fn close(&mut self) -> (rejected: Vec<Resolution<S>>)
        ensures
            final(self)@ == old(self)@.close(),
            final(self)@.wf(),
            rejected@.len() == old(self)@.pending.len(),
            forall|i: int|
                0 <= i < rejected@.len() ==> ((#[trigger] rejected@[i]).sequence() matches Some(k)
                    && old(self)@.pending.contains_key(k) && rejected@[i] == settle(
                    old(self)@.pending[k],
                    Err::<Reply, Error>(Error::ConnectionClosed),
                )),
            forall|k: u64| #[trigger]
                old(self)@.pending.contains_key(k) ==> exists|i: int|
                    0 <= i < rejected@.len() && (#[trigger] rejected@[i]).sequence() == Some(k),
            forall|i: int, j: int|
                0 <= i < j < rejected@.len() ==> (#[trigger] rejected@[i]).sequence().unwrap() < (
                #[trigger] rejected@[j]).sequence().unwrap(),
    {
        proof {
            use_type_invariant(&*self);
            lemma_map_of(self.slots@, self.next_sequence);
            lemma_map_len(self.slots@, self.next_sequence);
        }
        let ghost all = self.slots@;
        let mut queue = self.take_slots();
        self.phase = Phase::Closed;
        proof {
            assert(map_of(self.slots@) =~= Map::<u64, PendingSlot<S>>::empty());
            lemma_view_wf(self.phase, self.next_sequence, self.slots@);
        }
        let mut stack: Vec<PendingSlot<S>> = Vec::new();
        while queue.len() > 0
            invariant
                queue@.len() + stack@.len() == all.len(),
                queue@ == all.subrange(0, queue@.len() as int),
                forall|i: int|
                    0 <= i < stack@.len() ==> (#[trigger] stack@[i]) == all[all.len() - 1 - i],
            decreases queue@.len(),
        {
            match queue.pop() {
                Some(slot) => {
                    stack.push(slot);
                },
                None => {},
            }
        }
        let mut rejected: Vec<Resolution<S>> = Vec::new();
        while stack.len() > 0
            invariant
                stack@.len() + rejected@.len() == all.len(),
                forall|i: int|
                    0 <= i < stack@.len() ==> (#[trigger] stack@[i]) == all[all.len() - 1 - i],
                forall|i: int|
                    0 <= i < rejected@.len() ==> (#[trigger] rejected@[i]) == settle(
                        all[i],
                        Err::<Reply, Error>(Error::ConnectionClosed),
                    ),
            decreases stack@.len(),
        {
            match stack.pop() {
                Some(slot) => {
                    rejected.push(settle_slot(slot, Err(Error::ConnectionClosed)));
                },
                None => {},
            }
        }
        proof {
            assert forall|i: int| 0 <= i < rejected@.len() implies (
            #[trigger] rejected@[i]).sequence() == Some(all[i].sequence) by {}
            assert forall|k: u64| #[trigger] map_of(all).contains_key(k) implies exists|i: int|
                0 <= i < rejected@.len() && (#[trigger] rejected@[i]).sequence() == Some(k) by {
                let at = place(all, k);
                assert(rejected@[at].sequence() == Some(k));
            }
        }
        rejected
    }
}

} // verus!
