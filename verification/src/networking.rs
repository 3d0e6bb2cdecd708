//! Networking: a byte format for packets, a channel that keeps packets until
//! they are acknowledged, and a bounded buffer of timestamped states.
use vstd::prelude::*;
use std::collections::VecDeque;
use crate::text::owned;

verus! {

broadcast use vstd::std_specs::vecdeque::group_vec_dequeue_axioms;

// ---------------------------------------------------------------------------
// Little-endian numbers
// ---------------------------------------------------------------------------

/// `256` to the power `k`.
pub open spec fn pow256(k: nat) -> nat
    decreases k,
{
    if k == 0 {
        1
    } else {
        256 * pow256((k - 1) as nat)
    }
}

/// The `k` low bytes of `n`, least significant first.
pub open spec fn le_bytes(n: nat, k: nat) -> Seq<u8>
    decreases k,
{
    if k == 0 {
        Seq::empty()
    } else {
        seq![(n % 256) as u8] + le_bytes(n / 256, (k - 1) as nat)
    }
}

/// The number whose bytes, least significant first, are `b`.
pub open spec fn le_value(b: Seq<u8>) -> nat
    decreases b.len(),
{
    if b.len() == 0 {
        0
    } else {
        (b[0] as nat) + 256 * le_value(b.drop_first())
    }
}

proof fn lemma_le_roundtrip(n: nat, k: nat)
    requires
        n < pow256(k),
    ensures
        le_bytes(n, k).len() == k,
        le_value(le_bytes(n, k)) == n,
    decreases k,
{
    if k > 0 {
        lemma_le_roundtrip(n / 256, (k - 1) as nat);
        let b = le_bytes(n, k);
        assert(b.drop_first() =~= le_bytes(n / 256, (k - 1) as nat));
    }
}

proof fn lemma_le_value_bound(b: Seq<u8>)
    ensures
        le_value(b) < pow256(b.len()),
    decreases b.len(),
{
    if b.len() > 0 {
        lemma_le_value_bound(b.drop_first());
    }
}

/// Appends the `k` low bytes of `n`, least significant first.
fn push_le(out: &mut Vec<u8>, n: u64, k: usize)
    ensures
        final(out)@ == old(out)@ + le_bytes(n as nat, k as nat),
    decreases k,
{
    if k > 0 {
        out.push((n % 256) as u8);
        push_le(out, n / 256, k - 1);
        assert(old(out)@.push((n % 256) as u8) + le_bytes((n / 256) as nat, (k - 1) as nat)
            =~= old(out)@ + le_bytes(n as nat, k as nat));
    } else {
        assert(old(out)@ + le_bytes(n as nat, 0) =~= old(out)@);
    }
}

/// The number stored in `bytes[start..start + k]`, least significant byte first.
fn read_le(bytes: &[u8], start: usize, k: usize) -> (r: u64)
    requires
        k <= 8,
        start + k <= bytes.len(),
    ensures
        r == le_value(bytes@.subrange(start as int, start + k)),
    decreases k,
{
    if k == 0 {
        0
    } else {
        let rest = read_le(bytes, start + 1, k - 1);
        let ghost b = bytes@.subrange(start as int, start + k);
        assert(b.drop_first() =~= bytes@.subrange(start + 1, start + k));
        proof {
            lemma_le_value_bound(b.drop_first());
            assert(pow256((k - 1) as nat) <= pow256(7)) by {
                reveal_with_fuel(pow256, 8);
            }
            assert(pow256(7) == 0x100_0000_0000_0000) by {
                reveal_with_fuel(pow256, 8);
            }
        }
        bytes[start] as u64 + 256 * rest
    }
}

// ---------------------------------------------------------------------------
// Packets
// ---------------------------------------------------------------------------

/// A message between client and server.
#[derive(Clone, Debug, PartialEq, Eq)]
pub struct Packet {
    pub sequence: u32,
    pub timestamp: u64,
    pub data: Vec<u8>,
}

/// The bytes of a packet: sequence (4 bytes), timestamp (8), data length (4),
/// all least significant byte first, then the data; a length that does not
/// fit in 32 bits is written as its low 32 bits.
pub open spec fn packet_bytes(sequence: u32, timestamp: u64, data: Seq<u8>) -> Seq<u8> {
    le_bytes(sequence as nat, 4) + le_bytes(timestamp as nat, 8) + le_bytes(
        (data.len() as u32) as nat,
        4,
    ) + data
}

/// What reading `b` as a packet gives: its sequence, timestamp and data, or
/// the reason it is refused.
pub open spec fn decode_packet(b: Seq<u8>) -> Result<(u32, u64, Seq<u8>), Seq<char>> {
    if b.len() < 16 {
        Err("Packet too short"@)
    } else {
        let n = le_value(b.subrange(12, 16));
        if b.len() < 16 + n {
            Err("Data length mismatch"@)
        } else {
            Ok(
                (
                    le_value(b.subrange(0, 4)) as u32,
                    le_value(b.subrange(4, 12)) as u64,
                    b.subrange(16, 16 + n as int),
                ),
            )
        }
    }
}

impl Packet {
    pub fn new(sequence: u32, timestamp: u64, data: Vec<u8>) -> (p: Self)
        ensures
            p.sequence == sequence,
            p.timestamp == timestamp,
            p.data@ == data@,
    {
        Self { sequence, timestamp, data }
    }

    /// A packet equal to this one.
    pub fn copy(&self) -> (p: Self)
        ensures
            p.sequence == self.sequence,
            p.timestamp == self.timestamp,
            p.data@ == self.data@,
    {
        let mut data: Vec<u8> = Vec::new();
        let mut i: usize = 0;
        while i < self.data.len()
            invariant
                i <= self.data.len(),
                data@ == self.data@.take(i as int),
            decreases self.data.len() - i,
        {
            data.push(self.data[i]);
            assert(self.data@.take(i as int).push(self.data@[i as int]) =~= self.data@.take(i + 1));
            i += 1;
        }
        assert(self.data@.take(self.data.len() as int) =~= self.data@);
        Packet { sequence: self.sequence, timestamp: self.timestamp, data }
    }

    /// The packet's bytes.
    pub fn to_bytes(&self) -> (b: Vec<u8>)
        ensures
            b@ == packet_bytes(self.sequence, self.timestamp, self.data@),
    {
        let mut bytes: Vec<u8> = Vec::new();
        push_le(&mut bytes, self.sequence as u64, 4);
        push_le(&mut bytes, self.timestamp, 8);
        push_le(&mut bytes, (self.data.len() as u32) as u64, 4);
        let ghost head = bytes@;
        let mut i: usize = 0;
        while i < self.data.len()
            invariant
                i <= self.data.len(),
                bytes@ == head + self.data@.take(i as int),
            decreases self.data.len() - i,
        {
            bytes.push(self.data[i]);
            assert(head + self.data@.take(i + 1) =~= (head + self.data@.take(i as int)).push(
                self.data@[i as int],
            ));
            i += 1;
        }
        assert(self.data@.take(self.data.len() as int) =~= self.data@);
        assert(Seq::<u8>::empty() + le_bytes(self.sequence as nat, 4) + le_bytes(
            self.timestamp as nat,
            8,
        ) + le_bytes((self.data.len() as u32) as nat, 4) =~= le_bytes(self.sequence as nat, 4)
            + le_bytes(self.timestamp as nat, 8) + le_bytes((self.data.len() as u32) as nat, 4));
        bytes
    }

    /// Reads a packet from its bytes; fails when there are fewer than 16 bytes
    /// or fewer data bytes than the length says. Bytes after the data are
    /// ignored.
    pub fn from_bytes(bytes: &[u8]) -> (r: Result<Packet, String>)
        ensures
            match r {
                Ok(p) => decode_packet(bytes@) == Ok::<(u32, u64, Seq<u8>), Seq<char>>(
                    (p.sequence, p.timestamp, p.data@),
                ),
                Err(e) => decode_packet(bytes@) == Err::<(u32, u64, Seq<u8>), Seq<char>>(e@),
            },
    {
        if bytes.len() < 16 {
            return Err(owned("Packet too short"));
        }
        proof {
            lemma_le_value_bound(bytes@.subrange(0, 4));
            lemma_le_value_bound(bytes@.subrange(4, 12));
            reveal_with_fuel(pow256, 9);
        }
        let sequence = read_le(bytes, 0, 4) as u32;
        let timestamp = read_le(bytes, 4, 8);
        let data_len = read_le(bytes, 12, 4);
        proof {
            lemma_le_value_bound(bytes@.subrange(12, 16));
        }
        if ((bytes.len() - 16) as u64) < data_len {
            return Err(owned("Data length mismatch"));
        }
        let end = 16 + data_len as usize;
        let mut data: Vec<u8> = Vec::new();
        let mut i: usize = 16;
        while i < end
            invariant
                16 <= i <= end <= bytes@.len(),
                data@ == bytes@.subrange(16, i as int),
            decreases end - i,
        {
            data.push(bytes[i]);
            assert(bytes@.subrange(16, i as int).push(bytes@[i as int]) =~= bytes@.subrange(
                16,
                i + 1,
            ));
            i += 1;
        }
        Ok(Packet { sequence, timestamp, data })
    }
}

/// Reading the bytes of a packet gives the packet back, when its data is
/// shorter than 2^32 bytes.
pub proof fn lemma_packet_roundtrip(sequence: u32, timestamp: u64, data: Seq<u8>)
    requires
        data.len() <= u32::MAX,
    ensures
        decode_packet(packet_bytes(sequence, timestamp, data)) == Ok::<
            (u32, u64, Seq<u8>),
            Seq<char>,
        >((sequence, timestamp, data)),
{
    reveal_with_fuel(pow256, 9);
    lemma_le_roundtrip(sequence as nat, 4);
    lemma_le_roundtrip(timestamp as nat, 8);
    lemma_le_roundtrip(data.len(), 4);
    let b = packet_bytes(sequence, timestamp, data);
    assert(b.subrange(0, 4) =~= le_bytes(sequence as nat, 4));
    assert(b.subrange(4, 12) =~= le_bytes(timestamp as nat, 8));
    assert(b.subrange(12, 16) =~= le_bytes((data.len() as u32) as nat, 4));
    assert(b.subrange(16, 16 + data.len() as int) =~= data);
}

// ---------------------------------------------------------------------------
// Reliable delivery
// ---------------------------------------------------------------------------

/// A packet as plain values.
pub open spec fn packet_view(p: Packet) -> (u32, u64, Seq<u8>) {
    (p.sequence, p.timestamp, p.data@)
}

/// The pending entries as plain values.
pub open spec fn pending_views(s: Seq<(u32, Packet)>) -> Seq<(u32, (u32, u64, Seq<u8>))> {
    s.map_values(|e: (u32, Packet)| (e.0, packet_view(e.1)))
}

/// Whether a pending entry is for a sequence number other than `sequence`.
pub open spec fn other_sequence(sequence: u32) -> spec_fn((u32, Packet)) -> bool {
    |e: (u32, Packet)| e.0 != sequence
}

/// Sends packets with increasing sequence numbers and keeps each until it is
/// acknowledged.
pub struct ReliableChannel {
    next_sequence: u32,
    pending_acks: VecDeque<(u32, Packet)>,
    acked_sequences: Vec<u32>,
    max_pending: usize,
}

impl ReliableChannel {
    /// The sequence number of the next packet sent.
    pub closed spec fn next_seq(&self) -> u32 {
        self.next_sequence
    }

    /// The packets sent and not yet acknowledged, oldest first, with their
    /// sequence numbers.
    pub closed spec fn pending(&self) -> Seq<(u32, Packet)> {
        self.pending_acks@
    }

    /// The sequence numbers acknowledged, in order.
    pub closed spec fn acked(&self) -> Seq<u32> {
        self.acked_sequences@
    }

    /// How many packets may wait for acknowledgement.
    pub closed spec fn limit(&self) -> usize {
        self.max_pending
    }

    /// Every pending packet has a sequence number below the next one.
    pub open spec fn wf(&self) -> bool {
        forall|i: int| 0 <= i < self.pending().len() ==> (#[trigger] self.pending()[i]).0 < self.next_seq()
    }

    pub fn new(max_pending: usize) -> (c: Self)
        ensures
            c.wf(),
            c.next_seq() == 0,
            c.pending().len() == 0,
            c.acked().len() == 0,
            c.limit() == max_pending,
    {
        ReliableChannel {
            next_sequence: 0,
            pending_acks: VecDeque::new(),
            acked_sequences: Vec::new(),
            max_pending,
        }
    }

    /// Sends `data` as the next packet, keeps a copy until it is acknowledged,
    /// and returns it.
    pub fn send(&mut self, data: Vec<u8>, timestamp: u64) -> (p: Packet)
        requires
            old(self).next_seq() < u32::MAX,
        ensures
            p.sequence == old(self).next_seq(),
            p.timestamp == timestamp,
            p.data@ == data@,
            final(self).next_seq() == old(self).next_seq() + 1,
            pending_views(final(self).pending()) == pending_views(old(self).pending()).push(
                (p.sequence, packet_view(p)),
            ),
            final(self).acked() == old(self).acked(),
            final(self).limit() == old(self).limit(),
            old(self).wf() ==> final(self).wf(),
    {
        let packet = Packet::new(self.next_sequence, timestamp, data);
        self.next_sequence += 1;
        let kept = packet.copy();
        let ghost before = self.pending_acks@;
        self.pending_acks.push_back((packet.sequence, kept));
        assert(pending_views(self.pending_acks@) =~= pending_views(before).push(
            (packet.sequence, packet_view(packet)),
        ));
        assert forall|i: int| 0 <= i < self.pending_acks@.len() - 1 implies self.pending_acks@[i] == before[i] by {}
        packet
    }

    /// Drops every pending packet with sequence number `sequence` and records
    /// the acknowledgement.
    pub fn ack(&mut self, sequence: u32)
        ensures
            final(self).pending() == old(self).pending().filter(other_sequence(sequence)),
            final(self).acked() == old(self).acked().push(sequence),
            final(self).next_seq() == old(self).next_seq(),
            final(self).limit() == old(self).limit(),
            old(self).wf() ==> final(self).wf(),
    {
        let ghost s = self.pending_acks@;
        let mut old_q: VecDeque<(u32, Packet)> = VecDeque::new();
        std::mem::swap(&mut old_q, &mut self.pending_acks);
        let mut kept: VecDeque<(u32, Packet)> = VecDeque::new();
        let ghost mut i: int = 0;
        while old_q.len() > 0
            invariant
                0 <= i <= s.len(),
                old_q@ == s.skip(i),
                kept@ == s.take(i).filter(other_sequence(sequence)),
            decreases old_q@.len(),
        {
            let e = old_q.pop_front().unwrap();
            proof {
                assert(e == s[i]);
                assert(s.take(i + 1).drop_last() =~= s.take(i));
                assert(s.take(i + 1).last() == s[i]);
                reveal(Seq::filter);
            }
            if e.0 != sequence {
                kept.push_back(e);
            }
            proof {
                assert(old_q@ =~= s.skip(i + 1));
                i = i + 1;
            }
        }
        assert(s.take(s.len() as int) =~= s);
        self.pending_acks = kept;
        self.acked_sequences.push(sequence);
        proof {
            assert forall|j: int| 0 <= j < self.pending_acks@.len() implies s.contains(
                #[trigger] self.pending_acks@[j],
            ) by {
                s.lemma_filter_contains_rev(other_sequence(sequence), self.pending_acks@[j]);
            }
        }
    }

    /// Number of packets waiting for acknowledgement.
    pub fn pending_count(&self) -> (n: usize)
        ensures
            n == self.pending().len(),
    {
        self.pending_acks.len()
    }

    /// The packets waiting for acknowledgement, oldest first.
    pub fn get_pending(&self) -> (v: Vec<&Packet>)
        ensures
            v@.len() == self.pending().len(),
            forall|i: int| 0 <= i < v@.len() ==> *v@[i] == (#[trigger] self.pending()[i]).1,
    {
        let mut v: Vec<&Packet> = Vec::new();
        let mut i: usize = 0;
        while i < self.pending_acks.len()
            invariant
                i <= self.pending_acks@.len(),
                v@.len() == i,
                forall|j: int| 0 <= j < i ==> *v@[j] == (#[trigger] self.pending_acks@[j]).1,
            decreases self.pending_acks@.len() - i,
        {
            v.push(&self.pending_acks[i].1);
            i += 1;
        }
        v
    }

    /// Whether fewer packets than the limit wait for acknowledgement.
    pub fn can_send(&self) -> (r: bool)
        ensures
            r == (self.pending().len() < self.limit()),
    {
        self.pending_acks.len() < self.max_pending
    }
}

/// Sending a packet and then acknowledging its sequence number leaves the
/// pending packets as they were, when no pending packet had that number.
pub proof fn lemma_send_then_ack(s: Seq<(u32, Packet)>, p: Packet)
    requires
        forall|i: int| 0 <= i < s.len() ==> (#[trigger] s[i]).0 != p.sequence,
    ensures
        s.push((p.sequence, p)).filter(other_sequence(p.sequence)) == s,
{
    reveal(Seq::filter);
    let t = s.push((p.sequence, p));
    assert(t.drop_last() =~= s);
    lemma_filter_all(s, other_sequence(p.sequence));
}

proof fn lemma_filter_all<A>(s: Seq<A>, f: spec_fn(A) -> bool)
    requires
        forall|i: int| 0 <= i < s.len() ==> f(#[trigger] s[i]),
    ensures
        s.filter(f) == s,
    decreases s.len(),
{
    reveal(Seq::filter);
    if s.len() > 0 {
        assert forall|i: int| 0 <= i < s.drop_last().len() implies f(#[trigger] s.drop_last()[i]) by {
            assert(s.drop_last()[i] == s[i]);
        }
        lemma_filter_all(s.drop_last(), f);
        assert(f(s[s.len() - 1]));
        assert(s.drop_last().push(s.last()) =~= s);
    }
}

// ---------------------------------------------------------------------------
// Buffered states
// ---------------------------------------------------------------------------

/// The last `m` entries of `s` (all of them when there are fewer).
pub open spec fn keep_last<A>(s: Seq<A>, m: nat) -> Seq<A> {
    if s.len() > m {
        s.skip(s.len() - m)
    } else {
        s
    }
}

/// `i` is the first position of an entry with timestamp `t`.
pub open spec fn first_at<T>(s: Seq<(u64, T)>, t: u64, i: int) -> bool {
    0 <= i < s.len() && s[i].0 == t && forall|j: int| 0 <= j < i ==> (#[trigger] s[j]).0 != t
}

/// The most recent states received, each with its timestamp, at most
/// `max_delay` of them.
pub struct StateInterpolation<T: Clone> {
    states: VecDeque<(u64, T)>,
    max_delay: usize,
}

impl<T: Clone> StateInterpolation<T> {
    /// The states kept, oldest first.
    pub closed spec fn states(&self) -> Seq<(u64, T)> {
        self.states@
    }

    /// How many states are kept at most.
    pub closed spec fn capacity(&self) -> usize {
        self.max_delay
    }

    pub fn new(max_delay: usize) -> (s: Self)
        ensures
            s.states().len() == 0,
            s.capacity() == max_delay,
    {
        StateInterpolation { states: VecDeque::with_capacity(max_delay), max_delay }
    }

    /// Adds a state and drops the oldest ones beyond the capacity.
    pub fn push(&mut self, timestamp: u64, state: T)
        ensures
            final(self).states() == keep_last(
                old(self).states().push((timestamp, state)),
                old(self).capacity() as nat,
            ),
            final(self).capacity() == old(self).capacity(),
    {
        let ghost all = self.states@.push((timestamp, state));
        self.states.push_back((timestamp, state));
        while self.states.len() > self.max_delay
            invariant
                self.max_delay == old(self).max_delay,
                all == old(self).states@.push((timestamp, state)),
                self.states@ == all.skip(all.len() - self.states@.len()),
                self.states@.len() <= all.len(),
                self.states@.len() >= self.max_delay || self.states@.len() == all.len(),
            decreases self.states@.len(),
        {
            let ghost before = self.states@;
            self.states.pop_front();
            assert(before.subrange(1, before.len() as int) =~= all.skip(all.len() - self.states@.len()));
        }
        assert(all.skip(0) =~= all);
        assert(self.states@ =~= keep_last(all, self.max_delay as nat));
    }

    /// The state with timestamp `timestamp`, the oldest one if several.
    pub fn get_at(&self, timestamp: u64) -> (r: Option<&T>)
        ensures
            match r {
                Some(s) => exists|i: int| first_at(self.states(), timestamp, i) && *s == self.states()[i].1,
                None => forall|i: int| 0 <= i < self.states().len() ==> (#[trigger] self.states()[i]).0 != timestamp,
            },
    {
        let mut i: usize = 0;
        while i < self.states.len()
            invariant
                i <= self.states@.len(),
                forall|j: int| 0 <= j < i ==> (#[trigger] self.states@[j]).0 != timestamp,
            decreases self.states@.len() - i,
        {
            if self.states[i].0 == timestamp {
                assert(first_at(self.states(), timestamp, i as int));
                return Some(&self.states[i].1);
            }
            i += 1;
        }
        None
    }

    /// The newest state.
    pub fn latest(&self) -> (r: Option<&T>)
        ensures
            match r {
                Some(s) => self.states().len() > 0 && *s == self.states().last().1,
                None => self.states().len() == 0,
            },
    {
        let n = self.states.len();
        if n == 0 {
            None
        } else {
            Some(&self.states[n - 1].1)
        }
    }

    /// The timestamp of the oldest state.
    pub fn oldest_timestamp(&self) -> (r: Option<u64>)
        ensures
            match r {
                Some(t) => self.states().len() > 0 && t == self.states()[0].0,
                None => self.states().len() == 0,
            },
    {
        if self.states.len() == 0 {
            None
        } else {
            Some(self.states[0].0)
        }
    }
}

} // verus!
