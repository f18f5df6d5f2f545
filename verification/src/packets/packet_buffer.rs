//! The receiver's side of fragmentation: a window of slots in which the
//! fragments of recent packets gather until a packet is whole.
use vstd::prelude::*;

use crate::constants::{
    Buffer, MAX_FRAGMENTS_PER_PACKET, MAX_FRAGMENT_SIZE, PACKET_BUFFER_SIZE, PROTOCOL_ID,
};
use crate::packets::fragment_packet::{fragment_read, FragmentPacket};
use crate::packets::packet_data::PacketData;
use crate::bitpacker::{byte_bits, lemma_byte_bits_take};
use crate::constants::ProtocolError;
use crate::packets::{frame_intact, seal_intact};
use crate::streams::read_stream::ReadStream;
use crate::streams::{Stream, StreamView};

verus! {

/// How far the sequence number `a` is ahead of `b` on the circle of 65536
/// sequence numbers: a number from -32767 to 32768, negative where `a` is
/// behind.
pub open spec fn sequence_ahead(a: u16, b: u16) -> int {
    let d = (a as int - b as int) % 65536;
    if d > 32768 {
        d - 65536
    } else {
        d
    }
}

/// Whether `sequence` lies in the window that ends at `current`: among the
/// `PACKET_BUFFER_SIZE` sequence numbers up to and including `current`.
pub open spec fn in_window(sequence: u16, current: u16) -> bool {
    -(PACKET_BUFFER_SIZE as int) < sequence_ahead(sequence, current) <= 0
}

/// How far `a` is ahead of `b` on the circle of sequence numbers.
pub fn sequence_difference(a: u16, b: u16) -> (ahead: i32)
    ensures
        ahead == sequence_ahead(a, b),
{
    let raw: i32 = a as i32 - b as i32;
    let wrapped: i32 = if raw < 0 {
        raw + 65536
    } else {
        raw
    };
    if wrapped > 32768 {
        wrapped - 65536
    } else {
        wrapped
    }
}

/// The fragments of one packet that have arrived: the packet's sequence
/// number, the number of fragments that make it up, and the fragments by id,
/// the empty sequence standing for one that has not arrived.
pub struct SlotView {
    pub sequence: u16,
    pub count: nat,
    pub fragments: Seq<Seq<u8>>,
}

/// A reassembly buffer as contracts see it: the newest sequence number and
/// the slots, each empty or holding one packet's fragments.
pub struct PacketBufferView {
    pub current: u16,
    pub slots: Seq<Option<SlotView>>,
}

/// Number of fragments that have arrived, among `fragments`.
pub open spec fn held(fragments: Seq<Seq<u8>>) -> nat
    decreases fragments.len(),
{
    if fragments.len() == 0 {
        0
    } else {
        held(fragments.drop_last()) + (if fragments.last().len() > 0 {
            1nat
        } else {
            0nat
        })
    }
}

/// Number of fragments that a slot holds.
pub open spec fn slot_held(slot: Option<SlotView>) -> nat {
    match slot {
        Some(s) => held(s.fragments),
        None => 0,
    }
}

/// Number of fragments that `slots` hold in all.
pub open spec fn stored(slots: Seq<Option<SlotView>>) -> nat
    decreases slots.len(),
{
    if slots.len() == 0 {
        0
    } else {
        stored(slots.drop_last()) + slot_held(slots.last())
    }
}

/// The fragments laid end to end in the order of their ids.
pub open spec fn assembled(fragments: Seq<Seq<u8>>) -> Seq<u8>
    decreases fragments.len(),
{
    if fragments.len() == 0 {
        Seq::empty()
    } else {
        assembled(fragments.drop_last()) + fragments.last()
    }
}

/// The index of the slot that belongs to a sequence number.
pub open spec fn slot_of(sequence: u16) -> int {
    sequence as int % PACKET_BUFFER_SIZE as int
}

/// What holds of every slot in use: it stands where its sequence number
/// belongs, the sequence number lies in the window, the packet has between 1
/// and `MAX_FRAGMENTS_PER_PACKET` fragments, none is larger than
/// `MAX_FRAGMENT_SIZE`, and all that have arrived, but perhaps the last, have
/// that size.
pub open spec fn slot_wf(slot: SlotView, index: int, current: u16) -> bool {
    &&& slot_of(slot.sequence) == index
    &&& in_window(slot.sequence, current)
    &&& 1 <= slot.count <= MAX_FRAGMENTS_PER_PACKET
    &&& slot.fragments.len() == slot.count
    &&& forall|j: int|
        0 <= j < slot.count ==> {
            &&& (#[trigger] slot.fragments[j]).len() <= MAX_FRAGMENT_SIZE
            &&& j < slot.count - 1 ==> slot.fragments[j].len() == 0 || slot.fragments[j].len()
                == MAX_FRAGMENT_SIZE
        }
}

/// What holds of a reassembly buffer at all times.
pub open spec fn view_wf(view: PacketBufferView) -> bool {
    &&& view.slots.len() == PACKET_BUFFER_SIZE
    &&& forall|i: int|
        0 <= i < PACKET_BUFFER_SIZE ==> match #[trigger] view.slots[i] {
            Some(slot) => slot_wf(slot, i, view.current),
            None => true,
        }
}

/// The buffer after its window has moved on to end at `sequence`: every
/// slot whose sequence number has left the window is empty, the others are
/// as they were. A sequence number that is not ahead of the newest moves
/// nothing.
pub open spec fn advanced_to(view: PacketBufferView, sequence: u16) -> PacketBufferView {
    if sequence_ahead(sequence, view.current) > 0 {
        PacketBufferView {
            current: sequence,
            slots: Seq::new(
                view.slots.len(),
                |i: int|
                    match view.slots[i] {
                        Some(slot) => if in_window(slot.sequence, sequence) {
                            Some(slot)
                        } else {
                            None
                        },
                        None => None,
                    },
            ),
        }
    } else {
        view
    }
}

/// Whether a fragment is taken in. It is refused where
///
/// - its size is not between 1 and `MAX_FRAGMENT_SIZE`;
/// - its packet's number of fragments is not between 1 and
///   `MAX_FRAGMENTS_PER_PACKET`;
/// - its id is not below that number;
/// - it is not the packet's last fragment and is not of full size;
/// - its sequence number is more than 1024 ahead of the newest, or behind
///   the window;
/// - its slot holds another packet;
/// - its slot holds the same packet with another number of fragments;
/// - the fragment has arrived before.
pub open spec fn accepts(
    view: PacketBufferView,
    size: int,
    sequence: u16,
    fragment_id: int,
    count: int,
) -> bool {
    &&& 0 < size <= MAX_FRAGMENT_SIZE
    &&& 0 < count <= MAX_FRAGMENTS_PER_PACKET
    &&& 0 <= fragment_id < count
    &&& fragment_id != count - 1 ==> size == MAX_FRAGMENT_SIZE
    &&& -(PACKET_BUFFER_SIZE as int) < sequence_ahead(sequence, view.current) <= 1024
    &&& match view.slots[slot_of(sequence)] {
        Some(slot) => slot.sequence == sequence && slot.count == count
            && slot.fragments[fragment_id].len() == 0,
        None => true,
    }
}

/// The buffer after a fragment has been taken in. Where the fragment's slot
/// was empty, the window first moves on to the fragment's sequence number
/// and the slot starts a packet of `count` fragments, none arrived.
pub open spec fn with_fragment(
    view: PacketBufferView,
    payload: Seq<u8>,
    sequence: u16,
    fragment_id: int,
    count: int,
) -> PacketBufferView {
    let index = slot_of(sequence);
    let opened = match view.slots[index] {
        Some(slot) => view,
        None => {
            let moved = advanced_to(view, sequence);
            PacketBufferView {
                slots: moved.slots.update(
                    index,
                    Some(
                        SlotView {
                            sequence,
                            count: count as nat,
                            fragments: Seq::new(count as nat, |j: int| Seq::<u8>::empty()),
                        },
                    ),
                ),
                ..moved
            }
        },
    };
    let slot = opened.slots[index].unwrap();
    PacketBufferView {
        slots: opened.slots.update(
            index,
            Some(SlotView { fragments: slot.fragments.update(fragment_id, payload), ..slot }),
        ),
        ..opened
    }
}

/// Whether all fragments of a slot's packet have arrived.
pub open spec fn complete(slot: Option<SlotView>) -> bool {
    match slot {
        Some(s) => held(s.fragments) == s.count,
        None => false,
    }
}

/// The sequence number that stands `k` places after the oldest of the
/// window that ends at `current`.
pub open spec fn window_sequence(current: u16, k: int) -> u16 {
    ((current as int - (PACKET_BUFFER_SIZE as int - 1) + k) % 65536) as u16
}

/// The whole packets among the first `k` sequence numbers of the window,
/// oldest first.
pub open spec fn whole_packets(view: PacketBufferView, k: int) -> Seq<Seq<u8>>
    decreases k,
{
    if k <= 0 {
        Seq::empty()
    } else {
        let slot = view.slots[slot_of(window_sequence(view.current, k - 1))];
        if complete(slot) {
            whole_packets(view, k - 1).push(assembled(slot.unwrap().fragments))
        } else {
            whole_packets(view, k - 1)
        }
    }
}

/// The buffer after its whole packets have been handed out: their slots are
/// empty, the others are as they were.
pub open spec fn drained(view: PacketBufferView) -> PacketBufferView {
    PacketBufferView {
        slots: Seq::new(
            view.slots.len(),
            |i: int|
                if complete(view.slots[i]) {
                    None
                } else {
                    view.slots[i]
                },
        ),
        ..view
    }
}

/// Arriving fills one place: a fragment put where none was adds one to the
/// number held.
pub proof fn lemma_held_update(fragments: Seq<Seq<u8>>, id: int, payload: Seq<u8>)
    requires
        0 <= id < fragments.len(),
        fragments[id].len() == 0,
        payload.len() > 0,
    ensures
        held(fragments.update(id, payload)) == held(fragments) + 1,
    decreases fragments.len(),
{
    let after = fragments.update(id, payload);
    if id == fragments.len() - 1 {
        assert(after.drop_last() =~= fragments.drop_last());
    } else {
        assert(after.drop_last() =~= fragments.drop_last().update(id, payload));
        lemma_held_update(fragments.drop_last(), id, payload);
    }
}

/// Nothing has arrived of a packet whose fragments are all empty.
pub proof fn lemma_held_none(fragments: Seq<Seq<u8>>)
    requires
        forall|j: int| 0 <= j < fragments.len() ==> (#[trigger] fragments[j]).len() == 0,
    ensures
        held(fragments) == 0,
    decreases fragments.len(),
{
    if fragments.len() > 0 {
        lemma_held_none(fragments.drop_last());
    }
}

/// No more fragments have arrived than there are places.
pub proof fn lemma_held_bound(fragments: Seq<Seq<u8>>)
    ensures
        held(fragments) <= fragments.len(),
    decreases fragments.len(),
{
    if fragments.len() > 0 {
        lemma_held_bound(fragments.drop_last());
    }
}

/// Changing one slot changes the number stored by what that slot gains or
/// loses.
pub proof fn lemma_stored_update(slots: Seq<Option<SlotView>>, i: int, slot: Option<SlotView>)
    requires
        0 <= i < slots.len(),
    ensures
        stored(slots.update(i, slot)) + slot_held(slots[i]) == stored(slots) + slot_held(slot),
    decreases slots.len(),
{
    let after = slots.update(i, slot);
    if i == slots.len() - 1 {
        assert(after.drop_last() =~= slots.drop_last());
    } else {
        assert(after.drop_last() =~= slots.drop_last().update(i, slot));
        lemma_stored_update(slots.drop_last(), i, slot);
    }
}

/// Empty slots store nothing.
pub proof fn lemma_stored_none(slots: Seq<Option<SlotView>>)
    requires
        forall|i: int| 0 <= i < slots.len() ==> (#[trigger] slots[i]).is_none(),
    ensures
        stored(slots) == 0,
    decreases slots.len(),
{
    if slots.len() > 0 {
        lemma_stored_none(slots.drop_last());
    }
}

/// Window eviction: once the window has moved on by `PACKET_BUFFER_SIZE` or
/// more, every slot that was in use is empty and nothing is stored.
pub proof fn lemma_window_eviction(view: PacketBufferView, sequence: u16)
    requires
        view_wf(view),
        sequence_ahead(sequence, view.current) >= PACKET_BUFFER_SIZE,
    ensures
        forall|i: int|
            0 <= i < PACKET_BUFFER_SIZE ==> (#[trigger] advanced_to(
                view,
                sequence,
            ).slots[i]).is_none(),
        stored(advanced_to(view, sequence).slots) == 0,
        advanced_to(view, sequence).current == sequence,
{
    let after = advanced_to(view, sequence);
    assert forall|i: int| 0 <= i < PACKET_BUFFER_SIZE implies (
    #[trigger] after.slots[i]).is_none() by {
        match view.slots[i] {
            Some(slot) => {
                lemma_ahead_chain(slot.sequence, view.current, sequence);
            },
            None => {},
        }
    }
    lemma_stored_none(after.slots);
}

/// A sequence number in the window of `b` is as far behind `c` as it is
/// behind `b` and `b` behind `c`, where `c` is ahead of `b`.
proof fn lemma_ahead_chain(a: u16, b: u16, c: u16)
    requires
        in_window(a, b),
        sequence_ahead(c, b) > 0,
    ensures
        sequence_ahead(c, b) >= PACKET_BUFFER_SIZE ==> !in_window(a, c),
        in_window(a, c) ==> sequence_ahead(a, c) == sequence_ahead(a, b) - sequence_ahead(c, b),
{
}

/// No slot holds more fragments than a packet may have.
pub proof fn lemma_stored_bound(view: PacketBufferView, n: int)
    requires
        view_wf(view),
        0 <= n <= PACKET_BUFFER_SIZE,
    ensures
        stored(view.slots.take(n)) <= n * MAX_FRAGMENTS_PER_PACKET,
    decreases n,
{
    let slots = view.slots.take(n);
    if n > 0 {
        assert(slots.drop_last() =~= view.slots.take(n - 1));
        lemma_stored_bound(view, n - 1);
        match slots.last() {
            Some(slot) => {
                assert(slots.last() == view.slots[n - 1]);
                lemma_held_bound(slot.fragments);
            },
            None => {},
        }
    }
}

/// Whether `sequence` lies in the window that ends at `current`.
pub fn sequence_in_window(sequence: u16, current: u16) -> (inside: bool)
    ensures
        inside == in_window(sequence, current),
{
    let ahead: i32 = sequence_difference(sequence, current);
    ahead <= 0 && ahead > -(PACKET_BUFFER_SIZE as i32)
}

/// One slot of the reassembly buffer: the fragments of one packet, by id,
/// with their sizes, and how many of them have arrived. A slot that is not in
/// use holds no fragments and expects none.
pub struct PacketBufferEntry {
    sequence: u16,
    num_fragments: u32,
    received_fragments: u32,
    fragment_size: Vec<u32>,
    fragment_data: Vec<Vec<u8>>,
}

impl PacketBufferEntry {
    /// The fragments by id, as far as the packet has fragments.
    pub closed spec fn fragments(&self) -> Seq<Seq<u8>> {
        Seq::new(self.num_fragments as nat, |j: int| self.fragment_data@[j]@)
    }

    /// The entry as a slot in use.
    pub closed spec fn slot(&self) -> SlotView {
        SlotView {
            sequence: self.sequence,
            count: self.num_fragments as nat,
            fragments: self.fragments(),
        }
    }

    /// The invariant of an entry: there is room for every fragment id, each
    /// size is the size of the fragment held, no fragment is held beyond
    /// the packet's number of fragments, and the count of arrivals is right.
    pub closed spec fn wf(&self) -> bool {
        &&& self.fragment_size@.len() == MAX_FRAGMENTS_PER_PACKET
        &&& self.fragment_data@.len() == MAX_FRAGMENTS_PER_PACKET
        &&& self.num_fragments <= MAX_FRAGMENTS_PER_PACKET
        &&& forall|j: int|
            0 <= j < MAX_FRAGMENTS_PER_PACKET ==> {
                &&& #[trigger] self.fragment_size@[j] == self.fragment_data@[j]@.len()
                &&& self.fragment_size@[j] <= MAX_FRAGMENT_SIZE
                &&& j >= self.num_fragments ==> self.fragment_size@[j] == 0
            }
        &&& self.received_fragments == held(self.fragments())
    }

    /// A size is the size of the fragment in its place.
    proof fn lemma_size(&self, j: int)
        requires
            self.wf(),
            0 <= j < self.num_fragments,
        ensures
            self.fragment_size@[j] == self.slot().fragments[j].len(),
    {
    }

    /// Whether the entry is free: it expects no fragments.
    pub closed spec fn free(&self) -> bool {
        self.num_fragments == 0
    }

    /// An entry that is not in use.
    pub fn new() -> (entry: PacketBufferEntry)
        ensures
            entry.wf(),
            entry.free(),
    {
        let mut sizes: Vec<u32> = Vec::new();
        let mut data: Vec<Vec<u8>> = Vec::new();
        let mut j: usize = 0;
        while j < MAX_FRAGMENTS_PER_PACKET
            invariant
                j <= MAX_FRAGMENTS_PER_PACKET,
                sizes@.len() == j,
                data@.len() == j,
                forall|x: int| 0 <= x < j ==> #[trigger] sizes@[x] == 0,
                forall|x: int| 0 <= x < j ==> (#[trigger] data@[x])@.len() == 0,
            decreases MAX_FRAGMENTS_PER_PACKET - j,
        {
            let empty: Vec<u8> = Vec::new();
            sizes.push(0);
            data.push(empty);
            j = j + 1;
        }
        let entry = PacketBufferEntry {
            sequence: 0,
            num_fragments: 0,
            received_fragments: 0,
            fragment_size: sizes,
            fragment_data: data,
        };
        proof {
            lemma_held_none(entry.fragments());
        }
        entry
    }

    /// Starts a packet of `count` fragments in a free entry.
    fn open(&mut self, sequence: u16, count: u32)
        requires
            old(self).wf(),
            old(self).free(),
            1 <= count <= MAX_FRAGMENTS_PER_PACKET,
        ensures
            final(self).wf(),
            final(self).slot() == (SlotView {
                sequence,
                count: count as nat,
                fragments: Seq::new(count as nat, |j: int| Seq::<u8>::empty()),
            }),
    {
        self.sequence = sequence;
        self.num_fragments = count;
        self.received_fragments = 0;
        proof {
            assert forall|j: int| 0 <= j < count implies (#[trigger] self.fragments()[j]).len()
                == 0 by {
                assert(self.fragment_size@[j] == 0);
            }
            lemma_held_none(self.fragments());
            assert forall|j: int| 0 <= j < count implies #[trigger] self.fragments()[j]
                == Seq::<u8>::empty() by {
                assert(self.fragments()[j] =~= Seq::<u8>::empty());
            }
            assert(self.fragments() =~= Seq::new(count as nat, |j: int| Seq::<u8>::empty()));
        }
    }

    /// Puts the first `size` bytes of `data` in the place of fragment `id`,
    /// which is empty.
    fn store(&mut self, id: usize, data: &Vec<u8>, size: u32)
        requires
            old(self).wf(),
            id < old(self).num_fragments,
            old(self).fragment_size@[id as int] == 0,
            0 < size <= MAX_FRAGMENT_SIZE,
            size <= data@.len(),
        ensures
            final(self).wf(),
            final(self).slot() == (SlotView {
                fragments: old(self).slot().fragments.update(id as int, data@.take(size as int)),
                ..old(self).slot()
            }),
    {
        let mut copy: Vec<u8> = Vec::new();
        let mut i: usize = 0;
        while i < size as usize
            invariant
                i <= size <= data@.len(),
                copy@ == data@.take(i as int),
            decreases size - i,
        {
            copy.push(data[i]);
            assert(copy@ =~= data@.take(i + 1));
            i = i + 1;
        }
        let ghost before = self.fragments();
        proof {
            lemma_held_bound(before);
            lemma_held_update(before, id as int, copy@);
        }
        self.fragment_size[id] = size;
        self.fragment_data[id] = copy;
        self.received_fragments = self.received_fragments + 1;
        proof {
            assert(self.fragments() =~= before.update(id as int, data@.take(size as int)));
        }
    }

    /// Lets go of every fragment and marks the entry free. Returns how many
    /// fragments were held.
    fn clear(&mut self) -> (freed: u32)
        requires
            old(self).wf(),
        ensures
            final(self).wf(),
            final(self).free(),
            freed == held(old(self).slot().fragments),
    {
        let freed: u32 = self.received_fragments;
        let mut j: usize = 0;
        while j < MAX_FRAGMENTS_PER_PACKET
            invariant
                j <= MAX_FRAGMENTS_PER_PACKET,
                self.fragment_size@.len() == MAX_FRAGMENTS_PER_PACKET,
                self.fragment_data@.len() == MAX_FRAGMENTS_PER_PACKET,
                forall|x: int| 0 <= x < j ==> #[trigger] self.fragment_size@[x] == 0,
                forall|x: int| 0 <= x < j ==> (#[trigger] self.fragment_data@[x])@.len() == 0,
            decreases MAX_FRAGMENTS_PER_PACKET - j,
        {
            let empty: Vec<u8> = Vec::new();
            self.fragment_size[j] = 0;
            self.fragment_data[j] = empty;
            j = j + 1;
        }
        self.sequence = 0;
        self.num_fragments = 0;
        self.received_fragments = 0;
        proof {
            lemma_held_none(self.fragments());
        }
        freed
    }

    /// The packet's fragments laid end to end.
    fn assemble(&self) -> (packet: Vec<u8>)
        requires
            self.wf(),
        ensures
            packet@ == assembled(self.slot().fragments),
            packet@.len() <= MAX_FRAGMENTS_PER_PACKET * MAX_FRAGMENT_SIZE,
    {
        let mut packet: Vec<u8> = Vec::new();
        let mut j: usize = 0;
        let ghost all = self.fragments();
        proof {
            assert(all.take(0) =~= Seq::<Seq<u8>>::empty());
        }
        while j < self.num_fragments as usize
            invariant
                j <= self.num_fragments,
                self.wf(),
                all == self.fragments(),
                packet@ == assembled(all.take(j as int)),
                packet@.len() <= j * MAX_FRAGMENT_SIZE,
            decreases self.num_fragments - j,
        {
            let size: usize = self.fragment_size[j] as usize;
            let ghost start = packet@;
            let mut i: usize = 0;
            while i < size
                invariant
                    i <= size,
                    j < self.num_fragments,
                    self.wf(),
                    size == self.fragment_data@[j as int]@.len(),
                    packet@ == start + self.fragment_data@[j as int]@.take(i as int),
                decreases size - i,
            {
                packet.push(self.fragment_data[j][i]);
                assert(packet@ =~= start + self.fragment_data@[j as int]@.take(i + 1));
                i = i + 1;
            }
            proof {
                let piece = self.fragment_data@[j as int]@;
                assert(piece.take(size as int) =~= piece);
                assert(all.take(j + 1).drop_last() =~= all.take(j as int));
                assert(all.take(j + 1).last() == piece);
            }
            j = j + 1;
        }
        proof {
            assert(all.take(j as int) =~= all);
        }
        packet
    }
}

/// The receiver's reassembly buffer: `PACKET_BUFFER_SIZE` slots, the slot
/// of a packet being its sequence number modulo that size.
pub struct PacketBuffer {
    current_sequence: u16,
    num_buffered_fragments: u32,
    valid: Vec<bool>,
    entries: Vec<PacketBufferEntry>,
}

impl PacketBuffer {
    /// The buffer as contracts see it.
    pub closed spec fn view(&self) -> PacketBufferView {
        PacketBufferView {
            current: self.current_sequence,
            slots: Seq::new(
                PACKET_BUFFER_SIZE as nat,
                |i: int|
                    if self.valid@[i] {
                        Some(self.entries@[i].slot())
                    } else {
                        None
                    },
            ),
        }
    }

    /// The invariant of the buffer: every slot is sound, a slot that is not
    /// in use is free, and the count of fragments stored is right.
    pub closed spec fn wf(&self) -> bool {
        &&& self.valid@.len() == PACKET_BUFFER_SIZE
        &&& self.entries@.len() == PACKET_BUFFER_SIZE
        &&& forall|i: int|
            0 <= i < PACKET_BUFFER_SIZE ==> {
                &&& (#[trigger] self.entries@[i]).wf()
                &&& !self.valid@[i] ==> self.entries@[i].free()
            }
        &&& view_wf(self@)
        &&& self.num_buffered_fragments == stored(self@.slots)
    }

    /// What the invariant gives.
    pub proof fn lemma_wf(&self)
        requires
            self.wf(),
        ensures
            view_wf(self@),
    {
    }

    /// An empty buffer whose window ends at sequence number 0.
    pub fn new() -> (buffer: PacketBuffer)
        ensures
            buffer.wf(),
            view_wf(buffer@),
            buffer@.current == 0,
            forall|i: int| 0 <= i < PACKET_BUFFER_SIZE ==> (#[trigger] buffer@.slots[i]).is_none(),
    {
        let mut valid: Vec<bool> = Vec::new();
        let mut entries: Vec<PacketBufferEntry> = Vec::new();
        let mut i: usize = 0;
        while i < PACKET_BUFFER_SIZE
            invariant
                i <= PACKET_BUFFER_SIZE,
                valid@.len() == i,
                entries@.len() == i,
                forall|x: int| 0 <= x < i ==> !#[trigger] valid@[x],
                forall|x: int| 0 <= x < i ==> (#[trigger] entries@[x]).wf() && entries@[x].free(),
            decreases PACKET_BUFFER_SIZE - i,
        {
            valid.push(false);
            entries.push(PacketBufferEntry::new());
            i = i + 1;
        }
        let buffer = PacketBuffer {
            current_sequence: 0,
            num_buffered_fragments: 0,
            valid,
            entries,
        };
        proof {
            lemma_stored_none(buffer@.slots);
        }
        buffer
    }

    /// The newest sequence number, at which the window ends.
    pub fn get_current_sequence(&self) -> (sequence: u16)
        ensures
            sequence == self@.current,
    {
        self.current_sequence
    }

    /// Whether the slot `index` holds a packet's fragments.
    pub fn slot_in_use(&self, index: usize) -> (used: bool)
        requires
            self.wf(),
            index < PACKET_BUFFER_SIZE,
        ensures
            used == self@.slots[index as int].is_some(),
    {
        self.valid[index]
    }

    /// Number of fragments stored, over all packets.
    pub fn get_num_buffered_fragments(&self) -> (n: u32)
        requires
            self.wf(),
        ensures
            n == stored(self@.slots),
    {
        self.num_buffered_fragments
    }

    /// Empties the slot `index`, which is in use.
    fn release(&mut self, index: usize)
        requires
            old(self).wf(),
            index < PACKET_BUFFER_SIZE,
            old(self)@.slots[index as int].is_some(),
        ensures
            final(self).wf(),
            view_wf(final(self)@),
            final(self)@ == (PacketBufferView {
                slots: old(self)@.slots.update(index as int, None),
                ..old(self)@
            }),
    {
        let ghost before = self@;
        proof {
            lemma_stored_update(before.slots, index as int, None);
        }
        let freed: u32 = self.entries[index].clear();
        self.valid[index] = false;
        self.num_buffered_fragments = self.num_buffered_fragments - freed;
        proof {
            assert(self@.slots =~= before.slots.update(index as int, None));
        }
    }

    /// Moves the window on to end at `sequence`, where that is ahead of the
    /// newest sequence number. Every slot whose packet has left the window
    /// is emptied and its fragments are let go.
    #[verifier::rlimit(50)]
    pub fn advance(&mut self, sequence: u16)
        requires
            old(self).wf(),
        ensures
            final(self).wf(),
            view_wf(final(self)@),
            final(self)@ == advanced_to(old(self)@, sequence),
    {
        if sequence_difference(sequence, self.current_sequence) <= 0 {
            return ;
        }
        let ghost before = self@;
        let mut i: usize = 0;
        while i < PACKET_BUFFER_SIZE
            invariant
                i <= PACKET_BUFFER_SIZE,
                self.wf(),
                before == old(self)@,
                view_wf(before),
                self@.current == before.current,
                self.current_sequence == before.current,
                forall|x: int|
                    0 <= x < i ==> #[trigger] self@.slots[x] == advanced_to(
                        before,
                        sequence,
                    ).slots[x],
                forall|x: int|
                    i <= x < PACKET_BUFFER_SIZE ==> #[trigger] self@.slots[x] == before.slots[x],
                sequence_ahead(sequence, before.current) > 0,
            decreases PACKET_BUFFER_SIZE - i,
        {
            if self.valid[i] && !sequence_in_window(self.entries[i].sequence, sequence) {
                self.release(i);
            }
            i = i + 1;
        }
        let ghost swept = self@;
        self.current_sequence = sequence;
        proof {
            let after = advanced_to(before, sequence);
            assert(self@.slots =~= swept.slots);
            assert(self@.slots =~= after.slots);
            assert forall|x: int|
                0 <= x < PACKET_BUFFER_SIZE implies match #[trigger] self@.slots[x] {
                Some(slot) => slot_wf(slot, x, sequence),
                None => true,
            } by {
                assert(self@.slots[x] == after.slots[x]);
                assert(swept.slots[x] == after.slots[x]);
            }
        }
    }

    /// Takes in one fragment: the first `fragment_size` bytes of
    /// `fragment_data` as fragment `fragment_id` of the packet `packet_sequence`,
    /// which has `num_fragments_in_packet` fragments. The result tells
    /// whether the fragment was taken in; a fragment that is refused, as one
    /// is whose data is shorter than its size, leaves the buffer as it was.
    #[verifier::rlimit(50)]
    pub fn process_fragment(
        &mut self,
        fragment_data: &mut Buffer,
        fragment_size: u32,
        packet_sequence: u16,
        fragment_id: usize,
        num_fragments_in_packet: u32,
    ) -> (taken: bool)
        requires
            old(self).wf(),
        ensures
            final(self).wf(),
            view_wf(final(self)@),
            final(fragment_data)@ == old(fragment_data)@,
            taken == (fragment_size <= old(fragment_data)@.len() && accepts(
                old(self)@,
                fragment_size as int,
                packet_sequence,
                fragment_id as int,
                num_fragments_in_packet as int,
            )),
            taken ==> final(self)@ == with_fragment(
                old(self)@,
                old(fragment_data)@.take(fragment_size as int),
                packet_sequence,
                fragment_id as int,
                num_fragments_in_packet as int,
            ),
            !taken ==> final(self)@ == old(self)@,
            fragment_id >= num_fragments_in_packet || (fragment_id != num_fragments_in_packet - 1
                && fragment_size != MAX_FRAGMENT_SIZE) ==> !taken,
    {
        if fragment_size == 0 || fragment_size > MAX_FRAGMENT_SIZE as u32 {
            return false;
        }
        if fragment_size as usize > fragment_data.len() {
            return false;
        }
        if num_fragments_in_packet == 0 || num_fragments_in_packet
            > MAX_FRAGMENTS_PER_PACKET as u32 {
            return false;
        }
        if fragment_id >= num_fragments_in_packet as usize {
            return false;
        }
        if fragment_id as u32 != num_fragments_in_packet - 1 && fragment_size
            != MAX_FRAGMENT_SIZE as u32 {
            return false;
        }
        let ahead: i32 = sequence_difference(packet_sequence, self.current_sequence);
        if ahead > 1024 || ahead <= -(PACKET_BUFFER_SIZE as i32) {
            return false;
        }
        let index: usize = packet_sequence as usize % PACKET_BUFFER_SIZE;
        let ghost before = self@;
        if self.valid[index] {
            if self.entries[index].sequence != packet_sequence {
                return false;
            }
            if num_fragments_in_packet != self.entries[index].num_fragments {
                return false;
            }
            proof {
                self.entries@[index as int].lemma_size(fragment_id as int);
            }
            if self.entries[index].fragment_size[fragment_id] != 0 {
                return false;
            }
        } else {
            self.advance(packet_sequence);
            let ghost moved = self@;
            proof {
                lemma_stored_update(
                    moved.slots,
                    index as int,
                    Some(
                        SlotView {
                            sequence: packet_sequence,
                            count: num_fragments_in_packet as nat,
                            fragments: Seq::new(
                                num_fragments_in_packet as nat,
                                |j: int| Seq::<u8>::empty(),
                            ),
                        },
                    ),
                );
                lemma_held_none(
                    Seq::new(num_fragments_in_packet as nat, |j: int| Seq::<u8>::empty()),
                );
            }
            self.entries[index].open(packet_sequence, num_fragments_in_packet);
            self.valid[index] = true;
            proof {
                assert(self@.slots =~= moved.slots.update(
                    index as int,
                    Some(self.entries@[index as int].slot()),
                ));
            }
        }
        let ghost opened = self@;
        let ghost slot = opened.slots[index as int].unwrap();
        let ghost payload = fragment_data@.take(fragment_size as int);
        proof {
            self.entries@[index as int].lemma_size(fragment_id as int);
            lemma_stored_update(
                opened.slots,
                index as int,
                Some(
                    SlotView {
                        fragments: slot.fragments.update(fragment_id as int, payload),
                        ..slot
                    },
                ),
            );
            lemma_held_update(slot.fragments, fragment_id as int, payload);
            lemma_stored_bound(opened, PACKET_BUFFER_SIZE as int);
            assert(opened.slots.take(PACKET_BUFFER_SIZE as int) =~= opened.slots);
            lemma_held_bound(slot.fragments);
        }
        self.entries[index].store(fragment_id, fragment_data, fragment_size);
        self.num_buffered_fragments = self.num_buffered_fragments + 1;
        proof {
            assert(self@.slots =~= opened.slots.update(
                index as int,
                Some(self.entries@[index as int].slot()),
            ));
        }
        true
    }
}

/// The place in the window, counted from the oldest sequence number, of
/// the sequence numbers that belong to the slot `index`.
pub open spec fn window_place(current: u16, index: int) -> int {
    (index - (current as int + 1)) % PACKET_BUFFER_SIZE as int
}

/// The buffer after the whole packets among the first `k` sequence numbers
/// of the window have been handed out.
#[verifier::opaque]
pub open spec fn drained_to(view: PacketBufferView, k: int) -> PacketBufferView {
    PacketBufferView {
        slots: Seq::new(
            view.slots.len(),
            |i: int|
                if window_place(view.current, i) < k && complete(view.slots[i]) {
                    None
                } else {
                    view.slots[i]
                },
        ),
        ..view
    }
}

/// Two sequence numbers of one window that share a slot are the same.
proof fn lemma_one_sequence_per_slot(a: u16, b: u16, current: u16)
    requires
        in_window(a, current),
        in_window(b, current),
        slot_of(a) == slot_of(b),
    ensures
        a == b,
{
}

/// The sequence number at place `k` of the window lies in the window, and
/// its slot has that place.
proof fn lemma_window_sequence(current: u16, k: int)
    requires
        0 <= k < PACKET_BUFFER_SIZE,
    ensures
        in_window(window_sequence(current, k), current),
        window_place(current, slot_of(window_sequence(current, k))) == k,
        0 <= slot_of(window_sequence(current, k)) < PACKET_BUFFER_SIZE,
{
}

/// A datagram's fragment, as far as the reassembly buffer is concerned: the
/// payload, the packet's sequence number, the fragment's id and the
/// packet's number of fragments.
pub struct Arrival {
    pub payload: Seq<u8>,
    pub sequence: u16,
    pub fragment_id: int,
    pub count: int,
}

/// What a datagram brings, if anything. A datagram that does not parse as a
/// fragment envelope, or whose checksum does not match, brings nothing. One
/// with the tag 0 brings the fragment it carries. One with another tag is a
/// whole packet, and counts as the only fragment of itself.
pub open spec fn arrival(datagram: Seq<u8>) -> Option<Arrival> {
    let outcome = fragment_read(
        StreamView {
            writing: false,
            bits: byte_bits(datagram),
            position: 0,
            limit: 8 * datagram.len(),
            storage: datagram.len(),
            error: ProtocolError::NoError,
        },
    );
    match outcome.value {
        Some(read) => if !seal_intact(PROTOCOL_ID, datagram) {
            None
        } else if read.packet_type == 0 {
            Some(
                Arrival {
                    payload: read.payload,
                    sequence: read.sequence,
                    fragment_id: read.fragment_id as int,
                    count: read.num_fragments as int,
                },
            )
        } else {
            Some(Arrival { payload: datagram, sequence: read.sequence, fragment_id: 0, count: 1 })
        },
        None => None,
    }
}

impl PacketBuffer {
    /// Hands out the packet of `sequence`, which lies in the window, if it
    /// is whole, and empties its slot.
    fn take_whole(&mut self, sequence: u16) -> (packet: Option<PacketData>)
        requires
            old(self).wf(),
            in_window(sequence, old(self)@.current),
        ensures
            final(self).wf(),
            view_wf(final(self)@),
            packet.is_some() == complete(old(self)@.slots[slot_of(sequence)]),
            match packet {
                Some(p) => {
                    &&& p.data@ == assembled(
                        old(self)@.slots[slot_of(sequence)].unwrap().fragments,
                    )
                    &&& p.size == p.data@.len()
                    &&& final(self)@ == (PacketBufferView {
                        slots: old(self)@.slots.update(slot_of(sequence), None),
                        ..old(self)@
                    })
                },
                None => final(self)@ == old(self)@,
            },
    {
        let index: usize = sequence as usize % PACKET_BUFFER_SIZE;
        proof {
            match self@.slots[index as int] {
                Some(slot) => {
                    lemma_one_sequence_per_slot(slot.sequence, sequence, self@.current);
                },
                None => {},
            }
        }
        if self.valid[index] && self.entries[index].sequence == sequence {
            if self.entries[index].received_fragments == self.entries[index].num_fragments {
                let data: Vec<u8> = self.entries[index].assemble();
                let size: u32 = data.len() as u32;
                self.release(index);
                return Some(PacketData { size, data });
            }
        }
        None
    }

    /// Hands out the packets that are whole, oldest first, each as its
    /// fragments laid end to end, and empties their slots.
    #[verifier::rlimit(50)]
    pub fn receive_packets(&mut self) -> (packets: Vec<PacketData>)
        requires
            old(self).wf(),
        ensures
            final(self).wf(),
            view_wf(final(self)@),
            final(self)@ == drained(old(self)@),
            packets@.len() == whole_packets(old(self)@, PACKET_BUFFER_SIZE as int).len(),
            forall|n: int|
                0 <= n < packets@.len() ==> {
                    &&& (#[trigger] packets@[n]).data@ == whole_packets(
                        old(self)@,
                        PACKET_BUFFER_SIZE as int,
                    )[n]
                    &&& packets@[n].size == packets@[n].data@.len()
                },
    {
        let ghost before = self@;
        let mut packets: Vec<PacketData> = Vec::new();
        let mut k: usize = 0;
        proof {
            reveal(drained_to);
            assert(self@.slots =~= drained_to(before, 0).slots);
        }
        while k < PACKET_BUFFER_SIZE
            invariant
                k <= PACKET_BUFFER_SIZE,
                self.wf(),
                before.slots.len() == PACKET_BUFFER_SIZE,
                self@ == drained_to(before, k as int),
                packets@.len() == whole_packets(before, k as int).len(),
                forall|n: int|
                    0 <= n < packets@.len() ==> {
                        &&& (#[trigger] packets@[n]).data@ == whole_packets(before, k as int)[n]
                        &&& packets@[n].size == packets@[n].data@.len()
                    },
            decreases PACKET_BUFFER_SIZE - k,
        {
            proof {
                lemma_drained_current(before, k as int);
            }
            let sequence: u16 = sequence_at_place(self.current_sequence, k);
            proof {
                lemma_window_sequence(before.current, k as int);
                lemma_drain_step(before, k as int);
            }
            let ghost here = self@;
            let ghost index = slot_of(sequence);
            match self.take_whole(sequence) {
                Some(packet) => {
                    packets.push(packet);
                },
                None => {
                    assert(here.slots.update(index, here.slots[index]) =~= here.slots);
                },
            }
            k = k + 1;
        }
        proof {
            lemma_drained_all(before);
        }
        packets
    }

    /// Takes in one datagram: the first `size` bytes of `data`. Where it
    /// parses as a fragment envelope and its checksum matches, what it
    /// brings goes to `process_fragment`. The result tells whether a
    /// fragment was taken in.
    #[verifier::rlimit(50)]
    pub fn process_packet(&mut self, data: &mut Buffer, size: u32) -> (taken: bool)
        requires
            old(self).wf(),
            size <= old(data)@.len(),
            old(data)@.len() % 4 == 0,
            8 * old(data)@.len() <= u32::MAX,
        ensures
            final(self).wf(),
            view_wf(final(self)@),
            final(data)@ == old(data)@,
            taken == match arrival(old(data)@.take(size as int)) {
                Some(a) => accepts(
                    old(self)@,
                    a.payload.len() as int,
                    a.sequence,
                    a.fragment_id,
                    a.count,
                ),
                None => false,
            },
            taken ==> {
                let a = arrival(old(data)@.take(size as int)).unwrap();
                final(self)@ == with_fragment(
                    old(self)@,
                    a.payload,
                    a.sequence,
                    a.fragment_id,
                    a.count,
                )
            },
            !taken ==> final(self)@ == old(self)@,
    {
        let ghost datagram = data@.take(size as int);
        let mut fragment_packet = FragmentPacket::new();
        let intact: bool = frame_intact(data, 0, size as usize, PROTOCOL_ID);
        proof {
            assert(data@.subrange(0, size as int) =~= datagram);
            lemma_byte_bits_take(data@, size as int);
        }
        let parsed_ok: bool = {
            let mut stream = ReadStream::new(data, size as usize);
            fragment_packet.serialize(&mut stream)
        };
        if !parsed_ok {
            return false;
        }
        if !intact {
            return false;
        }
        if fragment_packet.packet_type == 0 {
            proof {
                let payload = arrival(datagram).unwrap().payload;
                assert(fragment_packet.fragment_data@.take(fragment_packet.fragment_size as int)
                    =~= payload);
            }
            self.process_fragment(
                &mut fragment_packet.fragment_data,
                fragment_packet.fragment_size,
                fragment_packet.sequence,
                fragment_packet.fragment_id as usize,
                fragment_packet.num_fragments as u32,
            )
        } else {
            self.process_fragment(data, size, fragment_packet.sequence, 0, 1)
        }
    }
}

/// Handing out at one more place of the window touches the slot of that
/// place and no other.
proof fn lemma_drain_step(view: PacketBufferView, k: int)
    requires
        view.slots.len() == PACKET_BUFFER_SIZE,
        0 <= k < PACKET_BUFFER_SIZE,
    ensures
        ({
            let index = slot_of(window_sequence(view.current, k));
            let here = drained_to(view, k);
            &&& here.slots[index] == view.slots[index]
            &&& drained_to(view, k + 1) == (PacketBufferView {
                slots: here.slots.update(
                    index,
                    if complete(view.slots[index]) {
                        None
                    } else {
                        view.slots[index]
                    },
                ),
                ..here
            })
        }),
{
    reveal(drained_to);
    let index = slot_of(window_sequence(view.current, k));
    let here = drained_to(view, k);
    let next = drained_to(view, k + 1);
    lemma_window_sequence(view.current, k);
    let target = here.slots.update(
        index,
        if complete(view.slots[index]) {
            None
        } else {
            view.slots[index]
        },
    );
    assert forall|i: int| 0 <= i < PACKET_BUFFER_SIZE implies next.slots[i] == target[i] by {
        if i != index {
            if window_place(view.current, i) == k {
                lemma_place_is_one_to_one(view.current, i, index);
            }
        }
    }
    assert(next.slots =~= target);
}

/// Handing out at every place of the window hands out every whole packet.
proof fn lemma_drained_all(view: PacketBufferView)
    requires
        view.slots.len() == PACKET_BUFFER_SIZE,
    ensures
        drained_to(view, PACKET_BUFFER_SIZE as int) == drained(view),
{
    reveal(drained_to);
    assert(drained_to(view, PACKET_BUFFER_SIZE as int).slots =~= drained(view).slots);
}

/// Handing out packets leaves the window where it is.
proof fn lemma_drained_current(view: PacketBufferView, k: int)
    ensures
        drained_to(view, k).current == view.current,
        drained_to(view, k).slots.len() == view.slots.len(),
{
    reveal(drained_to);
}

/// The sequence number at place `k` of the window that ends at `current`.
fn sequence_at_place(current: u16, k: usize) -> (sequence: u16)
    requires
        k < PACKET_BUFFER_SIZE,
    ensures
        sequence == window_sequence(current, k as int),
{
    let wide: u32 = current as u32 + 65536 - (PACKET_BUFFER_SIZE as u32 - 1) + k as u32;
    (wide % 65536) as u16
}

/// Different slots have different places in the window.
proof fn lemma_place_is_one_to_one(current: u16, i: int, j: int)
    requires
        0 <= i < PACKET_BUFFER_SIZE,
        0 <= j < PACKET_BUFFER_SIZE,
        window_place(current, i) == window_place(current, j),
    ensures
        i == j,
{
}

/// The buffer after the fragments of one packet have been taken in one
/// after the other, `order` giving their ids in the order of arrival.
pub open spec fn fed(
    view: PacketBufferView,
    sequence: u16,
    payloads: Seq<Seq<u8>>,
    order: Seq<int>,
) -> PacketBufferView
    decreases order.len(),
{
    if order.len() == 0 {
        view
    } else {
        with_fragment(
            fed(view, sequence, payloads, order.drop_last()),
            payloads[order.last()],
            sequence,
            order.last(),
            payloads.len() as int,
        )
    }
}

/// Whether `payloads` can be the fragments of one packet: there are between
/// 1 and `MAX_FRAGMENTS_PER_PACKET` of them, none is empty or larger than
/// `MAX_FRAGMENT_SIZE`, and all but the last have that size.
pub open spec fn fragments_of_a_packet(payloads: Seq<Seq<u8>>) -> bool {
    &&& 1 <= payloads.len() <= MAX_FRAGMENTS_PER_PACKET
    &&& forall|j: int|
        0 <= j < payloads.len() ==> {
            &&& 0 < (#[trigger] payloads[j]).len() <= MAX_FRAGMENT_SIZE
            &&& j < payloads.len() - 1 ==> payloads[j].len() == MAX_FRAGMENT_SIZE
        }
}

/// The fragments that a slot holds once those with the ids in `order` have
/// arrived.
pub open spec fn arrived(payloads: Seq<Seq<u8>>, order: Seq<int>) -> Seq<Seq<u8>> {
    Seq::new(
        payloads.len(),
        |j: int|
            if order.contains(j) {
                payloads[j]
            } else {
                Seq::empty()
            },
    )
}

/// Every fragment of a packet is taken in, in whatever order the fragments
/// arrive, provided none arrives twice, the packet's slot is free and its
/// sequence number is one that the window admits. The slot then holds
/// exactly the fragments that have arrived.
pub proof fn lemma_fragments_in_any_order(
    view: PacketBufferView,
    sequence: u16,
    payloads: Seq<Seq<u8>>,
    order: Seq<int>,
)
    requires
        view_wf(view),
        view.slots[slot_of(sequence)].is_none(),
        -(PACKET_BUFFER_SIZE as int) < sequence_ahead(sequence, view.current) <= 1024,
        fragments_of_a_packet(payloads),
        order.len() >= 1,
        order.no_duplicates(),
        forall|k: int| 0 <= k < order.len() ==> 0 <= #[trigger] order[k] < payloads.len(),
    ensures
        accepts(
            fed(view, sequence, payloads, order.drop_last()),
            payloads[order.last()].len() as int,
            sequence,
            order.last(),
            payloads.len() as int,
        ),
        fed(view, sequence, payloads, order).slots[slot_of(sequence)] == Some(
            SlotView {
                sequence,
                count: payloads.len(),
                fragments: arrived(payloads, order),
            },
        ),
        sequence_ahead(sequence, fed(view, sequence, payloads, order).current) <= 0,
        in_window(sequence, fed(view, sequence, payloads, order).current),
        fed(view, sequence, payloads, order).slots.len() == PACKET_BUFFER_SIZE,
    decreases order.len(),
{
    let index = slot_of(sequence);
    let count = payloads.len() as int;
    let id = order.last();
    let earlier = order.drop_last();
    let before = fed(view, sequence, payloads, earlier);
    let after = fed(view, sequence, payloads, order);
    assert(order[order.len() - 1] == id);
    if earlier.len() == 0 {
        let moved = advanced_to(view, sequence);
        let fresh = Seq::new(count as nat, |j: int| Seq::<u8>::empty());
        assert(after.slots[index].unwrap().fragments =~= arrived(payloads, order)) by {
            assert forall|j: int| 0 <= j < count implies fresh.update(id, payloads[id])[j]
                == arrived(payloads, order)[j] by {
                if j != id && order.contains(j) {
                    let k = choose|k: int| 0 <= k < order.len() && order[k] == j;
                }
            }
        }
    } else {
        assert forall|k: int| 0 <= k < earlier.len() implies 0 <= #[trigger] earlier[k]
            < payloads.len() by {
            assert(earlier[k] == order[k]);
        }
        assert(earlier.no_duplicates()) by {
            assert forall|a: int, b: int|
                0 <= a < earlier.len() && 0 <= b < earlier.len() && a != b implies earlier[a]
                != earlier[b] by {
                assert(earlier[a] == order[a]);
                assert(earlier[b] == order[b]);
            }
        }
        lemma_fragments_in_any_order(view, sequence, payloads, earlier);
        let held_before = arrived(payloads, earlier);
        assert(!earlier.contains(id)) by {
            if earlier.contains(id) {
                let k = choose|k: int| 0 <= k < earlier.len() && earlier[k] == id;
                assert(order[k] == id);
            }
        }
        assert(held_before[id].len() == 0);
        assert(held_before.update(id, payloads[id]) =~= arrived(payloads, order)) by {
            assert forall|j: int| 0 <= j < count implies held_before.update(id, payloads[id])[j]
                == arrived(payloads, order)[j] by {
                if j == id {
                    assert(order.contains(id));
                } else if earlier.contains(j) {
                    let k = choose|k: int| 0 <= k < earlier.len() && earlier[k] == j;
                    assert(order[k] == j);
                } else if order.contains(j) {
                    let k = choose|k: int| 0 <= k < order.len() && order[k] == j;
                    assert(earlier[k] == j);
                }
            }
        }
    }
}

/// A slot that holds every fragment of its packet is whole.
pub proof fn lemma_held_all(fragments: Seq<Seq<u8>>)
    requires
        forall|j: int| 0 <= j < fragments.len() ==> (#[trigger] fragments[j]).len() > 0,
    ensures
        held(fragments) == fragments.len(),
    decreases fragments.len(),
{
    if fragments.len() > 0 {
        lemma_held_all(fragments.drop_last());
    }
}

/// Reassembly in any order: once every fragment of a packet has arrived,
/// each once and in whatever order, the packet's slot is whole, and what it
/// hands out is the fragments laid end to end in the order of their ids.
pub proof fn lemma_reassembly_in_any_order(
    view: PacketBufferView,
    sequence: u16,
    payloads: Seq<Seq<u8>>,
    order: Seq<int>,
)
    requires
        view_wf(view),
        view.slots[slot_of(sequence)].is_none(),
        -(PACKET_BUFFER_SIZE as int) < sequence_ahead(sequence, view.current) <= 1024,
        fragments_of_a_packet(payloads),
        order.len() == payloads.len(),
        order.no_duplicates(),
        forall|k: int| 0 <= k < order.len() ==> 0 <= #[trigger] order[k] < payloads.len(),
        forall|j: int| 0 <= j < payloads.len() ==> order.contains(j),
    ensures
        complete(fed(view, sequence, payloads, order).slots[slot_of(sequence)]),
        fed(view, sequence, payloads, order).slots[slot_of(sequence)].unwrap().fragments
            == payloads,
{
    lemma_fragments_in_any_order(view, sequence, payloads, order);
    assert(arrived(payloads, order) =~= payloads);
    lemma_held_all(payloads);
}

/// Whether no slot of the buffer is in use.
pub open spec fn vacant(view: PacketBufferView) -> bool {
    forall|i: int| 0 <= i < PACKET_BUFFER_SIZE ==> (#[trigger] view.slots[i]).is_none()
}

/// The fragments of one packet, taken in by an empty buffer, leave every
/// other slot empty.
proof fn lemma_fed_alone(
    view: PacketBufferView,
    sequence: u16,
    payloads: Seq<Seq<u8>>,
    order: Seq<int>,
)
    requires
        view.slots.len() == PACKET_BUFFER_SIZE,
        vacant(view),
    ensures
        fed(view, sequence, payloads, order).slots.len() == PACKET_BUFFER_SIZE,
        forall|i: int|
            0 <= i < PACKET_BUFFER_SIZE && i != slot_of(sequence) ==> (#[trigger] fed(
                view,
                sequence,
                payloads,
                order,
            ).slots[i]).is_none(),
    decreases order.len(),
{
    if order.len() > 0 {
        lemma_fed_alone(view, sequence, payloads, order.drop_last());
    }
}

/// Where one slot alone holds a whole packet, the whole packets among the
/// first `k` sequence numbers of the window are that packet, once the
/// slot's place has been passed, and none before.
proof fn lemma_whole_up_to(view: PacketBufferView, index: int, k: int)
    requires
        view.slots.len() == PACKET_BUFFER_SIZE,
        0 <= index < PACKET_BUFFER_SIZE,
        0 <= k <= PACKET_BUFFER_SIZE,
        complete(view.slots[index]),
        forall|i: int|
            0 <= i < PACKET_BUFFER_SIZE && i != index ==> !complete(#[trigger] view.slots[i]),
    ensures
        whole_packets(view, k) == (if window_place(view.current, index) < k {
            seq![assembled(view.slots[index].unwrap().fragments)]
        } else {
            Seq::<Seq<u8>>::empty()
        }),
    decreases k,
{
    if k > 0 {
        lemma_whole_up_to(view, index, k - 1);
        lemma_window_sequence(view.current, k - 1);
        let here = slot_of(window_sequence(view.current, k - 1));
        if here != index {
            if window_place(view.current, index) == k - 1 {
                lemma_place_is_one_to_one(view.current, here, index);
            }
        } else {
            assert(Seq::<Seq<u8>>::empty().push(assembled(view.slots[index].unwrap().fragments))
                =~= seq![assembled(view.slots[index].unwrap().fragments)]);
        }
    }
}

/// One packet through an empty buffer: once every fragment of a packet has
/// been taken in by a buffer that held nothing, each once and in whatever
/// order, what the buffer hands out is that packet and no other, its
/// fragments laid end to end in the order of their ids, and the buffer is
/// empty again.
pub proof fn lemma_one_packet_is_handed_out(
    view: PacketBufferView,
    sequence: u16,
    payloads: Seq<Seq<u8>>,
    order: Seq<int>,
)
    requires
        view_wf(view),
        vacant(view),
        -(PACKET_BUFFER_SIZE as int) < sequence_ahead(sequence, view.current) <= 1024,
        fragments_of_a_packet(payloads),
        order.len() == payloads.len(),
        order.no_duplicates(),
        forall|k: int| 0 <= k < order.len() ==> 0 <= #[trigger] order[k] < payloads.len(),
        forall|j: int| 0 <= j < payloads.len() ==> order.contains(j),
    ensures
        whole_packets(fed(view, sequence, payloads, order), PACKET_BUFFER_SIZE as int)
            == seq![assembled(payloads)],
        vacant(drained(fed(view, sequence, payloads, order))),
{
    let full = fed(view, sequence, payloads, order);
    lemma_reassembly_in_any_order(view, sequence, payloads, order);
    lemma_fed_alone(view, sequence, payloads, order);
    lemma_whole_up_to(full, slot_of(sequence), PACKET_BUFFER_SIZE as int);
}

} // verus!
