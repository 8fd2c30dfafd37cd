//! Network traffic by process: the events that report it and the counters that
//! gather it.
use vstd::prelude::*;

use crate::win32;

verus! {

/// How many processes can be counted at a time.
pub const MAX_TRACKED_SLOTS: usize = 32;

/// The counters of one process; a slot with the process number zero is free.
#[derive(Debug, Clone, Copy, PartialEq, Eq, Structural)]
pub struct NetCounterSlot {
    pub pid: u32,
    pub rx_bytes: u64,
    pub tx_bytes: u64,
}

/// A slot that belongs to no process.
pub open spec fn free_slot() -> NetCounterSlot {
    NetCounterSlot { pid: 0, rx_bytes: 0, tx_bytes: 0 }
}

impl Default for NetCounterSlot {
    fn default() -> (s: Self)
        ensures
            s == free_slot(),
    {
        NetCounterSlot { pid: 0, rx_bytes: 0, tx_bytes: 0 }
    }
}

/// The counters of all processes that are counted.
#[derive(Debug, Clone)]
pub struct SharedNetState {
    pub slots: [NetCounterSlot; MAX_TRACKED_SLOTS],
}

/// The first slot from `from` on with the process number `pid`, or the number of
/// slots.
pub open spec fn slot_of(slots: Seq<NetCounterSlot>, pid: u32, from: int) -> int
    decreases slots.len() - from,
{
    if from >= slots.len() {
        slots.len() as int
    } else if slots[from].pid == pid {
        from
    } else {
        slot_of(slots, pid, from + 1)
    }
}

/// What `slot_of` finds: the nearest slot with the number, if there is one.
proof fn lemma_slot_of(slots: Seq<NetCounterSlot>, pid: u32, from: int)
    requires
        0 <= from <= slots.len(),
    ensures
        from <= slot_of(slots, pid, from) <= slots.len(),
        forall|i: int| from <= i < slot_of(slots, pid, from) ==> (#[trigger] slots[i]).pid != pid,
        slot_of(slots, pid, from) < slots.len() ==> slots[slot_of(slots, pid, from)].pid == pid,
    decreases slots.len() - from,
{
    if from < slots.len() && slots[from].pid != pid {
        lemma_slot_of(slots, pid, from + 1);
    }
}

/// The slots after `pid` has asked for one, and the slot it got: the one it
/// already has, or else the first free one with its counters at zero.
pub open spec fn claimed(slots: Seq<NetCounterSlot>, pid: u32) -> (
    Seq<NetCounterSlot>,
    Option<int>,
) {
    let own = slot_of(slots, pid, 0);
    let free = slot_of(slots, 0, 0);
    if pid == 0 {
        (slots, None)
    } else if own < slots.len() {
        (slots, Some(own))
    } else if free < slots.len() {
        (slots.update(free, NetCounterSlot { pid, ..free_slot() }), Some(free))
    } else {
        (slots, None)
    }
}

/// The slots after the counters of `slot` were read and set to zero.
pub open spec fn drained(slots: Seq<NetCounterSlot>, slot: int) -> Seq<NetCounterSlot> {
    slots.update(slot, NetCounterSlot { rx_bytes: 0, tx_bytes: 0, ..slots[slot] })
}

/// The slots after traffic of `pid` was reported. Traffic of a process without a
/// slot is not counted; the counters wrap around.
pub open spec fn recorded(slots: Seq<NetCounterSlot>, pid: u32, rx: u64, tx: u64) -> Seq<
    NetCounterSlot,
> {
    let own = slot_of(slots, pid, 0);
    if pid == 0 || own >= slots.len() {
        slots
    } else {
        slots.update(
            own,
            NetCounterSlot {
                rx_bytes: win32::wrapping_sum(slots[own].rx_bytes, rx) as u64,
                tx_bytes: win32::wrapping_sum(slots[own].tx_bytes, tx) as u64,
                ..slots[own]
            },
        )
    }
}

/// Whether no process has two slots.
pub open spec fn no_double_slots(slots: Seq<NetCounterSlot>) -> bool {
    forall|i: int, j: int|
        0 <= i < j < slots.len() && (#[trigger] slots[i]).pid == (#[trigger] slots[j]).pid
            ==> slots[i].pid == 0
}

impl Default for SharedNetState {
    fn default() -> (s: Self)
        ensures
            s.wf(),
            s.slots@ == Seq::new(MAX_TRACKED_SLOTS as nat, |i: int| free_slot()),
    {
        let slots: [NetCounterSlot; MAX_TRACKED_SLOTS] = [NetCounterSlot {
            pid: 0,
            rx_bytes: 0,
            tx_bytes: 0,
        };MAX_TRACKED_SLOTS];
        assert(slots@ == Seq::new(MAX_TRACKED_SLOTS as nat, |i: int| free_slot()));
        SharedNetState { slots }
    }
}

impl SharedNetState {
    /// Whether no process has two slots.
    pub open spec fn wf(self) -> bool {
        no_double_slots(self.slots@)
    }

    /// Counters for no process yet.
    pub fn new() -> (s: Self)
        ensures
            s.wf(),
            s.slots@ == Seq::new(MAX_TRACKED_SLOTS as nat, |i: int| free_slot()),
    {
        Self::default()
    }

    /// The first slot with the process number `pid`, or the number of slots.
    fn find_slot(&self, pid: u32) -> (k: usize)
        ensures
            k == slot_of(self.slots@, pid, 0),
            k <= MAX_TRACKED_SLOTS,
    {
        let mut i: usize = 0;
        while i < MAX_TRACKED_SLOTS && self.slots[i].pid != pid
            invariant
                i <= MAX_TRACKED_SLOTS == self.slots@.len(),
                slot_of(self.slots@, pid, 0) == slot_of(self.slots@, pid, i as int),
            decreases MAX_TRACKED_SLOTS - i,
        {
            i = i + 1;
        }
        i
    }

    /// Finds a slot for the process `pid`: its own, or else the first free one,
    /// whose counters begin at zero. `None` if all are taken.
    pub fn claim_slot(&mut self, pid: u32) -> (r: Option<usize>)
        ensures
            final(self).slots@ == claimed(old(self).slots@, pid).0,
            match r {
                Some(k) => claimed(old(self).slots@, pid).1 == Some(k as int),
                None => claimed(old(self).slots@, pid).1 is None,
            },
            old(self).wf() ==> final(self).wf(),
    {
        if pid == 0 {
            return None;
        }
        proof {
            lemma_slot_of(self.slots@, pid, 0);
            lemma_slot_of(self.slots@, 0, 0);
        }
        let own: usize = self.find_slot(pid);
        if own < MAX_TRACKED_SLOTS {
            return Some(own);
        }
        let free: usize = self.find_slot(0);
        if free < MAX_TRACKED_SLOTS {
            self.slots[free] = NetCounterSlot { pid, rx_bytes: 0, tx_bytes: 0 };
            return Some(free);
        }
        None
    }

    /// Hands out the counters of a slot, received and sent bytes, and sets them to
    /// zero.
    pub fn drain_slot(&mut self, slot_idx: usize) -> (r: (u64, u64))
        ensures
            slot_idx >= MAX_TRACKED_SLOTS ==> r == (0u64, 0u64) && final(self).slots@ == old(
                self,
            ).slots@,
            slot_idx < MAX_TRACKED_SLOTS ==> {
                &&& r.0 == old(self).slots@[slot_idx as int].rx_bytes
                &&& r.1 == old(self).slots@[slot_idx as int].tx_bytes
                &&& final(self).slots@ == drained(old(self).slots@, slot_idx as int)
            },
            old(self).wf() ==> final(self).wf(),
    {
        if slot_idx >= MAX_TRACKED_SLOTS {
            return (0, 0);
        }
        let slot: NetCounterSlot = self.slots[slot_idx];
        self.slots[slot_idx] = NetCounterSlot { pid: slot.pid, rx_bytes: 0, tx_bytes: 0 };
        (slot.rx_bytes, slot.tx_bytes)
    }

    /// Hands out the counters of a slot and makes it free.
    pub fn release_slot(&mut self, slot_idx: usize) -> (r: (u64, u64))
        ensures
            slot_idx >= MAX_TRACKED_SLOTS ==> r == (0u64, 0u64) && final(self).slots@ == old(
                self,
            ).slots@,
            slot_idx < MAX_TRACKED_SLOTS ==> {
                &&& r.0 == old(self).slots@[slot_idx as int].rx_bytes
                &&& r.1 == old(self).slots@[slot_idx as int].tx_bytes
                &&& final(self).slots@ == old(self).slots@.update(slot_idx as int, free_slot())
            },
            old(self).wf() ==> final(self).wf(),
    {
        if slot_idx >= MAX_TRACKED_SLOTS {
            return (0, 0);
        }
        let slot: NetCounterSlot = self.slots[slot_idx];
        self.slots[slot_idx] = NetCounterSlot { pid: 0, rx_bytes: 0, tx_bytes: 0 };
        (slot.rx_bytes, slot.tx_bytes)
    }

    /// Counts traffic of the process `pid`, if it has a slot.
    pub fn record_traffic(&mut self, pid: u32, rx_delta: u64, tx_delta: u64)
        ensures
            final(self).slots@ == recorded(old(self).slots@, pid, rx_delta, tx_delta),
            old(self).wf() ==> final(self).wf(),
    {
        proof {
            lemma_slot_of(self.slots@, pid, 0);
        }
        let own: usize = self.find_slot(pid);
        if pid != 0 && own < MAX_TRACKED_SLOTS {
            let slot: NetCounterSlot = self.slots[own];
            self.slots[own] =
            NetCounterSlot {
                pid: slot.pid,
                rx_bytes: slot.rx_bytes.wrapping_add(rx_delta),
                tx_bytes: slot.tx_bytes.wrapping_add(tx_delta),
            };
        }
    }
}

/// A process that has claimed a slot gets back from it exactly the traffic that is
/// reported for it afterwards, and draining it again gives nothing.
pub proof fn law_claimed_slot_counts_traffic(
    slots: Seq<NetCounterSlot>,
    pid: u32,
    rx: u64,
    tx: u64,
)
    requires
        claimed(slots, pid).1 is Some,
    ensures
        ({
            let (taken, slot) = claimed(slots, pid);
            let k = slot->0;
            let counted = recorded(taken, pid, rx, tx);
            let emptied = drained(counted, k);
            &&& 0 <= k < slots.len()
            &&& taken[k].pid == pid
            &&& counted[k].rx_bytes == win32::wrapping_sum(taken[k].rx_bytes, rx)
            &&& counted[k].tx_bytes == win32::wrapping_sum(taken[k].tx_bytes, tx)
            &&& slot_of(slots, pid, 0) == slots.len() ==> taken[k].rx_bytes == 0
                && taken[k].tx_bytes == 0
            &&& emptied[k].pid == pid
            &&& emptied[k].rx_bytes == 0
            &&& emptied[k].tx_bytes == 0
        }),
{
    lemma_slot_of(slots, pid, 0);
    lemma_slot_of(slots, 0, 0);
    let (taken, slot) = claimed(slots, pid);
    let k = slot->0;
    lemma_slot_of(taken, pid, 0);
    let own = slot_of(taken, pid, 0);
    assert(taken[k].pid == pid);
    if slot_of(slots, pid, 0) == slots.len() {
        if own < k {
            assert(taken[own] == slots[own]);
            assert(slots[own].pid != pid);
        }
    }
    assert(own == k);
}

/// Traffic counts for its own process only: no other slot changes, and nothing
/// changes at all where the process has no slot.
pub proof fn law_other_slots_untouched(
    slots: Seq<NetCounterSlot>,
    pid: u32,
    rx: u64,
    tx: u64,
    i: int,
)
    requires
        0 <= i < slots.len(),
        slots[i].pid != pid,
    ensures
        recorded(slots, pid, rx, tx)[i] == slots[i],
        slot_of(slots, pid, 0) == slots.len() ==> recorded(slots, pid, rx, tx) == slots,
{
    lemma_slot_of(slots, pid, 0);
}

/// Traffic reported in two parts counts like their sum.
pub proof fn law_traffic_adds_up(
    slots: Seq<NetCounterSlot>,
    pid: u32,
    rx1: u64,
    tx1: u64,
    rx2: u64,
    tx2: u64,
)
    requires
        rx1 + rx2 <= u64::MAX,
        tx1 + tx2 <= u64::MAX,
    ensures
        recorded(recorded(slots, pid, rx1, tx1), pid, rx2, tx2) == recorded(
            slots,
            pid,
            (rx1 + rx2) as u64,
            (tx1 + tx2) as u64,
        ),
{
    lemma_slot_of(slots, pid, 0);
    let once = recorded(slots, pid, rx1, tx1);
    lemma_slot_of(once, pid, 0);
    let k = slot_of(slots, pid, 0);
    if pid != 0 && k < slots.len() {
        let own = slot_of(once, pid, 0);
        assert(once[k].pid == pid);
        if own < k {
            assert(once[own] == slots[own]);
        }
        assert(own == k);
        assert(recorded(once, pid, rx2, tx2) =~= recorded(
            slots,
            pid,
            (rx1 + rx2) as u64,
            (tx1 + tx2) as u64,
        ));
    }
}

/// After its slot was released a process has none, and its traffic is not counted.
pub proof fn law_released_slot_is_free(
    slots: Seq<NetCounterSlot>,
    k: int,
    rx: u64,
    tx: u64,
)
    requires
        no_double_slots(slots),
        0 <= k < slots.len(),
        slots[k].pid != 0,
    ensures
        ({
            let left = slots.update(k, free_slot());
            &&& slot_of(left, slots[k].pid, 0) == slots.len()
            &&& recorded(left, slots[k].pid, rx, tx) == left
            &&& slot_of(left, 0, 0) <= k
        }),
{
    let left = slots.update(k, free_slot());
    let pid = slots[k].pid;
    lemma_slot_of(left, pid, 0);
    lemma_slot_of(left, 0, 0);
    let own = slot_of(left, pid, 0);
    if own < slots.len() {
        assert(left[own].pid == pid);
        assert(own != k);
        assert(slots[own].pid == slots[k].pid);
    }
    if slot_of(left, 0, 0) > k {
        assert(left[k].pid != 0);
    }
}

/// The number that four bytes from `i` on stand for, least significant first.
pub open spec fn le_u32(data: Seq<u8>, i: int) -> nat {
    (data[i] + data[i + 1] * 0x100 + data[i + 2] * 0x1_0000 + data[i + 3] * 0x100_0000) as nat
}

/// The number that two bytes from `i` on stand for, least significant first.
pub open spec fn le_u16(data: Seq<u8>, i: int) -> nat {
    (data[i] + data[i + 1] * 0x100) as nat
}

/// Reads four bytes as a number, least significant first.
fn read_u32(data: &[u8], i: usize) -> (r: u32)
    requires
        i + 4 <= data@.len(),
    ensures
        r == le_u32(data@, i as int),
{
    data[i] as u32 + data[i + 1] as u32 * 0x100 + data[i + 2] as u32 * 0x1_0000 + data[i + 3] as u32
        * 0x100_0000
}

/// Reads two bytes as a number, least significant first.
fn read_u16(data: &[u8], i: usize) -> (r: u16)
    requires
        i + 2 <= data@.len(),
    ensures
        r == le_u16(data@, i as int),
{
    data[i] as u16 + data[i + 1] as u16 * 0x100
}

/// The size of the fixed part of an IPv4 event.
pub const IPV4_PREFIX_SIZE: usize = 20;

/// The size of the fixed part of an IPv6 event.
pub const IPV6_PREFIX_SIZE: usize = 44;

/// The fixed part of an IPv4 event.
#[derive(Debug, Clone, Copy, PartialEq, Eq)]
pub struct KernelNetIpv4Prefix {
    pub pid: u32,
    pub size: u32,
    pub daddr: [u8; 4],
    pub saddr: [u8; 4],
    pub dport: u16,
    pub sport: u16,
}

impl KernelNetIpv4Prefix {
    /// Reads the fixed part of an IPv4 event; `None` if `data` is too short.
    pub fn parse(data: &[u8]) -> (r: Option<Self>)
        ensures
            match r {
                Some(p) => {
                    &&& data@.len() >= IPV4_PREFIX_SIZE
                    &&& p.pid == le_u32(data@, 0)
                    &&& p.size == le_u32(data@, 4)
                    &&& p.daddr@ == data@.subrange(8, 12)
                    &&& p.saddr@ == data@.subrange(12, 16)
                    &&& p.dport == le_u16(data@, 16)
                    &&& p.sport == le_u16(data@, 18)
                },
                None => data@.len() < IPV4_PREFIX_SIZE,
            },
    {
        if data.len() < IPV4_PREFIX_SIZE {
            return None;
        }
        let daddr: [u8; 4] = [data[8], data[9], data[10], data[11]];
        let saddr: [u8; 4] = [data[12], data[13], data[14], data[15]];
        assert(daddr@ =~= data@.subrange(8, 12));
        assert(saddr@ =~= data@.subrange(12, 16));
        Some(
            KernelNetIpv4Prefix {
                pid: read_u32(data, 0),
                size: read_u32(data, 4),
                daddr,
                saddr,
                dport: read_u16(data, 16),
                sport: read_u16(data, 18),
            },
        )
    }
}

/// The fixed part of an IPv6 event.
#[derive(Debug, Clone, Copy, PartialEq, Eq)]
pub struct KernelNetIpv6Prefix {
    pub pid: u32,
    pub size: u32,
    pub daddr: [u8; 16],
    pub saddr: [u8; 16],
    pub dport: u16,
    pub sport: u16,
}

/// Copies the sixteen bytes of an address.
fn read_address(data: &[u8], i: usize) -> (r: [u8; 16])
    requires
        i + 16 <= data@.len(),
    ensures
        r@ == data@.subrange(i as int, i + 16),
{
    let r: [u8; 16] = [
        data[i],
        data[i + 1],
        data[i + 2],
        data[i + 3],
        data[i + 4],
        data[i + 5],
        data[i + 6],
        data[i + 7],
        data[i + 8],
        data[i + 9],
        data[i + 10],
        data[i + 11],
        data[i + 12],
        data[i + 13],
        data[i + 14],
        data[i + 15],
    ];
    assert(r@ =~= data@.subrange(i as int, i + 16));
    r
}

impl KernelNetIpv6Prefix {
    /// Reads the fixed part of an IPv6 event; `None` if `data` is too short.
    pub fn parse(data: &[u8]) -> (r: Option<Self>)
        ensures
            match r {
                Some(p) => {
                    &&& data@.len() >= IPV6_PREFIX_SIZE
                    &&& p.pid == le_u32(data@, 0)
                    &&& p.size == le_u32(data@, 4)
                    &&& p.daddr@ == data@.subrange(8, 24)
                    &&& p.saddr@ == data@.subrange(24, 40)
                    &&& p.dport == le_u16(data@, 40)
                    &&& p.sport == le_u16(data@, 42)
                },
                None => data@.len() < IPV6_PREFIX_SIZE,
            },
    {
        if data.len() < IPV6_PREFIX_SIZE {
            return None;
        }
        Some(
            KernelNetIpv6Prefix {
                pid: read_u32(data, 0),
                size: read_u32(data, 4),
                daddr: read_address(data, 8),
                saddr: read_address(data, 24),
                dport: read_u16(data, 40),
                sport: read_u16(data, 42),
            },
        )
    }
}

/// The IPv6 loopback address, `::1`.
pub open spec fn ipv6_loopback() -> Seq<u8> {
    Seq::new(15, |i: int| 0u8).push(1u8)
}

/// What an IPv4 address that is written as an IPv6 address begins with,
/// `::ffff:0:0`.
pub open spec fn ipv4_mapped_prefix() -> Seq<u8> {
    Seq::new(10, |i: int| 0u8).push(0xffu8).push(0xffu8)
}

/// Whether `addr` is `::1` or stands for an IPv4 address of the network
/// `127.0.0.0/8`.
pub open spec fn ipv6_is_loopback(addr: Seq<u8>) -> bool {
    ||| addr == ipv6_loopback()
    ||| ipv4_mapped_prefix().is_prefix_of(addr) && addr.len() > 12 && addr[12] == 127
}

/// Tests whether an IPv6 address is a loopback address. The beginning of a mapped
/// IPv4 address alone is no address.
pub fn is_ipv6_loopback(addr: &[u8]) -> (r: bool)
    requires
        addr@ != ipv4_mapped_prefix(),
    ensures
        r == ipv6_is_loopback(addr@),
{
    let n: usize = addr.len();
    let mut zeros: usize = 0;
    while zeros < n && addr[zeros] == 0
        invariant
            zeros <= n == addr@.len(),
            forall|i: int| 0 <= i < zeros ==> addr@[i] == 0,
        decreases n - zeros,
    {
        zeros = zeros + 1;
    }
    if n == 16 && zeros == 15 && addr[15] == 1 {
        assert(addr@ =~= ipv6_loopback());
        return true;
    }
    proof {
        if addr@ == ipv6_loopback() {
            assert(addr@[15] == 1);
            assert(zeros <= 15);
            assert(zeros < 15 ==> ipv6_loopback()[zeros as int] == 0);
        }
        if ipv4_mapped_prefix().is_prefix_of(addr@) {
            assert(ipv4_mapped_prefix()[10] == addr@[10]);
            assert(ipv4_mapped_prefix()[11] == addr@[11]);
            assert(zeros <= 10);
            assert(zeros < 10 ==> ipv4_mapped_prefix()[zeros as int] == addr@[zeros as int]);
            assert(n == 12 ==> addr@ =~= ipv4_mapped_prefix());
        }
    }
    if n > 12 && zeros == 10 && addr[10] == 0xff && addr[11] == 0xff && addr[12] == 127 {
        assert(ipv4_mapped_prefix().is_prefix_of(addr@)) by {
            assert(addr@.subrange(0, 12) =~= ipv4_mapped_prefix());
        }
        return true;
    }
    false
}

/// The direction of the traffic that an event reports, and its address family.
#[derive(Debug, Clone, Copy, PartialEq, Eq, Structural)]
pub struct EventKind {
    pub sent: bool,
    pub ipv6: bool,
}

/// What the events of the kernel's network provider report: TCP and UDP traffic,
/// sent and received, over IPv4 and IPv6.
pub open spec fn event_kind(event_id: u16) -> Option<EventKind> {
    if event_id == 10 || event_id == 42 {
        Some(EventKind { sent: true, ipv6: false })
    } else if event_id == 11 || event_id == 43 {
        Some(EventKind { sent: false, ipv6: false })
    } else if event_id == 26 || event_id == 58 {
        Some(EventKind { sent: true, ipv6: true })
    } else if event_id == 27 || event_id == 59 {
        Some(EventKind { sent: false, ipv6: true })
    } else {
        None
    }
}

/// Tells what an event reports.
pub fn classify_event(event_id: u16) -> (r: Option<EventKind>)
    ensures
        r == event_kind(event_id),
{
    match event_id {
        10 | 42 => Some(EventKind { sent: true, ipv6: false }),
        11 | 43 => Some(EventKind { sent: false, ipv6: false }),
        26 | 58 => Some(EventKind { sent: true, ipv6: true }),
        27 | 59 => Some(EventKind { sent: false, ipv6: true }),
        _ => None,
    }
}

/// Whether an event is about traffic of the machine with itself: one of its two
/// addresses is a loopback address. Data that is too short to hold the addresses
/// does not tell.
pub open spec fn event_is_loopback(event_id: u16, data: Seq<u8>) -> bool {
    match event_kind(event_id) {
        None => false,
        Some(kind) => if kind.ipv6 {
            data.len() >= IPV6_PREFIX_SIZE && (ipv6_is_loopback(data.subrange(8, 24))
                || ipv6_is_loopback(data.subrange(24, 40)))
        } else {
            data.len() >= IPV4_PREFIX_SIZE && (data[8] == 127 || data[12] == 127)
        },
    }
}

/// Tests whether an event is about loopback traffic (127.0.0.0/8, ::1,
/// ::ffff:127.x.x.x).
pub fn is_loopback(event_id: u16, user_data: &[u8]) -> (r: bool)
    ensures
        r == event_is_loopback(event_id, user_data@),
{
    match classify_event(event_id) {
        None => false,
        Some(kind) => if kind.ipv6 {
            match KernelNetIpv6Prefix::parse(user_data) {
                None => false,
                Some(p) => {
                    assert(p.daddr@.len() == 16 && p.saddr@.len() == 16);
                    is_ipv6_loopback(p.daddr.as_slice()) || is_ipv6_loopback(p.saddr.as_slice())
                },
            }
        } else {
            match KernelNetIpv4Prefix::parse(user_data) {
                None => false,
                Some(p) => {
                    assert(p.daddr@[0] == user_data@[8]);
                    assert(p.saddr@[0] == user_data@[12]);
                    p.daddr[0] == 127 || p.saddr[0] == 127
                },
            }
        },
    }
}

/// Traffic of a process: received and sent bytes.
#[derive(Debug, Clone, Copy, PartialEq, Eq, Structural)]
pub struct Traffic {
    pub pid: u32,
    pub rx_bytes: u64,
    pub tx_bytes: u64,
}

/// The traffic that an event of schema version `version` reports, if it is one to
/// be counted: of a known kind and version, with a process and a size in its data,
/// and not loopback traffic.
pub open spec fn event_traffic(version: u8, event_id: u16, data: Seq<u8>) -> Option<Traffic> {
    match event_kind(event_id) {
        Some(kind) => if version != 0 || data.len() < 8 || event_is_loopback(event_id, data) {
            None
        } else if kind.sent {
            Some(
                Traffic {
                    pid: le_u32(data, 0) as u32,
                    rx_bytes: 0,
                    tx_bytes: le_u32(data, 4) as u64,
                },
            )
        } else {
            Some(
                Traffic {
                    pid: le_u32(data, 0) as u32,
                    rx_bytes: le_u32(data, 4) as u64,
                    tx_bytes: 0,
                },
            )
        },
        None => None,
    }
}

/// Decodes an event of the kernel's network provider.
pub fn decode_event(version: u8, event_id: u16, user_data: &[u8]) -> (r: Option<Traffic>)
    ensures
        r == event_traffic(version, event_id, user_data@),
{
    if version != 0 {
        return None;
    }
    match classify_event(event_id) {
        None => None,
        Some(kind) => {
            if user_data.len() < 8 || is_loopback(event_id, user_data) {
                return None;
            }
            let pid: u32 = read_u32(user_data, 0);
            let size: u64 = read_u32(user_data, 4) as u64;
            if kind.sent {
                Some(Traffic { pid, rx_bytes: 0, tx_bytes: size })
            } else {
                Some(Traffic { pid, rx_bytes: size, tx_bytes: 0 })
            }
        },
    }
}

/// There is room for 32 processes, and in the beginning no slot belongs to any.
pub proof fn law_counters_begin_empty(s: SharedNetState, d: SharedNetState, slot: NetCounterSlot)
    requires
        call_ensures(SharedNetState::new, (), s),
        call_ensures(SharedNetState::default, (), d),
        call_ensures(NetCounterSlot::default, (), slot),
    ensures
        s.slots@.len() == 32,
        d.slots@.len() == 32,
        forall|i: int|
            0 <= i < 32 ==> (#[trigger] s.slots@[i]).pid == 0 && s.slots@[i].rx_bytes == 0
                && s.slots@[i].tx_bytes == 0,
        d.slots@ == s.slots@,
        slot.pid == 0 && slot.rx_bytes == 0 && slot.tx_bytes == 0,
{
}

/// A process that has a slot is given that slot, and nothing changes. Another one is
/// given the first free slot, whose counters begin at zero, while no other slot changes.
/// The number zero stands for no process, and where no slot is free none is given.
pub proof fn law_claiming_gives_a_slot(s: &mut SharedNetState, pid: u32, r: Option<usize>)
    requires
        call_ensures(SharedNetState::claim_slot, (s, pid), r),
    ensures
        ({
            let slots = old(s).slots@;
            let owned = pid != 0 && exists|i: int|
                0 <= i < slots.len() && (#[trigger] slots[i]).pid == pid;
            let vacant = exists|i: int| 0 <= i < slots.len() && (#[trigger] slots[i]).pid == 0;
            &&& r is Some <==> pid != 0 && (owned || vacant)
            &&& r matches Some(k) ==> k < slots.len() && final(s).slots@[k as int].pid == pid
            &&& owned ==> final(s).slots@ == slots
            &&& r is None ==> final(s).slots@ == slots
            &&& r matches Some(k) ==> !owned ==> {
                &&& slots[k as int].pid == 0
                &&& final(s).slots@[k as int].rx_bytes == 0
                &&& final(s).slots@[k as int].tx_bytes == 0
                &&& forall|i: int| 0 <= i < k ==> (#[trigger] slots[i]).pid != 0
                &&& forall|i: int|
                    0 <= i < slots.len() && i != k ==> #[trigger] final(s).slots@[i] == slots[i]
            }
        }),
{
    lemma_slot_of(old(s).slots@, pid, 0);
    lemma_slot_of(old(s).slots@, 0, 0);
}

/// Traffic is added to both counters of its process, which wrap around, received bytes
/// to received ones and sent bytes to sent ones. Nothing else changes.
pub proof fn law_traffic_is_added(s: &mut SharedNetState, pid: u32, rx: u64, tx: u64, k: int)
    requires
        call_ensures(SharedNetState::record_traffic, (s, pid, rx, tx), ()),
        pid != 0,
        0 <= k < old(s).slots@.len(),
        old(s).slots@[k].pid == pid,
        forall|i: int|
            0 <= i < old(s).slots@.len() && i != k ==> (#[trigger] old(s).slots@[i]).pid != pid,
    ensures
        ({
            let (before, after) = (old(s).slots@[k], final(s).slots@[k]);
            &&& final(s).slots@.len() == old(s).slots@.len()
            &&& after.pid == pid
            &&& after.rx_bytes == (before.rx_bytes + rx) % 0x1_0000_0000_0000_0000
            &&& after.tx_bytes == (before.tx_bytes + tx) % 0x1_0000_0000_0000_0000
        }),
        forall|i: int|
            0 <= i < old(s).slots@.len() && i != k ==> #[trigger] final(s).slots@[i] == old(
                s,
            ).slots@[i],
{
    lemma_slot_of(old(s).slots@, pid, 0);
}

/// Traffic of a process without a slot, or of no process, changes nothing.
pub proof fn law_other_traffic_is_ignored(s: &mut SharedNetState, pid: u32, rx: u64, tx: u64)
    requires
        call_ensures(SharedNetState::record_traffic, (s, pid, rx, tx), ()),
        pid == 0 || forall|i: int|
            0 <= i < old(s).slots@.len() ==> (#[trigger] old(s).slots@[i]).pid != pid,
    ensures
        final(s).slots@ == old(s).slots@,
{
    lemma_slot_of(old(s).slots@, pid, 0);
}

/// Draining a slot hands out its counters, received bytes first, and sets them to zero;
/// releasing it also makes it free. No other slot changes, and a number that no slot has
/// gives nothing.
pub proof fn law_draining_empties_one_slot(
    s: &mut SharedNetState,
    t: &mut SharedNetState,
    k: usize,
    r: ((u64, u64), (u64, u64)),
)
    requires
        call_ensures(SharedNetState::drain_slot, (s, k), r.0),
        call_ensures(SharedNetState::release_slot, (t, k), r.1),
        *old(t) == *old(s),
        old(s).slots@.len() == 32,
    ensures
        r.1 == r.0,
        k >= 32 ==> r.0 == (0u64, 0u64) && final(s).slots@ == old(s).slots@ && final(t).slots@
            == old(s).slots@,
        k < 32 ==> {
            let before = old(s).slots@[k as int];
            &&& r.0 == (before.rx_bytes, before.tx_bytes)
            &&& final(s).slots@[k as int].pid == before.pid
            &&& final(s).slots@[k as int].rx_bytes == 0
            &&& final(s).slots@[k as int].tx_bytes == 0
            &&& final(t).slots@[k as int].pid == 0
            &&& final(t).slots@[k as int].rx_bytes == 0
            &&& final(t).slots@[k as int].tx_bytes == 0
        },
        final(s).slots@.len() == 32 && final(t).slots@.len() == 32,
        forall|i: int|
            0 <= i < 32 && i != k ==> #[trigger] final(s).slots@[i] == old(s).slots@[i],
        forall|i: int|
            0 <= i < 32 && i != k ==> #[trigger] final(t).slots@[i] == old(s).slots@[i],
{
}

/// What a process with a new slot receives and sends is what draining that slot gives.
pub proof fn law_new_slot_gives_back_its_traffic(
    s: &mut SharedNetState,
    t: &mut SharedNetState,
    u: &mut SharedNetState,
    pid: u32,
    k: usize,
    rx: u64,
    tx: u64,
    r: (u64, u64),
)
    requires
        call_ensures(SharedNetState::claim_slot, (s, pid), Some(k)),
        call_ensures(SharedNetState::record_traffic, (t, pid, rx, tx), ()),
        call_ensures(SharedNetState::drain_slot, (u, k), r),
        *old(t) == *final(s),
        *old(u) == *final(t),
        forall|i: int| 0 <= i < old(s).slots@.len() ==> (#[trigger] old(s).slots@[i]).pid != pid,
        old(s).slots@.len() == 32,
    ensures
        r == (rx, tx),
{
    let slots = old(s).slots@;
    lemma_slot_of(slots, pid, 0);
    lemma_slot_of(slots, 0, 0);
    let taken = final(s).slots@;
    lemma_slot_of(taken, pid, 0);
    let own = slot_of(taken, pid, 0);
    assert(taken[k as int].pid == pid);
    if own < k {
        assert(taken[own] == slots[own]);
    }
}

/// Which events are counted: sent and received ones, over TCP and UDP, IPv4 and IPv6.
pub proof fn law_events_tell_their_direction(id: u16, r: Option<EventKind>)
    requires
        call_ensures(classify_event, (id,), r),
    ensures
        r is Some <==> id == 10 || id == 11 || id == 26 || id == 27 || id == 42 || id == 43 || id
            == 58 || id == 59,
        r matches Some(kind) ==> {
            &&& kind.sent <==> id % 2 == 0
            &&& kind.ipv6 <==> id % 32 >= 26
        },
{
}

/// An IPv4 event holds the process, the size, the two addresses and the two ports, in
/// this order and with the least significant byte first. Twenty bytes are enough.
pub proof fn law_ipv4_events_are_read(data: &[u8], r: Option<KernelNetIpv4Prefix>)
    requires
        call_ensures(KernelNetIpv4Prefix::parse, (data,), r),
    ensures
        r is Some <==> data@.len() >= 20,
        r matches Some(p) ==> {
            let d = data@;
            &&& p.pid == d[0] + 256 * d[1] + 65_536 * d[2] + 16_777_216 * d[3]
            &&& p.size == d[4] + 256 * d[5] + 65_536 * d[6] + 16_777_216 * d[7]
            &&& p.daddr@ == seq![d[8], d[9], d[10], d[11]]
            &&& p.saddr@ == seq![d[12], d[13], d[14], d[15]]
            &&& p.dport == d[16] + 256 * d[17]
            &&& p.sport == d[18] + 256 * d[19]
        },
{
}

/// An IPv6 event holds the process, the size, the two addresses and the two ports, in
/// this order and with the least significant byte first. Forty-four bytes are enough.
pub proof fn law_ipv6_events_are_read(data: &[u8], r: Option<KernelNetIpv6Prefix>)
    requires
        call_ensures(KernelNetIpv6Prefix::parse, (data,), r),
    ensures
        r is Some <==> data@.len() >= 44,
        r matches Some(p) ==> {
            let d = data@;
            &&& p.pid == d[0] + 256 * d[1] + 65_536 * d[2] + 16_777_216 * d[3]
            &&& p.size == d[4] + 256 * d[5] + 65_536 * d[6] + 16_777_216 * d[7]
            &&& p.dport == d[40] + 256 * d[41]
            &&& p.sport == d[42] + 256 * d[43]
            &&& p.daddr@.len() == 16 && p.saddr@.len() == 16
            &&& forall|i: int| 0 <= i < 16 ==> #[trigger] p.daddr@[i] == d[8 + i]
            &&& forall|i: int| 0 <= i < 16 ==> #[trigger] p.saddr@[i] == d[24 + i]
        },
{
}

/// What the two forms of a loopback address are, byte by byte.
proof fn lemma_ipv6_loopback(addr: Seq<u8>)
    ensures
        ipv6_is_loopback(addr) == {
            ||| {
                &&& addr.len() == 16 && addr[15] == 1
                &&& forall|i: int| 0 <= i < 15 ==> #[trigger] addr[i] == 0
            }
            ||| {
                &&& addr.len() > 12 && addr[10] == 255 && addr[11] == 255 && addr[12] == 127
                &&& forall|i: int| 0 <= i < 10 ==> #[trigger] addr[i] == 0
            }
        },
{
    let one = ipv6_loopback();
    let mapped = ipv4_mapped_prefix();
    if addr == one {
        assert(forall|i: int| 0 <= i < 15 ==> #[trigger] addr[i] == one[i]);
    }
    if addr.len() == 16 && addr[15] == 1 && forall|i: int| 0 <= i < 15 ==> #[trigger] addr[i] == 0 {
        assert(addr =~= one);
    }
    if addr.len() > 12 {
        if mapped.is_prefix_of(addr) {
            assert(forall|i: int| 0 <= i < 12 ==> #[trigger] addr[i] == mapped[i]);
        }
        if addr[10] == 255 && addr[11] == 255 && forall|i: int|
            0 <= i < 10 ==> #[trigger] addr[i] == 0 {
            assert(addr.subrange(0, 12) =~= mapped);
        }
    }
}

/// A loopback address is `::1`, or begins with `::ffff:127`.
pub proof fn law_two_forms_of_loopback(addr: &[u8], r: bool)
    requires
        call_ensures(is_ipv6_loopback, (addr,), r),
    ensures
        r <==> {
            ||| {
                &&& addr@.len() == 16 && addr@[15] == 1
                &&& forall|i: int| 0 <= i < 15 ==> #[trigger] addr@[i] == 0
            }
            ||| {
                &&& addr@.len() > 12 && addr@[10] == 255 && addr@[11] == 255 && addr@[12] == 127
                &&& forall|i: int| 0 <= i < 10 ==> #[trigger] addr@[i] == 0
            }
        },
{
    lemma_ipv6_loopback(addr@);
}

/// An event is about loopback traffic where it is of a kind that is counted, long enough,
/// and one of its two addresses is a loopback address.
pub proof fn law_loopback_events_are_told(
    id: u16,
    data: &[u8],
    r: bool,
    ends: (&[u8], &[u8]),
    six: (bool, bool),
)
    requires
        call_ensures(is_loopback, (id, data), r),
        data@.len() >= 44 ==> ends.0@ == data@.subrange(8, 24),
        data@.len() >= 44 ==> ends.1@ == data@.subrange(24, 40),
        call_ensures(is_ipv6_loopback, (ends.0,), six.0),
        call_ensures(is_ipv6_loopback, (ends.1,), six.1),
    ensures
        id == 10 || id == 11 || id == 42 || id == 43 ==> r == (data@.len() >= 20 && (data@[8] == 127
            || data@[12] == 127)),
        id == 26 || id == 27 || id == 58 || id == 59 ==> r == (data@.len() >= 44 && (six.0
            || six.1)),
        !(id == 10 || id == 11 || id == 42 || id == 43 || id == 26 || id == 27 || id == 58 || id
            == 59) ==> !r,
{
}

/// An event of the first version, of a kind that is counted, with eight bytes at least
/// and not about loopback traffic, reports the size in its data for the process in its
/// data, as sent or as received. No other event reports anything.
pub proof fn law_events_report_their_size(
    version: u8,
    id: u16,
    data: &[u8],
    r: Option<Traffic>,
    kind: Option<EventKind>,
    loopback: bool,
)
    requires
        call_ensures(decode_event, (version, id, data), r),
        call_ensures(classify_event, (id,), kind),
        call_ensures(is_loopback, (id, data), loopback),
    ensures
        r is Some <==> version == 0 && kind is Some && data@.len() >= 8 && !loopback,
        r matches Some(t) ==> {
            let d = data@;
            let size = d[4] + 256 * d[5] + 65_536 * d[6] + 16_777_216 * d[7];
            &&& t.pid == d[0] + 256 * d[1] + 65_536 * d[2] + 16_777_216 * d[3]
            &&& kind->0.sent ==> t.tx_bytes == size && t.rx_bytes == 0
            &&& !kind->0.sent ==> t.rx_bytes == size && t.tx_bytes == 0
        },
{
}

} // verus!
