//! Fixed-size ring of recently blocked domains.
//!
//! It answers the one question a user asks when a page breaks — "what did you
//! just block?" — without logging queries: a block copies at most 128 bytes into
//! a preallocated slot, and the structure has a fixed size whatever the traffic.

use vstd::prelude::*;
use vstd::utf8::*;
use crate::clock::now_unix;
use crate::text::string_from_utf8_lossy;

verus! {

/// Longest name kept. Longer names are dropped rather than truncated, because a
/// truncated name would make the one-click unblock produce another domain.
pub const NAME_CAP: usize = 128;

/// Number of slots in the ring.
pub const SLOTS: usize = 256;

#[derive(Clone, Copy)]
struct Slot {
    name: [u8; 128],
    len: u8,
    at_unix: u32,
    hits: u16,
}

fn empty_slot() -> (r: Slot)
    ensures
        r.len == 0,
        r.at_unix == 0,
        r.hits == 0,
        forall|i: int| 0 <= i < NAME_CAP ==> r.name@[i] == 0u8,
{
    Slot { name: [0u8; 128], len: 0, at_unix: 0, hits: 0 }
}

/// One recorded block: the name, when it was last seen, and how many times in a row.
pub type RecentView = (Seq<char>, u32, u16);

/// One entry as handed to the UI.
#[derive(Debug, Clone)]
pub struct RecentEntry {
    pub domain: String,
    pub at_unix: u32,
    pub hits: u16,
}

pub open spec fn sat_inc(h: u16) -> u16 {
    if h == u16::MAX { h } else { (h + 1) as u16 }
}

/// What recording `name` at time `t` makes of the log `log` (oldest first).
pub open spec fn record_effect(log: Seq<RecentView>, name: Seq<char>, t: u32) -> Seq<RecentView> {
    let n = encode_utf8(name).len();
    if n == 0 || n > NAME_CAP {
        log
    } else if log.len() > 0 && log.last().0 == name {
        log.update(log.len() - 1, (name, t, sat_inc(log.last().2)))
    } else if log.len() == SLOTS {
        log.drop_first().push((name, t, 1u16))
    } else {
        log.push((name, t, 1u16))
    }
}

pub struct RecentBlocks {
    slots: Vec<Slot>,
    /// Blocks recorded, folded into `[SLOTS, 2 * SLOTS)` once the ring is full:
    /// only its minimum with `SLOTS` and its value modulo `SLOTS` matter.
    next: usize,
    log: Ghost<Seq<RecentView>>,
}

pub open spec fn slot_index(next: int, live: int, i: int) -> int {
    (next - live + i) % (SLOTS as int)
}

impl RecentBlocks {
    /// The recorded blocks, oldest first.
    pub closed spec fn view(&self) -> Seq<RecentView> {
        self.log@
    }

    pub closed spec fn live(&self) -> int {
        if self.next < SLOTS { self.next as int } else { SLOTS as int }
    }

    pub closed spec fn wf(&self) -> bool {
        &&& self.slots@.len() == SLOTS
        &&& self.next < 2 * SLOTS
        &&& self.log@.len() == self.live()
        &&& forall|i: int|
            0 <= i < self.live() ==> {
                let s = #[trigger] self.slots@[slot_index(self.next as int, self.live(), i)];
                &&& 1 <= s.len <= NAME_CAP
                &&& s.name@.subrange(0, s.len as int) == encode_utf8(self.log@[i].0)
                &&& s.at_unix == self.log@[i].1
                &&& s.hits == self.log@[i].2
            }
    }

    pub fn new() -> (r: Self)
        ensures
            r.wf(),
            r.view() == Seq::<RecentView>::empty(),
    {
        let mut slots: Vec<Slot> = Vec::new();
        let mut i: usize = 0;
        while i < SLOTS
            invariant
                slots@.len() == i,
                i <= SLOTS,
            decreases SLOTS - i,
        {
            slots.push(empty_slot());
            i = i + 1;
        }
        RecentBlocks { slots, next: 0, log: Ghost(Seq::empty()) }
    }

    /// Records a blocked domain. A repeat of the most recent entry raises its
    /// count instead of taking a slot; a name that is empty or longer than
    /// `NAME_CAP` bytes is dropped.
    pub fn record(&mut self, domain: &str)
        requires
            old(self).wf(),
        ensures
            final(self).wf(),
            exists|t: u32| #[trigger] record_effect(old(self)@, domain@, t) == final(self)@,
    {
        let bytes = domain.as_bytes();
        proof {
            assert(bytes@ == encode_utf8(domain@));
        }
        if bytes.len() == 0 || bytes.len() > NAME_CAP {
            assert(record_effect(self@, domain@, 0) == self@);
            return;
        }
        let ghost log = self.log@;
        let ghost live = self.live();
        let now = now_unix() as u32;
        if self.next > 0 {
            let last = (self.next + SLOTS - 1) % SLOTS;
            assert(last == slot_index(self.next as int, live, live - 1));
            let s = self.slots[last];
            if s.len as usize == bytes.len() && same_prefix(&s.name, bytes) {
                proof {
                    assert(s.name@.subrange(0, s.len as int) =~= bytes@);
                    lemma_utf8_injective(log.last().0, domain@);
                }
                let mut s2 = s;
                s2.hits = if s.hits == u16::MAX { s.hits } else { s.hits + 1 };
                s2.at_unix = now;
                self.slots.set(last, s2);
                self.log = Ghost(log.update(live - 1, (domain@, now, sat_inc(log.last().2))));
                proof {
                    assert forall|i: int| 0 <= i < self.live() implies {
                        let s = #[trigger] self.slots@[slot_index(self.next as int, self.live(), i)];
                        &&& 1 <= s.len <= NAME_CAP
                        &&& s.name@.subrange(0, s.len as int) == encode_utf8(self.log@[i].0)
                        &&& s.at_unix == self.log@[i].1
                        &&& s.hits == self.log@[i].2
                    } by {
                        if i != live - 1 {
                            lemma_slots_distinct(self.next as int, live, i, live - 1);
                        }
                    }
                    assert(record_effect(log, domain@, now) == self@);
                }
                return;
            } else {
                proof {
                    if log.last().0 == domain@ {
                        assert(s.name@.subrange(0, s.len as int) == bytes@);
                        assert(s.len as int == bytes@.len());
                        assert(false);
                    }
                }
            }
        }
        let idx = self.next % SLOTS;
        let mut s = empty_slot();
        let mut k: usize = 0;
        while k < bytes.len()
            invariant
                k <= bytes@.len(),
                bytes@.len() <= NAME_CAP,
                forall|j: int| 0 <= j < k ==> s.name@[j] == bytes@[j],
            decreases bytes@.len() - k,
        {
            s.name[k] = bytes[k];
            k = k + 1;
        }
        s.len = bytes.len() as u8;
        s.at_unix = now;
        s.hits = 1;
        assert(s.name@.subrange(0, s.len as int) =~= bytes@);
        self.slots.set(idx, s);
        let ghost new_log = if live == SLOTS {
            log.drop_first().push((domain@, now, 1u16))
        } else {
            log.push((domain@, now, 1u16))
        };
        let ghost old_next = self.next as int;
        self.next = if self.next + 1 >= 2 * SLOTS {
            self.next + 1 - SLOTS
        } else {
            self.next + 1
        };
        self.log = Ghost(new_log);
        proof {
            assert(self.live() == new_log.len());
            assert forall|i: int| 0 <= i < self.live() implies {
                let s = #[trigger] self.slots@[slot_index(self.next as int, self.live(), i)];
                &&& 1 <= s.len <= NAME_CAP
                &&& s.name@.subrange(0, s.len as int) == encode_utf8(self.log@[i].0)
                &&& s.at_unix == self.log@[i].1
                &&& s.hits == self.log@[i].2
            } by {
                if live == SLOTS {
                    if i < SLOTS - 1 {
                        assert(slot_index(self.next as int, self.live(), i) == slot_index(
                            old_next,
                            live,
                            i + 1,
                        ));
                        lemma_slots_distinct(old_next, live, i + 1, 0);
                        assert(slot_index(old_next, live, 0) == idx);
                    } else {
                        assert(slot_index(self.next as int, self.live(), i) == idx);
                    }
                } else {
                    if i < live {
                        assert(slot_index(self.next as int, self.live(), i) == slot_index(
                            old_next,
                            live,
                            i,
                        ));
                        assert(slot_index(old_next, live, i) != idx);
                    } else {
                        assert(slot_index(self.next as int, self.live(), i) == idx);
                    }
                }
            }
            assert(record_effect(log, domain@, now) == self@);
        }
    }

    /// The recorded blocks, most recent first, at most `limit` of them.
    pub fn snapshot(&self, limit: usize) -> (r: Vec<RecentEntry>)
        requires
            self.wf(),
        ensures
            r@.len() == (if self@.len() < limit { self@.len() } else { limit as nat }),
            forall|b: int|
                0 <= b < r@.len() ==> {
                    let e = #[trigger] r@[b];
                    let v = self@[self@.len() - 1 - b];
                    e.domain@ == v.0 && e.at_unix == v.1 && e.hits == v.2
                },
    {
        let next = self.next;
        let total = if next < SLOTS {
            next
        } else {
            SLOTS
        };
        let n = if total < limit {
            total
        } else {
            limit
        };
        let mut out: Vec<RecentEntry> = Vec::new();
        let mut back: usize = 0;
        while back < n
            invariant
                self.wf(),
                next == self.next,
                total == self.live(),
                n <= total,
                back <= n,
                out@.len() == back,
                forall|b: int|
                    0 <= b < back ==> {
                        let e = #[trigger] out@[b];
                        let v = self@[self@.len() - 1 - b];
                        e.domain@ == v.0 && e.at_unix == v.1 && e.hits == v.2
                    },
            decreases n - back,
        {
            let idx = (next + SLOTS - 1 - back) % SLOTS;
            let ghost i = total - 1 - back;
            assert(idx == slot_index(next as int, total as int, i));
            let s = &self.slots[idx];
            assert(1 <= s.len);
            let name = bytes_prefix(&s.name, s.len as usize);
            proof {
                encode_utf8_valid_utf8(self@[i].0);
                encode_utf8_decode_utf8(self@[i].0);
            }
            let domain = string_from_utf8_lossy(name.as_slice());
            out.push(RecentEntry { domain, at_unix: s.at_unix, hits: s.hits });
            back = back + 1;
        }
        out
    }

    pub fn clear(&mut self)
        requires
            old(self).wf(),
        ensures
            final(self).wf(),
            final(self)@ == Seq::<RecentView>::empty(),
    {
        self.next = 0;
        let mut i: usize = 0;
        while i < SLOTS
            invariant
                self.slots@.len() == SLOTS,
                self.next == 0,
                i <= SLOTS,
            decreases SLOTS - i,
        {
            self.slots.set(i, empty_slot());
            i = i + 1;
        }
        self.log = Ghost(Seq::empty());
    }
}

proof fn lemma_slots_distinct(next: int, live: int, i: int, j: int)
    requires
        0 <= live <= SLOTS,
        live <= next,
        0 <= i < live,
        0 <= j < live,
        i != j,
    ensures
        slot_index(next, live, i) != slot_index(next, live, j),
{
}

proof fn lemma_utf8_injective(a: Seq<char>, b: Seq<char>)
    requires
        encode_utf8(a) == encode_utf8(b),
    ensures
        a == b,
{
    encode_utf8_decode_utf8(a);
    encode_utf8_decode_utf8(b);
}

fn same_prefix(name: &[u8; 128], bytes: &[u8]) -> (r: bool)
    requires
        bytes@.len() <= NAME_CAP,
    ensures
        r == (name@.subrange(0, bytes@.len() as int) == bytes@),
{
    let mut k: usize = 0;
    while k < bytes.len()
        invariant
            k <= bytes@.len() <= NAME_CAP,
            forall|j: int| 0 <= j < k ==> name@[j] == bytes@[j],
        decreases bytes@.len() - k,
    {
        if name[k] != bytes[k] {
            assert(name@.subrange(0, bytes@.len() as int)[k as int] != bytes@[k as int]);
            return false;
        }
        k = k + 1;
    }
    assert(name@.subrange(0, bytes@.len() as int) =~= bytes@);
    true
}

fn bytes_prefix(name: &[u8; 128], len: usize) -> (r: Vec<u8>)
    requires
        len <= NAME_CAP,
    ensures
        r@ == name@.subrange(0, len as int),
{
    let mut out: Vec<u8> = Vec::new();
    let mut k: usize = 0;
    while k < len
        invariant
            k <= len <= NAME_CAP,
            out@ == name@.subrange(0, k as int),
        decreases len - k,
    {
        out.push(name[k]);
        k = k + 1;
        assert(out@ =~= name@.subrange(0, k as int));
    }
    out
}


impl Default for RecentBlocks {
    fn default() -> (r: Self)
        ensures
            r.wf(),
            r@ == Seq::<RecentView>::empty(),
    {
        Self::new()
    }
}

/// Law: the ring never holds more than `SLOTS` entries, so a snapshot of
/// `SLOTS` entries shows the whole log.
pub proof fn ring_holds_at_most_slots(r: RecentBlocks)
    requires
        r.wf(),
    ensures
        r@.len() <= SLOTS,
{
}

/// Law: recording a name that is not a repeat of the most recent one keeps
/// every earlier entry, in order, except the oldest one when the ring is full:
/// the log without its new last entry is the newest `min(len, SLOTS - 1)`
/// entries of the log before.
pub proof fn recording_keeps_the_newest(log: Seq<RecentView>, name: Seq<char>, t: u32)
    requires
        0 < encode_utf8(name).len() <= NAME_CAP,
        log.len() <= SLOTS,
        log.len() == 0 || log.last().0 != name,
    ensures
        ({
            let r = record_effect(log, name, t);
            let kept: int = if log.len() < SLOTS { log.len() as int } else { SLOTS - 1 };
            &&& r.len() == kept + 1
            &&& r.last() == (name, t, 1u16)
            &&& forall|i: int| 0 <= i < kept ==> #[trigger] r[i] == log[log.len() - kept + i]
        }),
{
}

/// Law: the most recent record always comes first, and a repeat of the most
/// recent name coalesces into it instead of taking a new slot.
pub proof fn recent_record_is_first(log: Seq<RecentView>, name: Seq<char>, t: u32)
    requires
        0 < encode_utf8(name).len() <= NAME_CAP,
        log.len() <= SLOTS,
    ensures
        record_effect(log, name, t).last() == (name, t, if log.len() > 0 && log.last().0 == name {
            sat_inc(log.last().2)
        } else {
            1u16
        }),
        record_effect(log, name, t).len() <= SLOTS,
        log.len() > 0 && log.last().0 == name ==> record_effect(log, name, t).len() == log.len(),
{
}

} // verus!
