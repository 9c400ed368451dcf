//! The ledger of device slots: which serial is held by which process.

use crate::bytes::{key_less, key_lt, lemma_key_order, text_of};
use crate::format::{
    after_first_line, display_bytes, ledger_text, lemma_ascii_is_utf8, lemma_slot_text_is_utf8,
    next_line, parse_records, read_record, records_map, slot_text, write_slot, ReadError, COMMA,
    NEWLINE,
};
use crate::runtime::{Pid, Serial};
use crate::slots::{
    count_free, first_free, held_slots, key_index, lemma_count_free_update, lemma_count_free_zero,
    lemma_first_free, lemma_map_insert_at, lemma_map_remove, lemma_map_set, lemma_map_value,
    lemma_push_contains, released, slots_map, strictly_sorted, updated, Slots,
};
use vstd::prelude::*;
use vstd::utf8::*;

verus! {

/// The slots `done` before the slots of `rest`, or the error of `rest`.
pub open spec fn prepend_all(done: Slots, rest: Result<Slots, ReadError>) -> Result<
    Slots,
    ReadError,
> {
    match rest {
        Ok(slots) => Ok(done + slots),
        Err(e) => Err(e),
    }
}

/// Nothing before the slots of `rest` leaves `rest` as it is.
proof fn lemma_read_step(done: Slots, rest: Result<Slots, ReadError>)
    ensures
        done.len() == 0 ==> prepend_all(done, rest) == rest,
{
    if done.len() == 0 {
        match rest {
            Ok(slots) => {
                assert(done + slots =~= slots);
            },
            Err(_) => {},
        }
    }
}

/// The listing that stored entries stand for.
spec fn listing(entries: Seq<Entry>) -> Slots {
    entries.map_values(|e: Entry| (e.serial@, e.holder))
}

/// One slot as it is stored.
#[derive(Debug)]
struct Entry {
    serial: Serial,
    holder: Option<Pid>,
}

/// The ledger: the slots of the pool, kept in the order of their serials.
#[derive(Debug)]
pub struct LockFileEntries {
    entries: Vec<Entry>,
}

impl View for LockFileEntries {
    type V = Map<Seq<char>, Option<Pid>>;

    /// The ledger as a mapping from serial to holder.
    open spec fn view(&self) -> Map<Seq<char>, Option<Pid>> {
        slots_map(self.slots())
    }
}

impl LockFileEntries {
    /// The slots in the order in which they are kept and written.
    pub closed spec fn slots(&self) -> Slots {
        listing(self.entries@)
    }

    /// Every ledger keeps its slots in the strict order of their serials.
    #[verifier::type_invariant]
    spec fn sorted(&self) -> bool {
        strictly_sorted(self.slots())
    }

    /// Claims the first free slot for `pid` and returns its serial, or
    /// returns `None` and changes nothing where every slot is held.
    pub fn acquire(&mut self, pid: Pid) -> (r: Option<Serial>)
        ensures
            strictly_sorted(final(self).slots()),
            r is None <==> count_free(old(self).slots()) == 0,
            match r {
                Some(serial) => {
                    let i = first_free(old(self).slots());
                    &&& i < old(self).slots().len()
                    &&& old(self).slots()[i] == (serial@, None::<Pid>)
                    &&& final(self).slots() == old(self).slots().update(i, (serial@, Some(pid)))
                    &&& final(self)@ == old(self)@.insert(serial@, Some(pid))
                    &&& count_free(final(self).slots()) == count_free(old(self).slots()) - 1
                },
                None => {
                    &&& final(self).slots() == old(self).slots()
                    &&& final(self)@ == old(self)@
                    &&& count_free(old(self).slots()) == 0
                },
            },
    {
        proof {
            use_type_invariant(&*self);
            lemma_first_free(self.slots());
            lemma_count_free_zero(self.slots());
        }
        let i = self.first_available();
        if i >= self.entries.len() {
            return None;
        }
        let serial = self.entries[i].serial.clone();
        let claimed = Entry { serial: serial.clone(), holder: Some(pid) };
        let ghost before = self.slots();
        let mut entries: Vec<Entry> = Vec::new();
        std::mem::swap(&mut entries, &mut self.entries);
        entries.set(i, claimed);
        proof {
            let after = listing(entries@);
            assert(after =~= before.update(i as int, (serial@, Some(pid))));
            lemma_count_free_update(before, i as int, Some(pid));
            lemma_map_set(before, i as int, Some(pid));
        }
        self.entries = entries;
        Some(serial)
    }

    /// The position of the first free slot, or the number of slots where
    /// none is free.
    fn first_available(&self) -> (i: usize)
        ensures
            i == first_free(self.slots()),
    {
        let mut i: usize = 0;
        proof {
            assert(self.slots().skip(0) =~= self.slots());
        }
        while i < self.entries.len()
            invariant
                i <= self.entries.len(),
                self.slots().len() == self.entries.len(),
                first_free(self.slots()) == i + first_free(self.slots().skip(i as int)),
            decreases self.entries.len() - i,
        {
            proof {
                assert(self.slots().skip(i as int).drop_first() =~= self.slots().skip(
                    i as int + 1,
                ));
            }
            if self.entries[i].holder.is_none() {
                return i;
            }
            i = i + 1;
        }
        i
    }

    /// The serial of the first free slot, if there is one.
    pub fn find_available(&self) -> (r: Option<Serial>)
        ensures
            match r {
                Some(serial) => {
                    let i = first_free(self.slots());
                    i < self.slots().len() && self.slots()[i] == (serial@, None::<Pid>)
                },
                None => count_free(self.slots()) == 0,
            },
    {
        proof {
            lemma_first_free(self.slots());
            lemma_count_free_zero(self.slots());
        }
        let i = self.first_available();
        if i < self.entries.len() {
            Some(self.entries[i].serial.clone())
        } else {
            None
        }
    }

    /// The number of free slots.
    pub fn count_available(&self) -> (n: usize)
        ensures
            n == count_free(self.slots()),
    {
        let mut n: usize = 0;
        let mut i: usize = 0;
        while i < self.entries.len()
            invariant
                i <= self.entries.len(),
                self.slots().len() == self.entries.len(),
                n <= i,
                n == count_free(self.slots().take(i as int)),
            decreases self.entries.len() - i,
        {
            proof {
                assert(self.slots().take(i as int + 1).drop_last() =~= self.slots().take(i as int));
            }
            if self.entries[i].holder.is_none() {
                n = n + 1;
            }
            i = i + 1;
        }
        proof {
            assert(self.slots().take(i as int) =~= self.slots());
        }
        n
    }

    /// The held slots in the order of their serials, each with its holder.
    pub fn unavialble(&self) -> (r: Vec<(Serial, Pid)>)
        ensures
            r.deep_view() == held_slots(self.slots()),
    {
        let mut held: Vec<(Serial, Pid)> = Vec::new();
        let mut i: usize = 0;
        while i < self.entries.len()
            invariant
                i <= self.entries.len(),
                self.slots().len() == self.entries.len(),
                held.deep_view() == held_slots(self.slots().take(i as int)),
            decreases self.entries.len() - i,
        {
            proof {
                assert(self.slots().take(i as int + 1).drop_last() =~= self.slots().take(i as int));
            }
            let ghost before = held.deep_view();
            match self.entries[i].holder {
                Some(pid) => {
                    let serial = self.entries[i].serial.clone();
                    held.push((serial, pid));
                    proof {
                        assert(held.deep_view() =~= before.push((serial@, pid)));
                    }
                },
                None => {},
            }
            i = i + 1;
        }
        proof {
            assert(self.slots().take(i as int) =~= self.slots());
        }
        held
    }

    /// The place of `key` in the order: every slot before it has a smaller
    /// serial, and every slot from it on has a serial that is not smaller.
    fn position(entries: &Vec<Entry>, key: &str) -> (pos: usize)
        requires
            strictly_sorted(listing(entries@)),
        ensures
            pos <= entries.len(),
            forall|j: int| 0 <= j < pos ==> key_lt((#[trigger] listing(entries@)[j]).0, key@),
            forall|j: int|
                pos <= j < entries.len() ==> !key_lt((#[trigger] listing(entries@)[j]).0, key@),
    {
        let mut pos: usize = 0;
        while pos < entries.len() && key_less(entries[pos].serial.as_str(), key)
            invariant
                pos <= entries.len(),
                forall|j: int| 0 <= j < pos ==> key_lt((#[trigger] listing(entries@)[j]).0, key@),
            decreases entries.len() - pos,
        {
            pos = pos + 1;
        }
        proof {
            let s = listing(entries@);
            assert forall|j: int| pos <= j < entries.len() implies !key_lt(
                (#[trigger] s[j]).0,
                key@,
            ) by {
                if j > pos {
                    assert(key_lt(s[pos as int].0, s[j].0));
                    lemma_key_order(s[pos as int].0, s[j].0, key@);
                }
            }
        }
        pos
    }

    /// Marks the slot of `serial` free, whoever held it. A serial that the
    /// ledger does not have yet enters it as a free slot.
    pub fn release(&mut self, serial: Serial)
        ensures
            strictly_sorted(final(self).slots()),
            final(self)@ == old(self)@.insert(serial@, None),
    {
        self.put(serial, None);
    }

    /// Gives the slot of `serial` the holder `holder`; a serial without a
    /// slot gets one.
    fn put(&mut self, serial: Serial, holder: Option<Pid>)
        ensures
            strictly_sorted(final(self).slots()),
            final(self)@ == old(self)@.insert(serial@, holder),
    {
        proof {
            use_type_invariant(&*self);
        }
        let ghost before = self.slots();
        let mut entries: Vec<Entry> = Vec::new();
        std::mem::swap(&mut entries, &mut self.entries);
        let pos = Self::position(&entries, serial.as_str());
        if pos < entries.len() && !key_less(serial.as_str(), entries[pos].serial.as_str()) {
            proof {
                lemma_key_order(serial@, before[pos as int].0, serial@);
                lemma_map_set(before, pos as int, holder);
            }
            entries.set(pos, Entry { serial, holder });
            proof {
                assert(listing(entries@) =~= before.update(
                    pos as int,
                    (before[pos as int].0, holder),
                ));
            }
        } else {
            proof {
                lemma_map_insert_at(before, pos as int, serial@, holder);
            }
            let ghost key = serial@;
            entries.insert(pos, Entry { serial, holder });
            proof {
                assert(listing(entries@) =~= before.insert(pos as int, (key, holder)));
            }
        }
        self.entries = entries;
    }

    /// Releases every serial of `serials`.
    pub fn release_all(&mut self, serials: Vec<Serial>)
        ensures
            strictly_sorted(final(self).slots()),
            final(self)@ == released(old(self)@, serials.deep_view()),
    {
        proof {
            use_type_invariant(&*self);
        }
        let ghost keys = serials.deep_view();
        let mut i: usize = 0;
        while i < serials.len()
            invariant
                i <= serials.len(),
                keys == serials.deep_view(),
                strictly_sorted(self.slots()),
                self@ == released(old(self)@, keys.take(i as int)),
            decreases serials.len() - i,
        {
            self.release(serials[i].clone());
            proof {
                let next = keys.take(i as int + 1);
                assert(next.drop_last() =~= keys.take(i as int));
                assert(next.last() == serials[i as int]@);
                assert(self@ =~= released(old(self)@, next));
            }
            i = i + 1;
        }
        proof {
            assert(keys.take(i as int) =~= keys);
        }
    }

    /// Whether `key` is among `serials`.
    fn listed(serials: &[Serial], key: &Serial) -> (r: bool)
        ensures
            r == serials.deep_view().contains(key@),
    {
        let mut i: usize = 0;
        while i < serials.len()
            invariant
                i <= serials.len(),
                forall|j: int| 0 <= j < i ==> (#[trigger] serials.deep_view()[j]) != key@,
            decreases serials.len() - i,
        {
            if serials[i] == *key {
                proof {
                    assert(serials.deep_view()[i as int] == key@);
                }
                return true;
            }
            i = i + 1;
        }
        false
    }

    /// Brings the ledger in line with the devices that are attached: a slot
    /// whose serial is not among `serials` leaves, and each serial that has
    /// no slot yet gets a free one. Slots that stay keep their holder.
    pub fn update(&mut self, serials: &[Serial])
        ensures
            strictly_sorted(final(self).slots()),
            final(self)@ == updated(old(self)@, serials.deep_view()),
    {
        proof {
            use_type_invariant(&*self);
        }
        let ghost live = serials.deep_view();
        let ghost before = self@;
        let mut entries: Vec<Entry> = Vec::new();
        std::mem::swap(&mut entries, &mut self.entries);
        // Slots of devices that are gone leave.
        let mut i: usize = 0;
        while i < entries.len()
            invariant
                i <= entries.len(),
                live == serials.deep_view(),
                strictly_sorted(listing(entries@)),
                slots_map(listing(entries@)).submap_of(before),
                forall|k: Seq<char>|
                    before.dom().contains(k) && live.contains(k) ==> #[trigger] slots_map(
                        listing(entries@),
                    ).dom().contains(k),
                forall|j: int| 0 <= j < i ==> live.contains((#[trigger] listing(entries@)[j]).0),
            decreases entries.len() - i,
        {
            let ghost cur = listing(entries@);
            if Self::listed(serials, &entries[i].serial) {
                i = i + 1;
            } else {
                proof {
                    lemma_map_remove(cur, i as int);
                }
                let _ = entries.remove(i);
                proof {
                    assert(listing(entries@) =~= cur.remove(i as int));
                    assert forall|j: int| 0 <= j < i implies live.contains(
                        (#[trigger] listing(entries@)[j]).0,
                    ) by {
                        assert(listing(entries@)[j] == cur[j]);
                    }
                }
            }
        }
        let ghost kept = slots_map(listing(entries@));
        proof {
            assert forall|k: Seq<char>| kept.dom().contains(k) implies live.contains(k) by {
                let j = key_index(listing(entries@), k);
                assert(live.contains(listing(entries@)[j].0));
            }
        }
        // Each attached device without a slot gets a free one.
        let mut n: usize = 0;
        while n < serials.len()
            invariant
                n <= serials.len(),
                live == serials.deep_view(),
                strictly_sorted(listing(entries@)),
                forall|k: Seq<char>|
                    #[trigger] slots_map(listing(entries@)).dom().contains(k)
                        <==> kept.dom().contains(k) || live.take(n as int).contains(k),
                forall|k: Seq<char>|
                    #[trigger] slots_map(listing(entries@)).dom().contains(k) ==> slots_map(
                        listing(entries@),
                    )[k] == if kept.dom().contains(k) {
                        kept[k]
                    } else {
                        None
                    },
            decreases serials.len() - n,
        {
            let ghost cur = listing(entries@);
            let ghost key = serials[n as int]@;
            let pos = Self::position(&entries, serials[n].as_str());
            proof {
                assert(live.take(n as int + 1) =~= live.take(n as int).push(key));
                assert(live.take(n as int + 1).drop_last() =~= live.take(n as int));
                assert forall|k: Seq<char>|
                    live.take(n as int + 1).contains(k) <==> live.take(n as int).contains(k) || k
                        == key by {
                    lemma_push_contains(live.take(n as int), key, k);
                }
            }
            if pos < entries.len() && !key_less(serials[n].as_str(), entries[pos].serial.as_str()) {
                proof {
                    lemma_key_order(key, cur[pos as int].0, key);
                    lemma_map_value(cur, pos as int);
                    assert(slots_map(cur).dom().contains(key));
                }
            } else {
                proof {
                    lemma_map_insert_at(cur, pos as int, key, None);
                }
                entries.insert(pos, Entry { serial: serials[n].clone(), holder: None });
                proof {
                    assert(listing(entries@) =~= cur.insert(pos as int, (key, None)));
                    assert(!slots_map(cur).dom().contains(key));
                    assert(!kept.dom().contains(key));
                }
            }
            proof {
                let now = slots_map(listing(entries@));
                let was = slots_map(cur);
                assert(now == was || now == was.insert(key, None));
                assert forall|k: Seq<char>| #[trigger]
                    now.dom().contains(k) <==> kept.dom().contains(k) || live.take(
                        n as int + 1,
                    ).contains(k) by {
                    assert(was.dom().contains(k) <==> kept.dom().contains(k) || live.take(
                        n as int,
                    ).contains(k));
                }
                assert forall|k: Seq<char>| #[trigger] now.dom().contains(k) implies now[k]
                    == if kept.dom().contains(k) {
                    kept[k]
                } else {
                    None
                } by {
                    if was.dom().contains(k) {
                        assert(was[k] == if kept.dom().contains(k) {
                            kept[k]
                        } else {
                            None
                        });
                    }
                }
            }
            n = n + 1;
        }
        proof {
            assert(live.take(n as int) =~= live);
            assert(slots_map(listing(entries@)) =~= updated(before, live));
        }
        self.entries = entries;
    }

    /// Reads a ledger from its text. Each line records one slot; of two
    /// lines with one serial the later one stays. The first line that
    /// records no slot decides the error.
    pub fn read(text: &[u8]) -> (r: Result<LockFileEntries, ReadError>)
        ensures
            match r {
                Ok(ledger) => {
                    &&& parse_records(text@) is Ok
                    &&& ledger@ == records_map(parse_records(text@)->Ok_0)
                    &&& strictly_sorted(ledger.slots())
                },
                Err(e) => parse_records(text@) == Err::<Slots, ReadError>(e),
            },
    {
        let mut ledger = LockFileEntries { entries: Vec::new() };
        let mut pos: usize = 0;
        let ghost mut done: Slots = Seq::empty();
        proof {
            assert(text@.skip(0) =~= text@);
            assert(slots_map(ledger.slots()) =~= records_map(done));
            lemma_read_step(done, parse_records(text@));
        }
        while pos < text.len()
            invariant
                pos <= text.len(),
                parse_records(text@) == prepend_all(done, parse_records(text@.skip(pos as int))),
                ledger@ == records_map(done),
                strictly_sorted(ledger.slots()),
            decreases text.len() - pos,
        {
            let (line, next) = next_line(text, pos);
            let ghost rest = text@.skip(pos as int);
            match read_record(line) {
                Ok((serial, holder)) => {
                    proof {
                        let slot = (serial@, holder);
                        lemma_read_step(done.push(slot), parse_records(after_first_line(rest)));
                        assert(done.push(slot).drop_last() =~= done);
                        match parse_records(after_first_line(rest)) {
                            Ok(more) => {
                                assert(done + (seq![slot] + more) =~= done.push(slot) + more);
                            },
                            Err(_) => {},
                        }
                        done = done.push(slot);
                    }
                    ledger.put(serial, holder);
                },
                Err(e) => {
                    return Err(e);
                },
            }
            pos = next;
        }
        proof {
            assert(done + Seq::<(Seq<char>, Option<Pid>)>::empty() =~= done);
        }
        Ok(ledger)
    }

    /// The text of the ledger: one line per slot, in the order of the
    /// serials.
    pub fn write(&self) -> (out: Vec<u8>)
        ensures
            out@ == ledger_text(self.slots()),
    {
        let mut out: Vec<u8> = Vec::new();
        let mut i: usize = 0;
        while i < self.entries.len()
            invariant
                i <= self.entries.len(),
                self.slots().len() == self.entries.len(),
                out@ == ledger_text(self.slots().take(i as int)),
            decreases self.entries.len() - i,
        {
            proof {
                assert(self.slots().take(i as int + 1).drop_last() =~= self.slots().take(i as int));
            }
            write_slot(&mut out, self.entries[i].serial.as_str(), self.entries[i].holder);
            out.push(NEWLINE);
            i = i + 1;
        }
        proof {
            assert(self.slots().take(i as int) =~= self.slots());
        }
        out
    }

    /// The ledger on one line, for a reader: the slots in the order of the
    /// serials, with a comma between one slot and the next.
    pub fn to_string(&self) -> (r: String)
        ensures
            r@ == decode_utf8(display_bytes(self.slots())),
    {
        let mut out: Vec<u8> = Vec::new();
        let mut i: usize = 0;
        while i < self.entries.len()
            invariant
                i <= self.entries.len(),
                self.slots().len() == self.entries.len(),
                out@ == display_bytes(self.slots().take(i as int)),
                valid_utf8(out@),
            decreases self.entries.len() - i,
        {
            let ghost before = out@;
            let ghost next = self.slots().take(i as int + 1);
            proof {
                assert(next.drop_last() =~= self.slots().take(i as int));
                assert(next.last() == self.slots()[i as int]);
                lemma_slot_text_is_utf8(next.last());
            }
            if i > 0 {
                out.push(COMMA);
                proof {
                    assert(out@ =~= before + seq![COMMA]);
                    lemma_ascii_is_utf8(seq![COMMA]);
                    valid_utf8_concat(before, seq![COMMA]);
                }
            }
            let ghost middle = out@;
            write_slot(&mut out, self.entries[i].serial.as_str(), self.entries[i].holder);
            proof {
                valid_utf8_concat(middle, slot_text(next.last()));
                assert(out@ == middle + slot_text(next.last()));
                assert(out@ =~= display_bytes(next));
            }
            i = i + 1;
        }
        proof {
            assert(self.slots().take(i as int) =~= self.slots());
        }
        match text_of(out.as_slice()) {
            Some(text) => {
                proof {
                    encode_utf8_decode_utf8(text@);
                }
                text.to_owned()
            },
            None => {
                proof {
                    assert(false);
                }
                String::new()
            },
        }
    }
}

} // verus!
