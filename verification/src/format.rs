//! The text of the ledger: one record per line, `serial` for a free slot and
//! `serial:pid` for a held one.

use crate::bytes::{key_lt, lemma_text_low_bytes, text_of};
use crate::decimal::{
    lemma_pid_text_bytes, lemma_pid_text_parses, parse_pid, pid_text, read_pid, write_pid,
};
use crate::slots::{
    has_key, key_index, lemma_listing_of, lemma_map_insert, lemma_with_slot, listing_of, rank,
    slots_map, strictly_sorted, with_slot, Holders, Slots,
};
use crate::runtime::{Pid, Serial};
use vstd::prelude::*;
use vstd::seq_lib::{to_multiset_build, to_multiset_remove};
use vstd::slice::slice_subrange;
use vstd::utf8::*;

verus! {

/// The byte that ends a line.
pub const NEWLINE: u8 = 10;

/// The byte that may stand before the end of a line and is not part of it.
pub const CARRIAGE_RETURN: u8 = 13;

/// The byte between the fields of a record.
pub const COLON: u8 = 58;

/// The byte between the slots where a ledger is shown on one line.
pub const COMMA: u8 = 44;

/// Why the text of a ledger cannot be read.
#[derive(Debug, Clone, Copy, PartialEq, Eq, Structural)]
pub enum ReadError {
    /// A line is not UTF-8.
    InvalidUtf8,
    /// The holder field of a record is not a process identifier.
    InvalidPid,
}

/// The index of the first `b` in `s`, or the length of `s` where it has none.
pub open spec fn find_byte(s: Seq<u8>, b: u8) -> int
    decreases s.len(),
{
    if s.len() == 0 {
        0
    } else if s[0] == b {
        0
    } else {
        1 + find_byte(s.drop_first(), b)
    }
}

/// What `find_byte` finds: no `b` before it, and `b` at it if it is inside.
pub proof fn lemma_find_byte(s: Seq<u8>, b: u8)
    ensures
        0 <= find_byte(s, b) <= s.len(),
        forall|j: int| 0 <= j < find_byte(s, b) ==> #[trigger] s[j] != b,
        find_byte(s, b) < s.len() ==> s[find_byte(s, b)] == b,
    decreases s.len(),
{
    if s.len() > 0 && s[0] != b {
        let t = s.drop_first();
        lemma_find_byte(t, b);
        assert forall|j: int| 0 <= j < find_byte(s, b) implies #[trigger] s[j] != b by {
            if j > 0 {
                assert(s[j] == t[j - 1]);
            }
        }
    }
}

/// The first `b` is at `n` where there is none before `n` and one at `n`, or
/// where `n` is the length and there is none at all.
pub proof fn lemma_find_byte_is(s: Seq<u8>, b: u8, n: int)
    requires
        0 <= n <= s.len(),
        forall|j: int| 0 <= j < n ==> #[trigger] s[j] != b,
        n < s.len() ==> s[n] == b,
    ensures
        find_byte(s, b) == n,
{
    lemma_find_byte(s, b);
    let f = find_byte(s, b);
    if f < n {
        assert(s[f] != b);
    } else if n < f {
        assert(s[n] != b);
    }
}

/// A line without the carriage return that may end it.
pub open spec fn strip_cr(line: Seq<u8>) -> Seq<u8> {
    if line.len() > 0 && line.last() == CARRIAGE_RETURN {
        line.drop_last()
    } else {
        line
    }
}

/// The first line of a text that is not empty: what stands before the first
/// newline, without a carriage return that ends it, or the whole text where
/// it has no newline.
pub open spec fn first_line(text: Seq<u8>) -> Seq<u8> {
    let n = find_byte(text, NEWLINE);
    if 0 <= n < text.len() {
        strip_cr(text.take(n))
    } else {
        text
    }
}

/// What follows the first line and its newline.
pub open spec fn after_first_line(text: Seq<u8>) -> Seq<u8> {
    let n = find_byte(text, NEWLINE);
    if 0 <= n < text.len() {
        text.skip(n + 1)
    } else {
        Seq::empty()
    }
}

/// The slot that one line records. The serial is what stands before the
/// first colon. A line without a colon records a free slot. Otherwise the
/// holder is what stands between the first colon and the second, or the end
/// of the line; anything after a second colon is ignored.
pub open spec fn parse_record(line: Seq<u8>) -> Result<(Seq<char>, Option<Pid>), ReadError> {
    let colon = find_byte(line, COLON);
    if !valid_utf8(line) {
        Err(ReadError::InvalidUtf8)
    } else if colon >= line.len() {
        Ok((decode_utf8(line), None))
    } else {
        let rest = line.skip(colon + 1);
        match parse_pid(rest.take(find_byte(rest, COLON))) {
            Some(pid) => Ok((decode_utf8(line.take(colon)), Some(pid))),
            None => Err(ReadError::InvalidPid),
        }
    }
}

/// `slot` before the slots of `rest`, or the error of `rest`.
pub open spec fn prepend(slot: (Seq<char>, Option<Pid>), rest: Result<Slots, ReadError>) -> Result<
    Slots,
    ReadError,
> {
    match rest {
        Ok(slots) => Ok(seq![slot] + slots),
        Err(e) => Err(e),
    }
}

/// The slots that a text records, line by line, or the error of the first
/// line that records none.
pub open spec fn parse_records(text: Seq<u8>) -> Result<Slots, ReadError>
    decreases text.len(),
{
    if text.len() == 0 {
        Ok(Seq::empty())
    } else {
        match parse_record(first_line(text)) {
            Ok(slot) => prepend(slot, parse_records(after_first_line(text))),
            Err(e) => Err(e),
        }
    }
}

/// The mapping that records give when they are entered one after another:
/// of two records with one serial the later one stays.
pub open spec fn records_map(records: Slots) -> Holders
    decreases records.len(),
{
    if records.len() == 0 {
        Map::empty()
    } else {
        records_map(records.drop_last()).insert(records.last().0, records.last().1)
    }
}

/// The text of a holder: nothing for a free slot, a colon and the process
/// identifier for a held one.
pub open spec fn holder_text(holder: Option<Pid>) -> Seq<u8> {
    match holder {
        Some(pid) => seq![COLON] + pid_text(pid),
        None => Seq::empty(),
    }
}

/// The text of one slot, without what ends or separates it.
pub open spec fn slot_text(slot: (Seq<char>, Option<Pid>)) -> Seq<u8> {
    encode_utf8(slot.0) + holder_text(slot.1)
}

/// The text of a ledger: each slot on a line of its own, in listing order.
pub open spec fn ledger_text(slots: Slots) -> Seq<u8>
    decreases slots.len(),
{
    if slots.len() == 0 {
        Seq::empty()
    } else {
        ledger_text(slots.drop_last()) + slot_text(slots.last()) + seq![NEWLINE]
    }
}

/// A ledger on one line: the slots in listing order, with a comma between
/// one slot and the next.
pub open spec fn display_bytes(slots: Slots) -> Seq<u8>
    decreases slots.len(),
{
    if slots.len() == 0 {
        Seq::empty()
    } else if slots.len() == 1 {
        slot_text(slots.last())
    } else {
        display_bytes(slots.drop_last()) + seq![COMMA] + slot_text(slots.last())
    }
}

/// Bytes below 128 are UTF-8 as they stand.
pub proof fn lemma_ascii_is_utf8(b: Seq<u8>)
    requires
        forall|i: int| 0 <= i < b.len() ==> #[trigger] b[i] < 128,
    ensures
        valid_utf8(b),
{
    assert(b.subrange(0, 0) =~= Seq::<u8>::empty());
    assert(partial_valid_utf8(b, 0));
    partial_valid_utf8_extend_ascii_block(b, 0, b.len() as int);
    assert(b.subrange(0, b.len() as int) =~= b);
}

/// The text of a slot is UTF-8.
pub proof fn lemma_slot_text_is_utf8(slot: (Seq<char>, Option<Pid>))
    ensures
        valid_utf8(slot_text(slot)),
{
    encode_utf8_valid_utf8(slot.0);
    let tail = holder_text(slot.1);
    match slot.1 {
        Some(pid) => {
            lemma_pid_text_bytes(pid);
            assert forall|i: int| 0 <= i < tail.len() implies #[trigger] tail[i] < 128 by {
                if i > 0 {
                    assert(tail[i] == pid_text(pid)[i - 1]);
                }
            }
        },
        None => {},
    }
    lemma_ascii_is_utf8(tail);
    valid_utf8_concat(encode_utf8(slot.0), tail);
}

/// Appends `bytes` to `out`.
pub fn append_bytes(out: &mut Vec<u8>, bytes: &[u8])
    ensures
        final(out)@ == old(out)@ + bytes@,
{
    let mut i: usize = 0;
    while i < bytes.len()
        invariant
            i <= bytes.len(),
            out@ == old(out)@ + bytes@.take(i as int),
        decreases bytes.len() - i,
    {
        out.push(bytes[i]);
        proof {
            assert(bytes@.take(i as int + 1) =~= bytes@.take(i as int).push(bytes@[i as int]));
        }
        i = i + 1;
    }
    proof {
        assert(bytes@.take(i as int) =~= bytes@);
    }
}

/// Appends the text of one slot to `out`.
pub fn write_slot(out: &mut Vec<u8>, serial: &str, holder: Option<Pid>)
    ensures
        final(out)@ == old(out)@ + slot_text((serial@, holder)),
{
    append_bytes(out, serial.as_bytes());
    match holder {
        Some(pid) => {
            out.push(COLON);
            write_pid(pid, out);
        },
        None => {},
    }
    proof {
        assert(final(out)@ =~= old(out)@ + slot_text((serial@, holder)));
    }
}

/// The index of the first `b` in `bytes`, or their length where there is
/// none.
pub fn find(bytes: &[u8], b: u8) -> (n: usize)
    ensures
        n == find_byte(bytes@, b),
        n <= bytes.len(),
{
    let mut n: usize = 0;
    while n < bytes.len() && bytes[n] != b
        invariant
            n <= bytes.len(),
            forall|j: int| 0 <= j < n ==> #[trigger] bytes@[j] != b,
        decreases bytes.len() - n,
    {
        n = n + 1;
    }
    proof {
        lemma_find_byte_is(bytes@, b, n as int);
    }
    n
}

/// Takes the first line off the text that starts at `pos`: returns the
/// line and the place where the next one starts.
pub(crate) fn next_line(text: &[u8], pos: usize) -> (r: (&[u8], usize))
    requires
        pos < text.len(),
    ensures
        r.0@ == first_line(text@.skip(pos as int)),
        text@.skip(r.1 as int) == after_first_line(text@.skip(pos as int)),
        pos < r.1 <= text.len(),
{
    let rest = slice_subrange(text, pos, text.len());
    let end = find(rest, NEWLINE);
    let mut line_end: usize = end;
    let mut next: usize = end;
    if end < rest.len() {
        next = end + 1;
        if end > 0 && rest[end - 1] == CARRIAGE_RETURN {
            line_end = end - 1;
        }
    }
    let line = slice_subrange(rest, 0, line_end);
    proof {
        assert(rest@ =~= text@.skip(pos as int));
        lemma_find_byte(rest@, NEWLINE);
        assert(line@ =~= first_line(rest@));
        assert(text@.skip(pos as int + next as int) =~= after_first_line(rest@));
    }
    (line, pos + next)
}

/// Reads the slot that one line records.
pub fn read_record(line: &[u8]) -> (r: Result<(Serial, Option<Pid>), ReadError>)
    ensures
        match r {
            Ok((serial, holder)) => parse_record(line@) == Ok::<
                (Seq<char>, Option<Pid>),
                ReadError,
            >((serial@, holder)),
            Err(e) => parse_record(line@) == Err::<(Seq<char>, Option<Pid>), ReadError>(e),
        },
{
    let whole = match text_of(line) {
        Some(text) => text,
        None => {
            return Err(ReadError::InvalidUtf8);
        },
    };
    let colon = find(line, COLON);
    if colon >= line.len() {
        proof {
            encode_utf8_decode_utf8(whole@);
        }
        return Ok((whole.to_owned(), None));
    }
    proof {
        lemma_find_byte(line@, COLON);
        is_char_boundary_iff_not_is_continuation_byte(line@, colon as int);
        valid_utf8_split(line@, colon as int);
    }
    let rest = slice_subrange(line, colon + 1, line.len());
    let field = slice_subrange(rest, 0, find(rest, COLON));
    match read_pid(field) {
        Some(pid) => match text_of(slice_subrange(line, 0, colon)) {
            Some(text) => {
                proof {
                    encode_utf8_decode_utf8(text@);
                }
                Ok((text.to_owned(), Some(pid)))
            },
            None => {
                proof {
                    assert(false);
                }
                Err(ReadError::InvalidUtf8)
            },
        },
        None => Err(ReadError::InvalidPid),
    }
}

/// A serial that the text of a ledger can carry: it holds neither a newline
/// nor a colon, and it does not end in a carriage return.
pub open spec fn plain_serial(serial: Seq<char>) -> bool {
    &&& forall|i: int|
        0 <= i < serial.len() ==> (#[trigger] serial[i]) as u32 != NEWLINE && serial[i] as u32
            != COLON
    &&& serial.len() > 0 ==> serial.last() as u32 != CARRIAGE_RETURN
}

/// The bytes of a plain serial hold neither a newline nor a colon, and they
/// do not end in a carriage return.
pub proof fn lemma_plain_serial_bytes(serial: Seq<char>)
    requires
        plain_serial(serial),
    ensures
        forall|i: int|
            0 <= i < encode_utf8(serial).len() ==> #[trigger] encode_utf8(serial)[i] != NEWLINE
                && encode_utf8(serial)[i] != COLON,
        encode_utf8(serial).len() > 0 ==> encode_utf8(serial).last() != CARRIAGE_RETURN,
{
    let b = encode_utf8(serial);
    lemma_text_low_bytes(serial);
    assert forall|i: int| 0 <= i < b.len() implies #[trigger] b[i] != NEWLINE && b[i] != COLON by {
        if b[i] < 128 {
            let j = choose|j: int|
                0 <= j < serial.len() && #[trigger] serial[j] as u32 == b[i] as u32;
            assert(serial[j] as u32 != NEWLINE && serial[j] as u32 != COLON);
        }
    }
    if b.len() > 0 && serial.len() == 0 {
        assert(b =~= Seq::<u8>::empty());
    }
}

/// Whether every serial of the listing is plain.
pub open spec fn plain_slots(slots: Slots) -> bool {
    forall|i: int| 0 <= i < slots.len() ==> plain_serial((#[trigger] slots[i]).0)
}

/// The line of a slot with a plain serial reads back as that slot, and it is
/// the first line of any text that starts with it.
pub proof fn lemma_line_reads_back(slot: (Seq<char>, Option<Pid>), tail: Seq<u8>)
    requires
        plain_serial(slot.0),
    ensures
        parse_record(slot_text(slot)) == Ok::<(Seq<char>, Option<Pid>), ReadError>(slot),
        first_line(slot_text(slot) + seq![NEWLINE] + tail) == slot_text(slot),
        after_first_line(slot_text(slot) + seq![NEWLINE] + tail) == tail,
{
    let key = encode_utf8(slot.0);
    let held = holder_text(slot.1);
    let line = slot_text(slot);
    let text = line + seq![NEWLINE] + tail;
    lemma_plain_serial_bytes(slot.0);
    match slot.1 {
        Some(pid) => {
            lemma_pid_text_bytes(pid);
            lemma_pid_text_parses(pid);
            let digits = pid_text(pid);
            assert forall|i: int| 0 <= i < held.len() implies #[trigger] held[i] != NEWLINE by {
                if i > 0 {
                    assert(held[i] == digits[i - 1]);
                }
            }
            assert(line.last() == digits.last());
            // The first colon of the line is the one that follows the serial.
            assert(line[key.len() as int] == COLON);
            lemma_find_byte_is(line, COLON, key.len() as int);
            let rest = line.skip(key.len() as int + 1);
            assert(rest =~= digits);
            assert forall|i: int| 0 <= i < rest.len() implies #[trigger] rest[i] != COLON by {}
            lemma_find_byte_is(rest, COLON, rest.len() as int);
            assert(rest.take(rest.len() as int) =~= rest);
            assert(line.take(key.len() as int) =~= key);
        },
        None => {
            assert(line =~= key);
            lemma_find_byte_is(line, COLON, line.len() as int);
        },
    }
    lemma_slot_text_is_utf8(slot);
    encode_utf8_decode_utf8(slot.0);
    assert forall|i: int| 0 <= i < line.len() implies #[trigger] text[i] != NEWLINE by {
        if i < key.len() {
            assert(text[i] == key[i]);
        } else {
            assert(text[i] == held[i - key.len()]);
        }
    }
    assert(text[line.len() as int] == NEWLINE);
    lemma_find_byte_is(text, NEWLINE, line.len() as int);
    assert(text.take(line.len() as int) =~= line);
    assert(text.skip(line.len() as int + 1) =~= tail);
}

/// The text of a ledger starts with the line of its first slot.
pub proof fn lemma_ledger_text_front(slots: Slots)
    requires
        slots.len() > 0,
    ensures
        ledger_text(slots) == slot_text(slots[0]) + seq![NEWLINE] + ledger_text(slots.drop_first()),
    decreases slots.len(),
{
    if slots.len() == 1 {
        assert(slots.drop_last() =~= Seq::<(Seq<char>, Option<Pid>)>::empty());
        assert(slots.drop_first() =~= Seq::<(Seq<char>, Option<Pid>)>::empty());
        assert(ledger_text(slots) =~= slot_text(slots[0]) + seq![NEWLINE] + ledger_text(
            slots.drop_first(),
        ));
    } else {
        lemma_ledger_text_front(slots.drop_last());
        assert(slots.drop_last().drop_first() =~= slots.drop_first().drop_last());
        assert(slots.drop_last()[0] == slots[0]);
        assert(slots.drop_first().last() == slots.last());
        assert(ledger_text(slots) =~= slot_text(slots[0]) + seq![NEWLINE] + ledger_text(
            slots.drop_first(),
        ));
    }
}

/// Reading undoes writing, line by line: the text of a listing with plain
/// serials records that listing.
pub proof fn lemma_text_reads_back(slots: Slots)
    requires
        plain_slots(slots),
    ensures
        parse_records(ledger_text(slots)) == Ok::<Slots, ReadError>(slots),
    decreases slots.len(),
{
    if slots.len() > 0 {
        let rest = slots.drop_first();
        lemma_ledger_text_front(slots);
        assert(plain_serial(slots[0].0));
        assert forall|i: int| 0 <= i < rest.len() implies plain_serial((#[trigger] rest[i]).0) by {
            assert(rest[i] == slots[i + 1]);
        }
        lemma_text_reads_back(rest);
        lemma_line_reads_back(slots[0], ledger_text(rest));
        assert(seq![slots[0]] + rest =~= slots);
        let text = ledger_text(slots);
        assert(text.len() > 0);
        assert(parse_record(first_line(text)) == Ok::<(Seq<char>, Option<Pid>), ReadError>(
            slots[0],
        ));
        assert(parse_records(after_first_line(text)) == Ok::<Slots, ReadError>(rest));
    } else {
        assert(slots =~= Seq::<(Seq<char>, Option<Pid>)>::empty());
    }
}

/// Records with rising serials give the mapping that their listing stands
/// for.
pub proof fn lemma_records_map_sorted(slots: Slots)
    requires
        strictly_sorted(slots),
    ensures
        records_map(slots) == slots_map(slots),
    decreases slots.len(),
{
    if slots.len() == 0 {
        assert(slots_map(slots) =~= Map::empty());
    } else {
        let front = slots.drop_last();
        let last = slots.last();
        assert forall|i: int, j: int| 0 <= i < j < front.len() implies key_lt(
            front[i].0,
            front[j].0,
        ) by {
            assert(front[i] == slots[i] && front[j] == slots[j]);
        }
        lemma_records_map_sorted(front);
        assert forall|j: int| 0 <= j < front.len() implies key_lt(
            (#[trigger] front[j]).0,
            last.0,
        ) by {
            assert(front[j] == slots[j]);
        }
        lemma_map_insert(front, front.len() as int, last.0, last.1);
        assert(front.insert(front.len() as int, last) =~= slots);
    }
}

/// Whether no two slots of the listing have one serial.
pub open spec fn distinct_serials(slots: Slots) -> bool {
    forall|i: int, j: int|
        0 <= i < j < slots.len() ==> (#[trigger] slots[i]).0 != (#[trigger] slots[j]).0
}

/// Records with distinct serials, in whatever order, give a ledger whose
/// listing holds the same slots in the order of their serials.
pub proof fn lemma_records_listing(records: Slots)
    requires
        distinct_serials(records),
    ensures
        strictly_sorted(listing_of(records_map(records))),
        slots_map(listing_of(records_map(records))) == records_map(records),
        listing_of(records_map(records)).to_multiset() == records.to_multiset(),
        forall|k: Seq<char>| #[trigger] records_map(records).dom().contains(k) <==> has_key(
            records,
            k,
        ),
    decreases records.len(),
{
    if records.len() == 0 {
        let none = Seq::<(Seq<char>, Option<Pid>)>::empty();
        assert(slots_map(none) =~= records_map(records));
        lemma_listing_of(none);
        assert(records =~= none);
    } else {
        let front = records.drop_last();
        let last = records.last();
        assert forall|i: int, j: int| 0 <= i < j < front.len() implies (#[trigger] front[i]).0 != (
        #[trigger] front[j]).0 by {
            assert(front[i] == records[i] && front[j] == records[j]);
        }
        lemma_records_listing(front);
        let sorted = listing_of(records_map(front));
        if has_key(front, last.0) {
            let i = key_index(front, last.0);
            assert(front[i] == records[i]);
            assert(records[i].0 != records[records.len() - 1].0);
        }
        assert(records_map(front).dom().contains(last.0) <==> has_key(front, last.0));
        assert(slots_map(sorted).dom().contains(last.0) <==> has_key(sorted, last.0));
        assert(!has_key(sorted, last.0));
        lemma_with_slot(sorted, last.0, last.1);
        let all = with_slot(sorted, last.0, last.1);
        lemma_listing_of(all);
        assert forall|k: Seq<char>| #[trigger]
            records_map(records).dom().contains(k) <==> has_key(records, k) by {
            if has_key(front, k) {
                let i = key_index(front, k);
                assert(records[i].0 == k);
            }
            if has_key(records, k) && k != last.0 {
                let i = key_index(records, k);
                assert(front[i].0 == k);
            }
            if k == last.0 {
                assert(records[records.len() - 1].0 == k);
            }
        }
        // The new slot enters the sorted listing, and nothing else changes.
        let pos = rank(sorted, last.0);
        assert(all.remove(pos) =~= sorted);
        assert(all[pos] == last);
        to_multiset_remove(all, pos);
        to_multiset_build(front, last);
        assert(front.push(last) =~= records);
        all.to_multiset_ensures();
        assert(all.contains(last));
        assert(all.to_multiset().remove(last).insert(last) =~= all.to_multiset());
    }
}

/// Reading puts the slots in order. A text that holds one line for each of
/// some slots with plain and distinct serials, in whatever order, records
/// those slots; the ledger read from it holds the same slots, and lists them
/// in the order of their serials.
pub proof fn lemma_read_sorts(records: Slots)
    requires
        plain_slots(records),
        distinct_serials(records),
    ensures
        parse_records(ledger_text(records)) == Ok::<Slots, ReadError>(records),
        strictly_sorted(listing_of(records_map(records))),
        listing_of(records_map(records)).to_multiset() == records.to_multiset(),
{
    lemma_text_reads_back(records);
    lemma_records_listing(records);
}

/// A ledger that is written and read again is the same ledger, and writing
/// it once more gives the same text: for every sorted listing with plain
/// serials, the text of the listing records it, the ledger read from that
/// text has this listing, and the text of what was read is the text that was
/// read.
pub proof fn lemma_write_read_round_trip(slots: Slots)
    requires
        strictly_sorted(slots),
        plain_slots(slots),
    ensures
        parse_records(ledger_text(slots)) == Ok::<Slots, ReadError>(slots),
        listing_of(records_map(slots)) == slots,
        ledger_text(listing_of(records_map(parse_records(ledger_text(slots))->Ok_0)))
            == ledger_text(slots),
{
    lemma_text_reads_back(slots);
    lemma_records_map_sorted(slots);
    lemma_listing_of(slots);
}

} // verus!
