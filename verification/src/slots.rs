//! The listing of a ledger as a sequence of slots in the order of their
//! serials, the mapping it stands for, and what the operations of the ledger
//! do to both.

use crate::bytes::{key_lt, lemma_key_order};
use crate::runtime::Pid;
use vstd::prelude::*;

verus! {

/// The listing of a ledger: one `(serial, holder)` pair per slot.
pub type Slots = Seq<(Seq<char>, Option<Pid>)>;

/// A ledger as a mapping: the holder of each serial that has a slot, `None`
/// for a free slot.
pub type Holders = Map<Seq<char>, Option<Pid>>;

/// Serials rise strictly along the listing, so no serial occurs twice.
pub open spec fn strictly_sorted(s: Slots) -> bool {
    forall|i: int, j: int| #![trigger s[i], s[j]] 0 <= i < j < s.len() ==> key_lt(s[i].0, s[j].0)
}

/// Whether some slot of the listing carries serial `k`.
pub open spec fn has_key(s: Slots, k: Seq<char>) -> bool {
    exists|i: int| #![trigger s[i]] 0 <= i < s.len() && s[i].0 == k
}

/// The index of a slot that carries serial `k`.
pub open spec fn key_index(s: Slots, k: Seq<char>) -> int {
    choose|i: int| #![trigger s[i]] 0 <= i < s.len() && s[i].0 == k
}

/// The mapping that a listing stands for.
pub open spec fn slots_map(s: Slots) -> Holders {
    Map::new(|k: Seq<char>| has_key(s, k), |k: Seq<char>| s[key_index(s, k)].1)
}

/// The index of the first free slot, or the length of the listing where
/// every slot is held.
pub open spec fn first_free(s: Slots) -> int
    decreases s.len(),
{
    if s.len() == 0 {
        0
    } else if s[0].1 is None {
        0
    } else {
        1 + first_free(s.drop_first())
    }
}

/// The number of free slots.
pub open spec fn count_free(s: Slots) -> nat
    decreases s.len(),
{
    if s.len() == 0 {
        0
    } else {
        count_free(s.drop_last()) + if s.last().1 is None {
            1nat
        } else {
            0nat
        }
    }
}

/// The held slots in listing order, each with its holder.
pub open spec fn held_slots(s: Slots) -> Seq<(Seq<char>, Pid)>
    decreases s.len(),
{
    if s.len() == 0 {
        Seq::empty()
    } else {
        match s.last().1 {
            Some(pid) => held_slots(s.drop_last()).push((s.last().0, pid)),
            None => held_slots(s.drop_last()),
        }
    }
}

/// What `first_free` finds: every slot before it is held, and the slot at
/// it, if there is one, is free.
pub proof fn lemma_first_free(s: Slots)
    ensures
        0 <= first_free(s) <= s.len(),
        forall|j: int| 0 <= j < first_free(s) ==> (#[trigger] s[j]).1 is Some,
        first_free(s) < s.len() ==> s[first_free(s)].1 is None,
    decreases s.len(),
{
    if s.len() > 0 && s[0].1 is Some {
        let t = s.drop_first();
        lemma_first_free(t);
        assert forall|j: int| 0 <= j < first_free(s) implies (#[trigger] s[j]).1 is Some by {
            if j > 0 {
                assert(s[j] == t[j - 1]);
            }
        }
    }
}

/// A listing in which every slot is held has no free slot, and the other
/// way round.
pub proof fn lemma_count_free_zero(s: Slots)
    ensures
        count_free(s) == 0 <==> first_free(s) == s.len(),
    decreases s.len(),
{
    lemma_first_free(s);
    if s.len() > 0 {
        lemma_count_free_zero(s.drop_last());
        lemma_first_free(s.drop_last());
        let t = s.drop_last();
        if first_free(s) == s.len() {
            assert forall|j: int| 0 <= j < t.len() implies (#[trigger] t[j]).1 is Some by {
                assert(t[j] == s[j]);
            }
            if first_free(t) < t.len() {
                assert(t[first_free(t)].1 is None);
            }
        }
        if count_free(s) == 0 {
            assert(first_free(t) == t.len());
            assert forall|j: int| 0 <= j < s.len() implies (#[trigger] s[j]).1 is Some by {
                if j < t.len() {
                    assert(t[j] == s[j]);
                }
            }
            if first_free(s) < s.len() {
                assert(s[first_free(s)].1 is None);
            }
        }
    }
}

/// Changing the holder of one slot changes the number of free slots by the
/// difference between the old and the new state of that slot.
pub proof fn lemma_count_free_update(s: Slots, i: int, h: Option<Pid>)
    requires
        0 <= i < s.len(),
    ensures
        count_free(s.update(i, (s[i].0, h))) + (if s[i].1 is None { 1int } else { 0int })
            == count_free(s) + (if h is None { 1int } else { 0int }),
    decreases s.len(),
{
    let t = s.update(i, (s[i].0, h));
    if i == s.len() - 1 {
        assert(t.drop_last() =~= s.drop_last());
    } else {
        lemma_count_free_update(s.drop_last(), i, h);
        assert(t.drop_last() =~= s.drop_last().update(i, (s[i].0, h)));
    }
}

/// In a sorted listing the mapping gives each slot's serial that slot's
/// holder.
pub proof fn lemma_map_value(s: Slots, i: int)
    requires
        strictly_sorted(s),
        0 <= i < s.len(),
    ensures
        slots_map(s).dom().contains(s[i].0),
        slots_map(s)[s[i].0] == s[i].1,
        key_index(s, s[i].0) == i,
{
    let k = s[i].0;
    assert(has_key(s, k));
    let j = key_index(s, k);
    lemma_key_order(k, k, k);
    if j < i {
        assert(key_lt(s[j].0, s[i].0));
    } else if i < j {
        assert(key_lt(s[i].0, s[j].0));
    }
}

/// Two sorted listings that stand for the same mapping are the same
/// listing.
pub proof fn lemma_sorted_listing_unique(s: Slots, t: Slots)
    requires
        strictly_sorted(s),
        strictly_sorted(t),
        slots_map(s) == slots_map(t),
    ensures
        s == t,
    decreases s.len(),
{
    if s.len() == 0 {
        if t.len() > 0 {
            lemma_map_value(t, 0);
            assert(has_key(s, t[0].0));
        }
        assert(s =~= t);
    } else if t.len() == 0 {
        lemma_map_value(s, 0);
        assert(has_key(t, s[0].0));
    } else {
        // The last slots carry the greatest serial of either listing.
        let n = s.len() - 1;
        let m = t.len() - 1;
        lemma_map_value(s, n);
        lemma_map_value(t, m);
        assert(has_key(t, s[n].0));
        assert(has_key(s, t[m].0));
        let a = key_index(t, s[n].0);
        let b = key_index(s, t[m].0);
        lemma_key_order(s[n].0, t[m].0, s[n].0);
        if a < m {
            assert(key_lt(t[a].0, t[m].0));
        }
        if b < n {
            assert(key_lt(s[b].0, s[n].0));
        }
        assert(s[n].0 == t[m].0);
        assert(s[n] == t[m]);
        let s0 = s.drop_last();
        let t0 = t.drop_last();
        lemma_map_remove(s, n);
        lemma_map_remove(t, m);
        assert(s.remove(n) =~= s0);
        assert(t.remove(m) =~= t0);
        lemma_sorted_listing_unique(s0, t0);
        assert(s =~= s0.push(s[n]));
        assert(t =~= t0.push(t[m]));
    }
}

/// Setting the holder of slot `i` keeps the listing sorted and sets the
/// holder of its serial in the mapping.
pub proof fn lemma_map_set(s: Slots, i: int, h: Option<Pid>)
    requires
        strictly_sorted(s),
        0 <= i < s.len(),
    ensures
        strictly_sorted(s.update(i, (s[i].0, h))),
        slots_map(s.update(i, (s[i].0, h))) == slots_map(s).insert(s[i].0, h),
{
    let t = s.update(i, (s[i].0, h));
    assert forall|a: int, b: int| 0 <= a < b < t.len() implies key_lt(t[a].0, t[b].0) by {
        assert(t[a].0 == s[a].0);
        assert(t[b].0 == s[b].0);
    }
    let mt = slots_map(t);
    let ms = slots_map(s).insert(s[i].0, h);
    assert forall|q: Seq<char>| mt.dom().contains(q) <==> ms.dom().contains(q) by {
        if has_key(t, q) {
            let j = key_index(t, q);
            assert(s[j].0 == q);
        }
        if has_key(s, q) {
            let j = key_index(s, q);
            assert(t[j].0 == q);
        }
        if q == s[i].0 {
            assert(t[i].0 == q);
        }
    }
    assert forall|q: Seq<char>| mt.dom().contains(q) implies mt[q] == ms[q] by {
        let j = key_index(t, q);
        lemma_map_value(t, j);
        if j != i {
            assert(s[j].0 == q);
            lemma_map_value(s, j);
            lemma_map_value(s, i);
            lemma_key_order(s[i].0, s[j].0, s[i].0);
            if i < j {
                assert(key_lt(s[i].0, s[j].0));
            } else {
                assert(key_lt(s[j].0, s[i].0));
            }
        }
    }
    assert(mt =~= ms);
}

/// Inserting a slot at the place that its serial has in the order keeps the
/// listing sorted and adds the slot to the mapping.
pub proof fn lemma_map_insert(s: Slots, pos: int, k: Seq<char>, h: Option<Pid>)
    requires
        strictly_sorted(s),
        0 <= pos <= s.len(),
        forall|j: int| 0 <= j < pos ==> key_lt((#[trigger] s[j]).0, k),
        forall|j: int| pos <= j < s.len() ==> key_lt(k, (#[trigger] s[j]).0),
    ensures
        strictly_sorted(s.insert(pos, (k, h))),
        slots_map(s.insert(pos, (k, h))) == slots_map(s).insert(k, h),
        !has_key(s, k),
{
    let t = s.insert(pos, (k, h));
    assert forall|a: int, b: int| 0 <= a < b < t.len() implies key_lt(t[a].0, t[b].0) by {
        if b < pos {
            assert(t[a] == s[a] && t[b] == s[b]);
        } else if b == pos {
            assert(t[a] == s[a]);
        } else if a < pos {
            assert(t[a] == s[a] && t[b] == s[b - 1]);
        } else if a == pos {
            assert(t[b] == s[b - 1]);
        } else {
            assert(t[a] == s[a - 1] && t[b] == s[b - 1]);
        }
    }
    if has_key(s, k) {
        let j = key_index(s, k);
        lemma_key_order(k, k, k);
        if j < pos {
            assert(key_lt(s[j].0, k));
        } else {
            assert(key_lt(k, s[j].0));
        }
    }
    let mt = slots_map(t);
    let ms = slots_map(s).insert(k, h);
    assert forall|q: Seq<char>| mt.dom().contains(q) <==> ms.dom().contains(q) by {
        if has_key(t, q) {
            let j = key_index(t, q);
            if j < pos {
                assert(s[j].0 == q);
            } else if j > pos {
                assert(s[j - 1].0 == q);
            }
        }
        if has_key(s, q) {
            let j = key_index(s, q);
            if j < pos {
                assert(t[j].0 == q);
            } else {
                assert(t[j + 1].0 == q);
            }
        }
        if q == k {
            assert(t[pos].0 == q);
        }
    }
    assert forall|q: Seq<char>| mt.dom().contains(q) implies mt[q] == ms[q] by {
        let j = key_index(t, q);
        lemma_map_value(t, j);
        if j < pos {
            assert(s[j] == t[j]);
            lemma_map_value(s, j);
        } else if j > pos {
            assert(s[j - 1] == t[j]);
            lemma_map_value(s, j - 1);
        }
    }
    assert(mt =~= ms);
}

/// A serial that comes after every slot before `pos` and before the slot at
/// `pos` comes before every slot from `pos` on, so it can enter the listing
/// there.
pub proof fn lemma_map_insert_at(s: Slots, pos: int, k: Seq<char>, h: Option<Pid>)
    requires
        strictly_sorted(s),
        0 <= pos <= s.len(),
        forall|j: int| 0 <= j < pos ==> key_lt((#[trigger] s[j]).0, k),
        pos < s.len() ==> key_lt(k, s[pos].0),
    ensures
        strictly_sorted(s.insert(pos, (k, h))),
        slots_map(s.insert(pos, (k, h))) == slots_map(s).insert(k, h),
        !has_key(s, k),
{
    assert forall|j: int| pos <= j < s.len() implies key_lt(k, (#[trigger] s[j]).0) by {
        if j > pos {
            assert(key_lt(s[pos].0, s[j].0));
            lemma_key_order(k, s[pos].0, s[j].0);
        }
    }
    lemma_map_insert(s, pos, k, h);
}

/// Removing slot `i` keeps the listing sorted and removes its serial from
/// the mapping.
pub proof fn lemma_map_remove(s: Slots, i: int)
    requires
        strictly_sorted(s),
        0 <= i < s.len(),
    ensures
        strictly_sorted(s.remove(i)),
        slots_map(s.remove(i)) == slots_map(s).remove(s[i].0),
{
    let t = s.remove(i);
    let k = s[i].0;
    assert forall|a: int, b: int| 0 <= a < b < t.len() implies key_lt(t[a].0, t[b].0) by {
        if b < i {
            assert(t[a] == s[a] && t[b] == s[b]);
        } else if a < i {
            assert(t[a] == s[a] && t[b] == s[b + 1]);
        } else {
            assert(t[a] == s[a + 1] && t[b] == s[b + 1]);
        }
    }
    let mt = slots_map(t);
    let ms = slots_map(s).remove(k);
    lemma_key_order(k, k, k);
    assert forall|q: Seq<char>| mt.dom().contains(q) <==> ms.dom().contains(q) by {
        if has_key(t, q) {
            let j = key_index(t, q);
            if j < i {
                assert(s[j].0 == q);
                assert(key_lt(s[j].0, s[i].0));
            } else {
                assert(s[j + 1].0 == q);
                assert(key_lt(s[i].0, s[j + 1].0));
            }
        }
        if has_key(s, q) && q != k {
            let j = key_index(s, q);
            if j < i {
                assert(t[j].0 == q);
            } else {
                assert(t[j - 1].0 == q);
            }
        }
    }
    assert forall|q: Seq<char>| mt.dom().contains(q) implies mt[q] == ms[q] by {
        let j = key_index(t, q);
        lemma_map_value(t, j);
        if j < i {
            assert(s[j] == t[j]);
            lemma_map_value(s, j);
        } else {
            assert(s[j + 1] == t[j]);
            lemma_map_value(s, j + 1);
        }
    }
    assert(mt =~= ms);
}

/// The mapping after every serial of `keys` has been released: each of them
/// is free, and every other slot is as it was.
pub open spec fn released(m: Holders, keys: Seq<Seq<char>>) -> Holders
    decreases keys.len(),
{
    if keys.len() == 0 {
        m
    } else {
        released(m, keys.drop_last()).insert(keys.last(), None)
    }
}

/// The mapping after it has been brought in line with the attached devices
/// `live`: it has exactly their serials, with the holder that a serial had
/// before, and free where it had no slot.
pub open spec fn updated(m: Holders, live: Seq<Seq<char>>) -> Holders {
    Map::new(
        |k: Seq<char>| live.contains(k),
        |k: Seq<char>|
            if m.dom().contains(k) {
                m[k]
            } else {
                None
            },
    )
}

/// A sequence with `x` added holds what it held before, and `x`.
pub proof fn lemma_push_contains(s: Seq<Seq<char>>, x: Seq<char>, k: Seq<char>)
    ensures
        s.push(x).contains(k) <==> s.contains(k) || k == x,
{
    let t = s.push(x);
    if s.contains(k) {
        let w = choose|w: int| 0 <= w < s.len() && #[trigger] s[w] == k;
        assert(t[w] == k);
    }
    if k == x {
        assert(t[s.len() as int] == k);
    }
    if t.contains(k) {
        let w = choose|w: int| 0 <= w < t.len() && #[trigger] t[w] == k;
        if w < s.len() {
            assert(s[w] == k);
        }
    }
}

/// The sorted listing of a mapping.
pub open spec fn listing_of(m: Holders) -> Slots {
    choose|s: Slots| strictly_sorted(s) && slots_map(s) == m
}

/// A sorted listing is the listing of the mapping it stands for.
pub proof fn lemma_listing_of(s: Slots)
    requires
        strictly_sorted(s),
    ensures
        listing_of(slots_map(s)) == s,
{
    lemma_sorted_listing_unique(s, listing_of(slots_map(s)));
}

/// Bringing a ledger in line with the same attached devices a second time
/// changes nothing.
pub proof fn lemma_update_idempotent(m: Holders, live: Seq<Seq<char>>)
    ensures
        updated(updated(m, live), live) == updated(m, live),
{
    assert(updated(updated(m, live), live) =~= updated(m, live));
}

/// Releasing a slot a second time changes nothing, and releasing a slot that
/// is free changes nothing.
pub proof fn lemma_release_idempotent(m: Holders, serial: Seq<char>)
    ensures
        m.insert(serial, None).insert(serial, None) == m.insert(serial, None),
        m.dom().contains(serial) && m[serial] is None ==> m.insert(serial, None) == m,
{
    assert(m.insert(serial, None).insert(serial, None) =~= m.insert(serial, None));
    if m.dom().contains(serial) && m[serial] is None {
        assert(m.insert(serial, None) =~= m);
    }
}

/// What releasing several serials leaves: each of them has a free slot, and
/// every other serial is as it was.
pub proof fn lemma_released(m: Holders, keys: Seq<Seq<char>>)
    ensures
        forall|k: Seq<char>|
            #[trigger] released(m, keys).dom().contains(k) <==> m.dom().contains(k)
                || keys.contains(k),
        forall|k: Seq<char>| keys.contains(k) ==> #[trigger] released(m, keys)[k] is None,
        forall|k: Seq<char>|
            m.dom().contains(k) && !keys.contains(k) ==> #[trigger] released(m, keys)[k] == m[k],
    decreases keys.len(),
{
    if keys.len() > 0 {
        let front = keys.drop_last();
        lemma_released(m, front);
        assert forall|k: Seq<char>| keys.contains(k) <==> front.contains(k) || k
            == keys.last() by {
            assert(keys =~= front.push(keys.last()));
            lemma_push_contains(front, keys.last(), k);
        }
    }
}

/// Every slot is either free or held, and no serial has two slots: there
/// are never more holders than slots, and never two holders of one serial.
pub proof fn lemma_held_and_free(s: Slots)
    requires
        strictly_sorted(s),
    ensures
        held_slots(s).len() + count_free(s) == s.len(),
        forall|i: int, j: int| 0 <= i < j < s.len() ==> (#[trigger] s[i]).0 != (#[trigger] s[j]).0,
    decreases s.len(),
{
    if s.len() > 0 {
        let front = s.drop_last();
        assert forall|i: int, j: int| 0 <= i < j < front.len() implies key_lt(
            front[i].0,
            front[j].0,
        ) by {
            assert(front[i] == s[i] && front[j] == s[j]);
        }
        lemma_held_and_free(front);
    }
    assert forall|i: int, j: int| 0 <= i < j < s.len() implies (#[trigger] s[i]).0 != (
    #[trigger] s[j]).0 by {
        lemma_key_order(s[i].0, s[j].0, s[i].0);
    }
}

/// The number of leading slots whose serial comes before `k`.
pub open spec fn rank(s: Slots, k: Seq<char>) -> int
    decreases s.len(),
{
    if s.len() == 0 {
        0
    } else if key_lt(s[0].0, k) {
        1 + rank(s.drop_first(), k)
    } else {
        0
    }
}

/// What `rank` counts: every slot before it has a serial that comes before
/// `k`, and the slot at it, if there is one, has not.
proof fn lemma_rank(s: Slots, k: Seq<char>)
    ensures
        0 <= rank(s, k) <= s.len(),
        forall|j: int| 0 <= j < rank(s, k) ==> key_lt((#[trigger] s[j]).0, k),
        rank(s, k) < s.len() ==> !key_lt(s[rank(s, k)].0, k),
    decreases s.len(),
{
    if s.len() > 0 && key_lt(s[0].0, k) {
        let t = s.drop_first();
        lemma_rank(t, k);
        assert forall|j: int| 0 <= j < rank(s, k) implies key_lt((#[trigger] s[j]).0, k) by {
            if j > 0 {
                assert(s[j] == t[j - 1]);
            }
        }
    }
}

/// The listing `s` with serial `k` given the holder `h`: the slot of `k`
/// gets the holder, and a serial without a slot gets one at its place in
/// the order.
pub open spec fn with_slot(s: Slots, k: Seq<char>, h: Option<Pid>) -> Slots {
    let pos = rank(s, k);
    if pos < s.len() && s[pos].0 == k {
        s.update(pos, (k, h))
    } else {
        s.insert(pos, (k, h))
    }
}

/// Giving a serial a holder keeps a listing sorted and sets the holder in
/// the mapping.
pub proof fn lemma_with_slot(s: Slots, k: Seq<char>, h: Option<Pid>)
    requires
        strictly_sorted(s),
    ensures
        0 <= rank(s, k) <= s.len(),
        strictly_sorted(with_slot(s, k, h)),
        slots_map(with_slot(s, k, h)) == slots_map(s).insert(k, h),
        !has_key(s, k) ==> with_slot(s, k, h) == s.insert(rank(s, k), (k, h)),
{
    lemma_rank(s, k);
    let pos = rank(s, k);
    if pos < s.len() && s[pos].0 == k {
        lemma_map_set(s, pos, h);
    } else {
        if pos < s.len() {
            lemma_key_order(k, s[pos].0, k);
        }
        lemma_map_insert_at(s, pos, k, h);
    }
}

/// A mapping with a sorted listing still has one after a holder is set.
pub proof fn lemma_insert_listed(s: Slots, k: Seq<char>, h: Option<Pid>)
    requires
        strictly_sorted(s),
    ensures
        exists|t: Slots| strictly_sorted(t) && slots_map(t) == slots_map(s).insert(k, h),
{
    lemma_with_slot(s, k, h);
    let t = with_slot(s, k, h);
    assert(strictly_sorted(t) && slots_map(t) == slots_map(s).insert(k, h));
}

/// A mapping with a sorted listing still has one after serials are
/// released.
pub proof fn lemma_released_listed(s: Slots, keys: Seq<Seq<char>>)
    requires
        strictly_sorted(s),
    ensures
        exists|t: Slots| strictly_sorted(t) && slots_map(t) == released(slots_map(s), keys),
    decreases keys.len(),
{
    if keys.len() == 0 {
        assert(strictly_sorted(s) && slots_map(s) == released(slots_map(s), keys));
    } else {
        lemma_released_listed(s, keys.drop_last());
        let t = choose|t: Slots|
            strictly_sorted(t) && slots_map(t) == released(slots_map(s), keys.drop_last());
        lemma_insert_listed(t, keys.last(), None);
    }
}

/// An updated ledger has a sorted listing, whatever it was before.
pub proof fn lemma_updated_listed(m: Holders, live: Seq<Seq<char>>)
    ensures
        exists|t: Slots| strictly_sorted(t) && slots_map(t) == updated(m, live),
    decreases live.len(),
{
    if live.len() == 0 {
        let t = Seq::<(Seq<char>, Option<Pid>)>::empty();
        assert(slots_map(t) =~= updated(m, live));
        assert(strictly_sorted(t) && slots_map(t) == updated(m, live));
    } else {
        let front = live.drop_last();
        let k = live.last();
        lemma_updated_listed(m, front);
        let t = choose|t: Slots| strictly_sorted(t) && slots_map(t) == updated(m, front);
        let h = if m.dom().contains(k) {
            m[k]
        } else {
            None
        };
        lemma_insert_listed(t, k, h);
        assert forall|q: Seq<char>| live.contains(q) <==> front.contains(q) || q == k by {
            assert(live =~= front.push(k));
            lemma_push_contains(front, k, q);
        }
        assert(updated(m, front).insert(k, h) =~= updated(m, live));
    }
}

} // verus!
