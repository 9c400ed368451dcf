//! The claim pass: one reconciliation of the ledger with the devices that
//! are attached and the processes that are alive, and one attempt to claim
//! a slot.

use crate::format::{ledger_text, parse_records, records_map, ReadError};
use crate::lockfile::LockFileEntries;
use crate::slots::{
    count_free, first_free, has_key, held_slots, key_index, lemma_count_free_zero, lemma_first_free,
    lemma_held_and_free, lemma_listing_of, lemma_map_value, lemma_push_contains, lemma_released,
    lemma_released_listed,
    lemma_updated_listed, listing_of, released, slots_map, strictly_sorted, updated, Holders,
    Slots,
};
use crate::runtime::{Pid, Runtime, Serial};
use vstd::prelude::*;

verus! {

/// What one claim pass found.
#[derive(Debug)]
pub struct Pass {
    /// The serial that was claimed, if any was.
    pub serial: Option<Serial>,
    /// The number of slots that were free just before the claim: the value
    /// that the semaphore of the pool is to have.
    pub available: usize,
}

/// The serials of the held slots whose holder was found dead. `alive[i]` is
/// the answer for `held[i]`; a slot without an answer counts as alive.
pub open spec fn stale_serials(held: Seq<(Seq<char>, Pid)>, alive: Seq<bool>) -> Seq<Seq<char>>
    decreases held.len(),
{
    if held.len() == 0 {
        Seq::empty()
    } else {
        let rest = stale_serials(held.drop_last(), alive);
        if held.len() - 1 < alive.len() && !alive[held.len() - 1] {
            rest.push(held.last().0)
        } else {
            rest
        }
    }
}

/// The serial that a claim on the ledger `m` gets: that of the first free
/// slot in the order of the serials.
pub open spec fn claimable(m: Holders) -> Option<Seq<char>> {
    let s = listing_of(m);
    if first_free(s) < s.len() {
        Some(s[first_free(s)].0)
    } else {
        None
    }
}

/// The ledger `m` after a claim for `pid`.
pub open spec fn claimed(m: Holders, pid: Pid) -> Holders {
    match claimable(m) {
        Some(serial) => m.insert(serial, Some(pid)),
        None => m,
    }
}

/// The ledger on which a pass makes its claim. The pass first brings `m` in
/// line with the attached devices `live`. Where that leaves a free slot, it
/// claims there. Where it leaves none, the pass asks for each held slot
/// whether its holder is alive, gets the answers `alive`, and releases the
/// slots whose holder is dead; it claims on what that leaves.
pub open spec fn settled(
    m: Holders,
    live: Seq<Seq<char>>,
    alive: Seq<bool>,
) -> Holders {
    let m1 = updated(m, live);
    if claimable(m1) is Some {
        m1
    } else {
        released(m1, stale_serials(held_slots(listing_of(m1)), alive))
    }
}

/// The answers decide what is released: the serial of a held slot is among
/// the stale ones exactly where some slot with that serial got the answer
/// that its holder is dead.
pub proof fn lemma_stale_serials(held: Seq<(Seq<char>, Pid)>, alive: Seq<bool>, k: Seq<char>)
    ensures
        stale_serials(held, alive).contains(k) <==> exists|i: int|
            0 <= i < held.len() && i < alive.len() && !alive[i] && (#[trigger] held[i]).0 == k,
    decreases held.len(),
{
    if held.len() > 0 {
        let front = held.drop_last();
        let n = held.len() - 1;
        let rest = stale_serials(front, alive);
        lemma_stale_serials(front, alive, k);
        if n < alive.len() && !alive[n] {
            lemma_push_contains(rest, held.last().0, k);
        }
        if stale_serials(held, alive).contains(k) {
            if rest.contains(k) {
                let i = choose|i: int|
                    0 <= i < front.len() && i < alive.len() && !alive[i] && (#[trigger] front[i]).0
                        == k;
                assert(held[i] == front[i]);
            } else {
                assert(held[n].0 == k);
            }
        }
        if exists|i: int|
            0 <= i < held.len() && i < alive.len() && !alive[i] && (#[trigger] held[i]).0 == k {
            let i = choose|i: int|
                0 <= i < held.len() && i < alive.len() && !alive[i] && (#[trigger] held[i]).0 == k;
            if i < n {
                assert(front[i] == held[i]);
            }
        }
    }
}

/// Settling frees the slot of a dead holder. Where the answer for the held
/// slot `i` of a ledger is that its holder is dead, that slot is free in the
/// ledger on which `settle_pass` claims, so its claim gets a slot.
pub proof fn lemma_settle_frees_dead_holder(s: Slots, alive: Seq<bool>, i: int)
    requires
        strictly_sorted(s),
        0 <= i < held_slots(s).len(),
        i < alive.len(),
        !alive[i],
    ensures
        ({
            let m = released(slots_map(s), stale_serials(held_slots(s), alive));
            let serial = held_slots(s)[i].0;
            &&& m.dom().contains(serial)
            &&& m[serial] is None
            &&& claimable(m) is Some
        }),
{
    let held = held_slots(s);
    let stale = stale_serials(held, alive);
    let m = released(slots_map(s), stale);
    let serial = held[i].0;
    lemma_stale_serials(held, alive, serial);
    lemma_released(slots_map(s), stale);
    assert(m.dom().contains(serial));
    assert(m[serial] is None);
    lemma_released_listed(s, stale);
    lemma_free_slot_claimable(m, serial);
}

/// Settling takes no slot from a holder that is alive. A held slot for
/// which no answer says that its holder is dead has the same holder after
/// `settle_pass`, whoever the claim is for.
pub proof fn lemma_settle_keeps_living_holder(
    s: Slots,
    alive: Seq<bool>,
    pid: Pid,
    serial: Seq<char>,
)
    requires
        strictly_sorted(s),
        slots_map(s).dom().contains(serial),
        slots_map(s)[serial] is Some,
        forall|i: int|
            0 <= i < held_slots(s).len() && i < alive.len() && (#[trigger] held_slots(s)[i]).0
                == serial ==> alive[i],
    ensures
        ({
            let m = released(slots_map(s), stale_serials(held_slots(s), alive));
            &&& claimed(m, pid).dom().contains(serial)
            &&& claimed(m, pid)[serial] == slots_map(s)[serial]
        }),
{
    let stale = stale_serials(held_slots(s), alive);
    let m = released(slots_map(s), stale);
    lemma_stale_serials(held_slots(s), alive, serial);
    lemma_released(slots_map(s), stale);
    assert(m[serial] == slots_map(s)[serial]);
    lemma_released_listed(s, stale);
    lemma_claim_is_exclusive(listing_of(m), pid);
}

/// A held slot whose holder is found dead can be claimed again after the
/// pass that asked. Where the ledger, once in line with the attached
/// devices, has no free slot, the pass asks about every held slot; if the
/// answer for the held slot `i` is that its holder is dead, that slot is
/// free in the ledger on which the pass claims, and the claim gets a slot.
pub proof fn lemma_stale_slot_reclaimed(
    m: Holders,
    live: Seq<Seq<char>>,
    alive: Seq<bool>,
    i: int,
)
    requires
        claimable(updated(m, live)) is None,
        0 <= i < held_slots(listing_of(updated(m, live))).len(),
        i < alive.len(),
        !alive[i],
    ensures
        ({
            let serial = held_slots(listing_of(updated(m, live)))[i].0;
            &&& settled(m, live, alive).dom().contains(serial)
            &&& settled(m, live, alive)[serial] is None
            &&& claimable(settled(m, live, alive)) is Some
        }),
{
    lemma_updated_listed(m, live);
    lemma_settle_frees_dead_holder(listing_of(updated(m, live)), alive, i);
}

/// A ledger with a free slot has a slot to claim.
pub proof fn lemma_free_slot_claimable(m: Holders, serial: Seq<char>)
    requires
        m.dom().contains(serial),
        m[serial] is None,
        exists|s: Slots| strictly_sorted(s) && slots_map(s) == m,
    ensures
        claimable(m) is Some,
{
    let s = listing_of(m);
    lemma_first_free(s);
    assert(has_key(s, serial));
    let j = key_index(s, serial);
    lemma_map_value(s, j);
    if first_free(s) >= s.len() {
        assert(s[j].1 is Some);
    }
}

/// A claim takes a slot that nobody holds and leaves every other slot as it
/// is. So, with the passes of all processes made one after another, no
/// serial is ever handed to a second holder while the ledger records a
/// first, and there are never more holders than slots.
pub proof fn lemma_claim_is_exclusive(s: Slots, pid: Pid)
    requires
        strictly_sorted(s),
    ensures
        ({
            let m = slots_map(s);
            match claimable(m) {
                Some(serial) => {
                    &&& m.dom().contains(serial)
                    &&& m[serial] is None
                    &&& claimed(m, pid) == m.insert(serial, Some(pid))
                    &&& forall|k: Seq<char>|
                        k != serial && m.dom().contains(k) ==> #[trigger] claimed(m, pid)[k] == m[k]
                    &&& claimed(m, pid).dom() == m.dom()
                },
                None => {
                    &&& claimed(m, pid) == m
                    &&& count_free(s) == 0
                },
            }
        }),
        held_slots(s).len() + count_free(s) == s.len(),
{
    let m = slots_map(s);
    lemma_listing_of(s);
    lemma_first_free(s);
    lemma_count_free_zero(s);
    lemma_held_and_free(s);
    if first_free(s) < s.len() {
        lemma_map_value(s, first_free(s));
        let serial = s[first_free(s)].0;
        assert(m.insert(serial, Some(pid)).dom() =~= m.dom());
    }
}

/// A pass takes no device from a holder that is alive. Where a device is
/// attached and held, and no answer of the oracle says that a holder of its
/// slot is dead, the slot has the same holder after the pass, whoever made
/// the pass.
pub proof fn lemma_pass_keeps_living_holder(
    m: Holders,
    live: Seq<Seq<char>>,
    alive: Seq<bool>,
    pid: Pid,
    serial: Seq<char>,
)
    requires
        live.contains(serial),
        m.dom().contains(serial),
        m[serial] is Some,
        forall|i: int|
            0 <= i < held_slots(listing_of(updated(m, live))).len() && i < alive.len() && (
            #[trigger] held_slots(listing_of(updated(m, live)))[i]).0 == serial ==> alive[i],
    ensures
        claimed(settled(m, live, alive), pid).dom().contains(serial),
        claimed(settled(m, live, alive), pid)[serial] == m[serial],
{
    lemma_updated_listed(m, live);
    let m1 = updated(m, live);
    let s1 = listing_of(m1);
    assert(m1[serial] == m[serial]);
    if claimable(m1) is Some {
        lemma_claim_is_exclusive(s1, pid);
    } else {
        lemma_settle_keeps_living_holder(s1, alive, pid, serial);
    }
}

/// The serials of the slots whose holder is dead. `alive[i]` answers for
/// `held[i]`; a slot without an answer counts as alive.
pub fn stale(held: &Vec<(Serial, Pid)>, alive: &Vec<bool>) -> (r: Vec<Serial>)
    ensures
        r.deep_view() == stale_serials(held.deep_view(), alive@),
{
    let mut dropped: Vec<Serial> = Vec::new();
    let mut i: usize = 0;
    while i < held.len()
        invariant
            i <= held.len(),
            dropped.deep_view() == stale_serials(held.deep_view().take(i as int), alive@),
        decreases held.len() - i,
    {
        proof {
            assert(held.deep_view().take(i as int + 1).drop_last() =~= held.deep_view().take(
                i as int,
            ));
        }
        if i < alive.len() && !alive[i] {
            let ghost before = dropped.deep_view();
            dropped.push(held[i].0.clone());
            proof {
                assert(dropped.deep_view() =~= before.push(held[i as int].0@));
            }
        }
        i = i + 1;
    }
    proof {
        assert(held.deep_view().take(i as int) =~= held.deep_view());
    }
    dropped
}

/// The end of a pass that had to ask: `alive[i]` is what the oracle answered
/// for the held slot `i` of the ledger, in the order of `unavialble`. Every
/// slot whose holder is dead is released, and the first slot that is free
/// then is claimed for `pid`.
///
/// The pass that comes back names the serial that was claimed, if any was,
/// and the number of slots that were free once the dead holders were gone.
pub fn settle_pass(entries: &mut LockFileEntries, alive: &Vec<bool>, pid: Pid) -> (pass: Pass)
    ensures
        strictly_sorted(final(entries).slots()),
        ({
            let m = released(
                old(entries)@,
                stale_serials(held_slots(old(entries).slots()), alive@),
            );
            &&& final(entries)@ == claimed(m, pid)
            &&& claimable(m) == match pass.serial {
                Some(serial) => Some(serial@),
                None => None,
            }
            &&& pass.available == count_free(listing_of(m))
        }),
{
    let held = entries.unavialble();
    let dropped = stale(&held, alive);
    entries.release_all(dropped);
    proof {
        lemma_listing_of(entries.slots());
        lemma_first_free(entries.slots());
        lemma_count_free_zero(entries.slots());
    }
    let available = entries.count_available();
    let serial = entries.acquire(pid);
    Pass { serial, available }
}

/// One claim pass for `pid` over the ledger `entries`, with `serials` the
/// devices that are attached.
///
/// The ledger is first brought in line with `serials`. Where that leaves a
/// free slot, the first one is claimed and the oracle is not asked. Where it
/// leaves none, the oracle is asked about the holder of each held slot, in
/// the order of `unavialble`, and `settle_pass` ends the pass with the
/// answers.
///
/// The oracle promises nothing, so of a pass that succeeds the contract says
/// what holds for some answers: the ledger ends as the claim on the settled
/// ledger leaves it. What the pass does with given answers is the contract
/// of `settle_pass`. The pass fails only where the oracle was asked and
/// failed: no slot was free, and some slot was held. It then claims nothing
/// and leaves the ledger in line with `serials`.
pub fn claim_pass<R: Runtime>(
    runtime: &R,
    entries: &mut LockFileEntries,
    serials: &[Serial],
    pid: Pid,
) -> (r: Result<Pass, R::Error>)
    ensures
        strictly_sorted(final(entries).slots()),
        match r {
            Ok(pass) => exists|alive: Seq<bool>|
                {
                    let m = #[trigger] settled(old(entries)@, serials.deep_view(), alive);
                    &&& final(entries)@ == claimed(m, pid)
                    &&& claimable(m) == match pass.serial {
                        Some(serial) => Some(serial@),
                        None => None,
                    }
                    &&& pass.available == count_free(listing_of(m))
                },
            Err(_) => {
                &&& final(entries)@ == updated(old(entries)@, serials.deep_view())
                &&& claimable(final(entries)@) is None
                &&& held_slots(listing_of(updated(old(entries)@, serials.deep_view()))).len() > 0
            },
        },
{
    entries.update(serials);
    let ghost live = serials.deep_view();
    let ghost m1 = entries@;
    let ghost s1 = entries.slots();
    proof {
        lemma_listing_of(s1);
        lemma_first_free(s1);
        lemma_count_free_zero(s1);
    }
    let available = entries.count_available();
    match entries.acquire(pid) {
        Some(serial) => {
            proof {
                let none = Seq::<bool>::empty();
                assert(claimable(m1) == Some(serial@));
                assert(settled(old(entries)@, live, none) == m1);
            }
            Ok(Pass { serial: Some(serial), available })
        },
        None => {
            let held = entries.unavialble();
            let mut alive: Vec<bool> = Vec::new();
            let mut i: usize = 0;
            while i < held.len()
                invariant
                    i <= held.len(),
                    entries@ == m1,
                    entries.slots() == s1,
                    live == serials.deep_view(),
                    m1 == updated(old(entries)@, live),
                    s1 == listing_of(m1),
                    held.deep_view() == held_slots(s1),
                    claimable(m1) is None,
                    strictly_sorted(entries.slots()),
                decreases held.len() - i,
            {
                match runtime.is_running(held[i].1) {
                    Ok(answer) => {
                        alive.push(answer);
                    },
                    Err(e) => {
                        proof {
                            assert(held.deep_view().len() == held.len());
                        }
                        return Err(e);
                    },
                }
                i = i + 1;
            }
            let pass = settle_pass(entries, &alive, pid);
            proof {
                assert(settled(old(entries)@, live, alive@) == released(
                    m1,
                    stale_serials(held_slots(s1), alive@),
                ));
            }
            Ok(pass)
        },
    }
}

/// Why a claim on the text of a ledger came to nothing.
#[derive(Debug)]
pub enum ClaimError<E> {
    /// The text of the ledger cannot be read.
    Ledger(ReadError),
    /// The oracle could not say whether a holder is alive.
    Oracle(E),
}

/// What one claim on the text of a ledger found.
#[derive(Debug)]
pub struct Claim {
    /// The serial that was claimed, if any was.
    pub serial: Option<Serial>,
    /// The number of slots that were free just before the claim: the value
    /// that the semaphore of the pool is to have.
    pub available: usize,
    /// The text to put in place of the ledger. There is one exactly where a
    /// serial was claimed; a pass that claims nothing leaves the ledger as
    /// it is.
    pub ledger: Option<Vec<u8>>,
}

/// One claim pass for `pid` over the text of the ledger, with `serials` the
/// devices that are attached.
///
/// The text is read first, and a text that cannot be read ends the pass with
/// the error that reading gives. The pass on the ledger that was read is
/// that of `claim_pass`, which asks the oracle only where no slot is free
/// and some slot is held, and whose end for given answers is the contract of
/// `settle_pass`. Where a serial is claimed, the text of the ledger after
/// the claim comes back to be written in place of the old one.
pub fn try_acquire<R: Runtime>(runtime: &R, text: &[u8], serials: &[Serial], pid: Pid) -> (r:
    Result<Claim, ClaimError<R::Error>>)
    ensures
        match r {
            Ok(claim) => {
                &&& parse_records(text@) is Ok
                &&& exists|alive: Seq<bool>|
                    {
                        let m = #[trigger] settled(
                            records_map(parse_records(text@)->Ok_0),
                            serials.deep_view(),
                            alive,
                        );
                        &&& claimable(m) == match claim.serial {
                            Some(serial) => Some(serial@),
                            None => None,
                        }
                        &&& claim.available == count_free(listing_of(m))
                        &&& match claim.ledger {
                            Some(ledger) => claimable(m) is Some && ledger@ == ledger_text(
                                listing_of(claimed(m, pid)),
                            ),
                            None => claimable(m) is None,
                        }
                    }
            },
            Err(ClaimError::Ledger(e)) => parse_records(text@) == Err::<Slots, ReadError>(e),
            Err(ClaimError::Oracle(_)) => {
                &&& parse_records(text@) is Ok
                &&& claimable(
                    updated(records_map(parse_records(text@)->Ok_0), serials.deep_view()),
                ) is None
                &&& held_slots(
                    listing_of(
                        updated(records_map(parse_records(text@)->Ok_0), serials.deep_view()),
                    ),
                ).len() > 0
            },
        },
{
    let mut entries = match LockFileEntries::read(text) {
        Ok(entries) => entries,
        Err(e) => {
            return Err(ClaimError::Ledger(e));
        },
    };
    let ghost m0 = entries@;
    let pass = match claim_pass(runtime, &mut entries, serials, pid) {
        Ok(pass) => pass,
        Err(e) => {
            return Err(ClaimError::Oracle(e));
        },
    };
    proof {
        lemma_listing_of(entries.slots());
    }
    let ledger = if pass.serial.is_some() {
        Some(entries.write())
    } else {
        None
    };
    proof {
        let alive = choose|alive: Seq<bool>|
            {
                let m = #[trigger] settled(m0, serials.deep_view(), alive);
                &&& entries@ == claimed(m, pid)
                &&& claimable(m) == match pass.serial {
                    Some(serial) => Some(serial@),
                    None => None,
                }
                &&& pass.available == count_free(listing_of(m))
            };
        let m = settled(m0, serials.deep_view(), alive);
        assert(entries@ == claimed(m, pid));
    }
    Ok(Claim { serial: pass.serial, available: pass.available, ledger })
}

/// Frees the slot of `serial` in the text of a ledger, and returns the text
/// to put in its place. A text that cannot be read gives the error that
/// reading gives.
pub fn release(text: &[u8], serial: Serial) -> (r: Result<Vec<u8>, ReadError>)
    ensures
        match r {
            Ok(ledger) => {
                &&& parse_records(text@) is Ok
                &&& ledger@ == ledger_text(
                    listing_of(records_map(parse_records(text@)->Ok_0).insert(serial@, None)),
                )
            },
            Err(e) => parse_records(text@) == Err::<Slots, ReadError>(e),
        },
{
    let mut entries = match LockFileEntries::read(text) {
        Ok(entries) => entries,
        Err(e) => {
            return Err(e);
        },
    };
    entries.release(serial);
    proof {
        lemma_listing_of(entries.slots());
    }
    Ok(entries.write())
}

} // verus!
