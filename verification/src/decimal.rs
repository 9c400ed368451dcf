//! Process identifiers as decimal text.

use crate::runtime::Pid;
use vstd::prelude::*;

verus! {

/// The byte `-`.
pub const MINUS: u8 = 45;

/// The byte `+`.
pub const PLUS: u8 = 43;

/// The byte `0`.
pub const ZERO: u8 = 48;

/// Whether `b` is one of the bytes `0` to `9`.
pub open spec fn is_digit(b: u8) -> bool {
    48 <= b <= 57
}

/// Whether every byte of `d` is a decimal digit.
pub open spec fn all_digits(d: Seq<u8>) -> bool {
    forall|i: int| 0 <= i < d.len() ==> is_digit(#[trigger] d[i])
}

/// The number that the digit `b` stands for; 0 for any other byte.
pub open spec fn digit_value(b: u8) -> nat {
    if is_digit(b) {
        (b - 48) as nat
    } else {
        0
    }
}

/// The number that the decimal digits `d` write, most significant first.
pub open spec fn digits_value(d: Seq<u8>) -> nat
    decreases d.len(),
{
    if d.len() == 0 {
        0
    } else {
        digits_value(d.drop_last()) * 10 + digit_value(d.last())
    }
}

/// The process identifier that the field `f` writes: an optional sign, then
/// one decimal digit or more, with a value that a `Pid` can hold. Any other
/// field writes none.
pub open spec fn parse_pid(f: Seq<u8>) -> Option<Pid> {
    if f.len() == 0 {
        None
    } else {
        let digits = if f[0] == MINUS || f[0] == PLUS {
            f.drop_first()
        } else {
            f
        };
        let value: int = if f[0] == MINUS {
            -digits_value(digits)
        } else {
            digits_value(digits) as int
        };
        if digits.len() == 0 || !all_digits(digits) || value < i32::MIN || value > i32::MAX {
            None
        } else {
            Some(value as i32)
        }
    }
}

/// The decimal digits of `n`, without leading zeros.
pub open spec fn nat_digits(n: nat) -> Seq<u8>
    decreases n,
{
    if n < 10 {
        seq![(48 + n) as u8]
    } else {
        nat_digits(n / 10).push((48 + n % 10) as u8)
    }
}

/// The decimal text of a process identifier: a minus sign where it is
/// negative, then the digits of its magnitude.
pub open spec fn pid_text(pid: Pid) -> Seq<u8> {
    if pid < 0 {
        seq![MINUS] + nat_digits((-pid) as nat)
    } else {
        nat_digits(pid as nat)
    }
}

/// Digits that follow can only make the number larger.
proof fn lemma_digits_value_prefix(d: Seq<u8>, k: int)
    requires
        0 <= k <= d.len(),
    ensures
        digits_value(d.take(k)) <= digits_value(d),
    decreases d.len(),
{
    if k == d.len() {
        assert(d.take(k) =~= d);
    } else {
        lemma_digits_value_prefix(d.drop_last(), k);
        assert(d.drop_last().take(k) =~= d.take(k));
    }
}

/// The digits of a number are digits, there is at least one, and they write
/// that number.
pub proof fn lemma_nat_digits(n: nat)
    ensures
        nat_digits(n).len() >= 1,
        all_digits(nat_digits(n)),
        digits_value(nat_digits(n)) == n,
    decreases n,
{
    if n < 10 {
        let d = nat_digits(n);
        assert(d.drop_last() =~= Seq::<u8>::empty());
        assert(digits_value(d.drop_last()) == 0);
    } else {
        lemma_nat_digits(n / 10);
        let d = nat_digits(n);
        assert(d.drop_last() =~= nat_digits(n / 10));
        assert forall|i: int| 0 <= i < d.len() implies is_digit(#[trigger] d[i]) by {
            if i < d.len() - 1 {
                assert(d[i] == nat_digits(n / 10)[i]);
            }
        }
    }
}

/// The text of a process identifier reads back as that identifier.
pub proof fn lemma_pid_text_parses(pid: Pid)
    ensures
        parse_pid(pid_text(pid)) == Some(pid),
{
    let t = pid_text(pid);
    if pid < 0 {
        let d = nat_digits((-pid) as nat);
        lemma_nat_digits((-pid) as nat);
        assert(t.drop_first() =~= d);
    } else {
        let d = nat_digits(pid as nat);
        lemma_nat_digits(pid as nat);
        assert(is_digit(d[0]));
    }
}

/// The text of a process identifier is made of digits and at most a sign,
/// and it ends in a digit.
pub proof fn lemma_pid_text_bytes(pid: Pid)
    ensures
        pid_text(pid).len() >= 1,
        forall|i: int|
            0 <= i < pid_text(pid).len() ==> is_digit(#[trigger] pid_text(pid)[i]) || pid_text(
                pid,
            )[i] == MINUS,
        is_digit(pid_text(pid).last()),
{
    if pid < 0 {
        lemma_nat_digits((-pid) as nat);
        let d = nat_digits((-pid) as nat);
        assert forall|i: int| 0 <= i < pid_text(pid).len() implies is_digit(
            #[trigger] pid_text(pid)[i],
        ) || pid_text(pid)[i] == MINUS by {
            if i > 0 {
                assert(pid_text(pid)[i] == d[i - 1]);
            }
        }
        assert(pid_text(pid).last() == d.last());
    } else {
        lemma_nat_digits(pid as nat);
    }
}

/// Reads a process identifier from a field of a record.
pub fn read_pid(field: &[u8]) -> (r: Option<Pid>)
    ensures
        r == parse_pid(field@),
{
    if field.len() == 0 {
        return None;
    }
    let negative = field[0] == MINUS;
    let start: usize = if field[0] == MINUS || field[0] == PLUS {
        1
    } else {
        0
    };
    let ghost digits = field@.skip(start as int);
    proof {
        if start == 1 {
            assert(digits =~= field@.drop_first());
        } else {
            assert(digits =~= field@);
        }
    }
    if start == field.len() {
        return None;
    }
    let mut magnitude: i64 = 0;
    let mut i: usize = start;
    proof {
        assert(digits.take(0) =~= Seq::<u8>::empty());
    }
    while i < field.len()
        invariant
            start <= i <= field.len(),
            field@.len() > 0,
            digits == field@.skip(start as int),
            digits == (if field@[0] == MINUS || field@[0] == PLUS {
                field@.drop_first()
            } else {
                field@
            }),
            all_digits(digits.take(i - start)),
            magnitude == digits_value(digits.take(i - start)),
            0 <= magnitude <= 2147483648,
        decreases field.len() - i,
    {
        let b = field[i];
        proof {
            assert(digits[i - start] == b);
            assert(digits.take(i - start + 1).drop_last() =~= digits.take(i - start));
            assert(digits.take(i - start + 1).last() == b);
        }
        if b < 48 || b > 57 {
            proof {
                assert(!is_digit(digits[i - start]));
            }
            return None;
        }
        magnitude = magnitude * 10 + (b - 48) as i64;
        proof {
            let next = digits.take(i - start + 1);
            assert forall|j: int| 0 <= j < next.len() implies is_digit(#[trigger] next[j]) by {
                if j < i - start {
                    assert(next[j] == digits.take(i - start)[j]);
                }
            }
        }
        if magnitude > 2147483648 {
            proof {
                lemma_digits_value_prefix(digits, i - start + 1);
            }
            return None;
        }
        i = i + 1;
    }
    proof {
        assert(digits.take(i - start) =~= digits);
    }
    let value: i64 = if negative {
        -magnitude
    } else {
        magnitude
    };
    if value > 2147483647 {
        None
    } else {
        Some(value as i32)
    }
}

/// Appends the decimal digits of `n` to `out`.
fn write_digits(n: u32, out: &mut Vec<u8>)
    ensures
        final(out)@ == old(out)@ + nat_digits(n as nat),
    decreases n,
{
    if n >= 10 {
        write_digits(n / 10, out);
    }
    out.push(48 + (n % 10) as u8);
    proof {
        assert(final(out)@ =~= old(out)@ + nat_digits(n as nat));
    }
}

/// Appends the decimal text of `pid` to `out`.
pub fn write_pid(pid: Pid, out: &mut Vec<u8>)
    ensures
        final(out)@ == old(out)@ + pid_text(pid),
{
    if pid < 0 {
        out.push(MINUS);
        let magnitude: i64 = -(pid as i64);
        write_digits(magnitude as u32, out);
        proof {
            assert(final(out)@ =~= old(out)@ + pid_text(pid));
        }
    } else {
        write_digits(pid as u32, out);
    }
}

} // verus!
