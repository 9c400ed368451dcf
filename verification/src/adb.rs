//! What the device bridge prints: the list of attached devices.

use crate::bytes::text_of;
use crate::format::{after_first_line, first_line, next_line};
use crate::runtime::Serial;
use vstd::prelude::*;
use vstd::slice::slice_subrange;
use vstd::utf8::*;

verus! {

/// Why a list of devices cannot be read.
#[derive(Debug, Clone, Copy, PartialEq, Eq, Structural)]
pub enum DevicesError {
    /// A line is not UTF-8.
    InvalidUtf8,
    /// A line that is not empty holds nothing but white space.
    BlankLine,
}

/// Whether `b` is a space, a tab, a line feed, a form feed or a carriage
/// return.
pub open spec fn is_space(b: u8) -> bool {
    b == 32 || b == 9 || b == 10 || b == 12 || b == 13
}

/// The number of bytes of white space that `s` starts with.
pub open spec fn leading_spaces(s: Seq<u8>) -> int
    decreases s.len(),
{
    if s.len() == 0 || !is_space(s[0]) {
        0
    } else {
        1 + leading_spaces(s.drop_first())
    }
}

/// The number of bytes other than white space that `s` starts with.
pub open spec fn leading_word(s: Seq<u8>) -> int
    decreases s.len(),
{
    if s.len() == 0 || is_space(s[0]) {
        0
    } else {
        1 + leading_word(s.drop_first())
    }
}

/// The first word of a line: what stands between the white space that the
/// line starts with and the next white space, or the end of the line.
pub open spec fn first_word(line: Seq<u8>) -> Seq<u8> {
    let rest = line.skip(leading_spaces(line));
    rest.take(leading_word(rest))
}

/// The device that one line lists: none for an empty line, else the first
/// word of the line.
pub open spec fn line_device(line: Seq<u8>) -> Result<Option<Seq<char>>, DevicesError> {
    if !valid_utf8(line) {
        Err(DevicesError::InvalidUtf8)
    } else if line.len() == 0 {
        Ok(None)
    } else if first_word(line).len() == 0 {
        Err(DevicesError::BlankLine)
    } else {
        Ok(Some(decode_utf8(first_word(line))))
    }
}

/// The devices that the lines of `text` list, or the error of the first
/// line that cannot be read.
pub open spec fn listed_devices(text: Seq<u8>) -> Result<Seq<Seq<char>>, DevicesError>
    decreases text.len(),
{
    if text.len() == 0 {
        Ok(Seq::empty())
    } else {
        match line_device(first_line(text)) {
            Ok(device) => match listed_devices(after_first_line(text)) {
                Ok(devices) => Ok(
                    match device {
                        Some(serial) => seq![serial] + devices,
                        None => devices,
                    },
                ),
                Err(e) => Err(e),
            },
            Err(e) => Err(e),
        }
    }
}

/// The devices in the output of the bridge: its first line is a heading,
/// and each line after it that is not empty starts with the serial of one
/// device.
pub open spec fn attached_devices(output: Seq<u8>) -> Result<Seq<Seq<char>>, DevicesError> {
    if output.len() == 0 {
        Ok(Seq::empty())
    } else {
        listed_devices(after_first_line(output))
    }
}

/// The white space that `s` starts with ends at `n` where every byte before
/// `n` is white space and the byte at `n`, if there is one, is not.
proof fn lemma_leading_spaces_is(s: Seq<u8>, n: int)
    requires
        0 <= n <= s.len(),
        forall|j: int| 0 <= j < n ==> is_space(#[trigger] s[j]),
        n < s.len() ==> !is_space(s[n]),
    ensures
        leading_spaces(s) == n,
    decreases s.len(),
{
    if n > 0 {
        let t = s.drop_first();
        assert(is_space(s[0]));
        assert forall|j: int| 0 <= j < n - 1 implies is_space(#[trigger] t[j]) by {
            assert(t[j] == s[j + 1]);
        }
        lemma_leading_spaces_is(t, n - 1);
    }
}

/// The word that `s` starts with ends at `n` where no byte before `n` is
/// white space and the byte at `n`, if there is one, is.
proof fn lemma_leading_word_is(s: Seq<u8>, n: int)
    requires
        0 <= n <= s.len(),
        forall|j: int| 0 <= j < n ==> !is_space(#[trigger] s[j]),
        n < s.len() ==> is_space(s[n]),
    ensures
        leading_word(s) == n,
    decreases s.len(),
{
    if n > 0 {
        let t = s.drop_first();
        assert(!is_space(s[0]));
        assert forall|j: int| 0 <= j < n - 1 implies !is_space(#[trigger] t[j]) by {
            assert(t[j] == s[j + 1]);
        }
        lemma_leading_word_is(t, n - 1);
    }
}

/// A stretch of UTF-8 text that starts after a byte below 128, or at the
/// start, and ends before one, or at the end, is UTF-8.
proof fn lemma_word_is_utf8(line: Seq<u8>, a: int, b: int)
    requires
        valid_utf8(line),
        0 <= a <= b <= line.len(),
        a > 0 ==> line[a - 1] < 128,
        b < line.len() ==> line[b] < 128,
    ensures
        valid_utf8(line.subrange(a, b)),
{
    if b < line.len() {
        is_char_boundary_iff_not_is_continuation_byte(line, b);
    } else {
        is_char_boundary_start_end_of_seq(line);
    }
    valid_utf8_split(line, b);
    let front = line.subrange(0, b);
    if a == 0 {
    } else if a == b {
        assert(line.subrange(a, b) =~= Seq::<u8>::empty());
    } else {
        is_char_boundary_iff_not_is_continuation_byte(front, a - 1);
        valid_utf8_split(front, a - 1);
        let tail = front.subrange(a - 1, front.len() as int);
        assert(tail[0] == line[a - 1]);
        assert(is_leading_byte_width_1(tail[0]));
        assert(length_of_first_scalar(tail) == 1);
        assert(pop_first_scalar(tail) =~= line.subrange(a, b));
    }
}

/// Whether `b` is white space.
fn space(b: u8) -> (r: bool)
    ensures
        r == is_space(b),
{
    b == 32 || b == 9 || b == 10 || b == 12 || b == 13
}

/// Reads the device that one line lists.
pub fn read_device(line: &[u8]) -> (r: Result<Option<Serial>, DevicesError>)
    ensures
        match r {
            Ok(Some(serial)) => line_device(line@) == Ok::<Option<Seq<char>>, DevicesError>(
                Some(serial@),
            ),
            Ok(None) => line_device(line@) == Ok::<Option<Seq<char>>, DevicesError>(None),
            Err(e) => line_device(line@) == Err::<Option<Seq<char>>, DevicesError>(e),
        },
{
    if text_of(line).is_none() {
        return Err(DevicesError::InvalidUtf8);
    }
    if line.len() == 0 {
        return Ok(None);
    }
    let mut start: usize = 0;
    while start < line.len() && space(line[start])
        invariant
            start <= line.len(),
            forall|j: int| 0 <= j < start ==> is_space(#[trigger] line@[j]),
        decreases line.len() - start,
    {
        start = start + 1;
    }
    let mut end: usize = start;
    while end < line.len() && !space(line[end])
        invariant
            start <= end <= line.len(),
            forall|j: int| start <= j < end ==> !is_space(#[trigger] line@[j]),
        decreases line.len() - end,
    {
        end = end + 1;
    }
    let word = slice_subrange(line, start, end);
    proof {
        lemma_leading_spaces_is(line@, start as int);
        let rest = line@.skip(start as int);
        assert forall|j: int| 0 <= j < end - start implies !is_space(#[trigger] rest[j]) by {
            assert(rest[j] == line@[start + j]);
        }
        lemma_leading_word_is(rest, end - start);
        assert(word@ =~= first_word(line@));
        lemma_word_is_utf8(line@, start as int, end as int);
    }
    if start == end {
        return Err(DevicesError::BlankLine);
    }
    match text_of(word) {
        Some(text) => {
            proof {
                encode_utf8_decode_utf8(text@);
            }
            Ok(Some(text.to_owned()))
        },
        None => {
            proof {
                assert(false);
            }
            Err(DevicesError::InvalidUtf8)
        },
    }
}

/// `devices` before the devices of `rest`, or the error of `rest`.
pub open spec fn devices_then(
    devices: Seq<Seq<char>>,
    rest: Result<Seq<Seq<char>>, DevicesError>,
) -> Result<Seq<Seq<char>>, DevicesError> {
    match rest {
        Ok(more) => Ok(devices + more),
        Err(e) => Err(e),
    }
}

/// Reads the serials of the attached devices from the output of the bridge.
pub fn parse_devices(output: &[u8]) -> (r: Result<Vec<Serial>, DevicesError>)
    ensures
        match r {
            Ok(devices) => attached_devices(output@) == Ok::<Seq<Seq<char>>, DevicesError>(
                devices.deep_view(),
            ),
            Err(e) => attached_devices(output@) == Err::<Seq<Seq<char>>, DevicesError>(e),
        },
{
    let mut devices: Vec<Serial> = Vec::new();
    if output.len() == 0 {
        proof {
            assert(devices.deep_view() =~= Seq::<Seq<char>>::empty());
        }
        return Ok(devices);
    }
    let (_, start) = next_line(output, 0);
    let mut pos: usize = start;
    proof {
        assert(output@.skip(0) =~= output@);
        assert(devices.deep_view() =~= Seq::<Seq<char>>::empty());
        match listed_devices(output@.skip(pos as int)) {
            Ok(more) => {
                assert(devices.deep_view() + more =~= more);
            },
            Err(_) => {},
        }
    }
    while pos < output.len()
        invariant
            pos <= output.len(),
            output.len() > 0,
            attached_devices(output@) == devices_then(
                devices.deep_view(),
                listed_devices(output@.skip(pos as int)),
            ),
        decreases output.len() - pos,
    {
        let (line, next) = next_line(output, pos);
        let ghost rest = output@.skip(pos as int);
        let ghost before = devices.deep_view();
        match read_device(line) {
            Ok(Some(serial)) => {
                proof {
                    match listed_devices(after_first_line(rest)) {
                        Ok(more) => {
                            assert(before + (seq![serial@] + more) =~= before.push(serial@) + more);
                        },
                        Err(_) => {},
                    }
                }
                devices.push(serial);
                proof {
                    assert(devices.deep_view() =~= before.push(serial@));
                }
            },
            Ok(None) => {},
            Err(e) => {
                return Err(e);
            },
        }
        pos = next;
    }
    proof {
        assert(devices.deep_view() + Seq::<Seq<char>>::empty() =~= devices.deep_view());
    }
    Ok(devices)
}

} // verus!
