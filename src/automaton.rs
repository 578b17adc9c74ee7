use vstd::prelude::*;
use vstd::utf8::*;

verus! {

/// Why a byte sequence is not well-formed UTF-8.
#[derive(Clone, Copy, Debug, PartialEq, Eq, Structural)]
pub enum Utf8Error {
    NotALeadingByte,
    NotAContinuationByte,
    OverlongEncoding,
    SurrogateCharacter,
    OutOfCharacterRange,
    UnexpectedEndOfBuffer,
}

/// The structural class of a byte: the only thing the automaton reads.
#[derive(Clone, Copy, Debug, PartialEq, Eq, Structural)]
pub enum ByteClass {
    /// 0x00..=0x7F: a whole character.
    Ascii,
    /// 0x80..=0x8F: continuation byte, bits 5 and 4 are 00.
    Cont00,
    /// 0x90..=0x9F: continuation byte, bits 5 and 4 are 01.
    Cont01,
    /// 0xA0..=0xBF: continuation byte, bit 5 is 1.
    Cont1x,
    /// 0xC2..=0xDF: lead byte of a 2-byte sequence.
    Lead2,
    /// 0xE1..=0xEC, 0xEE, 0xEF: lead byte of a 3-byte sequence.
    Lead3,
    /// 0xE0: lead byte of a 3-byte sequence that may be overlong.
    Lead3Overlong,
    /// 0xED: lead byte of a 3-byte sequence that may encode a surrogate.
    Lead3Surrogate,
    /// 0xF1..=0xF3: lead byte of a 4-byte sequence.
    Lead4,
    /// 0xF0: lead byte of a 4-byte sequence that may be overlong.
    Lead4Overlong,
    /// 0xF4: lead byte of a 4-byte sequence that may exceed 0x10FFFF.
    Lead4Range,
    /// 0xC0, 0xC1, 0xF5..=0xFF: never part of well-formed UTF-8.
    Illegal,
}

/// A state of the decoding automaton.
#[derive(Clone, Copy, Debug, PartialEq, Eq, Structural)]
pub enum DecodeState {
    /// Between characters: a character was just completed.
    Accept,
    Need1,
    Need2,
    Need2Overlong,
    Need2Surrogate,
    Need3,
    Need3Overlong,
    Need3Range,
    Failed(Utf8Error),
}

pub open spec fn class_of(b: u8) -> ByteClass {
    if b <= 0x7F {
        ByteClass::Ascii
    } else if b <= 0x8F {
        ByteClass::Cont00
    } else if b <= 0x9F {
        ByteClass::Cont01
    } else if b <= 0xBF {
        ByteClass::Cont1x
    } else if b <= 0xC1 {
        ByteClass::Illegal
    } else if b <= 0xDF {
        ByteClass::Lead2
    } else if b == 0xE0 {
        ByteClass::Lead3Overlong
    } else if b == 0xED {
        ByteClass::Lead3Surrogate
    } else if b <= 0xEF {
        ByteClass::Lead3
    } else if b == 0xF0 {
        ByteClass::Lead4Overlong
    } else if b == 0xF4 {
        ByteClass::Lead4Range
    } else if b <= 0xF3 {
        ByteClass::Lead4
    } else {
        ByteClass::Illegal
    }
}

/// The transition function of the automaton; total over states and classes.
pub open spec fn next_state(s: DecodeState, c: ByteClass) -> DecodeState {
    match s {
        DecodeState::Accept => match c {
            ByteClass::Ascii => DecodeState::Accept,
            ByteClass::Lead2 => DecodeState::Need1,
            ByteClass::Lead3 => DecodeState::Need2,
            ByteClass::Lead3Overlong => DecodeState::Need2Overlong,
            ByteClass::Lead3Surrogate => DecodeState::Need2Surrogate,
            ByteClass::Lead4 => DecodeState::Need3,
            ByteClass::Lead4Overlong => DecodeState::Need3Overlong,
            ByteClass::Lead4Range => DecodeState::Need3Range,
            _ => DecodeState::Failed(Utf8Error::NotALeadingByte),
        },
        DecodeState::Failed(e) => DecodeState::Failed(e),
        _ => match c {
            ByteClass::Cont00 => match s {
                DecodeState::Need2Overlong => DecodeState::Failed(Utf8Error::OverlongEncoding),
                DecodeState::Need3Overlong => DecodeState::Failed(Utf8Error::OverlongEncoding),
                _ => after_continuation(s),
            },
            ByteClass::Cont01 => match s {
                DecodeState::Need2Overlong => DecodeState::Failed(Utf8Error::OverlongEncoding),
                DecodeState::Need3Range => DecodeState::Failed(Utf8Error::OutOfCharacterRange),
                _ => after_continuation(s),
            },
            ByteClass::Cont1x => match s {
                DecodeState::Need2Surrogate => DecodeState::Failed(Utf8Error::SurrogateCharacter),
                DecodeState::Need3Range => DecodeState::Failed(Utf8Error::OutOfCharacterRange),
                _ => after_continuation(s),
            },
            _ => DecodeState::Failed(Utf8Error::NotAContinuationByte),
        },
    }
}

/// The state after an accepted continuation byte: one byte fewer is needed.
pub open spec fn after_continuation(s: DecodeState) -> DecodeState {
    match s {
        DecodeState::Need1 => DecodeState::Accept,
        DecodeState::Need2 | DecodeState::Need2Overlong | DecodeState::Need2Surrogate => DecodeState::Need1,
        DecodeState::Need3 | DecodeState::Need3Overlong | DecodeState::Need3Range => DecodeState::Need2,
        _ => s,
    }
}

/// Classifies one byte.
pub fn classify(b: u8) -> (r: ByteClass)
    ensures
        r == class_of(b),
{
    if b <= 0x7F {
        ByteClass::Ascii
    } else if b <= 0x8F {
        ByteClass::Cont00
    } else if b <= 0x9F {
        ByteClass::Cont01
    } else if b <= 0xBF {
        ByteClass::Cont1x
    } else if b <= 0xC1 {
        ByteClass::Illegal
    } else if b <= 0xDF {
        ByteClass::Lead2
    } else if b == 0xE0 {
        ByteClass::Lead3Overlong
    } else if b == 0xED {
        ByteClass::Lead3Surrogate
    } else if b <= 0xEF {
        ByteClass::Lead3
    } else if b == 0xF0 {
        ByteClass::Lead4Overlong
    } else if b == 0xF4 {
        ByteClass::Lead4Range
    } else if b <= 0xF3 {
        ByteClass::Lead4
    } else {
        ByteClass::Illegal
    }
}

/// One step of the automaton.
pub fn transition(s: DecodeState, c: ByteClass) -> (r: DecodeState)
    ensures
        r == next_state(s, c),
{
    match s {
        DecodeState::Accept => match c {
            ByteClass::Ascii => DecodeState::Accept,
            ByteClass::Lead2 => DecodeState::Need1,
            ByteClass::Lead3 => DecodeState::Need2,
            ByteClass::Lead3Overlong => DecodeState::Need2Overlong,
            ByteClass::Lead3Surrogate => DecodeState::Need2Surrogate,
            ByteClass::Lead4 => DecodeState::Need3,
            ByteClass::Lead4Overlong => DecodeState::Need3Overlong,
            ByteClass::Lead4Range => DecodeState::Need3Range,
            _ => DecodeState::Failed(Utf8Error::NotALeadingByte),
        },
        DecodeState::Failed(e) => DecodeState::Failed(e),
        _ => match c {
            ByteClass::Cont00 => match s {
                DecodeState::Need2Overlong => DecodeState::Failed(Utf8Error::OverlongEncoding),
                DecodeState::Need3Overlong => DecodeState::Failed(Utf8Error::OverlongEncoding),
                _ => continued(s),
            },
            ByteClass::Cont01 => match s {
                DecodeState::Need2Overlong => DecodeState::Failed(Utf8Error::OverlongEncoding),
                DecodeState::Need3Range => DecodeState::Failed(Utf8Error::OutOfCharacterRange),
                _ => continued(s),
            },
            ByteClass::Cont1x => match s {
                DecodeState::Need2Surrogate => DecodeState::Failed(Utf8Error::SurrogateCharacter),
                DecodeState::Need3Range => DecodeState::Failed(Utf8Error::OutOfCharacterRange),
                _ => continued(s),
            },
            _ => DecodeState::Failed(Utf8Error::NotAContinuationByte),
        },
    }
}

fn continued(s: DecodeState) -> (r: DecodeState)
    ensures
        r == after_continuation(s),
{
    match s {
        DecodeState::Need1 => DecodeState::Accept,
        DecodeState::Need2 | DecodeState::Need2Overlong | DecodeState::Need2Surrogate => DecodeState::Need1,
        DecodeState::Need3 | DecodeState::Need3Overlong | DecodeState::Need3Range => DecodeState::Need2,
        _ => s,
    }
}

// What a well-formed sequence and each fault are, stated on the bytes.

/// Length of the sequence that a lead byte starts; 0 where the byte cannot lead.
pub open spec fn sequence_width(lead: u8) -> int {
    if lead <= 0x7F {
        1
    } else if 0xC2 <= lead <= 0xDF {
        2
    } else if 0xE0 <= lead <= 0xEF {
        3
    } else if 0xF0 <= lead <= 0xF4 {
        4
    } else {
        0
    }
}

/// The fault that a first continuation byte shows after the lead bytes that
/// restrict it: too small after 0xE0 or 0xF0, too large after 0xED or 0xF4.
pub open spec fn second_byte_fault(lead: u8, b: u8) -> Option<Utf8Error> {
    if lead == 0xE0 && b < 0xA0 {
        Some(Utf8Error::OverlongEncoding)
    } else if lead == 0xED && b >= 0xA0 {
        Some(Utf8Error::SurrogateCharacter)
    } else if lead == 0xF0 && b < 0x90 {
        Some(Utf8Error::OverlongEncoding)
    } else if lead == 0xF4 && b >= 0x90 {
        Some(Utf8Error::OutOfCharacterRange)
    } else {
        None
    }
}

/// The fault at the `i`-th byte of a multi-byte sequence, with the number of
/// bytes consumed up to and including the offending one.
pub open spec fn continuation_fault(bytes: Seq<u8>, i: int) -> Option<(Utf8Error, int)> {
    if i >= bytes.len() {
        Some((Utf8Error::UnexpectedEndOfBuffer, bytes.len() as int))
    } else if !is_continuation_byte(bytes[i]) {
        Some((Utf8Error::NotAContinuationByte, i + 1))
    } else if i == 1 && second_byte_fault(bytes[0], bytes[1]) is Some {
        Some((second_byte_fault(bytes[0], bytes[1])->0, 2))
    } else {
        None
    }
}

/// The first fault of the sequence that starts `bytes`, with the number of
/// bytes consumed when it is found; `None` when it is well-formed.
pub open spec fn first_fault(bytes: Seq<u8>) -> Option<(Utf8Error, int)>
    recommends
        bytes.len() > 0,
{
    let w = sequence_width(bytes[0]);
    if w == 0 {
        Some((Utf8Error::NotALeadingByte, 1))
    } else if w >= 2 && continuation_fault(bytes, 1) is Some {
        continuation_fault(bytes, 1)
    } else if w >= 3 && continuation_fault(bytes, 2) is Some {
        continuation_fault(bytes, 2)
    } else if w >= 4 && continuation_fault(bytes, 3) is Some {
        continuation_fault(bytes, 3)
    } else {
        None
    }
}

/// The well-formedness rules that the fault taxonomy states are those of UTF-8.
pub proof fn lemma_fault_free_iff_valid(bytes: Seq<u8>)
    requires
        bytes.len() > 0,
    ensures
        first_fault(bytes) is None <==> valid_first_scalar(bytes),
        first_fault(bytes) is None ==> valid_first_scalar(bytes) && length_of_first_scalar(bytes)
            == sequence_width(bytes[0]) && is_scalar(decode_first_scalar(bytes)),
        bytes[0] <= 0x7F ==> decode_first_scalar(bytes) == bytes[0] as u32,
{
    let b0 = bytes[0];
    if b0 <= 0x7F {
        assert(first_fault(bytes) is None);
        assert(b0 <= 0x7F ==> (b0 & 0x7F) as u32 == b0 as u32) by (bit_vector);
    } else if b0 <= 0xBF || b0 >= 0xF8 {
        assert(first_fault(bytes) is Some);
    } else if b0 <= 0xDF {
        if bytes.len() >= 2 {
            let b1 = bytes[1];
            assert(0xC0 <= b0 <= 0xC1 && 0x80 <= b1 <= 0xBF ==> codepoint_width_2(b0, b1) < 0x80)
                by (bit_vector);
            assert(0xC2 <= b0 <= 0xDF && 0x80 <= b1 <= 0xBF ==> 0x80 <= codepoint_width_2(b0, b1)
                < 0x800) by (bit_vector);
            assert(first_fault(bytes) is None <==> valid_first_scalar(bytes));
        }
    } else if b0 <= 0xEF {
        if bytes.len() >= 3 {
            let b1 = bytes[1];
            let b2 = bytes[2];
            assert(0xE0 <= b0 <= 0xEF && 0x80 <= b1 <= 0xBF && 0x80 <= b2 <= 0xBF ==> {
                let c = codepoint_width_3(b0, b1, b2);
                &&& c <= 0xFFFF
                &&& (c >= 0x800 <==> !(b0 == 0xE0 && b1 < 0xA0))
                &&& (0xD800 <= c <= 0xDFFF <==> (b0 == 0xED && b1 >= 0xA0))
            }) by (bit_vector);
            assert(first_fault(bytes) is None <==> valid_first_scalar(bytes));
        } else {
            assert(first_fault(bytes) is Some);
        }
    } else {
        if bytes.len() >= 4 {
            let b1 = bytes[1];
            let b2 = bytes[2];
            let b3 = bytes[3];
            assert(0xF0 <= b0 <= 0xF7 && 0x80 <= b1 <= 0xBF && 0x80 <= b2 <= 0xBF && 0x80 <= b3
                <= 0xBF ==> {
                let c = codepoint_width_4(b0, b1, b2, b3);
                &&& (c >= 0x10000 <==> !(b0 == 0xF0 && b1 < 0x90))
                &&& (c <= 0x10FFFF <==> (b0 < 0xF4 || (b0 == 0xF4 && b1 < 0x90)))
            }) by (bit_vector);
            assert(first_fault(bytes) is None <==> valid_first_scalar(bytes));
        } else {
            assert(first_fault(bytes) is Some);
        }
    }
}

} // verus!
