use vstd::prelude::*;
use vstd::utf8::{
    codepoint_width_2, codepoint_width_3, codepoint_width_4, decode_first_scalar, is_continuation_byte,
    is_scalar, length_of_first_scalar, pop_first_scalar, valid_first_scalar, valid_utf8,
};

use vstd::slice::slice_subrange;

use crate::tables::PropertyTables;
use crate::category::{ascii_category, ascii_category_index, GeneralCategory};
use crate::automaton::{
    class_of, classify, continuation_fault, first_fault, lemma_fault_free_iff_valid, next_state,
    second_byte_fault, sequence_width, transition, DecodeState, Utf8Error,
};

verus! {

/// The bits that a lead byte contributes to its codepoint: all but the
/// length marker.
pub open spec fn lead_bits(lead: u8) -> u32 {
    let w = sequence_width(lead);
    if w == 2 {
        (lead & 0x1F) as u32
    } else if w == 3 {
        (lead & 0x0F) as u32
    } else {
        (lead & 0x07) as u32
    }
}

/// The codepoint accumulated from the first `k` bytes of a multi-byte sequence.
pub open spec fn accumulated(bytes: Seq<u8>, k: int) -> u32
    decreases k,
{
    if k <= 1 {
        lead_bits(bytes[0])
    } else {
        ((bytes[k - 1] & 0x3F) as u32) | (accumulated(bytes, k - 1) << 6)
    }
}

/// The automaton's state after the lead byte and `k - 1` accepted continuation
/// bytes of a sequence of width `sequence_width(lead)`.
pub open spec fn pending_state(lead: u8, k: int) -> DecodeState {
    let left = sequence_width(lead) - k;
    if k == 1 {
        next_state(DecodeState::Accept, class_of(lead))
    } else if left == 1 {
        DecodeState::Need1
    } else if left == 2 {
        DecodeState::Need2
    } else {
        DecodeState::Accept
    }
}

proof fn lemma_lead(lead: u8)
    requires
        lead >= 0x80,
    ensures
        sequence_width(lead) == 0 ==> next_state(DecodeState::Accept, class_of(lead))
            == DecodeState::Failed(Utf8Error::NotALeadingByte),
        sequence_width(lead) != 0 ==> 2 <= sequence_width(lead) <= 4 && !(next_state(
            DecodeState::Accept,
            class_of(lead),
        ) is Failed) && next_state(DecodeState::Accept, class_of(lead)) != DecodeState::Accept,
{
}

proof fn lemma_step(lead: u8, k: int, b: u8)
    requires
        2 <= sequence_width(lead),
        1 <= k < sequence_width(lead),
    ensures
        ({
            let s = next_state(pending_state(lead, k), class_of(b));
            &&& !is_continuation_byte(b) ==> s == DecodeState::Failed(
                Utf8Error::NotAContinuationByte,
            )
            &&& is_continuation_byte(b) && k == 1 && second_byte_fault(lead, b) is Some ==> s
                == DecodeState::Failed(second_byte_fault(lead, b)->0)
            &&& is_continuation_byte(b) && !(k == 1 && second_byte_fault(lead, b) is Some) ==> s
                == pending_state(lead, k + 1)
        }),
{
}

proof fn lemma_accumulated(bytes: Seq<u8>)
    requires
        bytes.len() > 0,
        valid_first_scalar(bytes),
        length_of_first_scalar(bytes) == sequence_width(bytes[0]),
        sequence_width(bytes[0]) >= 2,
    ensures
        accumulated(bytes, sequence_width(bytes[0])) == decode_first_scalar(bytes),
{
    let b0 = bytes[0];
    let b1 = bytes[1];
    let w = sequence_width(b0);
    assert(accumulated(bytes, 1) == lead_bits(b0));
    assert(accumulated(bytes, 2) == ((b1 & 0x3F) as u32) | (lead_bits(b0) << 6));
    if w == 2 {
        assert(((b1 & 0x3F) as u32) | (((b0 & 0x1F) as u32) << 6) == codepoint_width_2(b0, b1))
            by (bit_vector);
    } else if w == 3 {
        let b2 = bytes[2];
        assert(accumulated(bytes, 3) == ((b2 & 0x3F) as u32) | (accumulated(bytes, 2) << 6));
        assert(((b2 & 0x3F) as u32) | ((((b1 & 0x3F) as u32) | (((b0 & 0x0F) as u32) << 6)) << 6)
            == codepoint_width_3(b0, b1, b2)) by (bit_vector);
    } else {
        let b2 = bytes[2];
        let b3 = bytes[3];
        assert(accumulated(bytes, 3) == ((b2 & 0x3F) as u32) | (accumulated(bytes, 2) << 6));
        assert(accumulated(bytes, 4) == ((b3 & 0x3F) as u32) | (accumulated(bytes, 3) << 6));
        assert(((b3 & 0x3F) as u32) | ((((b2 & 0x3F) as u32) | ((((b1 & 0x3F) as u32) | (((b0
            & 0x07) as u32) << 6)) << 6)) << 6) == codepoint_width_4(b0, b1, b2, b3))
            by (bit_vector);
    }
}

proof fn lemma_first_fault_at(bytes: Seq<u8>, k: int)
    requires
        bytes.len() > 0,
        2 <= sequence_width(bytes[0]),
        1 <= k <= sequence_width(bytes[0]),
        forall|i: int| 1 <= i < k ==> continuation_fault(bytes, i) is None,
    ensures
        k < sequence_width(bytes[0]) && continuation_fault(bytes, k) is Some ==> first_fault(bytes)
            == continuation_fault(bytes, k),
        k == sequence_width(bytes[0]) ==> first_fault(bytes) is None,
{
    if k > 1 {
        assert(continuation_fault(bytes, 1) is None);
    }
    if k > 2 {
        assert(continuation_fault(bytes, 2) is None);
    }
    if k > 3 {
        assert(continuation_fault(bytes, 3) is None);
    }
}

/// What decoding the character that starts at `pos` yields: the codepoint
/// or the fault, and the offset where decoding stopped.
pub open spec fn decode_outcome(bytes: Seq<u8>, pos: int) -> (Result<u32, Utf8Error>, int) {
    let rest = bytes.subrange(pos, bytes.len() as int);
    match first_fault(rest) {
        None => (Ok(decode_first_scalar(rest)), pos + length_of_first_scalar(rest)),
        Some((e, n)) => (Err(e), pos + n),
    }
}

/// Decodes the character that starts at `pos`, driving the automaton one
/// byte at a time and stopping at the first accepting or failed state.
pub fn decode_at(raw: &[u8], pos: usize) -> (r: (Result<u32, Utf8Error>, usize))
    requires
        pos < raw@.len(),
    ensures
        (r.0, r.1 as int) == decode_outcome(raw@, pos as int),
        r.0 is Ok ==> valid_first_scalar(raw@.subrange(pos as int, raw@.len() as int)),
        r.0 matches Ok(cp) ==> is_scalar(cp),
        r.0 is Ok && raw@[pos as int] <= 0x7F ==> r.0 == Ok::<u32, Utf8Error>(raw@[pos as int] as u32),
{
    let ghost rest = raw@.subrange(pos as int, raw@.len() as int);
    proof {
        lemma_fault_free_iff_valid(rest);
    }
    let lead = raw[pos];
    assert(rest[0] == lead);
    assert(rest.len() == raw@.len() - pos);
    let mut next: usize = pos + 1;
    if lead < 0x80 {
        assert(lead < 0x80 ==> (lead & 0x7F) as u32 == lead as u32) by (bit_vector);
        return (Ok(lead as u32), next);
    }
    proof {
        lemma_lead(lead);
    }
    let mut state = transition(DecodeState::Accept, classify(lead));
    let width: usize;
    let mut cp: u32;
    match state {
        DecodeState::Failed(e) => {
            return (Err(e), next);
        },
        DecodeState::Need1 => {
            width = 2;
            cp = (lead & 0x1F) as u32;
        },
        DecodeState::Need2 | DecodeState::Need2Overlong | DecodeState::Need2Surrogate => {
            width = 3;
            cp = (lead & 0x0F) as u32;
        },
        _ => {
            width = 4;
            cp = (lead & 0x07) as u32;
        },
    }
    let mut k: usize = 1;
    while k < width
        invariant
            pos < raw@.len(),
            rest == raw@.subrange(pos as int, raw@.len() as int),
            rest.len() == raw@.len() - pos,
            rest[0] == lead,
            width as int == sequence_width(lead),
            2 <= width <= 4,
            1 <= k <= width,
            next == pos + k,
            state == pending_state(lead, k as int),
            cp == accumulated(rest, k as int),
            forall|i: int| 1 <= i < k ==> continuation_fault(rest, i) is None,
        decreases width - k,
    {
        proof {
            lemma_first_fault_at(rest, k as int);
        }
        if next >= raw.len() {
            assert(continuation_fault(rest, k as int) is Some);
            return (Err(Utf8Error::UnexpectedEndOfBuffer), raw.len());
        }
        let b = raw[next];
        proof {
            lemma_step(lead, k as int, b);
        }
        next = next + 1;
        cp = ((b & 0x3F) as u32) | (cp << 6);
        state = transition(state, classify(b));
        if let DecodeState::Failed(e) = state {
            assert(continuation_fault(rest, k as int) == Some((e, k as int + 1)));
            return (Err(e), next);
        }
        assert(continuation_fault(rest, k as int) is None);
        k = k + 1;
    }
    proof {
        lemma_first_fault_at(rest, k as int);
        lemma_accumulated(rest);
    }
    (Ok(cp), next)
}

/// Relies on `char::from_u32`: `Some` exactly for Unicode scalar values,
/// holding the character with that value.
#[verifier::external_body]
pub(crate) fn char_of(cp: u32) -> (r: Option<char>)
    ensures
        r is Some <==> is_scalar(cp),
        r matches Some(c) ==> c as u32 == cp,
{
    char::from_u32(cp)
}

/// Relies on `std::str::from_utf8`: `Ok` exactly for well-formed UTF-8, then a
/// view of the same bytes as text.
#[verifier::external_body]
fn text_of(b: &[u8]) -> (r: Option<&str>)
    ensures
        r is Some <==> valid_utf8(b@),
        r matches Some(s) ==> s@ == vstd::utf8::decode_utf8(b@),
{
    std::str::from_utf8(b).ok()
}

/// A position in a decoder's buffer, taken by [`Utf8Decoder::mark`].
#[derive(Clone, Copy, Debug)]
pub struct Utf8DecoderPosition {
    offset: usize,
}

impl View for Utf8DecoderPosition {
    type V = int;

    closed spec fn view(&self) -> int {
        self.offset as int
    }
}

/// What a decoder is: its buffer, its status, the offset where decoding
/// resumed after the last error (0 before any), and its cursor.
pub struct DecoderView {
    pub bytes: Seq<u8>,
    pub status: Result<(), Utf8Error>,
    pub first: int,
    pub next: int,
}

impl DecoderView {
    pub open spec fn wf(self) -> bool {
        &&& 0 <= self.first <= self.next <= self.bytes.len()
        &&& self.status is Ok ==> self.first == 0
    }

    /// The bytes not yet decoded.
    pub open spec fn rest(self) -> Seq<u8> {
        self.bytes.subrange(self.next, self.bytes.len() as int)
    }

    /// One decoding step: the character produced, if any, and the decoder after it.
    /// At the end of the buffer nothing changes. A fault is recorded in the
    /// status, and decoding resumes after the bytes it consumed.
    pub open spec fn step(self) -> (Option<char>, DecoderView) {
        if self.next >= self.bytes.len() {
            (None, self)
        } else {
            match decode_outcome(self.bytes, self.next) {
                (Ok(cp), n) => (Some(cp as char), DecoderView { next: n, ..self }),
                (Err(e), n) => (None, DecoderView { status: Err(e), first: n, next: n, ..self }),
            }
        }
    }

    /// The text between a mark and the cursor, or the error that stands
    /// between them.
    pub open spec fn marked(self, mark: int) -> Result<Seq<char>, Utf8Error> {
        match self.status {
            Err(e) if mark < self.first => Err(e),
            _ => Ok(vstd::utf8::decode_utf8(self.bytes.subrange(mark, self.next))),
        }
    }
}

/// The decoder after `n` steps.
pub open spec fn after_steps(v: DecoderView, n: nat) -> DecoderView
    decreases n,
{
    if n == 0 {
        v
    } else {
        after_steps(v.step().1, (n - 1) as nat)
    }
}

/// What the first `n` steps return.
pub open spec fn produced(v: DecoderView, n: nat) -> Seq<Option<char>>
    decreases n,
{
    if n == 0 {
        seq![]
    } else {
        seq![v.step().0] + produced(v.step().1, (n - 1) as nat)
    }
}

/// A decoder at the start of `bytes`.
pub open spec fn fresh(bytes: Seq<u8>) -> DecoderView {
    DecoderView { bytes, status: Ok(()), first: 0, next: 0 }
}

/// While the bytes left are well-formed, one step yields the first character
/// that they encode and leaves the others, well-formed, for the next steps;
/// it yields nothing exactly when no byte is left.
pub proof fn lemma_step_on_valid(v: DecoderView)
    requires
        v.wf(),
        valid_utf8(v.rest()),
    ensures
        v.rest().len() == 0 <==> v.step().0 is None,
        v.rest().len() > 0 ==> {
            let w = v.step().1;
            &&& v.step().0 == Some(vstd::utf8::decode_utf8(v.rest())[0])
            &&& w.wf()
            &&& w.bytes == v.bytes
            &&& w.status == v.status
            &&& valid_utf8(w.rest())
            &&& vstd::utf8::decode_utf8(w.rest()) == vstd::utf8::decode_utf8(v.rest()).drop_first()
        },
{
    let rest = v.rest();
    if rest.len() > 0 {
        lemma_fault_free_iff_valid(rest);
        let w = v.step().1;
        assert(w.rest() =~= pop_first_scalar(rest));
    }
}

/// Decoding well-formed text reproduces it: the steps yield exactly its
/// characters, in order, and the step after the last yields nothing.
pub proof fn lemma_round_trip(v: DecoderView)
    requires
        v.wf(),
        valid_utf8(v.rest()),
    ensures
        ({
            let cs = vstd::utf8::decode_utf8(v.rest());
            &&& produced(v, cs.len()) == cs.map_values(|c: char| Some(c))
            &&& after_steps(v, cs.len()).step().0 is None
            &&& after_steps(v, cs.len()).status == v.status
        }),
    decreases v.rest().len(),
{
    let cs = vstd::utf8::decode_utf8(v.rest());
    lemma_step_on_valid(v);
    if v.rest().len() == 0 {
        assert(cs.len() == 0);
        assert(produced(v, 0) =~= cs.map_values(|c: char| Some(c)));
    } else {
        let w = v.step().1;
        lemma_round_trip(w);
        let ws = vstd::utf8::decode_utf8(w.rest());
        assert(ws == cs.drop_first());
        assert(cs.len() == ws.len() + 1);
        assert(produced(v, cs.len()) == seq![v.step().0] + produced(w, ws.len()));
        assert(after_steps(v, cs.len()) == after_steps(w, ws.len()));
        assert(produced(v, cs.len()) =~= cs.map_values(|c: char| Some(c)));
    }
}

/// The bytes between a mark and the cursor stay well-formed while the steps
/// yield characters: a mark taken at the cursor covers no bytes, and each
/// step that yields a character extends them by that character's bytes.
/// This is what `try_get_marked_string` asks of a mark taken since the last
/// fault.
pub proof fn lemma_marked_well_formed(v: DecoderView, m: int)
    requires
        v.wf(),
        0 <= m <= v.next,
        valid_utf8(v.bytes.subrange(m, v.next)),
        v.step().0 is Some,
    ensures
        m <= v.step().1.next,
        valid_utf8(v.step().1.bytes.subrange(m, v.step().1.next)),
{
    let rest = v.rest();
    lemma_fault_free_iff_valid(rest);
    let w = v.step().1;
    let n = length_of_first_scalar(rest);
    let ch = v.bytes.subrange(v.next, v.next + n);
    assert(ch =~= rest.subrange(0, n));
    assert(valid_first_scalar(ch)) by {
        assert forall|x: int| 0 <= x < n implies ch[x] == rest[x] by {}
        lemma_fault_free_iff_valid(ch);
        assert(first_fault(ch) == first_fault(rest));
    }
    assert(pop_first_scalar(ch) =~= Seq::<u8>::empty());
    assert(valid_utf8(pop_first_scalar(ch)));
    assert(valid_utf8(ch));
    vstd::utf8::valid_utf8_concat(v.bytes.subrange(m, v.next), ch);
    assert(w.bytes.subrange(m, w.next) =~= v.bytes.subrange(m, v.next) + ch);
}

/// A mark taken at the cursor covers well-formed bytes: none.
pub proof fn lemma_fresh_mark_well_formed(v: DecoderView)
    requires
        v.wf(),
    ensures
        valid_utf8(v.bytes.subrange(v.next, v.next)),
{
    assert(v.bytes.subrange(v.next, v.next) =~= Seq::<u8>::empty());
}

/// Decoding is deterministic: two decoders over the same bytes yield the same
/// characters and end in the same state, status included, after any number
/// of steps.
pub proof fn lemma_deterministic(bytes1: Seq<u8>, bytes2: Seq<u8>, n: nat)
    requires
        bytes1 == bytes2,
    ensures
        produced(fresh(bytes1), n) == produced(fresh(bytes2), n),
        after_steps(fresh(bytes1), n) == after_steps(fresh(bytes2), n),
{
}

/// A forward cursor over a byte buffer that yields its characters one by one
/// and records the first fault it meets on each call.
pub struct Utf8Decoder<'a> {
    status: Result<(), Utf8Error>,
    raw: &'a [u8],
    first: usize,
    next: usize,
}

impl<'a> View for Utf8Decoder<'a> {
    type V = DecoderView;

    closed spec fn view(&self) -> DecoderView {
        DecoderView {
            bytes: self.raw@,
            status: self.status,
            first: self.first as int,
            next: self.next as int,
        }
    }
}

impl<'a> Clone for Utf8Decoder<'a> {
    fn clone(&self) -> (r: Utf8Decoder<'a>)
        ensures
            r@ == self@,
    {
        Utf8Decoder { status: self.status, raw: self.raw, first: self.first, next: self.next }
    }
}

/// A decoder positioned at the start of `raw`.
pub fn decode_utf8<'a>(raw: &'a [u8]) -> (d: Utf8Decoder<'a>)
    ensures
        d@ == (DecoderView { bytes: raw@, status: Ok(()), first: 0, next: 0 }),
        d@.wf(),
{
    Utf8Decoder { status: Ok(()), raw: raw, first: 0, next: 0 }
}

impl<'a> Utf8Decoder<'a> {
    pub fn status(&self) -> (r: Result<(), Utf8Error>)
        ensures
            r == self@.status,
    {
        self.status
    }

    /// Decodes the next character, returning `None` at the end of the buffer
    /// or on a fault, which `status` then reports.
    pub fn next_char(&mut self) -> (r: Option<char>)
        requires
            old(self)@.wf(),
        ensures
            final(self)@.wf(),
            (r, final(self)@) == old(self)@.step(),
    {
        if self.next >= self.raw.len() {
            return None;
        }
        let (outcome, n) = decode_at(self.raw, self.next);
        match outcome {
            Ok(cp) => {
                self.next = n;
                let r = char_of(cp);
                proof {
                    if let Some(c) = r {
                        vstd::utf8::char_u32_cast(c, cp);
                    }
                }
                r
            },
            Err(e) => {
                self.status = Err(e);
                self.first = n;
                self.next = n;
                None
            },
        }
    }

    /// Like `next_char`, and also gives the General_Category of the
    /// character: for ASCII from the direct ASCII table, for any other
    /// character from `categories`, the tables that hold each character's
    /// category as a bit position.
    pub fn next_char_and_category(&mut self, categories: &PropertyTables) -> (r: Option<(char, GeneralCategory)>)
        requires
            old(self)@.wf(),
            categories.wf(),
            forall|c: char| #[trigger] categories.value_for(c) < 32,
        ensures
            final(self)@.wf(),
            final(self)@ == old(self)@.step().1,
            r is Some <==> old(self)@.step().0 is Some,
            r matches Some((c, cat)) ==> Some(c) == old(self)@.step().0 && cat == (if (c as u32)
                < 0x80 {
                1u32 << ascii_category_index(c as u8)
            } else {
                1u32 << (categories.value_for(c) as u32)
            }),
    {
        if self.next >= self.raw.len() {
            return None;
        }
        let byte = self.raw[self.next];
        if byte >= 0x80 {
            proof {
                let rest = self.raw@.subrange(self.next as int, self.raw@.len() as int);
                lemma_fault_free_iff_valid(rest);
                assert(rest[0] == byte);
            }
            return match self.next_char_and_value(categories) {
                Some((c, v)) => {
                    assert(v < 32);
                    Some((c, 1u32 << (v as u32)))
                },
                None => None,
            };
        }
        let (outcome, n) = decode_at(self.raw, self.next);
        match outcome {
            Ok(cp) => {
                self.next = n;
                assert(cp == byte as u32);
                let c = byte as char;
                assert(c == cp as char);
                Some((c, ascii_category(byte)))
            },
            Err(e) => {
                self.status = Err(e);
                self.first = n;
                self.next = n;
                None
            },
        }
    }

    /// Like `next_char`, and also gives the value that `tables` hold for the
    /// character, looked up from the bytes that were just decoded.
    pub fn next_char_and_value(&mut self, tables: &PropertyTables) -> (r: Option<(char, u64)>)
        requires
            old(self)@.wf(),
            tables.wf(),
        ensures
            final(self)@.wf(),
            final(self)@ == old(self)@.step().1,
            r is Some <==> old(self)@.step().0 is Some,
            r matches Some((c, v)) ==> Some(c) == old(self)@.step().0 && v == tables.value_for(c),
    {
        let start = self.next;
        match self.next_char() {
            Some(c) => {
                let bytes = slice_subrange(self.raw, start, self.next);
                proof {
                    let rest = self.raw@.subrange(start as int, self.raw@.len() as int);
                    lemma_fault_free_iff_valid(rest);
                    assert(decode_outcome(self.raw@, start as int).0 is Ok);
                    let n = length_of_first_scalar(rest);
                    assert forall|x: int| 0 <= x < n implies bytes@[x] == rest[x] by {}
                    lemma_fault_free_iff_valid(bytes@);
                    assert(first_fault(bytes@) == first_fault(rest));
                }
                let v = tables.lookup(bytes);
                Some((c, v))
            },
            None => None,
        }
    }

    pub fn mark(&self) -> (r: Utf8DecoderPosition)
        ensures
            r@ == self@.next,
    {
        Utf8DecoderPosition { offset: self.next }
    }

    /// The text between `mark` and the cursor; an error where the last fault
    /// lies between them.
    pub fn try_get_marked_string(&self, mark: Utf8DecoderPosition) -> (r: Result<&'a str, Utf8Error>)
        requires
            self@.wf(),
            mark@ <= self@.next,
            self@.status is Ok || mark@ >= self@.first ==> valid_utf8(
                self@.bytes.subrange(mark@, self@.next),
            ),
        ensures
            match self@.marked(mark@) {
                Ok(t) => r matches Ok(s) && s@ == t,
                Err(e) => r == Err::<&'a str, Utf8Error>(e),
            },
    {
        if let Err(e) = self.status {
            if mark.offset < self.first {
                return Err(e);
            }
        }
        let bytes = slice_subrange(self.raw, mark.offset, self.next);
        match text_of(bytes) {
            Some(s) => Ok(s),
            // not reached: the precondition makes the bytes well-formed
            None => Ok(""),
        }
    }
}

} // verus!
