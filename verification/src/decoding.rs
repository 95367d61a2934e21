//! Reading UTF-8 one scalar at a time, and how far a byte sequence that is
//! not UTF-8 can be read.

use vstd::prelude::*;
use vstd::utf8::*;

verus! {

/// The number of bytes of the scalar that `first` begins, as `first` alone
/// announces it; 0 when no scalar begins with `first`.
pub open spec fn scalar_width(first: u8) -> nat {
    if is_leading_byte_width_1(first) {
        1
    } else if is_leading_byte_width_2(first) {
        2
    } else if is_leading_byte_width_3(first) {
        3
    } else if is_leading_byte_width_4(first) {
        4
    } else {
        0
    }
}

/// The length of the longest prefix of `bytes` that is made of whole,
/// well-formed scalars: the offset at which reading `bytes` as UTF-8 stops.
pub open spec fn valid_up_to(bytes: Seq<u8>) -> nat
    decreases bytes.len(),
{
    if bytes.len() > 0 && valid_first_scalar(bytes) {
        (length_of_first_scalar(bytes) + valid_up_to(pop_first_scalar(bytes))) as nat
    } else {
        0
    }
}

/// True when `tail` is empty or begins a scalar of which bytes are still
/// missing: more bytes may yet make it well-formed.
pub open spec fn awaits_more(tail: Seq<u8>) -> bool {
    tail.len() > 0 ==> tail.len() < scalar_width(tail[0])
}

/// True when `tail` begins with a byte that starts no scalar, or holds all
/// the bytes that its first byte announces without being well-formed: no
/// further bytes can mend it.
pub open spec fn broken(tail: Seq<u8>) -> bool {
    &&& tail.len() > 0
    &&& scalar_width(tail[0]) <= tail.len()
    &&& !valid_first_scalar(tail)
}

/// True when reading `bytes` as UTF-8 stops at a place that no further
/// bytes can mend.
pub open spec fn undecodable(bytes: Seq<u8>) -> bool {
    broken(bytes.skip(valid_up_to(bytes) as int))
}

/// The width that `first` announces.
pub fn leading_width(first: u8) -> (w: usize)
    ensures
        w == scalar_width(first),
{
    if first < 0x80 {
        1
    } else if first < 0xC0 {
        0
    } else if first < 0xE0 {
        2
    } else if first < 0xF0 {
        3
    } else if first < 0xF8 {
        4
    } else {
        0
    }
}

fn is_continuation(byte: u8) -> (r: bool)
    ensures
        r == is_continuation_byte(byte),
{
    0x80 <= byte && byte <= 0xBF
}

/// Decodes the one scalar that `unit` is to hold. Gives its value when
/// `unit` is a well-formed encoding, and `None` when it is not.
pub fn decode_scalar(unit: &[u8]) -> (r: Option<u32>)
    requires
        unit@.len() > 0,
        unit@.len() == scalar_width(unit@[0]),
    ensures
        r is Some <==> valid_first_scalar(unit@),
        r is Some ==> r->0 == decode_first_scalar(unit@) && is_scalar(r->0),
{
    let b0: u8 = unit[0];
    let width: usize = unit.len();
    if width == 1 {
        assert(b0 & 0x7F <= 0x7F) by (bit_vector);
        Some((b0 & 0x7F) as u32)
    } else if width == 2 {
        let b1: u8 = unit[1];
        if !is_continuation(b1) {
            return None;
        }
        let code: u32 = (((b0 & 0x1F) as u32) << 6) | ((b1 & 0x3F) as u32);
        assert((((b0 & 0x1F) as u32) << 6) | ((b1 & 0x3F) as u32) <= 0x7FF) by (bit_vector);
        if code >= 0x80 {
            Some(code)
        } else {
            None
        }
    } else if width == 3 {
        let b1: u8 = unit[1];
        let b2: u8 = unit[2];
        if !is_continuation(b1) || !is_continuation(b2) {
            return None;
        }
        let code: u32 = (((b0 & 0x0F) as u32) << 12) | (((b1 & 0x3F) as u32) << 6) | ((b2
            & 0x3F) as u32);
        assert((((b0 & 0x0F) as u32) << 12) | (((b1 & 0x3F) as u32) << 6) | ((b2 & 0x3F) as u32)
            <= 0xFFFF) by (bit_vector);
        if code >= 0x800 && !(0xD800 <= code && code <= 0xDFFF) {
            Some(code)
        } else {
            None
        }
    } else {
        let b1: u8 = unit[1];
        let b2: u8 = unit[2];
        let b3: u8 = unit[3];
        if !is_continuation(b1) || !is_continuation(b2) || !is_continuation(b3) {
            return None;
        }
        let code: u32 = (((b0 & 0x07) as u32) << 18) | (((b1 & 0x3F) as u32) << 12) | (((b2
            & 0x3F) as u32) << 6) | ((b3 & 0x3F) as u32);
        if 0x10000 <= code && code <= 0x10FFFF {
            Some(code)
        } else {
            None
        }
    }
}

/// A well-formed first scalar stays the first scalar when bytes follow.
pub proof fn lemma_first_scalar_extends(head: Seq<u8>, more: Seq<u8>)
    requires
        valid_first_scalar(head),
    ensures
        valid_first_scalar(head + more),
        length_of_first_scalar(head + more) == length_of_first_scalar(head),
        decode_first_scalar(head + more) == decode_first_scalar(head),
        pop_first_scalar(head + more) == pop_first_scalar(head) + more,
{
    assert(pop_first_scalar(head + more) =~= pop_first_scalar(head) + more);
}

/// Once reading has stopped for good, bytes that follow change nothing.
pub proof fn lemma_broken_stays(tail: Seq<u8>, more: Seq<u8>)
    requires
        broken(tail),
    ensures
        broken(tail + more),
        valid_up_to(tail + more) == 0,
{
}

/// `valid_up_to` marks a prefix of `bytes`, and that prefix is UTF-8.
pub proof fn lemma_valid_up_to_is_valid(bytes: Seq<u8>)
    ensures
        valid_up_to(bytes) <= bytes.len(),
        valid_utf8(bytes.subrange(0, valid_up_to(bytes) as int)),
    decreases bytes.len(),
{
    if bytes.len() > 0 && valid_first_scalar(bytes) {
        let rest = pop_first_scalar(bytes);
        lemma_valid_up_to_is_valid(rest);
        let prefix = bytes.subrange(0, valid_up_to(bytes) as int);
        assert(valid_first_scalar(prefix));
        assert(pop_first_scalar(prefix) =~= rest.subrange(0, valid_up_to(rest) as int));
    } else {
        assert(bytes.subrange(0, 0).len() == 0);
    }
}

/// After a prefix that is UTF-8, reading goes on with what follows it.
pub proof fn lemma_valid_up_to_append(head: Seq<u8>, more: Seq<u8>)
    requires
        valid_utf8(head),
    ensures
        valid_up_to(head + more) == head.len() + valid_up_to(more),
    decreases head.len(),
{
    if head.len() == 0 {
        assert(head + more =~= more);
    } else {
        lemma_first_scalar_extends(head, more);
        lemma_valid_up_to_append(pop_first_scalar(head), more);
    }
}

/// A byte sequence is UTF-8 exactly when reading it stops at its end.
pub proof fn lemma_valid_iff_read_whole(bytes: Seq<u8>)
    ensures
        valid_utf8(bytes) <==> valid_up_to(bytes) == bytes.len(),
{
    lemma_valid_up_to_is_valid(bytes);
    if valid_utf8(bytes) {
        lemma_valid_up_to_append(bytes, Seq::empty());
        assert(bytes + Seq::<u8>::empty() =~= bytes);
    } else if valid_up_to(bytes) == bytes.len() {
        assert(bytes.subrange(0, bytes.len() as int) =~= bytes);
    }
}

/// No prefix of `bytes` longer than `valid_up_to(bytes)` is UTF-8.
pub proof fn lemma_valid_up_to_is_longest(bytes: Seq<u8>, end: int)
    requires
        0 <= end <= bytes.len(),
        valid_utf8(bytes.subrange(0, end)),
    ensures
        end <= valid_up_to(bytes),
{
    lemma_valid_up_to_append(bytes.subrange(0, end), bytes.subrange(end, bytes.len() as int));
    assert(bytes.subrange(0, end) + bytes.subrange(end, bytes.len() as int) =~= bytes);
}

/// Decoding two UTF-8 sequences one after the other decodes their
/// concatenation.
pub proof fn lemma_decode_append(head: Seq<u8>, more: Seq<u8>)
    requires
        valid_utf8(head),
        valid_utf8(more),
    ensures
        valid_utf8(head + more),
        decode_utf8(head + more) == decode_utf8(head) + decode_utf8(more),
    decreases head.len(),
{
    valid_utf8_concat(head, more);
    if head.len() == 0 {
        assert(head + more =~= more);
        assert(decode_utf8(head) + decode_utf8(more) =~= decode_utf8(more));
    } else {
        lemma_first_scalar_extends(head, more);
        lemma_decode_append(pop_first_scalar(head), more);
        assert(decode_utf8(head + more) =~= decode_utf8(head) + decode_utf8(more));
    }
}

/// A sequence that is exactly one well-formed scalar is UTF-8 and decodes
/// to that scalar.
pub proof fn lemma_single_scalar(unit: Seq<u8>)
    requires
        unit.len() > 0,
        unit.len() == scalar_width(unit[0]),
        valid_first_scalar(unit),
    ensures
        valid_utf8(unit),
        decode_utf8(unit) == seq![decode_first_scalar(unit) as char],
        1 <= unit.len() <= 4,
{
    let rest = pop_first_scalar(unit);
    assert(rest.len() == 0);
    assert(valid_utf8(rest));
    assert(valid_utf8(unit));
    assert(decode_utf8(rest) =~= Seq::<char>::empty());
    assert(decode_utf8(unit) =~= seq![decode_first_scalar(unit) as char]);
}

/// A sequence of bytes below 128 is UTF-8 and has one character for each
/// byte.
pub proof fn lemma_ascii_decodes_bytewise(bytes: Seq<u8>)
    requires
        forall|i: int| 0 <= i < bytes.len() ==> bytes[i] < 0x80,
    ensures
        valid_utf8(bytes),
        decode_utf8(bytes).len() == bytes.len(),
    decreases bytes.len(),
{
    if bytes.len() > 0 {
        let rest = pop_first_scalar(bytes);
        assert(is_leading_byte_width_1(bytes[0]));
        assert(valid_first_scalar(bytes));
        assert forall|i: int| 0 <= i < rest.len() implies rest[i] < 0x80 by {
            assert(rest[i] == bytes[i + 1]);
        }
        lemma_ascii_decodes_bytewise(rest);
    }
}

} // verus!
