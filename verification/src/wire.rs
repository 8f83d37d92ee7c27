//! The frames that peers exchange, and their form on the wire. A frame is
//! a tag and its fields one after the other: numbers with the least
//! significant byte first, identifiers and keys as they are, byte strings
//! and lists behind their length.

use crate::crypto::{digest_array, lemma_digest_array};
use crate::discovery::{Address, Announcement, AnnouncementView};
use crate::id::PeerId;
use crate::message::{append_bytes, Message, MessageId, MessageView, Topic};
use crate::event::record_view;
use crate::handshake::Credentials;
use crate::record::{Record, RecordView};
use crate::seqs::copy_bytes;
use vstd::bytes::{
    lemma_auto_spec_u128_to_from_le_bytes, lemma_auto_spec_u16_to_from_le_bytes,
    lemma_auto_spec_u32_to_from_le_bytes, lemma_auto_spec_u64_to_from_le_bytes,
    spec_u128_from_le_bytes, spec_u128_to_le_bytes, spec_u16_from_le_bytes, spec_u16_to_le_bytes,
    spec_u32_from_le_bytes, spec_u32_to_le_bytes, spec_u64_from_le_bytes, spec_u64_to_le_bytes,
    u128_from_le_bytes, u128_to_le_bytes, u16_from_le_bytes, u16_to_le_bytes, u32_from_le_bytes,
    u32_to_le_bytes, u64_from_le_bytes, u64_to_le_bytes,
};
use vstd::prelude::*;
use vstd::slice::slice_subrange;
use vstd::utf8::{decode_utf8, encode_utf8, encode_utf8_decode_utf8, encode_utf8_valid_utf8,
    valid_utf8};

verus! {

/// The first `n` bytes and the rest, where there are that many.
pub open spec fn parse_fixed(s: Seq<u8>, n: nat) -> Option<(Seq<u8>, Seq<u8>)> {
    if s.len() >= n {
        Some((s.take(n as int), s.skip(n as int)))
    } else {
        None
    }
}

/// Bytes that were written are read back, and what follows is left.
pub proof fn lemma_fixed_round(b: Seq<u8>, rest: Seq<u8>)
    ensures
        parse_fixed(b + rest, b.len()) == Some((b, rest)),
{
    assert((b + rest).take(b.len() as int) =~= b);
    assert((b + rest).skip(b.len() as int) =~= rest);
}

/// The byte at the start of `s`, and the rest.
pub open spec fn parse_u8(s: Seq<u8>) -> Option<(u8, Seq<u8>)> {
    if s.len() >= 1 {
        Some((s[0], s.skip(1)))
    } else {
        None
    }
}

/// The number of two bytes at the start of `s`, and the rest.
pub open spec fn parse_u16(s: Seq<u8>) -> Option<(u16, Seq<u8>)> {
    match parse_fixed(s, 2) {
        Some((b, rest)) => Some((spec_u16_from_le_bytes(b), rest)),
        None => None,
    }
}

/// The number of four bytes at the start of `s`, and the rest.
pub open spec fn parse_u32(s: Seq<u8>) -> Option<(u32, Seq<u8>)> {
    match parse_fixed(s, 4) {
        Some((b, rest)) => Some((spec_u32_from_le_bytes(b), rest)),
        None => None,
    }
}

/// The number of eight bytes at the start of `s`, and the rest.
pub open spec fn parse_u64(s: Seq<u8>) -> Option<(u64, Seq<u8>)> {
    match parse_fixed(s, 8) {
        Some((b, rest)) => Some((spec_u64_from_le_bytes(b), rest)),
        None => None,
    }
}

/// The number of sixteen bytes at the start of `s`, and the rest.
pub open spec fn parse_u128(s: Seq<u8>) -> Option<(u128, Seq<u8>)> {
    match parse_fixed(s, 16) {
        Some((b, rest)) => Some((spec_u128_from_le_bytes(b), rest)),
        None => None,
    }
}

/// An identifier: its 32 bytes.
pub open spec fn parse_id(s: Seq<u8>) -> Option<(PeerId, Seq<u8>)> {
    match parse_fixed(s, 32) {
        Some((b, rest)) => Some((PeerId { bytes: digest_array(b) }, rest)),
        None => None,
    }
}

/// A byte string: its length, then its bytes.
pub open spec fn ser_bytes(b: Seq<u8>) -> Seq<u8> {
    spec_u64_to_le_bytes(b.len() as u64) + b
}

/// The byte string at the start of `s`, and the rest.
pub open spec fn parse_bytes(s: Seq<u8>) -> Option<(Seq<u8>, Seq<u8>)> {
    match parse_u64(s) {
        Some((len, rest)) => parse_fixed(rest, len as nat),
        None => None,
    }
}

/// A byte that was written is read back.
pub proof fn lemma_u8_round(x: u8, rest: Seq<u8>)
    ensures
        parse_u8(seq![x] + rest) == Some((x, rest)),
{
    assert((seq![x] + rest).skip(1) =~= rest);
}

/// A number of two bytes that was written is read back.
pub proof fn lemma_u16_round(x: u16, rest: Seq<u8>)
    ensures
        parse_u16(spec_u16_to_le_bytes(x) + rest) == Some((x, rest)),
{
    lemma_auto_spec_u16_to_from_le_bytes();
    lemma_fixed_round(spec_u16_to_le_bytes(x), rest);
}

/// A number of four bytes that was written is read back.
pub proof fn lemma_u32_round(x: u32, rest: Seq<u8>)
    ensures
        parse_u32(spec_u32_to_le_bytes(x) + rest) == Some((x, rest)),
{
    lemma_auto_spec_u32_to_from_le_bytes();
    lemma_fixed_round(spec_u32_to_le_bytes(x), rest);
}

/// A number of eight bytes that was written is read back.
pub proof fn lemma_u64_round(x: u64, rest: Seq<u8>)
    ensures
        parse_u64(spec_u64_to_le_bytes(x) + rest) == Some((x, rest)),
{
    lemma_auto_spec_u64_to_from_le_bytes();
    lemma_fixed_round(spec_u64_to_le_bytes(x), rest);
}

/// A number of sixteen bytes that was written is read back.
pub proof fn lemma_u128_round(x: u128, rest: Seq<u8>)
    ensures
        parse_u128(spec_u128_to_le_bytes(x) + rest) == Some((x, rest)),
{
    lemma_auto_spec_u128_to_from_le_bytes();
    lemma_fixed_round(spec_u128_to_le_bytes(x), rest);
}

/// An identifier that was written is read back.
pub proof fn lemma_id_round(id: PeerId, rest: Seq<u8>)
    ensures
        parse_id(id.bytes@ + rest) == Some((id, rest)),
{
    lemma_fixed_round(id.bytes@, rest);
    lemma_digest_array(id.bytes);
}

/// A byte string that was written is read back.
pub proof fn lemma_bytes_round(b: Seq<u8>, rest: Seq<u8>)
    requires
        b.len() <= u64::MAX,
    ensures
        parse_bytes(ser_bytes(b) + rest) == Some((b, rest)),
{
    assert(ser_bytes(b) + rest =~= spec_u64_to_le_bytes(b.len() as u64) + (b + rest));
    lemma_u64_round(b.len() as u64, b + rest);
    lemma_fixed_round(b, rest);
}

/// What reading at `at` in `data` gave, beside what parsing the bytes
/// from there on gives: the same value, and the place where the rest
/// begins.
pub open spec fn read_as<T>(
    data: Seq<u8>,
    read: Option<(T, usize)>,
    parsed: Option<(T, Seq<u8>)>,
) -> bool {
    match parsed {
        Some((value, rest)) => read.is_some() && read.unwrap().0 == value && read.unwrap().1
            <= data.len() && data.skip(read.unwrap().1 as int) == rest,
        None => read.is_none(),
    }
}

/// The `n` bytes at `at`, where there are that many.
fn take_fixed(data: &[u8], at: usize, n: usize) -> (read: Option<(&[u8], usize)>)
    requires
        at <= data@.len(),
    ensures
        match parse_fixed(data@.skip(at as int), n as nat) {
            Some((value, rest)) => read.is_some() && read.unwrap().0@ == value && read.unwrap().1
                <= data@.len() && data@.skip(read.unwrap().1 as int) == rest && read.unwrap().1
                == at + n,
            None => read.is_none(),
        },
{
    if data.len() - at < n {
        return None;
    }
    let bytes = slice_subrange(data, at, at + n);
    proof {
        assert(bytes@ =~= data@.skip(at as int).take(n as int));
        assert(data@.skip(at + n) =~= data@.skip(at as int).skip(n as int));
    }
    Some((bytes, at + n))
}

/// Reads a byte at `at`.
fn take_u8(data: &[u8], at: usize) -> (read: Option<(u8, usize)>)
    requires
        at <= data@.len(),
    ensures
        read_as(data@, read, parse_u8(data@.skip(at as int))),
{
    if at >= data.len() {
        return None;
    }
    assert(data@.skip(at + 1) =~= data@.skip(at as int).skip(1));
    Some((data[at], at + 1))
}

/// Reads a number of two bytes at `at`.
fn take_u16(data: &[u8], at: usize) -> (read: Option<(u16, usize)>)
    requires
        at <= data@.len(),
    ensures
        read_as(data@, read, parse_u16(data@.skip(at as int))),
{
    match take_fixed(data, at, 2) {
        Some((bytes, next)) => Some((u16_from_le_bytes(bytes), next)),
        None => None,
    }
}

/// Reads a number of four bytes at `at`.
fn take_u32(data: &[u8], at: usize) -> (read: Option<(u32, usize)>)
    requires
        at <= data@.len(),
    ensures
        read_as(data@, read, parse_u32(data@.skip(at as int))),
{
    match take_fixed(data, at, 4) {
        Some((bytes, next)) => Some((u32_from_le_bytes(bytes), next)),
        None => None,
    }
}

/// Reads a number of eight bytes at `at`.
fn take_u64(data: &[u8], at: usize) -> (read: Option<(u64, usize)>)
    requires
        at <= data@.len(),
    ensures
        read_as(data@, read, parse_u64(data@.skip(at as int))),
{
    match take_fixed(data, at, 8) {
        Some((bytes, next)) => Some((u64_from_le_bytes(bytes), next)),
        None => None,
    }
}

/// Reads a number of sixteen bytes at `at`.
fn take_u128(data: &[u8], at: usize) -> (read: Option<(u128, usize)>)
    requires
        at <= data@.len(),
    ensures
        read_as(data@, read, parse_u128(data@.skip(at as int))),
{
    match take_fixed(data, at, 16) {
        Some((bytes, next)) => Some((u128_from_le_bytes(bytes), next)),
        None => None,
    }
}

/// The array of 32 bytes that a slice of that length holds.
fn array32(bytes: &[u8]) -> (out: [u8; 32])
    requires
        bytes@.len() == 32,
    ensures
        out@ == bytes@,
        out == digest_array(bytes@),
{
    let mut out = [0u8; 32];
    let mut i: usize = 0;
    while i < 32
        invariant
            i <= 32,
            bytes@.len() == 32,
            forall|j: int| 0 <= j < i ==> out@[j] == bytes@[j],
        decreases 32 - i,
    {
        out[i] = bytes[i];
        i += 1;
    }
    proof {
        assert(out@ =~= bytes@);
        lemma_digest_array(out);
    }
    out
}

/// The array of 64 bytes that a slice of that length holds.
fn array64(bytes: &[u8]) -> (out: [u8; 64])
    requires
        bytes@.len() == 64,
    ensures
        out@ == bytes@,
{
    let mut out = [0u8; 64];
    let mut i: usize = 0;
    while i < 64
        invariant
            i <= 64,
            bytes@.len() == 64,
            forall|j: int| 0 <= j < i ==> out@[j] == bytes@[j],
        decreases 64 - i,
    {
        out[i] = bytes[i];
        i += 1;
    }
    assert(out@ =~= bytes@);
    out
}

/// Reads an identifier at `at`.
fn take_id(data: &[u8], at: usize) -> (read: Option<(PeerId, usize)>)
    requires
        at <= data@.len(),
    ensures
        read_as(data@, read, parse_id(data@.skip(at as int))),
{
    match take_fixed(data, at, 32) {
        Some((bytes, next)) => Some((PeerId { bytes: array32(bytes) }, next)),
        None => None,
    }
}

/// The byte string at `at`.
pub(crate) fn take_bytes(data: &[u8], at: usize) -> (read: Option<(&[u8], usize)>)
    requires
        at <= data@.len(),
    ensures
        match parse_bytes(data@.skip(at as int)) {
            Some((value, rest)) => read.is_some() && read.unwrap().0@ == value && read.unwrap().1
                <= data@.len() && data@.skip(read.unwrap().1 as int) == rest,
            None => read.is_none(),
        },
{
    match take_u64(data, at) {
        Some((len, next)) => {
            let total = data.len();
            if len > total as u64 {
                return None;
            }
            match take_fixed(data, next, len as usize) {
                Some((bytes, end)) => Some((bytes, end)),
                None => None,
            }
        },
        None => None,
    }
}

/// Writes a number of eight bytes.
fn put_u64(out: &mut Vec<u8>, x: u64)
    ensures
        final(out)@ == old(out)@ + spec_u64_to_le_bytes(x),
{
    let bytes = u64_to_le_bytes(x);
    append_bytes(out, bytes.as_slice());
}

/// Writes a number of four bytes.
fn put_u32(out: &mut Vec<u8>, x: u32)
    ensures
        final(out)@ == old(out)@ + spec_u32_to_le_bytes(x),
{
    let bytes = u32_to_le_bytes(x);
    append_bytes(out, bytes.as_slice());
}

/// Writes a number of two bytes.
fn put_u16(out: &mut Vec<u8>, x: u16)
    ensures
        final(out)@ == old(out)@ + spec_u16_to_le_bytes(x),
{
    let bytes = u16_to_le_bytes(x);
    append_bytes(out, bytes.as_slice());
}

/// Writes a number of sixteen bytes.
fn put_u128(out: &mut Vec<u8>, x: u128)
    ensures
        final(out)@ == old(out)@ + spec_u128_to_le_bytes(x),
{
    let bytes = u128_to_le_bytes(x);
    append_bytes(out, bytes.as_slice());
}

/// Writes a byte string behind its length.
pub(crate) fn put_bytes(out: &mut Vec<u8>, b: &[u8])
    ensures
        final(out)@ == old(out)@ + ser_bytes(b@),
{
    put_u64(out, b.len() as u64);
    append_bytes(out, b);
    assert(out@ =~= old(out)@ + ser_bytes(b@));
}

/// The items of a list, one after the other.
pub open spec fn ser_items<T>(items: Seq<T>, ser: spec_fn(T) -> Seq<u8>) -> Seq<u8>
    decreases items.len(),
{
    if items.len() == 0 {
        Seq::empty()
    } else {
        ser(items[0]) + ser_items(items.skip(1), ser)
    }
}

/// The next `n` items and the rest.
pub open spec fn parse_items<T>(
    s: Seq<u8>,
    n: nat,
    item: spec_fn(Seq<u8>) -> Option<(T, Seq<u8>)>,
) -> Option<(Seq<T>, Seq<u8>)>
    decreases n,
{
    if n == 0 {
        Some((Seq::empty(), s))
    } else {
        match item(s) {
            Some((first, rest)) => match parse_items(rest, (n - 1) as nat, item) {
                Some((others, end)) => Some((seq![first] + others, end)),
                None => None,
            },
            None => None,
        }
    }
}

/// A list: the number of its items, then the items.
pub open spec fn ser_list<T>(items: Seq<T>, ser: spec_fn(T) -> Seq<u8>) -> Seq<u8> {
    spec_u64_to_le_bytes(items.len() as u64) + ser_items(items, ser)
}

/// The list at the start of `s`, and the rest.
pub open spec fn parse_list<T>(s: Seq<u8>, item: spec_fn(Seq<u8>) -> Option<(T, Seq<u8>)>)
    -> Option<(Seq<T>, Seq<u8>)> {
    match parse_u64(s) {
        Some((n, rest)) => parse_items(rest, n as nat, item),
        None => None,
    }
}

/// Whether what `ser` writes of any item `item` reads back.
pub open spec fn reads_back<T>(
    ser: spec_fn(T) -> Seq<u8>,
    item: spec_fn(Seq<u8>) -> Option<(T, Seq<u8>)>,
) -> bool {
    forall|x: T, rest: Seq<u8>| #[trigger] item(ser(x) + rest) == Some((x, rest))
}

/// One item more is written behind the others.
pub proof fn lemma_items_push<T>(items: Seq<T>, x: T, ser: spec_fn(T) -> Seq<u8>)
    ensures
        ser_items(items.push(x), ser) == ser_items(items, ser) + ser(x),
    decreases items.len(),
{
    if items.len() == 0 {
        let one = items.push(x);
        assert(one.skip(1) =~= Seq::<T>::empty());
        assert(one[0] == x);
        assert(ser_items(one.skip(1), ser) =~= Seq::<u8>::empty());
        assert(ser_items(items, ser) =~= Seq::<u8>::empty());
        assert(ser_items(one, ser) =~= ser(x) + ser_items(one.skip(1), ser));
        assert(ser_items(one, ser) =~= ser_items(items, ser) + ser(x));
    } else {
        lemma_items_push(items.skip(1), x, ser);
        assert(items.push(x).skip(1) =~= items.skip(1).push(x));
        assert(ser_items(items.push(x), ser) =~= ser_items(items, ser) + ser(x));
    }
}

/// Items that were written are read back.
pub proof fn lemma_items_round<T>(
    items: Seq<T>,
    rest: Seq<u8>,
    ser: spec_fn(T) -> Seq<u8>,
    item: spec_fn(Seq<u8>) -> Option<(T, Seq<u8>)>,
)
    requires
        reads_back(ser, item),
    ensures
        parse_items(ser_items(items, ser) + rest, items.len(), item) == Some((items, rest)),
    decreases items.len(),
{
    if items.len() == 0 {
        assert(ser_items(items, ser) + rest =~= rest);
        assert(items =~= Seq::<T>::empty());
    } else {
        let others = items.skip(1);
        let after = ser_items(others, ser) + rest;
        assert(ser_items(items, ser) + rest =~= ser(items[0]) + after);
        assert(item(ser(items[0]) + after) == Some((items[0], after)));
        lemma_items_round(others, rest, ser, item);
        assert(seq![items[0]] + others =~= items);
    }
}

/// A list that was written is read back.
pub proof fn lemma_list_round<T>(
    items: Seq<T>,
    rest: Seq<u8>,
    ser: spec_fn(T) -> Seq<u8>,
    item: spec_fn(Seq<u8>) -> Option<(T, Seq<u8>)>,
)
    requires
        reads_back(ser, item),
        items.len() <= u64::MAX,
    ensures
        parse_list(ser_list(items, ser) + rest, item) == Some((items, rest)),
{
    assert(ser_list(items, ser) + rest =~= spec_u64_to_le_bytes(items.len() as u64) + (ser_items(
        items,
        ser,
    ) + rest));
    lemma_u64_round(items.len() as u64, ser_items(items, ser) + rest);
    lemma_items_round(items, rest, ser, item);
}

/// An identifier on the wire: its bytes.
pub open spec fn ser_id() -> spec_fn(PeerId) -> Seq<u8> {
    |id: PeerId| id.bytes@
}

/// Reads an identifier.
pub open spec fn id_parser() -> spec_fn(Seq<u8>) -> Option<(PeerId, Seq<u8>)> {
    |s: Seq<u8>| parse_id(s)
}

/// An address: its number, then its port.
pub open spec fn ser_address() -> spec_fn(Address) -> Seq<u8> {
    |a: Address| spec_u128_to_le_bytes(a.ip) + spec_u16_to_le_bytes(a.port)
}

/// The address at the start of `s`, and the rest.
pub open spec fn parse_address(s: Seq<u8>) -> Option<(Address, Seq<u8>)> {
    match parse_u128(s) {
        Some((ip, rest)) => match parse_u16(rest) {
            Some((port, end)) => Some((Address { ip, port }, end)),
            None => None,
        },
        None => None,
    }
}

/// Reads an address.
pub open spec fn address_parser() -> spec_fn(Seq<u8>) -> Option<(Address, Seq<u8>)> {
    |s: Seq<u8>| parse_address(s)
}

/// Identifiers read back.
pub proof fn lemma_id_reads_back()
    ensures
        reads_back(ser_id(), id_parser()),
{
    assert forall|x: PeerId, rest: Seq<u8>| #[trigger]
        id_parser()(ser_id()(x) + rest) == Some((x, rest)) by {
        lemma_id_round(x, rest);
    }
}

/// Addresses read back.
pub proof fn lemma_address_reads_back()
    ensures
        reads_back(ser_address(), address_parser()),
{
    assert forall|x: Address, rest: Seq<u8>| #[trigger]
        address_parser()(ser_address()(x) + rest) == Some((x, rest)) by {
        let after = spec_u16_to_le_bytes(x.port) + rest;
        assert(ser_address()(x) + rest =~= spec_u128_to_le_bytes(x.ip) + after);
        lemma_u128_round(x.ip, after);
        lemma_u16_round(x.port, rest);
    }
}

/// A text: the bytes of its UTF-8 form, behind their number.
pub open spec fn ser_text(t: Seq<char>) -> Seq<u8> {
    ser_bytes(encode_utf8(t))
}

/// The text at the start of `s`, and the rest.
pub open spec fn parse_text(s: Seq<u8>) -> Option<(Seq<char>, Seq<u8>)> {
    match parse_bytes(s) {
        Some((b, rest)) => if valid_utf8(b) {
            Some((decode_utf8(b), rest))
        } else {
            None
        },
        None => None,
    }
}

/// A text that was written is read back.
pub proof fn lemma_text_round(t: Seq<char>, rest: Seq<u8>)
    requires
        encode_utf8(t).len() <= u64::MAX,
    ensures
        parse_text(ser_text(t) + rest) == Some((t, rest)),
{
    lemma_bytes_round(encode_utf8(t), rest);
    encode_utf8_valid_utf8(t);
    encode_utf8_decode_utf8(t);
}

/// A record: key, value, publisher and the time until which it holds.
pub open spec fn ser_record(r: RecordView) -> Seq<u8> {
    ser_bytes(r.key) + (ser_bytes(r.value) + (r.publisher.bytes@ + spec_u64_to_le_bytes(r.expiry)))
}

/// The record at the start of `s`, and the rest.
pub open spec fn parse_record(s: Seq<u8>) -> Option<(RecordView, Seq<u8>)> {
    match parse_bytes(s) {
        Some((key, s1)) => match parse_bytes(s1) {
            Some((value, s2)) => match parse_id(s2) {
                Some((publisher, s3)) => match parse_u64(s3) {
                    Some((expiry, rest)) => Some(
                        (RecordView { key, value, publisher, expiry }, rest),
                    ),
                    None => None,
                },
                None => None,
            },
            None => None,
        },
        None => None,
    }
}

/// Whether the byte strings of a record are short enough to be written.
pub open spec fn record_fits(r: RecordView) -> bool {
    r.key.len() <= u64::MAX && r.value.len() <= u64::MAX
}

/// A record that was written is read back.
pub proof fn lemma_record_round(r: RecordView, rest: Seq<u8>)
    requires
        record_fits(r),
    ensures
        parse_record(ser_record(r) + rest) == Some((r, rest)),
{
    let s3 = spec_u64_to_le_bytes(r.expiry) + rest;
    let s2 = r.publisher.bytes@ + s3;
    let s1 = ser_bytes(r.value) + s2;
    assert(ser_record(r) + rest =~= ser_bytes(r.key) + s1);
    lemma_bytes_round(r.key, s1);
    lemma_bytes_round(r.value, s2);
    lemma_id_round(r.publisher, s3);
    lemma_u64_round(r.expiry, rest);
}

/// A record that may be there: a byte that tells, then the record.
pub open spec fn ser_found(found: Option<RecordView>) -> Seq<u8> {
    match found {
        Some(r) => seq![1u8] + ser_record(r),
        None => seq![0u8],
    }
}

/// The record that may be there at the start of `s`, and the rest.
pub open spec fn parse_found(s: Seq<u8>) -> Option<(Option<RecordView>, Seq<u8>)> {
    match parse_u8(s) {
        Some((flag, rest)) => if flag == 0 {
            Some((None, rest))
        } else if flag == 1 {
            match parse_record(rest) {
                Some((r, end)) => Some((Some(r), end)),
                None => None,
            }
        } else {
            None
        },
        None => None,
    }
}

/// A record that may be there reads back as it was written.
pub proof fn lemma_found_round(found: Option<RecordView>, rest: Seq<u8>)
    requires
        found.is_some() ==> record_fits(found.unwrap()),
    ensures
        parse_found(ser_found(found) + rest) == Some((found, rest)),
{
    match found {
        Some(r) => {
            assert(ser_found(found) + rest =~= seq![1u8] + (ser_record(r) + rest));
            lemma_u8_round(1, ser_record(r) + rest);
            lemma_record_round(r, rest);
        },
        None => {
            lemma_u8_round(0, rest);
        },
    }
}

/// A message: identifier, topic, payload, sender, the sender's key, the
/// sequence number and the signature.
pub open spec fn ser_message(m: MessageView) -> Seq<u8> {
    m.id.bytes@ + (ser_text(m.topic) + (ser_bytes(m.payload) + (m.sender.bytes@ + (m.sender_key
        + (spec_u64_to_le_bytes(m.sequence) + m.signature)))))
}

/// The message at the start of `s`, and the rest.
pub open spec fn parse_message(s: Seq<u8>) -> Option<(MessageView, Seq<u8>)> {
    match parse_fixed(s, 32) {
        Some((id, s1)) => match parse_text(s1) {
            Some((topic, s2)) => match parse_bytes(s2) {
                Some((payload, s3)) => match parse_id(s3) {
                    Some((sender, s4)) => match parse_fixed(s4, 32) {
                        Some((sender_key, s5)) => match parse_u64(s5) {
                            Some((sequence, s6)) => match parse_fixed(s6, 64) {
                                Some((signature, rest)) => Some(
                                    (
                                        MessageView {
                                            id: MessageId { bytes: digest_array(id) },
                                            topic,
                                            payload,
                                            sender,
                                            sender_key,
                                            sequence,
                                            signature,
                                        },
                                        rest,
                                    ),
                                ),
                                None => None,
                            },
                            None => None,
                        },
                        None => None,
                    },
                    None => None,
                },
                None => None,
            },
            None => None,
        },
        None => None,
    }
}

/// Whether the parts of a message have the lengths with which they can
/// be written.
pub open spec fn message_fits(m: MessageView) -> bool {
    &&& encode_utf8(m.topic).len() <= u64::MAX
    &&& m.payload.len() <= u64::MAX
    &&& m.sender_key.len() == 32
    &&& m.signature.len() == 64
}

/// A message that was written is read back.
pub proof fn lemma_message_round(m: MessageView, rest: Seq<u8>)
    requires
        message_fits(m),
    ensures
        parse_message(ser_message(m) + rest) == Some((m, rest)),
{
    let s6 = m.signature + rest;
    let s5 = spec_u64_to_le_bytes(m.sequence) + s6;
    let s4 = m.sender_key + s5;
    let s3 = m.sender.bytes@ + s4;
    let s2 = ser_bytes(m.payload) + s3;
    let s1 = ser_text(m.topic) + s2;
    assert(ser_message(m) + rest =~= m.id.bytes@ + s1);
    lemma_fixed_round(m.id.bytes@, s1);
    lemma_digest_array(m.id.bytes);
    lemma_text_round(m.topic, s2);
    lemma_bytes_round(m.payload, s3);
    lemma_id_round(m.sender, s4);
    lemma_fixed_round(m.sender_key, s5);
    lemma_u64_round(m.sequence, s6);
    lemma_fixed_round(m.signature, rest);
}

/// An announcement: sender, addresses and time to live.
pub open spec fn ser_announcement(a: AnnouncementView) -> Seq<u8> {
    a.sender.bytes@ + (ser_list(a.addrs, ser_address()) + spec_u64_to_le_bytes(a.ttl))
}

/// The announcement at the start of `s`, and the rest.
pub open spec fn parse_announcement(s: Seq<u8>) -> Option<(AnnouncementView, Seq<u8>)> {
    match parse_id(s) {
        Some((sender, s1)) => match parse_list(s1, address_parser()) {
            Some((addrs, s2)) => match parse_u64(s2) {
                Some((ttl, rest)) => Some((AnnouncementView { sender, addrs, ttl }, rest)),
                None => None,
            },
            None => None,
        },
        None => None,
    }
}

/// An announcement that was written is read back.
pub proof fn lemma_announcement_round(a: AnnouncementView, rest: Seq<u8>)
    requires
        a.addrs.len() <= u64::MAX,
    ensures
        parse_announcement(ser_announcement(a) + rest) == Some((a, rest)),
{
    let s2 = spec_u64_to_le_bytes(a.ttl) + rest;
    let s1 = ser_list(a.addrs, ser_address()) + s2;
    assert(ser_announcement(a) + rest =~= a.sender.bytes@ + s1);
    lemma_id_round(a.sender, s1);
    lemma_address_reads_back();
    lemma_list_round(a.addrs, s2, ser_address(), address_parser());
    lemma_u64_round(a.ttl, rest);
}

/// What reading at a place in `data` gave, beside what parsing the
/// bytes from there on gives: a value with the same view, and the
/// place where the rest begins.
pub open spec fn read_view<T: View>(
    data: Seq<u8>,
    read: Option<(T, usize)>,
    parsed: Option<(T::V, Seq<u8>)>,
) -> bool {
    match parsed {
        Some((value, rest)) => read.is_some() && read.unwrap().0@ == value && read.unwrap().1
            <= data.len() && data.skip(read.unwrap().1 as int) == rest,
        None => read.is_none(),
    }
}

/// Calls `String::from_utf8` on the bytes, which gives the text that
/// they are the UTF-8 form of, and nothing where they are none.
#[verifier::external_body]
fn text_of_utf8(bytes: Vec<u8>) -> (text: Option<String>)
    ensures
        text.is_some() == valid_utf8(bytes@),
        text.is_some() ==> text.unwrap()@ == decode_utf8(bytes@),
{
    String::from_utf8(bytes).ok()
}

/// Writes a list of identifiers.
fn put_ids(out: &mut Vec<u8>, ids: &Vec<PeerId>)
    ensures
        final(out)@ == old(out)@ + ser_list(ids@, ser_id()),
{
    put_u64(out, ids.len() as u64);
    let ghost head = out@;
    let mut i: usize = 0;
    assert(ids@.take(0) =~= Seq::<PeerId>::empty());
    assert(out@ =~= head + ser_items(ids@.take(0), ser_id()));
    while i < ids.len()
        invariant
            i <= ids@.len(),
            out@ == head + ser_items(ids@.take(i as int), ser_id()),
        decreases ids@.len() - i,
    {
        append_bytes(out, ids[i].bytes.as_slice());
        proof {
            lemma_items_push(ids@.take(i as int), ids@[i as int], ser_id());
            assert(ids@.take(i + 1) =~= ids@.take(i as int).push(ids@[i as int]));
            assert(out@ =~= head + ser_items(ids@.take(i + 1), ser_id()));
        }
        i += 1;
    }
    assert(ids@.take(ids@.len() as int) =~= ids@);
    assert(out@ =~= old(out)@ + ser_list(ids@, ser_id()));
}

/// Reads a list of identifiers at `at`.
fn take_ids(data: &[u8], at: usize) -> (read: Option<(Vec<PeerId>, usize)>)
    requires
        at <= data@.len(),
    ensures
        read_view(data@, read, parse_list(data@.skip(at as int), id_parser())),
{
    let (n, start) = match take_u64(data, at) {
        Some(r) => r,
        None => {
            return None;
        },
    };
    let ghost whole = parse_items(data@.skip(start as int), n as nat, id_parser());
    let mut ids: Vec<PeerId> = Vec::new();
    let mut cur: usize = start;
    let mut i: u64 = 0;
    assert(ids@ + Seq::<PeerId>::empty() =~= Seq::<PeerId>::empty());
    proof {
        match whole {
            Some((items, end)) => {
                assert(ids@ + items =~= items);
            },
            None => {},
        }
    }
    while i < n
        invariant
            i <= n,
            cur <= data@.len(),
            parse_list(data@.skip(at as int), id_parser()) == whole,
            whole == match parse_items(data@.skip(cur as int), (n - i) as nat, id_parser()) {
                Some((others, end)) => Some((ids@ + others, end)),
                None => None::<(Seq<PeerId>, Seq<u8>)>,
            },
        decreases n - i,
    {
        assert(id_parser()(data@.skip(cur as int)) == parse_id(data@.skip(cur as int)));
        match take_id(data, cur) {
            Some((id, next)) => {
                proof {
                    let rest = data@.skip(next as int);
                    match parse_items(rest, (n - i - 1) as nat, id_parser()) {
                        Some((others, end)) => {
                            assert(ids@.push(id) + others =~= ids@ + (seq![id] + others));
                        },
                        None => {},
                    }
                }
                ids.push(id);
                cur = next;
            },
            None => {
                return None;
            },
        }
        i += 1;
    }
    assert(ids@ + Seq::<PeerId>::empty() =~= ids@);
    Some((ids, cur))
}

/// Writes a list of addresses.
fn put_addrs(out: &mut Vec<u8>, addrs: &Vec<Address>)
    ensures
        final(out)@ == old(out)@ + ser_list(addrs@, ser_address()),
{
    put_u64(out, addrs.len() as u64);
    let ghost head = out@;
    let mut i: usize = 0;
    assert(addrs@.take(0) =~= Seq::<Address>::empty());
    assert(out@ =~= head + ser_items(addrs@.take(0), ser_address()));
    while i < addrs.len()
        invariant
            i <= addrs@.len(),
            out@ == head + ser_items(addrs@.take(i as int), ser_address()),
        decreases addrs@.len() - i,
    {
        let ghost before = out@;
        put_u128(out, addrs[i].ip);
        put_u16(out, addrs[i].port);
        proof {
            lemma_items_push(addrs@.take(i as int), addrs@[i as int], ser_address());
            assert(addrs@.take(i + 1) =~= addrs@.take(i as int).push(addrs@[i as int]));
            assert(out@ =~= before + ser_address()(addrs@[i as int]));
            assert(out@ =~= head + ser_items(addrs@.take(i + 1), ser_address()));
        }
        i += 1;
    }
    assert(addrs@.take(addrs@.len() as int) =~= addrs@);
    assert(out@ =~= old(out)@ + ser_list(addrs@, ser_address()));
}

/// Reads an address at `at`.
fn take_address(data: &[u8], at: usize) -> (read: Option<(Address, usize)>)
    requires
        at <= data@.len(),
    ensures
        read_as(data@, read, parse_address(data@.skip(at as int))),
{
    match take_u128(data, at) {
        Some((ip, next)) => match take_u16(data, next) {
            Some((port, end)) => Some((Address { ip, port }, end)),
            None => None,
        },
        None => None,
    }
}

/// Reads a list of addresses at `at`.
fn take_addrs(data: &[u8], at: usize) -> (read: Option<(Vec<Address>, usize)>)
    requires
        at <= data@.len(),
    ensures
        read_view(data@, read, parse_list(data@.skip(at as int), address_parser())),
{
    let (n, start) = match take_u64(data, at) {
        Some(r) => r,
        None => {
            return None;
        },
    };
    let ghost whole = parse_items(data@.skip(start as int), n as nat, address_parser());
    let mut addrs: Vec<Address> = Vec::new();
    let mut cur: usize = start;
    let mut i: u64 = 0;
    proof {
        match whole {
            Some((items, end)) => {
                assert(addrs@ + items =~= items);
            },
            None => {},
        }
    }
    while i < n
        invariant
            i <= n,
            cur <= data@.len(),
            parse_list(data@.skip(at as int), address_parser()) == whole,
            whole == match parse_items(data@.skip(cur as int), (n - i) as nat, address_parser()) {
                Some((others, end)) => Some((addrs@ + others, end)),
                None => None::<(Seq<Address>, Seq<u8>)>,
            },
        decreases n - i,
    {
        assert(address_parser()(data@.skip(cur as int)) == parse_address(data@.skip(cur as int)));
        match take_address(data, cur) {
            Some((a, next)) => {
                proof {
                    let rest = data@.skip(next as int);
                    match parse_items(rest, (n - i - 1) as nat, address_parser()) {
                        Some((others, end)) => {
                            assert(addrs@.push(a) + others =~= addrs@ + (seq![a] + others));
                        },
                        None => {},
                    }
                }
                addrs.push(a);
                cur = next;
            },
            None => {
                return None;
            },
        }
        i += 1;
    }
    assert(addrs@ + Seq::<Address>::empty() =~= addrs@);
    Some((addrs, cur))
}

/// Writes the name of a topic.
fn put_text(out: &mut Vec<u8>, topic: &Topic)
    ensures
        final(out)@ == old(out)@ + ser_text(topic@),
{
    put_bytes(out, topic.name.as_str().as_bytes());
}

/// Reads the name of a topic at `at`.
fn take_text(data: &[u8], at: usize) -> (read: Option<(Topic, usize)>)
    requires
        at <= data@.len(),
    ensures
        read_view(data@, read, parse_text(data@.skip(at as int))),
{
    match take_bytes(data, at) {
        Some((bytes, next)) => match text_of_utf8(copy_bytes(bytes)) {
            Some(name) => Some((Topic { name }, next)),
            None => None,
        },
        None => None,
    }
}

/// Writes a record.
fn put_record(out: &mut Vec<u8>, r: &Record)
    ensures
        final(out)@ == old(out)@ + ser_record(r@),
{
    put_bytes(out, r.key.as_slice());
    put_bytes(out, r.value.as_slice());
    append_bytes(out, r.publisher.bytes.as_slice());
    put_u64(out, r.expiry);
    assert(out@ =~= old(out)@ + ser_record(r@));
}

/// Reads a record at `at`.
fn take_record(data: &[u8], at: usize) -> (read: Option<(Record, usize)>)
    requires
        at <= data@.len(),
    ensures
        read_view(data@, read, parse_record(data@.skip(at as int))),
{
    let (key, s1) = match take_bytes(data, at) {
        Some(r) => r,
        None => {
            return None;
        },
    };
    let (value, s2) = match take_bytes(data, s1) {
        Some(r) => r,
        None => {
            return None;
        },
    };
    let (publisher, s3) = match take_id(data, s2) {
        Some(r) => r,
        None => {
            return None;
        },
    };
    let (expiry, rest) = match take_u64(data, s3) {
        Some(r) => r,
        None => {
            return None;
        },
    };
    Some((Record { key: copy_bytes(key), value: copy_bytes(value), publisher, expiry }, rest))
}

/// Writes a record that may be there.
fn put_found(out: &mut Vec<u8>, found: &Option<Record>)
    ensures
        final(out)@ == old(out)@ + ser_found(record_view(*found)),
{
    match found {
        Some(r) => {
            out.push(1u8);
            put_record(out, r);
            assert(out@ =~= old(out)@ + ser_found(record_view(*found)));
        },
        None => {
            out.push(0u8);
            assert(out@ =~= old(out)@ + ser_found(record_view(*found)));
        },
    }
}

/// Reads a record that may be there at `at`.
fn take_found(data: &[u8], at: usize) -> (read: Option<(Option<Record>, usize)>)
    requires
        at <= data@.len(),
    ensures
        match parse_found(data@.skip(at as int)) {
            Some((value, rest)) => read.is_some() && record_view(read.unwrap().0) == value
                && read.unwrap().1 <= data@.len() && data@.skip(read.unwrap().1 as int) == rest,
            None => read.is_none(),
        },
{
    match take_u8(data, at) {
        Some((flag, next)) => {
            if flag == 0 {
                Some((None, next))
            } else if flag == 1 {
                match take_record(data, next) {
                    Some((r, end)) => Some((Some(r), end)),
                    None => None,
                }
            } else {
                None
            }
        },
        None => None,
    }
}

/// Writes a message.
fn put_message(out: &mut Vec<u8>, m: &Message)
    ensures
        final(out)@ == old(out)@ + ser_message(m@),
{
    append_bytes(out, m.id.bytes.as_slice());
    put_text(out, &m.topic);
    put_bytes(out, m.payload.as_slice());
    append_bytes(out, m.sender.bytes.as_slice());
    append_bytes(out, m.sender_key.as_slice());
    put_u64(out, m.sequence);
    append_bytes(out, m.signature.as_slice());
    assert(out@ =~= old(out)@ + ser_message(m@));
}

/// Reads a message at `at`.
fn take_message(data: &[u8], at: usize) -> (read: Option<(Message, usize)>)
    requires
        at <= data@.len(),
    ensures
        read_view(data@, read, parse_message(data@.skip(at as int))),
{
    let (id, s1) = match take_fixed(data, at, 32) {
        Some(r) => r,
        None => {
            return None;
        },
    };
    let (topic, s2) = match take_text(data, s1) {
        Some(r) => r,
        None => {
            return None;
        },
    };
    let (payload, s3) = match take_bytes(data, s2) {
        Some(r) => r,
        None => {
            return None;
        },
    };
    let (sender, s4) = match take_id(data, s3) {
        Some(r) => r,
        None => {
            return None;
        },
    };
    let (sender_key, s5) = match take_fixed(data, s4, 32) {
        Some(r) => r,
        None => {
            return None;
        },
    };
    let (sequence, s6) = match take_u64(data, s5) {
        Some(r) => r,
        None => {
            return None;
        },
    };
    let (signature, rest) = match take_fixed(data, s6, 64) {
        Some(r) => r,
        None => {
            return None;
        },
    };
    Some(
        (
            Message {
                id: MessageId { bytes: array32(id) },
                topic,
                payload: copy_bytes(payload),
                sender,
                sender_key: array32(sender_key),
                sequence,
                signature: array64(signature),
            },
            rest,
        ),
    )
}

/// Writes an announcement.
fn put_announcement(out: &mut Vec<u8>, a: &Announcement)
    ensures
        final(out)@ == old(out)@ + ser_announcement(a@),
{
    append_bytes(out, a.sender.bytes.as_slice());
    put_addrs(out, &a.addrs);
    put_u64(out, a.ttl);
    assert(out@ =~= old(out)@ + ser_announcement(a@));
}

/// Reads an announcement at `at`.
fn take_announcement(data: &[u8], at: usize) -> (read: Option<(Announcement, usize)>)
    requires
        at <= data@.len(),
    ensures
        read_view(data@, read, parse_announcement(data@.skip(at as int))),
{
    let (sender, s1) = match take_id(data, at) {
        Some(r) => r,
        None => {
            return None;
        },
    };
    let (addrs, s2) = match take_addrs(data, s1) {
        Some(r) => r,
        None => {
            return None;
        },
    };
    let (ttl, rest) = match take_u64(data, s2) {
        Some(r) => r,
        None => {
            return None;
        },
    };
    Some((Announcement { sender, addrs, ttl }, rest))
}

/// What one peer sends to another.
#[derive(Debug, PartialEq, Eq)]
pub enum Frame {
    /// A presence announcement.
    Announce(Announcement),
    /// A message of a topic.
    Publish(Message),
    /// The sender is subscribed to the topic from now on.
    Subscribe(Topic),
    /// The sender is subscribed to the topic no longer.
    Unsubscribe(Topic),
    /// Which peers are closest to `target`?
    FindNode { query: u64, target: PeerId },
    /// What is stored under `key`?
    GetValue { query: u64, key: Vec<u8> },
    /// Store this record.
    PutValue { query: u64, record: Record },
    /// These are the closest peers known.
    Peers { query: u64, closer: Vec<PeerId> },
    /// These are the closest peers known, and this is the record held.
    Value { query: u64, closer: Vec<PeerId>, found: Option<Record> },
    /// The record was stored, or was not.
    Stored { query: u64, stored: bool },
    /// Are you alive?
    Ping { query: u64 },
    /// I am.
    Pong { query: u64 },
    /// Prove who you are by signing these bytes.
    Challenge { nonce: [u8; 32] },
    /// This is who I am.
    Credentials(Credentials),
}

/// A frame as mathematical values.
pub enum FrameView {
    Announce(AnnouncementView),
    Publish(MessageView),
    Subscribe(Seq<char>),
    Unsubscribe(Seq<char>),
    FindNode { query: u64, target: PeerId },
    GetValue { query: u64, key: Seq<u8> },
    PutValue { query: u64, record: RecordView },
    Peers { query: u64, closer: Seq<PeerId> },
    Value { query: u64, closer: Seq<PeerId>, found: Option<RecordView> },
    Stored { query: u64, stored: bool },
    Ping { query: u64 },
    Pong { query: u64 },
    Challenge { nonce: Seq<u8> },
    Credentials { version: u32, public_key: Seq<u8>, signature: Seq<u8> },
}

impl View for Frame {
    type V = FrameView;

    open spec fn view(&self) -> FrameView {
        match self {
            Frame::Announce(a) => FrameView::Announce(a@),
            Frame::Publish(m) => FrameView::Publish(m@),
            Frame::Subscribe(t) => FrameView::Subscribe(t@),
            Frame::Unsubscribe(t) => FrameView::Unsubscribe(t@),
            Frame::FindNode { query, target } => FrameView::FindNode {
                query: *query,
                target: *target,
            },
            Frame::GetValue { query, key } => FrameView::GetValue { query: *query, key: key@ },
            Frame::PutValue { query, record } => FrameView::PutValue {
                query: *query,
                record: record@,
            },
            Frame::Peers { query, closer } => FrameView::Peers { query: *query, closer: closer@ },
            Frame::Value { query, closer, found } => FrameView::Value {
                query: *query,
                closer: closer@,
                found: record_view(*found),
            },
            Frame::Stored { query, stored } => FrameView::Stored { query: *query, stored: *stored },
            Frame::Ping { query } => FrameView::Ping { query: *query },
            Frame::Pong { query } => FrameView::Pong { query: *query },
            Frame::Challenge { nonce } => FrameView::Challenge { nonce: nonce@ },
            Frame::Credentials(c) => FrameView::Credentials {
                version: c.version,
                public_key: c.public_key@,
                signature: c.signature@,
            },
        }
    }
}

/// The fields of a frame on the wire, behind its tag.
pub open spec fn ser_fields(f: FrameView) -> Seq<u8> {
    match f {
        FrameView::Announce(a) => ser_announcement(a),
        FrameView::Publish(m) => ser_message(m),
        FrameView::Subscribe(t) => ser_text(t),
        FrameView::Unsubscribe(t) => ser_text(t),
        FrameView::FindNode { query, target } => spec_u64_to_le_bytes(query) + target.bytes@,
        FrameView::GetValue { query, key } => spec_u64_to_le_bytes(query) + ser_bytes(key),
        FrameView::PutValue { query, record } => spec_u64_to_le_bytes(query) + ser_record(record),
        FrameView::Peers { query, closer } => spec_u64_to_le_bytes(query) + ser_list(
            closer,
            ser_id(),
        ),
        FrameView::Value { query, closer, found } => spec_u64_to_le_bytes(query) + (ser_list(
            closer,
            ser_id(),
        ) + ser_found(found)),
        FrameView::Stored { query, stored } => spec_u64_to_le_bytes(query) + seq![
            if stored {
                1u8
            } else {
                0u8
            },
        ],
        FrameView::Ping { query } => spec_u64_to_le_bytes(query),
        FrameView::Pong { query } => spec_u64_to_le_bytes(query),
        FrameView::Challenge { nonce } => nonce,
        FrameView::Credentials { version, public_key, signature } => spec_u32_to_le_bytes(version)
            + (public_key + signature),
    }
}

/// The tag that tells the kind of a frame.
pub open spec fn tag_of(f: FrameView) -> u8 {
    match f {
        FrameView::Announce(_) => 1,
        FrameView::Publish(_) => 2,
        FrameView::Subscribe(_) => 3,
        FrameView::Unsubscribe(_) => 4,
        FrameView::FindNode { .. } => 5,
        FrameView::GetValue { .. } => 6,
        FrameView::PutValue { .. } => 7,
        FrameView::Peers { .. } => 8,
        FrameView::Value { .. } => 9,
        FrameView::Stored { .. } => 10,
        FrameView::Ping { .. } => 11,
        FrameView::Pong { .. } => 12,
        FrameView::Challenge { .. } => 13,
        FrameView::Credentials { .. } => 14,
    }
}

/// A frame on the wire.
pub open spec fn ser_frame(f: FrameView) -> Seq<u8> {
    seq![tag_of(f)] + ser_fields(f)
}

/// The frame with the tag `tag` whose fields are at the start of `s`,
/// and what follows them.
pub open spec fn parse_fields(tag: u8, s: Seq<u8>) -> Option<(FrameView, Seq<u8>)> {
    if tag == 1 {
        match parse_announcement(s) {
            Some((a, rest)) => Some((FrameView::Announce(a), rest)),
            None => None,
        }
    } else if tag == 2 {
        match parse_message(s) {
            Some((m, rest)) => Some((FrameView::Publish(m), rest)),
            None => None,
        }
    } else if tag == 3 {
        match parse_text(s) {
            Some((t, rest)) => Some((FrameView::Subscribe(t), rest)),
            None => None,
        }
    } else if tag == 4 {
        match parse_text(s) {
            Some((t, rest)) => Some((FrameView::Unsubscribe(t), rest)),
            None => None,
        }
    } else if 5 <= tag <= 12 {
        match parse_u64(s) {
            Some((query, s1)) => if tag == 5 {
                match parse_id(s1) {
                    Some((target, rest)) => Some((FrameView::FindNode { query, target }, rest)),
                    None => None,
                }
            } else if tag == 6 {
                match parse_bytes(s1) {
                    Some((key, rest)) => Some((FrameView::GetValue { query, key }, rest)),
                    None => None,
                }
            } else if tag == 7 {
                match parse_record(s1) {
                    Some((record, rest)) => Some((FrameView::PutValue { query, record }, rest)),
                    None => None,
                }
            } else if tag == 8 {
                match parse_list(s1, id_parser()) {
                    Some((closer, rest)) => Some((FrameView::Peers { query, closer }, rest)),
                    None => None,
                }
            } else if tag == 9 {
                match parse_list(s1, id_parser()) {
                    Some((closer, s2)) => match parse_found(s2) {
                        Some((found, rest)) => Some(
                            (FrameView::Value { query, closer, found }, rest),
                        ),
                        None => None,
                    },
                    None => None,
                }
            } else if tag == 10 {
                match parse_u8(s1) {
                    Some((flag, rest)) => if flag == 0 {
                        Some((FrameView::Stored { query, stored: false }, rest))
                    } else if flag == 1 {
                        Some((FrameView::Stored { query, stored: true }, rest))
                    } else {
                        None
                    },
                    None => None,
                }
            } else if tag == 11 {
                Some((FrameView::Ping { query }, s1))
            } else {
                Some((FrameView::Pong { query }, s1))
            },
            None => None,
        }
    } else if tag == 13 {
        match parse_fixed(s, 32) {
            Some((nonce, rest)) => Some((FrameView::Challenge { nonce }, rest)),
            None => None,
        }
    } else if tag == 14 {
        match parse_u32(s) {
            Some((version, s1)) => match parse_fixed(s1, 32) {
                Some((public_key, s2)) => match parse_fixed(s2, 64) {
                    Some((signature, rest)) => Some(
                        (FrameView::Credentials { version, public_key, signature }, rest),
                    ),
                    None => None,
                },
                None => None,
            },
            None => None,
        }
    } else {
        None
    }
}

/// The frame that `s` is the form of on the wire, if it is that of one:
/// a tag and the fields that belong to it, and nothing behind them.
pub open spec fn parse_frame(s: Seq<u8>) -> Option<FrameView> {
    match parse_u8(s) {
        Some((tag, fields)) => match parse_fields(tag, fields) {
            Some((f, rest)) => if rest.len() == 0 {
                Some(f)
            } else {
                None
            },
            None => None,
        },
        None => None,
    }
}

/// Whether the parts of a frame have the lengths with which they can
/// be written. Every frame that the node holds has.
pub open spec fn fits(f: FrameView) -> bool {
    match f {
        FrameView::Announce(a) => a.addrs.len() <= u64::MAX,
        FrameView::Publish(m) => message_fits(m),
        FrameView::Subscribe(t) => encode_utf8(t).len() <= u64::MAX,
        FrameView::Unsubscribe(t) => encode_utf8(t).len() <= u64::MAX,
        FrameView::FindNode { .. } => true,
        FrameView::GetValue { query, key } => key.len() <= u64::MAX,
        FrameView::PutValue { query, record } => record_fits(record),
        FrameView::Peers { query, closer } => closer.len() <= u64::MAX,
        FrameView::Value { query, closer, found } => closer.len() <= u64::MAX && (found.is_some()
            ==> record_fits(found.unwrap())),
        FrameView::Stored { .. } => true,
        FrameView::Ping { .. } => true,
        FrameView::Pong { .. } => true,
        FrameView::Challenge { nonce } => nonce.len() == 32,
        FrameView::Credentials { version, public_key, signature } => public_key.len() == 32
            && signature.len() == 64,
    }
}

/// Every frame that is written is read back as it was.
pub proof fn lemma_frame_round(f: FrameView)
    requires
        fits(f),
    ensures
        parse_frame(ser_frame(f)) == Some(f),
{
    let none = Seq::<u8>::empty();
    let fields = ser_fields(f);
    lemma_u8_round(tag_of(f), fields);
    assert(fields + none =~= fields);
    lemma_id_reads_back();
    match f {
        FrameView::Announce(a) => {
            lemma_announcement_round(a, none);
        },
        FrameView::Publish(m) => {
            lemma_message_round(m, none);
        },
        FrameView::Subscribe(t) => {
            lemma_text_round(t, none);
        },
        FrameView::Unsubscribe(t) => {
            lemma_text_round(t, none);
        },
        FrameView::FindNode { query, target } => {
            lemma_u64_round(query, target.bytes@);
            lemma_id_round(target, none);
            assert(target.bytes@ + none =~= target.bytes@);
        },
        FrameView::GetValue { query, key } => {
            lemma_u64_round(query, ser_bytes(key));
            lemma_bytes_round(key, none);
            assert(ser_bytes(key) + none =~= ser_bytes(key));
        },
        FrameView::PutValue { query, record } => {
            lemma_u64_round(query, ser_record(record));
            lemma_record_round(record, none);
            assert(ser_record(record) + none =~= ser_record(record));
        },
        FrameView::Peers { query, closer } => {
            let list = ser_list(closer, ser_id());
            lemma_u64_round(query, list);
            lemma_list_round(closer, none, ser_id(), id_parser());
            assert(list + none =~= list);
        },
        FrameView::Value { query, closer, found } => {
            let list = ser_list(closer, ser_id());
            lemma_u64_round(query, list + ser_found(found));
            lemma_list_round(closer, ser_found(found), ser_id(), id_parser());
            lemma_found_round(found, none);
            assert(ser_found(found) + none =~= ser_found(found));
        },
        FrameView::Stored { query, stored } => {
            let flag = if stored {
                1u8
            } else {
                0u8
            };
            lemma_u64_round(query, seq![flag]);
            lemma_u8_round(flag, none);
            assert(seq![flag] + none =~= seq![flag]);
        },
        FrameView::Ping { query } => {
            lemma_u64_round(query, none);
        },
        FrameView::Pong { query } => {
            lemma_u64_round(query, none);
        },
        FrameView::Challenge { nonce } => {
            lemma_fixed_round(nonce, none);
        },
        FrameView::Credentials { version, public_key, signature } => {
            lemma_u32_round(version, public_key + signature);
            lemma_fixed_round(public_key, signature);
            lemma_fixed_round(signature, none);
            assert(signature + none =~= signature);
        },
    }
}

/// The form of a frame on the wire.
pub fn encode(frame: &Frame) -> (out: Vec<u8>)
    ensures
        out@ == ser_frame(frame@),
{
    let mut out: Vec<u8> = Vec::new();
    match frame {
        Frame::Announce(a) => {
            out.push(1u8);
            put_announcement(&mut out, a);
        },
        Frame::Publish(m) => {
            out.push(2u8);
            put_message(&mut out, m);
        },
        Frame::Subscribe(t) => {
            out.push(3u8);
            put_text(&mut out, t);
        },
        Frame::Unsubscribe(t) => {
            out.push(4u8);
            put_text(&mut out, t);
        },
        Frame::FindNode { query, target } => {
            out.push(5u8);
            put_u64(&mut out, *query);
            append_bytes(&mut out, target.bytes.as_slice());
        },
        Frame::GetValue { query, key } => {
            out.push(6u8);
            put_u64(&mut out, *query);
            put_bytes(&mut out, key.as_slice());
        },
        Frame::PutValue { query, record } => {
            out.push(7u8);
            put_u64(&mut out, *query);
            put_record(&mut out, record);
        },
        Frame::Peers { query, closer } => {
            out.push(8u8);
            put_u64(&mut out, *query);
            put_ids(&mut out, closer);
        },
        Frame::Value { query, closer, found } => {
            out.push(9u8);
            put_u64(&mut out, *query);
            put_ids(&mut out, closer);
            put_found(&mut out, found);
        },
        Frame::Stored { query, stored } => {
            out.push(10u8);
            put_u64(&mut out, *query);
            out.push(if *stored {
                1u8
            } else {
                0u8
            });
        },
        Frame::Ping { query } => {
            out.push(11u8);
            put_u64(&mut out, *query);
        },
        Frame::Pong { query } => {
            out.push(12u8);
            put_u64(&mut out, *query);
        },
        Frame::Challenge { nonce } => {
            out.push(13u8);
            append_bytes(&mut out, nonce.as_slice());
        },
        Frame::Credentials(c) => {
            out.push(14u8);
            put_u32(&mut out, c.version);
            append_bytes(&mut out, c.public_key.as_slice());
            append_bytes(&mut out, c.signature.as_slice());
        },
    }
    assert(out@ =~= ser_frame(frame@));
    out
}

/// The fields of the frame with the tag `tag` at `at`.
fn take_fields(tag: u8, data: &[u8], at: usize) -> (read: Option<(Frame, usize)>)
    requires
        at <= data@.len(),
    ensures
        read_view(data@, read, parse_fields(tag, data@.skip(at as int))),
{
    if tag == 1 {
        match take_announcement(data, at) {
            Some((a, rest)) => Some((Frame::Announce(a), rest)),
            None => None,
        }
    } else if tag == 2 {
        match take_message(data, at) {
            Some((m, rest)) => Some((Frame::Publish(m), rest)),
            None => None,
        }
    } else if tag == 3 {
        match take_text(data, at) {
            Some((t, rest)) => Some((Frame::Subscribe(t), rest)),
            None => None,
        }
    } else if tag == 4 {
        match take_text(data, at) {
            Some((t, rest)) => Some((Frame::Unsubscribe(t), rest)),
            None => None,
        }
    } else if 5 <= tag && tag <= 12 {
        let (query, s1) = match take_u64(data, at) {
            Some(r) => r,
            None => {
                return None;
            },
        };
        if tag == 5 {
            match take_id(data, s1) {
                Some((target, rest)) => Some((Frame::FindNode { query, target }, rest)),
                None => None,
            }
        } else if tag == 6 {
            match take_bytes(data, s1) {
                Some((key, rest)) => Some((Frame::GetValue { query, key: copy_bytes(key) }, rest)),
                None => None,
            }
        } else if tag == 7 {
            match take_record(data, s1) {
                Some((record, rest)) => Some((Frame::PutValue { query, record }, rest)),
                None => None,
            }
        } else if tag == 8 {
            match take_ids(data, s1) {
                Some((closer, rest)) => Some((Frame::Peers { query, closer }, rest)),
                None => None,
            }
        } else if tag == 9 {
            match take_ids(data, s1) {
                Some((closer, s2)) => match take_found(data, s2) {
                    Some((found, rest)) => Some((Frame::Value { query, closer, found }, rest)),
                    None => None,
                },
                None => None,
            }
        } else if tag == 10 {
            match take_u8(data, s1) {
                Some((flag, rest)) => {
                    if flag == 0 {
                        Some((Frame::Stored { query, stored: false }, rest))
                    } else if flag == 1 {
                        Some((Frame::Stored { query, stored: true }, rest))
                    } else {
                        None
                    }
                },
                None => None,
            }
        } else if tag == 11 {
            Some((Frame::Ping { query }, s1))
        } else {
            Some((Frame::Pong { query }, s1))
        }
    } else if tag == 13 {
        match take_fixed(data, at, 32) {
            Some((nonce, rest)) => Some((Frame::Challenge { nonce: array32(nonce) }, rest)),
            None => None,
        }
    } else if tag == 14 {
        let (version, s1) = match take_u32(data, at) {
            Some(r) => r,
            None => {
                return None;
            },
        };
        let (public_key, s2) = match take_fixed(data, s1, 32) {
            Some(r) => r,
            None => {
                return None;
            },
        };
        let (signature, rest) = match take_fixed(data, s2, 64) {
            Some(r) => r,
            None => {
                return None;
            },
        };
        Some(
            (
                Frame::Credentials(
                    Credentials {
                        version,
                        public_key: array32(public_key),
                        signature: array64(signature),
                    },
                ),
                rest,
            ),
        )
    } else {
        None
    }
}

/// The frame that `data` is the form of on the wire, or nothing where
/// it is that of none.
pub fn decode(data: &[u8]) -> (frame: Option<Frame>)
    ensures
        match parse_frame(data@) {
            Some(f) => frame.is_some() && frame.unwrap()@ == f,
            None => frame.is_none(),
        },
{
    assert(data@.skip(0) =~= data@);
    match take_u8(data, 0) {
        Some((tag, at)) => match take_fields(tag, data, at) {
            Some((frame, end)) => {
                if end == data.len() {
                    Some(frame)
                } else {
                    None
                }
            },
            None => None,
        },
        None => None,
    }
}

} // verus!
