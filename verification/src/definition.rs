//! The persisted record of a table: its name and the step of its sequence.

use crate::error::TableError;
use crate::wire::{
    lemma_skip_len_bounds, lemma_varint_len, lemma_varint_limit_values, lemma_varint_prefix_bounds,
    lemma_varint_round_trip, put_bytes, put_varint, read_key, read_varint, skip_field, skip_len,
    take_key, take_varint, varint, SKIP_DEPTH, WIRE_BYTES, WIRE_VARINT,
};
use vstd::prelude::*;
use vstd::slice::*;
use vstd::string::*;
use vstd::utf8::*;

verus! {

/// The number of the field that holds the table's name.
pub const FIELD_NAME: u32 = 1;

/// The number of the field that holds the step of the table's sequence.
pub const FIELD_STEP: u32 = 2;

/// The key byte of the name field: number 1, a length and bytes.
pub const KEY_NAME: u8 = 10;

/// The key byte of the step field: number 2, a varint.
pub const KEY_STEP: u8 = 16;

/// The record that the catalog keeps of a table. A step of zero means that
/// the table has no sequence.
#[derive(Clone, Debug, PartialEq, Eq)]
pub struct TableDefinition {
    pub name: String,
    pub sequence_step: u32,
}

/// A table definition as a mathematical value.
pub ghost struct DefinitionView {
    pub name: Seq<char>,
    pub sequence_step: u32,
}

impl View for TableDefinition {
    type V = DefinitionView;

    open spec fn view(&self) -> DefinitionView {
        DefinitionView { name: self.name@, sequence_step: self.sequence_step }
    }
}

/// The definition in which no field is set.
pub open spec fn blank_definition() -> DefinitionView {
    DefinitionView { name: Seq::empty(), sequence_step: 0 }
}

/// The name field of a record: absent for the empty name, else the key,
/// the length of the name in bytes and the name in UTF-8.
pub open spec fn name_field(name: Seq<char>) -> Seq<u8> {
    if name.len() == 0 {
        Seq::empty()
    } else {
        seq![KEY_NAME] + varint(encode_utf8(name).len()) + encode_utf8(name)
    }
}

/// The step field of a record: absent for zero, else the key and the step.
pub open spec fn step_field(step: u32) -> Seq<u8> {
    if step == 0 {
        Seq::empty()
    } else {
        seq![KEY_STEP] + varint(step as nat)
    }
}

/// The bytes of a definition's record.
pub open spec fn record_bytes(d: DefinitionView) -> Seq<u8> {
    name_field(d.name) + step_field(d.sequence_step)
}

/// Reads the payload of one field into `acc`, where `b` starts behind the
/// field's key. Gives the definition with the field set and the payload's
/// length. A name must be bytes in UTF-8, a step a varint, of which the low
/// 32 bits count; a field with another number is passed over.
pub open spec fn read_field(tag: nat, wire: nat, b: Seq<u8>, acc: DefinitionView) -> Option<
    (DefinitionView, nat),
> {
    if tag == 1 {
        if wire != 2 {
            None
        } else {
            match read_varint(b) {
                Some((len, n)) => if n + len <= b.len() && valid_utf8(
                    b.subrange(n as int, (n + len) as int),
                ) {
                    Some(
                        (
                            DefinitionView {
                                name: decode_utf8(b.subrange(n as int, (n + len) as int)),
                                sequence_step: acc.sequence_step,
                            },
                            n + len,
                        ),
                    )
                } else {
                    None
                },
                None => None,
            }
        }
    } else if tag == 2 {
        if wire != 0 {
            None
        } else {
            match read_varint(b) {
                Some((v, n)) => Some(
                    (
                        DefinitionView {
                            name: acc.name,
                            sequence_step: (v % 0x1_0000_0000) as u32,
                        },
                        n,
                    ),
                ),
                None => None,
            }
        }
    } else {
        match skip_len(wire, tag, b, 100) {
            Some(m) => Some((acc, m)),
            None => None,
        }
    }
}

/// Reads the fields of `b` one after another into `acc`. Of a field that
/// occurs twice the last occurrence counts.
pub open spec fn decode_from(b: Seq<u8>, acc: DefinitionView) -> Option<DefinitionView>
    decreases b.len(),
{
    if b.len() == 0 {
        Some(acc)
    } else {
        match read_key(b) {
            None => None,
            Some((tag, wire, n)) => match read_field(tag, wire, b.skip(n as int), acc) {
                None => None,
                Some((next, m)) => if 1 <= n && n + m <= b.len() {
                    decode_from(b.skip((n + m) as int), next)
                } else {
                    None
                },
            },
        }
    }
}

/// The definition that a record holds, or `None` where the bytes are no
/// record.
pub open spec fn decoded(b: Seq<u8>) -> Option<DefinitionView> {
    decode_from(b, blank_definition())
}

/// Calls `String::from_utf8`. Believed, as std documents it: the bytes
/// become a string exactly when they are valid UTF-8, and the string then
/// holds the characters that they encode.
#[verifier::external_body]
fn string_from_utf8(bytes: Vec<u8>) -> (r: Option<String>)
    ensures
        r is Some <==> valid_utf8(bytes@),
        r is Some ==> r->Some_0@ == decode_utf8(bytes@),
{
    String::from_utf8(bytes).ok()
}

/// A field's payload that was read lies within the bytes.
pub proof fn lemma_read_field_bounds(tag: nat, wire: nat, b: Seq<u8>, acc: DefinitionView)
    ensures
        match read_field(tag, wire, b, acc) {
            Some((_, m)) => m <= b.len(),
            None => true,
        },
{
    lemma_varint_prefix_bounds(b, 10);
    lemma_skip_len_bounds(wire, tag, b, 100);
}

/// Reading a step field gives the step and leaves the name alone.
proof fn lemma_decode_step_field(step: u32, acc: DefinitionView)
    ensures
        decode_from(step_field(step), acc) == Some(
            DefinitionView { name: acc.name, sequence_step: if step == 0 {
                acc.sequence_step
            } else {
                step
            } },
        ),
{
    let b = step_field(step);
    if step != 0 {
        lemma_varint_limit_values();
        let body = varint(step as nat);
        assert(b =~= varint(16) + body);
        lemma_varint_round_trip(16, body, 10);
        assert(varint(16) =~= seq![16u8]);
        assert(read_key(b) == Some((2nat, 0nat, 1nat)));
        assert(b.skip(1) =~= body + Seq::<u8>::empty());
        lemma_varint_round_trip(step as nat, Seq::<u8>::empty(), 10);
        lemma_varint_len(step as nat, 10);
        let n = body.len();
        assert(read_varint(b.skip(1)) == Some((step as nat, n)));
        let next = DefinitionView { name: acc.name, sequence_step: step };
        assert(read_field(2, 0, b.skip(1), acc) == Some((next, n)));
        assert(b.skip((1 + n) as int) =~= Seq::<u8>::empty());
        assert(decode_from(b.skip((1 + n) as int), next) == Some(next));
    }
}

/// A record reads back as the definition it was written from.
pub proof fn lemma_record_round_trip(d: DefinitionView)
    requires
        encode_utf8(d.name).len() <= u64::MAX,
    ensures
        decoded(record_bytes(d)) == Some(d),
{
    broadcast use {encode_utf8_valid_utf8, encode_utf8_decode_utf8};

    let b = record_bytes(d);
    let blank = blank_definition();
    if d.name.len() == 0 {
        assert(d.name =~= Seq::<char>::empty());
        assert(b =~= step_field(d.sequence_step));
        lemma_decode_step_field(d.sequence_step, blank);
    } else {
        lemma_varint_limit_values();
        let text = encode_utf8(d.name);
        let len = text.len();
        let head = varint(len);
        let tail = step_field(d.sequence_step);
        assert(b =~= varint(10) + (head + text + tail));
        lemma_varint_round_trip(10, head + text + tail, 10);
        assert(varint(10) =~= seq![10u8]);
        assert(read_key(b) == Some((1nat, 2nat, 1nat)));
        let behind_key = b.skip(1);
        assert(behind_key =~= head + (text + tail));
        lemma_varint_round_trip(len, text + tail, 10);
        lemma_varint_len(len, 10);
        let n = head.len();
        assert(read_varint(behind_key) == Some((len, n)));
        assert(behind_key.subrange(n as int, (n + len) as int) =~= text);
        let named = DefinitionView { name: d.name, sequence_step: 0 };
        assert(read_field(1, 2, behind_key, blank) == Some((named, n + len)));
        assert(b.skip((1 + n + len) as int) =~= tail);
        lemma_decode_step_field(d.sequence_step, named);
        assert(decode_from(b, blank) == decode_from(tail, named));
    }
}

/// Reads the payload of the field `tag` of kind `wire` that starts at `at`
/// into the name and step read so far. Gives the name, the step and the
/// position behind the payload.
fn take_field(v: &[u8], at: usize, tag: u32, wire: u8, name: String, step: u32) -> (r: Option<
    (String, u32, usize),
>)
    requires
        at <= v.len(),
    ensures
        match read_field(
            tag as nat,
            wire as nat,
            v@.skip(at as int),
            DefinitionView { name: name@, sequence_step: step },
        ) {
            Some((next, m)) => r is Some && r->Some_0.0@ == next.name && r->Some_0.1
                == next.sequence_step && r->Some_0.2 == at + m && at + m <= v.len(),
            None => r is None,
        },
{
    let ghost payload = v@.skip(at as int);
    proof {
        lemma_read_field_bounds(
            tag as nat,
            wire as nat,
            payload,
            DefinitionView { name: name@, sequence_step: step },
        );
    }
    if tag == FIELD_NAME {
        if wire != WIRE_BYTES {
            return None;
        }
        match take_varint(v, at) {
            None => None,
            Some((len, start)) => {
                if len > (v.len() - start) as u64 {
                    return None;
                }
                let end: usize = start + len as usize;
                let raw = slice_to_vec(slice_subrange(v, start, end));
                assert(raw@ =~= payload.subrange(start - at, end - at));
                match string_from_utf8(raw) {
                    Some(text) => Some((text, step, end)),
                    None => None,
                }
            },
        }
    } else if tag == FIELD_STEP {
        if wire != WIRE_VARINT {
            return None;
        }
        match take_varint(v, at) {
            Some((value, end)) => Some((name, (value % 0x1_0000_0000) as u32, end)),
            None => None,
        }
    } else {
        match skip_field(v, at, wire, tag, SKIP_DEPTH) {
            Some(end) => Some((name, step, end)),
            None => None,
        }
    }
}

impl TableDefinition {
    /// The bytes of this definition's record.
    pub fn to_bytes(&self) -> (v: Vec<u8>)
        ensures
            v@ == record_bytes(self@),
    {
        let mut v: Vec<u8> = Vec::new();
        let text = self.name.as_str().as_bytes();
        if text.len() != 0 {
            v.push(KEY_NAME);
            put_varint(&mut v, text.len() as u64);
            put_bytes(&mut v, text);
        }
        proof {
            if self.name@.len() == 0 {
                assert(self.name@ =~= Seq::<char>::empty());
                assert(encode_utf8(self.name@).len() == 0);
            } else {
                assert(encode_utf8(self.name@).len() > 0);
            }
            assert(v@ =~= name_field(self.name@));
        }
        if self.sequence_step != 0 {
            v.push(KEY_STEP);
            put_varint(&mut v, self.sequence_step as u64);
        }
        assert(v@ =~= record_bytes(self@));
        v
    }

    /// Reads a definition from the bytes of a record. Fails exactly where
    /// the bytes are no record.
    pub fn from_bytes(v: &[u8]) -> (r: Result<TableDefinition, TableError>)
        ensures
            match decoded(v@) {
                Some(d) => r is Ok && r->Ok_0@ == d,
                None => r == Err::<TableDefinition, TableError>(TableError::InvalidDefinition),
            },
    {
        let mut name = String::new();
        let mut step: u32 = 0;
        let mut pos: usize = 0;
        assert(v@.skip(0) =~= v@);
        while pos < v.len()
            invariant
                pos <= v.len(),
                decoded(v@) == decode_from(
                    v@.skip(pos as int),
                    DefinitionView { name: name@, sequence_step: step },
                ),
            decreases v.len() - pos,
        {
            let ghost here = v@.skip(pos as int);
            let (tag, wire, at) = match take_key(v, pos) {
                Some(key) => key,
                None => {
                    return Err(TableError::InvalidDefinition);
                },
            };
            assert(here.skip(at - pos) =~= v@.skip(at as int));
            match take_field(v, at, tag, wire, name, step) {
                Some((next_name, next_step, end)) => {
                    assert(here.skip(end - pos) =~= v@.skip(end as int));
                    name = next_name;
                    step = next_step;
                    pos = end;
                },
                None => {
                    return Err(TableError::InvalidDefinition);
                },
            }
        }
        Ok(TableDefinition { name, sequence_step: step })
    }
}

} // verus!
