//! The wire format of persisted records: base-128 varints and field keys.
//!
//! A record is a sequence of fields. Each field starts with a key, a varint
//! that holds the field's number and the kind of its payload. The payload is
//! a varint, a fixed run of four or eight bytes, or a length followed by
//! that many bytes.

use vstd::prelude::*;

verus! {

/// Payload kind: a varint.
pub const WIRE_VARINT: u8 = 0;

/// Payload kind: eight bytes.
pub const WIRE_FIXED64: u8 = 1;

/// Payload kind: a varint length, then that many bytes.
pub const WIRE_BYTES: u8 = 2;

/// Payload kind: four bytes.
pub const WIRE_FIXED32: u8 = 5;

/// A varint takes at most this many bytes.
pub const VARINT_MAX_BYTES: u8 = 10;

/// The bytes that encode `v`: seven bits a byte, least significant group
/// first, the top bit of a byte set when another byte follows.
pub open spec fn varint(v: nat) -> Seq<u8>
    decreases v,
{
    if v < 128 {
        seq![v as u8]
    } else {
        seq![(v % 128 + 128) as u8] + varint(v / 128)
    }
}

/// One more than the largest value that a varint of at most `budget` bytes
/// may hold, where the varint ends no later than the tenth byte of a
/// 64-bit value: the tenth byte contributes a single bit.
pub open spec fn varint_limit(budget: nat) -> nat
    decreases budget,
{
    if budget == 0 {
        1
    } else if budget == 1 {
        2
    } else {
        128 * varint_limit((budget - 1) as nat)
    }
}

/// Reads a varint from the front of `b`, using at most `budget` bytes of
/// which the last may contribute one bit. Gives the value and the number of
/// bytes read, or `None` where `b` ends first, the budget runs out, or the
/// last byte allowed holds more than one bit.
pub open spec fn varint_prefix(b: Seq<u8>, budget: nat) -> Option<(nat, nat)>
    decreases budget,
{
    if budget == 0 || b.len() == 0 {
        None
    } else if b[0] < 128 {
        if budget == 1 && b[0] >= 2 {
            None
        } else {
            Some((b[0] as nat, 1nat))
        }
    } else {
        match varint_prefix(b.skip(1), (budget - 1) as nat) {
            Some((v, n)) => Some(((b[0] - 128 + 128 * v) as nat, n + 1)),
            None => None,
        }
    }
}

/// Reads a 64-bit varint from the front of `b`: its value and its length.
pub open spec fn read_varint(b: Seq<u8>) -> Option<(nat, nat)> {
    varint_prefix(b, 10)
}

/// The limits of the budgets in use, as numbers.
pub proof fn lemma_varint_limit_values()
    ensures
        varint_limit(10) == 0x1_0000_0000_0000_0000,
        forall|k: nat| 1 <= k <= 9 ==> 2 <= #[trigger] varint_limit(k) <= 0x200_0000_0000_0000,
{
    reveal_with_fuel(varint_limit, 11);
    assert(varint_limit(1) == 2);
    assert(varint_limit(2) == 0x100);
    assert(varint_limit(3) == 0x8000);
    assert(varint_limit(4) == 0x40_0000);
    assert(varint_limit(5) == 0x2000_0000);
    assert(varint_limit(6) == 0x10_0000_0000);
    assert(varint_limit(7) == 0x800_0000_0000);
    assert(varint_limit(8) == 0x4_0000_0000_0000);
    assert(varint_limit(9) == 0x200_0000_0000_0000);
    assert(varint_limit(10) == 0x1_0000_0000_0000_0000);
    assert forall|k: nat| 1 <= k <= 9 implies 2 <= #[trigger] varint_limit(k)
        <= 0x200_0000_0000_0000 by {
        assert(k == 1 || k == 2 || k == 3 || k == 4 || k == 5 || k == 6 || k == 7 || k == 8 || k
            == 9);
    }
}

/// A varint that was read is at least one byte long, lies within the bytes
/// and the budget, and its value is below the budget's limit.
pub proof fn lemma_varint_prefix_bounds(b: Seq<u8>, budget: nat)
    ensures
        match varint_prefix(b, budget) {
            Some((v, n)) => 1 <= n <= budget && n <= b.len() && v < varint_limit(budget),
            None => true,
        },
    decreases budget,
{
    if budget == 0 || b.len() == 0 {
    } else if b[0] < 128 {
        if budget >= 2 {
            lemma_varint_limit_grows((budget - 1) as nat);
        }
    } else {
        lemma_varint_prefix_bounds(b.skip(1), (budget - 1) as nat);
        if budget == 1 {
        } else {
            match varint_prefix(b.skip(1), (budget - 1) as nat) {
                Some((v, n)) => {
                    assert(v + 1 <= varint_limit((budget - 1) as nat));
                    assert(128 * (v + 1) <= 128 * varint_limit((budget - 1) as nat))
                        by (nonlinear_arith)
                        requires
                            v + 1 <= varint_limit((budget - 1) as nat),
                    ;
                },
                None => {},
            }
        }
    }
}

/// From one byte of budget on, the limit is at least two, and from two
/// bytes on at least 256.
pub proof fn lemma_varint_limit_grows(budget: nat)
    requires
        budget >= 1,
    ensures
        varint_limit(budget) >= 2,
        budget >= 2 ==> varint_limit(budget) >= 256,
    decreases budget,
{
    if budget >= 2 {
        lemma_varint_limit_grows((budget - 1) as nat);
    }
}

/// The length of an encoded varint is between one and ten bytes for a
/// 64-bit value.
pub proof fn lemma_varint_len(v: nat, budget: nat)
    requires
        1 <= budget,
        v < varint_limit(budget),
    ensures
        1 <= varint(v).len() <= budget,
    decreases v,
{
    if v < 128 {
    } else {
        if budget == 1 {
            assert(false);
        } else {
            assert(v / 128 < varint_limit((budget - 1) as nat)) by (nonlinear_arith)
                requires
                    v < 128 * varint_limit((budget - 1) as nat),
            ;
            lemma_varint_len(v / 128, (budget - 1) as nat);
        }
    }
}

/// Reading gives back what was written: a varint followed by any bytes
/// reads as its value and its own length.
pub proof fn lemma_varint_round_trip(v: nat, rest: Seq<u8>, budget: nat)
    requires
        1 <= budget,
        v < varint_limit(budget),
    ensures
        varint_prefix(varint(v) + rest, budget) == Some((v, varint(v).len())),
    decreases v,
{
    let b = varint(v) + rest;
    if v < 128 {
        assert(b[0] == v as u8);
    } else {
        assert(budget >= 2);
        let tail = varint(v / 128);
        assert(b[0] == (v % 128 + 128) as u8);
        assert(b.skip(1) =~= tail + rest);
        assert(v / 128 < varint_limit((budget - 1) as nat)) by (nonlinear_arith)
            requires
                v < 128 * varint_limit((budget - 1) as nat),
        ;
        lemma_varint_round_trip(v / 128, rest, (budget - 1) as nat);
        assert(v % 128 + 128 * (v / 128) == v) by (nonlinear_arith);
    }
}

/// Appends the varint of `v` to `buf`.
pub fn put_varint(buf: &mut Vec<u8>, v: u64)
    ensures
        final(buf)@ == old(buf)@ + varint(v as nat),
{
    let mut rest: u64 = v;
    let ghost written: Seq<u8> = Seq::empty();
    assert(old(buf)@ + written =~= old(buf)@);
    while rest >= 128
        invariant
            buf@ == old(buf)@ + written,
            written + varint(rest as nat) == varint(v as nat),
        decreases rest,
    {
        let byte: u8 = (rest % 128 + 128) as u8;
        buf.push(byte);
        proof {
            assert(written.push(byte) + varint((rest / 128) as nat) =~= written + varint(
                rest as nat,
            ));
            assert(buf@ =~= old(buf)@ + written.push(byte));
            written = written.push(byte);
        }
        rest = rest / 128;
    }
    buf.push(rest as u8);
    assert(buf@ =~= old(buf)@ + (written + varint(rest as nat)));
}

/// Reads a varint of at most `budget` bytes at `pos`. Gives the value and
/// the position behind it.
fn take_varint_within(b: &[u8], pos: usize, budget: u8) -> (r: Option<(u64, usize)>)
    requires
        pos <= b.len(),
        budget <= 10,
    ensures
        match varint_prefix(b@.skip(pos as int), budget as nat) {
            Some((v, n)) => r == Some((v as u64, (pos + n) as usize)) && v <= u64::MAX && pos + n
                <= b.len(),
            None => r is None,
        },
    decreases budget,
{
    if budget == 0 || pos >= b.len() {
        return None;
    }
    let byte: u8 = b[pos];
    proof {
        lemma_varint_limit_values();
        lemma_varint_prefix_bounds(b@.skip(pos as int), budget as nat);
        assert(b@.skip(pos as int)[0] == byte);
        assert(b@.skip(pos as int).skip(1) =~= b@.skip(pos + 1));
    }
    if byte < 128 {
        if budget == 1 && byte >= 2 {
            None
        } else {
            Some((byte as u64, pos + 1))
        }
    } else {
        match take_varint_within(b, pos + 1, budget - 1) {
            Some((tail, end)) => {
                proof {
                    lemma_varint_prefix_bounds(b@.skip(pos + 1), (budget - 1) as nat);
                }
                let low: u64 = (byte - 128) as u64;
                Some((low + 128 * tail, end))
            },
            None => None,
        }
    }
}

/// Reads a 64-bit varint at `pos`. Gives the value and the position behind
/// it, or `None` where no well-formed varint starts there.
pub fn take_varint(b: &[u8], pos: usize) -> (r: Option<(u64, usize)>)
    requires
        pos <= b.len(),
    ensures
        match read_varint(b@.skip(pos as int)) {
            Some((v, n)) => r == Some((v as u64, (pos + n) as usize)) && v <= u64::MAX && 1 <= n
                && pos + n <= b.len(),
            None => r is None,
        },
{
    proof {
        lemma_varint_prefix_bounds(b@.skip(pos as int), 10);
    }
    take_varint_within(b, pos, VARINT_MAX_BYTES)
}

/// Appends `src` to `buf`.
pub fn put_bytes(buf: &mut Vec<u8>, src: &[u8])
    ensures
        final(buf)@ == old(buf)@ + src@,
{
    let mut i: usize = 0;
    assert(buf@ =~= old(buf)@ + src@.take(0));
    while i < src.len()
        invariant
            i <= src.len(),
            buf@ == old(buf)@ + src@.take(i as int),
        decreases src.len() - i,
    {
        buf.push(src[i]);
        assert(buf@ =~= old(buf)@ + src@.take(i + 1));
        i = i + 1;
    }
    assert(src@.take(i as int) =~= src@);
}

/// Tells whether two byte strings are the same.
pub fn same_bytes(a: &[u8], b: &[u8]) -> (r: bool)
    ensures
        r == (a@ == b@),
{
    if a.len() != b.len() {
        return false;
    }
    let mut i: usize = 0;
    while i < a.len()
        invariant
            i <= a.len(),
            a.len() == b.len(),
            forall|j: int| 0 <= j < i ==> a@[j] == b@[j],
        decreases a.len() - i,
    {
        if a[i] != b[i] {
            return false;
        }
        i = i + 1;
    }
    assert(a@ =~= b@);
    true
}

/// Payload kind: the start of a group of fields.
pub const WIRE_GROUP_START: u8 = 3;

/// Payload kind: the end of a group of fields.
pub const WIRE_GROUP_END: u8 = 4;

/// How deep groups may nest inside a field that is passed over.
pub const SKIP_DEPTH: u32 = 100;

/// Reads a field key from the front of `b`: the field's number, the kind
/// of its payload and the key's length. A key is a varint that fits 32
/// bits; its low three bits are the kind, at most 5, the rest is the
/// number, at least 1.
pub open spec fn read_key(b: Seq<u8>) -> Option<(nat, nat, nat)> {
    match read_varint(b) {
        Some((key, n)) => if key <= u32::MAX && key % 8 <= 5 && key / 8 >= 1 {
            Some((key / 8, key % 8, n))
        } else {
            None
        },
        None => None,
    }
}

/// The length of the payload of a field that is passed over, where `b`
/// starts behind the field's key. A group is passed over field by field up
/// to its end key, which must carry the group's own number; groups nest at
/// most `depth` deep.
pub open spec fn skip_len(wire: nat, tag: nat, b: Seq<u8>, depth: nat) -> Option<nat>
    decreases depth, b.len(), 1nat,
{
    if depth == 0 {
        None
    } else if wire == 0 {
        match read_varint(b) {
            Some((_, n)) => Some(n),
            None => None,
        }
    } else if wire == 1 {
        if b.len() >= 8 {
            Some(8nat)
        } else {
            None
        }
    } else if wire == 5 {
        if b.len() >= 4 {
            Some(4nat)
        } else {
            None
        }
    } else if wire == 2 {
        match read_varint(b) {
            Some((len, n)) => if n + len <= b.len() {
                Some(n + len)
            } else {
                None
            },
            None => None,
        }
    } else if wire == 3 {
        group_len(tag, b, depth)
    } else {
        None
    }
}

/// The length of the fields of group `tag` from the front of `b` up to and
/// including the group's end key.
pub open spec fn group_len(tag: nat, b: Seq<u8>, depth: nat) -> Option<nat>
    decreases depth, b.len(), 0nat,
{
    match read_key(b) {
        None => None,
        Some((inner_tag, inner_wire, n)) => if inner_wire == 4 {
            if inner_tag == tag {
                Some(n)
            } else {
                None
            }
        } else if depth == 0 {
            None
        } else {
            match skip_len(inner_wire, inner_tag, b.skip(n as int), (depth - 1) as nat) {
                None => None,
                Some(m) => if 1 <= n && n + m <= b.len() {
                    match group_len(tag, b.skip((n + m) as int), depth) {
                        Some(k) => Some(n + m + k),
                        None => None,
                    }
                } else {
                    None
                },
            }
        },
    }
}

/// A key that was read is at least one byte long and lies within the bytes.
pub proof fn lemma_read_key_bounds(b: Seq<u8>)
    ensures
        match read_key(b) {
            Some((tag, wire, n)) => 1 <= n <= b.len() && 1 <= tag <= 0x1fff_ffff && wire <= 5,
            None => true,
        },
{
    lemma_varint_prefix_bounds(b, 10);
}

/// A payload that was passed over lies within the bytes.
pub proof fn lemma_skip_len_bounds(wire: nat, tag: nat, b: Seq<u8>, depth: nat)
    ensures
        match skip_len(wire, tag, b, depth) {
            Some(m) => m <= b.len(),
            None => true,
        },
    decreases depth, b.len(), 1nat,
{
    if depth == 0 {
    } else if wire == 0 || wire == 2 {
        lemma_varint_prefix_bounds(b, 10);
    } else if wire == 3 {
        lemma_group_len_bounds(tag, b, depth);
    }
}

/// A group that was passed over lies within the bytes.
pub proof fn lemma_group_len_bounds(tag: nat, b: Seq<u8>, depth: nat)
    ensures
        match group_len(tag, b, depth) {
            Some(k) => 1 <= k <= b.len(),
            None => true,
        },
    decreases depth, b.len(), 0nat,
{
    lemma_read_key_bounds(b);
    match read_key(b) {
        None => {},
        Some((inner_tag, inner_wire, n)) => {
            if inner_wire != 4 && depth != 0 {
                lemma_skip_len_bounds(inner_wire, inner_tag, b.skip(n as int), (depth - 1) as nat);
                match skip_len(inner_wire, inner_tag, b.skip(n as int), (depth - 1) as nat) {
                    None => {},
                    Some(m) => {
                        if 1 <= n && n + m <= b.len() {
                            lemma_group_len_bounds(tag, b.skip((n + m) as int), depth);
                        }
                    },
                }
            }
        },
    }
}

/// Reads a field key at `pos`. Gives the field's number, the kind of its
/// payload and the position behind the key.
pub fn take_key(b: &[u8], pos: usize) -> (r: Option<(u32, u8, usize)>)
    requires
        pos <= b.len(),
    ensures
        match read_key(b@.skip(pos as int)) {
            Some((tag, wire, n)) => r == Some((tag as u32, wire as u8, (pos + n) as usize)) && 1
                <= tag <= 0x1fff_ffff && wire <= 5 && 1 <= n && pos + n <= b.len(),
            None => r is None,
        },
{
    proof {
        lemma_read_key_bounds(b@.skip(pos as int));
    }
    match take_varint(b, pos) {
        Some((key, end)) => {
            if key > 0xffff_ffff || key % 8 > 5 || key / 8 < 1 {
                None
            } else {
                Some(((key / 8) as u32, (key % 8) as u8, end))
            }
        },
        None => None,
    }
}

/// Passes over the payload of a field of kind `wire` and number `tag` that
/// starts at `pos`. Gives the position behind it.
pub fn skip_field(b: &[u8], pos: usize, wire: u8, tag: u32, depth: u32) -> (r: Option<usize>)
    requires
        pos <= b.len(),
    ensures
        match skip_len(wire as nat, tag as nat, b@.skip(pos as int), depth as nat) {
            Some(m) => r == Some((pos + m) as usize) && pos + m <= b.len(),
            None => r is None,
        },
    decreases depth,
{
    let ghost rest = b@.skip(pos as int);
    proof {
        lemma_skip_len_bounds(wire as nat, tag as nat, rest, depth as nat);
    }
    if depth == 0 {
        None
    } else if wire == WIRE_VARINT {
        match take_varint(b, pos) {
            Some((_, end)) => Some(end),
            None => None,
        }
    } else if wire == WIRE_FIXED64 {
        if b.len() - pos >= 8 {
            Some(pos + 8)
        } else {
            None
        }
    } else if wire == WIRE_FIXED32 {
        if b.len() - pos >= 4 {
            Some(pos + 4)
        } else {
            None
        }
    } else if wire == WIRE_BYTES {
        match take_varint(b, pos) {
            Some((len, start)) => {
                if len <= (b.len() - start) as u64 {
                    Some(start + len as usize)
                } else {
                    None
                }
            },
            None => None,
        }
    } else if wire == WIRE_GROUP_START {
        let mut at: usize = pos;
        loop
            invariant
                0 < depth,
                wire == WIRE_GROUP_START,
                pos <= at <= b.len(),
                rest == b@.skip(pos as int),
                group_len(tag as nat, rest, depth as nat) == match group_len(
                    tag as nat,
                    b@.skip(at as int),
                    depth as nat,
                ) {
                    Some(k) => Some((at - pos + k) as nat),
                    None => None,
                },
            decreases b.len() - at,
        {
            let ghost here = b@.skip(at as int);
            proof {
                lemma_read_key_bounds(here);
                lemma_group_len_bounds(tag as nat, here, depth as nat);
            }
            match take_key(b, at) {
                None => {
                    return None;
                },
                Some((inner_tag, inner_wire, behind_key)) => {
                    if inner_wire == WIRE_GROUP_END {
                        if inner_tag == tag {
                            return Some(behind_key);
                        } else {
                            return None;
                        }
                    }
                    assert(here.skip(behind_key - at) =~= b@.skip(behind_key as int));
                    match skip_field(b, behind_key, inner_wire, inner_tag, depth - 1) {
                        None => {
                            return None;
                        },
                        Some(next) => {
                            assert(here.skip(next - at) =~= b@.skip(next as int));
                            at = next;
                        },
                    }
                },
            }
        }
    } else {
        None
    }
}

} // verus!
