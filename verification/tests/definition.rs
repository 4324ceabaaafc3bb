use prost::Message;
use table_db::definition::TableDefinition;
use table_db::error::TableError;

/// The same record, written and read by the protobuf library itself.
#[derive(Debug, Default, Clone, PartialEq)]
struct Mirror {
    name: String,
    sequence_step: u32,
}

impl Message for Mirror {
    fn encode_raw<B>(&self, buf: &mut B)
    where
        B: prost::bytes::BufMut,
    {
        if !self.name.is_empty() {
            prost::encoding::string::encode(1, &self.name, buf);
        }
        if self.sequence_step != 0 {
            prost::encoding::uint32::encode(2, &self.sequence_step, buf);
        }
    }

    fn merge_field<B>(
        &mut self,
        tag: u32,
        wire_type: prost::encoding::WireType,
        buf: &mut B,
        ctx: prost::encoding::DecodeContext,
    ) -> Result<(), prost::DecodeError>
    where
        B: prost::bytes::Buf,
    {
        match tag {
            1 => prost::encoding::string::merge(wire_type, &mut self.name, buf, ctx),
            2 => prost::encoding::uint32::merge(wire_type, &mut self.sequence_step, buf, ctx),
            _ => prost::encoding::skip_field(wire_type, tag, buf, ctx),
        }
    }

    fn encoded_len(&self) -> usize {
        let mut len = 0;
        if !self.name.is_empty() {
            len += prost::encoding::string::encoded_len(1, &self.name);
        }
        if self.sequence_step != 0 {
            len += prost::encoding::uint32::encoded_len(2, &self.sequence_step);
        }
        len
    }

    fn clear(&mut self) {
        self.name.clear();
        self.sequence_step = 0;
    }
}

fn definition(name: &str, sequence_step: u32) -> TableDefinition {
    TableDefinition { name: name.to_string(), sequence_step }
}

fn mirror_bytes(name: &str, sequence_step: u32) -> Vec<u8> {
    Mirror { name: name.to_string(), sequence_step }.encode_to_vec()
}

fn same_reading(bytes: &[u8]) {
    let ours = TableDefinition::from_bytes(bytes);
    let theirs = Mirror::decode(bytes);
    match (ours, theirs) {
        (Ok(d), Ok(m)) => {
            assert_eq!(d.name, m.name, "name of {:?}", bytes);
            assert_eq!(d.sequence_step, m.sequence_step, "step of {:?}", bytes);
        }
        (Err(e), Err(_)) => assert_eq!(e, TableError::InvalidDefinition),
        (ours, theirs) => panic!("{:?}: {:?} against {:?}", bytes, ours, theirs),
    }
}

#[test]
fn record_of_name_and_step() {
    let d = definition("orders", 10);
    assert_eq!(d.to_bytes(), vec![10, 6, b'o', b'r', b'd', b'e', b'r', b's', 16, 10]);
}

#[test]
fn record_of_nothing_is_empty() {
    assert_eq!(definition("", 0).to_bytes(), Vec::<u8>::new());
    assert_eq!(TableDefinition::from_bytes(&[]), Ok(definition("", 0)));
}

#[test]
fn record_without_sequence_has_no_step_field() {
    assert_eq!(definition("a", 0).to_bytes(), vec![10, 1, b'a']);
}

#[test]
fn record_without_name_has_no_name_field() {
    assert_eq!(definition("", 300).to_bytes(), vec![16, 0xac, 0x02]);
}

#[test]
fn record_of_largest_step() {
    let bytes = definition("t", u32::MAX).to_bytes();
    assert_eq!(bytes, vec![10, 1, b't', 16, 0xff, 0xff, 0xff, 0xff, 0x0f]);
    assert_eq!(TableDefinition::from_bytes(&bytes), Ok(definition("t", u32::MAX)));
}

#[test]
fn record_reads_back() {
    for name in ["", "a", "orders", "naïve ключ 表", "x".repeat(300).as_str()] {
        for step in [0u32, 1, 100, 127, 128, 16_384, u32::MAX] {
            let d = definition(name, step);
            assert_eq!(TableDefinition::from_bytes(&d.to_bytes()), Ok(d));
        }
    }
}

#[test]
fn record_is_what_protobuf_writes() {
    for name in ["", "a", "orders", "naïve ключ 表", "y".repeat(200).as_str()] {
        for step in [0u32, 1, 100, 127, 128, 70_000, u32::MAX] {
            assert_eq!(definition(name, step).to_bytes(), mirror_bytes(name, step));
        }
    }
}

#[test]
fn long_name_has_two_length_bytes() {
    let name = "n".repeat(200);
    let bytes = definition(&name, 0).to_bytes();
    assert_eq!(&bytes[..3], &[10, 0xc8, 0x01]);
    assert_eq!(bytes.len(), 203);
}

#[test]
fn truncated_record_is_refused() {
    assert_eq!(TableDefinition::from_bytes(&[10, 6, b'o']), Err(TableError::InvalidDefinition));
    assert_eq!(TableDefinition::from_bytes(&[10]), Err(TableError::InvalidDefinition));
    assert_eq!(TableDefinition::from_bytes(&[16]), Err(TableError::InvalidDefinition));
    assert_eq!(TableDefinition::from_bytes(&[16, 0x80]), Err(TableError::InvalidDefinition));
}

#[test]
fn name_that_is_not_utf8_is_refused() {
    assert_eq!(TableDefinition::from_bytes(&[10, 2, 0xff, 0xfe]), Err(TableError::InvalidDefinition));
    assert_eq!(TableDefinition::from_bytes(&[10, 1, 0x80]), Err(TableError::InvalidDefinition));
}

#[test]
fn field_of_the_wrong_kind_is_refused() {
    assert_eq!(TableDefinition::from_bytes(&[8, 1]), Err(TableError::InvalidDefinition));
    assert_eq!(TableDefinition::from_bytes(&[18, 1, b'a']), Err(TableError::InvalidDefinition));
}

#[test]
fn key_without_a_field_number_is_refused() {
    assert_eq!(TableDefinition::from_bytes(&[0, 0]), Err(TableError::InvalidDefinition));
    assert_eq!(TableDefinition::from_bytes(&[2, 0]), Err(TableError::InvalidDefinition));
}

#[test]
fn kinds_six_and_seven_are_refused() {
    assert_eq!(TableDefinition::from_bytes(&[30, 0]), Err(TableError::InvalidDefinition));
    assert_eq!(TableDefinition::from_bytes(&[31, 0]), Err(TableError::InvalidDefinition));
}

#[test]
fn later_field_wins() {
    let bytes = [10, 1, b'a', 16, 5, 10, 2, b'b', b'c', 16, 7];
    assert_eq!(TableDefinition::from_bytes(&bytes), Ok(definition("bc", 7)));
}

#[test]
fn step_keeps_its_low_32_bits() {
    // 2^32 + 5 as a varint
    let bytes = [16, 0x85, 0x80, 0x80, 0x80, 0x10];
    assert_eq!(TableDefinition::from_bytes(&bytes), Ok(definition("", 5)));
}

#[test]
fn unknown_fields_are_passed_over() {
    // field 3 varint, field 4 eight bytes, field 5 four bytes, field 6 bytes
    let mut bytes = vec![24, 0x96, 0x01];
    bytes.extend_from_slice(&[33, 1, 2, 3, 4, 5, 6, 7, 8]);
    bytes.extend_from_slice(&[45, 1, 2, 3, 4]);
    bytes.extend_from_slice(&[50, 3, 9, 9, 9]);
    bytes.extend_from_slice(&[10, 1, b'z', 16, 2]);
    assert_eq!(TableDefinition::from_bytes(&bytes), Ok(definition("z", 2)));
    same_reading(&bytes);
}

#[test]
fn unknown_group_is_passed_over() {
    // field 3 group holding a varint field and a nested group, then the step
    let bytes = [27, 8, 1, 35, 16, 2, 36, 28, 16, 9];
    assert_eq!(TableDefinition::from_bytes(&bytes), Ok(definition("", 9)));
    same_reading(&bytes);
}

#[test]
fn group_with_the_wrong_end_is_refused() {
    let bytes = [27, 8, 1, 36];
    assert_eq!(TableDefinition::from_bytes(&bytes), Err(TableError::InvalidDefinition));
    same_reading(&bytes);
    let open = [27, 8, 1];
    assert_eq!(TableDefinition::from_bytes(&open), Err(TableError::InvalidDefinition));
    same_reading(&open);
    let stray_end = [28];
    assert_eq!(TableDefinition::from_bytes(&stray_end), Err(TableError::InvalidDefinition));
    same_reading(&stray_end);
}

#[test]
fn groups_nest_a_hundred_deep_and_no_deeper() {
    let mut fits = Vec::new();
    for _ in 0..100 {
        fits.push(27);
    }
    for _ in 0..100 {
        fits.push(28);
    }
    assert_eq!(TableDefinition::from_bytes(&fits), Ok(definition("", 0)));
    same_reading(&fits);
    let mut deep = Vec::new();
    for _ in 0..101 {
        deep.push(27);
    }
    for _ in 0..101 {
        deep.push(28);
    }
    assert_eq!(TableDefinition::from_bytes(&deep), Err(TableError::InvalidDefinition));
    same_reading(&deep);
}

#[test]
fn varint_of_ten_bytes_may_hold_one_bit_in_the_last() {
    let most = [16, 0xff, 0xff, 0xff, 0xff, 0xff, 0xff, 0xff, 0xff, 0xff, 0x01];
    assert_eq!(TableDefinition::from_bytes(&most), Ok(definition("", u32::MAX)));
    same_reading(&most);
    let over = [16, 0xff, 0xff, 0xff, 0xff, 0xff, 0xff, 0xff, 0xff, 0xff, 0x02];
    assert_eq!(TableDefinition::from_bytes(&over), Err(TableError::InvalidDefinition));
    same_reading(&over);
    let eleven = [16, 0x80, 0x80, 0x80, 0x80, 0x80, 0x80, 0x80, 0x80, 0x80, 0x80, 0x00];
    assert_eq!(TableDefinition::from_bytes(&eleven), Err(TableError::InvalidDefinition));
    same_reading(&eleven);
}

#[test]
fn varint_with_spare_bytes_is_read() {
    let bytes = [16, 0x85, 0x80, 0x00];
    assert_eq!(TableDefinition::from_bytes(&bytes), Ok(definition("", 5)));
    same_reading(&bytes);
}

#[test]
fn reading_agrees_with_protobuf_on_made_up_bytes() {
    let mut state: u64 = 0x2545_f491_4f6c_dd1d;
    let mut next = move || {
        state ^= state << 13;
        state ^= state >> 7;
        state ^= state << 17;
        state
    };
    let pieces: [&[u8]; 14] = [
        &[10],
        &[16],
        &[24],
        &[27],
        &[28],
        &[33],
        &[45],
        &[50],
        &[0x80],
        &[1],
        &[2, b'h', b'i'],
        &[0xff],
        &[10, 3, b'a', b'b', b'c'],
        &[16, 0xac, 0x02],
    ];
    for _ in 0..20_000 {
        let mut bytes = Vec::new();
        let count = next() % 6;
        for _ in 0..count {
            let pick = next();
            if pick % 5 == 0 {
                bytes.push((pick >> 8) as u8);
            } else {
                bytes.extend_from_slice(pieces[(pick >> 8) as usize % pieces.len()]);
            }
        }
        same_reading(&bytes);
    }
}
