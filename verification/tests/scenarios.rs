use string_store::{Deserializer, Serializer, StoreError};

#[test]
fn single_byte_wire_image() {
    let serializer = Serializer::new(vec![8]);
    let text = serializer.serialize(vec![127]).unwrap();
    assert_eq!(text.as_bytes(), &[0xF2, 0xBF, 0xA0, 0x80]);

    let deserializer = Deserializer::new(vec![8]).unwrap();
    let decoded = deserializer
        .deserialize(vec![0xF2, 0xBF, 0xA0, 0x80])
        .unwrap();
    assert_eq!(decoded, vec![127]);
}

#[test]
fn nullable_null_branch_expands_placeholders() {
    let schema = vec![0, 2, 8, 8];
    let serializer = Serializer::new(schema.clone());
    let text = serializer.serialize(vec![0]).unwrap();

    let deserializer = Deserializer::new(schema).unwrap();
    let decoded = deserializer.deserialize(text.as_bytes().to_vec()).unwrap();
    assert_eq!(decoded, vec![0, 0, 0]);
}

#[test]
fn nullable_non_null_branch_round_trips() {
    let schema = vec![0, 2, 8, 8];
    let serializer = Serializer::new(schema.clone());
    let text = serializer.serialize(vec![1, 1, 244]).unwrap();

    let deserializer = Deserializer::new(schema).unwrap();
    let decoded = deserializer.deserialize(text.as_bytes().to_vec()).unwrap();
    assert_eq!(decoded, vec![1, 1, 244]);
    assert_eq!(u16::from_be_bytes([decoded[1], decoded[2]]), 500);
}

#[test]
fn invalid_lead_byte_is_rejected() {
    let deserializer = Deserializer::new(vec![8]).unwrap();
    // 0x71 lacks the 0xF2 lead prefix
    let result = deserializer.deserialize(vec![0x71, 0x80, 0x80, 0x80]);
    assert_eq!(result, Err(StoreError::InvalidEncoding));
}

#[test]
fn invalid_continuation_byte_is_rejected() {
    let deserializer = Deserializer::new(vec![8]).unwrap();
    // 0x41 lacks the 0x80 continuation prefix
    let result = deserializer.deserialize(vec![0xF2, 0x41, 0x80, 0x80]);
    assert_eq!(result, Err(StoreError::InvalidEncoding));
}

#[test]
fn empty_buffer_is_rejected() {
    let serializer = Serializer::new(vec![8]);
    assert_eq!(serializer.serialize(vec![]), Err(StoreError::EmptyBuffer));

    let deserializer = Deserializer::new(vec![8]).unwrap();
    assert_eq!(deserializer.deserialize(vec![]), Err(StoreError::EmptyBuffer));
}

#[test]
fn empty_schema_is_rejected() {
    let serializer = Serializer::new(vec![]);
    assert_eq!(serializer.serialize(vec![1]), Err(StoreError::EmptySchema));

    let deserializer = Deserializer::new(vec![]).unwrap();
    assert_eq!(deserializer.deserialize(vec![1]), Err(StoreError::EmptySchema));
}

#[test]
fn unsupported_bit_count_is_rejected() {
    let serializer = Serializer::new(vec![3]);
    assert_eq!(
        serializer.serialize(vec![1]),
        Err(StoreError::UnsupportedBitCount)
    );

    assert_eq!(
        Deserializer::new(vec![3]).err(),
        Some(StoreError::UnsupportedBitCount)
    );
}

#[test]
fn round_trip_mixed_widths() {
    let schema = vec![1, 2, 4, 8];
    let buffer = vec![1, 3, 15, 255];
    let serializer = Serializer::new(schema.clone());
    let text = serializer.serialize(buffer.clone()).unwrap();

    let deserializer = Deserializer::new(schema).unwrap();
    let decoded = deserializer.deserialize(text.as_bytes().to_vec()).unwrap();
    assert_eq!(decoded, buffer);
}

#[test]
fn encode_is_deterministic() {
    let serializer_one = Serializer::new(vec![8, 4, 0, 1, 2]);
    let serializer_two = Serializer::new(vec![8, 4, 0, 1, 2]);
    let buffer = vec![9, 7, 1, 1];
    let first = serializer_one.serialize(buffer.clone()).unwrap();
    let second = serializer_two.serialize(buffer).unwrap();
    assert_eq!(first, second);
}

#[test]
fn encoded_text_is_valid_utf8_in_range() {
    // 89 required bits: five characters, twenty wire bytes
    let schema = [vec![8; 8], vec![0, 2, 8, 8], vec![8]].concat();
    let buffer = [vec![4, 89, 105, 112, 112, 101, 101, 33, 1], vec![1, 244, 69]].concat();
    let serializer = Serializer::new(schema);
    let text = serializer.serialize(buffer).unwrap();
    assert_eq!(text.chars().count(), 5);
    assert_eq!(text.len(), 20);
    for code_point in text.chars() {
        let value = code_point as u32;
        assert!((0x10000..=0x10FFFF).contains(&value));
    }
}

#[test]
fn bit_exhaustion_leaves_partial_high_bits() {
    // one character carries 19 one-bits; a schema of three byte-wide slots
    // wants 24, so the last byte keeps only its three high bits
    let deserializer = Deserializer::new(vec![8, 8, 8]).unwrap();
    let decoded = deserializer
        .deserialize(vec![0xF3, 0xBF, 0xBF, 0xBF])
        .unwrap();
    assert_eq!(decoded, vec![255, 255, 0b1110_0000]);
}

#[test]
fn schema_exhaustion_stops_reconstruction() {
    // the wire carries more bits than the single one-bit slot takes
    let deserializer = Deserializer::new(vec![1]).unwrap();
    let decoded = deserializer
        .deserialize(vec![0xF3, 0xBF, 0xBF, 0xBF])
        .unwrap();
    assert_eq!(decoded, vec![1]);
}

#[test]
fn nonzero_presence_flag_decodes_as_one() {
    // a nullable field with an empty payload: any nonzero flag byte comes
    // back as 1
    let schema = vec![0, 0];
    let serializer = Serializer::new(schema.clone());
    let text = serializer.serialize(vec![7]).unwrap();
    let deserializer = Deserializer::new(schema).unwrap();
    let decoded = deserializer.deserialize(text.as_bytes().to_vec()).unwrap();
    assert_eq!(decoded, vec![1]);
}
