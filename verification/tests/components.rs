use string_store::{
    get_data_requirement, parse_kind, parse_schema, rewrite_get_data_requirement, CharByteSegment,
    DataKind, StoreError,
};

#[test]
fn requirement_of_single_byte_schema() {
    assert_eq!(get_data_requirement(&[8], &[127]), Ok((1, 8)));
}

#[test]
fn requirement_counts_nullable_as_one_bit() {
    // marker contributes 1 bit, its count entry none, the payload its widths
    assert_eq!(get_data_requirement(&[0, 2, 8, 8], &[0]), Ok((1, 17)));
}

#[test]
fn requirement_rounds_characters_up() {
    // 19 bits fit one character, 24 need two
    assert_eq!(get_data_requirement(&[8, 8, 2, 1], &[1]), Ok((1, 19)));
    assert_eq!(get_data_requirement(&[8, 8, 8], &[1]), Ok((2, 24)));
}

#[test]
fn requirement_rejects_bad_inputs() {
    assert_eq!(get_data_requirement(&[8], &[]), Err(StoreError::EmptyBuffer));
    assert_eq!(get_data_requirement(&[], &[1]), Err(StoreError::EmptySchema));
    assert_eq!(
        get_data_requirement(&[8, 3], &[1]),
        Err(StoreError::UnsupportedBitCount)
    );
}

#[test]
fn rewrite_requirement_mirrors_requirement() {
    assert_eq!(rewrite_get_data_requirement(&[8, 8, 8], &[1]), Ok((2, 24)));
    assert_eq!(
        rewrite_get_data_requirement(&[8], &[]),
        Err(StoreError::EmptyBuffer)
    );
}

#[test]
fn parse_schema_reads_tagged_kinds() {
    let parsed = parse_schema(&[1, 8, 0, 3, 2, 4]).unwrap();
    assert_eq!(
        parsed,
        vec![
            DataKind::Normal(8),
            DataKind::Nullable,
            DataKind::Dynamic,
            DataKind::Fixed(4)
        ]
    );
}

#[test]
fn parse_schema_rejects_unknown_kind() {
    assert_eq!(parse_schema(&[5]), Err(StoreError::UnknownFieldKind));
}

#[test]
fn parse_schema_rejects_missing_parameter() {
    assert_eq!(parse_schema(&[1]), Err(StoreError::MissingFieldParameter));
    assert_eq!(parse_schema(&[0, 2]), Err(StoreError::MissingFieldParameter));
}

#[test]
fn parse_kind_consumes_parameter() {
    let schema = [1, 8];
    let mut index = 1;
    let kind = parse_kind(&schema, &mut index, schema[0]).unwrap();
    assert_eq!(kind, DataKind::Normal(8));
    assert_eq!(index, 2);
}

#[test]
fn data_kind_bits_and_offsets() {
    assert_eq!(DataKind::Nullable.get_bits_n_offset(), (1, 0));
    assert_eq!(DataKind::Normal(8).get_bits_n_offset(), (8, 7));
    assert_eq!(DataKind::Normal(4).get_bits_n_offset(), (4, 4));
    assert_eq!(DataKind::Dynamic.get_bits_n_offset(), (8, 7));
    assert_eq!(DataKind::Fixed(2).get_bits_n_offset(), (16, 7));
}

#[test]
fn data_kind_from_selector_byte() {
    assert_eq!(DataKind::from_byte(0), Ok(DataKind::Nullable));
    assert_eq!(DataKind::from_byte(1), Ok(DataKind::Normal(0)));
    assert_eq!(DataKind::from_byte(2), Ok(DataKind::Fixed(0)));
    assert_eq!(DataKind::from_byte(3), Ok(DataKind::Dynamic));
    assert_eq!(DataKind::from_byte(4), Err(StoreError::UnknownFieldKind));
}

#[test]
fn char_byte_segment_masks() {
    assert_eq!(CharByteSegment::Start.get_value(), (0b1111_0010, 1));
    assert_eq!(CharByteSegment::FirstContinuation.get_value(), (0b1000_0000, 6));
}

#[test]
fn char_byte_segment_cycles() {
    let mut segment = CharByteSegment::Start;
    assert_eq!(segment.next(), (0xF2, 1));
    assert_eq!(segment.next(), (0x80, 6));
    assert_eq!(segment.next(), (0x80, 6));
    assert_eq!(segment.next(), (0x80, 6));
    assert_eq!(segment, CharByteSegment::Start);
}

#[test]
fn error_messages() {
    assert_eq!(StoreError::EmptyBuffer.message(), "Received empty buffer");
    assert_eq!(StoreError::EmptySchema.message(), "Received 0 sized schema");
    assert_eq!(
        StoreError::UnsupportedBitCount.message(),
        "Received unsupported bit count from schema"
    );
    assert_eq!(StoreError::InvalidEncoding.message(), "Buffer has invalid data");
}
