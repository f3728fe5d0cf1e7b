use geo_index::coord::CoordType;
use geo_index::error::GeoIndexError;
use geo_index::kdtree::{KDTreeBuilder, KDTreeRef};
use geo_index::layout::KDTreeMetadata;

fn build_bytes(n: u32, node_size: u16) -> Vec<u8> {
    let mut b = KDTreeBuilder::new(node_size);
    for i in 0..n {
        b.add(i as i32, (i as i32) * 2 - 7);
    }
    b.finish().into_inner()
}

#[test]
fn header_layout_is_byte_exact() {
    let bytes = build_bytes(5, 3);
    assert_eq!(bytes[0], 0xdb);
    // version 1 in the high nibble, the 32-bit signed tag in the low one
    assert_eq!(bytes[1], (1 << 4) | 5);
    assert_eq!(u16::from_le_bytes([bytes[2], bytes[3]]), 3);
    assert_eq!(
        u32::from_le_bytes([bytes[4], bytes[5], bytes[6], bytes[7]]),
        5
    );
    // 8 header + 10 index + 6 padding + 40 coordinates
    assert_eq!(bytes.len(), 8 + 10 + 6 + 40);
}

#[test]
fn index_width_switches_at_65536() {
    let narrow = KDTreeMetadata::new(65535, 16, CoordType::Int32);
    assert_eq!(narrow.index_entry_bytes(), 2);
    assert_eq!(narrow.indices_byte_size(), 2 * 65535);
    assert_eq!(narrow.pad_byte_size(), 2);
    assert_eq!(narrow.data_buffer_length(), 8 + 2 * 65535 + 2 + 8 * 65535);

    let wide = KDTreeMetadata::new(65536, 16, CoordType::Int32);
    assert_eq!(wide.index_entry_bytes(), 4);
    assert_eq!(wide.indices_byte_size(), 4 * 65536);
    assert_eq!(wide.pad_byte_size(), 0);
    assert_eq!(wide.data_buffer_length(), 8 + 4 * 65536 + 8 * 65536);
}

#[test]
fn built_buffers_use_the_width_rule() {
    let narrow = build_bytes(65535, 65535);
    assert_eq!(narrow.len(), 8 + 2 * 65535 + 2 + 8 * 65535);
    let wide = build_bytes(65536, 65535);
    assert_eq!(wide.len(), 8 + 4 * 65536 + 8 * 65536);
    // The wide buffer still opens and keeps every index.
    let r = KDTreeRef::try_new(&wide).unwrap();
    assert_eq!(r.num_items(), 65536);
    let mut ids: Vec<u32> = (0..65536).map(|i| r.index_at(i)).collect();
    ids.sort();
    assert!(ids.iter().enumerate().all(|(i, &v)| v == i as u32));
}

#[test]
fn truncated_buffer_is_a_length_mismatch() {
    let bytes = build_bytes(5, 3);
    let truncated = &bytes[..bytes.len() - 1];
    assert_eq!(
        KDTreeRef::try_new(&truncated).unwrap_err(),
        GeoIndexError::LengthMismatch
    );
}

#[test]
fn flipped_magic_byte_is_a_format_error() {
    let mut bytes = build_bytes(5, 3);
    bytes[0] = 0xaa;
    assert_eq!(
        KDTreeRef::try_new(&bytes).unwrap_err(),
        GeoIndexError::InvalidFormat
    );
}

#[test]
fn flipped_version_nibble_is_a_version_mismatch() {
    let mut bytes = build_bytes(5, 3);
    bytes[1] = (2 << 4) | 5;
    assert_eq!(
        KDTreeRef::try_new(&bytes).unwrap_err(),
        GeoIndexError::VersionMismatch
    );
}

#[test]
fn wrong_type_tag_is_a_type_mismatch() {
    let mut bytes = build_bytes(5, 3);
    // a buffer of 32-bit unsigned elements, opened as 32-bit signed
    bytes[1] = (1 << 4) | 6;
    assert_eq!(
        KDTreeRef::try_new(&bytes).unwrap_err(),
        GeoIndexError::TypeMismatch
    );
}

#[test]
fn empty_and_short_buffers_are_length_mismatches() {
    assert_eq!(
        KDTreeRef::try_new(&[]).unwrap_err(),
        GeoIndexError::LengthMismatch
    );
    // right magic, nothing more: the version field is missing
    assert_eq!(
        KDTreeRef::try_new(&[0xdb]).unwrap_err(),
        GeoIndexError::LengthMismatch
    );
    // right magic, version and type: the count fields are missing
    assert_eq!(
        KDTreeRef::try_new(&[0xdb, 0x15, 0, 0]).unwrap_err(),
        GeoIndexError::LengthMismatch
    );
}

#[test]
fn short_buffers_still_report_magic_version_and_type() {
    // each field is judged as soon as it can be read, in the fixed order
    // magic, version, type, length — also on buffers shorter than a header
    assert_eq!(
        KDTreeRef::try_new(&[0xaa]).unwrap_err(),
        GeoIndexError::InvalidFormat
    );
    assert_eq!(
        KDTreeRef::try_new(&[0xdb, 0x25]).unwrap_err(),
        GeoIndexError::VersionMismatch
    );
    // right magic and version, but a 32-bit unsigned tag, opened as signed
    assert_eq!(
        KDTreeRef::try_new(&[0xdb, 0x16]).unwrap_err(),
        GeoIndexError::TypeMismatch
    );
}

#[test]
fn padded_buffer_is_a_length_mismatch() {
    let mut bytes = build_bytes(5, 3);
    bytes.push(0);
    assert_eq!(
        KDTreeRef::try_new(&bytes).unwrap_err(),
        GeoIndexError::LengthMismatch
    );
}

#[test]
fn coord_type_tags_round_trip() {
    let kinds = [
        (CoordType::Int8, 0, 1),
        (CoordType::UInt8, 1, 1),
        (CoordType::Int16, 3, 2),
        (CoordType::UInt16, 4, 2),
        (CoordType::Int32, 5, 4),
        (CoordType::UInt32, 6, 4),
        (CoordType::Float32, 7, 4),
        (CoordType::Float64, 8, 8),
    ];
    for &(kind, tag, width) in &kinds {
        assert_eq!(kind.tag(), tag);
        assert_eq!(kind.bytes_per_element(), width);
        assert_eq!(CoordType::from_tag(tag), Some(kind));
    }
    assert_eq!(CoordType::from_tag(2), None);
    assert_eq!(CoordType::from_tag(15), None);
}

#[test]
fn validation_reads_header_fields_back() {
    let bytes = build_bytes(9, 7);
    let m = KDTreeMetadata::try_new_from_slice(&bytes, CoordType::Int32).unwrap();
    assert_eq!(m.num_items, 9);
    assert_eq!(m.node_size, 7);
    assert_eq!(m.data_buffer_length(), bytes.len());
}
