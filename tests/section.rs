use psd::{
    read_layer_record, DecodeError, DocumentFormat, LayerAndMaskInformationSection,
    PsdLayerChannel, PsdLayerChannelError,
};

fn push_u16(out: &mut Vec<u8>, v: u16) {
    out.extend_from_slice(&v.to_be_bytes());
}

fn push_u32(out: &mut Vec<u8>, v: u32) {
    out.extend_from_slice(&v.to_be_bytes());
}

/// One layer record of a standard document: an empty rectangle, the given channel
/// entries, a normal blend mode and the given extra data.
fn record(channels: &[(i16, u32)], extra: &[u8]) -> Vec<u8> {
    let mut out = vec![0u8; 16];
    push_u16(&mut out, channels.len() as u16);
    for &(id, len) in channels {
        out.extend_from_slice(&id.to_be_bytes());
        push_u32(&mut out, len);
    }
    out.extend_from_slice(b"8BIM");
    out.extend_from_slice(b"norm");
    out.extend_from_slice(&[255, 0, 0, 0]);
    push_u32(&mut out, extra.len() as u32);
    out.extend_from_slice(extra);
    out
}

/// Extra data with an empty layer mask, empty blending ranges and the given name,
/// padded to a multiple of four bytes.
fn extra_with_name(name: &[u8]) -> Vec<u8> {
    let mut out = vec![0u8; 8];
    out.push(name.len() as u8);
    out.extend_from_slice(name);
    while out.len() % 4 != 0 {
        out.push(0);
    }
    out
}

/// A whole section of a standard document: header, then the given parts, each layer
/// record followed by the data of its channels.
fn section(count: i16, parts: &[Vec<u8>]) -> Vec<u8> {
    let mut out = vec![];
    push_u32(&mut out, 0x20);
    push_u32(&mut out, 0x10);
    out.extend_from_slice(&count.to_be_bytes());
    for p in parts {
        out.extend_from_slice(p);
    }
    out
}

fn channel_data(len: usize, fill: u8) -> Vec<u8> {
    let mut d = vec![0u8, 0u8];
    d.extend(std::iter::repeat(fill).take(len - 2));
    d
}

fn example_section() -> Vec<u8> {
    let rec = record(&[(0, 100), (1, 100)], &[0, 0, 0, 0]);
    let mut data = channel_data(100, 7);
    data.extend(channel_data(100, 9));
    section(1, &[rec, data])
}

#[test]
fn decodes_single_layer_example() {
    let bytes = example_section();
    let s = LayerAndMaskInformationSection::from_bytes(&bytes).unwrap();
    assert_eq!(s.layer_count(), 1);
    let layer = s.layer("").unwrap();
    assert_eq!(layer.channel_count(), 2);
    assert_eq!(layer.channel(PsdLayerChannel::Red).unwrap(), &channel_data(100, 7));
    assert_eq!(layer.channel(PsdLayerChannel::Green).unwrap(), &channel_data(100, 9));
    assert!(layer.channel(PsdLayerChannel::Blue).is_none());
}

#[test]
fn channel_id_five_is_invalid() {
    assert_eq!(
        PsdLayerChannel::new(5),
        Err(PsdLayerChannelError::InvalidChannelId { raw_id: 5 })
    );
}

#[test]
fn channel_ids_map_to_kinds() {
    assert_eq!(PsdLayerChannel::new(0), Ok(PsdLayerChannel::Red));
    assert_eq!(PsdLayerChannel::new(1), Ok(PsdLayerChannel::Green));
    assert_eq!(PsdLayerChannel::new(2), Ok(PsdLayerChannel::Blue));
    assert_eq!(PsdLayerChannel::new(-1), Ok(PsdLayerChannel::TransparencyMask));
    assert_eq!(PsdLayerChannel::new(-2), Ok(PsdLayerChannel::UserSuppliedLayerMask));
    assert_eq!(PsdLayerChannel::new(-3), Ok(PsdLayerChannel::RealUserSuppliedLayerMask));
}

#[test]
fn every_other_channel_id_fails() {
    for id in i8::MIN..=i8::MAX {
        if [0, 1, 2, -1, -2, -3].contains(&id) {
            continue;
        }
        assert_eq!(
            PsdLayerChannel::new(id),
            Err(PsdLayerChannelError::InvalidChannelId { raw_id: id })
        );
        assert_eq!(PsdLayerChannel::new(id), PsdLayerChannel::new(id));
    }
}

#[test]
fn decodes_every_declared_layer() {
    let r1 = record(&[(0, 4), (-1, 3)], &extra_with_name(b"Background"));
    let r2 = record(&[(2, 2)], &extra_with_name(b"Layer 1"));
    let r3 = record(&[], &extra_with_name(b"abc"));
    let bytes = section(3, &[r1, vec![0, 0, 1, 2, 0, 1, 5], r2, vec![0, 0], r3]);
    let s = LayerAndMaskInformationSection::from_bytes(&bytes).unwrap();
    assert_eq!(s.layer_count(), 3);
    assert_eq!(
        s.layer_names(),
        vec!["Background".to_string(), "Layer 1".to_string(), "abc".to_string()]
    );
    let bg = s.layer("Background").unwrap();
    assert_eq!(bg.channel_count(), 2);
    assert_eq!(bg.channel(PsdLayerChannel::Red).unwrap(), &vec![0, 0, 1, 2]);
    assert_eq!(bg.channel(PsdLayerChannel::TransparencyMask).unwrap(), &vec![0, 1, 5]);
    let l1 = s.layer("Layer 1").unwrap();
    assert_eq!(l1.channel(PsdLayerChannel::Blue).unwrap(), &vec![0, 0]);
    assert_eq!(s.layer("abc").unwrap().channel_count(), 0);
    assert!(s.layer("missing").is_none());
}

#[test]
fn record_reader_stops_after_extra_data() {
    let extra = extra_with_name(b"Layer 1");
    let rec = record(&[(0, 10), (1, 20), (2, 30)], &extra);
    let mut bytes = vec![9u8; 5];
    bytes.extend_from_slice(&rec);
    bytes.extend_from_slice(&[1, 2, 3]);
    let mut cursor: usize = 5;
    let r = read_layer_record(&bytes, &mut cursor, DocumentFormat::Psd).unwrap();
    assert_eq!(cursor, 5 + 16 + 2 + 6 * 3 + 12 + 4 + extra.len());
    assert_eq!(cursor, 5 + rec.len());
    assert_eq!(r.name, "Layer 1");
    assert_eq!(
        r.channels,
        vec![(PsdLayerChannel::Red, 10), (PsdLayerChannel::Green, 20), (PsdLayerChannel::Blue, 30)]
    );
}

#[test]
fn record_reader_skips_unknown_extra_data() {
    // A layer mask of 20 bytes and blending ranges of 8 bytes before the name.
    let mut extra = vec![];
    push_u32(&mut extra, 20);
    extra.extend_from_slice(&[0xAB; 20]);
    push_u32(&mut extra, 8);
    extra.extend_from_slice(&[0xCD; 8]);
    extra.push(2);
    extra.extend_from_slice(b"hi");
    extra.extend_from_slice(&[0xEE; 9]);
    let rec = record(&[(-2, 1)], &extra);
    let mut cursor: usize = 0;
    let r = read_layer_record(&rec, &mut cursor, DocumentFormat::Psd).unwrap();
    assert_eq!(cursor, rec.len());
    assert_eq!(r.name, "hi");
    assert_eq!(r.channels, vec![(PsdLayerChannel::UserSuppliedLayerMask, 1)]);
}

#[test]
fn record_reader_leaves_cursor_on_error() {
    let rec = record(&[(7, 1)], &[0, 0, 0, 0]);
    let mut cursor: usize = 0;
    let r = read_layer_record(&rec, &mut cursor, DocumentFormat::Psd);
    assert_eq!(r.err(), Some(DecodeError::InvalidChannelId { raw_id: 7 }));
    assert_eq!(cursor, 0);
}

#[test]
fn truncated_section_fails_at_every_length() {
    let bytes = example_section();
    assert!(LayerAndMaskInformationSection::from_bytes(&bytes).is_ok());
    for m in 0..bytes.len() {
        assert_eq!(
            LayerAndMaskInformationSection::from_bytes(&bytes[..m]).err(),
            Some(DecodeError::TruncatedInput),
            "prefix of {} bytes",
            m
        );
    }
}

#[test]
fn zero_lengths_still_read_the_count() {
    let s = LayerAndMaskInformationSection::from_bytes(&[0; 10]).unwrap();
    assert_eq!(s.layer_count(), 0);
    assert_eq!(
        LayerAndMaskInformationSection::from_bytes(&[0, 0, 0, 9, 0, 0, 0, 0, 0]).err(),
        Some(DecodeError::TruncatedInput)
    );
    assert_eq!(
        LayerAndMaskInformationSection::from_bytes(&[0, 0, 0, 10, 0, 0, 0, 0, 0xFF, 0xFF]).err(),
        Some(DecodeError::InvalidLayerCount { count: -1 })
    );
}

#[test]
fn declared_length_beyond_buffer_is_truncated() {
    let bytes = vec![0, 0, 1, 0, 0, 0, 0, 2, 0, 0];
    assert_eq!(
        LayerAndMaskInformationSection::from_bytes(&bytes).err(),
        Some(DecodeError::TruncatedInput)
    );
}

#[test]
fn negative_layer_count_is_refused() {
    let bytes = vec![0, 0, 0, 6, 0, 0, 0, 2, 0xFF, 0xFF];
    assert_eq!(
        LayerAndMaskInformationSection::from_bytes(&bytes).err(),
        Some(DecodeError::InvalidLayerCount { count: -1 })
    );
}

#[test]
fn invalid_channel_id_in_record() {
    let rec = record(&[(0, 2), (5, 2)], &[0, 0, 0, 0]);
    let bytes = section(1, &[rec, vec![0; 4]]);
    assert_eq!(
        LayerAndMaskInformationSection::from_bytes(&bytes).err(),
        Some(DecodeError::InvalidChannelId { raw_id: 5 })
    );
    let rec = record(&[(300, 2)], &[0, 0, 0, 0]);
    let bytes = section(1, &[rec, vec![0; 2]]);
    assert_eq!(
        LayerAndMaskInformationSection::from_bytes(&bytes).err(),
        Some(DecodeError::InvalidChannelId { raw_id: 300 })
    );
}

#[test]
fn wrong_blend_signature_is_refused() {
    let mut rec = record(&[(0, 2)], &[0, 0, 0, 0]);
    rec[24] = b'X';
    let bytes = section(1, &[rec, vec![0; 2]]);
    assert_eq!(
        LayerAndMaskInformationSection::from_bytes(&bytes).err(),
        Some(DecodeError::InvalidBlendModeSignature)
    );
}

#[test]
fn duplicate_channel_kind_is_refused() {
    let rec = record(&[(0, 2), (0, 2)], &[0, 0, 0, 0]);
    let bytes = section(1, &[rec, vec![0; 4]]);
    assert_eq!(
        LayerAndMaskInformationSection::from_bytes(&bytes).err(),
        Some(DecodeError::DuplicateChannel { kind: PsdLayerChannel::Red })
    );
}

#[test]
fn later_layer_replaces_one_of_the_same_name() {
    let r1 = record(&[(0, 3)], &extra_with_name(b"same"));
    let r2 = record(&[(1, 3)], &extra_with_name(b"other"));
    let r3 = record(&[(2, 4)], &extra_with_name(b"same"));
    let bytes = section(
        3,
        &[r1, vec![0, 0, 1], r2, vec![0, 0, 2], r3, vec![0, 0, 3, 3]],
    );
    let s = LayerAndMaskInformationSection::from_bytes(&bytes).unwrap();
    assert_eq!(s.layer_count(), 2);
    assert_eq!(s.layer_names(), vec!["same".to_string(), "other".to_string()]);
    let same = s.layer("same").unwrap();
    assert_eq!(same.channel_count(), 1);
    assert!(same.channel(PsdLayerChannel::Red).is_none());
    assert_eq!(same.channel(PsdLayerChannel::Blue).unwrap(), &vec![0, 0, 3, 3]);
    assert_eq!(s.layer("other").unwrap().channel(PsdLayerChannel::Green).unwrap(), &vec![0, 0, 2]);
}

#[test]
fn invalid_channel_id_after_valid_layers() {
    let r1 = record(&[(0, 2)], &extra_with_name(b"first"));
    let r2 = record(&[(1, 2), (5, 2)], &extra_with_name(b"second"));
    let bytes = section(2, &[r1, vec![0, 0], r2, vec![0; 4]]);
    assert_eq!(
        LayerAndMaskInformationSection::from_bytes(&bytes).err(),
        Some(DecodeError::InvalidChannelId { raw_id: 5 })
    );
}

#[test]
fn wrong_signature_is_reported_before_missing_fields() {
    let mut rec = record(&[(0, 2)], &[0, 0, 0, 0]);
    rec[24] = b'X';
    let cut = &rec[..28];
    let mut cursor: usize = 0;
    assert_eq!(
        read_layer_record(cut, &mut cursor, DocumentFormat::Psd).err(),
        Some(DecodeError::InvalidBlendModeSignature)
    );
    let good = record(&[(0, 2)], &[0, 0, 0, 0]);
    assert_eq!(
        read_layer_record(&good[..28], &mut cursor, DocumentFormat::Psd).err(),
        Some(DecodeError::TruncatedInput)
    );
}

#[test]
fn name_running_past_extra_data_is_truncated() {
    let mut extra = vec![0u8; 8];
    extra.push(5);
    extra.extend_from_slice(b"ab");
    extra.push(0);
    let rec = record(&[], &extra);
    let mut cursor: usize = 0;
    assert_eq!(
        read_layer_record(&rec, &mut cursor, DocumentFormat::Psd).err(),
        Some(DecodeError::TruncatedInput)
    );
}

#[test]
fn invalid_name_bytes_are_refused() {
    let rec = record(&[], &extra_with_name(&[0xFF, 0xFE]));
    let bytes = section(1, &[rec]);
    assert_eq!(
        LayerAndMaskInformationSection::from_bytes(&bytes).err(),
        Some(DecodeError::InvalidStringEncoding)
    );
}

#[test]
fn missing_channel_data_is_truncated() {
    let rec = record(&[(0, 10)], &[0, 0, 0, 0]);
    let bytes = section(1, &[rec, vec![0; 9]]);
    assert_eq!(
        LayerAndMaskInformationSection::from_bytes(&bytes).err(),
        Some(DecodeError::TruncatedInput)
    );
}

#[test]
fn large_document_layout() {
    let mut bytes = vec![];
    bytes.extend_from_slice(&0x40u64.to_be_bytes());
    bytes.extend_from_slice(&0x30u64.to_be_bytes());
    bytes.extend_from_slice(&1i16.to_be_bytes());
    bytes.extend_from_slice(&[0u8; 16]);
    push_u16(&mut bytes, 1);
    bytes.extend_from_slice(&(-1i16).to_be_bytes());
    bytes.extend_from_slice(&3u64.to_be_bytes());
    bytes.extend_from_slice(b"8BIMnorm");
    bytes.extend_from_slice(&[255, 0, 0, 0]);
    let extra = extra_with_name(b"psb");
    push_u32(&mut bytes, extra.len() as u32);
    bytes.extend_from_slice(&extra);
    bytes.extend_from_slice(&[0, 1, 42]);
    let s = LayerAndMaskInformationSection::from_bytes_in(&bytes, DocumentFormat::Psb).unwrap();
    assert_eq!(s.layer_names(), vec!["psb".to_string()]);
    let l = s.layer("psb").unwrap();
    assert_eq!(l.channel(PsdLayerChannel::TransparencyMask).unwrap(), &vec![0, 1, 42]);
}

#[test]
fn skipped_field_contents_do_not_change_the_record() {
    let build = |mask_fill: u8, range_fill: u8| {
        let mut extra = vec![];
        push_u32(&mut extra, 4);
        extra.extend_from_slice(&[mask_fill; 4]);
        push_u32(&mut extra, 2);
        extra.extend_from_slice(&[range_fill; 2]);
        extra.push(1);
        extra.extend_from_slice(b"z");
        record(&[(0, 5), (-3, 6)], &extra)
    };
    let b1 = build(0x11, 0x22);
    let b2 = build(0x99, 0x77);
    let (mut c1, mut c2) = (0usize, 0usize);
    let r1 = read_layer_record(&b1, &mut c1, DocumentFormat::Psd).unwrap();
    let r2 = read_layer_record(&b2, &mut c2, DocumentFormat::Psd).unwrap();
    assert_eq!(r1.name, r2.name);
    assert_eq!(r1.channels, r2.channels);
    assert_eq!(c1, c2);
    assert_eq!(c1, 16 + 2 + 6 * 2 + 12 + 4 + (4 + 4 + 4 + 2 + 2));
}
