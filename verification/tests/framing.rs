//! Marker encoding, offset arithmetic, and header frame tests.

use breccia::{ByteHeader, Header, Marker, Offset, State, TryFromFileOffsetError};

#[test]
fn marker_test() {
    let marker = Marker::new(Offset::new(42), 0b101, State::Clean);
    assert_eq!(marker.offset(), Offset::new(42));
    assert_eq!(marker.padding_len(), 0b101);
    assert_eq!(
        Marker::new(Offset::new(42), 0b101, State::Clean).to_bytes(),
        [42, 0, 0, 0, 0, 0, 0, 0b101_0_0000]
    );
}

#[test]
fn set_state() {
    let mut marker = Marker::new(Offset::new(0), 0, State::Clean);
    assert_eq!(marker.state(), State::Clean);

    marker.set_state(State::Dirty);
    assert_eq!(marker.state(), State::Dirty);
}

#[test]
fn marker_bytes_round_trip() {
    let marker = Marker::new(Offset::new(123_456), 3, State::Dirty);
    let bytes = marker.to_bytes();
    assert_eq!(bytes.len(), 8);
    let back = Marker::from_bytes(&bytes);
    assert_eq!(back, marker);
    assert_eq!(back.offset(), Offset::new(123_456));
    assert_eq!(back.padding_len(), 3);
    assert_eq!(back.state(), State::Dirty);
}

#[test]
fn padding_marker_is_padding() {
    let pad = Marker::new_padding(Offset::new(9));
    assert!(pad.is_padding());
    assert_eq!(pad.offset(), Offset::new(9));
    assert_eq!(pad.padding_len(), 7);
    assert_eq!(pad.state(), State::Dirty);

    let end = Marker::new(Offset::new(9), 7, State::Clean);
    assert!(!end.is_padding());
    let short = Marker::new(Offset::new(9), 6, State::Dirty);
    assert!(!short.is_padding());
}

#[test]
fn header_test() {}

#[test]
fn offset_midpoint() {
    assert_eq!(Offset::new(0).midpoint(Offset::new(10)), Offset::new(5));
    assert_eq!(Offset::new(3).midpoint(Offset::new(4)), Offset::new(3));
    assert_eq!(
        Offset::new(u64::MAX).midpoint(Offset::new(u64::MAX - 2)),
        Offset::new(u64::MAX - 1)
    );
    assert_eq!(Offset::new(3).offset(4), Offset::new(7));
}

#[test]
fn offset_from_file_offset() {
    // ByteHeader: one magic byte plus one header byte, padded to 8 bytes.
    assert_eq!(
        Offset::try_from_file_offset::<ByteHeader>(0),
        Err(TryFromFileOffsetError::WithinHeader)
    );
    assert_eq!(
        Offset::try_from_file_offset::<ByteHeader>(7),
        Err(TryFromFileOffsetError::WithinHeader)
    );
    assert_eq!(Offset::try_from_file_offset::<ByteHeader>(8), Ok(Offset::new(0)));
    assert_eq!(
        Offset::try_from_file_offset::<ByteHeader>(9),
        Err(TryFromFileOffsetError::Unaligned)
    );
    assert_eq!(Offset::try_from_file_offset::<ByteHeader>(24), Ok(Offset::new(2)));
}

#[test]
fn header_serialization() {
    assert_eq!(ByteHeader::magic(), vec![0u8]);
    assert_eq!(ByteHeader::serialized_size(), 1);
    let h = ByteHeader(0x42);
    assert_eq!(h.serialize(), vec![0x42]);
    assert_eq!(ByteHeader::deserialize(&[0x42]), Ok(ByteHeader(0x42)));

    assert_eq!(<() as Header>::magic(), Vec::<u8>::new());
    assert_eq!(<() as Header>::serialized_size(), 0);
}
