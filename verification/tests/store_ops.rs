//! End-to-end tests of creating, writing, iterating, looking up and
//! searching a store, and of the batch protocol.

use std::cell::RefCell;

use breccia::{Breccia, BrecciaMut, ByteHeader, GetBlobError, Marker, Offset, OpenError, Search, State};

#[test]
fn create() {
    let breccia = BrecciaMut::create(ByteHeader(0x42));

    assert_eq!(
        breccia.reader().file_bytes(),
        b"\x00\x42\x00\x00\x00\x00\x00\x00\
          \x00\x00\x00\x00\x00\x00\x00\x00"
            .to_vec()
    );
    assert_eq!(
        breccia.reader().map(),
        &vec![Marker::new(Offset::new(0), 0, State::Clean)]
    );
}

#[test]
fn empty_file_null_header() {
    let breccia = BrecciaMut::create(());
    assert_eq!(breccia.reader().file_bytes(), vec![0u8; 16]);
    assert_eq!(breccia.reader().blobs().next(), None);
}

#[test]
fn write_blob() {
    let mut breccia = BrecciaMut::create(ByteHeader(0x42));

    let offset = breccia.write_blob(&[]);
    assert_eq!(offset, Offset::new(0));

    let offset = breccia.write_blob(&[]);
    assert_eq!(offset, Offset::new(1));

    let offset = breccia.write_blob(&[42]);
    assert_eq!(offset, Offset::new(2));

    assert_eq!(
        breccia.reader().file_bytes(),
        vec![
            0, 0x42, 0, 0, 0, 0, 0, 0,
            0, 0, 0, 0, 0, 0, 0, 0,
            1, 0, 0, 0, 0, 0, 0, 0,
            2, 0, 0, 0, 0, 0, 0, 0,
            42, 0xfe, 0xfe, 0xfe, 0xfe, 0xfe, 0xfe, 0xfe,
            4, 0, 0, 0, 0, 0, 0, 0b111_0_0000,
        ]
    );

    let mut blobs = breccia.reader().blobs();
    assert_eq!(blobs.next(), Some((Offset::new(0), vec![])));
    assert_eq!(blobs.next(), Some((Offset::new(1), vec![])));
    assert_eq!(blobs.next(), Some((Offset::new(2), vec![42])));
    assert_eq!(blobs.next(), None);
}

#[test]
fn write_colliding_blob() {
    let mut b = BrecciaMut::create(ByteHeader(0x42));

    let offset = b.write_blob(&[1, 0, 0, 0, 0, 0, 0, 0b1110_0000]);
    assert_eq!(offset, Offset::new(1));

    // Validate that the padding is actually skipped over.
    let mut blobs = b.reader().blobs();
    assert_eq!(
        blobs.next(),
        Some((Offset::new(1), vec![1, 0, 0, 0, 0, 0, 0, 0b1110_0000]))
    );
    assert_eq!(blobs.next(), None);

    // The inserted pad-marker is a dirty, padding-only marker.
    assert_eq!(
        b.reader().file_bytes(),
        vec![
            0, 0x42, 0, 0, 0, 0, 0, 0,
            0, 0, 0, 0, 0, 0, 0, 0,
            1, 0, 0, 0, 0, 0, 0, 0b1111_0000,
            1, 0, 0, 0, 0, 0, 0, 0b1110_0000,
            3, 0, 0, 0, 0, 0, 0, 0,
        ]
    );
}

#[test]
fn reverse_iteration() {
    let mut b = BrecciaMut::create(ByteHeader(0x42));
    let first = b.write_blob(&[]);
    let second = b.write_blob(b"very blobby blob");

    let mut blobs = b.reader().blobs();
    assert_eq!(blobs.next_back(), Some((second, b"very blobby blob".to_vec())));
    assert_eq!(blobs.next_back(), Some((first, vec![])));
    assert_eq!(blobs.next_back(), None);
    assert_eq!(blobs.next(), None);
}

#[test]
fn get_blob_matches_iteration() {
    let mut b = BrecciaMut::create(ByteHeader(1));
    b.write_blob(&[1, 2, 3]);
    b.write_blob(&[4]);
    b.write_blob(b"a blob longer than one word");

    let mut blobs = b.reader().blobs();
    while let Some((offset, blob)) = blobs.next() {
        assert_eq!(b.reader().get_blob(offset), Ok(blob));
    }
}

#[test]
fn get_blob_errors() {
    let mut b = BrecciaMut::create(ByteHeader(1));
    b.write_blob(&[1, 2, 3]);

    // Beyond the body.
    assert_eq!(b.reader().get_blob(Offset::new(100)), Err(GetBlobError::OutOfRange));
    // A payload word, not a marker.
    assert_eq!(b.reader().get_blob(Offset::new(1)), Err(GetBlobError::Unaligned));
    // The terminator starts no blob: no end marker follows it.
    assert_eq!(b.reader().get_blob(Offset::new(2)), Err(GetBlobError::OutOfRange));
}

#[test]
fn get_blob_refuses_pad_marker() {
    let mut b = BrecciaMut::create(ByteHeader(0x42));
    let offset = b.write_blob(&[1, 0, 0, 0, 0, 0, 0, 0b1110_0000]);
    // The collision shifted the blob: its start marker is a pad-marker, so
    // iteration yields it but a point lookup refuses the offset.
    assert_eq!(b.reader().get_blob(offset), Err(GetBlobError::Unaligned));
}

#[test]
fn open_round_trip() {
    let mut b = BrecciaMut::create(ByteHeader(7));
    b.write_blob(&[10, 20]);
    b.write_blob(&[]);
    let bytes = b.reader().file_bytes();

    let reopened = Breccia::<ByteHeader>::from_file_bytes(&bytes).unwrap();
    assert_eq!(reopened.header(), &ByteHeader(7));
    assert_eq!(reopened.file_bytes(), bytes);
    let mut blobs = reopened.blobs();
    assert_eq!(blobs.next(), Some((Offset::new(0), vec![10, 20])));
    assert_eq!(blobs.next(), Some((Offset::new(2), vec![])));
    assert_eq!(blobs.next(), None);
}

#[test]
fn open_rejects_bad_files() {
    let b = BrecciaMut::create(ByteHeader(7));
    let bytes = b.reader().file_bytes();

    let mut wrong_magic = bytes.clone();
    wrong_magic[0] = 1;
    assert!(matches!(
        Breccia::<ByteHeader>::from_file_bytes(&wrong_magic),
        Err(OpenError::BadMagic)
    ));

    assert!(matches!(
        Breccia::<ByteHeader>::from_file_bytes(&bytes[..4]),
        Err(OpenError::Truncated)
    ));
    assert!(matches!(
        Breccia::<ByteHeader>::from_file_bytes(&bytes[..8]),
        Err(OpenError::Truncated)
    ));

    let mut dirty_tail = bytes.clone();
    let last = dirty_tail.len() - 1;
    dirty_tail[last] |= 0b0001_0000;
    assert!(matches!(
        Breccia::<ByteHeader>::from_file_bytes(&dirty_tail),
        Err(OpenError::DirtyTail)
    ));
}

#[test]
fn binary_search_on_empty_blobs() {
    let mut breccia = BrecciaMut::create(ByteHeader(0x42));

    assert_eq!(
        breccia
            .reader()
            .binary_search(|_offset, _blob| -> Result<Option<()>, Search> {
                panic!("should not be called")
            }),
        None::<()>
    );

    breccia.write_blob(&[]);
    assert_eq!(
        breccia.reader().binary_search(|offset, blob| {
            assert_eq!(blob, &[]);
            Ok(Some(offset))
        }),
        Some(Offset::new(0))
    );

    breccia.write_blob(&[]);
    assert_eq!(
        breccia.reader().binary_search(|offset, blob| {
            assert_eq!(blob, &[]);
            Ok(Some(offset))
        }),
        Some(Offset::new(1))
    );
}

#[test]
fn binary_search_for_ints() {
    let mut b = BrecciaMut::create(ByteHeader(0x42));

    let mut expected_offsets = vec![];
    for i in 0..100u32 {
        let offset = b.write_blob(&i.to_le_bytes());
        expected_offsets.push((i, offset));
    }

    for (i, expected_offset) in &expected_offsets {
        let visited: RefCell<Vec<u64>> = RefCell::new(vec![]);
        assert_eq!(
            b.reader().binary_search(|offset, blob| {
                let mut seen = visited.borrow_mut();
                assert!(!seen.contains(&offset.raw), "offset visited twice");
                seen.push(offset.raw);
                let blob = blob.try_into().unwrap();
                let found = u32::from_le_bytes(blob);
                if *i == found {
                    Ok(Some(offset))
                } else if *i < found {
                    Err(Search::Left)
                } else {
                    Err(Search::Right)
                }
            }),
            Some(*expected_offset)
        );
    }
}

#[test]
fn binary_search_single_large_blob() {
    let mut b = BrecciaMut::create(ByteHeader(0x42));
    b.write_blob(&vec![7u8; 1000]);

    let visited: RefCell<Vec<u64>> = RefCell::new(vec![]);
    let r: Option<()> = b.reader().binary_search(|offset, _blob| {
        let mut seen = visited.borrow_mut();
        assert!(!seen.contains(&offset.raw), "offset visited twice");
        seen.push(offset.raw);
        Err(Search::Right)
    });
    assert_eq!(r, None);
}

#[test]
fn binary_search_empty_range() {
    let mut b = BrecciaMut::create(ByteHeader(0x42));
    b.write_blob(&[1]);
    let r: Option<()> = b.reader().binary_search_in_range(
        |_offset, _blob| panic!("should not be called"),
        Offset::new(1)..Offset::new(1),
    );
    assert_eq!(r, None);
}

#[test]
fn batch_commit_publishes() {
    let mut b = BrecciaMut::create(ByteHeader(9));
    b.write_blob(&[1]);

    let mut batch = b.start_batch();
    let o2 = batch.write_blob(&[2, 2]);
    let o3 = batch.write_blob(&[3]);
    batch.commit(&mut b);

    let mut blobs = b.reader().blobs();
    assert_eq!(blobs.next(), Some((Offset::new(0), vec![1])));
    assert_eq!(blobs.next(), Some((o2, vec![2, 2])));
    assert_eq!(blobs.next(), Some((o3, vec![3])));
    assert_eq!(blobs.next(), None);

    // After a committed batch the last body word is a clean marker.
    let map = b.reader().map();
    let last = map[map.len() - 1];
    assert_eq!(last.state(), State::Clean);
    assert_eq!(last.offset(), Offset::new((map.len() - 1) as u64));
}

#[test]
fn batch_dropped_without_commit() {
    let mut b = BrecciaMut::create(ByteHeader(9));
    b.write_blob(&[1]);
    let before = b.reader().file_bytes();

    {
        let mut batch = b.start_batch();
        batch.write_blob(&[2]);
        // Dropped without commit.
    }

    assert_eq!(b.reader().file_bytes(), before);
    let mut blobs = b.reader().blobs();
    assert_eq!(blobs.next(), Some((Offset::new(0), vec![1])));
    assert_eq!(blobs.next(), None);
}

#[test]
fn empty_batch_commit() {
    let mut b = BrecciaMut::create(ByteHeader(9));
    let before = b.reader().file_bytes();
    let batch = b.start_batch();
    batch.commit(&mut b);
    assert_eq!(b.reader().file_bytes(), before);
}

#[test]
fn tail_fill_matches_blob_length() {
    for len in 0..20usize {
        let mut b = BrecciaMut::create(ByteHeader(3));
        let blob = vec![9u8; len];
        b.write_blob(&blob);
        let map = b.reader().map();
        let end = map[map.len() - 1];
        assert_eq!(end.padding_len(), (8 - len % 8) % 8);
        let mut blobs = b.reader().blobs();
        assert_eq!(blobs.next(), Some((Offset::new(0), blob)));
        assert_eq!(blobs.next(), None);
    }
}
