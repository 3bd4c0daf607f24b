use note_tree::codec::{
    read_bytes32, read_compact, read_u16, read_u32, read_u64, read_u8, write_bytes, write_compact,
    write_u32, write_u64, MAX_COMPACT_SIZE,
};
use note_tree::frontier::memory_total;
use note_tree::note_state::sapling_wallet_write_note_commitment_tree;
use note_tree::wallet::Wallet;
use note_tree::positions_codec::{notes_fit, read_notes, write_notes};
use byteorder::{LittleEndian, WriteBytesExt};
use zcash_encoding::{CompactSize, Optional, Vector};

fn compact(n: usize) -> Vec<u8> {
    let mut out = Vec::new();
    write_compact(&mut out, n);
    out
}

#[test]
fn lengths_in_compact_form() {
    assert_eq!(compact(0), vec![0]);
    assert_eq!(compact(1), vec![1]);
    assert_eq!(compact(252), vec![252]);
    assert_eq!(compact(253), vec![253, 253, 0]);
    assert_eq!(compact(256), vec![253, 0, 1]);
    assert_eq!(compact(65535), vec![253, 255, 255]);
    assert_eq!(compact(65536), vec![254, 0, 0, 1, 0]);
    assert_eq!(compact(65537), vec![254, 1, 0, 1, 0]);
    assert_eq!(compact(33554432), vec![254, 0, 0, 0, 2]);
    assert_eq!(MAX_COMPACT_SIZE, 33554432);
}

#[test]
fn lengths_are_read_only_in_their_shortest_form() {
    for n in [0usize, 1, 252, 253, 254, 65535, 65536, 65537, 33554432] {
        let bytes = compact(n);
        assert_eq!(read_compact(&bytes, 0), Some((n, bytes.len())));
        let mut padded = vec![9u8, 9];
        padded.extend_from_slice(&bytes);
        padded.push(7);
        assert_eq!(read_compact(&padded, 2), Some((n, 2 + bytes.len())));
    }
    assert_eq!(read_compact(&[253, 252, 0], 0), None);
    assert_eq!(read_compact(&[254, 255, 255, 0, 0], 0), None);
    assert_eq!(read_compact(&[254, 1, 0, 0, 2], 0), None);
    assert_eq!(read_compact(&[255, 0, 0, 0, 0, 1, 0, 0, 0], 0), None);
    assert_eq!(read_compact(&[253, 0], 0), None);
    assert_eq!(read_compact(&[254, 0, 0, 1], 0), None);
    assert_eq!(read_compact(&[], 0), None);
    assert_eq!(read_compact(&[1], 1), None);
    assert_eq!(read_compact(&[1], 5), None);
}

#[test]
fn integers_are_written_least_significant_byte_first() {
    let mut out = vec![0xee];
    write_u32(&mut out, 0x0a0b0c0d);
    write_u64(&mut out, 0x0102030405060708);
    write_bytes(&mut out, &[5, 6]);
    assert_eq!(out, vec![0xee, 0x0d, 0x0c, 0x0b, 0x0a, 8, 7, 6, 5, 4, 3, 2, 1, 5, 6]);
    assert_eq!(read_u8(&out, 0), Some((0xee, 1)));
    assert_eq!(read_u16(&out, 1), Some((0x0c0d, 3)));
    assert_eq!(read_u32(&out, 1), Some((0x0a0b0c0d, 5)));
    assert_eq!(read_u64(&out, 5), Some((0x0102030405060708, 13)));
    assert_eq!(read_u64(&out, 8), None);
    assert_eq!(read_u32(&out, 12), None);
    assert_eq!(read_u16(&out, 14), None);
    assert_eq!(read_u8(&out, 15), None);
    assert_eq!(read_u32(&out, usize::MAX), None);
}

#[test]
fn thirty_two_bytes_are_read_as_they_stand() {
    let bytes: Vec<u8> = (0..40u8).collect();
    let (x, end) = read_bytes32(&bytes, 3).unwrap();
    assert_eq!(end, 35);
    assert_eq!(x.to_vec(), (3..35u8).collect::<Vec<u8>>());
    assert!(read_bytes32(&bytes, 9).is_none());
    assert!(read_bytes32(&bytes, 8).is_some());
}

#[test]
fn notes_are_written_and_read() {
    let notes: Vec<(usize, u64)> = vec![(0, 5), (3, 0x0102030405060708), (0xffff_ffff, 9)];
    assert!(notes_fit(&notes));
    let mut out = Vec::new();
    write_notes(&mut out, &notes);
    let mut expected = vec![3u8];
    expected.extend_from_slice(&[0, 0, 0, 0, 5, 0, 0, 0, 0, 0, 0, 0]);
    expected.extend_from_slice(&[3, 0, 0, 0, 8, 7, 6, 5, 4, 3, 2, 1]);
    expected.extend_from_slice(&[255, 255, 255, 255, 9, 0, 0, 0, 0, 0, 0, 0]);
    assert_eq!(out, expected);
    assert_eq!(read_notes(&out, 0), Some((notes, out.len())));
    assert_eq!(read_notes(&out[..out.len() - 1], 0), None);
    assert_eq!(read_notes(&[0], 0), Some((Vec::new(), 1)));
    assert!(!notes_fit(&vec![(0x1_0000_0000usize, 1)]));
}

#[test]
fn memory_adds_up_to_the_greatest_number() {
    assert_eq!(memory_total(0, 0), 0);
    assert_eq!(memory_total(64, 1064), 1128);
    assert_eq!(memory_total(usize::MAX, 0), usize::MAX);
    assert_eq!(memory_total(1, usize::MAX - 1), usize::MAX);
    assert_eq!(memory_total(2, usize::MAX - 1), usize::MAX);
    assert_eq!(memory_total(usize::MAX, usize::MAX), usize::MAX);
}

#[test]
fn lengths_agree_with_the_compact_size_of_the_encoding_crate() {
    for n in [0usize, 1, 100, 252, 253, 254, 255, 256, 1000, 65535, 65536, 65537, 1 << 20, 33554431, 33554432] {
        let mut theirs = Vec::new();
        CompactSize::write(&mut theirs, n).unwrap();
        assert_eq!(compact(n), theirs);
        assert_eq!(read_compact(&theirs, 0), Some((n, theirs.len())));
        let back: usize = CompactSize::read_t(&compact(n)[..]).unwrap();
        assert_eq!(back, n);
    }
    // What they refuse to read is refused here.
    for bytes in [
        vec![253u8, 252, 0],
        vec![253, 0, 0],
        vec![254, 255, 255, 0, 0],
        vec![254, 1, 0, 0, 2],
        vec![255, 0, 0, 0, 0, 1, 0, 0, 0],
        vec![255, 1, 0, 0, 0, 0, 0, 0, 0],
        vec![253, 1],
        vec![],
    ] {
        assert!(CompactSize::read(&bytes[..]).is_err());
        assert_eq!(read_compact(&bytes, 0), None);
    }
}

#[test]
fn notes_agree_with_the_vector_of_the_encoding_crate() {
    let notes: Vec<(usize, u64)> = (0..300usize).map(|i| (3 * i, 7 * i as u64 + 1)).collect();
    let mut theirs = Vec::new();
    Vector::write(&mut theirs, &notes, |w, (idx, position)| {
        w.write_u32::<LittleEndian>(*idx as u32)?;
        w.write_u64::<LittleEndian>(*position)
    })
    .unwrap();
    let mut ours = Vec::new();
    write_notes(&mut ours, &notes);
    assert_eq!(ours, theirs);
    assert_eq!(read_notes(&theirs, 0), Some((notes, theirs.len())));
}

#[test]
fn integers_agree_with_the_byte_order_crate() {
    for x in [0u32, 1, 0x0102_0304, u32::MAX] {
        let mut theirs = Vec::new();
        theirs.write_u32::<LittleEndian>(x).unwrap();
        let mut ours = Vec::new();
        write_u32(&mut ours, x);
        assert_eq!(ours, theirs);
    }
    for x in [0u64, 1, 0x0102_0304_0506_0708, u64::MAX] {
        let mut theirs = Vec::new();
        theirs.write_u64::<LittleEndian>(x).unwrap();
        let mut ours = Vec::new();
        write_u64(&mut ours, x);
        assert_eq!(ours, theirs);
    }
}

#[test]
fn the_height_of_the_state_agrees_with_the_optional_of_the_encoding_crate() {
    for height in [None, Some(0u32), Some(0x0a0b_0c0d)] {
        let mut w = Wallet::empty();
        if let Some(h) = height {
            assert!(w.checkpoint(h));
        }
        let mut theirs = vec![1u8];
        Optional::write(&mut theirs, height, |w, h| w.write_u32::<LittleEndian>(h)).unwrap();
        let ours = sapling_wallet_write_note_commitment_tree(&w).unwrap();
        assert_eq!(&ours[..theirs.len()], &theirs[..]);
    }
}
