use recall::vector::pack_words;
use recall::vector::unpack_words;

#[test]
fn pack_unpack_round_trip() {
    let vector: Vec<u32> = vec![
        0.25f32.to_bits(),
        (-1.5f32).to_bits(),
        0u32,
        u32::MAX,
        0x0102_0304,
    ];
    let packed = pack_words(&vector);
    assert_eq!(packed.len(), 4 * vector.len());
    let back = unpack_words(&packed).expect("a packed vector unpacks");
    assert_eq!(back, vector);
}

#[test]
fn packing_is_little_endian() {
    let packed = pack_words(&vec![0x0102_0304u32]);
    assert_eq!(packed, vec![0x04u8, 0x03, 0x02, 0x01]);
}

#[test]
fn unpack_rejects_ragged_length() {
    assert!(unpack_words(&vec![1u8, 2, 3]).is_none());
    assert!(unpack_words(&vec![1u8, 2, 3, 4, 5]).is_none());
    assert_eq!(unpack_words(&Vec::new()), Some(Vec::new()));
}
