use valkey_faces::vector::{pack_f32le, unpack_f32le};

fn bits(v: &[f32]) -> Vec<u32> {
    v.iter().map(|x| x.to_bits()).collect()
}

#[test]
fn packing_is_little_endian() {
    assert_eq!(pack_f32le(&bits(&[1.0])), vec![0x00, 0x00, 0x80, 0x3f]);
    assert_eq!(pack_f32le(&bits(&[-2.5, 0.1])), [(-2.5f32).to_le_bytes(), 0.1f32.to_le_bytes()].concat());
    assert!(pack_f32le(&[]).is_empty());
}

#[test]
fn unpacking_undoes_packing() {
    let v = bits(&[0.0, -0.0, 1.5, f32::MAX, f32::INFINITY, 1e-40]);
    assert_eq!(unpack_f32le(&pack_f32le(&v)), v);
}

#[test]
fn packing_undoes_unpacking_of_whole_numbers() {
    let b: Vec<u8> = (0..32).map(|i| (i * 37 + 5) as u8).collect();
    assert_eq!(pack_f32le(&unpack_f32le(&b)), b);
}

#[test]
fn unpacking_leaves_out_a_rest() {
    assert_eq!(unpack_f32le(&[0x00, 0x00, 0x80, 0x3f, 1, 2, 3]), vec![1.0f32.to_bits()]);
    assert!(unpack_f32le(&[1, 2, 3]).is_empty());
    let b: Vec<u8> = (0..11).collect();
    assert_eq!(pack_f32le(&unpack_f32le(&b)), &b[..8]);
}

#[test]
fn an_embedding_takes_two_kilobytes() {
    assert_eq!(pack_f32le(&[0; valkey_faces::face::EMBED_DIM]).len(), 2048);
}
