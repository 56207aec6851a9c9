//! The checkpoint binary format.

use gardogs::{decode, encode, read_u32, write_u32, CheckpointError, LayerRecord};

fn layer(in_dim: u32, out_dim: u32, base: u32) -> LayerRecord {
    LayerRecord {
        in_dim,
        out_dim,
        w: (0..in_dim * out_dim).map(|k| base.wrapping_mul(2654435761).wrapping_add(k)).collect(),
        b: (0..out_dim).map(|k| 0xFFFF_FFFF - k).collect(),
    }
}

fn same(a: &[LayerRecord], b: &[LayerRecord]) -> bool {
    a.len() == b.len()
        && a.iter().zip(b).all(|(x, y)| x.in_dim == y.in_dim && x.out_dim == y.out_dim && x.w == y.w && x.b == y.b)
}

#[test]
fn u32_is_little_endian() {
    let mut out = vec![9u8];
    write_u32(&mut out, 0x0403_0201);
    assert_eq!(out, vec![9, 1, 2, 3, 4]);
    let mut pos = 1;
    assert_eq!(read_u32(&out, &mut pos), Ok(0x0403_0201));
    assert_eq!(pos, 5);
    assert_eq!(read_u32(&out, &mut pos), Err(CheckpointError::Truncated));
    assert_eq!(pos, 5);
}

#[test]
fn layout_of_a_small_checkpoint() {
    let bytes = encode(&vec![LayerRecord { in_dim: 1, out_dim: 1, w: vec![7], b: vec![0x0100] }]);
    assert_eq!(
        bytes,
        vec![b'G', b'D', b'Q', b'N', 1, 0, 0, 0, 1, 0, 0, 0, 1, 0, 0, 0, 7, 0, 0, 0, 0, 1, 0, 0]
    );
}

#[test]
fn checkpoint_roundtrip_of_layers() {
    let layers = vec![layer(5, 8, 1), layer(8, 3, 2), layer(0, 2, 3)];
    let bytes = encode(&layers);
    assert_eq!(bytes.len(), 8 + (8 + 4 * (40 + 8)) + (8 + 4 * (24 + 3)) + (8 + 4 * 2));
    let back = decode(&bytes).unwrap();
    assert!(same(&layers, &back));
    // Bytes after the checkpoint are not read.
    let mut longer = bytes.clone();
    longer.extend_from_slice(&[1, 2, 3]);
    assert!(same(&layers, &decode(&longer).unwrap()));
}

#[test]
fn checkpoint_errors() {
    assert!(matches!(decode(&[b'G', b'D', b'Q']), Err(CheckpointError::Truncated)));
    assert!(matches!(decode(b"GDQX\0\0\0\0"), Err(CheckpointError::BadMagic)));
    assert!(matches!(decode(b"GDQN\x01\0"), Err(CheckpointError::Truncated)));
    let bytes = encode(&vec![layer(2, 2, 5)]);
    for cut in 8..bytes.len() {
        assert!(matches!(decode(&bytes[..cut]), Err(CheckpointError::Truncated)));
    }
    // No layers at all.
    assert!(decode(b"GDQN\0\0\0\0").unwrap().is_empty());
}
