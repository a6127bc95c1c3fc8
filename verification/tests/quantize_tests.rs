use color_histogram::quantize::{bucket_index, rep_color, units};

#[test]
fn units_of_common_factors() {
    assert_eq!(units(8), 32);
    assert_eq!(units(1), 256);
    assert_eq!(units(256), 1);
    assert_eq!(units(64), 4);
}

#[test]
fn bucket_index_corners() {
    assert_eq!(bucket_index(0, 0, 0, 8), 0);
    assert_eq!(bucket_index(255, 255, 255, 8), 32767);
    assert_eq!(bucket_index(8, 0, 0, 8), 1024);
    assert_eq!(bucket_index(0, 8, 0, 8), 32);
    assert_eq!(bucket_index(0, 0, 8, 8), 1);
}

#[test]
fn whole_cell_shares_one_bucket() {
    // Every 8-bit value in [i*8, (i+1)*8) lands in bucket coordinate i.
    for c in 16u16..24 {
        assert_eq!(bucket_index(c as u8, 0, 0, 8), 2 * 32 * 32);
    }
    // Adjacent cells differ.
    assert_ne!(bucket_index(15, 0, 0, 8), bucket_index(16, 0, 0, 8));
}

#[test]
fn factor_one_is_identity_quantization() {
    // With factor 1 every color is its own bucket.
    for &(r, g, b) in &[(0u8, 0u8, 0u8), (1, 2, 3), (255, 255, 255), (17, 200, 3)] {
        let idx = bucket_index(r, g, b, 1);
        assert_eq!(idx, r as usize * 65536 + g as usize * 256 + b as usize);
        assert_eq!(rep_color(idx, 1), (r, g, b));
    }
}

#[test]
fn rep_color_is_cell_lower_corner() {
    assert_eq!(rep_color(0, 8), (0, 0, 0));
    assert_eq!(rep_color(32767, 8), (248, 248, 248));
    assert_eq!(rep_color(1024, 8), (8, 0, 0));
    assert_eq!(rep_color(32766, 8), (248, 248, 240));
}

#[test]
fn quantizer_roundtrips_every_bucket() {
    // Forward of inverse is the identity on the whole index space.
    for f in [4usize, 8, 64, 256] {
        let u = units(f);
        for idx in 0..u * u * u {
            let (r, g, b) = rep_color(idx, f);
            assert_eq!(bucket_index(r, g, b, f), idx);
            assert_eq!(r as usize % f, 0);
            assert_eq!(g as usize % f, 0);
            assert_eq!(b as usize % f, 0);
        }
    }
}

#[test]
fn inverse_of_forward_is_cell_corner() {
    // inverse(forward(p)) is the lower corner of p's cell, for every p.
    for c in 0u16..256 {
        let idx = bucket_index(c as u8, 0, 0, 8);
        let (r, g, b) = rep_color(idx, 8);
        assert_eq!((r, g, b), ((c as u8 / 8) * 8, 0, 0));
        assert_eq!(bucket_index(r, g, b, 8), idx);
    }
}
