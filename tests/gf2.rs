use reverie::gf2::{BitBatch, BitSharing64, BitSharing8, Domain, GF2P64, GF2P8};

fn batch_bit(b: &BitBatch, w: usize) -> bool {
    (b.0[w / 8] >> (7 - w % 8)) & 1 == 1
}

fn sample_batches(n: usize, seed: u64) -> Vec<BitBatch> {
    let mut x = seed;
    let mut out = Vec::new();
    for _ in 0..n {
        let mut bytes = [0u8; 8];
        for b in bytes.iter_mut() {
            x = x.wrapping_mul(6364136223846793005).wrapping_add(1442695040888963407);
            *b = (x >> 56) as u8;
        }
        out.push(BitBatch(bytes));
    }
    out
}

#[test]
fn convert8_places_player_at_bit() {
    let mut src = vec![BitBatch([0u8; 8]); 8];
    src[3].0[0] = 0x80; // wire 0 of player 3
    src[5].0[1] = 0x01; // wire 15 of player 5
    let mut dst = vec![BitSharing8(0); 64];
    GF2P8::convert(&mut dst, &src);
    assert_eq!(dst[0], BitSharing8(1 << 3));
    assert_eq!(dst[15], BitSharing8(1 << 5));
    for (w, s) in dst.iter().enumerate() {
        if w != 0 && w != 15 {
            assert_eq!(*s, BitSharing8(0));
        }
    }
}

#[test]
fn convert64_places_player_at_bit() {
    let mut src = vec![BitBatch([0u8; 8]); 64];
    src[63].0[7] = 0x01; // wire 63 of player 63
    src[10].0[0] = 0x40; // wire 1 of player 10
    let mut dst = vec![BitSharing64(0); 64];
    GF2P64::convert(&mut dst, &src);
    assert_eq!(dst[63], BitSharing64(1 << 63));
    assert_eq!(dst[1], BitSharing64(1 << 10));
    assert_eq!(dst[0], BitSharing64(0));
}

#[test]
fn convert8_all_ones_fills_every_share() {
    let src = vec![BitBatch([0xff; 8]); 8];
    let mut dst = vec![BitSharing8(0); 64];
    GF2P8::convert(&mut dst, &src);
    assert!(dst.iter().all(|s| *s == BitSharing8(0xff)));
}

#[test]
fn convert_leaves_extra_sharings() {
    let src = sample_batches(8, 7);
    let mut dst = vec![BitSharing8(0xaa); 70];
    GF2P8::convert(&mut dst, &src);
    for s in &dst[64..] {
        assert_eq!(*s, BitSharing8(0xaa));
    }
}

#[test]
fn convert8_round_trip() {
    let src = sample_batches(8, 1);
    let mut dst = vec![BitSharing8(0); 64];
    GF2P8::convert(&mut dst, &src);
    for p in 0..8 {
        let mut back = [0u8; 8];
        for w in 0..64 {
            if (dst[w].0 >> p) & 1 == 1 {
                back[w / 8] |= 0x80 >> (w % 8);
            }
        }
        assert_eq!(back, src[p].0);
    }
}

#[test]
fn convert64_round_trip() {
    let src = sample_batches(64, 2);
    let mut dst = vec![BitSharing64(0); 64];
    GF2P64::convert(&mut dst, &src);
    for p in 0..64 {
        for w in 0..64 {
            assert_eq!((dst[w].0 >> p) & 1 == 1, batch_bit(&src[p], w));
        }
    }
}

#[test]
fn convert8_is_linear() {
    let a = sample_batches(8, 3);
    let b = sample_batches(8, 4);
    let c: Vec<BitBatch> = a.iter().zip(b.iter()).map(|(x, y)| x.xor(y)).collect();
    let mut da = vec![BitSharing8(0); 64];
    let mut db = vec![BitSharing8(0); 64];
    let mut dc = vec![BitSharing8(0); 64];
    GF2P8::convert(&mut da, &a);
    GF2P8::convert(&mut db, &b);
    GF2P8::convert(&mut dc, &c);
    for w in 0..64 {
        assert_eq!(da[w].xor(&db[w]), dc[w]);
    }
}

#[test]
fn convert64_is_linear() {
    let a = sample_batches(64, 5);
    let b = sample_batches(64, 6);
    let c: Vec<BitBatch> = a.iter().zip(b.iter()).map(|(x, y)| x.xor(y)).collect();
    let mut da = vec![BitSharing64(0); 64];
    let mut db = vec![BitSharing64(0); 64];
    let mut dc = vec![BitSharing64(0); 64];
    GF2P64::convert(&mut da, &a);
    GF2P64::convert(&mut db, &b);
    GF2P64::convert(&mut dc, &c);
    for w in 0..64 {
        assert_eq!(da[w].xor(&db[w]), dc[w]);
    }
}

#[test]
fn batch_xor_is_bytewise() {
    let a = BitBatch([0x0f, 0xff, 0, 1, 2, 3, 4, 5]);
    let b = BitBatch([0xf0, 0xff, 0, 1, 0, 0, 0, 0]);
    assert_eq!(a.xor(&b).0, [0xff, 0, 0, 0, 2, 3, 4, 5]);
}
