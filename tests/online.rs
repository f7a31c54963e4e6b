use reverie::full_proof::Proof;
use reverie::gf2::{BitScalar, GF2P64, GF2P8};
use reverie::online::{Chunk, Output, PreprocessingOutput};

fn h(b: u8) -> reverie::online::Hash {
    reverie::online::Hash([b; 32])
}

fn bits(v: &[bool]) -> Vec<BitScalar> {
    v.iter().map(|b| BitScalar(*b)).collect()
}

#[test]
fn check_releases_on_matching_hashes() {
    let out = Output::new(bits(&[true, false]), vec![h(1), h(2)]);
    let pp = PreprocessingOutput { hidden: vec![h(1), h(2)] };
    assert_eq!(out.check(&pp, GF2P64::ONLINE_REPETITIONS), Some(bits(&[true, false])));
}

#[test]
fn check_refuses_other_hash() {
    let out = Output::new(bits(&[true]), vec![h(1), h(2)]);
    let mut other = h(2);
    other.0[31] ^= 1;
    let pp = PreprocessingOutput { hidden: vec![h(1), other] };
    assert_eq!(out.check(&pp, 2), None);
}

#[test]
fn check_refuses_other_length() {
    let out = Output::new(bits(&[true]), vec![h(1), h(2)]);
    let pp = PreprocessingOutput { hidden: vec![h(1)] };
    assert_eq!(out.check(&pp, 2), None);
    let out = Output::new(bits(&[true]), vec![h(1)]);
    let pp = PreprocessingOutput { hidden: vec![h(1), h(2)] };
    assert_eq!(out.check(&pp, 2), None);
}

#[test]
fn check_refuses_swapped_order() {
    let out = Output::new(bits(&[false]), vec![h(1), h(2)]);
    let pp = PreprocessingOutput { hidden: vec![h(2), h(1)] };
    assert_eq!(out.check(&pp, 2), None);
}

#[test]
fn check_refuses_wrong_repetition_count() {
    let out = Output::new(bits(&[true]), vec![]);
    let pp = PreprocessingOutput { hidden: vec![] };
    assert_eq!(out.check(&pp, GF2P64::ONLINE_REPETITIONS), None);
    let out = Output::new(bits(&[true]), vec![h(1), h(2)]);
    let pp = PreprocessingOutput { hidden: vec![h(1), h(2)] };
    assert_eq!(out.check(&pp, GF2P8::ONLINE_REPETITIONS), None);
    let hashes: Vec<_> = (0..44u8).map(h).collect();
    let out = Output::new(bits(&[false]), hashes.clone());
    let pp = PreprocessingOutput { hidden: hashes };
    assert_eq!(out.check(&pp, GF2P8::ONLINE_REPETITIONS), Some(bits(&[false])));
}

#[test]
fn unsafe_output_reads_result() {
    let out = Output::new(bits(&[true, true, false]), vec![]);
    assert_eq!(out.unsafe_output(), &bits(&[true, true, false])[..]);
}

#[test]
fn hash_equality() {
    assert!(h(3) == h(3));
    assert!(h(3) != h(4));
}

fn transcript() -> Chunk {
    Chunk {
        corrections: (0..23u8).collect(),
        broadcast: (100..110u8).collect(),
        witness: vec![7, 8, 9],
    }
}

#[test]
fn split_then_join_gives_transcript() {
    let t = transcript();
    for size in [1usize, 2, 3, 5, 10, 23, 100] {
        let chunks = Chunk::split(&t, size);
        for c in &chunks {
            assert!(c.corrections.len() <= size);
            assert!(c.broadcast.len() <= size);
            assert!(c.witness.len() <= size);
        }
        let j = Chunk::join(&chunks);
        assert_eq!(j.corrections, t.corrections);
        assert_eq!(j.broadcast, t.broadcast);
        assert_eq!(j.witness, t.witness);
    }
}

#[test]
fn split_counts_chunks() {
    let t = transcript();
    assert_eq!(Chunk::split(&t, 5).len(), 5);
    assert_eq!(Chunk::split(&t, 23).len(), 1);
    let chunks = Chunk::split(&t, 10);
    assert_eq!(chunks[0].corrections, (0..10u8).collect::<Vec<u8>>());
    assert_eq!(chunks[2].witness, Vec::<u8>::new());
    assert_eq!(chunks.len(), 3);
    assert_eq!(chunks[2].corrections, (20..23u8).collect::<Vec<u8>>());
    assert!(Chunk::split(&Chunk { corrections: vec![], broadcast: vec![], witness: vec![] }, 4).is_empty());
}

#[test]
fn rechunking_keeps_streams() {
    let t = transcript();
    let a = Chunk::join(&Chunk::split(&t, 4));
    let b = Chunk::join(&Chunk::split(&t, 7));
    assert_eq!(a.corrections, b.corrections);
    assert_eq!(a.broadcast, b.broadcast);
    assert_eq!(a.witness, b.witness);
}

#[test]
fn join_of_nothing_is_empty() {
    let j = Chunk::join(&[]);
    assert!(j.corrections.is_empty() && j.broadcast.is_empty() && j.witness.is_empty());
}

#[test]
fn conclude_needs_both_phases() {
    let pp = || Some(PreprocessingOutput { hidden: vec![h(9)] });
    let out = || Some(Output::new(bits(&[true]), vec![h(9)]));
    assert_eq!(Proof::conclude(pp(), out(), 1), Some(bits(&[true])));
    assert_eq!(Proof::conclude(None, out(), 1), None);
    assert_eq!(Proof::conclude(pp(), None, 1), None);
    assert_eq!(Proof::conclude(pp(), out(), 2), None);
    let bad = Some(Output::new(bits(&[true]), vec![h(8)]));
    assert_eq!(Proof::conclude(pp(), bad, 1), None);
}
