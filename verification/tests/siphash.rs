use muster_net::siphash::SipHasher;

/// The reference vectors from the SipHash paper: key `00 01 02 … 0f`,
/// message `00`, `00 01`, `00 01 02`, and so on.
const VECTORS: [u64; 16] = [
    0x726f_db47_dd0e_0e31,
    0x74f8_39c5_93dc_67fd,
    0x0d6c_8009_d9a9_4f5a,
    0x8567_6696_d7fb_7e2d,
    0xcf27_94e0_2771_87b7,
    0x1876_5564_cd99_a68d,
    0xcbc9_466e_58fe_e3ce,
    0xab02_00f5_8b01_d137,
    0x93f5_f579_9a93_2462,
    0x9e00_82df_0ba9_e4b0,
    0x7a5d_bbc5_94dd_b9f3,
    0xf4b3_2f46_226b_ada7,
    0x751e_8fbc_860e_e5fb,
    0x14ea_5627_c084_3d90,
    0xf723_ca90_8e7a_f2ee,
    0xa129_ca61_49be_45e5,
];

#[test]
fn matches_the_reference_vectors() {
    let key0 = u64::from_le_bytes([0, 1, 2, 3, 4, 5, 6, 7]);
    let key1 = u64::from_le_bytes([8, 9, 10, 11, 12, 13, 14, 15]);
    let hasher = SipHasher::new(key0, key1);

    for (len, &want) in VECTORS.iter().enumerate() {
        let msg: Vec<u8> = (0..len as u8).collect();
        assert_eq!(hasher.hash(&msg), want, "message of {len} bytes");
    }
}

#[test]
fn the_empty_message_hashes() {
    let h = SipHasher::new(0, 0);
    assert_eq!(h.hash(&[]), h.hash(&[]));
    assert_ne!(h.hash(&[]), h.hash(&[0]));
}

#[test]
fn the_key_changes_the_answer() {
    let msg = b"192.168.0.1:443";
    let a = SipHasher::new(1, 2).hash(msg);
    let b = SipHasher::new(1, 3).hash(msg);
    let c = SipHasher::new(2, 2).hash(msg);
    assert_ne!(a, b);
    assert_ne!(a, c);
    assert_ne!(b, c);
}

#[test]
fn a_prefix_does_not_collide_with_what_extends_it() {
    let h = SipHasher::new(0x0123_4567_89ab_cdef, 0xfedc_ba98_7654_3210);
    let mut seen = std::collections::BTreeSet::new();
    for len in 0..64 {
        let msg = vec![0xaau8; len];
        assert!(seen.insert(h.hash(&msg)), "collision at length {len}");
    }
}

#[test]
fn a_long_message_crosses_several_blocks() {
    let h = SipHasher::new(7, 9);
    let msg: Vec<u8> = (0..200u32).map(|i| i as u8).collect();
    assert_eq!(h.hash(&msg), h.hash(&msg.clone()));
    assert_ne!(h.hash(&msg), h.hash(&msg[..199]));
}
