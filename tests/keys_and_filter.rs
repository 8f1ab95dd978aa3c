use sha2::Digest;
use std::hash::Hasher;
use xorf_generator::cmd::data::{DataCommand, Generate};
use xorf_generator::descriptor::{Descriptor, Edge, Edges, Node};
use xorf_generator::error::Error;
use xorf_generator::filter::{Filter, FilterData, FuseFilter, XorFilter, FILTTER_VERSION};
use xorf_generator::keys::{edge_hash, edge_order, key_lt, public_key_hash};

fn key(n: u8) -> Vec<u8> {
    let mut k = vec![0u8; 33];
    k[0] = 1;
    k[32] = n;
    k
}

fn node(k: Vec<u8>) -> Node {
    Node { key: k, reason: String::new(), carryover: 0 }
}

fn sample_descriptor() -> Descriptor {
    Descriptor {
        nodes: vec![node(key(1)), node(key(2)), node(key(3))],
        edges: Some(Edges {
            keys: vec![key(4), key(5)],
            edges: vec![Edge { source: 0, target: 1, reason: String::new(), carryover: 0 }],
        }),
    }
}

fn xxh(parts: &[&[u8]]) -> u64 {
    let mut h = twox_hash::XxHash64::default();
    for p in parts {
        h.write(p);
    }
    h.finish()
}

#[test]
fn public_key_hash_is_xxhash64_with_seed_zero() {
    let k = key(7);
    assert_eq!(public_key_hash(&k), xxh(&[&k]));
    assert_ne!(public_key_hash(&k), public_key_hash(&key(8)));
}

#[test]
fn edge_hash_hashes_keys_in_canonical_order() {
    let a = key(9);
    let b = key(3);
    assert_eq!(edge_hash(&a, &b), xxh(&[&b, &a]));
    assert_eq!(edge_hash(&a, &b), edge_hash(&b, &a));
    assert_ne!(edge_hash(&a, &b), xxh(&[&a, &b]));
}

#[test]
fn edge_order_puts_smaller_key_first() {
    let a = vec![2u8, 1];
    let b = vec![1u8, 9, 9];
    assert_eq!(edge_order(&a, &b), (&b[..], &a[..]));
    assert_eq!(edge_order(&b, &a), (&b[..], &a[..]));
    let p = vec![1u8, 9];
    assert!(key_lt(&p, &b));
    assert!(!key_lt(&b, &p));
    assert!(!key_lt(&p, &p));
}

#[test]
fn filter_has_no_false_negatives() {
    let d = sample_descriptor();
    let f = Filter::from_descriptor(42, &d).expect("filter");
    assert_eq!(f.version, FILTTER_VERSION);
    assert_eq!(f.serial, 42);
    assert!(f.signature.is_empty());
    for n in 1..=3 {
        assert!(f.contains(&key(n)));
    }
    assert!(f.contains_edge(&key(4), &key(5)));
    assert!(f.contains_edge(&key(5), &key(4)));
    assert!(!f.contains(&key(6)));
    assert!(!f.is_empty());
    assert_eq!(f.len() % 3, 0);
}

#[test]
fn many_keys_are_all_members() {
    let nodes: Vec<Node> = (0..2000u32)
        .map(|i| node(i.to_le_bytes().to_vec()))
        .collect();
    let d = Descriptor { nodes, edges: None };
    let f = Filter::from_descriptor(1, &d).expect("filter");
    for i in 0..2000u32 {
        assert!(f.contains(&i.to_le_bytes()));
    }
}

#[test]
fn contains_edge_is_symmetric() {
    let f = Filter::from_descriptor(1, &sample_descriptor()).expect("filter");
    for a in 0..8u8 {
        for b in 0..8u8 {
            assert_eq!(f.contains_edge(&key(a), &key(b)), f.contains_edge(&key(b), &key(a)));
        }
    }
}

#[test]
fn empty_descriptor_fails_to_build() {
    let d = Descriptor { nodes: vec![], edges: Some(Edges { keys: vec![], edges: vec![] }) };
    assert!(matches!(Filter::from_descriptor(1, &d), Err(Error::FilterBuild)));
}

#[test]
fn signing_bytes_start_with_serial() {
    let f = Filter::from_descriptor(0x0403_0201, &sample_descriptor()).expect("filter");
    let b = f.to_signing_bytes().expect("bytes");
    assert_eq!(&b[0..4], &[1, 2, 3, 4]);
    assert_eq!(&b[4..8], &[0, 0, 0, 0]);
}

#[test]
fn version_one_payload_matches_bincode_of_xor32() {
    let keys: Vec<u64> = vec![1, 2, 3, 10, 99];
    let x = xorf::Xor32::from(&keys);
    let expected = bincode::serialize(&x).expect("bincode");
    let mut f = Filter::new(
        7,
        FilterData::Xor(XorFilter {
            seed: x.seed,
            block_length: x.block_length as u64,
            fingerprints: x.fingerprints.to_vec(),
        }),
    );
    f.version = 1;
    let bytes = f.to_signing_bytes().expect("bytes");
    assert_eq!(&bytes[4..], &expected[..]);
    f.version = 2;
    let bytes = f.to_signing_bytes().expect("bytes");
    assert_eq!(&bytes[4..8], &[0, 0, 0, 0]);
    assert_eq!(&bytes[8..], &expected[..]);
}

#[test]
fn envelope_round_trips_in_version_two() {
    let mut f = Filter::from_descriptor(5, &sample_descriptor()).expect("filter");
    f.signature = vec![9, 8, 7];
    let bytes = f.to_bytes().expect("bytes");
    assert_eq!(bytes[0], 2);
    assert_eq!(&bytes[1..3], &[3, 0]);
    assert_eq!(&bytes[3..6], &[9, 8, 7]);
    let back = Filter::from_bytes(&bytes).expect("decode");
    assert_eq!(back.signature, vec![9, 8, 7]);
    assert_eq!(back.serial, 5);
    assert_eq!(back.to_bytes().expect("bytes"), bytes);
    assert!(back.contains(&key(1)));
}

#[test]
fn envelope_round_trips_in_version_one() {
    let mut f = Filter::from_descriptor(5, &sample_descriptor()).expect("filter");
    f.version = 1;
    let bytes = f.to_bytes().expect("bytes");
    let back = Filter::from_bytes(&bytes).expect("decode");
    assert_eq!(back.version, 1);
    assert_eq!(back.to_bytes().expect("bytes"), bytes);
}

#[test]
fn fuse_filter_round_trips_in_version_two() {
    let keys: Vec<u64> = (0..500u64).map(|i| i * 7919).collect();
    let b = xorf::BinaryFuse32::try_from(&keys).expect("fuse");
    let fuse = FuseFilter {
        seed: b.descriptor.seed,
        segment_length: b.descriptor.segment_length,
        segment_length_mask: b.descriptor.segment_length_mask,
        segment_count_length: b.descriptor.segment_count_length,
        fingerprints: b.fingerprints.to_vec(),
    };
    let f = Filter::new(3, FilterData::BFuse(fuse));
    let bytes = f.to_bytes().expect("bytes");
    let back = Filter::from_bytes(&bytes).expect("decode");
    assert_eq!(back.to_bytes().expect("bytes"), bytes);
    for k in &keys {
        assert!(back.filter.contains(k));
    }
    let mut v1 = Filter::new(3, back.filter);
    v1.version = 1;
    assert!(matches!(v1.to_bytes(), Err(Error::UnsupportedVersion)));
}

#[test]
fn unknown_version_is_unsupported() {
    let f = Filter::from_descriptor(5, &sample_descriptor()).expect("filter");
    let mut bytes = f.to_bytes().expect("bytes");
    bytes[0] = 3;
    assert!(matches!(Filter::from_bytes(&bytes), Err(Error::UnsupportedVersion)));
    assert!(matches!(Filter::from_signing_bytes(&bytes[3..], 9), Err(Error::UnsupportedVersion)));
}

#[test]
fn malformed_envelopes_are_decode_errors() {
    let f = Filter::from_descriptor(5, &sample_descriptor()).expect("filter");
    let bytes = f.to_bytes().expect("bytes");
    assert!(matches!(Filter::from_bytes(&[]), Err(Error::Decode)));
    assert!(matches!(Filter::from_bytes(&bytes[..bytes.len() - 1]), Err(Error::Decode)));
    let mut longer = bytes.clone();
    longer.push(0);
    assert!(matches!(Filter::from_bytes(&longer), Err(Error::Decode)));
    assert!(matches!(Filter::from_bytes(&[2, 200, 0, 1]), Err(Error::Decode)));
}

#[test]
fn hash_is_sha256_of_signing_bytes() {
    let f = Filter::from_descriptor(5, &sample_descriptor()).expect("filter");
    let bytes = f.to_signing_bytes().expect("bytes");
    let h = f.hash().expect("hash");
    assert_eq!(h.len(), 32);
    assert_eq!(h, sha2::Sha256::digest(&bytes).to_vec());
}

#[test]
fn malformed_descriptor_is_not_well_formed() {
    let mut d = sample_descriptor();
    assert!(d.is_well_formed());
    if let Some(e) = &mut d.edges {
        e.edges[0].target = 2;
    }
    assert!(!d.is_well_formed());
}

#[test]
fn equal_hash_sets_give_equal_signing_bytes() {
    let a = sample_descriptor();
    let b = Descriptor {
        nodes: vec![node(key(3)), node(key(1)), node(key(2)), node(key(1))],
        edges: Some(Edges {
            keys: vec![key(5), key(4)],
            edges: vec![
                Edge { source: 0, target: 1, reason: "x".to_string(), carryover: 9 },
                Edge { source: 1, target: 0, reason: String::new(), carryover: 0 },
            ],
        }),
    };
    let fa = Filter::from_descriptor(11, &a).expect("filter");
    let fb = Filter::from_descriptor(11, &b).expect("filter");
    assert_eq!(fa.to_signing_bytes().expect("bytes"), fb.to_signing_bytes().expect("bytes"));
}

#[test]
fn data_command_agrees_with_its_subcommand() {
    let g = Generate { input: "d.bin".to_string(), output: "o.bin".to_string(), serial: 3 };
    let direct = g.run(&sample_descriptor()).expect("bytes");
    let cmd = DataCommand::Generate(g);
    assert_eq!(cmd.run(&sample_descriptor()).expect("bytes"), direct);
    let f = Filter::from_descriptor(3, &sample_descriptor()).expect("filter");
    assert_eq!(direct, f.to_signing_bytes().expect("bytes"));
}
