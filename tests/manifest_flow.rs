use sha2::Digest;
use xorf_generator::base64_serde::{decode, encode};
use xorf_generator::cmd::filter::{Generate as FilterGenerate, Verify as FilterVerify};
use xorf_generator::cmd::data::{DataCommand, Generate as DataGenerate};
use xorf_generator::cmd::key::{Info as KeyInfoCmd, KeyCommand};
use xorf_generator::cmd::manifest::{
    Generate as ManifestGenerate, ManifestCommand, ManifestOutcome, Verify as ManifestVerify,
};
use xorf_generator::descriptor::{Descriptor, Row};
use xorf_generator::error::Error;
use xorf_generator::filter::Filter;
use xorf_generator::manifest::{Manifest, ManifestSignature, PublicKeyManifest};

fn key(n: u8) -> Vec<u8> {
    vec![0, 7, n]
}

fn rows() -> Vec<Row> {
    vec![
        Row { public_key: key(1), target_key: None, reason: None, carryover: None },
        Row { public_key: key(2), target_key: None, reason: None, carryover: None },
        Row { public_key: key(3), target_key: None, reason: None, carryover: None },
        Row { public_key: key(4), target_key: Some(key(5)), reason: None, carryover: None },
    ]
}

fn key_manifest(required: u8) -> PublicKeyManifest {
    PublicKeyManifest { public_keys: vec![key(10), key(11), key(12)], required }
}

fn signing_data(serial: u32) -> Vec<u8> {
    let d = Descriptor::from_rows(&rows());
    let cmd = DataCommand::Generate(DataGenerate {
        input: "descriptor.bin".to_string(),
        output: "data.bin".to_string(),
        serial,
    });
    cmd.run(&d).expect("data")
}

#[test]
fn base64_round_trip() {
    assert_eq!(encode(&[1, 2, 3]), "AQID");
    assert_eq!(decode("AQID"), Some(vec![1, 2, 3]));
    assert_eq!(decode("not base64!"), None);
}

#[test]
fn manifest_records_serial_and_hash() {
    let data = signing_data(77);
    let cmd = ManifestGenerate {
        data: "data.bin".to_string(),
        key: "public_key.json".to_string(),
        manifest: "signing_manifest.txt".to_string(),
        force: false,
    };
    let m = cmd.run(&data, &key_manifest(2)).expect("manifest");
    assert_eq!(m.serial, 77);
    assert_eq!(m.hash, encode(&sha2::Sha256::digest(&data)));
    assert_eq!(m.signatures.len(), 3);
    assert!(m.signatures.iter().all(|s| s.signature.is_empty()));
    assert_eq!(m.signatures[1].address, key(11));
}

fn manifest_with(filled: usize) -> Manifest {
    let f = Filter::from_signing_bytes(&signing_data(1), 2).expect("filter");
    let mut m = Manifest::for_filter(&f, &key_manifest(2)).expect("manifest");
    for i in 0..filled {
        m.signatures[i].signature = vec![i as u8 + 1; 4];
    }
    m
}

#[test]
fn exactly_required_signatures_are_enough() {
    let m = manifest_with(2);
    let signers = m.signers(&key_manifest(2)).expect("signers");
    assert_eq!(signers.len(), 2);
    assert_eq!(signers[0].address, key(10));
    assert_eq!(signers[1].signature, vec![2; 4]);
}

#[test]
fn one_signature_short_is_insufficient() {
    let m = manifest_with(1);
    assert!(matches!(m.signers(&key_manifest(2)), Err(Error::InsufficientSignatures)));
    let m = manifest_with(0);
    assert!(matches!(m.signers(&key_manifest(1)), Err(Error::InsufficientSignatures)));
}

fn verify_cmd() -> ManifestVerify {
    ManifestVerify {
        data: "data.bin".to_string(),
        key: "public_key.json".to_string(),
        manifest: "signing_manifest.txt".to_string(),
    }
}

#[test]
fn verification_passes_on_matching_data() {
    let data = signing_data(1);
    let m = manifest_with(2);
    assert_eq!(verify_cmd().run(&data, &m).expect("verified"), data);
    let cmd = ManifestCommand::Verify(verify_cmd());
    match cmd.run(&data, &key_manifest(2), Some(&m)) {
        Ok(ManifestOutcome::Verified(b)) => assert_eq!(b, data),
        _ => panic!("expected verified data"),
    }
}

#[test]
fn one_changed_byte_is_a_hash_mismatch() {
    let mut data = signing_data(1);
    let m = manifest_with(2);
    let last = data.len() - 1;
    data[last] ^= 1;
    assert!(matches!(verify_cmd().run(&data, &m), Err(Error::HashMismatch)));
}

#[test]
fn different_serial_is_a_serial_mismatch() {
    let data = signing_data(1);
    let mut m = manifest_with(2);
    m.serial = 2;
    assert!(matches!(verify_cmd().run(&data, &m), Err(Error::SerialMismatch)));
}

#[test]
fn bad_recorded_hash_is_a_decode_error() {
    let data = signing_data(1);
    let mut m = manifest_with(2);
    m.hash = "%%%".to_string();
    assert!(matches!(verify_cmd().run(&data, &m), Err(Error::Decode)));
}

#[test]
fn key_info_reports_members_and_threshold() {
    let cmd = KeyCommand::Info(KeyInfoCmd { input: "public_key.json".to_string() });
    let info = cmd.run(&key_manifest(2)).expect("info");
    assert_eq!(info.keys, 3);
    assert_eq!(info.required, 2);
    assert!(matches!(cmd.run(&key_manifest(0)), Err(Error::Decode)));
    assert!(matches!(cmd.run(&key_manifest(4)), Err(Error::Decode)));
}

#[test]
fn placeholder_and_verify_entries() {
    let p = ManifestSignature::placeholder(&key(10));
    assert!(p.signature.is_empty());
    let v = p.verify(true);
    assert!(v.verified);
    assert_eq!(v.signature.address, key(10));
}

#[test]
fn filter_commands_build_sign_and_read_back() {
    let m = manifest_with(2);
    let generate = FilterGenerate {
        input: "rows.csv".to_string(),
        key: "public_key.json".to_string(),
        output: "filter.bin".to_string(),
        manifest: "signing_manifest.txt".to_string(),
    };
    let (mut filter, signers) = generate.run(&m, &key_manifest(2), &rows()).expect("filter");
    assert_eq!(filter.serial, m.serial);
    assert_eq!(signers.len(), 2);
    assert!(filter.contains(&key(1)));
    assert!(filter.contains_edge(&key(5), &key(4)));
    filter.signature = vec![1, 2, 3, 4];
    let bytes = filter.to_bytes().expect("bytes");
    let verify = FilterVerify { input: "filter.bin".to_string(), key: "public_key.json".to_string() };
    let (message, signature) = verify.run(&bytes).expect("read");
    assert_eq!(message, filter.to_signing_bytes().expect("bytes"));
    assert_eq!(signature, vec![1, 2, 3, 4]);
    let short = manifest_with(1);
    assert!(matches!(
        generate.run(&short, &key_manifest(2), &rows()),
        Err(Error::InsufficientSignatures)
    ));
}

#[test]
fn manifest_command_generate_matches_subcommand() {
    let data = signing_data(5);
    let cmd = ManifestCommand::Generate(ManifestGenerate {
        data: "data.bin".to_string(),
        key: "public_key.json".to_string(),
        manifest: "signing_manifest.txt".to_string(),
        force: true,
    });
    match cmd.run(&data, &key_manifest(2), None) {
        Ok(ManifestOutcome::Generated(m)) => {
            assert_eq!(m.serial, 5);
            assert_eq!(m.signatures.len(), 3);
        }
        _ => panic!("expected a manifest"),
    }
    assert!(matches!(cmd.run(&data[..3], &key_manifest(2), None), Err(Error::Decode)));
}

#[test]
fn filter_verify_reads_every_valid_envelope() {
    let verify = FilterVerify { input: "f.bin".to_string(), key: "k.json".to_string() };
    let f = Filter::from_signing_bytes(&signing_data(9), 2).expect("filter");
    let bytes = f.to_bytes().expect("bytes");
    let (message, signature) = verify.run(&bytes).expect("read");
    assert_eq!(message, signing_data(9));
    assert!(signature.is_empty());
    assert!(matches!(verify.run(&bytes[..5]), Err(Error::Decode)));
}

#[test]
fn rows_without_entries_fail_to_build() {
    let rows = vec![
        Row { public_key: key(1), target_key: None, reason: None, carryover: None },
        Row { public_key: key(1), target_key: Some(key(2)), reason: None, carryover: None },
    ];
    let generate = FilterGenerate {
        input: "rows.csv".to_string(),
        key: "public_key.json".to_string(),
        output: "filter.bin".to_string(),
        manifest: "signing_manifest.txt".to_string(),
    };
    let only_edge = vec![Row { public_key: key(3), target_key: Some(key(3)), reason: None, carryover: None }];
    assert!(generate.run(&manifest_with(2), &key_manifest(2), &rows).is_ok());
    assert!(generate.run(&manifest_with(2), &key_manifest(2), &only_edge).is_ok());
    assert!(matches!(generate.run(&manifest_with(2), &key_manifest(2), &vec![]), Err(Error::FilterBuild)));
}
