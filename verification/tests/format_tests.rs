use omakase::checksum::{Checksum, ChecksumError};
use omakase::machine::{MachineStatus, PkgState};
use omakase::paragraph::{emit_paragraph, parse_fields_at, parse_paragraph_stream, Field};
use omakase::release::{parse_inrelease, ReleaseError};
use omakase::machine::StateError;

fn field(name: &str, value: &str) -> Field {
    Field {
        name: name.as_bytes().to_vec(),
        value: value.as_bytes().to_vec(),
    }
}

#[test]
fn paragraph_round_trip_is_byte_identical() {
    let fields = vec![
        field("Package", "hello"),
        field("Version", "2.10-3"),
        field("Description", "friendly greeter\nprints a greeting\n on demand"),
    ];
    let emitted = emit_paragraph(&fields);
    let (parsed, used) = parse_fields_at(&emitted, 0).unwrap();
    assert_eq!(used, emitted.len());
    assert_eq!(parsed.len(), fields.len());
    for (a, b) in parsed.iter().zip(fields.iter()) {
        assert_eq!(a.name, b.name);
        assert_eq!(a.value, b.value);
    }
    let again = emit_paragraph(&parsed);
    assert_eq!(again, emitted);
}

#[test]
fn paragraph_stream_splits_on_blank_lines() {
    let text = b"A: 1\nB: 2\n\nA: 3\n".to_vec();
    let ps = parse_paragraph_stream(&text).unwrap();
    assert_eq!(ps.len(), 2);
    assert_eq!(ps[0].len(), 2);
    assert_eq!(ps[1].len(), 1);
    assert_eq!(ps[1][0].name, b"A".to_vec());
    assert_eq!(ps[1][0].value, b"3".to_vec());
}

#[test]
fn paragraph_rejects_missing_colon() {
    let text = b"not a field line\n".to_vec();
    assert!(parse_paragraph_stream(&text).is_none());
}

#[test]
fn checksum_hex_parsing() {
    let hex = "e3b0c44298fc1c149afbf4c8996fb92427ae41e4649b934ca495991b7852b855";
    let c = Checksum::from_sha256_str(hex).unwrap();
    match &c {
        Checksum::Sha256(bytes) => {
            assert_eq!(bytes.len(), 32);
            assert_eq!(bytes[0], 0xe3);
            assert_eq!(bytes[31], 0x55);
        }
        _ => panic!("wrong algorithm"),
    }
    match Checksum::from_sha256_str("zz") {
        Err(ChecksumError::BadHex) => {}
        _ => panic!("short input must be refused"),
    }
    assert!(Checksum::from_sha512_str(hex).is_err());
}

#[test]
fn validator_checks_real_digests() {
    // the well-known SHA-256 of the empty input
    let empty_hex = "e3b0c44298fc1c149afbf4c8996fb92427ae41e4649b934ca495991b7852b855";
    let c = Checksum::from_sha256_str(empty_hex).unwrap();
    let ok = c.get_validator();
    assert!(ok.finish(), "digest of no input must match its known value");

    let c2 = Checksum::from_sha256_str(empty_hex).unwrap();
    let mut bad = c2.get_validator();
    bad.update(b"some bytes");
    assert!(!bad.finish(), "different input must not match");

    // feeding in two chunks equals feeding at once
    let abc_hex = "ba7816bf8f01cfea414140de5dae2223b00361a396177a9cb410ff61f20015ad";
    let c3 = Checksum::from_sha256_str(abc_hex).unwrap();
    let mut split = c3.get_validator();
    split.update(b"ab");
    split.update(b"c");
    assert!(split.finish());
}

#[test]
fn machine_status_reads_states() {
    let text = b"Package: base-files\nVersion: 12.4\nStatus: install ok installed\nEssential: yes\n\nPackage: half\nVersion: 1.0\nStatus: install ok half-configured\n".to_vec();
    let ps = parse_paragraph_stream(&text).unwrap();
    let ms = MachineStatus::from_paragraphs(&ps).unwrap();
    let base = ms.get("base-files").unwrap();
    assert_eq!(base.state, PkgState::Installed);
    assert!(base.essential);
    let half = ms.get("half").unwrap();
    assert_eq!(half.state, PkgState::HalfConfigured);
    assert!(!half.essential);
    assert!(ms.get("missing").is_none());
}

#[test]
fn machine_status_rejects_unknown_state() {
    let text = b"Package: odd\nVersion: 1\nStatus: install ok levitating\n".to_vec();
    let ps = parse_paragraph_stream(&text).unwrap();
    assert!(MachineStatus::from_paragraphs(&ps).is_err());
}

#[test]
fn inrelease_lists_artifacts() {
    let hash = "e3b0c44298fc1c149afbf4c8996fb92427ae41e4649b934ca495991b7852b855";
    let text = format!(
        "Origin: test\nSHA256:\n {hash} 1234 main/binary-amd64/Packages.xz\n {hash} 99 main/Contents-amd64.gz\n"
    )
    .into_bytes();
    let ps = parse_paragraph_stream(&text).unwrap();
    let entries = parse_inrelease(&ps).unwrap();
    assert_eq!(entries.len(), 2);
    assert_eq!(entries[0].path, b"main/binary-amd64/Packages.xz".to_vec());
    assert_eq!(entries[0].size, 1234);
    assert_eq!(entries[1].size, 99);
}

#[test]
fn inrelease_without_hash_field_fails() {
    let text = b"Origin: test\nSuite: stable\n".to_vec();
    let ps = parse_paragraph_stream(&text).unwrap();
    match parse_inrelease(&ps) {
        Err(ReleaseError::NoHashField) => {}
        _ => panic!("a payload without hash fields must be refused"),
    }
}

#[test]
fn inrelease_rejects_malformed_line() {
    let text = b"SHA256:\n nothex 12 path\n".to_vec();
    let ps = parse_paragraph_stream(&text).unwrap();
    match parse_inrelease(&ps) {
        Err(ReleaseError::Malformed) => {}
        _ => panic!("a malformed line must be fatal"),
    }
}

#[test]
fn machine_status_rejects_duplicate_names() {
    let text = b"Package: a\nVersion: 1\nStatus: install ok installed\n\nPackage: a\nVersion: 2\nStatus: install ok installed\n".to_vec();
    let ps = parse_paragraph_stream(&text).unwrap();
    match MachineStatus::from_paragraphs(&ps) {
        Err(StateError::DuplicateName) => {}
        other => panic!("expected the duplicate to be refused, got {:?}", other.is_ok()),
    }
}
