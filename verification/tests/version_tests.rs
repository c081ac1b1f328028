use omakase::version::{PkgVersion, VersionRequirement};

fn v(s: &str) -> PkgVersion {
    PkgVersion::try_from(s).unwrap()
}

#[test]
fn parse_plain_version() {
    let p = v("1.2.3");
    assert_eq!(p.epoch, 0);
    assert_eq!(p.upstream, b"1.2.3".to_vec());
    assert_eq!(p.revision, b"".to_vec());
}

#[test]
fn parse_epoch_and_revision() {
    let p = v("2:4.7.1-3ubuntu1");
    assert_eq!(p.epoch, 2);
    assert_eq!(p.upstream, b"4.7.1".to_vec());
    assert_eq!(p.revision, b"3ubuntu1".to_vec());
}

#[test]
fn parse_hyphen_in_upstream() {
    let p = v("1.0-rc1-2");
    assert_eq!(p.upstream, b"1.0-rc1".to_vec());
    assert_eq!(p.revision, b"2".to_vec());
}

#[test]
fn parse_rejects_empty_upstream() {
    assert!(PkgVersion::try_from("").is_err());
    assert!(PkgVersion::try_from("1:").is_err());
    assert!(PkgVersion::try_from("-1").is_err());
}

#[test]
fn parse_rejects_bad_epoch() {
    assert!(PkgVersion::try_from("a:1.0").is_err());
    assert!(PkgVersion::try_from(":1.0").is_err());
    // an epoch too large for 32 bits
    assert!(PkgVersion::try_from("4294967296:1.0").is_err());
    assert!(PkgVersion::try_from("4294967295:1.0").is_ok());
}

#[test]
fn ordering_numeric_segments() {
    assert!(v("1.2") < v("1.10"));
    assert!(v("1.02") == v("1.2"));
    assert!(v("10") > v("9"));
}

#[test]
fn ordering_tilde_sorts_lowest() {
    assert!(v("1.0~beta") < v("1.0"));
    assert!(v("1.0~~") < v("1.0~"));
    assert!(v("1.0~rc1") < v("1.0~rc2"));
}

#[test]
fn ordering_letters_before_other_bytes() {
    assert!(v("1.0a") < v("1.0+"));
    assert!(v("1.0alpha") > v("1.0a"));
}

#[test]
fn ordering_epoch_dominates() {
    assert!(v("1:0.1") > v("2.0"));
    assert!(v("2:0.1") > v("1:9.9"));
}

#[test]
fn ordering_revision_breaks_ties() {
    assert!(v("1.0-1") < v("1.0-2"));
    assert!(v("1.0-1") > v("1.0"));
    assert!(v("1.0-1~pre") < v("1.0-1"));
}

// Version ordering is total: one of the three outcomes holds, order
// flips with the arguments, and chains stay consistent.
#[test]
fn ordering_is_total_on_samples() {
    let samples = [
        "1.0",
        "1.0-1",
        "1:0.5",
        "1.0~rc1",
        "1.2.3",
        "1.10",
        "2.0-3ubuntu1",
        "0.99",
    ];
    for a in samples.iter() {
        for b in samples.iter() {
            let x = v(a);
            let y = v(b);
            let lt = x < y;
            let eq = x == y;
            let gt = x > y;
            assert_eq!(
                1,
                (lt as u32) + (eq as u32) + (gt as u32),
                "exactly one of <, ==, > must hold for {a} vs {b}"
            );
            assert_eq!(lt, v(b) > v(a));
        }
    }
    // transitivity on a chain of samples
    let chain = ["1.0~rc1", "1.0", "1.0-1", "1.2.3", "1.10", "1:0.5"];
    for i in 0..chain.len() {
        for j in (i + 1)..chain.len() {
            assert!(v(chain[i]) < v(chain[j]), "{} < {}", chain[i], chain[j]);
        }
    }
}

#[test]
fn requirement_bounds() {
    let lower = VersionRequirement {
        lower_bond: Some((v("1.0"), true)),
        upper_bond: None,
    };
    assert!(lower.within(&v("1.0")));
    assert!(lower.within(&v("1.1")));
    assert!(!lower.within(&v("0.9")));

    let window = VersionRequirement {
        lower_bond: Some((v("1.0"), false)),
        upper_bond: Some((v("2.0"), true)),
    };
    assert!(!window.within(&v("1.0")));
    assert!(window.within(&v("1.5")));
    assert!(window.within(&v("2.0")));
    assert!(!window.within(&v("2.1")));

    let any = VersionRequirement::any();
    assert!(any.within(&v("0.0.1")));
}

#[test]
fn version_renders_canonically() {
    assert_eq!(v("1.2.3").to_display_string(), "1.2.3");
    assert_eq!(v("2:4.7-1").to_display_string(), "2:4.7-1");
    assert_eq!(v("0:5.1").to_display_string(), "5.1");
}
