use omakase::actions::PkgActions;
use omakase::blueprint::Blueprints;
use omakase::checksum::Checksum;
use omakase::config::{fullfill_subcmd, InstallPkg, Mirror, RemovePkg, RepoConfig, SubCmd};
use omakase::db::{LocalDb, RefreshError};
use omakase::download::Compression;
use omakase::machine::MachineStatus;
use omakase::paragraph::parse_paragraph_stream;
use omakase::pool::{PkgMeta, PkgSource};
use omakase::release::parse_inrelease;
use omakase::version::PkgVersion;

fn v(s: &str) -> PkgVersion {
    PkgVersion::try_from(s).unwrap()
}

fn repo(components: &[&str]) -> RepoConfig {
    RepoConfig {
        url: Mirror::Single("http://mirror.example".to_string()),
        distribution: "stable".to_string(),
        components: components.iter().map(|c| c.to_string()).collect(),
        keys: Vec::new(),
    }
}

fn db_with(repos: Vec<(String, RepoConfig)>) -> LocalDb {
    LocalDb::new(
        "/var/lib/omakase/db".to_string(),
        "/etc/omakase/keys".to_string(),
        repos,
        "amd64".to_string(),
        Vec::new(),
    )
}

// One repository's broken release document leaves the other's plan
// intact: planning is per repository.
#[test]
fn refresh_failure_stays_isolated() {
    let hash = "e3b0c44298fc1c149afbf4c8996fb92427ae41e4649b934ca495991b7852b855";
    let good_payload = format!(
        "SHA256:\n {hash} 11 main/binary-amd64/Packages.xz\n {hash} 22 main/binary-amd64/Packages\n {hash} 33 main/Contents-amd64.gz\n"
    )
    .into_bytes();
    let bad_payload = b"SHA256:\n nothex 1 path\n".to_vec();

    let db = db_with(vec![
        ("repo1".to_string(), repo(&["main"])),
        ("repo2".to_string(), repo(&["main"])),
    ]);

    // repo2 fails at its own parse step
    let bad = parse_paragraph_stream(&bad_payload).unwrap();
    assert!(parse_inrelease(&bad).is_err());

    // repo1's plan is unaffected
    let good = parse_paragraph_stream(&good_payload).unwrap();
    let entries = parse_inrelease(&good).unwrap();
    let jobs = db
        .plan_repo_refresh("repo1", &repo(&["main"]), &entries)
        .unwrap();
    assert_eq!(jobs.len(), 2);
    assert_eq!(
        jobs[0].url,
        "http://mirror.example/dists/stable/main/binary-amd64/Packages.xz"
    );
    assert_eq!(
        jobs[0].filename.as_deref(),
        Some("repo1/Packages_stable_main_amd64")
    );
    assert_eq!(jobs[0].size, Some(11));
    match &jobs[0].compression {
        Compression::Xz(Some(_), Some(_)) => {}
        _ => panic!("the package catalog must carry both checksums"),
    }
    assert_eq!(
        jobs[1].filename.as_deref(),
        Some("repo1/Contents_stable_main_amd64.gz")
    );
}

#[test]
fn refresh_refuses_xz_without_plain_listing() {
    let hash = "e3b0c44298fc1c149afbf4c8996fb92427ae41e4649b934ca495991b7852b855";
    let payload = format!("SHA256:\n {hash} 11 main/binary-amd64/Packages.xz\n").into_bytes();
    let ps = parse_paragraph_stream(&payload).unwrap();
    let entries = parse_inrelease(&ps).unwrap();
    let db = db_with(vec![("repo1".to_string(), repo(&["main"]))]);
    assert!(db.plan_repo_refresh("repo1", &repo(&["main"]), &entries).is_err());
}

#[test]
fn install_lines_spell_versions() {
    let steps = vec![
        (
            omakase::actions::PkgInstallAction {
                name: "fresh".to_string(),
                url: "http://mirror.example/fresh.deb".to_string(),
                size: 1,
                checksum: Some(Checksum::Sha256(vec![0u8; 32])),
                version: v("1.2"),
            },
            None,
        ),
        (
            omakase::actions::PkgInstallAction {
                name: "up".to_string(),
                url: "http://mirror.example/up.deb".to_string(),
                size: 1,
                checksum: Some(Checksum::Sha256(vec![0u8; 32])),
                version: v("2.0"),
            },
            Some(v("1.0")),
        ),
    ];
    let lines = PkgActions::render_install_lines(&steps);
    assert_eq!(lines, vec!["fresh(1.2)".to_string(), "up(1.0 -> 2.0)".to_string()]);
}

#[test]
fn subcmd_dispatch_changes_blueprints() {
    let mut bp = Blueprints::new();
    let install = SubCmd::Install(InstallPkg {
        names: vec!["a".to_string(), "b".to_string()],
        no_recommends: false,
        local: false,
    });
    assert_eq!(fullfill_subcmd(&install, &mut bp), Ok(true));
    assert!(bp.contains_name("a"));
    assert!(bp.contains_name("b"));

    let remove = SubCmd::Remove(RemovePkg {
        names: vec!["a".to_string()],
        remove_recommends: false,
    });
    assert_eq!(fullfill_subcmd(&remove, &mut bp), Ok(true));
    assert!(!bp.contains_name("a"));

    assert_eq!(fullfill_subcmd(&SubCmd::Refresh, &mut bp), Ok(false));
    assert!(fullfill_subcmd(&install, &mut bp).is_err(), "b is already requested");
}

#[test]
fn machine_status_spots_essential_removal() {
    let text =
        b"Package: e\nVersion: 1\nStatus: install ok installed\nEssential: yes\n".to_vec();
    let ps = parse_paragraph_stream(&text).unwrap();
    let ms = MachineStatus::from_paragraphs(&ps).unwrap();
    let targets: Vec<PkgMeta> = Vec::new();
    let actions = ms.gen_actions(&targets, true);
    assert_eq!(actions.purge, vec!["e".to_string()]);
    assert!(ms.removes_essential(&actions));
}

#[test]
fn local_source_installs_without_checksum() {
    let ms = MachineStatus { pkgs: Vec::new() };
    let targets = vec![PkgMeta {
        name: "local".to_string(),
        section: "utils".to_string(),
        description: "from disk".to_string(),
        version: v("0.1"),
        depends: Vec::new(),
        breaks: Vec::new(),
        conflicts: Vec::new(),
        recommends: None,
        suggests: None,
        provides: None,
        replaces: None,
        install_size: 1,
        essential: false,
        source: PkgSource::Local("/tmp/local.deb".to_string()),
    }];
    let actions = ms.gen_actions(&targets, false);
    assert_eq!(actions.install.len(), 1);
    assert_eq!(actions.install[0].0.url, "/tmp/local.deb");
    assert!(actions.install[0].0.checksum.is_none());
}

#[test]
fn refresh_error_names_the_inconsistency() {
    let hash = "e3b0c44298fc1c149afbf4c8996fb92427ae41e4649b934ca495991b7852b855";
    let payload = format!("SHA256:\n {hash} 11 main/binary-amd64/Packages.xz\n").into_bytes();
    let ps = parse_paragraph_stream(&payload).unwrap();
    let entries = parse_inrelease(&ps).unwrap();
    let db = db_with(vec![("repo1".to_string(), repo(&["main"]))]);
    match db.plan_repo_refresh("repo1", &repo(&["main"]), &entries) {
        Err(RefreshError::MissingDecompressed) => {}
        Err(RefreshError::NoMirror) => panic!("wrong error"),
        Ok(_) => panic!("the inconsistency must be refused"),
    }
}

#[test]
fn refresh_skips_an_unlisted_component() {
    let hash = "e3b0c44298fc1c149afbf4c8996fb92427ae41e4649b934ca495991b7852b855";
    // only one of the two components is listed; the other yields no jobs
    // but does not fail the plan
    let payload = format!(
        "SHA256:\n {hash} 11 main/binary-amd64/Packages.xz\n {hash} 22 main/binary-amd64/Packages\n"
    )
    .into_bytes();
    let ps = parse_paragraph_stream(&payload).unwrap();
    let entries = parse_inrelease(&ps).unwrap();
    let db = db_with(vec![("repo1".to_string(), repo(&["main", "contrib"]))]);
    let jobs = db
        .plan_repo_refresh("repo1", &repo(&["main", "contrib"]), &entries)
        .unwrap();
    assert_eq!(jobs.len(), 1);
    assert_eq!(
        jobs[0].filename.as_deref(),
        Some("repo1/Packages_stable_main_amd64")
    );
}
