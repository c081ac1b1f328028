use omakase::actions::{split_install_steps, PkgActions, PkgInstallAction, UnpackOnly};
use omakase::blueprint::{BlueprintError, Blueprints};
use omakase::checksum::Checksum;
use omakase::config::{Config, ConfigError, Mirror, RepoConfig};
use omakase::db::{DbError, LocalDb};
use omakase::download::{decide_commit, Compression, DownloadJob};
use omakase::executor::{check_execution_allowed, plan_dpkg_batches, ExecutionError};
use omakase::index::{fields_to_packagemeta, import};
use omakase::machine::{MachineStatus, PkgState, PkgStatus};
use omakase::paragraph::parse_paragraph_stream;
use omakase::pool::{PackagePool, PkgMeta, PkgSource};
use omakase::version::{PkgVersion, VersionRequirement};

fn v(s: &str) -> PkgVersion {
    PkgVersion::try_from(s).unwrap()
}

fn meta(name: &str, ver: &str) -> PkgMeta {
    PkgMeta {
        name: name.to_string(),
        section: "utils".to_string(),
        description: "test".to_string(),
        version: v(ver),
        depends: Vec::new(),
        breaks: Vec::new(),
        conflicts: Vec::new(),
        recommends: None,
        suggests: None,
        provides: None,
        replaces: None,
        install_size: 7,
        essential: false,
        source: PkgSource::Http(
            format!("http://mirror.example/{name}.deb"),
            500,
            Checksum::Sha256(vec![0u8; 32]),
        ),
    }
}

fn status(name: &str, ver: &str, state: PkgState, essential: bool) -> PkgStatus {
    PkgStatus {
        install_size: 0,
        name: name.to_string(),
        version: v(ver),
        state,
        essential,
    }
}

#[test]
fn diff_on_empty_machine_installs_everything() {
    let ms = MachineStatus { pkgs: Vec::new() };
    let targets = vec![meta("a", "1"), meta("b", "1")];
    let actions = ms.gen_actions(&targets, false);
    assert_eq!(actions.install.len(), 2);
    assert_eq!(actions.install[0].0.name, "a");
    assert!(actions.install[0].1.is_none());
    assert_eq!(actions.install[1].0.name, "b");
    assert!(actions.remove.is_empty());
    assert!(actions.purge.is_empty());
    assert!(actions.configure.is_empty());
}

#[test]
fn diff_records_upgrade_with_old_version() {
    let ms = MachineStatus {
        pkgs: vec![status("a", "1", PkgState::Installed, false)],
    };
    let targets = vec![meta("a", "2")];
    let actions = ms.gen_actions(&targets, false);
    assert_eq!(actions.install.len(), 1);
    let (act, old) = &actions.install[0];
    assert_eq!(act.name, "a");
    assert_eq!(act.version.to_display_string(), "2");
    assert_eq!(old.as_ref().unwrap().to_display_string(), "1");
}

#[test]
fn diff_is_a_no_op_on_exact_install() {
    let ms = MachineStatus {
        pkgs: vec![status("a", "1", PkgState::Installed, false)],
    };
    let targets = vec![meta("a", "1")];
    let actions = ms.gen_actions(&targets, false);
    assert!(actions.is_empty());
}

#[test]
fn diff_removes_uncovered_and_configures_half_done() {
    let ms = MachineStatus {
        pkgs: vec![
            status("keep", "1", PkgState::Installed, false),
            status("drop", "1", PkgState::Installed, false),
            status("limbo", "1", PkgState::Unpacked, false),
        ],
    };
    let targets = vec![meta("keep", "1")];
    let actions = ms.gen_actions(&targets, false);
    assert!(actions.install.is_empty());
    assert_eq!(actions.remove, vec!["drop".to_string()]);
    assert_eq!(actions.configure, vec!["limbo".to_string()]);

    let purged = ms.gen_actions(&targets, true);
    assert!(purged.remove.is_empty());
    assert_eq!(purged.purge, vec!["drop".to_string()]);
}

// Applying the diff once and diffing again yields nothing more.
#[test]
fn diff_idempotence_scenario() {
    let ms = MachineStatus {
        pkgs: vec![
            status("up", "1", PkgState::Installed, false),
            status("gone", "3", PkgState::Installed, false),
        ],
    };
    let targets = vec![meta("up", "2"), meta("new", "1")];
    let first = ms.gen_actions(&targets, false);
    assert_eq!(first.install.len(), 2);
    assert_eq!(first.remove, vec!["gone".to_string()]);

    // the machine state after the actions ran
    let after = MachineStatus {
        pkgs: vec![
            status("up", "2", PkgState::Installed, false),
            status("gone", "3", PkgState::ConfigFiles, false),
            status("new", "1", PkgState::Installed, false),
        ],
    };
    let second = after.gen_actions(&targets, false);
    assert!(second.is_empty());
}

#[test]
fn unpack_only_moves_installs() {
    let ms = MachineStatus { pkgs: Vec::new() };
    let targets = vec![meta("a", "1")];
    let mut actions = ms.gen_actions(&targets, false);
    let modifier = UnpackOnly::default();
    modifier.make_unpack_only(&mut actions);
    assert!(actions.install.is_empty());
    assert_eq!(actions.unpack.len(), 1);
    assert!(!actions.is_empty());
}

#[test]
fn essential_guard_blocks_execution() {
    let ms = MachineStatus {
        pkgs: vec![status("e", "1", PkgState::Installed, true)],
    };
    let targets: Vec<PkgMeta> = Vec::new();
    let actions = ms.gen_actions(&targets, false);
    assert_eq!(actions.remove, vec!["e".to_string()]);
    assert!(ms.removes_essential(&actions));
    assert_eq!(
        check_execution_allowed(&ms, &actions, false),
        Err(ExecutionError::RemovesEssential)
    );
    assert_eq!(check_execution_allowed(&ms, &actions, true), Ok(()));
}

#[test]
fn dpkg_batches_follow_the_strict_order() {
    let ms = MachineStatus {
        pkgs: vec![
            status("victim", "1", PkgState::Installed, false),
            status("limbo", "1", PkgState::HalfInstalled, false),
        ],
    };
    let targets = vec![meta("fresh", "1")];
    let actions = ms.gen_actions(&targets, true);
    let batches = plan_dpkg_batches(&actions, false);
    let flags: Vec<String> = batches.iter().map(|b| b.flag.clone()).collect();
    assert_eq!(flags, vec!["--purge", "--configure", "--install"]);
    assert_eq!(batches[0].items, vec!["victim".to_string()]);
    assert_eq!(batches[2].items, vec!["fresh".to_string()]);

    let unpack_batches = plan_dpkg_batches(&actions, true);
    let uflags: Vec<String> = unpack_batches.iter().map(|b| b.flag.clone()).collect();
    assert_eq!(uflags, vec!["--purge", "--unpack"]);
}

#[test]
fn download_size_sums_install_steps() {
    let ms = MachineStatus { pkgs: Vec::new() };
    let targets = vec![meta("a", "1"), meta("b", "1")];
    let actions = ms.gen_actions(&targets, false);
    assert_eq!(actions.download_size(), 1000);
    assert!(PkgActions::new().is_empty());
}

#[test]
fn commit_gate_refuses_bad_bytes() {
    let empty_hex = "e3b0c44298fc1c149afbf4c8996fb92427ae41e4649b934ca495991b7852b855";
    let job = DownloadJob {
        url: "http://mirror.example/f".to_string(),
        description: None,
        filename: None,
        size: Some(0),
        compression: Compression::Plain(Some(
            Checksum::from_sha256_str(empty_hex).unwrap(),
        )),
    };
    let empty: Vec<u8> = Vec::new();
    assert!(decide_commit(&job, &empty, &empty));
    let wrong = b"junk".to_vec();
    assert!(!decide_commit(&job, &wrong, &wrong));
}

#[test]
fn blueprint_add_and_remove() {
    let mut bp = Blueprints::new();
    bp.add("a", false, None, None, false).unwrap();
    assert_eq!(
        bp.add("a", false, None, None, false),
        Err(BlueprintError::Duplicate)
    );
    bp.add("a", true, None, Some(VersionRequirement::any()), false)
        .unwrap();
    bp.add("extra", false, Some("a"), None, false).unwrap();
    assert!(bp.contains_name("extra"));
    bp.remove("a", true).unwrap();
    assert!(!bp.contains_name("a"));
    assert!(!bp.contains_name("extra"), "recommended entries follow their sponsor");
    assert_eq!(bp.remove("a", false), Err(BlueprintError::NotFound));
}

#[test]
fn config_sanity_checks() {
    let good = Config {
        arch: "amd64".to_string(),
        repo: vec![(
            "main".to_string(),
            RepoConfig {
                url: Mirror::Single("http://mirror.example".to_string()),
                distribution: "stable".to_string(),
                components: vec!["main".to_string()],
                keys: vec!["trusted.gpg".to_string()],
            },
        )],
        unsafe_flags: None,
    };
    assert!(good.check_sanity().is_ok());

    let bad_key = Config {
        arch: "amd64".to_string(),
        repo: vec![(
            "main".to_string(),
            RepoConfig {
                url: Mirror::Single("http://mirror.example".to_string()),
                distribution: "stable".to_string(),
                components: vec!["main".to_string()],
                keys: vec!["evil key!".to_string()],
            },
        )],
        unsafe_flags: None,
    };
    match bad_key.check_sanity() {
        Err(ConfigError::BadKeyFilename(repo, key)) => {
            assert_eq!(repo, "main");
            assert_eq!(key, "evil key!");
        }
        other => panic!("expected the bad key to be named, got {other:?}"),
    }

    let no_mirror = RepoConfig {
        url: Mirror::Multiple(Vec::new()),
        distribution: "stable".to_string(),
        components: vec!["main".to_string()],
        keys: Vec::new(),
    };
    match no_mirror.check_sanity("empty") {
        Err(ConfigError::NoMirror(repo)) => assert_eq!(repo, "empty"),
        other => panic!("expected the mirrorless repository to be named, got {other:?}"),
    }
    let multi = RepoConfig {
        url: Mirror::Multiple(vec!["http://a".to_string(), "http://b".to_string()]),
        distribution: "stable".to_string(),
        components: vec!["main".to_string()],
        keys: Vec::new(),
    };
    assert_eq!(multi.get_url().unwrap(), "http://a");
}

#[test]
fn local_db_finds_catalogs_on_disk() {
    let repo = RepoConfig {
        url: Mirror::Single("http://mirror.example".to_string()),
        distribution: "stable".to_string(),
        components: vec!["main".to_string()],
        keys: Vec::new(),
    };
    let db = LocalDb::new(
        "/var/lib/apm/db".to_string(),
        "/etc/apm/keys".to_string(),
        vec![("main".to_string(), repo)],
        "amd64".to_string(),
        vec![
            "main/Packages_stable_main_amd64".to_string(),
            "main/Contents_stable_main_all.gz".to_string(),
        ],
    );
    let pkgs = db.get_package_db("main").unwrap();
    assert_eq!(pkgs.len(), 1);
    assert_eq!(pkgs[0].0, "http://mirror.example");
    assert_eq!(pkgs[0].1, "/var/lib/apm/db/main/Packages_stable_main_amd64");

    let contents = db.get_contents_db("main").unwrap();
    assert_eq!(
        contents[0].1,
        "/var/lib/apm/db/main/Contents_stable_main_all.gz"
    );

    assert_eq!(db.get_bincontents_db("main"), Err(DbError::NoCatalog));
    assert_eq!(db.get_package_db("nowhere"), Err(DbError::NoSuchRepo));
    let all = db.get_all_package_db().unwrap();
    assert_eq!(all.len(), 1);
}

#[test]
fn import_reads_a_catalog_paragraph() {
    let hash = "e3b0c44298fc1c149afbf4c8996fb92427ae41e4649b934ca495991b7852b855";
    let text = format!(
        "Package: hello\nSection: utils\nDescription: greeter\nVersion: 2.10-3\nInstalled-Size: 280\nSize: 56multiline\nFilename: pool/h/hello.deb\nSHA256: {hash}\nDepends: libc (>= 2.28), base | alt\n"
    );
    // fix the malformed size before parsing
    let text = text.replace("56multiline", "561");
    let content = text.into_bytes();
    let ps = parse_paragraph_stream(&content).unwrap();
    let meta = fields_to_packagemeta(&ps[0], "http://mirror.example").unwrap();
    assert_eq!(meta.name, "hello");
    assert_eq!(meta.install_size, 280);
    assert_eq!(meta.depends.len(), 2);
    assert_eq!(meta.depends[0].0, "libc");
    assert!(meta.depends[0].1.within(&v("2.28")));
    assert!(!meta.depends[0].1.within(&v("2.27")));
    // the second item keeps its first alternative
    assert_eq!(meta.depends[1].0, "base");
    match &meta.source {
        PkgSource::Http(url, size, _) => {
            assert_eq!(url, "http://mirror.example/pool/h/hello.deb");
            assert_eq!(*size, 561);
        }
        _ => panic!("expected a remote source"),
    }

    let mut pool = PackagePool::new();
    let added = import(&ps, &mut pool, "http://mirror.example");
    assert_eq!(added, 1);
    // importing again adds no duplicate of the same name and version
    let added_again = import(&ps, &mut pool, "http://mirror.example");
    assert_eq!(added_again, 0);
    assert_eq!(pool.len(), 1);
}

#[test]
fn import_skips_incomplete_paragraphs() {
    let content = b"Package: broken\nVersion: 1.0\n".to_vec();
    let ps = parse_paragraph_stream(&content).unwrap();
    let mut pool = PackagePool::new();
    let added = import(&ps, &mut pool, "http://mirror.example");
    assert_eq!(added, 0);
    assert_eq!(pool.len(), 0);
}

#[test]
fn import_accepts_utf8_text_fields() {
    let hash = "e3b0c44298fc1c149afbf4c8996fb92427ae41e4649b934ca495991b7852b855";
    let text = format!(
        "Package: hello\nSection: utils\nDescription: ein gr\u{00fc}ner Gru\u{00df} \u{2014} greeter\nVersion: 1.0\nInstalled-Size: 1\nSize: 2\nFilename: pool/h/hello.deb\nSHA256: {hash}\n"
    );
    let content = text.into_bytes();
    let ps = parse_paragraph_stream(&content).unwrap();
    let meta = fields_to_packagemeta(&ps[0], "http://mirror.example").unwrap();
    assert_eq!(meta.description, "ein gr\u{00fc}ner Gru\u{00df} \u{2014} greeter");
    let mut pool = PackagePool::new();
    assert_eq!(import(&ps, &mut pool, "http://mirror.example"), 1);
}

#[test]
fn import_rejects_invalid_utf8_text_fields() {
    let hash = "e3b0c44298fc1c149afbf4c8996fb92427ae41e4649b934ca495991b7852b855";
    let mut content = b"Package: hello\nSection: utils\nDescription: bad ".to_vec();
    content.push(0xff);
    content.extend_from_slice(
        format!(
            "\nVersion: 1.0\nInstalled-Size: 1\nSize: 2\nFilename: pool/h/hello.deb\nSHA256: {hash}\n"
        )
        .as_bytes(),
    );
    let ps = parse_paragraph_stream(&content).unwrap();
    assert!(fields_to_packagemeta(&ps[0], "http://mirror.example").is_none());
}

#[test]
fn install_steps_split_into_fresh_and_upgrades() {
    let step = |name: &str, old: Option<&str>| {
        (
            PkgInstallAction {
                name: name.to_string(),
                url: format!("http://mirror.example/{name}.deb"),
                size: 10,
                checksum: None,
                version: v("2.0"),
            },
            old.map(v),
        )
    };
    let steps = vec![step("a", None), step("b", Some("1.0")), step("c", None)];
    let (fresh, upgrades) = split_install_steps(&steps);
    assert_eq!(fresh.len(), 2);
    assert_eq!(fresh[0].0.name, "a");
    assert_eq!(fresh[1].0.name, "c");
    assert_eq!(upgrades.len(), 1);
    assert_eq!(upgrades[0].0.name, "b");
}

#[test]
fn size_change_counts_installed_bytes() {
    let mut old_a = status("a", "1", PkgState::Installed, false);
    old_a.install_size = 100;
    let mut old_c = status("c", "1", PkgState::Installed, false);
    old_c.install_size = 30;
    let ms = MachineStatus { pkgs: vec![old_a, old_c] };
    let mut new_a = meta("a", "2");
    new_a.install_size = 150;
    let mut new_b = meta("b", "1");
    new_b.install_size = 40;
    let targets = vec![new_a, new_b];
    // a=2 and b=1 come in; a=1 is displaced and c=1 removed
    let (gain, freed) = ms.size_change(&targets);
    assert_eq!(gain, 190);
    assert_eq!(freed, 130);
    // a no-op target adds and frees nothing
    let mut same_c = meta("c", "1");
    same_c.install_size = 999;
    let ms2 = MachineStatus {
        pkgs: vec![{
            let mut c = status("c", "1", PkgState::Installed, false);
            c.install_size = 30;
            c
        }],
    };
    let (gain2, freed2) = ms2.size_change(&vec![same_c]);
    assert_eq!(gain2, 0);
    assert_eq!(freed2, 0);
}

#[test]
fn machine_status_reads_installed_size() {
    let text = b"Package: a\nVersion: 1\nStatus: install ok installed\nInstalled-Size: 4242\n".to_vec();
    let ps = parse_paragraph_stream(&text).unwrap();
    let ms = MachineStatus::from_paragraphs(&ps).unwrap();
    assert_eq!(ms.pkgs[0].install_size, 4242);
}
