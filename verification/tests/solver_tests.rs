use omakase::checksum::Checksum;
use omakase::pool::{PackagePool, PkgMeta, PkgSource};
use omakase::solver::{Resolver, SolveError};
use omakase::version::{PkgVersion, VersionRequirement};
use omakase::blueprint::{parse_blueprint_line, Blueprints};

fn v(s: &str) -> PkgVersion {
    PkgVersion::try_from(s).unwrap()
}

fn meta(name: &str, ver: &str) -> PkgMeta {
    PkgMeta {
        name: name.to_string(),
        section: "utils".to_string(),
        description: "a test package".to_string(),
        version: v(ver),
        depends: Vec::new(),
        breaks: Vec::new(),
        conflicts: Vec::new(),
        recommends: None,
        suggests: None,
        provides: None,
        replaces: None,
        install_size: 10,
        essential: false,
        source: PkgSource::Http(
            format!("http://mirror.example/pool/{name}.deb"),
            1000,
            Checksum::Sha256(vec![0u8; 32]),
        ),
    }
}

fn dep(name: &str) -> (String, VersionRequirement) {
    (name.to_string(), VersionRequirement::any())
}

#[test]
fn trivial_pool() {
    let mut pool = PackagePool::new();
    let a_id = pool.add(meta("a", "1"));
    let mut b = meta("b", "1");
    b.depends = vec![dep("a")];
    let b_id = pool.add(b);

    let mut blueprint = Blueprints::new();
    blueprint.add("b", false, None, None, false).unwrap();

    let resolver = Resolver::from(pool);
    let mut sel = resolver.install(&blueprint).unwrap();
    sel.sort();
    assert_eq!(sel, vec![a_id, b_id]);
}

#[test]
fn pool_head_has_max_version() {
    let mut pool = PackagePool::new();
    let id1 = pool.add(meta("a", "1.0"));
    let id2 = pool.add(meta("a", "2.0"));
    let id0 = pool.add(meta("a", "0.5"));
    let ids = pool.pkg_name_to_ids("a");
    assert_eq!(ids.len(), 3);
    // the head is the maximum version whatever the insertion order
    assert_eq!(ids[0].0, id2);
    assert_eq!(ids[0].1.to_display_string(), "2.0");
    let listed: Vec<usize> = ids.iter().map(|p| p.0).collect();
    assert!(listed.contains(&id0));
    assert!(listed.contains(&id1));
}

#[test]
fn pool_lookup_by_id() {
    let mut pool = PackagePool::new();
    let id = pool.add(meta("x", "3.4"));
    let (name, ver) = pool.id_to_pkg(id).unwrap();
    assert_eq!(name, "x");
    assert_eq!(ver.to_display_string(), "3.4");
    assert!(pool.id_to_pkg(0).is_err());
    assert!(pool.id_to_pkg(id + 1).is_err());
}

#[test]
fn find_provide_and_replacement() {
    let mut pool = PackagePool::new();
    let mut p = meta("mailer", "1.0");
    p.provides = Some(vec![(
        "mail-transport-agent".to_string(),
        VersionRequirement::any(),
    )]);
    p.replaces = Some(vec![("oldmail".to_string(), VersionRequirement::any())]);
    let id = pool.add(p);

    assert_eq!(
        pool.find_provide("mail-transport-agent", &VersionRequirement::any()),
        Some(id)
    );
    assert_eq!(pool.find_provide("nothing", &VersionRequirement::any()), None);
    assert_eq!(pool.find_replacement("oldmail", &v("0.9")), Some(id));
    assert_eq!(pool.find_replacement("newmail", &v("0.9")), None);
}

#[test]
fn upgrade_prefers_highest_version() {
    let mut pool = PackagePool::new();
    let _a1 = pool.add(meta("a", "1"));
    let a2 = pool.add(meta("a", "2"));

    let mut blueprint = Blueprints::new();
    blueprint.add("a", false, None, None, false).unwrap();

    let resolver = Resolver::from(pool);
    let sel = resolver.install(&blueprint).unwrap();
    assert_eq!(sel, vec![a2]);
}

#[test]
fn conflict_reports_requests() {
    let mut pool = PackagePool::new();
    let mut a = meta("a", "1");
    a.conflicts = vec![dep("b")];
    pool.add(a);
    pool.add(meta("b", "1"));

    let mut blueprint = Blueprints::new();
    blueprint.add("a", false, None, None, false).unwrap();
    blueprint.add("b", false, None, None, false).unwrap();

    let resolver = Resolver::from(pool);
    match resolver.install(&blueprint) {
        Err(SolveError::Unsat(names)) => {
            assert!(names.contains(&"a".to_string()));
            assert!(names.contains(&"b".to_string()));
        }
        other => panic!("expected an unsatisfiable outcome, got {:?}", other.is_ok()),
    }
}

#[test]
fn version_bound_in_request_is_honoured() {
    let mut pool = PackagePool::new();
    let a1 = pool.add(meta("a", "1"));
    let _a2 = pool.add(meta("a", "2"));

    let mut blueprint = Blueprints::new();
    let pin = VersionRequirement {
        lower_bond: Some((v("1"), true)),
        upper_bond: Some((v("1"), true)),
    };
    blueprint.add("a", false, None, Some(pin), false).unwrap();

    let resolver = Resolver::from(pool);
    let sel = resolver.install(&blueprint).unwrap();
    assert_eq!(sel, vec![a1]);
}

#[test]
fn dependency_through_provides() {
    let mut pool = PackagePool::new();
    let mut mta = meta("mailer", "1.0");
    mta.provides = Some(vec![(
        "mail-transport-agent".to_string(),
        VersionRequirement::any(),
    )]);
    let mta_id = pool.add(mta);
    let mut app = meta("app", "1.0");
    app.depends = vec![dep("mail-transport-agent")];
    let app_id = pool.add(app);

    let mut blueprint = Blueprints::new();
    blueprint.add("app", false, None, None, false).unwrap();

    let resolver = Resolver::from(pool);
    let mut sel = resolver.install(&blueprint).unwrap();
    sel.sort();
    assert_eq!(sel, vec![mta_id, app_id]);
}

#[test]
fn recommends_expand_into_the_blueprint() {
    let mut pool = PackagePool::new();
    pool.add(meta("extra", "1"));
    let mut a = meta("a", "2");
    a.recommends = Some(vec![dep("extra"), dep("a")]);
    pool.add(a);
    pool.add(meta("a", "1"));

    let mut blueprint = Blueprints::new();
    blueprint.add("a", false, None, None, false).unwrap();
    assert!(omakase::solver::expand_recommends(&pool, &mut blueprint, "a"));
    // the recommended name is pulled in with its sponsor recorded ...
    assert!(blueprint.contains_name("extra"));
    // ... and the highest-version candidate's list was used; a request
    // already present (a itself) is left alone
    let reqs = blueprint.get_pkg_requests();
    assert_eq!(reqs.len(), 2);
    assert_eq!(reqs[1].name, "extra");
    assert_eq!(reqs[1].added_by.as_deref(), Some("a"));
    // removing the sponsor prunes what it recommended
    blueprint.remove("a", true).unwrap();
    assert!(!blueprint.contains_name("extra"));
}

#[test]
fn recommends_expansion_needs_a_candidate() {
    let pool = PackagePool::new();
    let mut blueprint = Blueprints::new();
    assert!(!omakase::solver::expand_recommends(&pool, &mut blueprint, "ghost"));
    assert_eq!(blueprint.get_pkg_requests().len(), 0);
}

#[test]
fn blueprint_lines_follow_the_grammar() {
    assert!(matches!(parse_blueprint_line(&b"".to_vec()), Some(None)));
    assert!(matches!(parse_blueprint_line(&b"   ".to_vec()), Some(None)));
    assert!(matches!(parse_blueprint_line(&b"# comment".to_vec()), Some(None)));
    let plain = parse_blueprint_line(&b"hello".to_vec()).unwrap().unwrap();
    assert_eq!(plain.name, "hello");
    assert!(plain.ver_req.is_none());
    let bounded = parse_blueprint_line(&b"hello >=2.0".to_vec()).unwrap().unwrap();
    assert_eq!(bounded.name, "hello");
    let req = bounded.ver_req.unwrap();
    assert!(req.within(&v("2.1")));
    assert!(!req.within(&v("1.9")));
    assert!(parse_blueprint_line(&b"hello nonsense".to_vec()).is_none());
}

#[test]
fn blueprints_from_lists_drop_late_duplicates() {
    let user = vec![
        parse_blueprint_line(&b"a".to_vec()).unwrap().unwrap(),
        parse_blueprint_line(&b"b".to_vec()).unwrap().unwrap(),
    ];
    let vendor = vec![
        parse_blueprint_line(&b"b <=9".to_vec()).unwrap().unwrap(),
        parse_blueprint_line(&b"c".to_vec()).unwrap().unwrap(),
    ];
    let bp = Blueprints::from_lists(user, vendor);
    let reqs = bp.get_pkg_requests();
    assert_eq!(reqs.len(), 3);
    assert_eq!(reqs[0].name, "a");
    assert_eq!(reqs[1].name, "b");
    // the user's unbounded request for b won over the vendor's
    assert!(reqs[1].ver_req.is_none());
    assert_eq!(reqs[2].name, "c");
}
