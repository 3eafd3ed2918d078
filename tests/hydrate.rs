use libpkgx::hydrate::{HydrateError, Hydrator};
use libpkgx::types::PackageReq;
use libpkgx::version::{Version, VersionRange};

fn req(s: &str) -> PackageReq {
    PackageReq::parse(s).expect("requirement")
}

fn run(seed: Vec<PackageReq>, deps: &[(&str, Vec<&str>)], soft: Vec<String>) -> Result<Vec<PackageReq>, HydrateError> {
    let mut h = Hydrator::new(&seed, soft)?;
    while let Some(id) = h.next() {
        let project = h.projects[id].clone();
        let list: Vec<PackageReq> = deps
            .iter()
            .filter(|(p, _)| *p == project)
            .flat_map(|(_, ds)| ds.iter().map(|d| req(d)))
            .collect();
        h.feed(id, &list)?;
    }
    Ok(h.finish())
}

#[test]
fn duplicate_seeds_merge_into_one_node() {
    let out = run(vec![req("a.org^1.0"), req("a.org^1.2")], &[], vec![]).expect("ok");
    assert_eq!(out.len(), 1);
    let expected = req("a.org^1.0").constraint.intersect(&req("a.org^1.2").constraint).expect("overlap");
    for t in ["1.0.0", "1.1.0", "1.2.0", "1.8.0", "2.0.0"] {
        let x = Version::parse(t).unwrap();
        assert_eq!(out[0].constraint.satisfies(&x), expected.satisfies(&x));
    }
    assert!(!out[0].constraint.satisfies(&Version::parse("1.1.0").unwrap()));
}

#[test]
fn diamond_dependency_yields_one_narrowed_node() {
    let deps = [
        ("root.org", vec!["a.org", "b.org"]),
        ("a.org", vec!["c.org^1.0"]),
        ("b.org", vec!["c.org^1.5"]),
    ];
    let out = run(vec![req("root.org")], &deps, vec![]).expect("ok");
    let cs: Vec<&PackageReq> = out.iter().filter(|r| r.project == "c.org").collect();
    assert_eq!(cs.len(), 1);
    assert_eq!(out.len(), 4);
    assert_eq!(out[0].project, "root.org");
    assert_eq!(out[3].project, "c.org");
    let c = &cs[0].constraint;
    assert!(!c.satisfies(&Version::parse("1.4.0").unwrap()));
    assert!(c.satisfies(&Version::parse("1.5.0").unwrap()));
    assert!(c.satisfies(&Version::parse("1.9.0").unwrap()));
    assert!(!c.satisfies(&Version::parse("2.0.0").unwrap()));
}

#[test]
fn conflicting_requirements_fail() {
    let deps = [("root.org", vec!["x.org^1.0", "y.org"]), ("y.org", vec!["x.org^2.0"])];
    match run(vec![req("root.org")], &deps, vec![]) {
        Err(HydrateError::ConstraintConflict { project, .. }) => assert_eq!(project, "x.org"),
        other => panic!("expected a conflict, got {:?}", other.map(|v| v.len())),
    }
}

#[test]
fn soft_project_keeps_both_requirements() {
    let deps = [("root.org", vec!["unicode.org^1.0", "y.org"]), ("y.org", vec!["unicode.org^2.0"])];
    let out = run(vec![req("root.org")], &deps, vec!["unicode.org".to_string()]).expect("ok");
    let us: Vec<&PackageReq> = out.iter().filter(|r| r.project == "unicode.org").collect();
    assert_eq!(us.len(), 2);
    assert_eq!(out.last().unwrap().project, "unicode.org");
}

#[test]
fn cycles_terminate() {
    let deps = [("a.org", vec!["b.org^1"]), ("b.org", vec!["a.org^1"])];
    let out = run(vec![req("a.org^1")], &deps, vec![]).expect("ok");
    assert_eq!(out.len(), 2);
}

#[test]
fn seed_conflict_fails() {
    assert!(matches!(
        Hydrator::new(&vec![req("a.org^1"), req("a.org^2")], vec![]),
        Err(HydrateError::ConstraintConflict { .. })
    ));
}

#[test]
fn malformed_range_is_refused() {
    let empty = PackageReq { project: "a.org".to_string(), constraint: VersionRange { raw: "".to_string(), set: vec![] } };
    match Hydrator::new(&vec![empty], vec![]) {
        Err(HydrateError::Malformed { project }) => assert_eq!(project, "a.org"),
        _ => panic!("expected a malformed requirement"),
    }
}

#[test]
fn new_makes_every_node_wait_and_unchanged_feed_adds_none() {
    let mut h = Hydrator::new(&vec![req("a.org^1"), req("b.org"), req("a.org^1.2")], vec![]).unwrap();
    assert_eq!(h.stack, vec![0, 1]);
    assert!(h.extra.is_empty());
    let id = h.next().unwrap();
    assert_eq!(id, 1);
    h.feed(id, &vec![req("a.org^1.2")]).unwrap();
    assert_eq!(h.stack, vec![0]);
    h.feed(id, &vec![req("a.org^1.5"), req("c.org")]).unwrap();
    assert_eq!(h.stack, vec![0, 0, 2]);
}

#[test]
fn only_soft_projects_repeat() {
    let deps = [("root.org", vec!["unicode.org^1.0", "y.org", "z.org^1"]), ("y.org", vec!["unicode.org^2.0", "z.org^1.1"])];
    let out = run(vec![req("root.org")], &deps, vec!["unicode.org".to_string()]).expect("ok");
    for (i, a) in out.iter().enumerate() {
        for b in &out[i + 1..] {
            if a.project == b.project {
                assert_eq!(a.project, "unicode.org");
            }
        }
    }
    assert_eq!(out.iter().filter(|r| r.project == "z.org").count(), 1);
}

#[test]
fn conflict_names_the_accumulated_range() {
    let deps = [("a.org", vec!["zlib.net^1.0"]), ("b.org", vec!["zlib.net^2.0"])];
    match run(vec![req("a.org"), req("b.org")], &deps, vec![]) {
        Err(HydrateError::ConstraintConflict { project, a, b }) => {
            assert_eq!(project, "zlib.net");
            let seen: Vec<bool> = ["1.0.0", "1.5.0", "2.0.0"].iter().map(|t| a.satisfies(&Version::parse(t).unwrap())).collect();
            let other: Vec<bool> = ["1.0.0", "1.5.0", "2.0.0"].iter().map(|t| b.satisfies(&Version::parse(t).unwrap())).collect();
            assert!(seen != other);
            assert!(seen.contains(&true) && other.contains(&true));
        }
        _ => panic!("expected a conflict"),
    }
}
