use libpkgx::pkgspec::{parse_pkgspec, Pkgspec};
use libpkgx::types::PackageReq;
use libpkgx::version::Version;
use libpkgx::which::{which, WhichError};

fn s(xs: &[&str]) -> Vec<String> {
    xs.iter().map(|x| x.to_string()).collect()
}

#[test]
fn which_picks_the_only_candidate() {
    let cmd = "node".to_string();
    assert_eq!(which(&cmd, &s(&["nodejs.org"]), &[]), Ok("nodejs.org".to_string()));
    assert_eq!(which(&cmd, &s(&[]), &[]), Err(WhichError::CmdNotFound("node".to_string())));
}

#[test]
fn which_uses_requested_packages_to_settle() {
    let cmd = "python".to_string();
    let cands = s(&["python.org", "pypy.org"]);
    let pkgs = vec![PackageReq::parse("pypy.org^7").unwrap()];
    assert_eq!(which(&cmd, &cands, &pkgs), Ok("pypy.org".to_string()));
    assert_eq!(
        which(&cmd, &cands, &[]),
        Err(WhichError::MultipleProjects("python".to_string(), cands.clone()))
    );
}

#[test]
fn pkgspec_latest_and_requirements() {
    match parse_pkgspec("node@latest").unwrap() {
        Pkgspec::Latest(p) => assert_eq!(p, "node"),
        _ => panic!("expected @latest"),
    }
    let spec = parse_pkgspec("node@latest").unwrap();
    let vs = vec![Version::parse("18.0.0").unwrap(), Version::parse("20.1.0").unwrap(), Version::parse("19.9.9").unwrap()];
    let r = spec.pkgreq(&vs);
    assert_eq!(r.project, "node");
    assert_eq!(r.constraint.raw, "=20.1.0");
    assert!(r.constraint.satisfies(&Version::parse("20.1.0").unwrap()));
    assert!(!r.constraint.satisfies(&Version::parse("20.1.1").unwrap()));
    assert!(spec.pkgreq(&vec![]).constraint.is_wildcard());
    let mut spec = parse_pkgspec("node^18").unwrap();
    spec.set_project("nodejs.org".to_string());
    assert_eq!(spec.project(), "nodejs.org");
    assert_eq!(spec.pkgreq(&vs).constraint.raw, "^18");
}
