use libpkgx::types::{host, Arch, Host, PackageReq, ReqError};

#[test]
fn parse_splits_project_and_range() {
    let r = PackageReq::parse("node^20").unwrap();
    assert_eq!(r.project, "node");
    assert_eq!(r.constraint.raw, "^20");
    let r = PackageReq::parse("  openssl.org@1.1  ").unwrap();
    assert_eq!(r.project, "openssl.org");
    assert_eq!(r.constraint.raw, "@1.1");
    let r = PackageReq::parse("git").unwrap();
    assert_eq!(r.project, "git");
    assert!(r.constraint.is_wildcard());
}

#[test]
fn parse_errors() {
    assert_eq!(PackageReq::parse("   ").unwrap_err(), ReqError::InvalidSpec);
    assert_eq!(PackageReq::parse("a\nb").unwrap_err(), ReqError::InvalidSpec);
    assert_eq!(PackageReq::parse("node^banana").unwrap_err(), ReqError::InvalidConstraint);
}

#[test]
fn requirement_text_round_trips() {
    for s in ["node^20", "python.org~3.11", "zlib.net>=1.2<2", "curl.se=8.1.2", "deno.land@1.40"] {
        let r = PackageReq::parse(s).unwrap();
        let back = PackageReq::parse(&r.to_string()).unwrap();
        assert_eq!(back.project, r.project);
        assert_eq!(back.constraint.raw, r.constraint.raw);
        assert_eq!(r.to_string(), s);
    }
    let w = PackageReq::parse("git-scm.org").unwrap();
    assert_eq!(w.to_string(), "git-scm.org");
    let back = PackageReq::parse(&w.to_string()).unwrap();
    assert!(back.constraint.is_wildcard());
}

#[test]
fn host_names() {
    assert!(matches!(host("linux", "x86_64"), Some((Host::Linux, Arch::X86_64))));
    assert!(matches!(host("macos", "aarch64"), Some((Host::Darwin, Arch::Arm64))));
    assert!(host("windows", "x86_64").is_none());
    assert_eq!(Host::Linux.name(), "linux");
    assert_eq!(Arch::X86_64.name(), "x86-64");
}
