use libpkgx::version::{Version, VersionRange};

fn range(s: &str) -> VersionRange {
    VersionRange::parse(s).expect("range")
}

fn v(s: &str) -> Version {
    Version::parse(s).expect("version")
}

#[test]
fn intersect_admits_exactly_both() {
    let a = range("^1.0");
    let b = range("^1.2");
    let c = a.intersect(&b).expect("overlap");
    for t in ["1.0.0", "1.1.9", "1.2.0", "1.5.3", "1.99.0", "2.0.0", "0.9.0"] {
        let x = v(t);
        assert_eq!(c.satisfies(&x), a.satisfies(&x) && b.satisfies(&x), "{}", t);
    }
    assert!(!c.satisfies(&v("1.1.0")));
    assert!(c.satisfies(&v("1.2.0")));
}

#[test]
fn intersect_is_commutative() {
    let pairs = [("^1.0", "~1.2"), (">=1.5<3", "^2"), ("=1.2.3", "^1"), ("*", "^3.1")];
    for (p, q) in pairs {
        let a = range(p);
        let b = range(q);
        let ab = a.intersect(&b).expect("overlap");
        let ba = b.intersect(&a).expect("overlap");
        for t in ["1.0.0", "1.2.3", "1.2.9", "1.6.0", "2.0.0", "2.5.0", "3.1.0", "3.2.0", "4.0.0"] {
            let x = v(t);
            assert_eq!(ab.satisfies(&x), ba.satisfies(&x));
        }
    }
}

#[test]
fn intersect_of_disjoint_ranges_is_none() {
    assert!(range("^1.0").intersect(&range("^2.0")).is_none());
    assert!(range("=1.2.3").intersect(&range("=1.2.4")).is_none());
}

#[test]
fn wildcard_range_admits_everything() {
    let any = range("*");
    assert!(any.is_wildcard());
    assert!(any.satisfies(&v("0.0.1")));
    assert!(any.satisfies(&v("999.0.0")));
}

#[test]
fn version_parse_normalises_short_forms() {
    let x = v("1.2");
    assert_eq!((x.major, x.minor, x.patch), (1, 2, 0));
    assert_eq!(x.raw, "1.2.0");
    assert!(Version::parse("not-a-version").is_none());
    assert!(Version::parse("123456789012345678901234").is_none());
}

#[test]
fn select_picks_greatest_admitted() {
    let vs = vec![v("1.2.0"), v("1.9.1"), v("2.0.0"), v("1.3.0")];
    let k = range("^1").select(&vs).expect("some");
    assert_eq!(vs[k].raw, "1.9.1");
    assert!(range("^3").select(&vs).is_none());
}
