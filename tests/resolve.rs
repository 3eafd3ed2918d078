use libpkgx::cellar;
use libpkgx::config::Config;
use libpkgx::inventory;
use libpkgx::resolve::resolve;
use libpkgx::types::{Arch, Host, Installation, Package, PackageReq};
use libpkgx::version::Version;

fn req(s: &str) -> PackageReq {
    PackageReq::parse(s).unwrap()
}

fn pkg(p: &str, v: &str) -> Package {
    Package { project: p.to_string(), version: Version::parse(v).unwrap() }
}

fn config() -> Config {
    Config {
        pantry_dir: "/p".to_string(),
        pantry_db_file: "/p/db".to_string(),
        dist_url: "https://dist.example".to_string(),
        pkgx_dir: "/home/u/.pkgx".to_string(),
    }
}

#[test]
fn one_installed_and_the_rest_pending() {
    let reqs = vec![req("a.org^1"), req("b.org^2"), req("c.org~3.1")];
    let installed = vec![Installation { path: "/home/u/.pkgx/a.org/v1.4.0".to_string(), pkg: pkg("a.org", "1.4.0") }];
    let available = vec![pkg("b.org", "2.0.0"), pkg("b.org", "2.3.1"), pkg("c.org", "3.1.5"), pkg("c.org", "3.2.0"), pkg("a.org", "1.9.0")];
    let r = resolve(&reqs, &installed, &available).ok().expect("resolved");
    assert_eq!(r.installed.len(), 1);
    assert_eq!(r.pending.len(), 2);
    assert_eq!(r.pkgs.len(), 3);
    assert_eq!(r.installed[0].pkg.version.raw, "1.4.0");
    let raws: Vec<(String, String)> = r.pending.iter().map(|p| (p.project.clone(), p.version.raw.clone())).collect();
    assert_eq!(raws, vec![("b.org".to_string(), "2.3.1".to_string()), ("c.org".to_string(), "3.1.5".to_string())]);
    let mut projects: Vec<&String> = r.pkgs.iter().map(|p| &p.project).collect();
    projects.dedup();
    assert_eq!(projects.len(), 3);
}

#[test]
fn nothing_serves_a_requirement() {
    let reqs = vec![req("a.org^5")];
    let err = resolve(&reqs, &vec![], &vec![pkg("a.org", "1.0.0")]).err().expect("not found");
    assert_eq!(err.pkg.project, "a.org");
}

#[test]
fn store_paths_and_urls() {
    let c = config();
    let p = pkg("zlib.net", "1.3.1");
    assert_eq!(cellar::dst(&p, &c), "/home/u/.pkgx/zlib.net/v1.3.1");
    assert_eq!(
        inventory::get_url(&p, &c, Host::Linux, Arch::X86_64),
        "https://dist.example/zlib.net/linux/x86-64/v1.3.1.tar.xz"
    );
    assert_eq!(
        inventory::versions_url("zlib.net", &c, Host::Darwin, Arch::Arm64),
        "https://dist.example/zlib.net/darwin/aarch64/versions.txt"
    );
}

#[test]
fn store_listing_reads_version_directories() {
    let c = config();
    let dirs = vec!["v1.2.3".to_string(), "var".to_string(), "v2".to_string(), "tmp".to_string(), "vx".to_string()];
    let list = cellar::ls("a.org", &c, &dirs);
    let raws: Vec<&str> = list.iter().map(|i| i.pkg.version.raw.as_str()).collect();
    assert_eq!(raws, vec!["1.2.3", "2.0.0"]);
    assert_eq!(list[0].path, "/home/u/.pkgx/a.org/v1.2.3");
    let best = cellar::resolve(&req("a.org^1"), &list).unwrap();
    assert_eq!(best.pkg.version.raw, "1.2.3");
}

#[test]
fn inventory_listing_and_selection() {
    let vs = inventory::parse_listing("openssl.org", "1.1.118\n1.1.117\r\n3.0.1\nnonsense\n").unwrap();
    let raws: Vec<&str> = vs.iter().map(|v| v.raw.as_str()).collect();
    assert_eq!(raws, vec!["1.1.117", "3.0.1"]);
    assert!(inventory::parse_listing("x.org", "nothing\nhere").is_none());
    let v = inventory::select(&req("openssl.org^1"), &vs).unwrap();
    assert_eq!(v.raw, "1.1.117");
}

#[test]
fn installed_and_pending_follow_requirements() {
    let reqs = vec![req("b.org^2"), req("a.org^1"), req("c.org^3")];
    let installed = vec![
        Installation { path: "/s/a/v1.1.0".to_string(), pkg: pkg("a.org", "1.1.0") },
        Installation { path: "/s/a/v1.3.0".to_string(), pkg: pkg("a.org", "1.3.0") },
        Installation { path: "/s/c/v3.0.0".to_string(), pkg: pkg("c.org", "3.0.0") },
    ];
    let available = vec![pkg("a.org", "1.9.0"), pkg("b.org", "2.2.0"), pkg("c.org", "3.5.0")];
    let r = resolve(&reqs, &installed, &available).ok().expect("resolved");
    let inst: Vec<(&str, &str)> = r.installed.iter().map(|i| (i.pkg.project.as_str(), i.pkg.version.raw.as_str())).collect();
    assert_eq!(inst, vec![("a.org", "1.3.0"), ("c.org", "3.0.0")]);
    let pend: Vec<(&str, &str)> = r.pending.iter().map(|p| (p.project.as_str(), p.version.raw.as_str())).collect();
    assert_eq!(pend, vec![("b.org", "2.2.0")]);
    let all: Vec<&str> = r.pkgs.iter().map(|p| p.project.as_str()).collect();
    assert_eq!(all, vec!["b.org", "a.org", "c.org"]);
}

#[test]
fn store_listing_keeps_directory_order() {
    let c = config();
    let dirs = vec!["v2.0.0".to_string(), "junk".to_string(), "v1.0.0".to_string(), "v1.0.0-x".to_string()];
    let list = cellar::ls("a.org", &c, &dirs);
    let paths: Vec<&str> = list.iter().map(|i| i.path.as_str()).collect();
    assert_eq!(paths[0], "/home/u/.pkgx/a.org/v2.0.0");
    assert_eq!(paths[1], "/home/u/.pkgx/a.org/v1.0.0");
    assert_eq!(list.len(), 3);
}
