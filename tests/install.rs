use libpkgx::install::{aliases, partial_path};
use libpkgx::install_multi::{report, ProgressBarExt};
use libpkgx::install::InstallEvent;
use libpkgx::types::Package;
use libpkgx::version::Version;
use std::cell::Cell;

fn v(s: &str) -> Version {
    Version::parse(s).unwrap()
}

#[test]
fn newer_patch_takes_every_alias() {
    let installed = vec![v("1.2.3")];
    assert_eq!(aliases(&installed, &v("1.2.3")), vec!["v1.2", "v1", "v*"]);
    let installed = vec![v("1.2.3"), v("1.2.4")];
    assert_eq!(aliases(&installed, &v("1.2.4")), vec!["v1.2", "v1", "v*"]);
}

#[test]
fn older_version_moves_no_alias() {
    let installed = vec![v("1.2.3"), v("1.2.4"), v("1.1.9")];
    assert_eq!(aliases(&installed, &v("1.1.9")), vec!["v1.1"]);
    let installed = vec![v("1.2.3"), v("1.2.4"), v("1.2.1")];
    assert!(aliases(&installed, &v("1.2.1")).is_empty());
}

#[test]
fn newest_of_major_but_not_of_all() {
    let installed = vec![v("1.4.0"), v("2.0.0")];
    assert_eq!(aliases(&installed, &v("1.4.0")), vec!["v1.4", "v1"]);
}

#[test]
fn archive_layout_path() {
    let p = Package { project: "gnu.org/wget".to_string(), version: v("1.21.4") };
    assert_eq!(partial_path(&p), "gnu.org/wget/v1.21.4");
}

struct Bar {
    len: Cell<u64>,
    pos: Cell<u64>,
}

impl ProgressBarExt for Bar {
    fn inc(&self, n: u64) {
        self.pos.set(self.pos.get() + n);
    }

    fn inc_length(&self, n: u64) {
        self.len.set(self.len.get() + n);
    }
}

#[test]
fn progress_events_reach_the_bar() {
    let bar = Bar { len: Cell::new(0), pos: Cell::new(0) };
    report(&bar, InstallEvent::DownloadSize(100));
    report(&bar, InstallEvent::Progress(30));
    report(&bar, InstallEvent::Progress(20));
    assert_eq!(bar.len.get(), 100);
    assert_eq!(bar.pos.get(), 50);
}
