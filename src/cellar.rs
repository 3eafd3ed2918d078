//! The package store: installed versions of a project and where a version goes.
use crate::config::{join, joined, Config};
use crate::text::{chars_of, string_of};
use crate::types::{Installation, Package, PackageReq};
use crate::version::{before, not_after, version_of_text, Version};
use vstd::prelude::*;

verus! {

/// `<pkgx_dir>/<project>/v<version>`.
pub open spec fn dst_text(pkg: Package, pkgx_dir: Seq<char>) -> Seq<char> {
    joined(joined(pkgx_dir, pkg.project@), seq!['v'] + pkg.version.raw@)
}

/// Where a package is installed.
pub fn dst(pkg: &Package, config: &Config) -> (r: String)
    ensures
        r@ == dst_text(*pkg, config.pkgx_dir@),
{
    let shelf = join(config.pkgx_dir.as_str(), pkg.project.as_str());
    let mut t: Vec<char> = Vec::new();
    t.push('v');
    let raw = chars_of(pkg.version.raw.as_str());
    crate::text::append_chars(&mut t, &raw);
    let name = string_of(&t);
    join(shelf.as_str(), name.as_str())
}

/// The version a store entry's name stands for: `v` followed by a version, but not `var`.
pub open spec fn entry_version(name: Seq<char>) -> Option<crate::version::VersionView> {
    if name.len() == 0 || name[0] != 'v' || name == seq!['v', 'a', 'r'] {
        None
    } else {
        version_of_text(name.skip(1))
    }
}

impl Package {
    pub fn duplicate(&self) -> (r: Package)
        ensures
            r == *self,
    {
        Package { project: self.project.clone(), version: self.version.duplicate() }
    }
}

impl Installation {
    pub fn duplicate(&self) -> (r: Installation)
        ensures
            r == *self,
    {
        Installation { path: self.path.clone(), pkg: self.pkg.duplicate() }
    }
}

/// The version directories among the first `n` of `dirs`: each name that is a version,
/// with that version, in order.
pub open spec fn store_entries(dirs: Seq<String>, n: int) -> Seq<(Seq<char>, crate::version::VersionView)>
    decreases n,
{
    if n <= 0 {
        Seq::empty()
    } else {
        store_entries(dirs, n - 1) + match entry_version(dirs[n - 1]@) {
            Some(v) => seq![(dirs[n - 1]@, v)],
            None => Seq::empty(),
        }
    }
}

/// The installations of `project` in the store: `dirs` holds the names of the directories
/// (not links) in the project's directory. There is one installation per name that is a
/// version, in the order of `dirs`.
pub fn ls(project: &str, config: &Config, dirs: &Vec<String>) -> (r: Vec<Installation>)
    ensures
        r@.len() == store_entries(dirs@, dirs@.len() as int).len(),
        forall|k: int| 0 <= k < r@.len() ==> (#[trigger] r@[k]).pkg.project@ == project@
            && r@[k].pkg.version@ == store_entries(dirs@, dirs@.len() as int)[k].1
            && r@[k].path@ == joined(joined(config.pkgx_dir@, project@), store_entries(dirs@, dirs@.len() as int)[k].0),
{
    let shelf = join(config.pkgx_dir.as_str(), project);
    let mut out: Vec<Installation> = Vec::new();
    let mut j: usize = 0;
    while j < dirs.len()
        invariant
            j <= dirs@.len(),
            shelf@ == joined(config.pkgx_dir@, project@),
            out@.len() == store_entries(dirs@, j as int).len(),
            forall|k: int| 0 <= k < out@.len() ==> (#[trigger] out@[k]).pkg.project@ == project@
                && out@[k].pkg.version@ == store_entries(dirs@, j as int)[k].1
                && out@[k].path@ == joined(joined(config.pkgx_dir@, project@), store_entries(dirs@, j as int)[k].0),
        decreases dirs@.len() - j,
    {
        let ghost e0 = store_entries(dirs@, j as int);
        let ghost before = out@;
        let name = chars_of(dirs[j].as_str());
        let skip = name.len() == 0 || name[0] != 'v' || (name.len() == 3 && name[1] == 'a' && name[2] == 'r');
        proof {
            if name@.len() == 3 && name@[0] == 'v' && name@[1] == 'a' && name@[2] == 'r' {
                assert(name@ =~= seq!['v', 'a', 'r']);
            }
            if name@ == seq!['v', 'a', 'r'] {
                assert(name@.len() == 3 && name@[1] == 'a');
            }
        }
        let mut found: Option<Version> = None;
        if !skip {
            let rest = crate::text::slice_chars(&name, 1, name.len());
            let text = string_of(&rest);
            assert(rest@ =~= name@.skip(1));
            found = Version::parse(text.as_str());
        }
        assert(found is None <==> entry_version(dirs@[j as int]@) is None);
        match found {
            Some(v) => {
                let path = join(shelf.as_str(), dirs[j].as_str());
                out.push(Installation { path, pkg: Package { project: String::from_str(project), version: v } });
                proof {
                    let e1 = store_entries(dirs@, j + 1);
                    assert(e1 == e0 + seq![(dirs@[j as int]@, entry_version(dirs@[j as int]@)->0)]);
                    assert forall|k: int| 0 <= k < out@.len() implies (#[trigger] out@[k]).pkg.project@ == project@
                        && out@[k].pkg.version@ == e1[k].1
                        && out@[k].path@ == joined(joined(config.pkgx_dir@, project@), e1[k].0) by {
                        if k < before.len() {
                            assert(out@[k] == before[k]);
                            assert(e1[k] == e0[k]);
                        }
                    }
                }
            },
            None => {
                assert(store_entries(dirs@, j + 1) =~= e0);
            },
        }
        j = j + 1;
    }
    out
}

/// `i` is installed for `req`: same project, and a version the range admits.
pub open spec fn serves(req: PackageReq, i: Installation) -> bool {
    i.pkg.project@ == req.project@ && req.constraint.holds(i.pkg.version)
}

/// The position of the greatest installed version that serves `req` (the last of equal
/// ones), or `None` when none serves it.
pub fn best(req: &PackageReq, installations: &Vec<Installation>) -> (r: Option<usize>)
    ensures
        r is None <==> forall|i: int| 0 <= i < installations@.len() ==> !serves(*req, #[trigger] installations@[i]),
        r matches Some(k) ==> k < installations@.len() && serves(*req, installations@[k as int])
            && (forall|i: int| 0 <= i < installations@.len() && serves(*req, #[trigger] installations@[i])
                ==> not_after(installations@[i].pkg.version, installations@[k as int].pkg.version)),
{
    let mut found: Option<usize> = None;
    let mut i: usize = 0;
    while i < installations.len()
        invariant
            i <= installations@.len(),
            found is None <==> forall|j: int| 0 <= j < i ==> !serves(*req, #[trigger] installations@[j]),
            found matches Some(k) ==> k < i && serves(*req, installations@[k as int])
                && (forall|j: int| 0 <= j < i && serves(*req, #[trigger] installations@[j])
                    ==> not_after(installations@[j].pkg.version, installations@[k as int].pkg.version)),
        decreases installations@.len() - i,
    {
        let c = &installations[i];
        if c.pkg.project == req.project && req.constraint.satisfies(&c.pkg.version) {
            match found {
                None => {
                    found = Some(i);
                },
                Some(k) => {
                    if !c.pkg.version.is_before(&installations[k].pkg.version) {
                        found = Some(i);
                    }
                },
            }
        }
        i = i + 1;
    }
    found
}

/// The installed version that best serves `req`: the greatest one it admits.
pub fn resolve(req: &PackageReq, installations: &Vec<Installation>) -> (r: Option<Installation>)
    ensures
        r is None <==> forall|i: int| 0 <= i < installations@.len() ==> !serves(*req, #[trigger] installations@[i]),
        r matches Some(x) ==> serves(*req, x) && (exists|k: int| 0 <= k < installations@.len() && installations@[k] == x)
            && (forall|i: int| 0 <= i < installations@.len() && serves(*req, #[trigger] installations@[i])
                ==> not_after(installations@[i].pkg.version, x.pkg.version)),
{
    match best(req, installations) {
        Some(k) => Some(installations[k].duplicate()),
        None => None,
    }
}

} // verus!
