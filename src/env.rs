//! The environment composition engine: search paths from installation layouts, merged
//! with the parent environment and with per-package runtime templates.
use crate::config::{join, joined};
use crate::text::{
    append_chars, chars_of, contains_chars, contains_seq, decimal, decimal_chars, replace_all,
    replace_chars, starts_with, string_of,
};
pub use crate::platform_case_aware_env_key::{construct_platform_case_aware_env_key, CaseInsensitiveKey};
use crate::types::{Host, Installation};
use vstd::prelude::*;

verus! {

/// The separator of path lists.
pub const SEP: char = ':';

/// The variables whose values are derived from installation layouts.
#[derive(Debug, Clone, Copy, PartialEq, Eq, Structural)]
pub enum EnvKey {
    Path,
    Manpath,
    PkgConfigPath,
    LibraryPath,
    LdLibraryPath,
    Cpath,
    XdgDataDirs,
    CmakePrefixPath,
    DyldFallbackLibraryPath,
    SslCertFile,
    Ldflags,
    PkgxDir,
    AclocalPath,
}

impl EnvKey {
    pub open spec fn name_spec(&self) -> Seq<char> {
        match self {
            EnvKey::Path => "PATH"@,
            EnvKey::Manpath => "MANPATH"@,
            EnvKey::PkgConfigPath => "PKG_CONFIG_PATH"@,
            EnvKey::LibraryPath => "LIBRARY_PATH"@,
            EnvKey::LdLibraryPath => "LD_LIBRARY_PATH"@,
            EnvKey::Cpath => "CPATH"@,
            EnvKey::XdgDataDirs => "XDG_DATA_DIRS"@,
            EnvKey::CmakePrefixPath => "CMAKE_PREFIX_PATH"@,
            EnvKey::DyldFallbackLibraryPath => "DYLD_FALLBACK_LIBRARY_PATH"@,
            EnvKey::SslCertFile => "SSL_CERT_FILE"@,
            EnvKey::Ldflags => "LDFLAGS"@,
            EnvKey::PkgxDir => "PKGX_DIR"@,
            EnvKey::AclocalPath => "ACLOCAL_PATH"@,
        }
    }

    /// The variable's name.
    pub fn name(&self) -> (r: &'static str)
        ensures
            r@ == self.name_spec(),
    {
        match self {
            EnvKey::Path => "PATH",
            EnvKey::Manpath => "MANPATH",
            EnvKey::PkgConfigPath => "PKG_CONFIG_PATH",
            EnvKey::LibraryPath => "LIBRARY_PATH",
            EnvKey::LdLibraryPath => "LD_LIBRARY_PATH",
            EnvKey::Cpath => "CPATH",
            EnvKey::XdgDataDirs => "XDG_DATA_DIRS",
            EnvKey::CmakePrefixPath => "CMAKE_PREFIX_PATH",
            EnvKey::DyldFallbackLibraryPath => "DYLD_FALLBACK_LIBRARY_PATH",
            EnvKey::SslCertFile => "SSL_CERT_FILE",
            EnvKey::Ldflags => "LDFLAGS",
            EnvKey::PkgxDir => "PKGX_DIR",
            EnvKey::AclocalPath => "ACLOCAL_PATH",
        }
    }
}

/// The variables derived on a platform, in order; the dynamic loader's fallback path is
/// Darwin's alone.
pub open spec fn keys_spec(host: Host) -> Seq<EnvKey> {
    let common = seq![EnvKey::Path, EnvKey::Manpath, EnvKey::PkgConfigPath, EnvKey::LibraryPath,
        EnvKey::LdLibraryPath, EnvKey::Cpath, EnvKey::XdgDataDirs, EnvKey::CmakePrefixPath];
    let rest = seq![EnvKey::SslCertFile, EnvKey::Ldflags, EnvKey::PkgxDir, EnvKey::AclocalPath];
    if host == Host::Darwin {
        common + seq![EnvKey::DyldFallbackLibraryPath] + rest
    } else {
        common + rest
    }
}

/// The variables of a platform have distinct names.
proof fn lemma_keys_distinct(host: Host)
    ensures
        forall|a: int, b: int| 0 <= a < b < keys_spec(host).len() ==>
            (#[trigger] keys_spec(host)[a]).name_spec() != (#[trigger] keys_spec(host)[b]).name_spec(),
{
    reveal_strlit("PATH");
    reveal_strlit("MANPATH");
    reveal_strlit("PKG_CONFIG_PATH");
    reveal_strlit("LIBRARY_PATH");
    reveal_strlit("LD_LIBRARY_PATH");
    reveal_strlit("CPATH");
    reveal_strlit("XDG_DATA_DIRS");
    reveal_strlit("CMAKE_PREFIX_PATH");
    reveal_strlit("DYLD_FALLBACK_LIBRARY_PATH");
    reveal_strlit("SSL_CERT_FILE");
    reveal_strlit("LDFLAGS");
    reveal_strlit("PKGX_DIR");
    reveal_strlit("ACLOCAL_PATH");
    let ks = keys_spec(host);
    assert forall|a: int, b: int| 0 <= a < b < ks.len() implies (#[trigger] ks[a]).name_spec() != (#[trigger] ks[b]).name_spec() by {
        let x = ks[a].name_spec();
        let y = ks[b].name_spec();
        assert(x.len() != y.len() || x[0] != y[0]);
    }
}

pub fn keys(host: Host) -> (r: Vec<EnvKey>)
    ensures
        r@ == keys_spec(host),
{
    let mut v: Vec<EnvKey> = Vec::new();
    v.push(EnvKey::Path);
    v.push(EnvKey::Manpath);
    v.push(EnvKey::PkgConfigPath);
    v.push(EnvKey::LibraryPath);
    v.push(EnvKey::LdLibraryPath);
    v.push(EnvKey::Cpath);
    v.push(EnvKey::XdgDataDirs);
    v.push(EnvKey::CmakePrefixPath);
    if host == Host::Darwin {
        v.push(EnvKey::DyldFallbackLibraryPath);
    }
    v.push(EnvKey::SslCertFile);
    v.push(EnvKey::Ldflags);
    v.push(EnvKey::PkgxDir);
    v.push(EnvKey::AclocalPath);
    assert(v@ =~= keys_spec(host));
    v
}

/// The subdirectories of an installation that a variable lists.
pub open spec fn suffixes_spec(key: EnvKey) -> Seq<Seq<char>> {
    match key {
        EnvKey::Path => seq!["bin"@, "sbin"@],
        EnvKey::Manpath => seq!["man"@, "share/man"@],
        EnvKey::PkgConfigPath => seq!["share/pkgconfig"@, "lib/pkgconfig"@],
        EnvKey::XdgDataDirs => seq!["share"@],
        EnvKey::AclocalPath => seq!["share/aclocal"@],
        EnvKey::LibraryPath | EnvKey::LdLibraryPath | EnvKey::DyldFallbackLibraryPath => seq!["lib"@, "lib64"@],
        EnvKey::Cpath => seq!["include"@],
        _ => Seq::empty(),
    }
}

/// The subdirectories of an installation that `key` lists, or `None` for a variable that
/// lists none.
pub fn suffixes(key: &EnvKey) -> (r: Option<Vec<&'static str>>)
    ensures
        match r {
            Some(v) => v@.len() > 0 && v@.len() == suffixes_spec(*key).len()
                && forall|i: int| 0 <= i < v@.len() ==> (#[trigger] v@[i])@ == suffixes_spec(*key)[i],
            None => suffixes_spec(*key).len() == 0,
        },
{
    let r: Option<Vec<&'static str>> = match key {
        EnvKey::Path => Some(vec!["bin", "sbin"]),
        EnvKey::Manpath => Some(vec!["man", "share/man"]),
        EnvKey::PkgConfigPath => Some(vec!["share/pkgconfig", "lib/pkgconfig"]),
        EnvKey::XdgDataDirs => Some(vec!["share"]),
        EnvKey::AclocalPath => Some(vec!["share/aclocal"]),
        EnvKey::LibraryPath | EnvKey::LdLibraryPath | EnvKey::DyldFallbackLibraryPath => Some(vec!["lib", "lib64"]),
        EnvKey::Cpath => Some(vec!["include"]),
        _ => None,
    };
    r
}

/// A list without repeats that keeps the order in which items first came.
pub struct OrderedSet {
    pub items: Vec<String>,
}

/// `s` without repeats, keeping first occurrences.
pub open spec fn dedup(s: Seq<Seq<char>>) -> Seq<Seq<char>>
    decreases s.len(),
{
    if s.len() == 0 {
        Seq::empty()
    } else if s.drop_last().contains(s.last()) {
        dedup(s.drop_last())
    } else {
        dedup(s.drop_last()).push(s.last())
    }
}

proof fn lemma_dedup_contains(s: Seq<Seq<char>>, x: Seq<char>)
    ensures
        dedup(s).contains(x) <==> s.contains(x),
    decreases s.len(),
{
    if s.len() > 0 {
        let p = s.drop_last();
        lemma_dedup_contains(p, x);
        lemma_dedup_contains(p, s.last());
        if s.contains(x) {
            let k = choose|k: int| 0 <= k < s.len() && s[k] == x;
            if k < s.len() - 1 {
                assert(p[k] == x);
            }
        }
        if p.contains(x) {
            let k = choose|k: int| 0 <= k < p.len() && p[k] == x;
            assert(s[k] == x);
        }
        if !p.contains(s.last()) {
            let d = dedup(p).push(s.last());
            assert(d[d.len() - 1] == s.last());
            if dedup(p).contains(x) {
                let k = choose|k: int| 0 <= k < dedup(p).len() && dedup(p)[k] == x;
                assert(d[k] == x);
            }
            if d.contains(x) && x != s.last() {
                let k = choose|k: int| 0 <= k < d.len() && d[k] == x;
                assert(dedup(p)[k] == x);
            }
        }
    }
}

pub open spec fn strs(v: Seq<String>) -> Seq<Seq<char>> {
    v.map_values(|s: String| s@)
}

impl OrderedSet {
    pub open spec fn view_items(&self) -> Seq<Seq<char>> {
        strs(self.items@)
    }

    pub fn new() -> (r: OrderedSet)
        ensures
            r.items@.len() == 0,
    {
        OrderedSet { items: Vec::new() }
    }

    /// Appends `item` unless it is already there.
    pub fn add(&mut self, item: String)
        ensures
            final(self).view_items() == if old(self).view_items().contains(item@) {
                old(self).view_items()
            } else {
                old(self).view_items().push(item@)
            },
    {
        let mut i: usize = 0;
        while i < self.items.len()
            invariant
                i <= self.items@.len(),
                forall|k: int| 0 <= k < i ==> (#[trigger] self.items@[k])@ != item@,
            decreases self.items@.len() - i,
        {
            if self.items[i] == item {
                assert(self.view_items()[i as int] == item@);
                return;
            }
            i = i + 1;
        }
        assert(!self.view_items().contains(item@)) by {
            if self.view_items().contains(item@) {
                let k = choose|k: int| 0 <= k < self.view_items().len() && self.view_items()[k] == item@;
                assert(self.items@[k]@ == item@);
            }
        }
        self.items.push(item);
        assert(self.view_items() =~= old(self).view_items().push(item@));
    }
}

/// The paths that installation `inst` gives variable `key`: each listed subdirectory that
/// is among `dirs`, then the installation itself for CMake's prefix path when CMake is
/// installed.
pub open spec fn inst_paths(inst: Installation, key: EnvKey, dirs: Seq<Seq<char>>, cmake: bool) -> Seq<Seq<char>> {
    sub_paths(inst.path@, suffixes_spec(key), dirs)
        + if cmake && key == EnvKey::CmakePrefixPath { seq![inst.path@] } else { Seq::empty() }
}

/// `root/s` for each `s` of `sfx` that is among `dirs`.
pub open spec fn sub_paths(root: Seq<char>, sfx: Seq<Seq<char>>, dirs: Seq<Seq<char>>) -> Seq<Seq<char>>
    decreases sfx.len(),
{
    if sfx.len() == 0 {
        Seq::empty()
    } else {
        let p = joined(root, sfx.last());
        sub_paths(root, sfx.drop_last(), dirs) + if dirs.contains(p) { seq![p] } else { Seq::empty() }
    }
}

pub open spec fn all_paths(insts: Seq<Installation>, key: EnvKey, dirs: Seq<Seq<char>>, cmake: bool) -> Seq<Seq<char>>
    decreases insts.len(),
{
    if insts.len() == 0 {
        Seq::empty()
    } else {
        all_paths(insts.drop_last(), key, dirs, cmake) + inst_paths(insts.last(), key, dirs, cmake)
    }
}

/// System directories kept after a variable's derived entries so that they add to, rather
/// than replace, what the system searches.
pub open spec fn system_paths(key: EnvKey) -> Seq<Seq<char>> {
    match key {
        EnvKey::Manpath => seq!["/usr/share/man"@],
        EnvKey::XdgDataDirs => seq!["/usr/local/share"@, "/usr/share"@],
        _ => Seq::empty(),
    }
}

/// The paths of variable `key`: every installation's, in order and without repeats, and
/// then its system directories where there were any.
pub open spec fn key_paths(insts: Seq<Installation>, key: EnvKey, dirs: Seq<Seq<char>>, cmake: bool) -> Seq<Seq<char>> {
    let a = all_paths(insts, key, dirs, cmake);
    if a.len() == 0 { a } else { dedup(a + system_paths(key)) }
}

/// Some installation is of CMake.
pub open spec fn has_cmake(insts: Seq<Installation>) -> bool {
    exists|i: int| 0 <= i < insts.len() && (#[trigger] insts[i]).pkg.project@ == "cmake.org"@
}

fn add_all(set: &mut OrderedSet, items: &Vec<String>)
    ensures
        final(set).view_items() == dedup_onto(old(set).view_items(), strs(items@)),
{
    let mut i: usize = 0;
    while i < items.len()
        invariant
            i <= items@.len(),
            set.view_items() == dedup_onto(old(set).view_items(), strs(items@).take(i as int)),
        decreases items@.len() - i,
    {
        let ghost before = set.view_items();
        set.add(items[i].clone());
        proof {
            let t = strs(items@).take(i + 1);
            assert(t.drop_last() =~= strs(items@).take(i as int));
            assert(t.last() == items@[i as int]@);
        }
        i = i + 1;
    }
    assert(strs(items@).take(items@.len() as int) =~= strs(items@));
}

/// Adding each of `s` in turn to a list without repeats.
pub open spec fn dedup_onto(base: Seq<Seq<char>>, s: Seq<Seq<char>>) -> Seq<Seq<char>>
    decreases s.len(),
{
    if s.len() == 0 {
        base
    } else {
        let d = dedup_onto(base, s.drop_last());
        if d.contains(s.last()) { d } else { d.push(s.last()) }
    }
}

proof fn lemma_dedup_onto_empty(s: Seq<Seq<char>>)
    ensures
        dedup_onto(Seq::empty(), s) == dedup(s),
    decreases s.len(),
{
    if s.len() > 0 {
        lemma_dedup_onto_empty(s.drop_last());
        lemma_dedup_contains(s.drop_last(), s.last());
    }
}

proof fn lemma_dedup_onto_concat(base: Seq<Seq<char>>, a: Seq<Seq<char>>, b: Seq<Seq<char>>)
    ensures
        dedup_onto(dedup_onto(base, a), b) == dedup_onto(base, a + b),
    decreases b.len(),
{
    if b.len() == 0 {
        assert(a + b =~= a);
    } else {
        lemma_dedup_onto_concat(base, a, b.drop_last());
        assert((a + b).drop_last() =~= a + b.drop_last());
        assert((a + b).last() == b.last());
    }
}


proof fn lemma_dedup_onto_push(base: Seq<Seq<char>>, a: Seq<Seq<char>>, x: Seq<char>)
    ensures
        dedup_onto(base, a.push(x)) == if dedup_onto(base, a).contains(x) { dedup_onto(base, a) } else {
            dedup_onto(base, a).push(x) },
{
    assert(a.push(x).drop_last() =~= a);
}

proof fn lemma_dedup_onto_nonempty(a: Seq<Seq<char>>)
    ensures
        dedup_onto(Seq::empty(), a).len() == 0 <==> a.len() == 0,
{
    lemma_dedup_onto_empty(a);
    if a.len() > 0 {
        lemma_dedup_contains(a, a.last());
        assert(a.contains(a.last())) by { assert(a[a.len() - 1] == a.last()); }
    }
}

fn dirs_contain(dirs: &Vec<String>, p: &String) -> (r: bool)
    ensures
        r == strs(dirs@).contains(p@),
{
    let mut i: usize = 0;
    while i < dirs.len()
        invariant
            i <= dirs@.len(),
            forall|k: int| 0 <= k < i ==> (#[trigger] dirs@[k])@ != p@,
        decreases dirs@.len() - i,
    {
        if dirs[i] == *p {
            assert(strs(dirs@)[i as int] == p@);
            return true;
        }
        i = i + 1;
    }
    assert(!strs(dirs@).contains(p@)) by {
        if strs(dirs@).contains(p@) {
            let k = choose|k: int| 0 <= k < strs(dirs@).len() && strs(dirs@)[k] == p@;
            assert(dirs@[k]@ == p@);
        }
    }
    false
}

fn any_cmake(insts: &Vec<Installation>) -> (r: bool)
    ensures
        r == has_cmake(insts@),
{
    let name = String::from_str("cmake.org");
    let mut i: usize = 0;
    while i < insts.len()
        invariant
            i <= insts@.len(),
            name@ == "cmake.org"@,
            forall|k: int| 0 <= k < i ==> (#[trigger] insts@[k]).pkg.project@ != "cmake.org"@,
        decreases insts@.len() - i,
    {
        if insts[i].pkg.project == name {
            return true;
        }
        i = i + 1;
    }
    false
}

/// The paths of one variable, as `key_paths` gives them.
fn paths_for(key: EnvKey, insts: &Vec<Installation>, dirs: &Vec<String>, cmake: bool) -> (r: OrderedSet)
    ensures
        r.view_items() == key_paths(insts@, key, strs(dirs@), cmake),
{
    let ghost d = strs(dirs@);
    let mut set = OrderedSet::new();
    assert(set.view_items() =~= Seq::<Seq<char>>::empty());
    let sfx = suffixes(&key);
    let sv: Vec<&'static str> = match sfx {
        Some(v) => v,
        None => Vec::new(),
    };
    let mut i: usize = 0;
    while i < insts.len()
        invariant
            i <= insts@.len(),
            d == strs(dirs@),
            sv@.len() == suffixes_spec(key).len(),
            forall|k: int| 0 <= k < sv@.len() ==> (#[trigger] sv@[k])@ == suffixes_spec(key)[k],
            set.view_items() == dedup_onto(Seq::empty(), all_paths(insts@.take(i as int), key, d, cmake)),
        decreases insts@.len() - i,
    {
        let inst = &insts[i];
        let ghost base = all_paths(insts@.take(i as int), key, d, cmake);
        let mut j: usize = 0;
        let n: usize = sv.len();
        while j < n
            invariant
                i < insts@.len(),
                inst == insts@[i as int],
                j <= n,
                n == suffixes_spec(key).len(),
                d == strs(dirs@),
                sv@.len() == suffixes_spec(key).len(),
                forall|k: int| 0 <= k < sv@.len() ==> (#[trigger] sv@[k])@ == suffixes_spec(key)[k],
                set.view_items() == dedup_onto(Seq::empty(), base + sub_paths(inst.path@, suffixes_spec(key).take(j as int), d)),
            decreases n - j,
        {
            let part: &str = sv[j];
            assert(part@ == suffixes_spec(key)[j as int]);
            let p = join(inst.path.as_str(), part);
            let ghost before = base + sub_paths(inst.path@, suffixes_spec(key).take(j as int), d);
            proof {
                let t = suffixes_spec(key).take(j + 1);
                assert(t.drop_last() =~= suffixes_spec(key).take(j as int));
                assert(t.last() == suffixes_spec(key)[j as int]);
                assert(sub_paths(inst.path@, t, d) == sub_paths(inst.path@, suffixes_spec(key).take(j as int), d)
                    + if d.contains(p@) { seq![p@] } else { Seq::empty() });
            }
            if dirs_contain(dirs, &p) {
                set.add(p);
                proof {
                    lemma_dedup_onto_push(Seq::empty(), before, p@);
                    assert(before.push(p@) =~= base + sub_paths(inst.path@, suffixes_spec(key).take(j + 1), d));
                }
            } else {
                assert(before =~= base + sub_paths(inst.path@, suffixes_spec(key).take(j + 1), d));
            }
            j = j + 1;
        }
        let ghost mid = base + sub_paths(inst.path@, suffixes_spec(key), d);
        assert(suffixes_spec(key).take(n as int) =~= suffixes_spec(key));
        if cmake && key == EnvKey::CmakePrefixPath {
            set.add(inst.path.clone());
            proof {
                lemma_dedup_onto_push(Seq::empty(), mid, inst.path@);
                assert(mid.push(inst.path@) =~= base + inst_paths(*inst, key, d, cmake));
            }
        } else {
            assert(mid =~= base + inst_paths(*inst, key, d, cmake));
        }
        proof {
            let t = insts@.take(i + 1);
            assert(t.drop_last() =~= insts@.take(i as int));
            assert(t.last() == insts@[i as int]);
        }
        i = i + 1;
    }
    assert(insts@.take(insts@.len() as int) =~= insts@);
    let ghost a = all_paths(insts@, key, d, cmake);
    proof {
        lemma_dedup_onto_nonempty(a);
        lemma_dedup_onto_empty(a + system_paths(key));
        lemma_dedup_onto_concat(Seq::empty(), a, system_paths(key));
    }
    if set.items.len() > 0 {
        let mut extra: Vec<String> = Vec::new();
        if key == EnvKey::Manpath {
            extra.push(String::from_str("/usr/share/man"));
        } else if key == EnvKey::XdgDataDirs {
            extra.push(String::from_str("/usr/local/share"));
            extra.push(String::from_str("/usr/share"));
        }
        assert(strs(extra@) =~= system_paths(key));
        add_all(&mut set, &extra);
    }
    set
}

/// The variables derived from `keys` in order, with their paths, leaving out those with none.
pub open spec fn derived(insts: Seq<Installation>, dirs: Seq<Seq<char>>, cmake: bool, ks: Seq<EnvKey>)
    -> Seq<(Seq<char>, Seq<Seq<char>>)>
    decreases ks.len(),
{
    if ks.len() == 0 {
        Seq::empty()
    } else {
        let p = key_paths(insts, ks.last(), dirs, cmake);
        derived(insts, dirs, cmake, ks.drop_last()) + if p.len() > 0 { seq![(ks.last().name_spec(), p)] } else { Seq::empty() }
    }
}

pub open spec fn entries(r: Seq<(String, Vec<String>)>) -> Seq<(Seq<char>, Seq<Seq<char>>)> {
    r.map_values(|e: (String, Vec<String>)| (e.0@, strs(e.1@)))
}

/// The search-path variables that the installations give: for each variable of the
/// platform, in order, the installation subdirectories it lists that are among `dirs` (the
/// candidates that exist as directories), each once, in the order of the installations;
/// CMake's prefix path also lists every installation when CMake is one of them; `MANPATH`
/// and `XDG_DATA_DIRS` then keep the system's directories. Variables with no path are left
/// out.
pub fn map(installations: &Vec<Installation>, dirs: &Vec<String>, host: Host) -> (r: Vec<(String, Vec<String>)>)
    ensures
        entries(r@) == derived(installations@, strs(dirs@), has_cmake(installations@), keys_spec(host)),
        names_unique(r@),
{
    proof {
        lemma_keys_distinct(host);
    }
    let cmake = any_cmake(installations);
    let ks = keys(host);
    let mut out: Vec<(String, Vec<String>)> = Vec::new();
    let mut i: usize = 0;
    while i < ks.len()
        invariant
            i <= ks@.len(),
            ks@ == keys_spec(host),
            cmake == has_cmake(installations@),
            entries(out@) == derived(installations@, strs(dirs@), cmake, ks@.take(i as int)),
            names_unique(out@),
            forall|a: int, b: int| 0 <= a < b < ks@.len() ==> (#[trigger] ks@[a]).name_spec() != (#[trigger] ks@[b]).name_spec(),
            forall|j: int| 0 <= j < out@.len() ==> exists|m: int| 0 <= m < i && (#[trigger] out@[j]).0@ == (#[trigger] ks@[m]).name_spec(),
        decreases ks@.len() - i,
    {
        let key = ks[i];
        let set = paths_for(key, installations, dirs, cmake);
        let ghost before = out@;
        proof {
            let t = ks@.take(i + 1);
            assert(t.drop_last() =~= ks@.take(i as int));
            assert(t.last() == ks@[i as int]);
        }
        if set.items.len() > 0 {
            out.push((String::from_str(key.name()), set.items));
            assert(entries(out@) =~= entries(before).push((key.name_spec(), key_paths(installations@, key, strs(dirs@), cmake))));
            proof {
                let last = out@.len() - 1;
                assert(out@[last].0@ == ks@[i as int].name_spec());
                assert forall|a: int, b: int| 0 <= a < b < out@.len() implies (#[trigger] out@[a]).0@ != (#[trigger] out@[b]).0@ by {
                    assert(out@[a] == before[a]);
                    if b == last {
                        let m = choose|m: int| 0 <= m < i && (#[trigger] before[a]).0@ == (#[trigger] ks@[m]).name_spec();
                        assert(ks@[m].name_spec() != ks@[i as int].name_spec());
                    } else {
                        assert(out@[b] == before[b]);
                    }
                }
                assert forall|j: int| 0 <= j < out@.len() implies exists|m: int| 0 <= m < i + 1 && (#[trigger] out@[j]).0@ == (#[trigger] ks@[m]).name_spec() by {
                    if j < last {
                        assert(out@[j] == before[j]);
                        let m = choose|m: int| 0 <= m < i && (#[trigger] before[j]).0@ == (#[trigger] ks@[m]).name_spec();
                        assert(out@[j].0@ == ks@[m].name_spec());
                    } else {
                        assert(out@[j].0@ == ks@[i as int].name_spec());
                    }
                }
            }
        }
        i = i + 1;
    }
    assert(ks@.take(ks@.len() as int) =~= ks@);
    out
}


/// No name occurs twice.
pub open spec fn names_unique<T>(s: Seq<(String, T)>) -> bool {
    forall|i: int, j: int| 0 <= i < j < s.len() ==> (#[trigger] s[i]).0@ != (#[trigger] s[j]).0@
}

/// The value of variable `name`.
pub open spec fn lookup(s: Seq<(String, String)>, name: Seq<char>) -> Option<Seq<char>> {
    if exists|i: int| 0 <= i < s.len() && (#[trigger] s[i]).0@ == name {
        Some(s[choose|i: int| 0 <= i < s.len() && (#[trigger] s[i]).0@ == name].1@)
    } else {
        None
    }
}

/// The paths derived for variable `name`.
pub open spec fn lookup_paths(s: Seq<(String, Vec<String>)>, name: Seq<char>) -> Option<Seq<Seq<char>>> {
    if exists|i: int| 0 <= i < s.len() && (#[trigger] s[i]).0@ == name {
        Some(strs(s[choose|i: int| 0 <= i < s.len() && (#[trigger] s[i]).0@ == name].1@))
    } else {
        None
    }
}

/// The items joined with `:`.
pub open spec fn join_sep(ps: Seq<Seq<char>>) -> Seq<char>
    decreases ps.len(),
{
    if ps.len() == 0 {
        Seq::empty()
    } else if ps.len() == 1 {
        ps[0]
    } else {
        join_sep(ps.drop_last()) + seq![SEP] + ps.last()
    }
}

/// The value of `name` once derived paths are put before the parent environment's value.
pub open spec fn mixed(input: Seq<(String, Vec<String>)>, parent: Seq<(String, String)>, name: Seq<char>) -> Option<Seq<char>> {
    match lookup_paths(input, name) {
        Some(ps) => Some(join_sep(ps) + match lookup(parent, name) {
            Some(c) => seq![SEP] + c,
            None => Seq::empty(),
        }),
        None => lookup(parent, name),
    }
}

proof fn lemma_lookup_at(s: Seq<(String, String)>, i: int)
    requires
        names_unique(s),
        0 <= i < s.len(),
    ensures
        lookup(s, s[i].0@) == Some(s[i].1@),
{
    let c = choose|k: int| 0 <= k < s.len() && (#[trigger] s[k]).0@ == s[i].0@;
    if c != i {
        if c < i {
            assert(s[c].0@ != s[i].0@);
        } else {
            assert(s[i].0@ != s[c].0@);
        }
    }
}

proof fn lemma_lookup_paths_at(s: Seq<(String, Vec<String>)>, i: int)
    requires
        names_unique(s),
        0 <= i < s.len(),
    ensures
        lookup_paths(s, s[i].0@) == Some(strs(s[i].1@)),
{
    let c = choose|k: int| 0 <= k < s.len() && (#[trigger] s[k]).0@ == s[i].0@;
    if c != i {
        if c < i {
            assert(s[c].0@ != s[i].0@);
        } else {
            assert(s[i].0@ != s[c].0@);
        }
    }
}

/// The value of variable `name`, if set.
pub fn get_var(env: &Vec<(String, String)>, name: &String) -> (r: Option<String>)
    requires
        names_unique(env@),
    ensures
        match r {
            Some(v) => lookup(env@, name@) == Some(v@),
            None => lookup(env@, name@) is None,
        },
{
    let mut i: usize = 0;
    while i < env.len()
        invariant
            i <= env@.len(),
            names_unique(env@),
            forall|k: int| 0 <= k < i ==> (#[trigger] env@[k]).0@ != name@,
        decreases env@.len() - i,
    {
        if env[i].0 == *name {
            proof {
                lemma_lookup_at(env@, i as int);
            }
            return Some(env[i].1.clone());
        }
        i = i + 1;
    }
    None
}

/// Sets variable `name` to `value`.
pub fn set_var(env: &mut Vec<(String, String)>, name: String, value: String)
    requires
        names_unique(old(env)@),
    ensures
        names_unique(final(env)@),
        forall|n: Seq<char>| #[trigger] lookup(final(env)@, n) == if n == name@ { Some(value@) } else { lookup(old(env)@, n) },
{
    let mut i: usize = 0;
    while i < env.len()
        invariant
            i <= env@.len(),
            env@ == old(env)@,
            names_unique(old(env)@),
            forall|k: int| 0 <= k < i ==> (#[trigger] env@[k]).0@ != name@,
        decreases env@.len() - i,
    {
        if env[i].0 == name {
            let ghost n0 = name@;
            let ghost v0 = value@;
            env.set(i, (name, value));
            proof {
                assert forall|a: int, b: int| 0 <= a < b < env@.len() implies (#[trigger] env@[a]).0@ != (#[trigger] env@[b]).0@ by {
                    assert(old(env)@[a].0@ != old(env)@[b].0@);
                }
                assert forall|n: Seq<char>| #[trigger] lookup(env@, n) == if n == n0 { Some(v0) } else { lookup(old(env)@, n) } by {
                    if n == n0 {
                        lemma_lookup_at(env@, i as int);
                    } else {
                        if exists|k: int| 0 <= k < env@.len() && (#[trigger] env@[k]).0@ == n {
                            let k = choose|k: int| 0 <= k < env@.len() && (#[trigger] env@[k]).0@ == n;
                            lemma_lookup_at(env@, k);
                            lemma_lookup_at(old(env)@, k);
                        } else {
                            assert forall|k: int| 0 <= k < old(env)@.len() implies (#[trigger] old(env)@[k]).0@ != n by {
                                assert(env@[k].0@ != n);
                            }
                        }
                    }
                }
            }
            return;
        }
        i = i + 1;
    }
    let ghost n0 = name@;
    let ghost v0 = value@;
    env.push((name, value));
    proof {
        let last = env@.len() - 1;
        assert forall|a: int, b: int| 0 <= a < b < env@.len() implies (#[trigger] env@[a]).0@ != (#[trigger] env@[b]).0@ by {
            if b == last {
                assert(old(env)@[a].0@ != n0);
            } else {
                assert(old(env)@[a].0@ != old(env)@[b].0@);
            }
        }
        assert forall|n: Seq<char>| #[trigger] lookup(env@, n) == if n == n0 { Some(v0) } else { lookup(old(env)@, n) } by {
            if n == n0 {
                lemma_lookup_at(env@, last);
            } else {
                if exists|k: int| 0 <= k < env@.len() && (#[trigger] env@[k]).0@ == n {
                    let k = choose|k: int| 0 <= k < env@.len() && (#[trigger] env@[k]).0@ == n;
                    assert(k != last);
                    lemma_lookup_at(env@, k);
                    assert(env@[k] == old(env)@[k]);
                    lemma_lookup_at(old(env)@, k);
                } else {
                    assert forall|k: int| 0 <= k < old(env)@.len() implies (#[trigger] old(env)@[k]).0@ != n by {
                        assert(env@[k] == old(env)@[k]);
                    }
                }
            }
        }
    }
}

/// The paths joined with `:`.
pub fn join_paths(ps: &Vec<String>) -> (r: Vec<char>)
    ensures
        r@ == join_sep(strs(ps@)),
{
    let mut out: Vec<char> = Vec::new();
    let mut i: usize = 0;
    while i < ps.len()
        invariant
            i <= ps@.len(),
            out@ == join_sep(strs(ps@).take(i as int)),
        decreases ps@.len() - i,
    {
        if i > 0 {
            out.push(SEP);
        }
        let c = chars_of(ps[i].as_str());
        append_chars(&mut out, &c);
        proof {
            let t = strs(ps@).take(i + 1);
            assert(t.drop_last() =~= strs(ps@).take(i as int));
            assert(t.last() == ps@[i as int]@);
            if i == 0 {
                assert(out@ =~= t[0]);
            }
        }
        i = i + 1;
    }
    assert(strs(ps@).take(ps@.len() as int) =~= strs(ps@));
    out
}

fn copy_env(env: &Vec<(String, String)>) -> (r: Vec<(String, String)>)
    ensures
        r@ == env@,
{
    let mut out: Vec<(String, String)> = Vec::new();
    let mut i: usize = 0;
    while i < env.len()
        invariant
            i <= env@.len(),
            out@ == env@.take(i as int),
        decreases env@.len() - i,
    {
        out.push((env[i].0.clone(), env[i].1.clone()));
        i = i + 1;
        assert(out@ =~= env@.take(i as int));
    }
    assert(env@.take(env@.len() as int) =~= env@);
    out
}

/// The environment with the derived paths of each variable put before the parent
/// environment's value (separated by `:`); variables not derived keep the parent's value.
/// Names are compared exactly, as on POSIX systems.
pub fn mix(input: &Vec<(String, Vec<String>)>, parent: &Vec<(String, String)>) -> (r: Vec<(String, String)>)
    requires
        names_unique(input@),
        names_unique(parent@),
    ensures
        names_unique(r@),
        forall|n: Seq<char>| #[trigger] lookup(r@, n) == mixed(input@, parent@, n),
{
    let mut out = copy_env(parent);
    let mut i: usize = 0;
    while i < input.len()
        invariant
            i <= input@.len(),
            names_unique(input@),
            names_unique(parent@),
            names_unique(out@),
            forall|n: Seq<char>| #[trigger] lookup(out@, n) == if lookup_paths(input@.take(i as int), n) is Some {
                mixed(input@, parent@, n) } else { lookup(parent@, n) },
        decreases input@.len() - i,
    {
        let name = input[i].0.clone();
        let joined_paths = join_paths(&input[i].1);
        let cur = get_var(&out, &name);
        let mut value = joined_paths;
        match cur {
            Some(c) => {
                value.push(SEP);
                let cc = chars_of(c.as_str());
                append_chars(&mut value, &cc);
            },
            None => {},
        }
        let ghost nm = name@;
        let ghost vv = value@;
        proof {
            lemma_lookup_paths_at(input@, i as int);
            assert(lookup_paths(input@.take(i as int), nm) is None) by {
                if exists|k: int| 0 <= k < i && (#[trigger] input@.take(i as int)[k]).0@ == nm {
                    let k = choose|k: int| 0 <= k < i && (#[trigger] input@.take(i as int)[k]).0@ == nm;
                    assert(input@[k].0@ != input@[i as int].0@);
                }
            }
            assert(lookup(out@, nm) == lookup(parent@, nm));
            assert(vv == mixed(input@, parent@, nm)->0);
        }
        set_var(&mut out, name, string_of(&value));
        proof {
            assert forall|n: Seq<char>| #[trigger] lookup(out@, n) == if lookup_paths(input@.take(i + 1), n) is Some {
                mixed(input@, parent@, n) } else { lookup(parent@, n) } by {
                let t = input@.take(i + 1);
                if n == nm {
                    assert(t[i as int].0@ == nm);
                } else {
                    if exists|k: int| 0 <= k < t.len() && (#[trigger] t[k]).0@ == n {
                        let k = choose|k: int| 0 <= k < t.len() && (#[trigger] t[k]).0@ == n;
                        assert(k < i);
                        assert(input@.take(i as int)[k] == t[k]);
                    }
                    if exists|k: int| 0 <= k < i && (#[trigger] input@.take(i as int)[k]).0@ == n {
                        let k = choose|k: int| 0 <= k < i && (#[trigger] input@.take(i as int)[k]).0@ == n;
                        assert(input@.take(i as int)[k] == t[k]);
                    }
                }
            }
        }
        i = i + 1;
    }
    proof {
        assert(input@.take(input@.len() as int) =~= input@);
        assert forall|n: Seq<char>| #[trigger] lookup(out@, n) == mixed(input@, parent@, n) by {}
    }
    out
}


/// `{{<head><field>}}`.
pub open spec fn moustache(head: Seq<char>, field: Seq<char>) -> Seq<char> {
    "{{"@ + head + field + "}}"@
}

/// Replaces the six placeholders of one installation, whose names start with `head`:
/// its prefix, version, and the version's major, minor, patch and marketing
/// (`major.minor`) parts.
pub open spec fn fill(s: Seq<char>, head: Seq<char>, inst: Installation) -> Seq<char> {
    let v = inst.pkg.version;
    let a = replace_all(s, moustache(head, "prefix"@), inst.path@);
    let b = replace_all(a, moustache(head, "version"@), v.raw@);
    let c = replace_all(b, moustache(head, "version.major"@), decimal(v.major as nat));
    let d = replace_all(c, moustache(head, "version.minor"@), decimal(v.minor as nat));
    let e = replace_all(d, moustache(head, "version.patch"@), decimal(v.patch as nat));
    replace_all(e, moustache(head, "version.marketing"@), decimal(v.major as nat) + seq!['.'] + decimal(v.minor as nat))
}

/// The placeholders of each dependency, `{{deps.<project>.…}}`, filled in order.
pub open spec fn fill_deps(s: Seq<char>, deps: Seq<Installation>) -> Seq<char>
    decreases deps.len(),
{
    if deps.len() == 0 {
        s
    } else {
        fill(fill_deps(s, deps.drop_last()), "deps."@ + deps.last().pkg.project@ + seq!['.'], deps.last())
    }
}

/// A template with its placeholders filled; a leading `$` before `{{` is dropped.
/// Unknown placeholders stay as they are.
pub open spec fn expanded(input: Seq<char>, pkg: Installation, deps: Seq<Installation>) -> Seq<char> {
    let s = if starts_with(input, "${{"@) { input.skip(1) } else { input };
    fill_deps(fill(s, Seq::empty(), pkg), deps)
}

fn field_pattern(head: &Vec<char>, field: &str) -> (r: Vec<char>)
    ensures
        r@ == moustache(head@, field@),
{
    let mut t = chars_of("{{");
    append_chars(&mut t, head);
    let f = chars_of(field);
    append_chars(&mut t, &f);
    let c = chars_of("}}");
    append_chars(&mut t, &c);
    t
}

fn fill_exec(s: Vec<char>, head: &Vec<char>, inst: &Installation) -> (r: Vec<char>)
    ensures
        r@ == fill(s@, head@, *inst),
{
    let v = &inst.pkg.version;
    let path = chars_of(inst.path.as_str());
    let raw = chars_of(v.raw.as_str());
    let major = decimal_chars(v.major as u64);
    let minor = decimal_chars(v.minor as u64);
    let patch = decimal_chars(v.patch as u64);
    let mut marketing = decimal_chars(v.major as u64);
    marketing.push('.');
    append_chars(&mut marketing, &minor);
    assert(marketing@ =~= decimal(v.major as nat) + seq!['.'] + decimal(v.minor as nat));
    let a = replace_chars(&s, &field_pattern(head, "prefix"), &path);
    let b = replace_chars(&a, &field_pattern(head, "version"), &raw);
    let c = replace_chars(&b, &field_pattern(head, "version.major"), &major);
    let d = replace_chars(&c, &field_pattern(head, "version.minor"), &minor);
    let e = replace_chars(&d, &field_pattern(head, "version.patch"), &patch);
    replace_chars(&e, &field_pattern(head, "version.marketing"), &marketing)
}

fn expand_chars(input: &Vec<char>, pkg: &Installation, deps: &Vec<Installation>) -> (r: Vec<char>)
    ensures
        r@ == expanded(input@, *pkg, deps@),
{
    let lead = chars_of("${{");
    proof {
        reveal_strlit("${{");
    }
    let s = if crate::text::matches_at(input, &lead, 0) {
        crate::text::slice_chars(input, 1, input.len())
    } else {
        input.clone()
    };
    assert(starts_with(input@, "${{"@) ==> s@ =~= input@.skip(1));
    let empty: Vec<char> = Vec::new();
    let mut out = fill_exec(s, &empty, pkg);
    let mut i: usize = 0;
    while i < deps.len()
        invariant
            i <= deps@.len(),
            out@ == fill_deps(fill(s@, Seq::empty(), *pkg), deps@.take(i as int)),
        decreases deps@.len() - i,
    {
        let mut head = chars_of("deps.");
        let p = chars_of(deps[i].pkg.project.as_str());
        append_chars(&mut head, &p);
        head.push('.');
        assert(head@ =~= "deps."@ + deps@[i as int].pkg.project@ + seq!['.']);
        out = fill_exec(out, &head, &deps[i]);
        proof {
            let t = deps@.take(i + 1);
            assert(t.drop_last() =~= deps@.take(i as int));
            assert(t.last() == deps@[i as int]);
        }
        i = i + 1;
    }
    assert(deps@.take(deps@.len() as int) =~= deps@);
    out
}

/// Fills the placeholders of a runtime template: `{{prefix}}`, `{{version}}` and
/// `{{version.major|minor|patch|marketing}}` for `pkg`, and the same under
/// `{{deps.<project>.…}}` for each installation of `deps`.
pub fn expand_moustaches(input: &str, pkg: &Installation, deps: &Vec<Installation>) -> (r: String)
    ensures
        r@ == expanded(input@, *pkg, deps@),
{
    let t = chars_of(input);
    let out = expand_chars(&t, pkg, deps);
    string_of(&out)
}

/// `$<key>`.
pub open spec fn self_ref(key: Seq<char>) -> Seq<char> {
    seq!['$'] + key
}

/// The value a runtime template gives `key`, given its current value: a template that
/// refers to `$key` has the current value put there; without such a reference the current
/// value wins; where there is none, the template's value is a default for when `key` is
/// unset.
pub open spec fn runtime_value(cur: Option<Seq<char>>, key: Seq<char>, value: Seq<char>) -> Seq<char> {
    match cur {
        Some(c) => if contains_seq(value, self_ref(key)) { replace_all(value, self_ref(key), c) } else { c },
        None => if contains_seq(value, self_ref(key)) { value } else { "${"@ + key + ":-"@ + value + seq!['}'] },
    }
}

pub open spec fn as_opt(m: Map<Seq<char>, Seq<char>>, n: Seq<char>) -> Option<Seq<char>> {
    if m.dom().contains(n) { Some(m[n]) } else { None }
}

/// The parent values, each followed by a reference to itself so that templates can add
/// to them.
pub open spec fn start_map(input: Seq<(String, String)>) -> Map<Seq<char>, Seq<char>> {
    Map::new(|n: Seq<char>| lookup(input, n) is Some, |n: Seq<char>| lookup(input, n)->0 + seq![SEP] + self_ref(n))
}

/// Merges one installation's template entries in order.
pub open spec fn merge_entries(m: Map<Seq<char>, Seq<char>>, inst: Installation, insts: Seq<Installation>,
    es: Seq<(String, String)>) -> Map<Seq<char>, Seq<char>>
    decreases es.len(),
{
    if es.len() == 0 {
        m
    } else {
        let prev = merge_entries(m, inst, insts, es.drop_last());
        let key = es.last().0@;
        prev.insert(key, runtime_value(as_opt(prev, key), key, expanded(es.last().1@, inst, insts)))
    }
}

/// The template entries of installation `i`: `runtime[i]`, or none.
pub open spec fn entries_of(runtime: Seq<Vec<(String, String)>>, i: int) -> Seq<(String, String)> {
    if 0 <= i < runtime.len() { runtime[i]@ } else { Seq::empty() }
}

/// Merges the template entries of the first `k` installations in order.
pub open spec fn merge_runtime(m: Map<Seq<char>, Seq<char>>, insts: Seq<Installation>,
    runtime: Seq<Vec<(String, String)>>, k: int) -> Map<Seq<char>, Seq<char>>
    decreases k,
{
    if k <= 0 {
        m
    } else {
        merge_entries(merge_runtime(m, insts, runtime, k - 1), insts[k - 1], insts, entries_of(runtime, k - 1))
    }
}

/// Merges the runtime templates of the installations into the environment. `runtime[i]`
/// holds the template entries of `installations[i]`. Every value of `input` is first
/// followed by `:$<name>`; then each template entry, expanded, gives its variable the value
/// that `runtime_value` says.
pub fn mix_runtime(input: &Vec<(String, String)>, installations: &Vec<Installation>,
    runtime: &Vec<Vec<(String, String)>>) -> (r: Vec<(String, String)>)
    requires
        names_unique(input@),
    ensures
        names_unique(r@),
        forall|n: Seq<char>| #[trigger] lookup(r@, n) == as_opt(merge_runtime(start_map(input@), installations@,
            runtime@, installations@.len() as int), n),
{
    let mut out: Vec<(String, String)> = Vec::new();
    let mut i: usize = 0;
    while i < input.len()
        invariant
            i <= input@.len(),
            names_unique(input@),
            out@.len() == i,
            forall|k: int| 0 <= k < i ==> (#[trigger] out@[k]).0 == input@[k].0
                && out@[k].1@ == input@[k].1@ + seq![SEP] + self_ref(input@[k].0@),
        decreases input@.len() - i,
    {
        let mut v = chars_of(input[i].1.as_str());
        v.push(SEP);
        v.push('$');
        let k = chars_of(input[i].0.as_str());
        append_chars(&mut v, &k);
        out.push((input[i].0.clone(), string_of(&v)));
        proof {
            assert(out@[i as int].1@ =~= input@[i as int].1@ + seq![SEP] + self_ref(input@[i as int].0@));
        }
        i = i + 1;
    }
    let ghost m0 = start_map(input@);
    proof {
        assert forall|a: int, b: int| 0 <= a < b < out@.len() implies (#[trigger] out@[a]).0@ != (#[trigger] out@[b]).0@ by {
            assert(input@[a].0@ != input@[b].0@);
        }
        assert forall|n: Seq<char>| #[trigger] lookup(out@, n) == as_opt(m0, n) by {
            if exists|k: int| 0 <= k < out@.len() && (#[trigger] out@[k]).0@ == n {
                let k = choose|k: int| 0 <= k < out@.len() && (#[trigger] out@[k]).0@ == n;
                lemma_lookup_at(out@, k);
                lemma_lookup_at(input@, k);
            } else {
                assert forall|k: int| 0 <= k < input@.len() implies (#[trigger] input@[k]).0@ != n by {
                    assert(out@[k].0 == input@[k].0);
                }
            }
        }
    }
    let mut j: usize = 0;
    while j < installations.len()
        invariant
            j <= installations@.len(),
            names_unique(out@),
            forall|n: Seq<char>| #[trigger] lookup(out@, n) == as_opt(merge_runtime(m0, installations@, runtime@, j as int), n),
        decreases installations@.len() - j,
    {
        let inst = &installations[j];
        let empty: Vec<(String, String)> = Vec::new();
        let es: &Vec<(String, String)> = if j < runtime.len() { &runtime[j] } else { &empty };
        assert(es@ == entries_of(runtime@, j as int));
        let ghost base = merge_runtime(m0, installations@, runtime@, j as int);
        let mut e: usize = 0;
        while e < es.len()
            invariant
                e <= es@.len(),
                inst == installations@[j as int],
                names_unique(out@),
                forall|n: Seq<char>| #[trigger] lookup(out@, n) == as_opt(merge_entries(base, *inst, installations@, es@.take(e as int)), n),
            decreases es@.len() - e,
        {
            let key = &es[e].0;
            let value = expand_chars(&chars_of(es[e].1.as_str()), inst, installations);
            let mut selfref = chars_of("$");
            let kc = chars_of(key.as_str());
            append_chars(&mut selfref, &kc);
            proof {
                reveal_strlit("$");
                assert(selfref@ =~= self_ref(key@));
            }
            let has_ref = contains_chars(&value, &selfref);
            let cur = get_var(&out, key);
            let newv: Vec<char> = match cur {
                Some(c) => {
                    if has_ref {
                        replace_chars(&value, &selfref, &chars_of(c.as_str()))
                    } else {
                        chars_of(c.as_str())
                    }
                },
                None => {
                    if has_ref {
                        value
                    } else {
                        let mut w = chars_of("${");
                        append_chars(&mut w, &kc);
                        let dflt = chars_of(":-");
                        append_chars(&mut w, &dflt);
                        append_chars(&mut w, &value);
                        w.push('}');
                        w
                    }
                },
            };
            let ghost prev = merge_entries(base, *inst, installations@, es@.take(e as int));
            proof {
                let t = es@.take(e + 1);
                assert(t.drop_last() =~= es@.take(e as int));
                assert(t.last() == es@[e as int]);
                assert(newv@ =~= runtime_value(as_opt(prev, key@), key@, expanded(es@[e as int].1@, *inst, installations@)));
            }
            set_var(&mut out, key.clone(), string_of(&newv));
            proof {
                let next = merge_entries(base, *inst, installations@, es@.take(e + 1));
                assert forall|n: Seq<char>| #[trigger] lookup(out@, n) == as_opt(next, n) by {}
            }
            e = e + 1;
        }
        proof {
            assert(es@.take(es@.len() as int) =~= es@);
        }
        j = j + 1;
    }
    out
}


/// A word character: an ASCII letter or digit, or `_`.
pub open spec fn is_word(c: char) -> bool {
    ('a' <= c <= 'z') || ('A' <= c <= 'Z') || ('0' <= c <= '9') || c == '_'
}

/// The first position from `i` on that does not hold a word character.
pub open spec fn word_end(v: Seq<char>, i: int) -> int
    decreases v.len() - i,
{
    if i < 0 || i >= v.len() || !is_word(v[i]) { i } else { word_end(v, i + 1) }
}

/// The fallback of a value of the form `${NAME:-fallback}`, if it has that form.
pub open spec fn default_text(v: Seq<char>) -> Option<Seq<char>> {
    if v.len() >= 2 && v[0] == '$' && v[1] == '{' {
        let e = word_end(v, 2);
        if e > 2 && e + 2 < v.len() - 1 && v[e] == ':' && v[e + 1] == '-' && v.last() == '}'
            && !v.subrange(e + 2, v.len() - 1).contains('}') {
            Some(v.subrange(e + 2, v.len() - 1))
        } else {
            None
        }
    } else {
        None
    }
}

/// `v` with its references to `$key` taken out: `:$key`, then `$key:`, then `; $key`,
/// then `$key`.
pub open spec fn cleaned(v: Seq<char>, key: Seq<char>) -> Seq<char> {
    let r = self_ref(key);
    let a = replace_all(v, seq![SEP] + r, Seq::empty());
    let b = replace_all(a, r + seq![SEP], Seq::empty());
    let c = replace_all(b, "; "@ + r, Seq::empty());
    replace_all(c, r, Seq::empty())
}

/// The final value of a variable: the fallback of a `${NAME:-fallback}` value, else the
/// value without its references to itself.
pub open spec fn final_value(v: Seq<char>, key: Seq<char>) -> Seq<char> {
    match default_text(v) {
        Some(f) => f,
        None => cleaned(v, key),
    }
}

fn is_word_exec(c: char) -> (r: bool)
    ensures
        r == is_word(c),
{
    ('a' <= c && c <= 'z') || ('A' <= c && c <= 'Z') || ('0' <= c && c <= '9') || c == '_'
}

fn default_exec(v: &Vec<char>) -> (r: Option<Vec<char>>)
    ensures
        match r {
            Some(f) => default_text(v@) == Some(f@),
            None => default_text(v@) is None,
        },
{
    if v.len() < 2 || v[0] != '$' || v[1] != '{' {
        return None;
    }
    let mut e: usize = 2;
    while e < v.len() && is_word_exec(v[e])
        invariant
            2 <= e <= v@.len(),
            word_end(v@, 2) == word_end(v@, e as int),
        decreases v@.len() - e,
    {
        e = e + 1;
    }
    assert(word_end(v@, e as int) == e);
    if !(e > 2 && e < v.len() && v.len() - e > 3 && v[e] == ':' && v[e + 1] == '-' && v[v.len() - 1] == '}') {
        assert(v@.last() == v@[v@.len() - 1]);
        assert(word_end(v@, 2) == e);
        assert(!(e > 2 && e + 2 < v@.len() - 1 && v@[e as int] == ':' && v@[e + 1] == '-' && v@.last() == '}'));
        return None;
    }
    let f = crate::text::slice_chars(v, e + 2, v.len() - 1);
    assert(v@.last() == v@[v@.len() - 1]);
    assert(default_text(v@) == if f@.contains('}') { None } else { Some(f@) });
    let mut k: usize = 0;
    while k < f.len()
        invariant
            k <= f@.len(),
            default_text(v@) == if f@.contains('}') { None } else { Some(f@) },
            forall|j: int| 0 <= j < k ==> f@[j] != '}',
        decreases f@.len() - k,
    {
        if f[k] == '}' {
            assert(f@[k as int] == '}');
            assert(f@.contains('}'));
            return None;
        }
        k = k + 1;
    }
    Some(f)
}

/// The environment handed to a program: every value of the form `${NAME:-fallback}`
/// becomes its fallback; every other value loses its references to its own variable.
pub fn materialize(env: &Vec<(String, String)>) -> (r: Vec<(String, String)>)
    ensures
        r@.len() == env@.len(),
        forall|k: int| 0 <= k < env@.len() ==> (#[trigger] r@[k]).0 == env@[k].0
            && r@[k].1@ == final_value(env@[k].1@, env@[k].0@),
{
    let mut out: Vec<(String, String)> = Vec::new();
    let mut i: usize = 0;
    while i < env.len()
        invariant
            i <= env@.len(),
            out@.len() == i,
            forall|k: int| 0 <= k < i ==> (#[trigger] out@[k]).0 == env@[k].0
                && out@[k].1@ == final_value(env@[k].1@, env@[k].0@),
        decreases env@.len() - i,
    {
        let key = &env[i].0;
        let v = chars_of(env[i].1.as_str());
        let value = match default_exec(&v) {
            Some(f) => f,
            None => {
                let kc = chars_of(key.as_str());
                let mut r = chars_of("$");
                append_chars(&mut r, &kc);
                proof {
                    reveal_strlit("$");
                    reveal_strlit("; ");
                }
                let mut lead_ref: Vec<char> = Vec::new();
                lead_ref.push(SEP);
                append_chars(&mut lead_ref, &r);
                let mut semi_ref = chars_of("; ");
                append_chars(&mut semi_ref, &r);
                let empty: Vec<char> = Vec::new();
                let a = replace_chars(&v, &lead_ref, &empty);
                let trail_ref = {
                    let mut t = chars_of("$");
                    append_chars(&mut t, &kc);
                    t.push(SEP);
                    t
                };
                let b = replace_chars(&a, &trail_ref, &empty);
                let c = replace_chars(&b, &semi_ref, &empty);
                let d = replace_chars(&c, &r, &empty);
                assert(r@ =~= self_ref(key@));
                assert(lead_ref@ =~= seq![SEP] + self_ref(key@));
                assert(trail_ref@ =~= self_ref(key@) + seq![SEP]);
                assert(semi_ref@ =~= "; "@ + self_ref(key@));
                d
            },
        };
        out.push((key.clone(), string_of(&value)));
        i = i + 1;
    }
    out
}


/// A shell assignment of `value` to `key` in which each `:$key` becomes `${key:+:$key}`,
/// so that an unset variable adds no empty entry.
pub open spec fn export_text(key: Seq<char>, value: Seq<char>) -> Seq<char> {
    key + "=\""@ + replace_all(value, seq![SEP] + self_ref(key), "${"@ + key + ":+:$"@ + key + seq!['}'])
        + seq!['"']
}

/// The line that sets `key` to `value` in a POSIX shell.
pub fn export_line(key: &str, value: &str) -> (r: String)
    ensures
        r@ == export_text(key@, value@),
{
    let k = chars_of(key);
    let v = chars_of(value);
    let mut pat: Vec<char> = Vec::new();
    pat.push(SEP);
    pat.push('$');
    append_chars(&mut pat, &k);
    let mut rep = chars_of("${");
    append_chars(&mut rep, &k);
    let mid = chars_of(":+:$");
    append_chars(&mut rep, &mid);
    append_chars(&mut rep, &k);
    rep.push('}');
    proof {
        reveal_strlit("${");
        reveal_strlit(":+:$");
        reveal_strlit("=\"");
    }
    assert(pat@ =~= seq![SEP] + self_ref(key@));
    assert(rep@ =~= "${"@ + key@ + ":+:$"@ + key@ + seq!['}']);
    let body = replace_chars(&v, &pat, &rep);
    let mut out = k;
    let eq = chars_of("=\"");
    append_chars(&mut out, &eq);
    append_chars(&mut out, &body);
    out.push('"');
    assert(out@ =~= export_text(key@, value@));
    string_of(&out)
}

} // verus!
