//! The pantry: package metadata files and what they declare.
use crate::config::{join, joined, Config};
use crate::text::{append_chars, chars_of, slice_chars, string_of};
use crate::types::PackageReq;
use crate::version::{range_of_text, VersionRange};
use vstd::prelude::*;

verus! {

/// The metadata of one project.
#[derive(Debug, Clone)]
pub struct PantryEntry {
    pub project: String,
    pub deps: Vec<PackageReq>,
    pub programs: Vec<String>,
    pub companions: Vec<PackageReq>,
    pub env: Vec<(String, String)>,
}

/// What a metadata file declares, before its ranges are read.
#[derive(Debug, Clone)]
pub struct RawPantryEntry {
    /// Dependencies: project and range text.
    pub dependencies: Vec<(String, String)>,
    pub provides: Vec<String>,
    /// Companions: project and range text.
    pub companions: Vec<(String, String)>,
    /// Runtime environment templates.
    pub env: Vec<(String, String)>,
}

/// Every range text of `pairs` reads as a range.
pub open spec fn all_ranges(pairs: Seq<(String, String)>) -> bool {
    forall|i: int| 0 <= i < pairs.len() ==> (#[trigger] range_of_text(pairs[i].1@)) is Some
}

/// `reqs` are `pairs` read: same projects, and each range the one its text names.
pub open spec fn reqs_of(pairs: Seq<(String, String)>, reqs: Seq<PackageReq>) -> bool {
    reqs.len() == pairs.len() && forall|i: int| 0 <= i < pairs.len() ==> (#[trigger] reqs[i]).project == pairs[i].0
        && Some(reqs[i].constraint@) == range_of_text(pairs[i].1@) && reqs[i].constraint.wf()
}

fn read_pairs(pairs: &Vec<(String, String)>) -> (r: Option<Vec<PackageReq>>)
    ensures
        r is Some <==> all_ranges(pairs@),
        r matches Some(v) ==> reqs_of(pairs@, v@),
{
    let mut out: Vec<PackageReq> = Vec::new();
    let mut i: usize = 0;
    while i < pairs.len()
        invariant
            i <= pairs@.len(),
            out@.len() == i,
            forall|k: int| 0 <= k < i ==> (#[trigger] out@[k]).project == pairs@[k].0
                && Some(out@[k].constraint@) == range_of_text(pairs@[k].1@) && out@[k].constraint.wf(),
            forall|k: int| 0 <= k < i ==> (#[trigger] range_of_text(pairs@[k].1@)) is Some,
        decreases pairs@.len() - i,
    {
        match VersionRange::parse(pairs[i].1.as_str()) {
            Some(c) => {
                out.push(PackageReq { project: pairs[i].0.clone(), constraint: c });
            },
            None => {
                return None;
            },
        }
        i = i + 1;
    }
    Some(out)
}

fn copy_strings(v: &Vec<String>) -> (r: Vec<String>)
    ensures
        r@ == v@,
{
    let mut out: Vec<String> = Vec::new();
    let mut i: usize = 0;
    while i < v.len()
        invariant
            i <= v@.len(),
            out@ == v@.take(i as int),
        decreases v@.len() - i,
    {
        out.push(v[i].clone());
        i = i + 1;
        assert(out@ =~= v@.take(i as int));
    }
    assert(v@.take(v@.len() as int) =~= v@);
    out
}

fn copy_pairs(v: &Vec<(String, String)>) -> (r: Vec<(String, String)>)
    ensures
        r@ == v@,
{
    let mut out: Vec<(String, String)> = Vec::new();
    let mut i: usize = 0;
    while i < v.len()
        invariant
            i <= v@.len(),
            out@ == v@.take(i as int),
        decreases v@.len() - i,
    {
        out.push((v[i].0.clone(), v[i].1.clone()));
        i = i + 1;
        assert(out@ =~= v@.take(i as int));
    }
    assert(v@.take(v@.len() as int) =~= v@);
    out
}

impl PantryEntry {
    /// The entry of `project`: its dependencies and companions with their ranges read;
    /// `None` when a range does not read.
    pub fn from_raw_entry(entry: &RawPantryEntry, project: String) -> (r: Option<PantryEntry>)
        ensures
            r is Some <==> all_ranges(entry.dependencies@) && all_ranges(entry.companions@),
            r matches Some(e) ==> e.project == project && reqs_of(entry.dependencies@, e.deps@)
                && reqs_of(entry.companions@, e.companions@) && e.programs@ == entry.provides@
                && e.env@ == entry.env@,
    {
        let deps = match read_pairs(&entry.dependencies) {
            Some(d) => d,
            None => {
                return None;
            },
        };
        let companions = match read_pairs(&entry.companions) {
            Some(c) => c,
            None => {
                return None;
            },
        };
        Some(PantryEntry {
            project,
            deps,
            programs: copy_strings(&entry.provides),
            companions,
            env: copy_pairs(&entry.env),
        })
    }
}

/// The range text of a dependency written as a bare version: `^` is put before a text
/// that starts with a digit, and before a number.
pub fn dep_constraint_text(value: &str, is_number: bool) -> (r: String)
    ensures
        r@ == if is_number || (value@.len() > 0 && '0' <= value@[0] <= '9') { seq!['^'] + value@ } else { value@ },
{
    let v = chars_of(value);
    if is_number || (v.len() > 0 && '0' <= v[0] && v[0] <= '9') {
        let mut t: Vec<char> = Vec::new();
        t.push('^');
        append_chars(&mut t, &v);
        string_of(&t)
    } else {
        string_of(&v)
    }
}

/// A walk over the pantry's files: paths wait on a stack; the caller looks at each path
/// taken and hands back the entries of those that are directories.
pub struct PackageEntryIterator {
    pub stack: Vec<String>,
    pub pantry_dir: String,
}

impl PackageEntryIterator {
    /// A walk that starts at `pantry_dir`.
    pub fn new(pantry_dir: String) -> (r: PackageEntryIterator)
        ensures
            r.pantry_dir == pantry_dir,
            r.stack@ == seq![pantry_dir],
    {
        let start = pantry_dir.clone();
        let mut stack: Vec<String> = Vec::new();
        stack.push(start);
        PackageEntryIterator { stack, pantry_dir }
    }

    /// The next path to look at, last pushed first.
    pub fn take_path(&mut self) -> (r: Option<String>)
        ensures
            final(self).pantry_dir == old(self).pantry_dir,
            r is None <==> old(self).stack@.len() == 0,
            r matches Some(p) ==> p == old(self).stack@.last() && final(self).stack@ == old(self).stack@.drop_last(),
    {
        self.stack.pop()
    }

    /// Queues the entries of a directory.
    pub fn push_entries(&mut self, entries: &Vec<String>)
        ensures
            final(self).pantry_dir == old(self).pantry_dir,
            final(self).stack@ == old(self).stack@ + entries@,
    {
        let mut i: usize = 0;
        while i < entries.len()
            invariant
                i <= entries@.len(),
                self.pantry_dir == old(self).pantry_dir,
                self.stack@ == old(self).stack@ + entries@.take(i as int),
            decreases entries@.len() - i,
        {
            self.stack.push(entries[i].clone());
            i = i + 1;
            assert(self.stack@ =~= old(self).stack@ + entries@.take(i as int));
        }
        assert(entries@.take(entries@.len() as int) =~= entries@);
    }

    /// The project whose metadata file is `path`: its directory, relative to the pantry;
    /// `None` when `path` is not a `package.yml` inside the pantry.
    pub fn project_of(&self, path: &str) -> (r: Option<String>)
        ensures
            r matches Some(p) ==> joined(joined(self.pantry_dir@, p@), "package.yml"@) == path@,
    {
        let t = chars_of(path);
        let root = chars_of(self.pantry_dir.as_str());
        let leaf = chars_of("/package.yml");
        proof {
            reveal_strlit("/package.yml");
            reveal_strlit("package.yml");
        }
        if t.len() < leaf.len() {
            return None;
        }
        let end = t.len() - leaf.len();
        if end <= root.len() {
            return None;
        }
        if !crate::text::matches_at(&t, &root, 0) || t[root.len()] != '/' {
            return None;
        }
        if !crate::text::matches_at(&t, &leaf, end) {
            return None;
        }
        let p = slice_chars(&t, root.len() + 1, end);
        proof {
            let r = root@.len() as int;
            assert(t@.subrange(0, r) == root@);
            assert(t@.subrange(end as int, t@.len() as int) == leaf@);
            assert(leaf@ =~= seq!['/'] + "package.yml"@);
            assert(t@ =~= t@.subrange(0, r) + seq![t@[r]] + t@.subrange(r + 1, end as int)
                + t@.subrange(end as int, t@.len() as int));
            assert(t@ =~= self.pantry_dir@ + seq!['/'] + p@ + seq!['/'] + "package.yml"@);
        }
        Some(string_of(&p))
    }
}

/// The walk over the pantry's projects.
pub fn ls(config: &Config) -> (r: PackageEntryIterator)
    ensures
        r.stack@.len() == 1,
        r.stack@[0]@ == joined(config.pantry_dir@, "projects"@),
{
    PackageEntryIterator::new(join(config.pantry_dir.as_str(), "projects"))
}

} // verus!
