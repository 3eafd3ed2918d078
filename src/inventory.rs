//! The remote inventory: published versions of a project and where to download them.
use crate::config::Config;
use crate::text::{append_chars, chars_of, slice_chars, string_of};
use crate::types::{Arch, Host, Package, PackageReq};
use crate::version::{not_after, version_of_text, Version, VersionView};
use vstd::prelude::*;

verus! {

/// The greatest published version that `rq` admits (the last of equal ones), if any.
pub fn select(rq: &PackageReq, versions: &Vec<Version>) -> (r: Option<Version>)
    ensures
        r is None <==> forall|i: int| 0 <= i < versions@.len() ==> !rq.constraint.holds(#[trigger] versions@[i]),
        r matches Some(v) ==> rq.constraint.holds(v) && (exists|k: int| 0 <= k < versions@.len() && versions@[k] == v)
            && (forall|i: int| 0 <= i < versions@.len() && rq.constraint.holds(#[trigger] versions@[i])
                ==> not_after(versions@[i], v)),
{
    match rq.constraint.select(versions) {
        Some(k) => Some(versions[k].duplicate()),
        None => None,
    }
}

/// The first line break at or after `i`, or the end of the text.
pub open spec fn next_break(t: Seq<char>, i: int) -> int
    decreases t.len() - i,
{
    if i < 0 || i >= t.len() || t[i] == '\n' { i } else { next_break(t, i + 1) }
}

/// `s` without a final `\r`.
pub open spec fn strip_cr(s: Seq<char>) -> Seq<char> {
    if s.len() > 0 && s.last() == '\r' { s.drop_last() } else { s }
}

/// The lines of `t` from position `i` on, as `str::lines` splits them: at each `\n`, with
/// a `\r` before it dropped, and no line after a final `\n`.
pub open spec fn lines_from(t: Seq<char>, i: int) -> Seq<Seq<char>>
    decreases t.len() - i,
{
    if i < 0 || i >= t.len() {
        Seq::empty()
    } else {
        let e = next_break(t, i);
        if e < i {
            Seq::empty()
        } else if e >= t.len() {
            seq![strip_cr(t.subrange(i, e))]
        } else {
            seq![strip_cr(t.subrange(i, e))] + lines_from(t, e + 1)
        }
    }
}

/// The versions that the lines read as, in order; other lines are skipped.
pub open spec fn read_versions(ls: Seq<Seq<char>>) -> Seq<VersionView>
    decreases ls.len(),
{
    if ls.len() == 0 {
        Seq::empty()
    } else {
        (match version_of_text(ls[0]) {
            Some(v) => seq![v],
            None => Seq::empty(),
        }) + read_versions(ls.skip(1))
    }
}

/// The versions without 1.1.118, a release of OpenSSL that is not to be used.
pub open spec fn drop_excluded(vs: Seq<VersionView>) -> Seq<VersionView>
    decreases vs.len(),
{
    if vs.len() == 0 {
        Seq::empty()
    } else {
        let v = vs.last();
        let rest = drop_excluded(vs.drop_last());
        if v.0 == 1 && v.1 == 1 && v.2 == 118 { rest } else { rest.push(v) }
    }
}

pub open spec fn views(vs: Seq<Version>) -> Seq<VersionView> {
    vs.map_values(|v: Version| v@)
}

proof fn lemma_next_break(t: Seq<char>, i: int)
    requires
        0 <= i <= t.len(),
    ensures
        i <= next_break(t, i) <= t.len(),
        next_break(t, i) < t.len() ==> t[next_break(t, i)] == '\n',
        forall|k: int| i <= k < next_break(t, i) ==> t[k] != '\n',
    decreases t.len() - i,
{
    if i < t.len() && t[i] != '\n' {
        lemma_next_break(t, i + 1);
    }
}

/// The published versions read from a `versions.txt` listing, one per line; lines that are
/// not versions are skipped, and for OpenSSL the excluded release is dropped. `None` when
/// no line is a version.
pub fn parse_listing(project: &str, listing: &str) -> (r: Option<Vec<Version>>)
    ensures
        r is None <==> read_versions(lines_from(listing@, 0)).len() == 0,
        r matches Some(vs) ==> views(vs@) == if project@ == "openssl.org"@ {
            drop_excluded(read_versions(lines_from(listing@, 0)))
        } else {
            read_versions(lines_from(listing@, 0))
        },
{
    let t = chars_of(listing);
    let ghost all = read_versions(lines_from(t@, 0));
    let mut out: Vec<Version> = Vec::new();
    let mut start: usize = 0;
    assert(views(out@) + all =~= all);
    while start < t.len()
        invariant
            start <= t@.len(),
            all == read_versions(lines_from(t@, 0)),
            views(out@) + read_versions(lines_from(t@, start as int)) == all,
        decreases t@.len() - start,
    {
        let mut e: usize = start;
        proof {
            lemma_next_break(t@, start as int);
        }
        while e < t.len() && t[e] != '\n'
            invariant
                start <= e <= t@.len(),
                next_break(t@, start as int) == next_break(t@, e as int),
            decreases t@.len() - e,
        {
            e = e + 1;
        }
        let mut end = e;
        if end > start && t[end - 1] == '\r' {
            end = end - 1;
        }
        let line = slice_chars(&t, start, end);
        let ghost whole = t@.subrange(start as int, e as int);
        proof {
            assert(line@ =~= strip_cr(whole));
            let ls = lines_from(t@, start as int);
            assert(lines_from(t@, e + 1) == if e >= t@.len() { Seq::<Seq<char>>::empty() } else { lines_from(t@, e + 1) });
            assert(ls =~= seq![strip_cr(whole)] + lines_from(t@, e + 1));
            assert(ls.skip(1) =~= lines_from(t@, e + 1));
            assert(ls[0] == strip_cr(whole));
        }
        let s = string_of(&line);
        let ghost before = views(out@);
        match Version::parse(s.as_str()) {
            Some(v) => {
                out.push(v);
                assert(views(out@) =~= before.push(v@));
                assert(views(out@) + read_versions(lines_from(t@, e + 1)) =~= before + (seq![v@] + read_versions(lines_from(t@, e + 1))));
            },
            None => {},
        }
        if e == t.len() {
            assert(lines_from(t@, e + 1) == Seq::<Seq<char>>::empty());
            start = e;
        } else {
            start = e + 1;
        }
    }
    assert(lines_from(t@, start as int) == Seq::<Seq<char>>::empty());
    assert(views(out@) =~= views(out@) + Seq::<VersionView>::empty());
    if out.len() == 0 {
        return None;
    }
    let openssl = String::from_str("openssl.org");
    if String::from_str(project) == openssl {
        let mut kept: Vec<Version> = Vec::new();
        let mut k: usize = 0;
        while k < out.len()
            invariant
                k <= out@.len(),
                views(kept@) == drop_excluded(views(out@).take(k as int)),
            decreases out@.len() - k,
        {
            let w = &out[k];
            proof {
                let tk = views(out@).take(k + 1);
                assert(tk.drop_last() =~= views(out@).take(k as int));
                assert(tk.last() == out@[k as int]@);
            }
            if !(w.major == 1 && w.minor == 1 && w.patch == 118) {
                let ghost before = views(kept@);
                kept.push(w.duplicate());
                assert(views(kept@) =~= before.push(out@[k as int]@));
            }
            k = k + 1;
        }
        assert(views(out@).take(out@.len() as int) =~= views(out@));
        return Some(kept);
    }
    Some(out)
}

/// `<dist_url>/<project>/<host>/<arch>/<leaf>`.
pub open spec fn dist_path(dist: Seq<char>, project: Seq<char>, host: Seq<char>, arch: Seq<char>, leaf: Seq<char>) -> Seq<char> {
    dist + seq!['/'] + project + seq!['/'] + host + seq!['/'] + arch + seq!['/'] + leaf
}

fn dist_file(dist: &str, project: &str, host: Host, arch: Arch, leaf: &Vec<char>) -> (r: String)
    ensures
        r@ == dist_path(dist@, project@, host.name_spec(), arch.name_spec(), leaf@),
{
    let mut t = chars_of(dist);
    t.push('/');
    let p = chars_of(project);
    append_chars(&mut t, &p);
    t.push('/');
    let h = chars_of(host.name());
    append_chars(&mut t, &h);
    t.push('/');
    let a = chars_of(arch.name());
    append_chars(&mut t, &a);
    t.push('/');
    append_chars(&mut t, leaf);
    string_of(&t)
}

/// Where the list of a project's published versions is.
pub fn versions_url(project: &str, config: &Config, host: Host, arch: Arch) -> (r: String)
    ensures
        r@ == dist_path(config.dist_url@, project@, host.name_spec(), arch.name_spec(), "versions.txt"@),
{
    let leaf = chars_of("versions.txt");
    dist_file(config.dist_url.as_str(), project, host, arch, &leaf)
}

/// Where a package's archive is: `<dist_url>/<project>/<host>/<arch>/v<version>.tar.xz`.
pub fn get_url(pkg: &Package, config: &Config, host: Host, arch: Arch) -> (r: String)
    ensures
        r@ == dist_path(config.dist_url@, pkg.project@, host.name_spec(), arch.name_spec(),
            seq!['v'] + pkg.version.raw@ + ".tar.xz"@),
{
    let mut leaf: Vec<char> = Vec::new();
    leaf.push('v');
    let raw = chars_of(pkg.version.raw.as_str());
    append_chars(&mut leaf, &raw);
    let ext = chars_of(".tar.xz");
    append_chars(&mut leaf, &ext);
    dist_file(config.dist_url.as_str(), pkg.project.as_str(), host, arch, &leaf)
}

} // verus!
