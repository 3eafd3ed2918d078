//! Packages, requirements and installations.
use crate::text::{append_chars, chars_of, slice_chars, string_of};
use crate::version::{range_of_text, BoundView, Version, VersionRange};
use vstd::prelude::*;

verus! {

/// A project at one version.
#[derive(Debug, Clone)]
pub struct Package {
    pub project: String,
    pub version: Version,
}

/// A project and the range of its versions that will do.
#[derive(Debug, Clone)]
pub struct PackageReq {
    pub project: String,
    pub constraint: VersionRange,
}

/// A package and the directory it is installed in.
#[derive(Debug, Clone)]
pub struct Installation {
    pub path: String,
    pub pkg: Package,
}

/// Why a requirement's text was refused.
#[derive(Debug, Clone, Copy, PartialEq, Eq, Structural)]
pub enum ReqError {
    /// The text is empty or spans several lines.
    InvalidSpec,
    /// The part after the project is not a range.
    InvalidConstraint,
}

impl View for PackageReq {
    type V = (Seq<char>, (Seq<char>, Seq<BoundView>));

    open spec fn view(&self) -> Self::V {
        (self.project@, self.constraint@)
    }
}

/// `char::is_whitespace`: the characters of Unicode's White_Space property.
pub open spec fn is_space(c: char) -> bool {
    ('\t' <= c <= '\r') || c == ' ' || c == '\u{85}' || c == '\u{a0}' || c == '\u{1680}'
        || ('\u{2000}' <= c <= '\u{200a}') || c == '\u{2028}' || c == '\u{2029}'
        || c == '\u{202f}' || c == '\u{205f}' || c == '\u{3000}'
}

/// The characters that start the range part of a requirement.
pub open spec fn is_range_start(c: char) -> bool {
    c == '^' || c == '=' || c == '~' || c == '<' || c == '>' || c == '@'
}

/// Number of leading white-space characters.
pub open spec fn lead(s: Seq<char>) -> nat
    decreases s.len(),
{
    if s.len() > 0 && is_space(s[0]) { 1 + lead(s.skip(1)) } else { 0 }
}

/// Number of trailing white-space characters.
pub open spec fn trail(s: Seq<char>) -> nat
    decreases s.len(),
{
    if s.len() > 0 && is_space(s.last()) { 1 + trail(s.drop_last()) } else { 0 }
}

/// `s` without white space at either end.
pub open spec fn trimmed(s: Seq<char>) -> Seq<char> {
    let a = s.skip(lead(s) as int);
    a.take(a.len() - trail(a))
}

/// Where the project part ends: the first position `p >= from` that starts a range
/// followed by at least one character, or the end of the text.
pub open spec fn split_from(t: Seq<char>, from: int) -> int
    decreases t.len() - from,
{
    if from >= t.len() {
        t.len() as int
    } else if is_range_start(t[from]) && from + 1 < t.len() {
        from
    } else {
        split_from(t, from + 1)
    }
}

/// The project text and the range text of a requirement; the range text is `*` where
/// none is written.
pub open spec fn req_parts(s: Seq<char>) -> Option<(Seq<char>, Seq<char>)> {
    let t = trimmed(s);
    if t.len() == 0 || t.contains('\n') {
        None
    } else {
        let p = split_from(t, 1);
        if p == t.len() {
            Some((t, seq!['*']))
        } else {
            Some((t.take(p), t.skip(p)))
        }
    }
}

/// What reading a requirement's text gives.
pub open spec fn req_of_text(s: Seq<char>) -> Result<(Seq<char>, (Seq<char>, Seq<BoundView>)), ReqError> {
    match req_parts(s) {
        None => Err(ReqError::InvalidSpec),
        Some((p, c)) => match range_of_text(c) {
            Some(r) => Ok((p, r)),
            None => Err(ReqError::InvalidConstraint),
        },
    }
}

/// The text of a requirement: the project alone for the wildcard, else the project
/// followed by the range's text.
pub open spec fn req_text(q: PackageReq) -> Seq<char> {
    if q.constraint.raw@ == seq!['*'] {
        q.project@
    } else {
        q.project@ + q.constraint.raw@
    }
}

/// A project name as requirements write it: not empty, without white space at either
/// end, without line breaks, and without the characters that start a range.
pub open spec fn plain_project(p: Seq<char>) -> bool {
    &&& p.len() > 0
    &&& !is_space(p[0])
    &&& !is_space(p.last())
    &&& !p.contains('\n')
    &&& forall|i: int| 0 <= i < p.len() ==> !is_range_start(#[trigger] p[i])
}

/// A range's text as requirements write it after the project: `*`, or a text of two or
/// more characters that starts a range, with no line break and no white space at its end.
pub open spec fn plain_range_text(c: Seq<char>) -> bool {
    c == seq!['*'] || (c.len() >= 2 && is_range_start(c[0]) && !c.contains('\n') && !is_space(c.last()))
}

proof fn lemma_split_skips(t: Seq<char>, from: int, stop: int)
    requires
        1 <= from <= stop <= t.len(),
        forall|i: int| from <= i < stop ==> !is_range_start(#[trigger] t[i]),
    ensures
        split_from(t, from) == split_from(t, stop),
    decreases stop - from,
{
    if from < stop {
        lemma_split_skips(t, from + 1, stop);
    }
}

proof fn lemma_untrimmed(t: Seq<char>)
    requires
        t.len() > 0,
        !is_space(t[0]),
        !is_space(t.last()),
    ensures
        trimmed(t) == t,
{
    assert(lead(t) == 0);
    assert(t.skip(0) =~= t);
    assert(trail(t) == 0);
    assert(t.take(t.len() as int) =~= t);
}

/// Reading a requirement's text gives back the requirement: its project, and the range its
/// text names. A wildcard requirement is written as its project alone, which reads back as
/// the wildcard.
pub proof fn lemma_req_round_trip(q: PackageReq)
    requires
        plain_project(q.project@),
        plain_range_text(q.constraint.raw@),
        range_of_text(q.constraint.raw@) == Some(q.constraint@),
    ensures
        req_of_text(req_text(q)) == Ok::<_, ReqError>(q@),
{
    let p = q.project@;
    let c = q.constraint.raw@;
    let t = req_text(q);
    if c == seq!['*'] {
        assert(t == p);
        lemma_untrimmed(t);
        lemma_split_skips(t, 1, t.len() as int);
        assert(split_from(t, t.len() as int) == t.len());
    } else {
        assert(t == p + c);
        assert(t[0] == p[0]);
        assert(t.last() == c.last());
        lemma_untrimmed(t);
        assert(!t.contains('\n')) by {
            if t.contains('\n') {
                let k = choose|k: int| 0 <= k < t.len() && t[k] == '\n';
                if k < p.len() {
                    assert(p[k] == '\n');
                } else {
                    assert(c[k - p.len()] == '\n');
                }
            }
        }
        assert forall|i: int| 1 <= i < p.len() implies !is_range_start(#[trigger] t[i]) by {
            assert(t[i] == p[i]);
        }
        lemma_split_skips(t, 1, p.len() as int);
        assert(t[p.len() as int] == c[0]);
        assert(split_from(t, p.len() as int) == p.len());
        assert(t.take(p.len() as int) =~= p);
        assert(t.skip(p.len() as int) =~= c);
    }
}

fn is_space_exec(c: char) -> (r: bool)
    ensures
        r == is_space(c),
{
    ('\t' <= c && c <= '\r') || c == ' ' || c == '\u{85}' || c == '\u{a0}' || c == '\u{1680}'
        || ('\u{2000}' <= c && c <= '\u{200a}') || c == '\u{2028}' || c == '\u{2029}'
        || c == '\u{202f}' || c == '\u{205f}' || c == '\u{3000}'
}

fn is_range_start_exec(c: char) -> (r: bool)
    ensures
        r == is_range_start(c),
{
    c == '^' || c == '=' || c == '~' || c == '<' || c == '>' || c == '@'
}

proof fn lemma_lead_bound(s: Seq<char>)
    ensures
        lead(s) <= s.len(),
    decreases s.len(),
{
    if s.len() > 0 && is_space(s[0]) {
        lemma_lead_bound(s.skip(1));
    }
}

proof fn lemma_trail_bound(s: Seq<char>)
    ensures
        trail(s) <= s.len(),
    decreases s.len(),
{
    if s.len() > 0 && is_space(s.last()) {
        lemma_trail_bound(s.drop_last());
    }
}

/// The characters of `s` without white space at either end.
pub fn trim_chars(s: &Vec<char>) -> (r: Vec<char>)
    ensures
        r@ == trimmed(s@),
{
    let mut a: usize = 0;
    proof {
        lemma_lead_bound(s@);
        assert(s@.skip(0) =~= s@);
    }
    while a < s.len() && is_space_exec(s[a])
        invariant
            a <= s@.len(),
            lead(s@) == a + lead(s@.skip(a as int)),
        decreases s@.len() - a,
    {
        proof {
            assert(s@.skip(a as int).skip(1) =~= s@.skip(a + 1));
        }
        a = a + 1;
    }
    let ghost rest = s@.skip(a as int);
    assert(lead(rest) == 0);
    let mut b: usize = s.len();
    proof {
        lemma_trail_bound(rest);
        assert(rest.take(rest.len() as int) =~= rest);
    }
    while b > a && is_space_exec(s[b - 1])
        invariant
            a <= b <= s@.len(),
            rest == s@.skip(a as int),
            trail(rest) == (s@.len() - b) + trail(rest.take(b - a)),
        decreases b,
    {
        proof {
            let t = rest.take(b - a);
            assert(t.last() == s@[b - 1]);
            assert(t.drop_last() =~= rest.take(b - 1 - a));
        }
        b = b - 1;
    }
    proof {
        let t = rest.take(b - a);
        if b > a {
            assert(t.last() == s@[b - 1]);
        }
        assert(trail(t) == 0);
    }
    let mut out: Vec<char> = Vec::new();
    let mut i: usize = a;
    while i < b
        invariant
            a <= i <= b,
            b <= s@.len(),
            out@ == s@.subrange(a as int, i as int),
        decreases b - i,
    {
        out.push(s[i]);
        i = i + 1;
        assert(out@ =~= s@.subrange(a as int, i as int));
    }
    assert(out@ =~= trimmed(s@));
    out
}

fn has_newline(t: &Vec<char>) -> (r: bool)
    ensures
        r == t@.contains('\n'),
{
    let mut i: usize = 0;
    while i < t.len()
        invariant
            i <= t@.len(),
            forall|k: int| 0 <= k < i ==> t@[k] != '\n',
        decreases t@.len() - i,
    {
        if t[i] == '\n' {
            assert(t@[i as int] == '\n');
            return true;
        }
        i = i + 1;
    }
    false
}

impl PackageReq {
    /// A copy of this requirement.
    pub fn duplicate(&self) -> (r: PackageReq)
        ensures
            r.project == self.project,
            r.constraint.raw == self.constraint.raw,
            r.constraint.set@ == self.constraint.set@,
    {
        PackageReq { project: self.project.clone(), constraint: self.constraint.duplicate() }
    }

    /// Reads a requirement: `project`, or a project followed by a range such as
    /// `node^20`, `node@20.1`, `node>=18<20`. White space at either end is ignored.
    pub fn parse(pkgspec: &str) -> (r: Result<PackageReq, ReqError>)
        ensures
            match r {
                Ok(q) => req_of_text(pkgspec@) == Ok::<_, ReqError>(q@) && q.constraint.wf(),
                Err(e) => req_of_text(pkgspec@) == Err::<(Seq<char>, (Seq<char>, Seq<BoundView>)), _>(e),
            },
    {
        let s = chars_of(pkgspec);
        let t = trim_chars(&s);
        if t.len() == 0 || has_newline(&t) {
            return Err(ReqError::InvalidSpec);
        }
        let mut p: usize = 1;
        while p < t.len() && !(is_range_start_exec(t[p]) && p + 1 < t.len())
            invariant
                1 <= p <= t@.len(),
                split_from(t@, 1) == split_from(t@, p as int),
            decreases t@.len() - p,
        {
            p = p + 1;
        }
        let project = slice_chars(&t, 0, p);
        let ctext = if p == t.len() {
            let mut w: Vec<char> = Vec::new();
            w.push('*');
            w
        } else {
            slice_chars(&t, p, t.len())
        };
        assert(project@ =~= (if p == t@.len() { t@ } else { t@.take(p as int) }));
        assert(p < t@.len() ==> ctext@ =~= t@.skip(p as int));
        assert(p == t@.len() ==> ctext@ =~= seq!['*']);
        let cs = string_of(&ctext);
        match VersionRange::parse(cs.as_str()) {
            Some(c) => Ok(PackageReq { project: string_of(&project), constraint: c }),
            None => Err(ReqError::InvalidConstraint),
        }
    }

    /// The requirement's text: `project` for the wildcard, else `project` followed by
    /// the range's text.
    pub fn to_string(&self) -> (r: String)
        ensures
            r@ == req_text(*self),
    {
        if self.constraint.is_wildcard() {
            self.project.clone()
        } else {
            let mut t = chars_of(self.project.as_str());
            let c = chars_of(self.constraint.raw.as_str());
            append_chars(&mut t, &c);
            string_of(&t)
        }
    }
}

impl Package {
    /// `project=version`.
    pub fn to_string(&self) -> (r: String)
        ensures
            r@ == self.project@ + seq!['='] + self.version.raw@,
    {
        let mut t = chars_of(self.project.as_str());
        t.push('=');
        let v = chars_of(self.version.raw.as_str());
        append_chars(&mut t, &v);
        string_of(&t)
    }
}

/// Operating systems that packages are built for.
#[derive(Debug, Clone, Copy, PartialEq, Eq, Structural)]
pub enum Host {
    Darwin,
    Linux,
}

/// Processor architectures that packages are built for.
#[derive(Debug, Clone, Copy, PartialEq, Eq, Structural)]
pub enum Arch {
    Arm64,
    X86_64,
}

impl Host {
    pub open spec fn name_spec(&self) -> Seq<char> {
        match self {
            Host::Linux => "linux"@,
            Host::Darwin => "darwin"@,
        }
    }

    /// The name the distribution server uses.
    pub fn name(&self) -> (r: &'static str)
        ensures
            r@ == self.name_spec(),
    {
        match self {
            Host::Linux => "linux",
            Host::Darwin => "darwin",
        }
    }
}

impl Arch {
    pub open spec fn name_spec(&self) -> Seq<char> {
        match self {
            Arch::Arm64 => "aarch64"@,
            Arch::X86_64 => "x86-64"@,
        }
    }

    /// The name the distribution server uses.
    pub fn name(&self) -> (r: &'static str)
        ensures
            r@ == self.name_spec(),
    {
        match self {
            Arch::Arm64 => "aarch64",
            Arch::X86_64 => "x86-64",
        }
    }
}

/// The platform named by Rust's `target_os` and `target_arch` values, if packages are
/// built for it.
pub fn host(os: &str, arch: &str) -> (r: Option<(Host, Arch)>)
    ensures
        r is Some <==> ((os@ == "macos"@ || os@ == "linux"@) && (arch@ == "aarch64"@ || arch@ == "x86_64"@)),
        r matches Some((h, a)) ==> (h == Host::Darwin <==> os@ == "macos"@) && (a == Arch::Arm64 <==> arch@ == "aarch64"@),
{
    let o = String::from_str(os);
    let a = String::from_str(arch);
    let macos = String::from_str("macos");
    let linux = String::from_str("linux");
    let aarch64 = String::from_str("aarch64");
    let x86_64 = String::from_str("x86_64");
    let h = if o == macos { Host::Darwin } else if o == linux { Host::Linux } else { return None; };
    let c = if a == aarch64 { Arch::Arm64 } else if a == x86_64 { Arch::X86_64 } else { return None; };
    proof {
        reveal_strlit("macos");
        reveal_strlit("linux");
        reveal_strlit("aarch64");
        reveal_strlit("x86_64");
    }
    Some((h, c))
}

} // verus!
