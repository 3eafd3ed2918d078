//! Versions, bounds and ranges, with satisfaction and intersection.
use crate::text::{chars_of, decimal, decimal_chars, string_of, append_chars};
use libsemverator::range::Constraint as C;
use vstd::prelude::*;

verus! {

/// A released version: its three numeric parts and the text it was read from.
#[derive(Debug, Clone)]
pub struct Version {
    pub major: usize,
    pub minor: usize,
    pub patch: usize,
    pub raw: String,
}

/// One member of a range: every version, one version, or a half-open interval.
#[derive(Debug, Clone)]
pub enum Bound {
    Any,
    Single(Version),
    Contiguous(Version, Version),
}

/// A set of versions: the union of its bounds.
#[derive(Debug, Clone)]
pub struct VersionRange {
    pub raw: String,
    pub set: Vec<Bound>,
}

pub type VersionView = (nat, nat, nat, Seq<char>);

pub enum BoundView {
    Any,
    Single(VersionView),
    Contiguous(VersionView, VersionView),
}

impl View for Version {
    type V = VersionView;

    open spec fn view(&self) -> VersionView {
        (self.major as nat, self.minor as nat, self.patch as nat, self.raw@)
    }
}

impl View for Bound {
    type V = BoundView;

    open spec fn view(&self) -> BoundView {
        match self {
            Bound::Any => BoundView::Any,
            Bound::Single(v) => BoundView::Single(v@),
            Bound::Contiguous(a, b) => BoundView::Contiguous(a@, b@),
        }
    }
}

impl View for VersionRange {
    type V = (Seq<char>, Seq<BoundView>);

    open spec fn view(&self) -> (Seq<char>, Seq<BoundView>) {
        (self.raw@, self.set@.map_values(|b: Bound| b@))
    }
}

/// `a` and `b` have the same major, minor and patch numbers.
pub open spec fn same(a: Version, b: Version) -> bool {
    a.major == b.major && a.minor == b.minor && a.patch == b.patch
}

/// `a` comes strictly before `b`, comparing major, then minor, then patch.
pub open spec fn before(a: Version, b: Version) -> bool {
    a.major < b.major || (a.major == b.major && (a.minor < b.minor || (a.minor == b.minor
        && a.patch < b.patch)))
}

pub open spec fn not_after(a: Version, b: Version) -> bool {
    before(a, b) || same(a, b)
}

pub open spec fn bound_holds(b: Bound, v: Version) -> bool {
    match b {
        Bound::Any => true,
        Bound::Single(x) => same(x, v),
        Bound::Contiguous(lo, hi) => not_after(lo, v) && before(v, hi),
    }
}

pub open spec fn bound_wf(b: Bound) -> bool {
    match b {
        Bound::Contiguous(lo, hi) => before(lo, hi),
        _ => true,
    }
}

/// Some bound of `s` admits `v`.
pub open spec fn set_holds(s: Seq<Bound>, v: Version) -> bool {
    exists|i: int| 0 <= i < s.len() && bound_holds(#[trigger] s[i], v)
}

pub open spec fn set_wf(s: Seq<Bound>) -> bool {
    s.len() > 0 && forall|i: int| 0 <= i < s.len() ==> bound_wf(#[trigger] s[i])
}

pub open spec fn has_any(s: Seq<Bound>) -> bool {
    exists|i: int| 0 <= i < s.len() && (#[trigger] s[i]) is Any
}

/// The later of two versions (the second when they are the same).
pub open spec fn later(a: Version, b: Version) -> Version {
    if before(b, a) { a } else { b }
}

/// The earlier of two versions (the second when they are the same).
pub open spec fn earlier(a: Version, b: Version) -> Version {
    if before(a, b) { a } else { b }
}

/// The common part of two bounds that are not `Any`, if they have one.
pub open spec fn meet(x: Bound, y: Bound) -> Option<Bound> {
    match (x, y) {
        (Bound::Single(a), Bound::Single(b)) => if same(a, b) { Some(x) } else { None },
        (Bound::Single(a), Bound::Contiguous(_, _)) => if bound_holds(y, a) { Some(x) } else { None },
        (Bound::Contiguous(_, _), Bound::Single(b)) => if bound_holds(x, b) { Some(y) } else { None },
        (Bound::Contiguous(a1, a2), Bound::Contiguous(b1, b2)) => if before(a1, b2) && before(b1, a2) {
            Some(Bound::Contiguous(later(a1, b1), earlier(a2, b2)))
        } else {
            None
        },
        _ => None,
    }
}

/// The meets of `x` with each of `ys`, in order, leaving out the empty ones.
pub open spec fn row(x: Bound, ys: Seq<Bound>) -> Seq<Bound>
    decreases ys.len(),
{
    if ys.len() == 0 {
        Seq::empty()
    } else {
        let r = row(x, ys.drop_last());
        match meet(x, ys.last()) {
            Some(m) => r.push(m),
            None => r,
        }
    }
}

/// All pairwise meets, row by row.
pub open spec fn meets(xs: Seq<Bound>, ys: Seq<Bound>) -> Seq<Bound>
    decreases xs.len(),
{
    if xs.len() == 0 {
        Seq::empty()
    } else {
        meets(xs.drop_last(), ys) + row(xs.last(), ys)
    }
}

/// The bounds of the intersection of two ranges, or `None` when it is empty.
pub open spec fn intersection(a: Seq<Bound>, b: Seq<Bound>) -> Option<Seq<Bound>> {
    if has_any(a) {
        Some(b)
    } else if has_any(b) {
        Some(a)
    } else {
        let m = meets(a, b);
        if m.len() == 0 { None } else { Some(m) }
    }
}


/// The text of one bound, as ranges write it back.
pub open spec fn bound_text(b: Bound) -> Seq<char> {
    match b {
        Bound::Any => seq!['*'],
        Bound::Single(v) => seq!['='] + v.raw@,
        Bound::Contiguous(lo, hi) => seq!['>', '='] + lo.raw@ + seq!['<'] + hi.raw@,
    }
}

/// The texts of the bounds, separated by commas.
pub open spec fn set_text(s: Seq<Bound>) -> Seq<char>
    decreases s.len(),
{
    if s.len() == 0 {
        Seq::empty()
    } else if s.len() == 1 {
        bound_text(s[0])
    } else {
        set_text(s.drop_last()) + seq![','] + bound_text(s.last())
    }
}

impl Version {
    /// Builds a version from its three parts; its text is `major.minor.patch`.
    pub fn new(major: usize, minor: usize, patch: usize) -> (r: Version)
        ensures
            r.major == major,
            r.minor == minor,
            r.patch == patch,
            r.raw@ == decimal(major as nat) + seq!['.'] + decimal(minor as nat) + seq!['.']
                + decimal(patch as nat),
    {
        let mut t = decimal_chars(major as u64);
        t.push('.');
        let mi = decimal_chars(minor as u64);
        append_chars(&mut t, &mi);
        t.push('.');
        let pa = decimal_chars(patch as u64);
        append_chars(&mut t, &pa);
        Version { major, minor, patch, raw: string_of(&t) }
    }

    /// A copy of this version.
    pub fn duplicate(&self) -> (r: Version)
        ensures
            r == *self,
    {
        Version { major: self.major, minor: self.minor, patch: self.patch, raw: self.raw.clone() }
    }

    /// Whether this version comes strictly before `other`.
    pub fn is_before(&self, other: &Version) -> (r: bool)
        ensures
            r == before(*self, *other),
    {
        self.major < other.major || (self.major == other.major && (self.minor < other.minor || (
        self.minor == other.minor && self.patch < other.patch)))
    }

    /// Whether this version has the same numbers as `other`.
    pub fn is_same(&self, other: &Version) -> (r: bool)
        ensures
            r == same(*self, *other),
    {
        self.major == other.major && self.minor == other.minor && self.patch == other.patch
    }
}

impl Bound {
    pub fn duplicate(&self) -> (r: Bound)
        ensures
            r == *self,
    {
        match self {
            Bound::Any => Bound::Any,
            Bound::Single(v) => Bound::Single(v.duplicate()),
            Bound::Contiguous(a, b) => Bound::Contiguous(a.duplicate(), b.duplicate()),
        }
    }

    /// Whether this bound admits `v`.
    pub fn admits(&self, v: &Version) -> (r: bool)
        ensures
            r == bound_holds(*self, *v),
    {
        match self {
            Bound::Any => true,
            Bound::Single(x) => x.is_same(v),
            Bound::Contiguous(lo, hi) => (lo.is_before(v) || lo.is_same(v)) && v.is_before(hi),
        }
    }

    fn text(&self) -> (r: Vec<char>)
        ensures
            r@ == bound_text(*self),
    {
        match self {
            Bound::Any => {
                let mut t: Vec<char> = Vec::new();
                t.push('*');
                t
            },
            Bound::Single(v) => {
                let mut t: Vec<char> = Vec::new();
                t.push('=');
                let r = chars_of(v.raw.as_str());
                append_chars(&mut t, &r);
                t
            },
            Bound::Contiguous(lo, hi) => {
                let mut t: Vec<char> = Vec::new();
                t.push('>');
                t.push('=');
                let a = chars_of(lo.raw.as_str());
                append_chars(&mut t, &a);
                t.push('<');
                let b = chars_of(hi.raw.as_str());
                append_chars(&mut t, &b);
                t
            },
        }
    }
}

fn meet_exec(x: &Bound, y: &Bound) -> (r: Option<Bound>)
    requires
        !(x is Any),
        !(y is Any),
    ensures
        r == meet(*x, *y),
{
    match (x, y) {
        (Bound::Single(a), Bound::Single(b)) => if a.is_same(b) { Some(x.duplicate()) } else { None },
        (Bound::Single(a), Bound::Contiguous(_, _)) => if y.admits(a) { Some(x.duplicate()) } else { None },
        (Bound::Contiguous(_, _), Bound::Single(b)) => if x.admits(b) { Some(y.duplicate()) } else { None },
        (Bound::Contiguous(a1, a2), Bound::Contiguous(b1, b2)) => {
            if a1.is_before(b2) && b1.is_before(a2) {
                let lo = if b1.is_before(a1) { a1.duplicate() } else { b1.duplicate() };
                let hi = if a2.is_before(b2) { a2.duplicate() } else { b2.duplicate() };
                Some(Bound::Contiguous(lo, hi))
            } else {
                None
            }
        },
        _ => None,
    }
}

fn find_any(s: &Vec<Bound>) -> (r: bool)
    ensures
        r == has_any(s@),
{
    let mut i: usize = 0;
    while i < s.len()
        invariant
            i <= s@.len(),
            forall|k: int| 0 <= k < i ==> !(s@[k] is Any),
        decreases s@.len() - i,
    {
        if let Bound::Any = &s[i] {
            return true;
        }
        i = i + 1;
    }
    false
}

/// A copy of the bounds.
fn duplicate_set(s: &Vec<Bound>) -> (r: Vec<Bound>)
    ensures
        r@ == s@,
{
    let mut out: Vec<Bound> = Vec::new();
    let mut i: usize = 0;
    while i < s.len()
        invariant
            i <= s@.len(),
            out@ == s@.take(i as int),
        decreases s@.len() - i,
    {
        out.push(s[i].duplicate());
        i = i + 1;
        assert(out@ =~= s@.take(i as int));
    }
    assert(s@.take(s@.len() as int) =~= s@);
    out
}

fn set_text_exec(s: &Vec<Bound>) -> (r: Vec<char>)
    ensures
        r@ == set_text(s@),
{
    let mut out: Vec<char> = Vec::new();
    let mut i: usize = 0;
    while i < s.len()
        invariant
            i <= s@.len(),
            out@ == set_text(s@.take(i as int)),
        decreases s@.len() - i,
    {
        let t = s[i].text();
        if i > 0 {
            out.push(',');
        }
        append_chars(&mut out, &t);
        proof {
            let n = s@.take(i + 1 as int);
            assert(n.drop_last() =~= s@.take(i as int));
            assert(n.last() == s@[i as int]);
            if i == 0 {
                assert(out@ =~= bound_text(n[0]));
            }
        }
        i = i + 1;
    }
    assert(s@.take(s@.len() as int) =~= s@);
    out
}

impl VersionRange {
    /// Every version lies in the range.
    pub open spec fn wf(&self) -> bool {
        set_wf(self.set@)
    }

    /// `v` lies in the range.
    pub open spec fn holds(&self, v: Version) -> bool {
        set_holds(self.set@, v)
    }

    /// The range of every version, written `*`.
    pub fn any() -> (r: VersionRange)
        ensures
            r.wf(),
            r.set@ == seq![Bound::Any],
            r.raw@ == seq!['*'],
            forall|v: Version| r.holds(v),
    {
        let mut set: Vec<Bound> = Vec::new();
        set.push(Bound::Any);
        let mut t: Vec<char> = Vec::new();
        t.push('*');
        let r = VersionRange { raw: string_of(&t), set };
        assert forall|v: Version| r.holds(v) by {
            assert(bound_holds(r.set@[0], v));
        }
        r
    }

    pub fn duplicate(&self) -> (r: VersionRange)
        ensures
            r.raw == self.raw,
            r.set@ == self.set@,
    {
        let set = duplicate_set(&self.set);
        assert(set@ =~= self.set@);
        VersionRange { raw: self.raw.clone(), set }
    }

    /// Whether `v` lies in the range.
    pub fn satisfies(&self, v: &Version) -> (r: bool)
        ensures
            r == self.holds(*v),
    {
        let mut i: usize = 0;
        while i < self.set.len()
            invariant
                i <= self.set@.len(),
                forall|k: int| 0 <= k < i ==> !bound_holds(#[trigger] self.set@[k], *v),
            decreases self.set@.len() - i,
        {
            if self.set[i].admits(v) {
                return true;
            }
            i = i + 1;
        }
        false
    }

    /// The range of exactly `v`, written `=<version>`.
    pub fn single(v: &Version) -> (r: VersionRange)
        ensures
            r.wf(),
            r.raw@ == seq!['='] + v.raw@,
            r.set@ == seq![Bound::Single(*v)],
            forall|w: Version| r.holds(w) <==> same(*v, w),
    {
        let mut t: Vec<char> = Vec::new();
        t.push('=');
        let raw = chars_of(v.raw.as_str());
        append_chars(&mut t, &raw);
        let mut set: Vec<Bound> = Vec::new();
        set.push(Bound::Single(v.duplicate()));
        let r = VersionRange { raw: string_of(&t), set };
        assert forall|w: Version| r.holds(w) <==> same(*v, w) by {
            if same(*v, w) {
                assert(bound_holds(r.set@[0], w));
            }
        }
        r
    }

    /// Whether every interval of the range starts before it ends, and it has a bound.
    pub fn is_wf(&self) -> (r: bool)
        ensures
            r == self.wf(),
    {
        wf_exec(&self.set)
    }

    /// Whether the range is the wildcard `*`.
    pub fn is_wildcard(&self) -> (r: bool)
        ensures
            r == (self.raw@ == seq!['*']),
    {
        let t = chars_of(self.raw.as_str());
        proof {
            if t@.len() == 1 && t@[0] == '*' {
                assert(t@ =~= seq!['*']);
            }
        }
        t.len() == 1 && t[0] == '*'
    }

    /// The range of the versions that lie in both `self` and `other`; `None` when no
    /// version lies in both.
    pub fn intersect(&self, other: &VersionRange) -> (r: Option<VersionRange>)
        requires
            self.wf(),
            other.wf(),
        ensures
            match r {
                Some(x) => intersection(self.set@, other.set@) == Some(x.set@) && x.wf(),
                None => intersection(self.set@, other.set@) is None,
            },
            r is Some <==> exists|v: Version| self.holds(v) && other.holds(v),
            r matches Some(x) ==> forall|v: Version| x.holds(v) <==> self.holds(v) && other.holds(v),
    {
        proof {
            lemma_intersection_exact(self.set@, other.set@);
            if exists|v: Version| set_holds(self.set@, v) && set_holds(other.set@, v) {
                let w = choose|v: Version| set_holds(self.set@, v) && set_holds(other.set@, v);
                assert(self.holds(w) && other.holds(w));
            }
        }
        if find_any(&self.set) {
            return Some(other.duplicate());
        }
        if find_any(&other.set) {
            return Some(self.duplicate());
        }
        let mut out: Vec<Bound> = Vec::new();
        let mut i: usize = 0;
        while i < self.set.len()
            invariant
                i <= self.set@.len(),
                !has_any(self.set@),
                !has_any(other.set@),
                out@ == meets(self.set@.take(i as int), other.set@),
            decreases self.set@.len() - i,
        {
            let mut j: usize = 0;
            let ghost base = out@;
            assert(!(self.set@[i as int] is Any));
            while j < other.set.len()
                invariant
                    i < self.set@.len(),
                    j <= other.set@.len(),
                    !has_any(other.set@),
                    !(self.set@[i as int] is Any),
                    out@ == base + row(self.set@[i as int], other.set@.take(j as int)),
                decreases other.set@.len() - j,
            {
                assert(!(other.set@[j as int] is Any));
                let m = meet_exec(&self.set[i], &other.set[j]);
                proof {
                    let n = other.set@.take(j + 1 as int);
                    assert(n.drop_last() =~= other.set@.take(j as int));
                    assert(n.last() == other.set@[j as int]);
                }
                match m {
                    Some(b) => {
                        out.push(b);
                    },
                    None => {},
                }
                j = j + 1;
                assert(out@ =~= base + row(self.set@[i - 0 as int], other.set@.take(j as int)));
            }
            proof {
                let n = self.set@.take(i + 1 as int);
                assert(n.drop_last() =~= self.set@.take(i as int));
                assert(other.set@.take(other.set@.len() as int) =~= other.set@);
            }
            i = i + 1;
        }
        assert(self.set@.take(self.set@.len() as int) =~= self.set@);
        if out.len() == 0 {
            return None;
        }
        let t = set_text_exec(&out);
        Some(VersionRange { raw: string_of(&t), set: out })
    }
}

proof fn lemma_row_holds(x: Bound, ys: Seq<Bound>, v: Version)
    requires
        !(x is Any),
        !has_any(ys),
        bound_wf(x),
        forall|i: int| 0 <= i < ys.len() ==> bound_wf(#[trigger] ys[i]),
    ensures
        set_holds(row(x, ys), v) <==> (bound_holds(x, v) && set_holds(ys, v)),
        forall|i: int| 0 <= i < row(x, ys).len() ==> bound_wf(#[trigger] row(x, ys)[i]),
        forall|i: int| 0 <= i < row(x, ys).len() ==> !(#[trigger] row(x, ys)[i] is Any),
    decreases ys.len(),
{
    if ys.len() > 0 {
        let p = ys.drop_last();
        assert forall|i: int| 0 <= i < p.len() implies bound_wf(#[trigger] p[i]) by {
            assert(p[i] == ys[i]);
        }
        assert(!has_any(p)) by {
            if has_any(p) {
                let k = choose|k: int| 0 <= k < p.len() && (#[trigger] p[k]) is Any;
                assert(ys[k] == p[k]);
            }
        }
        lemma_row_holds(x, p, v);
        let y = ys.last();
        assert(ys[ys.len() - 1] == y);
        let r = row(x, p);
        assert(set_holds(ys, v) <==> (set_holds(p, v) || bound_holds(y, v))) by {
            if set_holds(ys, v) {
                let k = choose|k: int| 0 <= k < ys.len() && bound_holds(#[trigger] ys[k], v);
                if k < ys.len() - 1 {
                    assert(p[k] == ys[k]);
                }
            }
            if set_holds(p, v) {
                let k = choose|k: int| 0 <= k < p.len() && bound_holds(#[trigger] p[k], v);
                assert(p[k] == ys[k]);
            }
        }
        match meet(x, y) {
            Some(m) => {
                let rr = r.push(m);
                assert(rr[rr.len() - 1] == m);
                assert(set_holds(rr, v) <==> (set_holds(r, v) || bound_holds(m, v))) by {
                    if set_holds(rr, v) {
                        let k = choose|k: int| 0 <= k < rr.len() && bound_holds(#[trigger] rr[k], v);
                        if k < rr.len() - 1 {
                            assert(r[k] == rr[k]);
                        }
                    }
                    if set_holds(r, v) {
                        let k = choose|k: int| 0 <= k < r.len() && bound_holds(#[trigger] r[k], v);
                        assert(r[k] == rr[k]);
                    }
                }
                assert(forall|i: int| 0 <= i < r.len() ==> rr[i] == r[i]);
            },
            None => {},
        }
    }
}

proof fn lemma_meets_holds(xs: Seq<Bound>, ys: Seq<Bound>, v: Version)
    requires
        !has_any(xs),
        !has_any(ys),
        forall|i: int| 0 <= i < xs.len() ==> bound_wf(#[trigger] xs[i]),
        forall|i: int| 0 <= i < ys.len() ==> bound_wf(#[trigger] ys[i]),
    ensures
        set_holds(meets(xs, ys), v) <==> (set_holds(xs, v) && set_holds(ys, v)),
        forall|i: int| 0 <= i < meets(xs, ys).len() ==> bound_wf(#[trigger] meets(xs, ys)[i]),
    decreases xs.len(),
{
    if xs.len() > 0 {
        let p = xs.drop_last();
        let x = xs.last();
        assert(xs[xs.len() - 1] == x);
        assert forall|i: int| 0 <= i < p.len() implies bound_wf(#[trigger] p[i]) by {
            assert(p[i] == xs[i]);
        }
        assert(!has_any(p)) by {
            if has_any(p) {
                let k = choose|k: int| 0 <= k < p.len() && (#[trigger] p[k]) is Any;
                assert(xs[k] == p[k]);
            }
        }
        assert(!(x is Any));
        lemma_meets_holds(p, ys, v);
        lemma_row_holds(x, ys, v);
        let a = meets(p, ys);
        let b = row(x, ys);
        let c = a + b;
        assert(set_holds(c, v) <==> (set_holds(a, v) || set_holds(b, v))) by {
            if set_holds(c, v) {
                let k = choose|k: int| 0 <= k < c.len() && bound_holds(#[trigger] c[k], v);
                if k < a.len() {
                    assert(a[k] == c[k]);
                } else {
                    assert(b[k - a.len()] == c[k]);
                }
            }
            if set_holds(a, v) {
                let k = choose|k: int| 0 <= k < a.len() && bound_holds(#[trigger] a[k], v);
                assert(a[k] == c[k]);
            }
            if set_holds(b, v) {
                let k = choose|k: int| 0 <= k < b.len() && bound_holds(#[trigger] b[k], v);
                assert(b[k] == c[k + a.len()]);
            }
        }
        assert(set_holds(xs, v) <==> (set_holds(p, v) || bound_holds(x, v))) by {
            if set_holds(xs, v) {
                let k = choose|k: int| 0 <= k < xs.len() && bound_holds(#[trigger] xs[k], v);
                if k < xs.len() - 1 {
                    assert(p[k] == xs[k]);
                }
            }
            if set_holds(p, v) {
                let k = choose|k: int| 0 <= k < p.len() && bound_holds(#[trigger] p[k], v);
                assert(p[k] == xs[k]);
            }
        }
        assert forall|i: int| 0 <= i < c.len() implies bound_wf(#[trigger] c[i]) by {
            if i < a.len() {
                assert(a[i] == c[i]);
            } else {
                assert(b[i - a.len()] == c[i]);
            }
        }
    }
}

/// A bound that is well formed admits some version.
pub proof fn lemma_bound_inhabited(b: Bound)
    requires
        bound_wf(b),
    ensures
        exists|v: Version| bound_holds(b, v),
{
    match b {
        Bound::Any => {
            let v = arbitrary::<Version>();
            assert(bound_holds(b, v));
        },
        Bound::Single(x) => {
            assert(bound_holds(b, x));
        },
        Bound::Contiguous(lo, hi) => {
            assert(bound_holds(b, lo));
        },
    }
}

proof fn lemma_any_holds(s: Seq<Bound>, v: Version)
    requires
        has_any(s),
    ensures
        set_holds(s, v),
{
    let k = choose|k: int| 0 <= k < s.len() && (#[trigger] s[k]) is Any;
    assert(bound_holds(s[k], v));
}

/// What `intersection` gives: exactly the versions admitted by both ranges, well formed,
/// and `None` exactly when no version is admitted by both.
pub proof fn lemma_intersection_exact(a: Seq<Bound>, b: Seq<Bound>)
    requires
        set_wf(a),
        set_wf(b),
    ensures
        intersection(a, b) is Some <==> exists|v: Version| set_holds(a, v) && set_holds(b, v),
        intersection(a, b) matches Some(s) ==> set_wf(s) && forall|v: Version|
            set_holds(s, v) <==> set_holds(a, v) && set_holds(b, v),
{
    if has_any(a) {
        assert forall|v: Version| set_holds(a, v) by { lemma_any_holds(a, v); }
        lemma_bound_inhabited(b[0]);
        let w = choose|v: Version| bound_holds(b[0], v);
        assert(set_holds(b, w));
    } else if has_any(b) {
        assert forall|v: Version| set_holds(b, v) by { lemma_any_holds(b, v); }
        lemma_bound_inhabited(a[0]);
        let w = choose|v: Version| bound_holds(a[0], v);
        assert(set_holds(a, w));
    } else {
        let m = meets(a, b);
        assert forall|v: Version| set_holds(m, v) <==> set_holds(a, v) && set_holds(b, v) by {
            lemma_meets_holds(a, b, v);
        }
        let w = arbitrary::<Version>();
        lemma_meets_holds(a, b, w);
        if m.len() > 0 {
            lemma_bound_inhabited(m[0]);
            let v = choose|v: Version| bound_holds(m[0], v);
            assert(set_holds(m, v));
        } else {
            assert forall|v: Version| !(set_holds(a, v) && set_holds(b, v)) by {
                lemma_meets_holds(a, b, v);
            }
        }
    }
}

/// Intersection of two well-formed ranges admits exactly the versions that both admit,
/// and does not depend on the order of its two arguments.
pub proof fn lemma_intersect_law(a: Seq<Bound>, b: Seq<Bound>)
    requires
        set_wf(a),
        set_wf(b),
    ensures
        intersection(a, b) matches Some(s) ==> forall|v: Version|
            set_holds(s, v) <==> set_holds(a, v) && set_holds(b, v),
        intersection(a, b) is Some <==> intersection(b, a) is Some,
        intersection(a, b) matches Some(s) ==> intersection(b, a) matches Some(t) && forall|v: Version|
            set_holds(s, v) <==> set_holds(t, v),
{
    lemma_intersection_exact(a, b);
    lemma_intersection_exact(b, a);
}


/// What `Semver::parse` reads from a text: the version's numbers and normalised text.
pub uninterp spec fn semver_reading(s: Seq<char>) -> Option<VersionView>;

/// What `Range::parse` reads from a text: the range's text and bounds.
pub uninterp spec fn range_reading(s: Seq<char>) -> Option<(Seq<char>, Seq<BoundView>)>;

/// A run of twenty digits: a number that may not fit a machine word.
pub open spec fn has_long_number(s: Seq<char>) -> bool {
    exists|i: int| #[trigger] digit_run(s, i)
}

pub open spec fn is_digit(c: char) -> bool {
    '0' <= c <= '9'
}

/// Twenty digits start at `i`.
pub open spec fn digit_run(s: Seq<char>, i: int) -> bool {
    0 <= i && i + 20 <= s.len() && forall|k: int| i <= k < i + 20 ==> is_digit(#[trigger] s[k])
}

/// Relies on `libsemverator::semver::Semver::parse`: reads a version, and the result
/// depends on the text alone.
#[verifier::external_body]
fn read_semver(s: &str) -> (r: Option<Version>)
    ensures
        r matches Some(v) ==> semver_reading(s@) == Some(v@),
        r is None ==> semver_reading(s@) is None,
{
    libsemverator::semver::Semver::parse(s).ok().map(
        |v| Version { major: v.major, minor: v.minor, patch: v.patch, raw: v.raw },
    )
}

/// Relies on `libsemverator::range::Range::parse`: reads a range, and the result depends
/// on the text alone; `*` is the range of one `Any` bound. Numbers too large for a word
/// overflow in it, so they are left out.
#[verifier::external_body]
fn read_range(s: &str) -> (r: Option<VersionRange>)
    requires
        !has_long_number(s@),
    ensures
        r matches Some(x) ==> range_reading(s@) == Some(x@),
        r is None ==> range_reading(s@) is None,
        r is None ==> s@ != seq!['*'],
        r matches Some(x) ==> (s@ == seq!['*'] ==> x.raw@ == s@ && x.set@ == seq![Bound::Any]),
{
    let v = |s: libsemverator::semver::Semver| Version { major: s.major, minor: s.minor, patch: s.patch, raw: s.raw };
    libsemverator::range::Range::parse(s).ok().map(|r| VersionRange {
        raw: r.raw,
        set: r.set.into_iter().map(|c| match c {
            C::Any => Bound::Any,
            C::Single(a) => Bound::Single(v(a)),
            C::Contiguous(a, b) => Bound::Contiguous(v(a), v(b)),
        }).collect(),
    })
}

pub open spec fn view_before(a: VersionView, b: VersionView) -> bool {
    a.0 < b.0 || (a.0 == b.0 && (a.1 < b.1 || (a.1 == b.1 && a.2 < b.2)))
}

/// The bounds are not empty and every interval has its start before its end.
pub open spec fn bounds_wf(s: Seq<BoundView>) -> bool {
    s.len() > 0 && forall|i: int| 0 <= i < s.len() ==> match #[trigger] s[i] {
        BoundView::Contiguous(lo, hi) => view_before(lo, hi),
        _ => true,
    }
}

/// The range that a text names, when it is one this library accepts.
pub open spec fn range_of_text(s: Seq<char>) -> Option<(Seq<char>, Seq<BoundView>)> {
    if has_long_number(s) {
        None
    } else {
        match range_reading(s) {
            Some(x) => if bounds_wf(x.1) { Some(x) } else { None },
            None => None,
        }
    }
}

pub open spec fn version_of_text(s: Seq<char>) -> Option<VersionView> {
    semver_reading(s)
}

fn long_number(s: &Vec<char>) -> (r: bool)
    ensures
        r == has_long_number(s@),
{
    let mut run: usize = 0;
    let mut i: usize = 0;
    while i < s.len()
        invariant
            i <= s@.len(),
            run <= i,
            run < 20,
            forall|k: int| i - run <= k < i ==> is_digit(#[trigger] s@[k]),
            i > run ==> !is_digit(s@[i - run - 1]),
            forall|j: int| 0 <= j && j + 20 <= i ==> !digit_run(s@, j),
        decreases s@.len() - i,
    {
        if '0' <= s[i] && s[i] <= '9' {
            run = run + 1;
            if run == 20 {
                assert(digit_run(s@, i + 1 - 20));
                return true;
            }
        } else {
            run = 0;
        }
        i = i + 1;
        assert forall|j: int| 0 <= j && j + 20 <= i implies !digit_run(s@, j) by {
            if j + 20 == i {
                if run == 0 {
                    assert(!is_digit(s@[i - 1]));
                } else {
                    assert(!is_digit(s@[i - run - 1]));
                }
            }
        }
    }
    false
}

proof fn lemma_wf_view(r: VersionRange)
    ensures
        r.wf() <==> bounds_wf(r@.1),
{
    let v = r@.1;
    assert(v.len() == r.set@.len());
    if r.wf() {
        assert forall|i: int| 0 <= i < v.len() implies match #[trigger] v[i] {
            BoundView::Contiguous(lo, hi) => view_before(lo, hi),
            _ => true,
        } by {
            assert(bound_wf(r.set@[i]));
        }
    }
    if bounds_wf(v) {
        assert forall|i: int| 0 <= i < r.set@.len() implies bound_wf(#[trigger] r.set@[i]) by {
            assert(v[i] == r.set@[i]@);
        }
    }
}

impl Version {
    /// Reads a version from its text.
    pub fn parse(text: &str) -> (r: Option<Version>)
        ensures
            r matches Some(v) ==> version_of_text(text@) == Some(v@),
            r is None ==> version_of_text(text@) is None,
    {
        read_semver(text)
    }
}

impl VersionRange {
    /// Reads a range from its text: `*`, `^1.2`, `~1.2`, `=1.2.3`, `@1.2`, `<2`, `>=1<2`, or
    /// several of them joined by `,` or `||`.
    pub fn parse(text: &str) -> (r: Option<VersionRange>)
        ensures
            r matches Some(x) ==> x.wf() && range_of_text(text@) == Some(x@),
            r is None ==> range_of_text(text@) is None,
            text@ == seq!['*'] ==> (r matches Some(x) && x.raw@ == text@ && x.set@ == seq![Bound::Any]),
    {
        let t = chars_of(text);
        if long_number(&t) {
            return None;
        }
        match read_range(text) {
            Some(x) => {
                proof {
                    lemma_wf_view(x);
                }
                if wf_exec(&x.set) {
                    Some(x)
                } else {
                    None
                }
            },
            None => None,
        }
    }

    /// The position of the greatest version in `versions` that lies in the range (the
    /// last of them where several are equal), or `None` when none lies in it.
    pub fn select(&self, versions: &Vec<Version>) -> (r: Option<usize>)
        ensures
            r is None <==> forall|i: int| 0 <= i < versions@.len() ==> !self.holds(#[trigger] versions@[i]),
            r matches Some(k) ==> k < versions@.len() && self.holds(versions@[k as int])
                && (forall|i: int| 0 <= i < versions@.len() && self.holds(#[trigger] versions@[i])
                    ==> not_after(versions@[i], versions@[k as int]))
                && (forall|i: int| k < i < versions@.len() && self.holds(#[trigger] versions@[i])
                    ==> before(versions@[i], versions@[k as int])),
    {
        let mut best: Option<usize> = None;
        let mut i: usize = 0;
        while i < versions.len()
            invariant
                i <= versions@.len(),
                best is None <==> forall|j: int| 0 <= j < i ==> !self.holds(#[trigger] versions@[j]),
                best matches Some(k) ==> k < i && self.holds(versions@[k as int])
                    && (forall|j: int| 0 <= j < i && self.holds(#[trigger] versions@[j])
                        ==> not_after(versions@[j], versions@[k as int]))
                    && (forall|j: int| k < j < i && self.holds(#[trigger] versions@[j])
                        ==> before(versions@[j], versions@[k as int])),
            decreases versions@.len() - i,
        {
            if self.satisfies(&versions[i]) {
                match best {
                    None => {
                        best = Some(i);
                    },
                    Some(k) => {
                        if !versions[i].is_before(&versions[k]) {
                            best = Some(i);
                        }
                    },
                }
            }
            i = i + 1;
        }
        best
    }
}

fn wf_exec(s: &Vec<Bound>) -> (r: bool)
    ensures
        r == set_wf(s@),
{
    if s.len() == 0 {
        return false;
    }
    let mut i: usize = 0;
    while i < s.len()
        invariant
            i <= s@.len(),
            forall|k: int| 0 <= k < i ==> bound_wf(#[trigger] s@[k]),
        decreases s@.len() - i,
    {
        match &s[i] {
            Bound::Contiguous(lo, hi) => {
                if !lo.is_before(hi) {
                    return false;
                }
            },
            _ => {},
        }
        i = i + 1;
    }
    true
}

} // verus!
