use vstd::prelude::*;

verus! {

/// A path failed to resolve: it climbs above the ledger root, or lies outside the entry directory.
#[derive(Debug, Clone, Copy, PartialEq, Eq, Structural)]
pub enum PathError {
    EscapesRoot,
    OutsideEntry,
}

/// The characters of each segment.
pub open spec fn seg_view(v: Seq<String>) -> Seq<Seq<char>> {
    v.map_values(|s: String| s@)
}

/// One path component taken into a stack of resolved segments: empty and `.` change nothing,
/// `..` drops the last segment (and fails above the root), anything else is pushed.
pub open spec fn take_component(segs: Option<Seq<Seq<char>>>, c: Seq<char>) -> Option<Seq<Seq<char>>> {
    match segs {
        None => None,
        Some(s) => if c.len() == 0 || c == seq!['.'] {
            Some(s)
        } else if c == seq!['.', '.'] {
            if s.len() == 0 { None } else { Some(s.drop_last()) }
        } else {
            Some(s.push(c))
        },
    }
}

/// The reading state after the first `n` characters of `p`, started from `st`: the segments
/// resolved so far and the component still being read.
pub open spec fn scan_from(st: (Option<Seq<Seq<char>>>, Seq<char>), p: Seq<char>, n: nat) -> (Option<Seq<Seq<char>>>, Seq<char>)
    decreases n,
{
    if n == 0 || n > p.len() {
        st
    } else {
        let (segs, cur) = scan_from(st, p, (n - 1) as nat);
        if p[n - 1] == '/' {
            (take_component(segs, cur), Seq::empty())
        } else {
            (segs, cur.push(p[n - 1]))
        }
    }
}

/// Reading the first `n` characters of `p` from the directory `base`.
pub open spec fn scan(base: Seq<Seq<char>>, p: Seq<char>, n: nat) -> (Option<Seq<Seq<char>>>, Seq<char>) {
    scan_from((Some(base), Seq::empty()), p, n)
}

/// The segments that path `p` names when read relative to the directory `base`, or `None` if it
/// climbs above the root.
pub open spec fn normalized(base: Seq<Seq<char>>, p: Seq<char>) -> Option<Seq<Seq<char>>> {
    take_component(scan(base, p, p.len()).0, scan(base, p, p.len()).1)
}

/// Segments joined by `/`.
pub open spec fn joined(segs: Seq<Seq<char>>) -> Seq<char>
    decreases segs.len(),
{
    if segs.len() == 0 {
        Seq::empty()
    } else if segs.len() == 1 {
        segs[0]
    } else {
        joined(segs.drop_last()) + seq!['/'] + segs.last()
    }
}

/// The directory that holds a file.
pub open spec fn parent_of(p: Seq<Seq<char>>) -> Seq<Seq<char>> {
    if p.len() == 0 { p } else { p.drop_last() }
}

pub open spec fn is_absolute(p: Seq<char>) -> bool {
    p.len() > 0 && p[0] == '/'
}

/// Where an include target written in a file with directory `dir` leads, for a ledger whose root
/// directory is `entry`: an absolute target must lie under the entry and is taken relative to it,
/// a relative one is read from `dir`.
pub open spec fn resolved(entry: Seq<Seq<char>>, dir: Seq<Seq<char>>, target: Seq<char>) -> Result<Seq<Seq<char>>, PathError> {
    if is_absolute(target) {
        match normalized(Seq::empty(), target) {
            None => Err(PathError::EscapesRoot),
            Some(abs) => if entry.len() <= abs.len() && abs.subrange(0, entry.len() as int) == entry {
                Ok(abs.subrange(entry.len() as int, abs.len() as int))
            } else {
                Err(PathError::OutsideEntry)
            },
        }
    } else {
        match normalized(dir, target) {
            None => Err(PathError::EscapesRoot),
            Some(s) => Ok(s),
        }
    }
}

/// A file of the ledger, as the segments of its path below the ledger root.
#[derive(Debug, Clone, PartialEq, Eq)]
pub struct Locator {
    pub segments: Vec<String>,
}

impl View for Locator {
    type V = Seq<Seq<char>>;

    open spec fn view(&self) -> Seq<Seq<char>> {
        seg_view(self.segments@)
    }
}

impl Locator {
    /// The root directory itself.
    pub fn root() -> (r: Locator)
        ensures
            r@ == Seq::<Seq<char>>::empty(),
    {
        let r = Locator { segments: Vec::new() };
        assert(r@ =~= Seq::<Seq<char>>::empty());
        r
    }

    /// A copy with the same segments.
    pub fn copy(&self) -> (r: Locator)
        ensures
            r@ == self@,
    {
        let mut segs: Vec<String> = Vec::new();
        let mut i: usize = 0;
        while i < self.segments.len()
            invariant
                i <= self.segments@.len(),
                segs@.len() == i,
                forall|j: int| 0 <= j < i ==> segs@[j]@ == self.segments@[j]@,
            decreases self.segments@.len() - i,
        {
            let s = self.segments[i].clone();
            segs.push(s);
            i = i + 1;
        }
        let r = Locator { segments: segs };
        assert(r@ =~= self@);
        r
    }
}

impl Locator {
    /// The directory that holds this file.
    pub fn parent(&self) -> (r: Locator)
        ensures
            self@.len() > 0 ==> r@ == self@.drop_last(),
            self@.len() == 0 ==> r@ == self@,
    {
        let mut r = self.copy();
        if r.segments.len() > 0 {
            r.segments.pop();
            assert(r@ =~= self@.drop_last());
        }
        r
    }

    /// Whether both name the same file.
    pub fn same_as(&self, other: &Locator) -> (r: bool)
        ensures
            r == (self@ == other@),
    {
        if self.segments.len() != other.segments.len() {
            assert(self@.len() != other@.len());
            return false;
        }
        let mut i: usize = 0;
        while i < self.segments.len()
            invariant
                self.segments@.len() == other.segments@.len(),
                i <= self.segments@.len(),
                forall|j: int| 0 <= j < i ==> self@[j] == other@[j],
            decreases self.segments@.len() - i,
        {
            if self.segments[i] != other.segments[i] {
                assert(self@[i as int] != other@[i as int]);
                return false;
            }
            i = i + 1;
        }
        assert(self@ =~= other@);
        true
    }

    /// Whether `prefix` names this file or a directory above it.
    pub fn starts_with(&self, prefix: &Locator) -> (r: bool)
        ensures
            r == (prefix@.len() <= self@.len() && self@.subrange(0, prefix@.len() as int) == prefix@),
    {
        if prefix.segments.len() > self.segments.len() {
            return false;
        }
        let mut i: usize = 0;
        while i < prefix.segments.len()
            invariant
                prefix.segments@.len() <= self.segments@.len(),
                i <= prefix.segments@.len(),
                forall|j: int| 0 <= j < i ==> self@[j] == prefix@[j],
            decreases prefix.segments@.len() - i,
        {
            if self.segments[i] != prefix.segments[i] {
                assert(self@.subrange(0, prefix@.len() as int)[i as int] != prefix@[i as int]);
                return false;
            }
            i = i + 1;
        }
        assert(self@.subrange(0, prefix@.len() as int) =~= prefix@);
        true
    }

    /// The segments from `n` on.
    pub fn suffix(&self, n: usize) -> (r: Locator)
        requires
            n <= self@.len(),
        ensures
            r@ == self@.subrange(n as int, self@.len() as int),
    {
        let mut segs: Vec<String> = Vec::new();
        let mut i: usize = n;
        while i < self.segments.len()
            invariant
                n <= i <= self.segments@.len(),
                segs@.len() == i - n,
                forall|j: int| 0 <= j < i - n ==> segs@[j]@ == self.segments@[j + n]@,
            decreases self.segments@.len() - i,
        {
            let s = self.segments[i].clone();
            segs.push(s);
            i = i + 1;
        }
        let r = Locator { segments: segs };
        assert(r@ =~= self@.subrange(n as int, self@.len() as int));
        r
    }

    /// The path as text, segments joined by `/`.
    pub fn render(&self) -> (r: String)
        ensures
            r@ == joined(self@),
    {
        let mut out = String::new();
        let mut i: usize = 0;
        while i < self.segments.len()
            invariant
                i <= self.segments@.len(),
                out@ == joined(self@.subrange(0, i as int)),
            decreases self.segments@.len() - i,
        {
            assert(self@.subrange(0, i + 1).drop_last() =~= self@.subrange(0, i as int));
            if i > 0 {
                out.append("/");
            }
            out.append(self.segments[i].as_str());
            proof {
                reveal_strlit("/");
            }
            assert(out@ =~= joined(self@.subrange(0, i + 1)));
            i = i + 1;
        }
        assert(self@.subrange(0, i as int) =~= self@);
        out
    }
}

/// Resolves the target of an include written in file `containing`, for a ledger whose root
/// directory is the absolute path `entry`.
pub fn resolve_include(entry: &Locator, containing: &Locator, target: &str) -> (r: Result<Locator, PathError>)
    ensures
        match resolved(entry@, parent_of(containing@), target@) {
            Ok(s) => r is Ok && r->Ok_0@ == s,
            Err(e) => r == Err::<Locator, PathError>(e),
        },
        plain(containing@) && r is Ok ==> plain(r->Ok_0@),
{
    let n = target.unicode_len();
    if n > 0 && target.get_char(0) == '/' {
        let root = Locator::root();
        assert(plain(root@));
        let abs = normalize(&root, target)?;
        if abs.starts_with(entry) {
            let r = abs.suffix(entry.segments.len());
            assert(plain(r@)) by {
                assert forall|i: int| 0 <= i < r@.len() implies plain_segment(#[trigger] r@[i]) by {
                    assert(r@[i] == abs@[i + entry@.len()]);
                }
            }
            Ok(r)
        } else {
            Err(PathError::OutsideEntry)
        }
    } else {
        let dir = containing.parent();
        assert(plain(containing@) ==> plain(dir@)) by {
            if plain(containing@) {
                assert forall|i: int| 0 <= i < dir@.len() implies plain_segment(#[trigger] dir@[i]) by {
                    assert(dir@[i] == containing@[i]);
                }
            }
        }
        normalize(&dir, target)
    }
}

/// A segment that reads back as itself: not empty, no `/`, neither `.` nor `..`.
pub open spec fn plain_segment(c: Seq<char>) -> bool {
    c.len() > 0 && !c.contains('/') && c != seq!['.'] && c != seq!['.', '.']
}

pub open spec fn plain(t: Seq<Seq<char>>) -> bool {
    forall|i: int| 0 <= i < t.len() ==> plain_segment(#[trigger] t[i])
}

proof fn lemma_scan_prefix(st: (Option<Seq<Seq<char>>>, Seq<char>), p: Seq<char>, q: Seq<char>, n: nat)
    requires
        n <= p.len(),
    ensures
        scan_from(st, p + q, n) == scan_from(st, p, n),
    decreases n,
{
    if n > 0 {
        lemma_scan_prefix(st, p, q, (n - 1) as nat);
        assert((p + q)[n - 1] == p[n - 1]);
    }
}

/// Reading `p + q` is reading `p`, then reading `q` from where `p` left off.
pub proof fn lemma_scan_concat(st: (Option<Seq<Seq<char>>>, Seq<char>), p: Seq<char>, q: Seq<char>, m: nat)
    requires
        m <= q.len(),
    ensures
        scan_from(st, p + q, p.len() + m) == scan_from(scan_from(st, p, p.len()), q, m),
    decreases m,
{
    if m == 0 {
        lemma_scan_prefix(st, p, q, p.len());
    } else {
        lemma_scan_concat(st, p, q, (m - 1) as nat);
        assert((p + q)[p.len() + m - 1] == q[m - 1]);
    }
}

proof fn lemma_scan_segment(x: Option<Seq<Seq<char>>>, c: Seq<char>, n: nat)
    requires
        n <= c.len(),
        !c.contains('/'),
    ensures
        scan_from((x, Seq::empty()), c, n) == (x, c.subrange(0, n as int)),
    decreases n,
{
    if n == 0 {
        assert(c.subrange(0, 0) =~= Seq::<char>::empty());
    } else {
        lemma_scan_segment(x, c, (n - 1) as nat);
        assert(c[n - 1] != '/');
        assert(c.subrange(0, n as int) =~= c.subrange(0, n - 1).push(c[n - 1]));
    }
}

proof fn lemma_scan_joined(b: Seq<Seq<char>>, t: Seq<Seq<char>>)
    requires
        t.len() > 0,
        plain(t),
    ensures
        scan_from((Some(b), Seq::empty()), joined(t), joined(t).len()) == (Some(b + t.drop_last()), t.last()),
    decreases t.len(),
{
    if t.len() == 1 {
        assert(plain_segment(t[0]));
        lemma_scan_segment(Some(b), t[0], t[0].len());
        assert(t[0].subrange(0, t[0].len() as int) =~= t[0]);
        assert(b + t.drop_last() =~= b);
    } else {
        let u = t.drop_last();
        assert(plain(u)) by {
            assert forall|i: int| 0 <= i < u.len() implies plain_segment(#[trigger] u[i]) by {
                assert(u[i] == t[i]);
            }
        }
        lemma_scan_joined(b, u);
        let last = t.last();
        assert(plain_segment(t[t.len() - 1]));
        let st0 = (Some(b), Seq::<char>::empty());
        let pj = joined(u);
        assert(joined(t) == pj + seq!['/'] + last);
        assert(pj + seq!['/'] + last =~= pj + (seq!['/'] + last));
        lemma_scan_concat(st0, pj, seq!['/'] + last, (1 + last.len()) as nat);
        let st1 = scan_from(st0, pj, pj.len());
        lemma_scan_concat(st1, seq!['/'], last, last.len());
        assert(u.last() == t[t.len() - 2]);
        assert(plain_segment(u.last()));
        assert((b + u.drop_last()).push(u.last()) =~= b + u);
        assert(st1 == (Some(b + u.drop_last()), u.last()));
        assert(seq!['/'][0] == '/');
        assert(scan_from(st1, seq!['/'], 0) == st1);
        assert(take_component(Some(b + u.drop_last()), u.last()) == Some(b + u));
        let st2 = scan_from(st1, seq!['/'], 1);
        assert(st2 == (Some(b + u), Seq::<char>::empty()));
        lemma_scan_segment(Some(b + u), last, last.len());
        assert(last.subrange(0, last.len() as int) =~= last);
    }
}

/// Plain segments joined by `/` read back, from any directory, as those segments below it.
pub proof fn lemma_normalized_joined(b: Seq<Seq<char>>, t: Seq<Seq<char>>)
    requires
        plain(t),
    ensures
        normalized(b, joined(t)) == Some(b + t),
{
    if t.len() == 0 {
        assert(b + t =~= b);
    } else {
        lemma_scan_joined(b, t);
        assert(plain_segment(t[t.len() - 1]));
        assert(b + t.drop_last() + seq![t.last()] =~= b + t);
        assert(b + t.drop_last() + seq![t.last()] == (b + t.drop_last()).push(t.last()));
    }
}

fn is_dot(s: &str) -> (r: bool)
    ensures
        r == (s@ == seq!['.']),
{
    let n = s.unicode_len();
    if n != 1 {
        return false;
    }
    let c = s.get_char(0);
    assert(s@ =~= seq![c]);
    c == '.'
}

fn is_dot_dot(s: &str) -> (r: bool)
    ensures
        r == (s@ == seq!['.', '.']),
{
    let n = s.unicode_len();
    if n != 2 {
        return false;
    }
    let c0 = s.get_char(0);
    let c1 = s.get_char(1);
    assert(s@ =~= seq![c0, c1]);
    c0 == '.' && c1 == '.'
}

/// Applies one component to the stack; returns false where it climbs above the root.
fn push_component(segs: &mut Vec<String>, c: &str) -> (ok: bool)
    ensures
        ok ==> take_component(Some(seg_view(old(segs)@)), c@) == Some(seg_view(final(segs)@)),
        !ok ==> take_component(Some(seg_view(old(segs)@)), c@) is None,
        ok && plain(seg_view(old(segs)@)) && !c@.contains('/') ==> plain(seg_view(final(segs)@)),
{
    let n = c.unicode_len();
    if n == 0 || is_dot(c) {
        return true;
    }
    if is_dot_dot(c) {
        if segs.len() == 0 {
            return false;
        }
        segs.pop();
        assert(seg_view(final(segs)@) =~= seg_view(old(segs)@).drop_last());
        return true;
    }
    segs.push(String::from_str(c));
    assert(seg_view(final(segs)@) =~= seg_view(old(segs)@).push(c@));
    true
}

/// Resolves path `p` relative to the directory `base`.
pub fn normalize(base: &Locator, p: &str) -> (r: Result<Locator, PathError>)
    ensures
        match normalized(base@, p@) {
            Some(s) => r is Ok && r->Ok_0@ == s,
            None => r == Err::<Locator, PathError>(PathError::EscapesRoot),
        },
        plain(base@) && r is Ok ==> plain(r->Ok_0@),
{
    let n = p.unicode_len();
    let mut segs: Vec<String> = base.copy().segments;
    let mut ok = true;
    let mut start: usize = 0;
    let mut i: usize = 0;
    while i < n
        invariant
            n == p@.len(),
            start <= i <= n,
            ok ==> scan(base@, p@, i as nat).0 == Some(seg_view(segs@)),
            !ok ==> scan(base@, p@, i as nat).0 is None,
            scan(base@, p@, i as nat).1 == p@.subrange(start as int, i as int),
            plain(base@) && ok ==> plain(seg_view(segs@)),
            !p@.subrange(start as int, i as int).contains('/'),
        decreases n - i,
    {
        let c = p.get_char(i);
        if c == '/' {
            let comp = p.substring_char(start, i);
            if ok {
                ok = push_component(&mut segs, comp);
            }
            start = i + 1;
        }
        i = i + 1;
        assert(!p@.subrange(start as int, i as int).contains('/')) by {
            if c != '/' {
                assert forall|j: int| 0 <= j < i - start implies p@.subrange(start as int, i as int)[j] != '/' by {
                    if j < i - 1 - start {
                        assert(p@.subrange(start as int, i as int)[j] == p@.subrange(start as int, i - 1)[j]);
                    }
                }
            }
        }
        assert(p@.subrange(start as int, i as int) =~= if c == '/' {
            Seq::<char>::empty()
        } else {
            p@.subrange(start as int, (i - 1) as int).push(c)
        });
    }
    let last = p.substring_char(start, n);
    if ok {
        ok = push_component(&mut segs, last);
    }
    if ok {
        Ok(Locator { segments: segs })
    } else {
        Err(PathError::EscapesRoot)
    }
}

} // verus!
