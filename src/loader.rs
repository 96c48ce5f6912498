use vstd::prelude::*;

use vstd::utf8::{decode_utf8, valid_utf8};

use crate::directive::{Directive, DirectiveBody};
use crate::locator::{normalize, parent_of, resolve_include, resolved, Locator, PathError};

verus! {

/// Why a load stopped: an include target that does not resolve, content that is not UTF-8, or a
/// file whose extension names no known dialect.
#[derive(Debug, Clone, Copy, PartialEq, Eq, Structural)]
pub enum LoadError {
    Path(PathError),
    Decode,
    UnsupportedFormat,
}

pub open spec fn views(v: Seq<Locator>) -> Seq<Seq<Seq<char>>> {
    v.map_values(|l: Locator| l@)
}

/// The include targets of `ds`, in order, resolved from the directory `dir`; the first one that
/// does not resolve decides the error.
pub open spec fn resolved_all(entry: Seq<Seq<char>>, dir: Seq<Seq<char>>, ds: Seq<Directive>) -> Result<Seq<Seq<Seq<char>>>, PathError>
    decreases ds.len(),
{
    if ds.len() == 0 {
        Ok(Seq::empty())
    } else {
        match resolved_all(entry, dir, ds.drop_last()) {
            Err(e) => Err(e),
            Ok(v) => match ds.last().body {
                DirectiveBody::Include(p) => match resolved(entry, dir, p@) {
                    Err(e) => Err(e),
                    Ok(t) => Ok(v.push(t)),
                },
                DirectiveBody::Entry(_) => Ok(v),
            },
        }
    }
}

/// The breadth-first walk over a ledger's files: files still to visit in the order they were
/// found, files visited, and the directives read so far.
#[derive(Debug)]
pub struct Loader {
    entry: Locator,
    queue: Vec<Locator>,
    head: usize,
    visited: Vec<Locator>,
    output: Vec<Directive>,
}

/// The outcome of a finished load: all directives in the order the files were visited, and the
/// visited files.
#[derive(Debug)]
pub struct LoadResult {
    pub directives: Vec<Directive>,
    pub visited_files: Vec<Locator>,
}

impl Loader {
    pub closed spec fn entry_view(&self) -> Seq<Seq<char>> {
        self.entry@
    }

    pub closed spec fn pending(&self) -> Seq<Seq<Seq<char>>> {
        views(self.queue@.subrange(self.head as int, self.queue@.len() as int))
    }

    pub closed spec fn visited_view(&self) -> Seq<Seq<Seq<char>>> {
        views(self.visited@)
    }

    pub closed spec fn output_view(&self) -> Seq<Directive> {
        self.output@
    }

    /// No file is visited twice.
    pub closed spec fn wf(&self) -> bool {
        &&& self.head <= self.queue@.len()
        &&& self.visited_view().no_duplicates()
    }

    /// A walk that starts at the root file `main` of the ledger whose root directory is `entry`.
    pub fn new(entry: &str, main: &str) -> (r: Result<Loader, LoadError>)
        ensures
            match normalized_entry(entry@) {
                None => r == Err::<Loader, LoadError>(LoadError::Path(PathError::EscapesRoot)),
                Some(e) => match resolved(e, Seq::empty(), main@) {
                    Err(pe) => r == Err::<Loader, LoadError>(LoadError::Path(pe)),
                    Ok(m) => r is Ok && {
                        let l = r->Ok_0;
                        &&& l.wf()
                        &&& l.entry_view() == e
                        &&& l.pending() == seq![m]
                        &&& l.visited_view().len() == 0
                        &&& l.output_view().len() == 0
                    },
                },
            },
    {
        let e = match normalize(&Locator::root(), entry) {
            Ok(e) => e,
            Err(pe) => return Err(LoadError::Path(pe)),
        };
        let m = match resolve_include(&e, &Locator::root(), main) {
            Ok(m) => m,
            Err(pe) => return Err(LoadError::Path(pe)),
        };
        let mut queue: Vec<Locator> = Vec::new();
        queue.push(m);
        let l = Loader { entry: e, queue, head: 0, visited: Vec::new(), output: Vec::new() };
        assert(l.pending() =~= seq![l.queue@[0]@]);
        assert(l.visited_view() =~= Seq::<Seq<Seq<char>>>::empty());
        Ok(l)
    }

    /// Whether `f` has been visited.
    pub fn is_visited(&self, f: &Locator) -> (r: bool)
        ensures
            r == self.visited_view().contains(f@),
    {
        let mut i: usize = 0;
        while i < self.visited.len()
            invariant
                i <= self.visited@.len(),
                forall|j: int| 0 <= j < i ==> self.visited@[j]@ != f@,
            decreases self.visited@.len() - i,
        {
            if self.visited[i].same_as(f) {
                assert(self.visited_view()[i as int] == f@);
                return true;
            }
            i = i + 1;
        }
        false
    }

    /// Takes files off the front of the queue until one is found that has not been visited, and
    /// returns it; `None` once the queue holds only visited files.
    pub fn next_file(&mut self) -> (r: Option<Locator>)
        requires
            old(self).wf(),
        ensures
            final(self).wf(),
            final(self).entry_view() == old(self).entry_view(),
            final(self).visited_view() == old(self).visited_view(),
            final(self).output_view() == old(self).output_view(),
            match r {
                None => {
                    &&& final(self).pending().len() == 0
                    &&& forall|i: int| 0 <= i < old(self).pending().len()
                        ==> old(self).visited_view().contains(#[trigger] old(self).pending()[i])
                },
                Some(f) => exists|k: int| {
                    &&& 0 <= k < old(self).pending().len()
                    &&& old(self).pending()[k] == f@
                    &&& !old(self).visited_view().contains(f@)
                    &&& final(self).pending() == old(self).pending().subrange(k + 1, old(self).pending().len() as int)
                    &&& forall|i: int| 0 <= i < k ==> old(self).visited_view().contains(#[trigger] old(self).pending()[i])
                },
            },
    {
        let ghost start = self.head as int;
        while self.head < self.queue.len()
            invariant
                self.wf(),
                start <= self.head <= self.queue@.len(),
                self.queue@ == old(self).queue@,
                self.visited@ == old(self).visited@,
                self.output@ == old(self).output@,
                self.entry == old(self).entry,
                start == old(self).head,
                forall|i: int| start <= i < self.head ==> self.visited_view().contains(#[trigger] self.queue@[i]@),
            decreases self.queue@.len() - self.head,
        {
            let h = self.head;
            self.head = self.head + 1;
            if !self.is_visited(&self.queue[h]) {
                let f = self.queue[h].copy();
                proof {
                    let k = h - start;
                    assert(old(self).pending()[k] == f@);
                    assert(self.pending() =~= old(self).pending().subrange(k + 1, old(self).pending().len() as int));
                    assert forall|i: int| 0 <= i < k implies old(self).visited_view().contains(#[trigger] old(self).pending()[i]) by {
                        assert(old(self).pending()[i] == self.queue@[start + i]@);
                    }
                }
                return Some(f);
            }
        }
        proof {
            assert(self.pending() =~= Seq::<Seq<Seq<char>>>::empty());
            assert forall|i: int| 0 <= i < old(self).pending().len() implies old(self).visited_view().contains(#[trigger] old(self).pending()[i]) by {
                assert(old(self).pending()[i] == self.queue@[start + i]@);
            }
        }
        None
    }

    /// Records the directives read from file `f`: they go to the output, the targets of its
    /// includes, resolved from the file's directory, go to the back of the queue, and the file
    /// counts as visited. A file already visited changes nothing. Where an include target does
    /// not resolve, nothing changes and the error is returned.
    pub fn complete(&mut self, f: &Locator, directives: Vec<Directive>) -> (r: Result<(), LoadError>)
        requires
            old(self).wf(),
        ensures
            final(self).wf(),
            final(self).entry_view() == old(self).entry_view(),
            old(self).visited_view().contains(f@) ==> r is Ok && *final(self) == *old(self),
            !old(self).visited_view().contains(f@) ==> match resolved_all(old(self).entry_view(), parent_of(f@), directives@) {
                Err(e) => r == Err::<(), LoadError>(LoadError::Path(e)) && *final(self) == *old(self),
                Ok(targets) => {
                    &&& r is Ok
                    &&& final(self).pending() == old(self).pending() + targets
                    &&& final(self).visited_view() == old(self).visited_view().push(f@)
                    &&& final(self).output_view() == old(self).output_view() + directives@
                },
            },
    {
        if self.is_visited(f) {
            return Ok(());
        }
        let mut targets: Vec<Locator> = Vec::new();
        let mut i: usize = 0;
        assert(directives@.subrange(0, 0) =~= Seq::<Directive>::empty());
        assert(views(targets@) =~= Seq::<Seq<Seq<char>>>::empty());
        while i < directives.len()
            invariant
                i <= directives@.len(),
                *self == *old(self),
                self.wf(),
                !self.visited_view().contains(f@),
                resolved_all(self.entry@, parent_of(f@), directives@.subrange(0, i as int)) == Ok::<Seq<Seq<Seq<char>>>, PathError>(views(targets@)),
            decreases directives@.len() - i,
        {
            assert(directives@.subrange(0, i + 1).drop_last() =~= directives@.subrange(0, i as int));
            assert(directives@.subrange(0, i + 1).last() == directives@[i as int]);
            let ghost prev = views(targets@);
            if let Some(p) = directives[i].include_target() {
                match resolve_include(&self.entry, f, p.as_str()) {
                    Ok(t) => {
                        let ghost tv = t@;
                        targets.push(t);
                        assert(views(targets@) =~= prev.push(tv));
                    },
                    Err(e) => {
                        proof {
                            lemma_resolved_all_err(self.entry@, parent_of(f@), directives@, (i + 1) as int);
                        }
                        return Err(LoadError::Path(e));
                    },
                }
            }
            i = i + 1;
        }
        assert(directives@.subrange(0, i as int) =~= directives@);
        let ghost old_pending = self.pending();
        let ghost old_visited = self.visited_view();
        let ghost tv = views(targets@);
        self.queue.append(&mut targets);
        assert(self.pending() =~= old_pending + tv);
        self.visited.push(f.copy());
        assert(self.visited_view() =~= old_visited.push(f@));
        let ghost ds = directives@;
        let mut ds_mut = directives;
        self.output.append(&mut ds_mut);
        assert(self.output@ == old(self).output@ + ds);
        Ok(())
    }
}

impl Loader {
    /// The directives read and the files visited.
    pub fn finish(self) -> (r: LoadResult)
        ensures
            r.directives@ == self.output_view(),
            views(r.visited_files@) == self.visited_view(),
    {
        LoadResult { directives: self.output, visited_files: self.visited }
    }
}

/// Relies on std's `String::from_utf8`: it succeeds exactly on valid UTF-8, with the characters
/// those bytes encode.
#[verifier::external_body]
fn utf8_string(bytes: Vec<u8>) -> (r: Option<String>)
    ensures
        r is Some <==> valid_utf8(bytes@),
        r is Some ==> r->Some_0@ == decode_utf8(bytes@),
{
    String::from_utf8(bytes).ok()
}

/// A file's bytes as text; content that is not UTF-8 stops the load.
pub fn decode_content(bytes: Vec<u8>) -> (r: Result<String, LoadError>)
    ensures
        valid_utf8(bytes@) ==> r is Ok && r->Ok_0@ == decode_utf8(bytes@),
        !valid_utf8(bytes@) ==> r == Err::<String, LoadError>(LoadError::Decode),
{
    match utf8_string(bytes) {
        Some(s) => Ok(s),
        None => Err(LoadError::Decode),
    }
}

/// A file of a ledger held in memory, with the directives its text parses to.
#[derive(Debug, Clone)]
pub struct ParsedFile {
    pub file: Locator,
    pub directives: Vec<Directive>,
}

/// The directives of the first of `files`, from index `i` on, that is file `f`; none if there is
/// no such file, as a missing file reads as empty.
pub open spec fn contents(files: Seq<ParsedFile>, f: Seq<Seq<char>>, i: int) -> Seq<Directive>
    decreases files.len() - i,
{
    if i < 0 || i >= files.len() {
        Seq::empty()
    } else if files[i].file@ == f {
        files[i].directives@
    } else {
        contents(files, f, i + 1)
    }
}

/// The directives of the files `vs`, file after file.
pub open spec fn stream(files: Seq<ParsedFile>, vs: Seq<Seq<Seq<char>>>) -> Seq<Directive>
    decreases vs.len(),
{
    if vs.len() == 0 {
        Seq::empty()
    } else {
        stream(files, vs.drop_last()) + contents(files, vs.last(), 0)
    }
}

pub open spec fn count_includes(ds: Seq<Directive>) -> nat
    decreases ds.len(),
{
    if ds.len() == 0 {
        0
    } else {
        count_includes(ds.drop_last()) + if ds.last().body is Include { 1nat } else { 0nat }
    }
}

/// The includes of the files from index `i` on that have not been visited: a bound on what a
/// load may still add to its queue.
pub open spec fn budget(files: Seq<ParsedFile>, visited: Seq<Seq<Seq<char>>>, i: int) -> nat
    decreases files.len() - i,
{
    if i < 0 || i >= files.len() {
        0
    } else {
        (if visited.contains(files[i].file@) { 0nat } else { count_includes(files[i].directives@) })
            + budget(files, visited, i + 1)
    }
}

proof fn lemma_resolved_count(entry: Seq<Seq<char>>, dir: Seq<Seq<char>>, ds: Seq<Directive>)
    requires
        resolved_all(entry, dir, ds) is Ok,
    ensures
        resolved_all(entry, dir, ds)->Ok_0.len() == count_includes(ds),
    decreases ds.len(),
{
    if ds.len() > 0 {
        lemma_resolved_count(entry, dir, ds.drop_last());
    }
}

proof fn lemma_budget_shrinks(files: Seq<ParsedFile>, visited: Seq<Seq<Seq<char>>>, f: Seq<Seq<char>>, i: int)
    requires
        0 <= i,
    ensures
        budget(files, visited.push(f), i) <= budget(files, visited, i),
        !visited.contains(f) ==> budget(files, visited.push(f), i) + count_includes(contents(files, f, i)) <= budget(files, visited, i),
    decreases files.len() - i,
{
    if i < files.len() {
        lemma_budget_shrinks(files, visited, f, i + 1);
        let g = files[i].file@;
        assert(visited.push(f).contains(g) <==> (visited.contains(g) || g == f)) by {
            if visited.push(f).contains(g) && g != f {
                let k = choose|k: int| 0 <= k < visited.push(f).len() && visited.push(f)[k] == g;
                assert(visited[k] == g);
            }
            if visited.contains(g) {
                let k = choose|k: int| 0 <= k < visited.len() && visited[k] == g;
                assert(visited.push(f)[k] == g);
            }
            assert(visited.push(f)[visited.len() as int] == f);
        }
    }
}

/// Files still to visit, files visited, directives read.
pub type LoadState = (Seq<Seq<Seq<char>>>, Seq<Seq<Seq<char>>>, Seq<Directive>);

/// The position of the first of `p` that is not among `v`, or the length of `p`.
pub open spec fn first_unvisited(p: Seq<Seq<Seq<char>>>, v: Seq<Seq<Seq<char>>>) -> int
    decreases p.len(),
{
    if p.len() == 0 {
        0
    } else if !v.contains(p[0]) {
        0
    } else {
        1 + first_unvisited(p.drop_first(), v)
    }
}

/// One step of a load: visit the first file still to visit that has not been visited, or, when
/// there is none, empty the queue.
pub open spec fn load_step(files: Seq<ParsedFile>, entry: Seq<Seq<char>>, st: LoadState) -> Result<LoadState, PathError> {
    let (p, v, o) = st;
    let k = first_unvisited(p, v);
    if k >= p.len() {
        Ok((Seq::empty(), v, o))
    } else {
        let f = p[k];
        let ds = contents(files, f, 0);
        match resolved_all(entry, parent_of(f), ds) {
            Err(x) => Err(x),
            Ok(ts) => Ok((p.subrange(k + 1, p.len() as int) + ts, v.push(f), o + ds)),
        }
    }
}

/// The state after `n` steps from `st`; the first error ends the run.
pub open spec fn load_run(files: Seq<ParsedFile>, entry: Seq<Seq<char>>, st: LoadState, n: nat) -> Result<LoadState, PathError>
    decreases n,
{
    if n == 0 {
        Ok(st)
    } else {
        match load_run(files, entry, st, (n - 1) as nat) {
            Err(x) => Err(x),
            Ok(t) => load_step(files, entry, t),
        }
    }
}

/// A run that has failed or has nothing left to visit.
pub open spec fn run_done(r: Result<LoadState, PathError>) -> bool {
    match r {
        Err(_) => true,
        Ok(t) => t.0.len() == 0,
    }
}

proof fn lemma_first_unvisited(p: Seq<Seq<Seq<char>>>, v: Seq<Seq<Seq<char>>>, k: int)
    requires
        0 <= k <= p.len(),
        k < p.len() ==> !v.contains(p[k]),
        forall|i: int| 0 <= i < k ==> v.contains(#[trigger] p[i]),
    ensures
        first_unvisited(p, v) == k,
    decreases p.len(),
{
    if p.len() > 0 && k > 0 {
        assert(v.contains(p[0]));
        assert forall|i: int| 0 <= i < k - 1 implies v.contains(#[trigger] p.drop_first()[i]) by {
            assert(p.drop_first()[i] == p[i + 1]);
        }
        if k - 1 < p.len() - 1 {
            assert(p.drop_first()[k - 1] == p[k]);
        }
        lemma_first_unvisited(p.drop_first(), v, k - 1);
    }
}

proof fn lemma_run_done_stays(files: Seq<ParsedFile>, entry: Seq<Seq<char>>, st: LoadState, n: nat, m: nat)
    requires
        n <= m,
        run_done(load_run(files, entry, st, n)),
    ensures
        load_run(files, entry, st, m) == load_run(files, entry, st, n),
    decreases m - n,
{
    if n < m {
        lemma_run_done_stays(files, entry, st, n, (m - 1) as nat);
        if let Ok(t) = load_run(files, entry, st, n) {
            assert(t.0 =~= Seq::<Seq<Seq<char>>>::empty());
        }
    }
}

/// Loading is deterministic: two runs from the same files and the same start that have both
/// finished, or failed, end in the same state (or the same error).
pub proof fn lemma_load_deterministic(files: Seq<ParsedFile>, entry: Seq<Seq<char>>, st: LoadState, n1: nat, n2: nat)
    requires
        run_done(load_run(files, entry, st, n1)),
        run_done(load_run(files, entry, st, n2)),
    ensures
        load_run(files, entry, st, n1) == load_run(files, entry, st, n2),
{
    if n1 <= n2 {
        lemma_run_done_stays(files, entry, st, n1, n2);
    } else {
        lemma_run_done_stays(files, entry, st, n2, n1);
    }
}

/// Whether `r` is what a finished run of `n` steps from the root file `root` gives.
pub open spec fn load_outcome(files: Seq<ParsedFile>, entry: Seq<Seq<char>>, root: Seq<Seq<char>>, n: nat, r: Result<LoadResult, LoadError>) -> bool {
    match load_run(files, entry, (seq![root], Seq::empty(), Seq::empty()), n) {
        Err(x) => r == Err::<LoadResult, LoadError>(LoadError::Path(x)),
        Ok(t) => {
            &&& t.0.len() == 0
            &&& r is Ok
            &&& views(r->Ok_0.visited_files@) == t.1
            &&& r->Ok_0.directives@ == t.2
        },
    }
}

impl Loader {
    /// Runs a whole load over a ledger whose files are held in memory: a file that is not among
    /// `files` reads as empty. The walk ends on every graph, cycles included; each file is visited
    /// at most once, the root file first, and every include of a visited file leads to a visited
    /// file; the directives come file by file in the order of the visits.
    pub fn load_parsed(entry: &str, main: &str, files: &Vec<ParsedFile>) -> (r: Result<LoadResult, LoadError>)
        ensures
            r is Ok ==> {
                let vs = views(r->Ok_0.visited_files@);
                &&& normalized_entry(entry@) is Some
                &&& resolved(normalized_entry(entry@)->Some_0, Seq::empty(), main@) == Ok::<Seq<Seq<char>>, PathError>(vs[0])
                &&& vs.len() > 0
                &&& vs.no_duplicates()
                &&& forall|i: int| 0 <= i < vs.len() ==> {
                    let ts = resolved_all(normalized_entry(entry@)->Some_0, parent_of(vs[i]), contents(files@, #[trigger] vs[i], 0));
                    &&& ts is Ok
                    &&& forall|j: int| 0 <= j < ts->Ok_0.len() ==> vs.contains(#[trigger] ts->Ok_0[j])
                }
                &&& r->Ok_0.directives@ == stream(files@, vs)
            },
            match normalized_entry(entry@) {
                None => r == Err::<LoadResult, LoadError>(LoadError::Path(PathError::EscapesRoot)),
                Some(e) => match resolved(e, Seq::empty(), main@) {
                    Err(pe) => r == Err::<LoadResult, LoadError>(LoadError::Path(pe)),
                    Ok(m) => exists|n: nat| load_outcome(files@, e, m, n, r),
                },
            },
    {
        let mut loader = match Loader::new(entry, main) {
            Ok(l) => l,
            Err(x) => return Err(x),
        };
        let ghost e = loader.entry_view();
        let ghost root = loader.pending()[0];
        assert(loader.visited_view() =~= Seq::<Seq<Seq<char>>>::empty());
        assert(loader.output_view() =~= stream(files@, loader.visited_view()));
        let ghost init: LoadState = (seq![root], Seq::empty(), Seq::empty());
        let ghost mut n: nat = 0;
        assert(loader.pending() =~= seq![root]);
        assert(loader.output_view() =~= Seq::<Directive>::empty());
        loop
            invariant_except_break
                load_run(files@, e, init, n) == Ok::<LoadState, PathError>((loader.pending(), loader.visited_view(), loader.output_view())),
            invariant
                init == (seq![root], Seq::<Seq<Seq<char>>>::empty(), Seq::<Directive>::empty()),
                loader.wf(),
                loader.entry_view() == e,
                e == normalized_entry(entry@)->Some_0,
                normalized_entry(entry@) is Some,
                resolved(e, Seq::empty(), main@) == Ok::<Seq<Seq<char>>, PathError>(root),
                loader.visited_view().len() == 0 ==> loader.pending() == seq![root],
                loader.visited_view().len() > 0 ==> loader.visited_view()[0] == root,
                forall|i: int| 0 <= i < loader.visited_view().len() ==> {
                    let ts = resolved_all(e, parent_of(loader.visited_view()[i]), contents(files@, #[trigger] loader.visited_view()[i], 0));
                    &&& ts is Ok
                    &&& forall|j: int| 0 <= j < ts->Ok_0.len() ==>
                        loader.visited_view().contains(#[trigger] ts->Ok_0[j]) || loader.pending().contains(ts->Ok_0[j])
                },
                loader.output_view() == stream(files@, loader.visited_view()),
            ensures
                load_run(files@, e, init, n) == Ok::<LoadState, PathError>((Seq::empty(), loader.visited_view(), loader.output_view())),
                loader.wf(),
                loader.visited_view().len() > 0,
                loader.visited_view()[0] == root,
                forall|i: int| 0 <= i < loader.visited_view().len() ==> {
                    let ts = resolved_all(e, parent_of(loader.visited_view()[i]), contents(files@, #[trigger] loader.visited_view()[i], 0));
                    &&& ts is Ok
                    &&& forall|j: int| 0 <= j < ts->Ok_0.len() ==> loader.visited_view().contains(#[trigger] ts->Ok_0[j])
                },
                loader.output_view() == stream(files@, loader.visited_view()),
            decreases loader.pending().len() + budget(files@, loader.visited_view(), 0),
        {
            let ghost p0 = loader.pending();
            let ghost v0 = loader.visited_view();
            match loader.next_file() {
                None => {
                    proof {
                        assert forall|i: int| 0 <= i < v0.len() implies {
                            let ts = resolved_all(e, parent_of(v0[i]), contents(files@, #[trigger] v0[i], 0));
                            forall|j: int| 0 <= j < ts->Ok_0.len() ==> v0.contains(#[trigger] ts->Ok_0[j])
                        } by {
                            let ts = resolved_all(e, parent_of(v0[i]), contents(files@, v0[i], 0));
                            assert forall|j: int| 0 <= j < ts->Ok_0.len() implies v0.contains(#[trigger] ts->Ok_0[j]) by {
                                if p0.contains(ts->Ok_0[j]) {
                                    let q = choose|q: int| 0 <= q < p0.len() && p0[q] == ts->Ok_0[j];
                                    assert(v0.contains(p0[q]));
                                }
                            }
                        }
                        if v0.len() == 0 {
                            assert(p0[0] == root);
                            assert(v0.contains(p0[0]));
                        }
                    }
                    assert(loader.visited_view() == v0);
                    proof {
                        lemma_first_unvisited(p0, v0, p0.len() as int);
                        assert(loader.pending() =~= Seq::<Seq<Seq<char>>>::empty());
                        n = n + 1;
                    }
                    break;
                },
                Some(f) => {
                    let ds = lookup(files, &f);
                    let ghost p1 = loader.pending();
                    let ghost k = choose|k: int| {
                        &&& 0 <= k < p0.len()
                        &&& p0[k] == f@
                        &&& !v0.contains(f@)
                        &&& p1 == p0.subrange(k + 1, p0.len() as int)
                        &&& forall|i: int| 0 <= i < k ==> v0.contains(#[trigger] p0[i])
                    };
                    let ghost o0 = loader.output_view();
                    proof {
                        lemma_first_unvisited(p0, v0, k);
                    }
                    match loader.complete(&f, ds) {
                        Ok(()) => {},
                        Err(x) => {
                            assert(first_unvisited(p0, v0) == k);
                            assert(p0[k] == f@);
                            assert(resolved_all(e, parent_of(f@), contents(files@, f@, 0)) is Err);
                            assert(x == LoadError::Path(resolved_all(e, parent_of(f@), contents(files@, f@, 0))->Err_0));
                            assert(load_run(files@, e, init, n + 1) == Err::<LoadState, PathError>(x->Path_0));
                            let res: Result<LoadResult, LoadError> = Err(x);
                            let ghost n1: nat = (n + 1) as nat;
                            assert(res == Err::<LoadResult, LoadError>(LoadError::Path(x->Path_0)));
                            assert(load_outcome(files@, e, root, n1, res));
                            assert(load_outcome(files@, normalized_entry(entry@)->Some_0, resolved(normalized_entry(entry@)->Some_0, Seq::empty(), main@)->Ok_0, n1, res));
                            return res;
                        },
                    }
                    proof {
                        n = n + 1;
                        let ts = resolved_all(e, parent_of(f@), contents(files@, f@, 0))->Ok_0;
                        let v2 = loader.visited_view();
                        let p2 = loader.pending();
                        assert(v2 == v0.push(f@));
                        assert(p2 == p1 + ts);
                        lemma_resolved_count(e, parent_of(f@), contents(files@, f@, 0));
                        lemma_budget_shrinks(files@, v0, f@, 0);
                        assert(v2.drop_last() =~= v0);
                        assert(loader.output_view() == stream(files@, v2));
                        if v0.len() == 0 {
                            assert(k == 0);
                        }
                        assert(v2[0] == root);
                        assert(v2[v0.len() as int] == f@);
                        // every file that was pending is now visited or still pending
                        assert forall|x: Seq<Seq<char>>| p0.contains(x) implies v2.contains(x) || p2.contains(x) by {
                            let q = choose|q: int| 0 <= q < p0.len() && p0[q] == x;
                            if q < k {
                                assert(v0.contains(x));
                                let w = choose|w: int| 0 <= w < v0.len() && v0[w] == x;
                                assert(v2[w] == x);
                            } else if q == k {
                                assert(v2.contains(x));
                            } else {
                                assert(p1[q - k - 1] == x);
                                assert(p2[q - k - 1] == x);
                            }
                        }
                        assert forall|x: Seq<Seq<char>>| v0.contains(x) implies v2.contains(x) by {
                            let w = choose|w: int| 0 <= w < v0.len() && v0[w] == x;
                            assert(v2[w] == x);
                        }
                        assert forall|i: int| 0 <= i < v2.len() implies {
                            let ts2 = resolved_all(e, parent_of(v2[i]), contents(files@, #[trigger] v2[i], 0));
                            &&& ts2 is Ok
                            &&& forall|j: int| 0 <= j < ts2->Ok_0.len() ==> v2.contains(#[trigger] ts2->Ok_0[j]) || p2.contains(ts2->Ok_0[j])
                        } by {
                            let ts2 = resolved_all(e, parent_of(v2[i]), contents(files@, v2[i], 0));
                            if i < v0.len() {
                                assert(v2[i] == v0[i]);
                                assert forall|j: int| 0 <= j < ts2->Ok_0.len() implies v2.contains(#[trigger] ts2->Ok_0[j]) || p2.contains(ts2->Ok_0[j]) by {
                                    let x = ts2->Ok_0[j];
                                    assert(v0.contains(x) || p0.contains(x));
                                }
                            } else {
                                assert(v2[i] == f@);
                                assert forall|j: int| 0 <= j < ts2->Ok_0.len() implies v2.contains(#[trigger] ts2->Ok_0[j]) || p2.contains(ts2->Ok_0[j]) by {
                                    assert(p2[p1.len() + j] == ts[j]);
                                }
                            }
                        }
                    }
                },
            }
        }
        let r = loader.finish();
        assert(load_outcome(files@, e, root, n, Ok(r)));
        Ok(r)
    }
}

/// The directives of the first of `files` that is `f`, or none.
fn lookup(files: &Vec<ParsedFile>, f: &Locator) -> (r: Vec<Directive>)
    ensures
        r@ == contents(files@, f@, 0),
{
    let mut i: usize = 0;
    while i < files.len()
        invariant
            i <= files@.len(),
            contents(files@, f@, 0) == contents(files@, f@, i as int),
        decreases files@.len() - i,
    {
        if files[i].file.same_as(f) {
            let src = &files[i].directives;
            let mut out: Vec<Directive> = Vec::new();
            let mut j: usize = 0;
            while j < src.len()
                invariant
                    j <= src@.len(),
                    out@ == src@.subrange(0, j as int),
                decreases src@.len() - j,
            {
                out.push(src[j].copy());
                j = j + 1;
                assert(out@ =~= src@.subrange(0, j as int));
            }
            assert(src@.subrange(0, j as int) =~= src@);
            return out;
        }
        i = i + 1;
    }
    Vec::new()
}

proof fn lemma_resolved_all_err(entry: Seq<Seq<char>>, dir: Seq<Seq<char>>, ds: Seq<Directive>, k: int)
    requires
        0 <= k <= ds.len(),
        resolved_all(entry, dir, ds.subrange(0, k)) is Err,
    ensures
        resolved_all(entry, dir, ds) == resolved_all(entry, dir, ds.subrange(0, k)),
    decreases ds.len() - k,
{
    if k < ds.len() {
        assert(ds.subrange(0, k + 1).drop_last() =~= ds.subrange(0, k));
        lemma_resolved_all_err(entry, dir, ds, k + 1);
    } else {
        assert(ds.subrange(0, k) =~= ds);
    }
}

/// The segments of the ledger's root directory.
pub open spec fn normalized_entry(entry: Seq<char>) -> Option<Seq<Seq<char>>> {
    crate::locator::normalized(Seq::empty(), entry)
}

} // verus!
