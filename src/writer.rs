use vstd::prelude::*;

use crate::directive::{inclusion_text, serialized, Directive, DirectiveBody, LedgerDate};
use crate::loader::{contents, resolved_all, ParsedFile};
use crate::locator::{
    is_absolute, joined, lemma_normalized_joined, lemma_scan_concat, normalized, parent_of, plain, plain_segment,
    resolved, scan_from, take_component, Locator, PathError,
};

verus! {

pub open spec fn digit_char(d: int) -> char {
    if d == 0 { '0' }
    else if d == 1 { '1' }
    else if d == 2 { '2' }
    else if d == 3 { '3' }
    else if d == 4 { '4' }
    else if d == 5 { '5' }
    else if d == 6 { '6' }
    else if d == 7 { '7' }
    else if d == 8 { '8' }
    else { '9' }
}

/// The last `width` decimal digits of `n`, zero-padded.
pub open spec fn padded(n: nat, width: nat) -> Seq<char>
    decreases width,
{
    if width == 0 {
        Seq::empty()
    } else {
        padded(n / 10, (width - 1) as nat).push(digit_char((n % 10) as int))
    }
}

pub open spec fn data_dir_name() -> Seq<char> {
    seq!['d', 'a', 't', 'a']
}

pub open spec fn ledger_ext() -> Seq<char> {
    seq!['.', 'z', 'h', 'a', 'n', 'g']
}

/// The directory that holds the files of a date's year: `data/YYYY`.
pub open spec fn year_dir(d: LedgerDate) -> Seq<Seq<char>> {
    seq![data_dir_name(), padded(d.year as nat, 4)]
}

/// The file that holds the directives of a date's month: `data/YYYY/MM.zhang`.
pub open spec fn month_file(d: LedgerDate) -> Seq<Seq<char>> {
    year_dir(d).push(padded(d.month as nat, 2) + ledger_ext())
}

/// The file a new directive goes to: the explicit target if one is given, else the file of the
/// directive's month if it is dated, else the root file.
pub open spec fn target_of(main: Seq<Seq<char>>, date: Option<LedgerDate>, explicit: Option<Seq<Seq<char>>>) -> Seq<Seq<char>> {
    match explicit {
        Some(t) => t,
        None => match date {
            Some(d) => month_file(d),
            None => main,
        },
    }
}

/// `k` steps up: `../` repeated.
pub open spec fn ups(k: nat) -> Seq<char>
    decreases k,
{
    if k == 0 { Seq::empty() } else { ups((k - 1) as nat) + seq!['.', '.', '/'] }
}

/// The path of `target` as written in the root file `main`: relative to the root file's directory.
pub open spec fn path_from(main: Seq<Seq<char>>, target: Seq<Seq<char>>) -> Seq<char> {
    ups(parent_of(main).len()) + joined(target)
}

pub open spec fn is_visited(visited: Seq<Locator>, f: Seq<Seq<char>>) -> bool {
    exists|i: int| 0 <= i < visited.len() && #[trigger] visited[i]@ == f
}

/// A file's content with a directive's text added after a separating line break.
pub open spec fn appended(existing: Seq<char>, text: Seq<char>) -> Seq<char> {
    existing + seq!['\n'] + text + seq!['\n']
}

/// Text to add at the end of a file.
#[derive(Debug)]
pub struct FileWrite {
    pub file: Locator,
    pub text: String,
}

/// What one append does, in order: the directory to create if any, then the writes.
#[derive(Debug)]
pub struct AppendPlan {
    pub create_dir: Option<Locator>,
    pub writes: Vec<FileWrite>,
}

fn digit_str(d: u32) -> (r: &'static str)
    requires
        d < 10,
    ensures
        r@ == seq![digit_char(d as int)],
{
    proof {
        reveal_strlit("0"); reveal_strlit("1"); reveal_strlit("2"); reveal_strlit("3");
        reveal_strlit("4"); reveal_strlit("5"); reveal_strlit("6"); reveal_strlit("7");
        reveal_strlit("8"); reveal_strlit("9");
    }
    if d == 0 { "0" }
    else if d == 1 { "1" }
    else if d == 2 { "2" }
    else if d == 3 { "3" }
    else if d == 4 { "4" }
    else if d == 5 { "5" }
    else if d == 6 { "6" }
    else if d == 7 { "7" }
    else if d == 8 { "8" }
    else { "9" }
}

fn padded_number(n: u32, width: u32) -> (r: String)
    ensures
        r@ == padded(n as nat, width as nat),
    decreases width,
{
    if width == 0 {
        String::new()
    } else {
        let mut s = padded_number(n / 10, width - 1);
        s.append(digit_str(n % 10));
        s
    }
}

fn year_dir_of(d: LedgerDate) -> (r: Locator)
    ensures
        r@ == year_dir(d),
{
    let mut segs: Vec<String> = Vec::new();
    let a = String::from_str("data");
    let b = padded_number(d.year, 4);
    proof {
        reveal_strlit("data");
    }
    assert(a@ =~= data_dir_name());
    segs.push(a);
    segs.push(b);
    let r = Locator { segments: segs };
    assert(r@[0] == data_dir_name());
    assert(r@[1] == padded(d.year as nat, 4));
    assert(r@ =~= year_dir(d));
    r
}

fn month_file_of(d: LedgerDate) -> (r: Locator)
    ensures
        r@ == month_file(d),
{
    let mut r = year_dir_of(d);
    let mut name = padded_number(d.month, 2);
    name.append(".zhang");
    proof {
        reveal_strlit(".zhang");
    }
    assert(name@ =~= padded(d.month as nat, 2) + ledger_ext());
    let ghost before = r@;
    let ghost n = name@;
    r.segments.push(name);
    assert(r@ =~= before.push(n));
    r
}

/// Whether `f` is among the visited files.
pub fn visited_contains(visited: &Vec<Locator>, f: &Locator) -> (r: bool)
    ensures
        r == is_visited(visited@, f@),
{
    let mut i: usize = 0;
    while i < visited.len()
        invariant
            i <= visited@.len(),
            forall|j: int| 0 <= j < i ==> visited@[j]@ != f@,
        decreases visited@.len() - i,
    {
        if visited[i].same_as(f) {
            return true;
        }
        i = i + 1;
    }
    false
}

/// The text of the path of `target` as written in the root file `main`.
pub fn relative_path(main: &Locator, target: &Locator) -> (r: String)
    ensures
        r@ == path_from(main@, target@),
{
    let depth: usize = if main.segments.len() > 0 { main.segments.len() - 1 } else { 0 };
    let mut s = String::new();
    let mut k: usize = 0;
    while k < depth
        invariant
            k <= depth,
            depth == parent_of(main@).len(),
            s@ == ups(k as nat),
        decreases depth - k,
    {
        s.append("../");
        proof {
            reveal_strlit("../");
        }
        k = k + 1;
    }
    let t = target.render();
    s.append(t.as_str());
    s
}

/// A file's new content: the old one, a line break, the directive's text and a line break.
pub fn append_text(existing: &str, text: &str) -> (r: String)
    ensures
        r@ == appended(existing@, text@),
{
    let mut s = String::from_str(existing);
    s.append("\n");
    s.append(text);
    s.append("\n");
    proof {
        reveal_strlit("\n");
    }
    assert(s@ =~= appended(existing@, text@));
    s
}

/// Decides where `directive` goes in a ledger whose root file is `main` and whose loaded files
/// are `visited`, and what must be written so that the file stays reachable from the root.
pub fn plan_append(main: &Locator, visited: &Vec<Locator>, directive: &Directive, explicit: Option<Locator>) -> (r: AppendPlan)
    ensures
        ({
            let t = target_of(main@, directive.date, match explicit {
                Some(e) => Some(e@),
                None => None,
            });
            &&& match (explicit, directive.date) {
                (None, Some(d)) => r.create_dir is Some && r.create_dir->Some_0@ == year_dir(d),
                _ => r.create_dir is None,
            }
            &&& if is_visited(visited@, t) {
                &&& r.writes@.len() == 1
                &&& r.writes@[0].file@ == t
                &&& r.writes@[0].text@ == serialized(*directive)
            } else {
                &&& r.writes@.len() == 2
                &&& r.writes@[0].file@ == main@
                &&& r.writes@[0].text@ == inclusion_text(path_from(main@, t))
                &&& r.writes@[1].file@ == t
                &&& r.writes@[1].text@ == serialized(*directive)
            }
        }),
{
    let mut create_dir: Option<Locator> = None;
    let target = match explicit {
        Some(e) => e,
        None => match directive.date {
            Some(d) => {
                create_dir = Some(year_dir_of(d));
                month_file_of(d)
            },
            None => main.copy(),
        },
    };
    let mut writes: Vec<FileWrite> = Vec::new();
    if !visited_contains(visited, &target) {
        let path = relative_path(main, &target);
        let line = Directive::inclusion(path).serialize();
        writes.push(FileWrite { file: main.copy(), text: line });
    }
    let text = directive.serialize();
    writes.push(FileWrite { file: target, text });
    AppendPlan { create_dir, writes }
}

proof fn lemma_ups_shape(k: nat)
    ensures
        ups(k).len() == 3 * k,
        k > 0 ==> ups(k)[0] == '.',
    decreases k,
{
    if k > 0 {
        lemma_ups_shape((k - 1) as nat);
    }
}

proof fn lemma_scan_ups(b: Seq<Seq<char>>, k: nat)
    requires
        k <= b.len(),
    ensures
        scan_from((Some(b), Seq::empty()), ups(k), ups(k).len()) == (Some(b.subrange(0, b.len() - k)), Seq::<char>::empty()),
    decreases k,
{
    let st = (Some(b), Seq::<char>::empty());
    if k == 0 {
        assert(b.subrange(0, b.len() as int) =~= b);
    } else {
        lemma_scan_ups(b, (k - 1) as nat);
        let q = seq!['.', '.', '/'];
        lemma_scan_concat(st, ups((k - 1) as nat), q, 3);
        lemma_ups_shape((k - 1) as nat);
        lemma_ups_shape(k);
        let x = b.subrange(0, b.len() - k + 1);
        let st1 = (Some(x), Seq::<char>::empty());
        assert(q[0] == '.' && q[1] == '.' && q[2] == '/');
        assert(scan_from(st1, q, 0) == st1);
        assert(scan_from(st1, q, 1) == (Some(x), seq!['.'])) by {
            assert(Seq::<char>::empty().push('.') =~= seq!['.']);
        }
        assert(scan_from(st1, q, 2) == (Some(x), seq!['.', '.'])) by {
            assert(seq!['.'].push('.') =~= seq!['.', '.']);
        }
        assert(x.drop_last() =~= b.subrange(0, b.len() - k));
        assert(take_component(Some(x), seq!['.', '.']) == Some(x.drop_last()));
    }
}

proof fn lemma_joined_first(t: Seq<Seq<char>>)
    requires
        t.len() > 0,
        t[0].len() > 0,
    ensures
        joined(t).len() > 0,
        joined(t)[0] == t[0][0],
    decreases t.len(),
{
    if t.len() > 1 {
        lemma_joined_first(t.drop_last());
    }
}

proof fn lemma_padded_digits(n: nat, w: nat)
    ensures
        padded(n, w).len() == w,
        forall|i: int| 0 <= i < w ==> #[trigger] padded(n, w)[i] != '/' && padded(n, w)[i] != '.',
    decreases w,
{
    if w > 0 {
        lemma_padded_digits(n / 10, (w - 1) as nat);
    }
}

proof fn lemma_month_file_plain(d: LedgerDate)
    ensures
        plain(month_file(d)),
{
    let t = month_file(d);
    lemma_padded_digits(d.year as nat, 4);
    lemma_padded_digits(d.month as nat, 2);
    let y = padded(d.year as nat, 4);
    let m = padded(d.month as nat, 2) + ledger_ext();
    assert(t[0] == data_dir_name());
    assert(t[1] == y);
    assert(t[2] == m);
    assert(!data_dir_name().contains('/'));
    assert(!y.contains('/'));
    assert(!m.contains('/')) by {
        assert forall|i: int| 0 <= i < m.len() implies m[i] != '/' by {
            if i >= 2 {
                assert(m[i] == ledger_ext()[i - 2]);
            }
        }
    }
    assert(data_dir_name().len() != seq!['.'].len());
    assert(data_dir_name() != seq!['.', '.']) by {
        assert(data_dir_name()[0] != seq!['.', '.'][0]);
    }
    assert(y != seq!['.', '.']) by {
        assert(y.len() != seq!['.', '.'].len());
    }
    assert(y != seq!['.']) by {
        assert(y.len() != seq!['.'].len());
    }
    assert(m != seq!['.']) by {
        assert(m.len() != seq!['.'].len());
    }
    assert(m != seq!['.', '.']) by {
        assert(m.len() != seq!['.', '.'].len());
    }
}

/// No orphan files: the file an append writes to, when it has not been loaded, is reached from the
/// root file through the inclusion the append writes there first: that inclusion's path, read from
/// the root file's directory, leads to it.
pub proof fn lemma_append_target_reachable(
    entry: Seq<Seq<char>>,
    main: Seq<Seq<char>>,
    date: Option<LedgerDate>,
    explicit: Option<Seq<Seq<char>>>,
)
    requires
        plain(main),
        explicit matches Some(e) ==> plain(e),
    ensures
        resolved(entry, parent_of(main), path_from(main, target_of(main, date, explicit)))
            == Ok::<Seq<Seq<char>>, PathError>(target_of(main, date, explicit)),
{
    let t = target_of(main, date, explicit);
    if explicit is None && date is Some {
        lemma_month_file_plain(date->Some_0);
    }
    assert(plain(t));
    let b = parent_of(main);
    let k = b.len();
    let st = (Some(b), Seq::<char>::empty());
    lemma_ups_shape(k);
    lemma_scan_ups(b, k);
    lemma_scan_concat(st, ups(k), joined(t), joined(t).len());
    assert(b.subrange(0, 0) =~= Seq::<Seq<char>>::empty());
    lemma_normalized_joined(Seq::empty(), t);
    assert(Seq::<Seq<char>>::empty() + t =~= t);
    let p = path_from(main, t);
    assert(p.len() == ups(k).len() + joined(t).len());
    assert(normalized(b, p) == Some(t));
    if t.len() > 0 {
        assert(plain_segment(t[0]));
        lemma_joined_first(t);
    }
    if k > 0 {
        assert(p[0] == ups(k)[0]);
    } else if joined(t).len() > 0 {
        assert(ups(k) =~= Seq::<char>::empty());
        assert(p[0] == joined(t)[0]);
        assert(t.len() > 0);
        assert(t[0][0] != '/') by {
            assert(!t[0].contains('/'));
        }
    }
    assert(!is_absolute(p));
}

proof fn lemma_resolved_all_has(entry: Seq<Seq<char>>, dir: Seq<Seq<char>>, ds: Seq<Directive>, i: int, t: Seq<Seq<char>>)
    requires
        0 <= i < ds.len(),
        ds[i].body matches DirectiveBody::Include(p) && resolved(entry, dir, p@) == Ok::<Seq<Seq<char>>, PathError>(t),
        resolved_all(entry, dir, ds) is Ok,
    ensures
        resolved_all(entry, dir, ds)->Ok_0.contains(t),
    decreases ds.len(),
{
    let v = resolved_all(entry, dir, ds.drop_last());
    if i == ds.len() - 1 {
        let w = resolved_all(entry, dir, ds)->Ok_0;
        assert(w[w.len() - 1] == t);
    } else {
        assert(ds.drop_last()[i] == ds[i]);
        lemma_resolved_all_has(entry, dir, ds.drop_last(), i, t);
        let w = resolved_all(entry, dir, ds)->Ok_0;
        let k = choose|k: int| 0 <= k < v->Ok_0.len() && v->Ok_0[k] == t;
        assert(w[k] == t);
    }
}

/// No orphan files: once the root file holds the inclusion that an append wrote into it, a load
/// from the root file visits the file the append targeted. `visited` is any set of files that
/// holds the root file and every file that an include of one of them leads to, as a finished
/// load's visited files do.
pub proof fn lemma_appended_file_is_loaded(
    files: Seq<ParsedFile>,
    entry: Seq<Seq<char>>,
    main: Seq<Seq<char>>,
    date: Option<LedgerDate>,
    explicit: Option<Seq<Seq<char>>>,
    visited: Seq<Seq<Seq<char>>>,
    i: int,
)
    requires
        plain(main),
        explicit matches Some(e) ==> plain(e),
        visited.contains(main),
        forall|j: int| 0 <= j < visited.len() ==> {
            let ts = resolved_all(entry, parent_of(visited[j]), contents(files, #[trigger] visited[j], 0));
            &&& ts is Ok
            &&& forall|k: int| 0 <= k < ts->Ok_0.len() ==> visited.contains(#[trigger] ts->Ok_0[k])
        },
        0 <= i < contents(files, main, 0).len(),
        contents(files, main, 0)[i].body matches DirectiveBody::Include(p)
            && p@ == path_from(main, target_of(main, date, explicit)),
    ensures
        visited.contains(target_of(main, date, explicit)),
{
    let t = target_of(main, date, explicit);
    lemma_append_target_reachable(entry, main, date, explicit);
    let j = choose|j: int| 0 <= j < visited.len() && visited[j] == main;
    let ds = contents(files, main, 0);
    assert(resolved_all(entry, parent_of(visited[j]), contents(files, visited[j], 0)) is Ok);
    lemma_resolved_all_has(entry, parent_of(main), ds, i, t);
    let ts = resolved_all(entry, parent_of(main), ds)->Ok_0;
    let k = choose|k: int| 0 <= k < ts.len() && ts[k] == t;
    assert(visited.contains(ts[k]));
}

/// Two directives of the same month go to the same file.
pub proof fn lemma_same_month_same_file(main: Seq<Seq<char>>, d1: LedgerDate, d2: LedgerDate)
    requires
        d1.year == d2.year,
        d1.month == d2.month,
    ensures
        target_of(main, Some(d1), None) == target_of(main, Some(d2), None),
{
}

} // verus!
