//! Queries over the history: directory priority, prefix filter, and
//! first-wins removal of repeated commands.
use vstd::prelude::*;
use crate::error::HistoryError;
use crate::record::{EntryView, HistoryEntry};
use crate::store::{entries_agree, file_entries, lemma_views_push, views, HistoryFile};
use crate::text::{chars_of, has_prefix};

verus! {

broadcast use vstd::string::group_string_axioms;

/// Whether an entry was run in directory `dir`.
pub open spec fn run_in(dir: Seq<char>) -> spec_fn(EntryView) -> bool {
    |e: EntryView| e.directory == dir
}

/// Whether an entry was run outside directory `dir`.
pub open spec fn run_outside(dir: Seq<char>) -> spec_fn(EntryView) -> bool {
    |e: EntryView| e.directory != dir
}

/// Whether an entry's command begins with `prefix`.
pub open spec fn begins_with(prefix: Seq<char>) -> spec_fn(EntryView) -> bool {
    |e: EntryView| prefix.is_prefix_of(e.command)
}

/// The entries in directory `dir` first, then all others, each group in its
/// original order. An empty `dir` leaves the entries as they are.
pub open spec fn directory_first(es: Seq<EntryView>, dir: Seq<char>) -> Seq<EntryView> {
    if dir.len() == 0 {
        es
    } else {
        es.filter(run_in(dir)) + es.filter(run_outside(dir))
    }
}

/// The entries whose command begins with `prefix`, in order.
pub open spec fn with_prefix(es: Seq<EntryView>, prefix: Seq<char>) -> Seq<EntryView> {
    es.filter(begins_with(prefix))
}

/// The commands of the entries, in order.
pub open spec fn commands(es: Seq<EntryView>) -> Seq<Seq<char>> {
    es.map_values(|e: EntryView| e.command)
}

/// Each distinct command once, where it first occurs.
pub open spec fn dedup(cs: Seq<Seq<char>>) -> Seq<Seq<char>>
    decreases cs.len(),
{
    if cs.len() == 0 {
        cs
    } else {
        let d = dedup(cs.drop_last());
        if d.contains(cs.last()) {
            d
        } else {
            d.push(cs.last())
        }
    }
}

/// The entries a query selects: directory matches first, then the prefix filter.
pub open spec fn query_entries(es: Seq<EntryView>, dir: Seq<char>, prefix: Seq<char>) -> Seq<
    EntryView,
> {
    with_prefix(directory_first(es, dir), prefix)
}

/// The distinct commands a query yields, in order.
pub open spec fn query_commands(es: Seq<EntryView>, dir: Seq<char>, prefix: Seq<char>) -> Seq<
    Seq<char>,
> {
    dedup(commands(query_entries(es, dir, prefix)))
}

/// The texts of a sequence of strings.
pub open spec fn texts(v: Seq<String>) -> Seq<Seq<char>> {
    v.map_values(|s: String| s@)
}

/// Whether an executable list of commands is the given model result.
pub open spec fn commands_agree(
    r: Result<Vec<String>, HistoryError>,
    m: Result<Seq<EntryView>, Seq<char>>,
    dir: Seq<char>,
    prefix: Seq<char>,
) -> bool {
    match (r, m) {
        (Ok(v), Ok(es)) => texts(v@) == query_commands(es, dir, prefix),
        (Err(HistoryError::MalformedRecord(t)), Err(s)) => t@ == s,
        _ => false,
    }
}

/// A model result with `f` applied to its entries.
pub open spec fn map_ok(
    m: Result<Seq<EntryView>, Seq<char>>,
    f: spec_fn(Seq<EntryView>) -> Seq<EntryView>,
) -> Result<Seq<EntryView>, Seq<char>> {
    match m {
        Ok(es) => Ok(f(es)),
        Err(t) => Err(t),
    }
}

proof fn lemma_filter_step(s: Seq<EntryView>, p: spec_fn(EntryView) -> bool, i: int)
    requires
        0 <= i < s.len(),
    ensures
        s.take(i + 1).filter(p) == (if p(s[i]) {
            s.take(i).filter(p).push(s[i])
        } else {
            s.take(i).filter(p)
        }),
{
    reveal(Seq::filter);
    assert(s.take(i + 1).drop_last() =~= s.take(i));
}

/// The prefix filter with an empty prefix keeps every entry, in order, and
/// never keeps an entry whose command does not begin with the prefix.
pub proof fn lemma_prefix_filter(es: Seq<EntryView>, prefix: Seq<char>)
    ensures
        prefix.len() == 0 ==> with_prefix(es, prefix) == es,
        forall|i: int|
            0 <= i < with_prefix(es, prefix).len() ==> prefix.is_prefix_of(
                #[trigger] with_prefix(es, prefix)[i].command,
            ),
    decreases es.len(),
{
    reveal(Seq::filter);
    if es.len() > 0 {
        lemma_prefix_filter(es.drop_last(), prefix);
        if prefix.len() == 0 {
            assert(prefix.is_prefix_of(es.last().command)) by {
                assert(prefix =~= es.last().command.subrange(0, 0));
            }
            assert(es.drop_last().push(es.last()) =~= es);
        }
    }
    assert forall|i: int| 0 <= i < with_prefix(es, prefix).len() implies prefix.is_prefix_of(
        #[trigger] with_prefix(es, prefix)[i].command,
    ) by {
        broadcast use vstd::seq_lib::group_filter_ensures;

        assert(begins_with(prefix)(with_prefix(es, prefix)[i]));
    }
}

/// A command is among the distinct commands exactly when it occurs at all.
pub proof fn lemma_dedup_contains(cs: Seq<Seq<char>>)
    ensures
        forall|x: Seq<char>| #[trigger] dedup(cs).contains(x) <==> cs.contains(x),
    decreases cs.len(),
{
    if cs.len() > 0 {
        lemma_dedup_contains(cs.drop_last());
        assert forall|x: Seq<char>| #[trigger] dedup(cs).contains(x) <==> cs.contains(x) by {
            if cs.contains(x) {
                let k = choose|k: int| 0 <= k < cs.len() && cs[k] == x;
                if k < cs.len() - 1 {
                    assert(cs.drop_last()[k] == x);
                }
            }
            if cs.drop_last().contains(x) {
                let k = choose|k: int| 0 <= k < cs.drop_last().len() && cs.drop_last()[k] == x;
                assert(cs[k] == x);
            }
            if dedup(cs).contains(x) && !dedup(cs.drop_last()).contains(x) {
                let d = dedup(cs.drop_last());
                let k = choose|k: int| 0 <= k < dedup(cs).len() && dedup(cs)[k] == x;
                if k < d.len() {
                    assert(d[k] == x);
                }
                assert(cs[cs.len() - 1] == x);
            }
            if cs.last() == x {
                assert(cs[cs.len() - 1] == x);
                if !dedup(cs.drop_last()).contains(x) {
                    assert(dedup(cs)[dedup(cs).len() - 1] == x);
                }
            }
            if dedup(cs.drop_last()).contains(x) {
                let d = dedup(cs.drop_last());
                let k = choose|k: int| 0 <= k < d.len() && d[k] == x;
                assert(dedup(cs)[k] == x);
            }
        }
    }
}

/// The distinct commands hold no command twice.
pub proof fn lemma_dedup_distinct(cs: Seq<Seq<char>>)
    ensures
        dedup(cs).no_duplicates(),
    decreases cs.len(),
{
    if cs.len() > 0 {
        lemma_dedup_distinct(cs.drop_last());
        let d = dedup(cs.drop_last());
        if !d.contains(cs.last()) {
            assert forall|i: int, j: int|
                0 <= i < d.push(cs.last()).len() && 0 <= j < d.push(cs.last()).len() && i != j
                    implies d.push(cs.last())[i] != d.push(cs.last())[j] by {
                if i == d.len() {
                    assert(d[j] != cs.last());
                } else if j == d.len() {
                    assert(d[i] != cs.last());
                }
            }
        }
    }
}

/// A sequence without repeats is its own sequence of distinct commands.
pub proof fn lemma_dedup_of_distinct(cs: Seq<Seq<char>>)
    requires
        cs.no_duplicates(),
    ensures
        dedup(cs) == cs,
    decreases cs.len(),
{
    if cs.len() > 0 {
        let front = cs.drop_last();
        assert(front.no_duplicates()) by {
            assert forall|i: int, j: int| 0 <= i < front.len() && 0 <= j < front.len() && i != j
                implies front[i] != front[j] by {
                assert(cs[i] != cs[j]);
            }
        }
        lemma_dedup_of_distinct(front);
        lemma_dedup_contains(front);
        if front.contains(cs.last()) {
            let k = choose|k: int| 0 <= k < front.len() && front[k] == cs.last();
            assert(cs[k] == cs[cs.len() - 1]);
        }
        assert(front.push(cs.last()) =~= cs);
    }
}

/// Removing repeats twice is removing them once.
pub proof fn lemma_dedup_idempotent(cs: Seq<Seq<char>>)
    ensures
        dedup(dedup(cs)) == dedup(cs),
{
    lemma_dedup_distinct(cs);
    lemma_dedup_of_distinct(dedup(cs));
}

/// Later repeats of commands already seen change nothing: where a command
/// first occurs alone decides its place.
pub proof fn lemma_dedup_later_repeats(cs: Seq<Seq<char>>, later: Seq<Seq<char>>)
    requires
        forall|i: int| 0 <= i < later.len() ==> cs.contains(#[trigger] later[i]),
    ensures
        dedup(cs + later) == dedup(cs),
    decreases later.len(),
{
    if later.len() == 0 {
        assert(cs + later =~= cs);
    } else {
        let front = later.drop_last();
        lemma_dedup_later_repeats(cs, front);
        assert((cs + later).drop_last() =~= cs + front);
        assert((cs + later).last() == later[later.len() - 1]);
        lemma_dedup_contains(cs + front);
        lemma_dedup_contains(cs);
        assert(cs.contains(later[later.len() - 1]));
    }
}

/// Whether position `i` holds the first occurrence of its command.
pub open spec fn is_first(cs: Seq<Seq<char>>, i: int) -> bool {
    forall|j: int| 0 <= j < i ==> cs[j] != cs[i]
}

/// The positions of first occurrences, in increasing order.
pub open spec fn first_positions(cs: Seq<Seq<char>>) -> Seq<int>
    decreases cs.len(),
{
    if cs.len() == 0 {
        Seq::empty()
    } else {
        let f = first_positions(cs.drop_last());
        if is_first(cs, cs.len() - 1) {
            f.push(cs.len() - 1)
        } else {
            f
        }
    }
}

/// The distinct commands are the commands at the positions of first
/// occurrences, in the order of those positions: the first occurrence fixes
/// each command's place, and later repeats are dropped.
pub proof fn lemma_dedup_first_positions(cs: Seq<Seq<char>>)
    ensures
        dedup(cs).len() == first_positions(cs).len(),
        forall|k: int|
            0 <= k < dedup(cs).len() ==> 0 <= #[trigger] first_positions(cs)[k] < cs.len()
                && dedup(cs)[k] == cs[first_positions(cs)[k]],
        forall|k: int, l: int|
            0 <= k < l < first_positions(cs).len() ==> #[trigger] first_positions(cs)[k]
                < #[trigger] first_positions(cs)[l],
        forall|i: int| 0 <= i < cs.len() ==> (is_first(cs, i) <==> first_positions(cs).contains(i)),
    decreases cs.len(),
{
    if cs.len() > 0 {
        let c = cs.drop_last();
        let n = cs.len() - 1;
        let f = first_positions(c);
        let d = dedup(c);
        lemma_dedup_first_positions(c);
        lemma_dedup_contains(c);
        assert forall|i: int| 0 <= i < n implies (is_first(cs, i) <==> is_first(c, i)) by {
            if is_first(c, i) {
                assert forall|j: int| 0 <= j < i implies cs[j] != cs[i] by {
                    assert(c[j] != c[i]);
                }
            }
            if is_first(cs, i) {
                assert forall|j: int| 0 <= j < i implies c[j] != c[i] by {
                    assert(cs[j] != cs[i]);
                }
            }
        }
        assert(is_first(cs, n) <==> !c.contains(cs[n])) by {
            if c.contains(cs[n]) {
                let j = choose|j: int| 0 <= j < c.len() && c[j] == cs[n];
                assert(cs[j] == cs[n]);
            }
            if !is_first(cs, n) {
                let j = choose|j: int| 0 <= j < n && cs[j] == cs[n];
                assert(c[j] == cs[n]);
            }
        }
        assert(cs.last() == cs[n]);
        let fp = first_positions(cs);
        let dd = dedup(cs);
        assert forall|k: int| 0 <= k < dd.len() implies 0 <= #[trigger] fp[k] < cs.len()
            && dd[k] == cs[fp[k]] by {
            if k < d.len() {
                assert(fp[k] == f[k]);
                assert(dd[k] == d[k]);
                assert(c[f[k]] == cs[f[k]]);
            }
        }
        assert forall|i: int| 0 <= i < cs.len() implies (is_first(cs, i) <==> fp.contains(i)) by {
            if i < n {
                if f.contains(i) {
                    let k = choose|k: int| 0 <= k < f.len() && f[k] == i;
                    assert(fp[k] == i);
                }
                if fp.contains(i) {
                    let k = choose|k: int| 0 <= k < fp.len() && fp[k] == i;
                    if k < f.len() {
                        assert(f[k] == i);
                    }
                }
            } else {
                if is_first(cs, n) {
                    assert(fp[fp.len() - 1] == n);
                }
                if fp.contains(n) {
                    let k = choose|k: int| 0 <= k < fp.len() && fp[k] == n;
                    if k < f.len() {
                        assert(f[k] < c.len());
                    }
                }
            }
        }
        assert forall|k: int, l: int| 0 <= k < l < fp.len() implies #[trigger] fp[k] < #[trigger] fp[l] by {
            if l < f.len() {
                assert(f[k] < f[l]);
            } else {
                assert(f[k] < c.len());
            }
        }
    }
}

fn copy_entry(e: &HistoryEntry) -> (r: HistoryEntry)
    ensures
        r@ == e@,
{
    HistoryEntry {
        timestamp: e.timestamp,
        duration: e.duration,
        directory: e.directory.clone(),
        command: e.command.clone(),
    }
}

/// Puts the entries run in directory `dir` first, keeping the order within
/// each group. An empty `dir` keeps every entry where it is.
pub fn by_directory(entries: &Vec<HistoryEntry>, dir: &str) -> (r: Vec<HistoryEntry>)
    ensures
        views(r@) == directory_first(views(entries@), dir@),
{
    let ghost vs = views(entries@);
    let ghost inp = run_in(dir@);
    let ghost outp = run_outside(dir@);
    let d = dir.to_owned();
    let mut matching: Vec<HistoryEntry> = Vec::new();
    let mut others: Vec<HistoryEntry> = Vec::new();
    let mut i: usize = 0;
    assert(vs.take(0) =~= Seq::<EntryView>::empty());
    proof {
        reveal(Seq::filter);
    }
    assert(views(matching@) =~= vs.take(0).filter(inp));
    assert(views(others@) =~= vs.take(0).filter(outp));
    while i < entries.len()
        invariant
            i <= entries.len(),
            vs == views(entries@),
            d@ == dir@,
            views(matching@) == vs.take(i as int).filter(inp),
            views(others@) == vs.take(i as int).filter(outp),
            inp == run_in(dir@),
            outp == run_outside(dir@),
        decreases entries.len() - i,
    {
        proof {
            lemma_filter_step(vs, inp, i as int);
            lemma_filter_step(vs, outp, i as int);
        }
        let e = copy_entry(&entries[i]);
        assert(vs[i as int] == e@);
        proof {
            lemma_views_push(matching@, e);
            lemma_views_push(others@, e);
        }
        assert(inp(vs[i as int]) == (vs[i as int].directory == dir@));
        assert(outp(vs[i as int]) == (vs[i as int].directory != dir@));
        if entries[i].directory == d {
            matching.push(e);
            assert(views(matching@) =~= vs.take(i as int).filter(inp).push(vs[i as int]));
        } else {
            others.push(e);
            assert(views(others@) =~= vs.take(i as int).filter(outp).push(vs[i as int]));
        }
        i = i + 1;
    }
    assert(vs.take(i as int) =~= vs);
    if d.as_str().unicode_len() == 0 {
        let mut all: Vec<HistoryEntry> = Vec::new();
        let mut j: usize = 0;
        while j < entries.len()
            invariant
                j <= entries.len(),
                vs == views(entries@),
                views(all@) == vs.take(j as int),
            decreases entries.len() - j,
        {
            let e = copy_entry(&entries[j]);
            proof {
                lemma_views_push(all@, e);
            }
            all.push(e);
            assert(views(all@) =~= vs.take(j + 1));
            j = j + 1;
        }
        assert(vs.take(j as int) =~= vs);
        return all;
    }
    let mut k: usize = 0;
    let ghost front = views(matching@);
    while k < others.len()
        invariant
            k <= others.len(),
            views(matching@) == front + views(others@).take(k as int),
        decreases others.len() - k,
    {
        let e = copy_entry(&others[k]);
        proof {
            lemma_views_push(matching@, e);
        }
        matching.push(e);
        assert(views(matching@) =~= front + views(others@).take(k + 1));
        k = k + 1;
    }
    assert(views(others@).take(k as int) =~= views(others@));
    matching
}

/// Keeps the entries whose command begins with `prefix`, in order.
pub fn by_prefix(entries: &Vec<HistoryEntry>, prefix: &str) -> (r: Vec<HistoryEntry>)
    ensures
        views(r@) == with_prefix(views(entries@), prefix@),
{
    let ghost vs = views(entries@);
    let ghost keep = begins_with(prefix@);
    let p = chars_of(prefix);
    let mut out: Vec<HistoryEntry> = Vec::new();
    let mut i: usize = 0;
    proof {
        reveal(Seq::filter);
    }
    assert(views(out@) =~= vs.take(0).filter(keep));
    while i < entries.len()
        invariant
            i <= entries.len(),
            vs == views(entries@),
            p@ == prefix@,
            views(out@) == vs.take(i as int).filter(keep),
            keep == begins_with(prefix@),
        decreases entries.len() - i,
    {
        proof {
            lemma_filter_step(vs, keep, i as int);
        }
        let c = chars_of(entries[i].command.as_str());
        assert(keep(vs[i as int]) == prefix@.is_prefix_of(vs[i as int].command));
        assert(vs[i as int].command == c@);
        if has_prefix(&c, &p) {
            let e = copy_entry(&entries[i]);
            proof {
                lemma_views_push(out@, e);
            }
            out.push(e);
            assert(views(out@) =~= vs.take(i as int).filter(keep).push(vs[i as int]));
        }
        i = i + 1;
    }
    assert(vs.take(i as int) =~= vs);
    out
}

fn contains_text(v: &Vec<String>, s: &String) -> (r: bool)
    ensures
        r == texts(v@).contains(s@),
{
    let mut i: usize = 0;
    while i < v.len()
        invariant
            i <= v.len(),
            forall|j: int| 0 <= j < i ==> texts(v@)[j] != s@,
        decreases v.len() - i,
    {
        if v[i] == *s {
            assert(texts(v@)[i as int] == s@);
            return true;
        }
        i = i + 1;
    }
    false
}

/// The commands of the entries, each distinct command once, where it first
/// occurs; later repeats are dropped.
pub fn dedup_commands(entries: &Vec<HistoryEntry>) -> (r: Vec<String>)
    ensures
        texts(r@) == dedup(commands(views(entries@))),
{
    let ghost cs = commands(views(entries@));
    let mut seen: Vec<String> = Vec::new();
    let mut i: usize = 0;
    assert(cs.take(0) =~= Seq::<Seq<char>>::empty());
    assert(texts(seen@) =~= Seq::<Seq<char>>::empty());
    while i < entries.len()
        invariant
            i <= entries.len(),
            cs == commands(views(entries@)),
            texts(seen@) == dedup(cs.take(i as int)),
        decreases entries.len() - i,
    {
        assert(cs.take(i + 1).drop_last() =~= cs.take(i as int));
        assert(cs[i as int] == entries[i as int].command@);
        if !contains_text(&seen, &entries[i].command) {
            seen.push(entries[i].command.clone());
            assert(texts(seen@) =~= dedup(cs.take(i as int)).push(cs[i as int]));
        }
        i = i + 1;
    }
    assert(cs.take(i as int) =~= cs);
    seen
}

impl HistoryFile {
    /// Every entry, those run in `dir` first, each group in file order.
    pub fn read_all_by_dir(&self, dir: &str) -> (r: Result<Vec<HistoryEntry>, HistoryError>)
        requires
            self@.contents is Some,
        ensures
            entries_agree(
                r,
                map_ok(
                    file_entries(self@.contents->0),
                    |es: Seq<EntryView>| directory_first(es, dir@),
                ),
            ),
    {
        match self.read_all() {
            Ok(all) => Ok(by_directory(&all, dir)),
            Err(e) => Err(e),
        }
    }

    /// The entries whose command begins with `substring`, those run in `dir`
    /// first when `dir` is not empty.
    pub fn read_all_with(&self, dir: &str, substring: &str) -> (r: Result<
        Vec<HistoryEntry>,
        HistoryError,
    >)
        requires
            self@.contents is Some,
        ensures
            entries_agree(
                r,
                map_ok(
                    file_entries(self@.contents->0),
                    |es: Seq<EntryView>| query_entries(es, dir@, substring@),
                ),
            ),
    {
        match self.read_all_by_dir(dir) {
            Ok(ordered) => Ok(by_prefix(&ordered, substring)),
            Err(e) => Err(e),
        }
    }

    /// The distinct commands that begin with `substring`, those run in `dir`
    /// first when `dir` is not empty, each where it first occurs.
    pub fn read_commands_with(&self, dir: &str, substring: &str) -> (r: Result<
        Vec<String>,
        HistoryError,
    >)
        requires
            self@.contents is Some,
        ensures
            commands_agree(r, file_entries(self@.contents->0), dir@, substring@),
    {
        match self.read_all_with(dir, substring) {
            Ok(selected) => Ok(dedup_commands(&selected)),
            Err(e) => Err(e),
        }
    }
}

} // verus!
