//! The history file: its bytes, loaded at most once, and the entries they hold.
use vstd::prelude::*;
use vstd::slice::slice_subrange;
use vstd::string::StringExecFns;
use crate::error::HistoryError;
use crate::record::{parse_record, EntryView, HistoryEntry};
use crate::text::{blank_range, chars_of, is_blank};

verus! {

broadcast use vstd::string::group_string_axioms;

/// The file name looked for under the home directory.
pub const DEFAULT_DIRHIST_FILE: &'static str = ".directory_history";

/// The environment variable that names the history file.
pub const DIRHIST_FILE_ENV: &'static str = "ZSH_DIRHIST_FILE";

/// The number of entries the shell side keeps by default.
pub const DEFAULT_DIRHIST_SIZE: usize = 10000;

/// The text that `String::from_utf8_lossy` makes of the bytes.
pub uninterp spec fn lossy_text(b: Seq<u8>) -> Seq<char>;

/// Relies on `String::from_utf8_lossy`: the text depends on the bytes alone,
/// and no bytes give no text.
#[verifier::external_body]
fn decode_lossy(b: &[u8]) -> (r: String)
    ensures
        r@ == lossy_text(b@),
        b@.len() == 0 ==> r@.len() == 0,
{
    String::from_utf8_lossy(b).into_owned()
}

/// The records of a file's bytes: each NUL byte ends one record and starts
/// the next, and every other byte extends the current record.
pub open spec fn split_records(b: Seq<u8>) -> Seq<Seq<u8>>
    decreases b.len(),
{
    if b.len() == 0 {
        seq![Seq::empty()]
    } else {
        let rest = split_records(b.drop_last());
        if b.last() == 0 {
            rest.push(Seq::empty())
        } else {
            rest.update(rest.len() - 1, rest.last().push(b.last()))
        }
    }
}

/// The decoded text of each record of a file's bytes.
pub open spec fn record_texts(b: Seq<u8>) -> Seq<Seq<char>> {
    split_records(b).map_values(|p: Seq<u8>| lossy_text(p))
}

/// Takes one more record's text into a traversal: a blank record adds
/// nothing, a well-formed one adds its entry, and a malformed one ends the
/// traversal with that record's text. A traversal that has failed stays so.
pub open spec fn take_text(acc: Result<Seq<EntryView>, Seq<char>>, t: Seq<char>) -> Result<
    Seq<EntryView>,
    Seq<char>,
> {
    match acc {
        Err(x) => Err(x),
        Ok(es) => if is_blank(t) {
            Ok(es)
        } else {
            match parse_record(t) {
                None => Err(t),
                Some(e) => Ok(es.push(e)),
            }
        },
    }
}

/// The entries of a sequence of record texts, in order, or the text of the
/// first malformed record.
pub open spec fn parse_texts(ts: Seq<Seq<char>>) -> Result<Seq<EntryView>, Seq<char>>
    decreases ts.len(),
{
    if ts.len() == 0 {
        Ok(Seq::empty())
    } else {
        take_text(parse_texts(ts.drop_last()), ts.last())
    }
}

/// The entries that a file's bytes hold.
pub open spec fn file_entries(b: Seq<u8>) -> Result<Seq<EntryView>, Seq<char>> {
    parse_texts(record_texts(b))
}

/// The views of a sequence of entries.
pub open spec fn views(v: Seq<HistoryEntry>) -> Seq<EntryView> {
    v.map_values(|e: HistoryEntry| e@)
}

pub proof fn lemma_views_push(v: Seq<HistoryEntry>, e: HistoryEntry)
    ensures
        views(v.push(e)) == views(v).push(e@),
{
    assert(views(v.push(e)).len() == v.len() + 1);
    assert(views(v).len() == v.len());
    assert(views(v.push(e)) =~= views(v).push(e@));
}

/// Whether an executable result is the given model result: the same
/// entries, or a malformed-record error with the same text.
pub open spec fn entries_agree(
    r: Result<Vec<HistoryEntry>, HistoryError>,
    m: Result<Seq<EntryView>, Seq<char>>,
) -> bool {
    match (r, m) {
        (Ok(v), Ok(es)) => views(v@) == es,
        (Err(HistoryError::MalformedRecord(t)), Err(s)) => t@ == s,
        _ => false,
    }
}

/// Once a traversal has failed, further records leave it failed.
pub proof fn lemma_failure_sticks(ts: Seq<Seq<char>>, us: Seq<Seq<char>>)
    requires
        parse_texts(ts) is Err,
    ensures
        parse_texts(ts + us) == parse_texts(ts),
    decreases us.len(),
{
    if us.len() == 0 {
        assert(ts + us =~= ts);
    } else {
        lemma_failure_sticks(ts, us.drop_last());
        assert((ts + us).drop_last() =~= ts + us.drop_last());
    }
}

/// A blank record yields no entry and leaves the entries around it, and
/// their order, as they were.
pub proof fn lemma_blank_record_skipped(xs: Seq<Seq<char>>, w: Seq<char>, ys: Seq<Seq<char>>)
    requires
        is_blank(w),
    ensures
        parse_texts(xs + seq![w] + ys) == parse_texts(xs + ys),
    decreases ys.len(),
{
    if ys.len() == 0 {
        assert((xs + seq![w] + ys).drop_last() =~= xs);
        assert(xs + ys =~= xs);
    } else {
        lemma_blank_record_skipped(xs, w, ys.drop_last());
        assert((xs + seq![w] + ys).drop_last() =~= xs + seq![w] + ys.drop_last());
        assert((xs + ys).drop_last() =~= xs + ys.drop_last());
    }
}

/// The records of `a`, a NUL, then `b` are the records of `a` followed by
/// those of `b`.
pub proof fn lemma_split_concat(a: Seq<u8>, b: Seq<u8>)
    ensures
        split_records(a + seq![0u8] + b) == split_records(a) + split_records(b),
    decreases b.len(),
{
    let whole = a + seq![0u8] + b;
    if b.len() == 0 {
        assert(whole.drop_last() =~= a);
        assert(split_records(a).push(Seq::empty()) =~= split_records(a) + split_records(b));
    } else {
        let b2 = b.drop_last();
        lemma_split_concat(a, b2);
        lemma_split_len(b2);
        assert(whole.drop_last() =~= a + seq![0u8] + b2);
        assert(whole.last() == b.last());
        let p = split_records(a);
        let q = split_records(b2);
        if b.last() == 0 {
            assert((p + q).push(Seq::empty()) =~= p + q.push(Seq::empty()));
        } else {
            assert((p + q).update((p + q).len() - 1, (p + q).last().push(b.last())) =~= p
                + q.update(q.len() - 1, q.last().push(b.last())));
        }
    }
}

/// Bytes without a NUL are one record.
pub proof fn lemma_split_single(w: Seq<u8>)
    requires
        !w.contains(0u8),
    ensures
        split_records(w) == seq![w],
    decreases w.len(),
{
    if w.len() > 0 {
        let w2 = w.drop_last();
        assert(!w2.contains(0u8)) by {
            if w2.contains(0u8) {
                let k = choose|k: int| 0 <= k < w2.len() && w2[k] == 0u8;
                assert(w[k] == 0u8);
            }
        }
        lemma_split_single(w2);
        assert(w[w.len() - 1] != 0u8);
        assert(w2.push(w.last()) =~= w);
        assert(seq![w2].update(0, w2.push(w.last())) =~= seq![w]);
    } else {
        assert(w =~= Seq::<u8>::empty());
    }
}

/// In a file, a record whose text is blank after decoding adds no entry and
/// leaves the entries around it, and their order, as they were.
pub proof fn lemma_blank_record_in_file(x: Seq<u8>, w: Seq<u8>, y: Seq<u8>)
    requires
        !w.contains(0u8),
        is_blank(lossy_text(w)),
    ensures
        file_entries(x + seq![0u8] + w + seq![0u8] + y) == file_entries(x + seq![0u8] + y),
{
    let f = |p: Seq<u8>| lossy_text(p);
    lemma_split_concat(x, w + seq![0u8] + y);
    lemma_split_concat(w, y);
    lemma_split_concat(x, y);
    lemma_split_single(w);
    assert(x + seq![0u8] + w + seq![0u8] + y =~= x + seq![0u8] + (w + seq![0u8] + y));
    let sx = split_records(x);
    let sy = split_records(y);
    assert(split_records(x + seq![0u8] + w + seq![0u8] + y) =~= sx + seq![w] + sy);
    assert((sx + seq![w] + sy).map_values(f) =~= sx.map_values(f) + seq![lossy_text(w)]
        + sy.map_values(f));
    assert((sx + sy).map_values(f) =~= sx.map_values(f) + sy.map_values(f));
    lemma_blank_record_skipped(sx.map_values(f), lossy_text(w), sy.map_values(f));
}

/// Adds the entry of one record's text to `out`.
fn take_record(out: &mut Vec<HistoryEntry>, text: &str) -> (r: Result<(), HistoryError>)
    ensures
        match take_text(Ok(views(old(out)@)), text@) {
            Ok(es) => r is Ok && views(final(out)@) == es,
            Err(t) => r matches Err(HistoryError::MalformedRecord(x)) && x@ == t,
        },
{
    let cs = chars_of(text);
    assert(cs@.subrange(0, cs.len() as int) =~= text@);
    if blank_range(&cs, 0, cs.len()) {
        return Ok(());
    }
    match HistoryEntry::parse_record(text) {
        Ok(e) => {
            proof {
                lemma_views_push(out@, e);
            }
            out.push(e);
            Ok(())
        },
        Err(err) => Err(err),
    }
}

/// The entries of a file's bytes, in file order.
pub fn entries_of_bytes(b: &[u8]) -> (r: Result<Vec<HistoryEntry>, HistoryError>)
    ensures
        entries_agree(r, file_entries(b@)),
{
    let mut out: Vec<HistoryEntry> = Vec::new();
    let ghost mut done: Seq<Seq<u8>> = Seq::empty();
    let mut start: usize = 0;
    let mut i: usize = 0;
    assert(b@.take(0) =~= Seq::<u8>::empty());
    assert(views(out@) =~= Seq::<EntryView>::empty());
    while i < b.len()
        invariant
            start <= i <= b.len(),
            split_records(b@.take(i as int)) == done.push(b@.subrange(start as int, i as int)),
            parse_texts(done.map_values(|p: Seq<u8>| lossy_text(p))) == Ok::<
                Seq<EntryView>,
                Seq<char>,
            >(views(out@)),
        decreases b.len() - i,
    {
        let ghost cur = b@.subrange(start as int, i as int);
        assert(b@.take(i + 1).drop_last() =~= b@.take(i as int));
        if b[i] == 0 {
            let piece = slice_subrange(b, start, i);
            let text = decode_lossy(piece);
            let ghost ts = done.map_values(|p: Seq<u8>| lossy_text(p));
            assert(ts.push(lossy_text(cur)).drop_last() =~= ts);
            let step = take_record(&mut out, text.as_str());
            proof {
                done = done.push(cur);
                assert(done.map_values(|p: Seq<u8>| lossy_text(p)) =~= ts.push(lossy_text(cur)));
            }
            if let Err(e) = step {
                proof {
                    let rest = split_records(b@).subrange(done.len() as int, split_records(b@).len() as int);
                    lemma_split_prefix(b@, i as int + 1);
                    assert(split_records(b@.take(i + 1)) =~= done.push(Seq::empty()));
                    let whole = split_records(b@);
                    let front = split_records(b@.take(i + 1));
                    assert forall|k: int| 0 <= k < done.len() implies done[k] == whole[k] by {
                        assert(front[k] == done[k]);
                    }
                    assert(whole =~= done + rest);
                    lemma_failure_sticks(
                        done.map_values(|p: Seq<u8>| lossy_text(p)),
                        rest.map_values(|p: Seq<u8>| lossy_text(p)),
                    );
                    assert(record_texts(b@) =~= done.map_values(|p: Seq<u8>| lossy_text(p))
                        + rest.map_values(|p: Seq<u8>| lossy_text(p)));
                }
                return Err(e);
            }
            start = i + 1;
            assert(b@.subrange(start as int, i + 1) =~= Seq::<u8>::empty());
        } else {
            assert(b@.subrange(start as int, i + 1) =~= cur.push(b[i as int]));
        }
        i = i + 1;
    }
    let ghost cur = b@.subrange(start as int, i as int);
    let piece = slice_subrange(b, start, i);
    let text = decode_lossy(piece);
    let ghost ts = done.map_values(|p: Seq<u8>| lossy_text(p));
    assert(ts.push(lossy_text(cur)).drop_last() =~= ts);
    let step = take_record(&mut out, text.as_str());
    assert(b@.take(i as int) =~= b@);
    assert(record_texts(b@) =~= ts.push(lossy_text(cur)));
    match step {
        Err(e) => Err(e),
        Ok(_) => Ok(out),
    }
}

/// The records of a prefix of the bytes are the leading records of the
/// whole, the last of them possibly cut short.
pub proof fn lemma_split_prefix(b: Seq<u8>, j: int)
    requires
        0 <= j <= b.len(),
    ensures
        split_records(b.take(j)).len() <= split_records(b).len(),
        forall|k: int|
            0 <= k < split_records(b.take(j)).len() - 1 ==> #[trigger] split_records(b.take(j))[k]
                == split_records(b)[k],
    decreases b.len() - j,
{
    lemma_split_len(b);
    if j < b.len() {
        lemma_split_prefix(b, j + 1);
        let s = b.take(j + 1);
        assert(s.drop_last() =~= b.take(j));
        lemma_split_len(b.take(j));
        let short = split_records(b.take(j));
        let long = split_records(s);
        assert(long.len() >= short.len());
        assert forall|k: int| 0 <= k < short.len() - 1 implies #[trigger] short[k] == split_records(
            b,
        )[k] by {
            assert(short[k] == long[k]);
        }
    } else {
        assert(b.take(j) =~= b);
    }
}

pub proof fn lemma_split_len(b: Seq<u8>)
    ensures
        split_records(b).len() >= 1,
    decreases b.len(),
{
    if b.len() > 0 {
        lemma_split_len(b.drop_last());
    }
}

/// The history file: where it lives and, once read, its bytes.
pub struct HistoryFile {
    path: String,
    contents: Option<Vec<u8>>,
}

/// The mathematical content of a `HistoryFile`: its path, and its bytes
/// once they have been read.
pub struct StoreView {
    pub path: Seq<char>,
    pub contents: Option<Seq<u8>>,
}

impl StoreView {
    /// The store after the file's bytes are handed to it: the first bytes
    /// handed over stay for the store's whole life; later ones change nothing.
    pub open spec fn loaded_with(self, b: Seq<u8>) -> StoreView {
        match self.contents {
            None => StoreView { path: self.path, contents: Some(b) },
            Some(_) => self,
        }
    }
}

impl View for HistoryFile {
    type V = StoreView;

    closed spec fn view(&self) -> StoreView {
        StoreView {
            path: self.path@,
            contents: match self.contents {
                Some(v) => Some(v@),
                None => None,
            },
        }
    }
}

/// `name` under the directory `dir`, with one `/` between them.
pub open spec fn path_under(dir: Seq<char>, name: Seq<char>) -> Seq<char> {
    if dir.len() == 0 {
        name
    } else if dir.last() == '/' {
        dir + name
    } else {
        dir + seq!['/'] + name
    }
}

/// A store's bytes are read at most once: once bytes have been handed to
/// it, it asks for none, and bytes handed over later change nothing.
pub proof fn lemma_single_read(f: StoreView, first: Seq<u8>, later: Seq<u8>)
    ensures
        f.loaded_with(first).contents is Some,
        f.loaded_with(first).loaded_with(later) == f.loaded_with(first),
        f.loaded_with(first).path == f.path,
        f.contents is None ==> f.loaded_with(first).contents == Some(first),
{
}

impl HistoryFile {
    /// A store for the file at `path`, not read yet.
    pub fn new(path: String) -> (r: HistoryFile)
        ensures
            r@.path == path@,
            r@.contents is None,
    {
        HistoryFile { path, contents: None }
    }

    /// Where the history file is found: the path that `file_var` names, or
    /// else the default file name under the home directory `home_var`.
    pub fn locate(file_var: Option<String>, home_var: Option<String>) -> (r: Result<
        HistoryFile,
        HistoryError,
    >)
        ensures
            r is Err <==> file_var is None && home_var is None,
            r matches Err(e) ==> e is Config,
            r matches Ok(f) ==> f@.contents is None && f@.path == match file_var {
                Some(p) => p@,
                None => path_under(home_var->0@, DEFAULT_DIRHIST_FILE@),
            },
    {
        match file_var {
            Some(p) => Ok(HistoryFile::new(p)),
            None => match home_var {
                Some(home) => {
                    let mut path = home;
                    let n = path.as_str().unicode_len();
                    if n > 0 && path.as_str().get_char(n - 1) != '/' {
                        path.append("/");
                        proof {
                            reveal_strlit("/");
                        }
                    }
                    path.append(DEFAULT_DIRHIST_FILE);
                    Ok(HistoryFile::new(path))
                },
                None => Err(HistoryError::Config),
            },
        }
    }

    /// The location of the history file.
    pub fn path(&self) -> (r: &str)
        ensures
            r@ == self@.path,
    {
        self.path.as_str()
    }

    /// Whether the file's bytes still have to be read.
    pub fn needs_read(&self) -> (r: bool)
        ensures
            r == (self@.contents is None),
    {
        self.contents.is_none()
    }

    /// Hands the file's bytes to the store. Only the first bytes handed
    /// over are kept: the store never takes its bytes twice.
    pub fn load_bytes(&mut self, bytes: Vec<u8>)
        ensures
            final(self)@ == old(self)@.loaded_with(bytes@),
    {
        if self.contents.is_none() {
            self.contents = Some(bytes);
        }
    }

    /// Every entry of the file, in file order, blank records skipped; or the
    /// first malformed record.
    pub fn read_all(&self) -> (r: Result<Vec<HistoryEntry>, HistoryError>)
        requires
            self@.contents is Some,
        ensures
            entries_agree(r, file_entries(self@.contents->0)),
    {
        match &self.contents {
            Some(v) => entries_of_bytes(v.as_slice()),
            None => Ok(Vec::new()),
        }
    }
}

} // verus!
