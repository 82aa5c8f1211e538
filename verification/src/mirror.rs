use vstd::prelude::*;
use crate::paths::{file_name_of, parent_of, path_file_name, path_parent};
use crate::numbers::{parse_u32, u32_value};
use crate::text::{
    chars_of, find_text, first_occurrence, has_substring, contains_text, last_index_of,
    lemma_last_index_of, occurrence_from, occurs_at, remove_all, remove_text, rfind_char,
    split_by, split_on, string_of_range, views,
};

verus! {

/// The numeric parts of a version text: its `.`-separated pieces that read
/// as a `u32`, in order; the others are skipped.
pub open spec fn version_parts(v: Seq<char>) -> Seq<u32> {
    split_on(v, '.').filter(|p: Seq<char>| u32_value(p) is Some).map_values(
        |p: Seq<char>| u32_value(p)->0 as u32,
    )
}

/// Every piece of a version whose `.`-separated pieces all read as `u32`
/// numbers is one of its parts, in order.
pub proof fn lemma_version_parts_all_numeric(v: Seq<char>)
    requires
        forall|i: int| 0 <= i < split_on(v, '.').len() ==> (#[trigger] u32_value(split_on(v, '.')[i])) is Some,
    ensures
        version_parts(v).len() == split_on(v, '.').len(),
        forall|i: int|
            0 <= i < split_on(v, '.').len() ==> #[trigger] version_parts(v)[i] == u32_value(
                split_on(v, '.')[i],
            )->0,
{
    let ps = split_on(v, '.');
    let pred = |p: Seq<char>| u32_value(p) is Some;
    lemma_filter_keeps_all(ps, pred);
}

proof fn lemma_filter_keeps_all(s: Seq<Seq<char>>, pred: spec_fn(Seq<char>) -> bool)
    requires
        forall|i: int| 0 <= i < s.len() ==> pred(#[trigger] s[i]),
    ensures
        s.filter(pred) == s,
    decreases s.len(),
{
    reveal(Seq::filter);
    if s.len() > 0 {
        let d = s.drop_last();
        assert forall|i: int| 0 <= i < d.len() implies pred(#[trigger] d[i]) by {
            assert(d[i] == s[i]);
        }
        lemma_filter_keeps_all(d, pred);
        assert(pred(s[s.len() - 1]));
        assert(s.filter(pred) == d.filter(pred).push(s.last()));
        assert(d.push(s.last()) =~= s);
    }
}

/// Number sequences that agree before position `k` and differ there
/// are ordered by that position.
pub proof fn lemma_parts_less_first_difference(a: Seq<u32>, b: Seq<u32>, k: int)
    requires
        0 <= k < a.len(),
        k < b.len(),
        a.take(k) == b.take(k),
        a[k] < b[k],
    ensures
        parts_less(a, b),
        !parts_less(b, a),
    decreases k,
{
    if k > 0 {
        assert(a[0] == a.take(k)[0] && b[0] == b.take(k)[0]);
        assert(a.skip(1).take(k - 1) =~= a.take(k).skip(1));
        assert(b.skip(1).take(k - 1) =~= b.take(k).skip(1));
        lemma_parts_less_first_difference(a.skip(1), b.skip(1), k - 1);
    }
}

/// Two versions whose pieces all read as numbers come in the order of
/// their numbers at the first piece where they differ: `1.2.3` before
/// `1.2.10`, and not the other way.
pub proof fn lemma_version_less_first_difference(a: Seq<char>, b: Seq<char>, k: int)
    requires
        forall|i: int| 0 <= i < split_on(a, '.').len() ==> (#[trigger] u32_value(split_on(a, '.')[i])) is Some,
        forall|i: int| 0 <= i < split_on(b, '.').len() ==> (#[trigger] u32_value(split_on(b, '.')[i])) is Some,
        0 <= k < split_on(a, '.').len(),
        k < split_on(b, '.').len(),
        forall|j: int| 0 <= j < k ==> u32_value(#[trigger] split_on(a, '.')[j]) == u32_value(split_on(b, '.')[j]),
        u32_value(split_on(a, '.')[k])->0 < u32_value(split_on(b, '.')[k])->0,
    ensures
        version_less(a, b),
        !version_less(b, a),
{
    lemma_version_parts_all_numeric(a);
    lemma_version_parts_all_numeric(b);
    let pa = version_parts(a);
    let pb = version_parts(b);
    assert forall|j: int| 0 <= j < k implies pa.take(k)[j] == pb.take(k)[j] by {
        assert(pa[j] == u32_value(split_on(a, '.')[j])->0);
        assert(pb[j] == u32_value(split_on(b, '.')[j])->0);
    }
    assert(pa.take(k) =~= pb.take(k));
    assert(pa[k] == u32_value(split_on(a, '.')[k])->0);
    assert(pb[k] == u32_value(split_on(b, '.')[k])->0);
    lemma_parts_less_first_difference(pa, pb, k);
}

/// `a` comes before `b` in the lexicographic order of number sequences (a
/// proper prefix comes first).
pub open spec fn parts_less(a: Seq<u32>, b: Seq<u32>) -> bool
    decreases a.len(),
{
    if a.len() == 0 {
        b.len() > 0
    } else if b.len() == 0 {
        false
    } else if a[0] < b[0] {
        true
    } else if a[0] > b[0] {
        false
    } else {
        parts_less(a.skip(1), b.skip(1))
    }
}

/// Version `a` sorts before version `b`: its numeric parts come first.
pub open spec fn version_less(a: Seq<char>, b: Seq<char>) -> bool {
    parts_less(version_parts(a), version_parts(b))
}

fn parts_of(v: &str) -> (r: Vec<u32>)
    ensures
        r@ == version_parts(v@),
{
    let pieces = split_by(v, '.');
    let ghost ps = views(pieces@);
    let ghost pred = |p: Seq<char>| u32_value(p) is Some;
    let ghost val = |p: Seq<char>| u32_value(p)->0 as u32;
    let mut r: Vec<u32> = Vec::new();
    let mut i: usize = 0;
    while i < pieces.len()
        invariant
            i <= pieces@.len(),
            ps == views(pieces@),
            ps == split_on(v@, '.'),
            pred == (|p: Seq<char>| u32_value(p) is Some),
            val == (|p: Seq<char>| u32_value(p)->0 as u32),
            r@ == ps.take(i as int).filter(pred).map_values(val),
        decreases pieces.len() - i,
    {
        proof {
            ps.take(i as int).lemma_filter_push(ps[i as int], pred);
            assert(ps.take(i + 1) =~= ps.take(i as int).push(ps[i as int]));
        }
        assert(ps[i as int] == pieces@[i as int]@);
        let ghost before = r@;
        match parse_u32(pieces[i].as_str()) {
            Some(n) => {
                r.push(n);
                assert(r@ =~= before.push(val(ps[i as int])));
                assert(ps.take(i + 1).filter(pred).map_values(val) =~= ps.take(i as int).filter(
                    pred,
                ).map_values(val).push(val(ps[i as int])));
            },
            None => {},
        }
        i += 1;
    }
    assert(ps.take(ps.len() as int) =~= ps);
    r
}

fn parts_before(a: &Vec<u32>, b: &Vec<u32>) -> (r: bool)
    ensures
        r == parts_less(a@, b@),
{
    let mut i: usize = 0;
    assert(a@.skip(0) =~= a@);
    assert(b@.skip(0) =~= b@);
    while i < a.len() && i < b.len() && a[i] == b[i]
        invariant
            i <= a@.len(),
            i <= b@.len(),
            parts_less(a@, b@) == parts_less(a@.skip(i as int), b@.skip(i as int)),
        decreases a.len() - i,
    {
        assert(a@.skip(i as int).skip(1) =~= a@.skip(i + 1));
        assert(b@.skip(i as int).skip(1) =~= b@.skip(i + 1));
        i += 1;
    }
    if i == a.len() {
        i < b.len()
    } else if i == b.len() {
        false
    } else {
        a[i] < b[i]
    }
}

/// Whether version `a` sorts before version `b` (the order crate files of
/// one crate are replayed in).
pub fn version_precedes(a: &str, b: &str) -> (r: bool)
    ensures
        r == version_less(a@, b@),
{
    let pa = parts_of(a);
    let pb = parts_of(b);
    parts_before(&pa, &pb)
}


proof fn lemma_occurrence_found(s: Seq<char>, p: Seq<char>, i: int, j: int)
    requires
        0 <= i <= j,
        occurs_at(s, p, j),
    ensures
        occurrence_from(s, p, i) matches Some(k) && i <= k <= j && occurs_at(s, p, k),
    decreases j - i,
{
    if !occurs_at(s, p, i) {
        lemma_occurrence_found(s, p, i + 1, j);
    }
}

proof fn lemma_last_index_at_least(s: Seq<char>, c: char, j: int)
    requires
        0 <= j < s.len(),
        s[j] == c,
    ensures
        last_index_of(s, c) matches Some(i) && j <= i < s.len() && s[i] == c,
    decreases s.len(),
{
    if s.last() != c {
        assert(s.drop_last()[j] == s[j]);
        lemma_last_index_at_least(s.drop_last(), c, j);
    }
}

/// One crate file that the registry mirror's log reports as new: the
/// crate's directory, the file's path and the version read from its name.
pub struct LogEntry {
    pub path: String,
    pub full_path: String,
    pub version: String,
}

/// The text of a `LogEntry`.
pub struct LogEntryView {
    pub path: Seq<char>,
    pub full_path: Seq<char>,
    pub version: Seq<char>,
}

impl View for LogEntry {
    type V = LogEntryView;

    open spec fn view(&self) -> LogEntryView {
        LogEntryView { path: self.path@, full_path: self.full_path@, version: self.version@ }
    }
}

/// The texts of a run of log entries.
pub open spec fn entry_views(s: Seq<LogEntry>) -> Seq<LogEntryView> {
    s.map_values(|e: LogEntry| e@)
}

/// The text that introduces the file path in a log line.
pub open spec fn path_mark() -> Seq<char> {
    "path: \""@
}

/// A log line that reports a new crate file: it holds `&&&[NEW]`,
/// `File { fd: ` and the path mark.
pub open spec fn new_file_line(l: Seq<char>) -> bool {
    has_substring(l, "&&&[NEW]"@) && has_substring(l, "File { fd: "@) && has_substring(
        l,
        path_mark(),
    )
}

/// Where the reported path starts: just after the first path mark.
pub open spec fn path_start(l: Seq<char>) -> int {
    first_occurrence(l, path_mark())->0 + path_mark().len()
}

/// Where the reported path ends: at the last `"` of the line.
pub open spec fn path_end(l: Seq<char>) -> int {
    last_index_of(l, '"')->0
}

/// The path a new-file line reports.
pub open spec fn logged_path(l: Seq<char>) -> Seq<char> {
    l.subrange(path_start(l), path_end(l))
}

/// The version a crate file's name carries: what follows its last `-`,
/// with every `.crate` removed.
pub open spec fn version_of_file(name: Seq<char>) -> Seq<char> {
    remove_all(split_on(name, '-').last(), ".crate"@)
}

/// The entry a new-file line reports: the path's parent directory, the
/// path, and the version its file name carries.
pub open spec fn entry_of(l: Seq<char>) -> LogEntryView {
    let full = logged_path(l);
    LogEntryView {
        path: path_parent(full)->0,
        full_path: full,
        version: version_of_file(path_file_name(full)->0),
    }
}

/// A log line the mirror can read: unless it reports a new file, any line;
/// if it does, its last `"` closes the path, and the path has a parent and
/// a file name.
pub open spec fn readable_log_line(l: Seq<char>) -> bool {
    new_file_line(l) ==> {
        &&& path_start(l) <= path_end(l)
        &&& path_parent(logged_path(l)) is Some
        &&& path_file_name(logged_path(l)) is Some
    }
}

/// The entries reported by the lines of the log, in order.
pub open spec fn logged_entries(lines: Seq<Seq<char>>) -> Seq<LogEntryView> {
    lines.filter(|l: Seq<char>| new_file_line(l)).map_values(|l: Seq<char>| entry_of(l))
}

proof fn lemma_path_bounds(l: Seq<char>)
    requires
        new_file_line(l),
    ensures
        first_occurrence(l, path_mark()) matches Some(k) && occurs_at(l, path_mark(), k),
        last_index_of(l, '"') is Some,
        0 <= path_start(l) <= l.len(),
        path_end(l) < l.len(),
        path_start(l) - 1 <= path_end(l),
{
    reveal_strlit("path: \"");
    let j = choose|j: int| occurs_at(l, path_mark(), j);
    lemma_occurrence_found(l, path_mark(), 0, j);
    let k = first_occurrence(l, path_mark())->0;
    assert(l.subrange(k, k + 7)[6] == '"');
    assert(l[k + 6] == '"');
    lemma_last_index_at_least(l, '"', k + 6);
}

fn new_file_text(line: &str) -> (r: bool)
    ensures
        r == new_file_line(line@),
{
    contains_text(line, "&&&[NEW]") && contains_text(line, "File { fd: ") && contains_text(
        line,
        "path: \"",
    )
}

/// Where the path of a new-file line starts and ends, when it can be read.
fn path_bounds(line: &str) -> (r: (usize, usize))
    requires
        new_file_line(line@),
    ensures
        r.0 == path_start(line@),
        r.1 == path_end(line@),
{
    proof {
        lemma_path_bounds(line@);
    }
    let cs = chars_of(line);
    let mark = chars_of("path: \"");
    let k = find_text(line, "path: \"").unwrap();
    let end = rfind_char(cs.as_slice(), '"').unwrap();
    let n = cs.len();
    let m = mark.len();
    assert(mark@ == path_mark());
    assert(k + m <= n);
    (k + m, end)
}

/// Reads the entry a new-file log line reports.
pub fn log_entry_of(line: &str) -> (r: LogEntry)
    requires
        new_file_line(line@),
        readable_log_line(line@),
    ensures
        r@ == entry_of(line@),
{
    proof {
        lemma_path_bounds(line@);
    }
    let (start, end) = path_bounds(line);
    let cs = chars_of(line);
    let full = string_of_range(cs.as_slice(), start, end);
    let parent = parent_of(full.as_str()).unwrap();
    let name = file_name_of(full.as_str()).unwrap();
    let pieces = split_by(name.as_str(), '-');
    proof {
        crate::text::lemma_split_on_nonempty(name@, '-');
    }
    assert(pieces@[pieces@.len() - 1]@ == split_on(name@, '-').last());
    let version = remove_text(pieces[pieces.len() - 1].as_str(), ".crate");
    LogEntry { path: parent, full_path: full, version }
}

/// Reads the entries the mirror's log lines report, in order.
pub fn log_entries(lines: &Vec<String>) -> (r: Vec<LogEntry>)
    requires
        forall|i: int| 0 <= i < lines@.len() ==> readable_log_line(#[trigger] lines@[i]@),
    ensures
        entry_views(r@) == logged_entries(views(lines@)),
{
    let ghost ls = views(lines@);
    let ghost pred = |l: Seq<char>| new_file_line(l);
    let ghost f = |l: Seq<char>| entry_of(l);
    let mut r: Vec<LogEntry> = Vec::new();
    let mut i: usize = 0;
    while i < lines.len()
        invariant
            i <= lines@.len(),
            ls == views(lines@),
            forall|k: int| 0 <= k < lines@.len() ==> readable_log_line(#[trigger] lines@[k]@),
            pred == (|l: Seq<char>| new_file_line(l)),
            f == (|l: Seq<char>| entry_of(l)),
            entry_views(r@) == ls.take(i as int).filter(pred).map_values(f),
        decreases lines.len() - i,
    {
        assert(ls[i as int] == lines@[i as int]@);
        proof {
            ls.take(i as int).lemma_filter_push(ls[i as int], pred);
            assert(ls.take(i + 1) =~= ls.take(i as int).push(ls[i as int]));
        }
        if new_file_text(lines[i].as_str()) {
            let e = log_entry_of(lines[i].as_str());
            let ghost before = r@;
            r.push(e);
            assert(entry_views(r@) =~= entry_views(before).push(f(ls[i as int])));
            assert(ls.take(i + 1).filter(pred).map_values(f) =~= ls.take(i as int).filter(
                pred,
            ).map_values(f).push(f(ls[i as int])));
        }
        i += 1;
    }
    assert(ls.take(ls.len() as int) =~= ls);
    r
}

/// Whether a log line can be read, asking `Path` for the reported path's
/// parent and file name.
fn log_line_readable(line: &str) -> (r: bool)
    ensures
        r == readable_log_line(line@),
{
    if !new_file_text(line) {
        return true;
    }
    let (start, end) = path_bounds(line);
    if start > end {
        return false;
    }
    proof {
        lemma_path_bounds(line@);
    }
    let cs = chars_of(line);
    let full = string_of_range(cs.as_slice(), start, end);
    parent_of(full.as_str()).is_some() && file_name_of(full.as_str()).is_some()
}

/// Reads the entries of the mirror's log, or `None` when some new-file
/// line cannot be read (its path is not closed by a later `"`, or has no
/// parent or no file name).
pub fn read_log_entries(lines: &Vec<String>) -> (r: Option<Vec<LogEntry>>)
    ensures
        r is None <==> exists|i: int|
            0 <= i < lines@.len() && !readable_log_line(#[trigger] lines@[i]@),
        r matches Some(v) ==> entry_views(v@) == logged_entries(views(lines@)),
{
    let mut i: usize = 0;
    while i < lines.len()
        invariant
            i <= lines@.len(),
            forall|k: int| 0 <= k < i ==> readable_log_line(#[trigger] lines@[k]@),
        decreases lines.len() - i,
    {
        if !log_line_readable(lines[i].as_str()) {
            return None;
        }
        i += 1;
    }
    Some(log_entries(lines))
}


/// `e` put into the version-sorted run `sorted`: after every entry whose
/// version does not sort after it, so that equal versions keep their order.
pub open spec fn insert_by_version(sorted: Seq<LogEntryView>, e: LogEntryView) -> Seq<
    LogEntryView,
>
    decreases sorted.len(),
{
    if sorted.len() == 0 {
        seq![e]
    } else if version_less(e.version, sorted.last().version) {
        insert_by_version(sorted.drop_last(), e).push(sorted.last())
    } else {
        sorted.push(e)
    }
}

/// The entries stably sorted by version.
pub open spec fn sort_by_version(s: Seq<LogEntryView>) -> Seq<LogEntryView>
    decreases s.len(),
{
    if s.len() == 0 {
        s
    } else {
        insert_by_version(sort_by_version(s.drop_last()), s.last())
    }
}

/// The crate directories of the entries, each once, in the order they
/// first appear.
pub open spec fn first_paths(s: Seq<LogEntryView>) -> Seq<Seq<char>>
    decreases s.len(),
{
    if s.len() == 0 {
        Seq::empty()
    } else {
        let f = first_paths(s.drop_last());
        if f.contains(s.last().path) {
            f
        } else {
            f.push(s.last().path)
        }
    }
}

/// The entries of one crate directory, in order.
pub open spec fn with_path(s: Seq<LogEntryView>, p: Seq<char>) -> Seq<LogEntryView> {
    s.filter(|e: LogEntryView| e.path == p)
}

/// The order the entries are replayed in: grouped by crate directory, the
/// groups in order of first appearance, each group sorted by version.
pub open spec fn replay_order(s: Seq<LogEntryView>) -> Seq<LogEntryView> {
    first_paths(s).map_values(|p: Seq<char>| sort_by_version(with_path(s, p))).flatten_alt()
}

proof fn lemma_parts_irreflexive(a: Seq<u32>)
    ensures
        !parts_less(a, a),
    decreases a.len(),
{
    if a.len() > 0 {
        lemma_parts_irreflexive(a.skip(1));
    }
}

proof fn lemma_parts_transitive(a: Seq<u32>, b: Seq<u32>, c: Seq<u32>)
    requires
        parts_less(a, b),
        parts_less(b, c),
    ensures
        parts_less(a, c),
    decreases a.len(),
{
    if a.len() > 0 && b.len() > 0 && c.len() > 0 && a[0] == b[0] && b[0] == c[0] {
        lemma_parts_transitive(a.skip(1), b.skip(1), c.skip(1));
    }
}

proof fn lemma_parts_total(a: Seq<u32>, b: Seq<u32>)
    requires
        a != b,
    ensures
        parts_less(a, b) || parts_less(b, a),
    decreases a.len(),
{
    if a.len() == 0 && b.len() == 0 {
        assert(a =~= b);
    }
    if a.len() > 0 && b.len() > 0 && a[0] == b[0] {
        if a.skip(1) == b.skip(1) {
            assert(a =~= seq![a[0]] + a.skip(1));
            assert(b =~= seq![b[0]] + b.skip(1));
        }
        lemma_parts_total(a.skip(1), b.skip(1));
    }
}

/// No entry's version sorts before that of an entry ahead of it.
pub open spec fn version_sorted(s: Seq<LogEntryView>) -> bool {
    forall|i: int, j: int| 0 <= i < j < s.len() ==> !version_less(s[j].version, s[i].version)
}

proof fn lemma_insert_by_version_sorted(s: Seq<LogEntryView>, e: LogEntryView)
    requires
        version_sorted(s),
    ensures
        version_sorted(insert_by_version(s, e)),
    decreases s.len(),
{
    broadcast use vstd::seq_lib::group_to_multiset_ensures;

    if s.len() > 0 {
        let d = s.drop_last();
        let last = s.last();
        assert(version_sorted(d)) by {
            assert forall|i: int, j: int| 0 <= i < j < d.len() implies !version_less(
                d[j].version,
                d[i].version,
            ) by {
                assert(d[i] == s[i] && d[j] == s[j]);
            }
        }
        if version_less(e.version, last.version) {
            lemma_insert_by_version_sorted(d, e);
            lemma_insert_by_version_ms(d, e);
            let r0 = insert_by_version(d, e);
            assert forall|i: int| 0 <= i < r0.len() implies !version_less(
                last.version,
                #[trigger] r0[i].version,
            ) by {
                let x = r0[i];
                assert(r0.contains(x));
                assert(r0.to_multiset().count(x) > 0);
                if x == e {
                    if version_less(last.version, e.version) {
                        lemma_parts_transitive(
                            version_parts(e.version),
                            version_parts(last.version),
                            version_parts(e.version),
                        );
                        lemma_parts_irreflexive(version_parts(e.version));
                    }
                } else {
                    assert(d.to_multiset().count(x) > 0);
                    assert(d.contains(x));
                    let k = choose|k: int| 0 <= k < d.len() && d[k] == x;
                    assert(s[k] == x);
                }
            }
            let r = r0.push(last);
            assert forall|i: int, j: int| 0 <= i < j < r.len() implies !version_less(
                r[j].version,
                r[i].version,
            ) by {
                if j == r.len() - 1 {
                    assert(r[i] == r0[i]);
                } else {
                    assert(r[i] == r0[i] && r[j] == r0[j]);
                }
            }
        } else {
            let r = s.push(e);
            assert forall|i: int, j: int| 0 <= i < j < r.len() implies !version_less(
                r[j].version,
                r[i].version,
            ) by {
                if j == r.len() - 1 {
                    assert(r[i] == s[i]);
                    let pe = version_parts(e.version);
                    let pl = version_parts(last.version);
                    let pi = version_parts(s[i].version);
                    if parts_less(pe, pi) {
                        if i < s.len() - 1 {
                            assert(!version_less(s[s.len() - 1].version, s[i].version));
                            assert(!parts_less(pl, pi));
                        } else {
                            assert(pi == pl);
                        }
                        if pe == pl {
                        } else {
                            lemma_parts_total(pe, pl);
                            lemma_parts_transitive(pl, pe, pi);
                        }
                    }
                } else {
                    assert(r[i] == s[i] && r[j] == s[j]);
                }
            }
        }
    }
}

/// Sorting by version puts no version before one it sorts after, and
/// loses or adds no entry.
pub proof fn lemma_sort_by_version(s: Seq<LogEntryView>)
    ensures
        version_sorted(sort_by_version(s)),
        sort_by_version(s).to_multiset() =~= s.to_multiset(),
    decreases s.len(),
{
    lemma_sort_by_version_ms(s);
    if s.len() > 0 {
        lemma_sort_by_version(s.drop_last());
        lemma_insert_by_version_sorted(sort_by_version(s.drop_last()), s.last());
    }
}

/// The entries of each of the crate directories `ps`, in order.
pub open spec fn groups_of(ps: Seq<Seq<char>>, s: Seq<LogEntryView>) -> Seq<Seq<LogEntryView>> {
    ps.map_values(|p: Seq<char>| with_path(s, p))
}

proof fn lemma_insert_by_version_ms(sorted: Seq<LogEntryView>, e: LogEntryView)
    ensures
        insert_by_version(sorted, e).to_multiset() =~= sorted.to_multiset().insert(e),
    decreases sorted.len(),
{
    broadcast use vstd::seq_lib::group_to_multiset_ensures;

    if sorted.len() == 0 {
        assert(seq![e] =~= Seq::<LogEntryView>::empty().push(e));
    } else {
        let d = sorted.drop_last();
        assert(sorted =~= d.push(sorted.last()));
        if version_less(e.version, sorted.last().version) {
            lemma_insert_by_version_ms(d, e);
        }
    }
}

proof fn lemma_sort_by_version_ms(s: Seq<LogEntryView>)
    ensures
        sort_by_version(s).to_multiset() =~= s.to_multiset(),
    decreases s.len(),
{
    broadcast use vstd::seq_lib::group_to_multiset_ensures;

    if s.len() > 0 {
        lemma_sort_by_version_ms(s.drop_last());
        lemma_insert_by_version_ms(sort_by_version(s.drop_last()), s.last());
        assert(s =~= s.drop_last().push(s.last()));
    }
}

proof fn lemma_flatten_ms_pointwise(x: Seq<Seq<LogEntryView>>, y: Seq<Seq<LogEntryView>>)
    requires
        x.len() == y.len(),
        forall|i: int| 0 <= i < x.len() ==> (#[trigger] x[i]).to_multiset() == y[i].to_multiset(),
    ensures
        x.flatten_alt().to_multiset() =~= y.flatten_alt().to_multiset(),
    decreases x.len(),
{
    if x.len() > 0 {
        let xd = x.drop_last();
        let yd = y.drop_last();
        assert forall|i: int| 0 <= i < xd.len() implies (#[trigger] xd[i]).to_multiset()
            == yd[i].to_multiset() by {
            assert(xd[i] == x[i] && yd[i] == y[i]);
        }
        lemma_flatten_ms_pointwise(xd, yd);
        vstd::seq_lib::lemma_multiset_commutative(xd.flatten_alt(), x.last());
        vstd::seq_lib::lemma_multiset_commutative(yd.flatten_alt(), y.last());
    }
}

proof fn lemma_flatten_ms_one_more(
    x: Seq<Seq<LogEntryView>>,
    y: Seq<Seq<LogEntryView>>,
    k: int,
    e: LogEntryView,
)
    requires
        x.len() == y.len(),
        0 <= k < x.len(),
        y[k] == x[k].push(e),
        forall|i: int| 0 <= i < x.len() && i != k ==> y[i] == x[i],
    ensures
        y.flatten_alt().to_multiset() =~= x.flatten_alt().to_multiset().insert(e),
    decreases x.len(),
{
    broadcast use vstd::seq_lib::group_to_multiset_ensures;

    let n = x.len();
    let xd = x.drop_last();
    let yd = y.drop_last();
    vstd::seq_lib::lemma_multiset_commutative(xd.flatten_alt(), x.last());
    vstd::seq_lib::lemma_multiset_commutative(yd.flatten_alt(), y.last());
    if k == n - 1 {
        assert(xd =~= yd) by {
            assert forall|i: int| 0 <= i < xd.len() implies xd[i] == yd[i] by {
                assert(xd[i] == x[i] && yd[i] == y[i]);
            }
        }
    } else {
        assert forall|i: int| 0 <= i < xd.len() && i != k implies yd[i] == xd[i] by {
            assert(xd[i] == x[i] && yd[i] == y[i]);
        }
        assert(yd[k] == xd[k].push(e));
        lemma_flatten_ms_one_more(xd, yd, k, e);
        assert(y.last() == x.last());
    }
}

proof fn lemma_first_paths(s: Seq<LogEntryView>)
    ensures
        forall|p: Seq<char>|
            #[trigger] first_paths(s).contains(p) <==> exists|i: int|
                0 <= i < s.len() && s[i].path == p,
        first_paths(s).no_duplicates(),
    decreases s.len(),
{
    if s.len() > 0 {
        let d = s.drop_last();
        lemma_first_paths(d);
        let f = first_paths(d);
        let last = s.last().path;
        let fs = first_paths(s);
        assert(fs == (if f.contains(last) {
            f
        } else {
            f.push(last)
        }));
        assert forall|p: Seq<char>| #[trigger] fs.contains(p) implies exists|i: int|
            0 <= i < s.len() && s[i].path == p by {
            if f.contains(p) {
                let i = choose|i: int| 0 <= i < d.len() && d[i].path == p;
                assert(s[i] == d[i]);
                assert(0 <= i < s.len() && s[i].path == p);
            } else {
                let j = choose|j: int| 0 <= j < fs.len() && fs[j] == p;
                assert(j == f.len());
                assert(p == last);
                assert(s[s.len() - 1].path == p);
            }
        }
        assert forall|p: Seq<char>| (exists|i: int| 0 <= i < s.len() && s[i].path == p) implies
            #[trigger] fs.contains(p) by {
            let i = choose|i: int| 0 <= i < s.len() && s[i].path == p;
            if i < s.len() - 1 {
                assert(d[i] == s[i]);
                assert(f.contains(p));
                if !f.contains(last) {
                    let j = choose|j: int| 0 <= j < f.len() && f[j] == p;
                    assert(fs[j] == p);
                }
            } else {
                assert(p == last);
                if !f.contains(last) {
                    assert(fs[f.len() as int] == last);
                }
            }
        }
        if !f.contains(s.last().path) {
            let g = f.push(s.last().path);
            assert forall|i: int, j: int| 0 <= i < g.len() && 0 <= j < g.len() && i != j implies g[i]
                != g[j] by {
                if i == g.len() - 1 {
                    assert(f.contains(f[j]));
                } else if j == g.len() - 1 {
                    assert(f.contains(f[i]));
                }
            }
        }
    }
}

proof fn lemma_with_path_push(d: Seq<LogEntryView>, e: LogEntryView, p: Seq<char>)
    ensures
        with_path(d.push(e), p) == (if e.path == p {
            with_path(d, p).push(e)
        } else {
            with_path(d, p)
        }),
{
    d.lemma_filter_push(e, |x: LogEntryView| x.path == p);
}

proof fn lemma_groups_cover(s: Seq<LogEntryView>)
    ensures
        groups_of(first_paths(s), s).flatten_alt().to_multiset() =~= s.to_multiset(),
    decreases s.len(),
{
    broadcast use vstd::seq_lib::group_to_multiset_ensures;

    if s.len() == 0 {
        assert(groups_of(first_paths(s), s) =~= Seq::<Seq<LogEntryView>>::empty());
    } else {
        let d = s.drop_last();
        let e = s.last();
        assert(s =~= d.push(e));
        lemma_groups_cover(d);
        lemma_first_paths(d);
        let f = first_paths(d);
        let xd = groups_of(f, d);
        let xs = groups_of(f, s);
        assert forall|i: int| 0 <= i < f.len() implies #[trigger] xs[i] == (if f[i] == e.path {
            xd[i].push(e)
        } else {
            xd[i]
        }) by {
            lemma_with_path_push(d, e, f[i]);
        }
        if f.contains(e.path) {
            let k = choose|k: int| 0 <= k < f.len() && f[k] == e.path;
            assert forall|i: int| 0 <= i < f.len() && i != k implies xs[i] == xd[i] by {
                if f[i] == e.path {
                    assert(f[i] == f[k]);
                }
            }
            lemma_flatten_ms_one_more(xd, xs, k, e);
            assert(first_paths(s) == f);
        } else {
            assert(first_paths(s) == f.push(e.path));
            assert forall|i: int| 0 <= i < f.len() implies xs[i] == xd[i] by {
                assert(f.contains(f[i]));
            }
            assert(xs =~= xd);
            assert(with_path(d, e.path) =~= Seq::<LogEntryView>::empty()) by {
                if with_path(d, e.path).len() > 0 {
                    let x = with_path(d, e.path)[0];
                    assert(with_path(d, e.path).contains(x));
                    d.lemma_filter_contains_rev(|y: LogEntryView| y.path == e.path, x);
                    let i = choose|i: int| 0 <= i < d.len() && d[i] == x;
                    assert(x.path == e.path) by {
                        d.lemma_filter_pred(|y: LogEntryView| y.path == e.path, 0);
                    }
                    assert(f.contains(e.path));
                }
            }
            lemma_with_path_push(d, e, e.path);
            let g = groups_of(f.push(e.path), s);
            assert(g =~= xs.push(seq![e])) by {
                assert(with_path(s, e.path) =~= seq![e]);
            }
            vstd::seq_lib::lemma_multiset_commutative(xs.flatten_alt(), seq![e]);
            assert(g.drop_last() =~= xs);
            assert(seq![e] =~= Seq::<LogEntryView>::empty().push(e));
        }
    }
}

/// Replaying the log's entries loses none and adds none: the replay order
/// holds each entry as often as the log does.
pub proof fn lemma_replay_order_permutes(s: Seq<LogEntryView>)
    ensures
        replay_order(s).to_multiset() =~= s.to_multiset(),
{
    let f = first_paths(s);
    let x = groups_of(f, s);
    let y = f.map_values(|p: Seq<char>| sort_by_version(with_path(s, p)));
    assert forall|i: int| 0 <= i < x.len() implies (#[trigger] x[i]).to_multiset()
        == y[i].to_multiset() by {
        lemma_sort_by_version_ms(with_path(s, f[i]));
    }
    lemma_flatten_ms_pointwise(x, y);
    lemma_groups_cover(s);
}

fn copy_entry(e: &LogEntry) -> (r: LogEntry)
    ensures
        r@ == e@,
{
    LogEntry { path: e.path.clone(), full_path: e.full_path.clone(), version: e.version.clone() }
}

fn distinct_paths(entries: &Vec<LogEntry>) -> (r: Vec<String>)
    ensures
        views(r@) == first_paths(entry_views(entries@)),
{
    let ghost es = entry_views(entries@);
    let mut r: Vec<String> = Vec::new();
    let mut i: usize = 0;
    while i < entries.len()
        invariant
            i <= entries@.len(),
            es == entry_views(entries@),
            views(r@) == first_paths(es.take(i as int)),
        decreases entries.len() - i,
    {
        assert(es.take(i + 1).drop_last() =~= es.take(i as int));
        assert(es.take(i + 1).last() == entries@[i as int]@);
        if !crate::text::contains_str(&r, entries[i].path.as_str()) {
            let ghost before = views(r@);
            r.push(entries[i].path.clone());
            assert(views(r@) =~= before.push(entries@[i as int].path@));
        }
        i += 1;
    }
    assert(es.take(es.len() as int) =~= es);
    r
}

fn entries_with_path(entries: &Vec<LogEntry>, p: &str) -> (r: Vec<LogEntry>)
    ensures
        entry_views(r@) == with_path(entry_views(entries@), p@),
{
    let ghost es = entry_views(entries@);
    let ghost pred = |e: LogEntryView| e.path == p@;
    let mut r: Vec<LogEntry> = Vec::new();
    let mut i: usize = 0;
    while i < entries.len()
        invariant
            i <= entries@.len(),
            es == entry_views(entries@),
            pred == (|e: LogEntryView| e.path == p@),
            entry_views(r@) == es.take(i as int).filter(pred),
        decreases entries.len() - i,
    {
        assert(es[i as int] == entries@[i as int]@);
        proof {
            es.take(i as int).lemma_filter_push(es[i as int], pred);
            assert(es.take(i + 1) =~= es.take(i as int).push(es[i as int]));
        }
        if crate::text::str_eq(entries[i].path.as_str(), p) {
            let ghost before = entry_views(r@);
            r.push(copy_entry(&entries[i]));
            assert(entry_views(r@) =~= before.push(es[i as int]));
        }
        i += 1;
    }
    assert(es.take(es.len() as int) =~= es);
    r
}

proof fn lemma_insert_split(s: Seq<LogEntryView>, e: LogEntryView, j: int)
    requires
        0 < j <= s.len(),
        version_less(e.version, s[j - 1].version),
    ensures
        insert_by_version(s.take(j), e) == insert_by_version(s.take(j - 1), e).push(s[j - 1]),
{
    assert(s.take(j).drop_last() =~= s.take(j - 1));
}

fn insert_entry(sorted: &mut Vec<LogEntry>, e: LogEntry)
    ensures
        entry_views(final(sorted)@) == insert_by_version(entry_views(old(sorted)@), e@),
{
    let ghost s = entry_views(sorted@);
    let mut j: usize = sorted.len();
    assert(s.take(j as int) =~= s);
    assert(s.skip(j as int) =~= Seq::<LogEntryView>::empty());
    while j > 0 && version_precedes(e.version.as_str(), sorted[j - 1].version.as_str())
        invariant
            j <= sorted@.len(),
            s == entry_views(sorted@),
            sorted@ == old(sorted)@,
            insert_by_version(s, e@) == insert_by_version(s.take(j as int), e@) + s.skip(j as int),
        decreases j,
    {
        proof {
            assert(s[j - 1] == sorted@[j - 1]@);
            lemma_insert_split(s, e@, j as int);
            assert(seq![s[j - 1]] + s.skip(j as int) =~= s.skip(j - 1));
            assert(insert_by_version(s.take(j - 1), e@).push(s[j - 1]) + s.skip(j as int)
                =~= insert_by_version(s.take(j - 1), e@) + s.skip(j - 1));
        }
        j -= 1;
    }
    proof {
        if j > 0 {
            assert(s[j - 1] == sorted@[j - 1]@);
            assert(s.take(j as int).drop_last() =~= s.take(j - 1));
            assert(s.take(j as int).last() == s[j - 1]);
        }
    }
    let ghost ev = e@;
    sorted.insert(j, e);
    assert(entry_views(sorted@) =~= s.take(j as int).push(ev) + s.skip(j as int));
}

fn sort_entries(v: &Vec<LogEntry>) -> (r: Vec<LogEntry>)
    ensures
        entry_views(r@) == sort_by_version(entry_views(v@)),
{
    let ghost es = entry_views(v@);
    let mut r: Vec<LogEntry> = Vec::new();
    let mut i: usize = 0;
    while i < v.len()
        invariant
            i <= v@.len(),
            es == entry_views(v@),
            entry_views(r@) == sort_by_version(es.take(i as int)),
        decreases v.len() - i,
    {
        assert(es.take(i + 1).drop_last() =~= es.take(i as int));
        assert(es.take(i + 1).last() == v@[i as int]@);
        insert_entry(&mut r, copy_entry(&v[i]));
        i += 1;
    }
    assert(es.take(es.len() as int) =~= es);
    r
}

/// Puts the entries read from the log in the order they are replayed:
/// grouped by crate directory, groups in order of first appearance, each
/// group stably sorted by version.
pub fn replay_order_of(entries: &Vec<LogEntry>) -> (r: Vec<LogEntry>)
    ensures
        entry_views(r@) == replay_order(entry_views(entries@)),
        entry_views(r@).to_multiset() == entry_views(entries@).to_multiset(),
{
    proof {
        lemma_replay_order_permutes(entry_views(entries@));
    }
    let ghost es = entry_views(entries@);
    let ghost g = |p: Seq<char>| sort_by_version(with_path(es, p));
    let paths = distinct_paths(entries);
    let ghost ps = views(paths@);
    let mut r: Vec<LogEntry> = Vec::new();
    let mut i: usize = 0;
    while i < paths.len()
        invariant
            i <= paths@.len(),
            es == entry_views(entries@),
            ps == views(paths@),
            ps == first_paths(es),
            g == (|p: Seq<char>| sort_by_version(with_path(es, p))),
            entry_views(r@) == ps.take(i as int).map_values(g).flatten_alt(),
        decreases paths.len() - i,
    {
        let group = entries_with_path(entries, paths[i].as_str());
        let sorted = sort_entries(&group);
        assert(ps[i as int] == paths@[i as int]@);
        assert(ps.take(i + 1).map_values(g).drop_last() =~= ps.take(i as int).map_values(g));
        assert(ps.take(i + 1).map_values(g).last() == g(ps[i as int]));
        let ghost before = entry_views(r@);
        let mut k: usize = 0;
        while k < sorted.len()
            invariant
                k <= sorted@.len(),
                entry_views(r@) == before + entry_views(sorted@).take(k as int),
            decreases sorted.len() - k,
        {
            let ghost prev = entry_views(r@);
            r.push(copy_entry(&sorted[k]));
            assert(entry_views(r@) =~= prev.push(sorted@[k as int]@));
            assert(entry_views(sorted@)[k as int] == sorted@[k as int]@);
            assert(entry_views(sorted@).take(k + 1) =~= entry_views(sorted@).take(k as int).push(
                sorted@[k as int]@,
            ));
            assert(entry_views(r@) =~= before + entry_views(sorted@).take(k + 1));
            k += 1;
        }
        assert(entry_views(sorted@).take(k as int) =~= entry_views(sorted@));
        i += 1;
    }
    assert(ps.take(ps.len() as int) =~= ps);
    r
}


/// What `url::Url::parse` of `base`, then `Url::set_path` with `path`,
/// gives: the URL's text (`Url::as_str`) and its path (`Url::path`); none
/// when `base` does not parse.
pub uninterp spec fn url_with_path_of(base: Seq<char>, path: Seq<char>) -> Option<(Seq<char>, Seq<char>)>;

/// The view of an optional pair of texts.
pub open spec fn opt_pair_view(x: Option<(String, String)>) -> Option<(Seq<char>, Seq<char>)> {
    match x {
        Some((a, b)) => Some((a@, b@)),
        None => None,
    }
}

/// Parses `base` with `url::Url::parse`, sets its path with
/// `Url::set_path` and returns the URL's text and path; what comes back is
/// the name `url_with_path_of` (how the URL normalises them is the url
/// crate's and is not stated here).
#[verifier::external_body]
fn url_with_path(base: &str, path: &str) -> (r: Option<(String, String)>)
    ensures
        opt_pair_view(r) == url_with_path_of(base@, path@),
{
    match url::Url::parse(base) {
        Ok(mut u) => {
            u.set_path(path);
            Some((u.as_str().to_string(), u.path().to_string()))
        },
        Err(_) => None,
    }
}

/// The path a crate's repository has on the monorepo server.
pub open spec fn mono_path(crate_name: Seq<char>) -> Seq<char> {
    "/third-part/crates/"@ + crate_name
}

/// The remote a crate's repository is pushed to: the server's URL with
/// the crate's path, as text, and the path the URL ends up with (kept in
/// the sync record); none when the server URL does not parse.
pub fn mono_remote(base: &str, crate_name: &str) -> (r: Option<(String, String)>)
    ensures
        opt_pair_view(r) == url_with_path_of(base@, mono_path(crate_name@)),
{
    let mut path = "/third-part/crates/".to_owned();
    path.append(crate_name);
    url_with_path(base, path.as_str())
}


/// The lines a log gained since it held `seen` lines: those after the
/// first `seen`; none when it holds no more.
pub open spec fn lines_after_of(lines: Seq<Seq<char>>, seen: nat) -> Seq<Seq<char>> {
    if seen <= lines.len() {
        lines.skip(seen as int)
    } else {
        Seq::empty()
    }
}

/// The lines a log gained since it held `seen` lines, where a round of
/// the mirror resumes reading.
pub fn lines_after(lines: &Vec<String>, seen: usize) -> (r: Vec<String>)
    ensures
        views(r@) == lines_after_of(views(lines@), seen as nat),
{
    let mut out: Vec<String> = Vec::new();
    if seen >= lines.len() {
        assert(views(out@) =~= lines_after_of(views(lines@), seen as nat));
        return out;
    }
    let mut i: usize = seen;
    while i < lines.len()
        invariant
            seen <= i <= lines@.len(),
            views(out@) == views(lines@).subrange(seen as int, i as int),
        decreases lines.len() - i,
    {
        let ghost before = views(out@);
        out.push(lines[i].clone());
        assert(views(lines@)[i as int] == lines@[i as int]@);
        assert(views(out@) =~= before.push(lines@[i as int]@));
        assert(views(out@) =~= views(lines@).subrange(seen as int, i + 1));
        i += 1;
    }
    assert(views(out@) =~= views(lines@).skip(seen as int));
    out
}

} // verus!
