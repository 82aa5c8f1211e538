use vstd::prelude::*;
use crate::paths::{join_path, joined};
use crate::text::{
    chars_of, join_by, join_with, lines_of_text, push_char, split_by, split_on, starts_with,
    starts_with_text, string_of, text_lines, trim, trim_chars, views,
};

verus! {

/// A repository URL without one trailing `/` and then without one trailing
/// `.git`.
pub open spec fn without_git_suffix(u: Seq<char>) -> Seq<char> {
    let a = if u.len() > 0 && u.last() == '/' {
        u.drop_last()
    } else {
        u
    };
    if a.len() >= 4 && a.skip(a.len() - 4) == ".git"@ {
        a.take(a.len() - 4)
    } else {
        a
    }
}

/// The namespace (`owner/repo`) a repository URL names: its last two
/// `/`-separated segments once the suffix is gone; none when it has no
/// `/`.
pub open spec fn namespace_of(url: Seq<char>) -> Option<Seq<char>> {
    let segs = split_on(without_git_suffix(url), '/');
    if segs.len() < 2 {
        None
    } else {
        Some(segs[segs.len() - 2] + "/"@ + segs[segs.len() - 1])
    }
}

/// The error for a URL that names no namespace.
pub open spec fn no_namespace_message(url: Seq<char>) -> Seq<char> {
    "URL "@ + url + " does not include a namespace and a repository name"@
}

fn strip_git_suffix(url: &str) -> (r: String)
    ensures
        r@ == without_git_suffix(url@),
{
    let cs = chars_of(url);
    let mut end: usize = cs.len();
    if end > 0 && cs[end - 1] == '/' {
        end -= 1;
    }
    let ghost a = cs@.take(end as int);
    assert(a == (if url@.len() > 0 && url@.last() == '/' {
        url@.drop_last()
    } else {
        url@
    })) by {
        if url@.len() > 0 && url@.last() == '/' {
            assert(cs@.take(end as int) =~= url@.drop_last());
        } else {
            assert(cs@.take(end as int) =~= url@);
        }
    }
    if end >= 4 && cs[end - 4] == '.' && cs[end - 3] == 'g' && cs[end - 2] == 'i' && cs[end - 1]
        == 't' {
        proof {
            reveal_strlit(".git");
            assert(a.skip(a.len() - 4) =~= ".git"@);
            assert(cs@.subrange(0, end - 4) =~= a.take(a.len() - 4));
        }
        string_of_range_of(&cs, end - 4)
    } else {
        proof {
            reveal_strlit(".git");
            if a.len() >= 4 && a.skip(a.len() - 4) == ".git"@ {
                assert(a.skip(a.len() - 4)[0] == cs@[end - 4]);
                assert(a.skip(a.len() - 4)[1] == cs@[end - 3]);
                assert(a.skip(a.len() - 4)[2] == cs@[end - 2]);
                assert(a.skip(a.len() - 4)[3] == cs@[end - 1]);
            }
            assert(cs@.subrange(0, end as int) =~= a);
        }
        string_of_range_of(&cs, end)
    }
}

fn string_of_range_of(cs: &Vec<char>, to: usize) -> (s: String)
    requires
        to <= cs@.len(),
    ensures
        s@ == cs@.subrange(0, to as int),
{
    crate::text::string_of_range(cs.as_slice(), 0, to)
}

/// The namespace (`owner/repo`) of a repository URL, or the error that it
/// names none.
pub fn extract_namespace(url_str: &str) -> (r: Result<String, String>)
    ensures
        namespace_of(url_str@) matches Some(ns) ==> (r matches Ok(s) && s@ == ns),
        namespace_of(url_str@) is None ==> (r matches Err(e) && e@ == no_namespace_message(
            url_str@,
        )),
{
    let url = strip_git_suffix(url_str);
    let segments = split_by(url.as_str(), '/');
    if segments.len() < 2 {
        let mut e = "URL ".to_owned();
        e.append(url_str);
        e.append(" does not include a namespace and a repository name");
        return Err(e);
    }
    let n = segments.len();
    let mut ns = segments[n - 2].clone();
    push_char(&mut ns, '/');
    ns.append(segments[n - 1].as_str());
    proof {
        reveal_strlit("/");
        assert(views(segments@)[n - 2] == segments@[n - 2]@);
        assert(views(segments@)[n - 1] == segments@[n - 1]@);
    }
    assert(ns@ =~= segments@[n - 2]@ + "/"@ + segments@[n - 1]@);
    Ok(ns)
}

/// Whether a repository URL names a namespace.
pub fn namespace_of_text(url: &str) -> (r: bool)
    ensures
        r == (namespace_of(url@) is Some),
{
    extract_namespace(url).is_ok()
}

/// Where a crate's code is checked out: the namespace under `base`, and
/// below it `name-version` when a version is given.
pub open spec fn repo_path_for(
    base: Seq<char>,
    ns: Seq<char>,
    name: Seq<char>,
    version: Option<Seq<char>>,
) -> Seq<char> {
    match version {
        Some(v) => joined(joined(base, ns), name + "-"@ + v),
        None => joined(base, ns),
    }
}

/// The namespace of a repository URL and where the crate's code is checked
/// out under `base_path`.
pub fn extract_namespace_and_path(url: &str, base_path: &str, name: &str, version: Option<&str>) -> (r: (
    String,
    String,
))
    requires
        namespace_of(url@) is Some,
    ensures
        r.0@ == namespace_of(url@)->0,
        version matches Some(v) ==> r.1@ == repo_path_for(base_path@, r.0@, name@, Some(v@)),
        version is None ==> r.1@ == repo_path_for(base_path@, r.0@, name@, None),
{
    let namespace = match extract_namespace(url) {
        Ok(ns) => ns,
        Err(_) => {
            assert(false);
            String::new()
        },
    };
    let under = join_path(base_path, namespace.as_str());
    match version {
        Some(ver) => {
            let mut leaf = name.to_owned();
            push_char(&mut leaf, '-');
            leaf.append(ver);
            proof {
                reveal_strlit("-");
            }
            assert(leaf@ =~= name@ + "-"@ + ver@);
            let path = join_path(under.as_str(), leaf.as_str());
            (namespace, path)
        },
        None => (namespace, under),
    }
}

/// The text that opens a MirChecker warning.
pub open spec fn warning_mark() -> Seq<char> {
    "warning: [MirChecker]"@
}

/// The text that ends a MirChecker warning.
pub open spec fn info_mark() -> Seq<char> {
    " INFO"@
}

/// One line of MirChecker's standard error read into the scan state
/// (blocks found, block being read, whether one is being read): a warning
/// line closes the open block and opens a new one; inside a block an
/// ` INFO` line closes it and any other line joins it; outside a block
/// other lines are skipped. Each line joins a block with a `\n` after it.
pub open spec fn scan_step(st: (Seq<Seq<char>>, Seq<char>, bool), line: Seq<char>) -> (
    Seq<Seq<char>>,
    Seq<char>,
    bool,
) {
    let (blocks, cur, open) = st;
    if starts_with(line, warning_mark()) {
        (
            if open && cur.len() > 0 {
                blocks.push(cur)
            } else {
                blocks
            },
            line.push('\n'),
            true,
        )
    } else if open {
        if starts_with(line, info_mark()) {
            (
                if cur.len() > 0 {
                    blocks.push(cur)
                } else {
                    blocks
                },
                Seq::empty(),
                false,
            )
        } else {
            (blocks, cur + line.push('\n'), true)
        }
    } else {
        st
    }
}

/// The scan state after the lines, in order.
pub open spec fn scan_lines(lines: Seq<Seq<char>>) -> (Seq<Seq<char>>, Seq<char>, bool)
    decreases lines.len(),
{
    if lines.len() == 0 {
        (Seq::empty(), Seq::empty(), false)
    } else {
        scan_step(scan_lines(lines.drop_last()), lines.last())
    }
}

/// The warning blocks of MirChecker's standard error: those the scan
/// closed, and the one still open at the end.
pub open spec fn warning_blocks_of(text: Seq<char>) -> Seq<Seq<char>> {
    let (blocks, cur, open) = scan_lines(text_lines(text));
    if open && cur.len() > 0 {
        blocks.push(cur)
    } else {
        blocks
    }
}

/// A warning block: it opens with the warning mark and ends with `\n`.
pub open spec fn well_formed_block(b: Seq<char>) -> bool {
    starts_with(b, warning_mark()) && b.len() > 0 && b.last() == '\n'
}

proof fn lemma_scan_blocks(lines: Seq<Seq<char>>)
    ensures
        ({
            let (blocks, cur, open) = scan_lines(lines);
            &&& forall|i: int| 0 <= i < blocks.len() ==> well_formed_block(#[trigger] blocks[i])
            &&& open ==> well_formed_block(cur)
        }),
    decreases lines.len(),
{
    if lines.len() > 0 {
        lemma_scan_blocks(lines.drop_last());
        let (blocks, cur, open) = scan_lines(lines.drop_last());
        let line = lines.last();
        if starts_with(line, warning_mark()) {
            let c = line.push('\n');
            assert(c.take(warning_mark().len() as int) =~= line.take(warning_mark().len() as int));
        } else if open && !starts_with(line, info_mark()) {
            let c = cur + line.push('\n');
            assert(c.take(warning_mark().len() as int) =~= cur.take(warning_mark().len() as int));
        }
    }
}

fn scan_line(blocks: &mut Vec<String>, cur: &mut String, open: &mut bool, line: &str)
    ensures
        (views(final(blocks)@), final(cur)@, *final(open)) == scan_step(
            (views(old(blocks)@), old(cur)@, *old(open)),
            line@,
        ),
{
    if starts_with_text(line, "warning: [MirChecker]") {
        if *open && !cur.as_str().is_empty() {
            let ghost before = views(blocks@);
            blocks.push(cur.clone());
            assert(views(blocks@) =~= before.push(old(cur)@));
        }
        *open = true;
        let mut c = line.to_owned();
        push_char(&mut c, '\n');
        *cur = c;
    } else if *open {
        if starts_with_text(line, " INFO") {
            if !cur.as_str().is_empty() {
                let ghost before = views(blocks@);
                blocks.push(cur.clone());
                assert(views(blocks@) =~= before.push(old(cur)@));
            }
            *cur = String::new();
            *open = false;
        } else {
            cur.append(line);
            push_char(cur, '\n');
            assert(cur@ =~= old(cur)@ + line@.push('\n'));
        }
    }
}

/// The MirChecker warning blocks in one entry's standard error, in order;
/// each opens with the warning mark and ends with `\n`.
pub fn warning_blocks(stderr: &str) -> (r: Vec<String>)
    ensures
        views(r@) == warning_blocks_of(stderr@),
        forall|i: int| 0 <= i < r@.len() ==> well_formed_block(#[trigger] r@[i]@),
{
    let lines = lines_of_text(stderr);
    let ghost ls = views(lines@);
    let mut blocks: Vec<String> = Vec::new();
    let mut cur = String::new();
    let mut open = false;
    let mut i: usize = 0;
    while i < lines.len()
        invariant
            i <= lines@.len(),
            ls == views(lines@),
            ls == text_lines(stderr@),
            (views(blocks@), cur@, open) == scan_lines(ls.take(i as int)),
        decreases lines.len() - i,
    {
        assert(ls.take(i + 1).drop_last() =~= ls.take(i as int));
        assert(ls.take(i + 1).last() == lines@[i as int]@);
        scan_line(&mut blocks, &mut cur, &mut open, lines[i].as_str());
        i += 1;
    }
    assert(ls.take(ls.len() as int) =~= ls);
    if open && !cur.as_str().is_empty() {
        let ghost before = views(blocks@);
        blocks.push(cur);
        assert(views(blocks@) =~= before.push(scan_lines(ls).1));
    }
    proof {
        lemma_scan_blocks(ls);
        assert forall|k: int| 0 <= k < blocks@.len() implies well_formed_block(
            #[trigger] blocks@[k]@,
        ) by {
            assert(views(blocks@)[k] == blocks@[k]@);
            let (b, c, o) = scan_lines(ls);
            assert(views(blocks@) == warning_blocks_of(stderr@));
            if k < b.len() {
                assert(views(blocks@)[k] == b[k]);
            } else {
                assert(o && c.len() > 0);
                assert(views(blocks@)[k] == c);
            }
        }
    }
    blocks
}

/// The warnings of one entry: its warning blocks joined by `\n`.
pub open spec fn entry_warning_text(stderr: Seq<char>) -> Seq<char> {
    join_with(warning_blocks_of(stderr), '\n')
}

/// The warnings MirChecker printed for one entry.
pub fn entry_warnings(stderr: &str) -> (r: String)
    ensures
        r@ == entry_warning_text(stderr@),
{
    let blocks = warning_blocks(stderr);
    join_by(&blocks, '\n')
}

/// The result stored for a MirChecker run: the warnings of each entry that
/// has any, joined by `\n`, entries in order.
pub open spec fn mirchecker_result(stderrs: Seq<Seq<char>>) -> Seq<char> {
    join_with(
        stderrs.map_values(|s: Seq<char>| entry_warning_text(s)).filter(
            |w: Seq<char>| w.len() > 0,
        ),
        '\n',
    )
}

/// Builds the stored result from the standard error of each entry's run.
pub fn mirchecker_report(stderrs: &Vec<String>) -> (r: String)
    ensures
        r@ == mirchecker_result(views(stderrs@)),
{
    let ghost ss = views(stderrs@);
    let ghost f = |s: Seq<char>| entry_warning_text(s);
    let ghost pred = |w: Seq<char>| w.len() > 0;
    let mut outs: Vec<String> = Vec::new();
    let mut i: usize = 0;
    while i < stderrs.len()
        invariant
            i <= stderrs@.len(),
            ss == views(stderrs@),
            f == (|s: Seq<char>| entry_warning_text(s)),
            pred == (|w: Seq<char>| w.len() > 0),
            views(outs@) == ss.take(i as int).map_values(f).filter(pred),
        decreases stderrs.len() - i,
    {
        assert(ss[i as int] == stderrs@[i as int]@);
        proof {
            ss.take(i as int).map_values(f).lemma_filter_push(f(ss[i as int]), pred);
            assert(ss.take(i + 1).map_values(f) =~= ss.take(i as int).map_values(f).push(
                f(ss[i as int]),
            ));
        }
        let w = entry_warnings(stderrs[i].as_str());
        if !w.as_str().is_empty() {
            let ghost before = views(outs@);
            outs.push(w);
            assert(views(outs@) =~= before.push(f(ss[i as int])));
        }
        i += 1;
    }
    assert(ss.take(ss.len() as int) =~= ss);
    join_by(&outs, '\n')
}

/// The entries `--show_entries` lists: its non-blank output lines, trimmed.
pub open spec fn listed_entries(stdout: Seq<char>) -> Seq<Seq<char>> {
    text_lines(stdout).filter(|l: Seq<char>| trim(l).len() > 0).map_values(
        |l: Seq<char>| trim(l),
    )
}

/// Reads the entries MirChecker lists.
pub fn mirchecker_entries(stdout: &str) -> (r: Vec<String>)
    ensures
        views(r@) == listed_entries(stdout@),
{
    let lines = lines_of_text(stdout);
    let ghost ls = views(lines@);
    let ghost pred = |l: Seq<char>| trim(l).len() > 0;
    let ghost f = |l: Seq<char>| trim(l);
    let mut r: Vec<String> = Vec::new();
    let mut i: usize = 0;
    while i < lines.len()
        invariant
            i <= lines@.len(),
            ls == views(lines@),
            ls == text_lines(stdout@),
            pred == (|l: Seq<char>| trim(l).len() > 0),
            f == (|l: Seq<char>| trim(l)),
            views(r@) == ls.take(i as int).filter(pred).map_values(f),
        decreases lines.len() - i,
    {
        assert(ls[i as int] == lines@[i as int]@);
        proof {
            ls.take(i as int).lemma_filter_push(ls[i as int], pred);
            assert(ls.take(i + 1) =~= ls.take(i as int).push(ls[i as int]));
        }
        let t = trim_chars(chars_of(lines[i].as_str()).as_slice());
        if t.len() > 0 {
            let ghost before = views(r@);
            r.push(string_of(t.as_slice()));
            assert(views(r@) =~= before.push(f(ls[i as int])));
            assert(ls.take(i + 1).filter(pred).map_values(f) =~= ls.take(i as int).filter(
                pred,
            ).map_values(f).push(f(ls[i as int])));
        }
        i += 1;
    }
    assert(ls.take(ls.len() as int) =~= ls);
    r
}

/// Where a MirChecker job for one crate version works and what its result
/// is stored under.
pub struct MirCheckerJob {
    pub namespace: String,
    pub repo_path: String,
    pub id: String,
}

/// The directory split crate versions are checked out under.
pub open spec fn split_crates_dir() -> Seq<char> {
    "/var/target/split_crates_file"@
}

/// The MirChecker job for a crate version: its namespace, the checkout
/// `namespace/name-version` under the split crates directory, and the id
/// `namespace/name/version`.
pub fn mirchecker_job(git_url: &str, name: &str, version: &str) -> (r: MirCheckerJob)
    requires
        namespace_of(git_url@) is Some,
    ensures
        r.namespace@ == namespace_of(git_url@)->0,
        r.repo_path@ == repo_path_for(split_crates_dir(), r.namespace@, name@, Some(version@)),
        r.id@ == r.namespace@ + "/"@ + name@ + "/"@ + version@,
{
    let (namespace, repo_path) = extract_namespace_and_path(
        git_url,
        "/var/target/split_crates_file",
        name,
        Some(version),
    );
    let mut id = namespace.clone();
    push_char(&mut id, '/');
    id.append(name);
    push_char(&mut id, '/');
    id.append(version);
    proof {
        reveal_strlit("/");
    }
    assert(id@ =~= namespace@ + "/"@ + name@ + "/"@ + version@);
    MirCheckerJob { namespace, repo_path, id }
}

/// Where a secret-scanning job for one crate works and writes.
pub struct SensleakJob {
    pub namespace: String,
    pub repo_path: String,
    pub output_dir: String,
    pub output_file: String,
}

/// The directory new crates are checked out under.
pub open spec fn new_crates_dir() -> Seq<char> {
    "/var/target/new_crates_file"@
}

/// The scanning job for a crate: its namespace, its checkout under the new
/// crates directory, and the report `name.txt` in `tool/namespace` under
/// the output path.
pub fn sensleak_job(mega_url: &str, crate_name: &str, output_path: &str, tool_name: &str) -> (r:
    SensleakJob)
    requires
        namespace_of(mega_url@) is Some,
    ensures
        r.namespace@ == namespace_of(mega_url@)->0,
        r.repo_path@ == repo_path_for(new_crates_dir(), r.namespace@, crate_name@, None),
        r.output_dir@ == joined(joined(output_path@, tool_name@), r.namespace@),
        r.output_file@ == joined(r.output_dir@, crate_name@ + ".txt"@),
{
    let (namespace, repo_path) = extract_namespace_and_path(
        mega_url,
        "/var/target/new_crates_file",
        crate_name,
        None,
    );
    let tool_dir = join_path(output_path, tool_name);
    let output_dir = join_path(tool_dir.as_str(), namespace.as_str());
    let mut file = crate_name.to_owned();
    file.append(".txt");
    let output_file = join_path(output_dir.as_str(), file.as_str());
    SensleakJob { namespace, repo_path, output_dir, output_file }
}

} // verus!
