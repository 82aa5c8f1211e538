use vstd::prelude::*;
use crate::github::opt_view;
use crate::paths::{join_path, joined};
use crate::text::{contains_text, has_substring, remove_all, remove_text, split_by, split_on, views};

verus! {

/// The path `url::Url::parse` finds in a text, if it parses as a URL.
pub uninterp spec fn url_path_of(text: Seq<char>) -> Option<Seq<char>>;

/// Calls `url::Url::parse` on the text and, when it parses, `Url::path`
/// on the result; what comes back is the name `url_path_of`.
#[verifier::external_body]
fn parse_url_path(text: &str) -> (r: Option<String>)
    ensures
        opt_view(r) == url_path_of(text@),
{
    match url::Url::parse(text) {
        Ok(u) => Some(u.path().to_string()),
        Err(_) => None,
    }
}

/// The URL a line of a clone script names: the line without `git clone `.
pub open spec fn script_url(line: Seq<char>) -> Seq<char> {
    remove_all(line, "git clone "@)
}

/// The owner and repository a clone-script line names: the second and
/// third `/`-separated pieces of its URL's path; none when the URL does not
/// parse or its path has fewer pieces.
pub open spec fn script_owner_repo(line: Seq<char>) -> Option<(Seq<char>, Seq<char>)> {
    match url_path_of(script_url(line)) {
        Some(p) => if split_on(p, '/').len() >= 3 {
            Some((split_on(p, '/')[1], split_on(p, '/')[2]))
        } else {
            None
        },
        None => None,
    }
}

/// The owner and repository in a URL path: its second and third
/// `/`-separated pieces.
pub fn owner_repo_of_path(path: &str) -> (r: (String, String))
    requires
        split_on(path@, '/').len() >= 3,
    ensures
        r.0@ == split_on(path@, '/')[1],
        r.1@ == split_on(path@, '/')[2],
{
    let strs = split_by(path, '/');
    assert(views(strs@)[1] == strs@[1]@);
    assert(views(strs@)[2] == strs@[2]@);
    (strs[1].clone(), strs[2].clone())
}

/// Reads owner and repository from a clone-script line; none where the
/// line's URL does not parse or its path has fewer than three pieces.
pub fn script_owner_repo_of(line: &str) -> (r: Option<(String, String)>)
    ensures
        r is Some <==> script_owner_repo(line@) is Some,
        r matches Some(p) ==> script_owner_repo(line@) == Some((p.0@, p.1@)),
{
    let url = remove_text(line, "git clone ");
    match parse_url_path(url.as_str()) {
        Some(path) => {
            let strs = split_by(path.as_str(), '/');
            if strs.len() >= 3 {
                Some(owner_repo_of_path(path.as_str()))
            } else {
                None
            }
        },
        None => None,
    }
}

/// The command that clones `owner/repo` from GitHub into `owner/repo`.
pub open spec fn clone_command_of(owner: Seq<char>, repo: Seq<char>) -> Seq<char> {
    let c = owner + "/"@ + repo;
    "mkdir -p "@ + c + " && git clone https://github.com/"@ + c + " ./"@ + c
}

/// The command that clones `owner/repo` from GitHub into `owner/repo`.
pub fn clone_command(owner: &str, repo: &str) -> (r: String)
    ensures
        r@ == clone_command_of(owner@, repo@),
{
    let mut c = owner.to_owned();
    c.append("/");
    c.append(repo);
    let mut r = "mkdir -p ".to_owned();
    r.append(c.as_str());
    r.append(" && git clone https://github.com/");
    r.append(c.as_str());
    r.append(" ./");
    r.append(c.as_str());
    r
}

/// Where a repository cloned flat into the work directory moves: from
/// `repo` to `owner/repo`, through `temp/repo`.
pub struct MovePlan {
    pub current: String,
    pub target: String,
    pub temp: String,
}

/// The move of a flat clone of `owner/repo` under `work_dir`.
pub fn move_plan(work_dir: &str, owner: &str, repo: &str) -> (r: MovePlan)
    ensures
        r.current@ == joined(work_dir@, repo@),
        r.target@ == joined(joined(work_dir@, owner@), repo@),
        r.temp@ == joined(joined(work_dir@, "temp"@), repo@),
{
    let owner_dir = join_path(work_dir, owner);
    let temp_dir = join_path(work_dir, "temp");
    MovePlan {
        current: join_path(work_dir, repo),
        target: join_path(owner_dir.as_str(), repo),
        temp: join_path(temp_dir.as_str(), repo),
    }
}

/// Where a repository URL of the top repositories list goes: nowhere for
/// an empty field; else a `git clone` line, for the GitHub list when the
/// URL is on `github.com` and for the Gitee list otherwise.
pub fn origin_entry(git_url: &str) -> (r: Option<(bool, String)>)
    ensures
        git_url@.len() == 0 ==> r is None,
        git_url@.len() > 0 ==> (r matches Some(p) && p.0 == has_substring(git_url@, "github.com"@)
            && p.1@ == "git clone "@ + git_url@),
{
    if crate::text::chars_of(git_url).len() == 0 {
        return None;
    }
    let mut line = "git clone ".to_owned();
    line.append(git_url);
    Some((contains_text(git_url, "github.com"), line))
}

/// The clone command for an owner's repository from the list: none unless
/// both fields are filled.
pub fn owner_clone_command(owner: &str, git_url: &str) -> (r: Option<String>)
    ensures
        (owner@.len() == 0 || git_url@.len() == 0) ==> r is None,
        (owner@.len() > 0 && git_url@.len() > 0) ==> (r matches Some(c) && c@ == "mkdir -p "@
            + owner@ + " && git clone "@ + git_url@ + " ./"@ + owner@),
{
    if crate::text::chars_of(owner).len() == 0 || crate::text::chars_of(git_url).len() == 0 {
        return None;
    }
    let mut c = "mkdir -p ".to_owned();
    c.append(owner);
    c.append(" && git clone ");
    c.append(git_url);
    c.append(" ./");
    c.append(owner);
    Some(c)
}

/// What a crates.io repository field gives: nothing unless it is a
/// `github.com` URL; a line `owner,url` with the first segment of its
/// path as owner; or, for a URL that does not parse or whose path does
/// not start with `/`, nothing that can be read.
pub enum CratesioLine {
    Skipped,
    Line(String),
    Unreadable,
}

/// The owner a crates.io repository URL names: the first `/`-separated
/// piece of its path after the leading `/` (`Url::path_segments`).
pub open spec fn url_owner(git_url: Seq<char>) -> Option<Seq<char>> {
    match url_path_of(git_url) {
        Some(p) => if p.len() > 0 && p[0] == '/' {
            Some(split_on(p.skip(1), '/')[0])
        } else {
            None
        },
        None => None,
    }
}

/// Reads a crates.io repository field.
pub fn cratesio_line(git_url: &str) -> (r: CratesioLine)
    ensures
        (git_url@.len() == 0 || !has_substring(git_url@, "github.com"@)) ==> r is Skipped,
        (git_url@.len() > 0 && has_substring(git_url@, "github.com"@)) ==> match url_owner(
            git_url@,
        ) {
            Some(o) => (r matches CratesioLine::Line(l) && l@ == o + ","@ + git_url@),
            None => r is Unreadable,
        },
{
    if crate::text::chars_of(git_url).len() == 0 || !contains_text(git_url, "github.com") {
        return CratesioLine::Skipped;
    }
    match parse_url_path(git_url) {
        Some(path) => {
            let cs = crate::text::chars_of(path.as_str());
            if cs.len() > 0 && cs[0] == '/' {
                let rest = crate::text::string_of_range(cs.as_slice(), 1, cs.len());
                assert(rest@ =~= path@.skip(1));
                let segs = split_by(rest.as_str(), '/');
                proof {
                    crate::text::lemma_split_on_nonempty(rest@, '/');
                }
                assert(views(segs@)[0] == segs@[0]@);
                let mut l = segs[0].clone();
                l.append(",");
                l.append(git_url);
                CratesioLine::Line(l)
            } else {
                CratesioLine::Unreadable
            }
        },
        None => CratesioLine::Unreadable,
    }
}


/// The records `csv::ReaderBuilder::new()` reads from the bytes, each a
/// sequence of fields, with whether reading stopped at a malformed record.
pub uninterp spec fn csv_records_of(data: Seq<u8>) -> (Seq<Seq<Seq<char>>>, bool);

/// The fields of each record, as text.
pub open spec fn rows_view(rows: Seq<Vec<String>>) -> Seq<Seq<Seq<char>>> {
    rows.map_values(|r: Vec<String>| views(r@))
}

/// Reads the bytes with a default `csv::ReaderBuilder` (the first row is a
/// header and is not returned; every record must have as many fields as
/// the first) and collects `StringRecord`s from `records()` as strings,
/// up to the first record it reports as an error. What comes back is the
/// name `csv_records_of`: how the bytes split into records and fields is
/// the csv crate's and is not stated here.
#[verifier::external_body]
fn csv_records(data: &[u8]) -> (r: (Vec<Vec<String>>, bool))
    ensures
        (rows_view(r.0@), r.1) == csv_records_of(data@),
{
    let mut rdr = csv::ReaderBuilder::new().from_reader(data);
    let mut rows: Vec<Vec<String>> = Vec::new();
    for rec in rdr.records() {
        match rec {
            Ok(fields) => rows.push(fields.iter().map(String::from).collect()),
            Err(_) => return (rows, true),
        }
    }
    (rows, false)
}

/// The field at `i` of a record, or the empty text where it has fewer
/// fields (`StringRecord::get` with `unwrap_or("")`).
pub open spec fn field_of(row: Seq<Seq<char>>, i: int) -> Seq<char> {
    if 0 <= i < row.len() {
        row[i]
    } else {
        Seq::<char>::empty()
    }
}

/// The field at `i` of a record, or the empty text.
pub fn record_field(row: &Vec<String>, i: usize) -> (r: String)
    ensures
        r@ == field_of(views(row@), i as int),
{
    if i < row.len() {
        row[i].clone()
    } else {
        String::new()
    }
}

/// The clone lines of the top repositories list, GitHub's and Gitee's:
/// `git clone` and the first field of each record whose first field is
/// filled, on the GitHub list when it names `github.com`.
pub open spec fn origin_split(rows: Seq<Seq<Seq<char>>>) -> (Seq<Seq<char>>, Seq<Seq<char>>)
    decreases rows.len(),
{
    if rows.len() == 0 {
        (Seq::empty(), Seq::empty())
    } else {
        let (g, e) = origin_split(rows.drop_last());
        let u = field_of(rows.last(), 0);
        if u.len() == 0 {
            (g, e)
        } else if has_substring(u, "github.com"@) {
            (g.push("git clone "@ + u), e)
        } else {
            (g, e.push("git clone "@ + u))
        }
    }
}

/// Splits the records of the top repositories list into the GitHub and
/// the Gitee clone lines.
pub fn origin_lists(rows: &Vec<Vec<String>>) -> (r: (Vec<String>, Vec<String>))
    ensures
        (views(r.0@), views(r.1@)) == origin_split(rows_view(rows@)),
{
    let mut github: Vec<String> = Vec::new();
    let mut gitee: Vec<String> = Vec::new();
    let mut i: usize = 0;
    while i < rows.len()
        invariant
            i <= rows.len(),
            (views(github@), views(gitee@)) == origin_split(rows_view(rows@).take(i as int)),
        decreases rows.len() - i,
    {
        proof {
            assert(rows_view(rows@).take(i + 1).drop_last() =~= rows_view(rows@).take(i as int));
        }
        let u = record_field(&rows[i], 0);
        match origin_entry(u.as_str()) {
            Some((on_github, line)) => {
                let ghost g0 = github@;
                let ghost e0 = gitee@;
                if on_github {
                    github.push(line);
                    assert(views(github@) =~= views(g0).push(line@));
                } else {
                    gitee.push(line);
                    assert(views(gitee@) =~= views(e0).push(line@));
                }
            },
            None => {},
        }
        i += 1;
    }
    assert(rows_view(rows@).take(rows.len() as int) =~= rows_view(rows@));
    (github, gitee)
}


/// The clone commands of the owners list: one per record whose first
/// (owner) and third (URL) fields are both filled.
pub open spec fn owner_commands(rows: Seq<Seq<Seq<char>>>) -> Seq<Seq<char>>
    decreases rows.len(),
{
    if rows.len() == 0 {
        Seq::empty()
    } else {
        let c = owner_commands(rows.drop_last());
        let o = field_of(rows.last(), 0);
        let g = field_of(rows.last(), 2);
        if o.len() == 0 || g.len() == 0 {
            c
        } else {
            c.push("mkdir -p "@ + o + " && git clone "@ + g + " ./"@ + o)
        }
    }
}

/// The clone commands of the owners list's records.
pub fn owner_clone_commands(rows: &Vec<Vec<String>>) -> (r: Vec<String>)
    ensures
        views(r@) == owner_commands(rows_view(rows@)),
{
    let mut out: Vec<String> = Vec::new();
    let mut i: usize = 0;
    while i < rows.len()
        invariant
            i <= rows.len(),
            views(out@) == owner_commands(rows_view(rows@).take(i as int)),
        decreases rows.len() - i,
    {
        proof {
            assert(rows_view(rows@).take(i + 1).drop_last() =~= rows_view(rows@).take(i as int));
        }
        let o = record_field(&rows[i], 0);
        let g = record_field(&rows[i], 2);
        let ghost c0 = out@;
        match owner_clone_command(o.as_str(), g.as_str()) {
            Some(c) => {
                out.push(c);
                assert(views(out@) =~= views(c0).push(c@));
            },
            None => {},
        }
        i += 1;
    }
    assert(rows_view(rows@).take(rows.len() as int) =~= rows_view(rows@));
    out
}

/// The `owner,url` lines of the crates.io dump's records (repository URL
/// in the tenth field), up to the first GitHub URL whose owner cannot be
/// read; the flag says whether such a URL stopped the lines.
pub open spec fn cratesio_out(rows: Seq<Seq<Seq<char>>>) -> (Seq<Seq<char>>, bool)
    decreases rows.len(),
{
    if rows.len() == 0 {
        (Seq::empty(), false)
    } else {
        let (ls, stopped) = cratesio_out(rows.drop_last());
        let u = field_of(rows.last(), 9);
        if stopped || u.len() == 0 || !has_substring(u, "github.com"@) {
            (ls, stopped)
        } else {
            match url_owner(u) {
                Some(o) => (ls.push(o + ","@ + u), false),
                None => (ls, true),
            }
        }
    }
}

/// The `owner,url` lines of the crates.io dump's records, and whether an
/// unreadable GitHub URL stopped them.
pub fn cratesio_lines(rows: &Vec<Vec<String>>) -> (r: (Vec<String>, bool))
    ensures
        (views(r.0@), r.1) == cratesio_out(rows_view(rows@)),
{
    let mut out: Vec<String> = Vec::new();
    let mut stopped = false;
    let mut i: usize = 0;
    while i < rows.len()
        invariant
            i <= rows.len(),
            (views(out@), stopped) == cratesio_out(rows_view(rows@).take(i as int)),
        decreases rows.len() - i,
    {
        proof {
            assert(rows_view(rows@).take(i + 1).drop_last() =~= rows_view(rows@).take(i as int));
        }
        if !stopped {
            let u = record_field(&rows[i], 9);
            let ghost c0 = out@;
            match cratesio_line(u.as_str()) {
                CratesioLine::Skipped => {},
                CratesioLine::Line(l) => {
                    out.push(l);
                    assert(views(out@) =~= views(c0).push(l@));
                },
                CratesioLine::Unreadable => {
                    stopped = true;
                },
            }
        }
        i += 1;
    }
    assert(rows_view(rows@).take(rows.len() as int) =~= rows_view(rows@));
    (out, stopped)
}

/// The GitHub and Gitee clone lines of the top repositories list in CSV,
/// and whether a malformed record stopped the reading.
pub fn convert_origin_csv(data: &[u8]) -> (r: (Vec<String>, Vec<String>, bool))
    ensures
        (views(r.0@), views(r.1@)) == origin_split(csv_records_of(data@).0),
        r.2 == csv_records_of(data@).1,
{
    let (rows, failed) = csv_records(data);
    let (github, gitee) = origin_lists(&rows);
    (github, gitee, failed)
}

/// The clone commands of the owners list in CSV, and whether a malformed
/// record stopped the reading.
pub fn convert0817_csv(data: &[u8]) -> (r: (Vec<String>, bool))
    ensures
        views(r.0@) == owner_commands(csv_records_of(data@).0),
        r.1 == csv_records_of(data@).1,
{
    let (rows, failed) = csv_records(data);
    (owner_clone_commands(&rows), failed)
}

/// The `owner,url` lines of the crates.io dump in CSV, and whether they
/// stopped early, at a malformed record or at a GitHub URL whose owner
/// cannot be read.
pub fn convert_cratesio_lines(data: &[u8]) -> (r: (Vec<String>, bool))
    ensures
        views(r.0@) == cratesio_out(csv_records_of(data@).0).0,
        r.1 == (csv_records_of(data@).1 || cratesio_out(csv_records_of(data@).0).1),
{
    let (rows, failed) = csv_records(data);
    let (lines, stopped) = cratesio_lines(&rows);
    (lines, failed || stopped)
}

} // verus!
