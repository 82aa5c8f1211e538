use vstd::prelude::*;
use crate::text::{
    chars_of, leading_space, lines_of_text, split_by, split_on, starts_with, str_eq, string_of,
    text_lines, trim, trim_chars, trim_start, views,
};

verus! {

/// The HTTPS clone URL of a GitHub repository.
pub open spec fn clone_url_of(owner: Seq<char>, repo: Seq<char>) -> Seq<char> {
    "https://github.com/"@ + owner + "/"@ + repo + ".git"@
}

/// The HTTPS clone URL of a GitHub repository.
pub fn clone_url(owner: &str, repo: &str) -> (r: String)
    ensures
        r@ == clone_url_of(owner@, repo@),
{
    let mut u = "https://github.com/".to_owned();
    u.append(owner);
    u.append("/");
    u.append(repo);
    u.append(".git");
    u
}

/// The options that keep git from asking for credentials or hanging on a
/// slow connection, as `key=value` settings.
pub open spec fn quiet_settings() -> Seq<Seq<char>> {
    seq![
        "credential.helper=reject"@,
        "http.lowSpeedLimit=1000"@,
        "http.lowSpeedTime=10"@,
        "core.askpass=echo"@,
    ]
}

/// The arguments of `git clone` for a repository into `path`: no checkout,
/// each quiet setting after `--config`, the URL and the path, and a blob
/// filter for a partial clone.
pub open spec fn clone_args_of(owner: Seq<char>, repo: Seq<char>, path: Seq<char>, partial: bool) -> Seq<
    Seq<char>,
> {
    let base = seq![
        "clone"@,
        "--no-checkout"@,
        "--config"@,
        quiet_settings()[0],
        "--config"@,
        quiet_settings()[1],
        "--config"@,
        quiet_settings()[2],
        "--config"@,
        quiet_settings()[3],
        clone_url_of(owner, repo),
        path,
    ];
    if partial {
        base.push("--filter=blob:none"@)
    } else {
        base
    }
}

/// The arguments of `git clone` for a repository.
pub fn clone_args(owner: &str, repo: &str, path: &str, partial: bool) -> (r: Vec<String>)
    ensures
        views(r@) == clone_args_of(owner@, repo@, path@, partial),
{
    let mut a: Vec<String> = Vec::new();
    a.push("clone".to_owned());
    a.push("--no-checkout".to_owned());
    a.push("--config".to_owned());
    a.push("credential.helper=reject".to_owned());
    a.push("--config".to_owned());
    a.push("http.lowSpeedLimit=1000".to_owned());
    a.push("--config".to_owned());
    a.push("http.lowSpeedTime=10".to_owned());
    a.push("--config".to_owned());
    a.push("core.askpass=echo".to_owned());
    a.push(clone_url(owner, repo));
    a.push(path.to_owned());
    if partial {
        a.push("--filter=blob:none".to_owned());
    }
    assert(views(a@) =~= clone_args_of(owner@, repo@, path@, partial));
    a
}

/// The git arguments that run `command` with the quiet settings, each
/// after `-c`.
pub open spec fn quiet_git_args_of(command: Seq<Seq<char>>) -> Seq<Seq<char>> {
    seq![
        "-c"@,
        quiet_settings()[0],
        "-c"@,
        quiet_settings()[1],
        "-c"@,
        quiet_settings()[2],
        "-c"@,
        quiet_settings()[3],
    ] + command
}

/// The git arguments that run `command` with the quiet settings.
pub fn quiet_git_args(command: &Vec<String>) -> (r: Vec<String>)
    ensures
        views(r@) == quiet_git_args_of(views(command@)),
{
    let mut a: Vec<String> = Vec::new();
    a.push("-c".to_owned());
    a.push("credential.helper=reject".to_owned());
    a.push("-c".to_owned());
    a.push("http.lowSpeedLimit=1000".to_owned());
    a.push("-c".to_owned());
    a.push("http.lowSpeedTime=10".to_owned());
    a.push("-c".to_owned());
    a.push("core.askpass=echo".to_owned());
    let ghost head = views(a@);
    let mut i: usize = 0;
    while i < command.len()
        invariant
            i <= command@.len(),
            views(a@) == head + views(command@).take(i as int),
        decreases command.len() - i,
    {
        let ghost before = views(a@);
        a.push(command[i].clone());
        assert(views(a@) =~= before.push(command@[i as int]@));
        assert(views(command@).take(i + 1) =~= views(command@).take(i as int).push(command@[i as int]@));
        i += 1;
    }
    assert(views(command@).take(i as int) =~= views(command@));
    assert(views(a@) =~= quiet_git_args_of(views(command@)));
    a
}

/// Whether `git rev-parse --is-shallow-repository` printed `true`.
pub fn is_shallow_output(stdout: &str) -> (r: bool)
    ensures
        r == (trim(stdout@) == "true"@),
{
    let t = trim_chars(chars_of(stdout).as_slice());
    let ts = string_of(t.as_slice());
    str_eq(ts.as_str(), "true")
}

/// A line of `git remote show origin` that names the default branch.
pub open spec fn head_branch_line(l: Seq<char>) -> bool {
    starts_with(trim_start(l), "HEAD branch:"@)
}

/// The branch such a line names: what follows its first `:` up to any
/// next `:`, trimmed.
pub open spec fn branch_of_line(l: Seq<char>) -> Seq<char> {
    trim(split_on(l, ':')[1])
}

/// The default branches `git remote show origin` names, in order.
pub open spec fn head_branches_of(out: Seq<char>) -> Seq<Seq<char>> {
    text_lines(out).filter(|l: Seq<char>| head_branch_line(l)).map_values(
        |l: Seq<char>| branch_of_line(l),
    )
}

/// Reads the default branch names from `git remote show origin`.
pub fn head_branches(out: &str) -> (r: Vec<String>)
    ensures
        views(r@) == head_branches_of(out@),
{
    let lines = lines_of_text(out);
    let ghost ls = views(lines@);
    let ghost pred = |l: Seq<char>| head_branch_line(l);
    let ghost f = |l: Seq<char>| branch_of_line(l);
    let mut r: Vec<String> = Vec::new();
    let mut i: usize = 0;
    while i < lines.len()
        invariant
            i <= lines@.len(),
            ls == views(lines@),
            ls == text_lines(out@),
            pred == (|l: Seq<char>| head_branch_line(l)),
            f == (|l: Seq<char>| branch_of_line(l)),
            views(r@) == ls.take(i as int).filter(pred).map_values(f),
        decreases lines.len() - i,
    {
        assert(ls[i as int] == lines@[i as int]@);
        proof {
            ls.take(i as int).lemma_filter_push(ls[i as int], pred);
            assert(ls.take(i + 1) =~= ls.take(i as int).push(ls[i as int]));
        }
        let cs = chars_of(lines[i].as_str());
        let k = leading_space(cs.as_slice());
        let rest = crate::text::string_of_range(cs.as_slice(), k, cs.len());
        assert(rest@ =~= cs@.skip(k as int));
        if crate::text::starts_with_text(rest.as_str(), "HEAD branch:") {
            let pieces = split_by(lines[i].as_str(), ':');
            proof {
                reveal_strlit("HEAD branch:");
                let l = ls[i as int];
                assert(l == cs@);
                assert(rest@.take(12)[11] == ':');
                assert(cs@[k + 11] == ':');
                assert(l.contains(':'));
                crate::text::lemma_split_has_sep(l, ':');
            }
            let b = trim_chars(chars_of(pieces[1].as_str()).as_slice());
            let ghost before = views(r@);
            assert(views(pieces@)[1] == pieces@[1]@);
            r.push(string_of(b.as_slice()));
            assert(views(r@) =~= before.push(f(ls[i as int])));
            assert(ls.take(i + 1).filter(pred).map_values(f) =~= ls.take(i as int).filter(
                pred,
            ).map_values(f).push(f(ls[i as int])));
        }
        i += 1;
    }
    assert(ls.take(ls.len() as int) =~= ls);
    r
}

} // verus!
