use crates_pro::analysis::{
    entry_warnings, extract_namespace, extract_namespace_and_path, mirchecker_entries,
    mirchecker_job, mirchecker_report, sensleak_job, warning_blocks,
};
use crates_pro::core_controller::{switch_on, CoreController, ImportLoop};
use crates_pro::crate_info::{CrateInfo, CrateVersion};
use crates_pro::general_model::Version;
use crates_pro::git_commands::{clone_args, clone_url, head_branches, is_shallow_output, quiet_git_args};
use crates_pro::github_sync::{
    auth_header, count_commits, first_commit_email, has_next_page, needs_search, next_page,
    remaining_calls, search_query, search_step, sort_by_contributions, token_exhausted,
    token_usable, CommitAuthor, CommitData, CommitDetail, CommitInfo, Contributor, DayAction, DaySync, Edge,
    GraphQLResponse, PageInfo, Repository, SearchData, SearchResult, SyncStep,
};
use crates_pro::load_plugin::plugin_data;
use crates_pro::mirror::{
    lines_after, log_entries, mono_remote, read_log_entries, replay_order_of, version_precedes,
    LogEntry,
};
use crates_pro::paths::{join_path, remove_extension};
use crates_pro::sync::{after_push, needs_sync, CrateType, RepoSyncStatus};
use crates_pro::text::{join_by, lines_of_text, split_by};
use crates_pro::upload::{
    extracted_path, field_kind, is_dir_entry, unpack_plan, FieldKind, UploadForm, UploadInsert,
    UploadTarget,
};
use crates_pro::walk::Walk;
use crates_pro::graph_rows::{dependency_nodes, first_str_field, str_field_values, VersionInfo};
use crates_pro::scripts::{
    clone_command, convert0817_csv, convert_cratesio_lines, convert_origin_csv, cratesio_line,
    move_plan, origin_entry, owner_clone_command, owner_repo_of_path, script_owner_repo_of,
    CratesioLine,
};

fn strings(v: &[&str]) -> Vec<String> {
    v.iter().map(|s| s.to_string()).collect()
}

fn new_file_line(path: &str) -> String {
    format!("[2024-01-01 INFO] &&&[NEW] File {{ fd: 7, path: \"{}\" }}", path)
}

#[test]
fn log_lines_give_entries() {
    let lines = vec![
        "unrelated line".to_string(),
        new_file_line("/data/crates/foo/foo-1.2.3.crate"),
        new_file_line("/data/crates/bar/bar-baz-0.1.0.crate"),
    ];
    let entries = read_log_entries(&lines).unwrap();
    assert_eq!(entries.len(), 2);
    assert_eq!(entries[0].path, "/data/crates/foo");
    assert_eq!(entries[0].full_path, "/data/crates/foo/foo-1.2.3.crate");
    assert_eq!(entries[0].version, "1.2.3");
    assert_eq!(entries[1].version, "0.1.0");
    let direct = log_entries(&lines);
    assert_eq!(direct.len(), 2);
    let unclosed = vec!["&&&[NEW] File { fd: 1, path: \"".to_string()];
    assert!(read_log_entries(&unclosed).is_none());
}

#[test]
fn versions_order_numerically() {
    assert!(version_precedes("1.2.3", "1.10.0"));
    assert!(!version_precedes("1.10.0", "1.2.3"));
    assert!(version_precedes("1.2", "1.2.0"));
    assert!(!version_precedes("1.2.0", "1.2.0"));
    assert!(!version_precedes("x.y", ""));
}

#[test]
fn replay_groups_by_crate_and_sorts_versions() {
    let e = |p: &str, v: &str| LogEntry {
        path: p.to_string(),
        full_path: format!("{}/{}.crate", p, v),
        version: v.to_string(),
    };
    let entries = vec![e("/c/foo", "1.10.0"), e("/c/bar", "0.2.0"), e("/c/foo", "1.2.0"), e("/c/bar", "0.1.0"), e("/c/foo", "1.2.0")];
    let order = replay_order_of(&entries);
    let got: Vec<(String, String)> = order.iter().map(|x| (x.path.clone(), x.version.clone())).collect();
    let want: Vec<(String, String)> = vec![
        ("/c/foo".into(), "1.2.0".into()),
        ("/c/foo".into(), "1.2.0".into()),
        ("/c/foo".into(), "1.10.0".into()),
        ("/c/bar".into(), "0.1.0".into()),
        ("/c/bar".into(), "0.2.0".into()),
    ];
    assert_eq!(got, want);
}

#[test]
fn paths_join_and_lose_extensions() {
    assert_eq!(remove_extension("/data/crates/foo/foo-1.2.3.crate"), "/data/crates/foo/foo-1.2.3");
    assert_eq!(remove_extension("archive"), "archive");
    assert_eq!(join_path("/a", "b"), "/a/b");
    assert_eq!(join_path("/a/", "b"), "/a/b");
    assert_eq!(join_path("/a", "/b"), "/b");
    assert_eq!(join_path("", "b"), "b");
}

#[test]
fn sync_status_texts() {
    for s in [RepoSyncStatus::Syncing, RepoSyncStatus::Succeed, RepoSyncStatus::Failed, RepoSyncStatus::Analysing, RepoSyncStatus::Analysed] {
        assert_eq!(RepoSyncStatus::from_db_value(s.db_value()), Some(s));
    }
    assert_eq!(RepoSyncStatus::Succeed.db_value(), "succeed");
    assert_eq!(RepoSyncStatus::from_db_value("done"), None);
    assert_eq!(CrateType::from_db_value(CrateType::Application.db_value()), Some(CrateType::Application));
    assert_eq!(CrateType::Lib.db_value(), "lib");
}

#[test]
fn push_outcomes() {
    assert!(needs_sync(RepoSyncStatus::Failed));
    assert!(!needs_sync(RepoSyncStatus::Succeed));
    let ok = after_push("/third-part/crates/foo".into(), true, "ignored".into());
    assert_eq!(ok.status, RepoSyncStatus::Succeed);
    assert!(ok.err_message.is_none());
    assert_eq!(ok.mega_url, "/third-part/crates/foo");
    let bad = after_push("/p".into(), false, "rejected".into());
    assert_eq!(bad.status, RepoSyncStatus::Failed);
    assert_eq!(bad.err_message.as_deref(), Some("rejected"));
}

#[test]
fn namespaces_from_urls() {
    assert_eq!(extract_namespace("https://github.com/tokio-rs/tokio.git").unwrap(), "tokio-rs/tokio");
    assert_eq!(extract_namespace("https://github.com/tokio-rs/tokio/").unwrap(), "tokio-rs/tokio");
    assert_eq!(extract_namespace("/third-part/crates/foo").unwrap(), "crates/foo");
    assert_eq!(
        extract_namespace("nothing").unwrap_err(),
        "URL nothing does not include a namespace and a repository name"
    );
    let (ns, path) = extract_namespace_and_path("https://github.com/a/b", "/base", "foo", Some("1.0.0"));
    assert_eq!(ns, "a/b");
    assert_eq!(path, "/base/a/b/foo-1.0.0");
    let (_, path2) = extract_namespace_and_path("https://github.com/a/b", "/base", "foo", None);
    assert_eq!(path2, "/base/a/b");
}

#[test]
fn mirchecker_warnings() {
    let stderr = "noise\nwarning: [MirChecker] possible overflow\n  --> src/lib.rs:1\n INFO done\nwarning: [MirChecker] second\ntail\n";
    let blocks = warning_blocks(stderr);
    assert_eq!(blocks, strings(&["warning: [MirChecker] possible overflow\n  --> src/lib.rs:1\n", "warning: [MirChecker] second\ntail\n"]));
    assert_eq!(
        entry_warnings(stderr),
        "warning: [MirChecker] possible overflow\n  --> src/lib.rs:1\n\nwarning: [MirChecker] second\ntail\n"
    );
    assert!(warning_blocks("nothing here\n").is_empty());
    let report = mirchecker_report(&strings(&["", "warning: [MirChecker] x\r\n"]));
    assert_eq!(report, "warning: [MirChecker] x\n");
    assert_eq!(mirchecker_entries("  main \n\n   \nlib::f\n"), strings(&["main", "lib::f"]));
}

#[test]
fn analysis_jobs() {
    let job = mirchecker_job("https://github.com/a/b", "foo", "1.0.0");
    assert_eq!(job.namespace, "a/b");
    assert_eq!(job.repo_path, "/var/target/split_crates_file/a/b/foo-1.0.0");
    assert_eq!(job.id, "a/b/foo/1.0.0");
    let s = sensleak_job("/third-part/crates/foo", "foo", "/out", "sensleak");
    assert_eq!(s.repo_path, "/var/target/new_crates_file/crates/foo");
    assert_eq!(s.output_dir, "/out/sensleak/crates/foo");
    assert_eq!(s.output_file, "/out/sensleak/crates/foo/foo.txt");
}

#[test]
fn dependency_walk() {
    // a -> b, c; b -> c, d; c -> a
    let graph = |n: &str| -> Vec<String> {
        match n {
            "a/1" => strings(&["b/1", "c/1"]),
            "b/1" => strings(&["c/1", "d/1"]),
            "c/1" => strings(&["a/1"]),
            _ => vec![],
        }
    };
    let mut w = Walk::from_root("a/1".to_string());
    while let Some(n) = w.next() {
        let ns = graph(&n);
        w.add_neighbours(&ns);
    }
    assert_eq!(w.found(), strings(&["a/1", "b/1", "c/1", "d/1"]));
    assert_eq!(w.found_except("a/1"), strings(&["b/1", "c/1", "d/1"]));

    let mut limited = Walk::new(strings(&["b/1", "c/1"]), Some(2));
    let mut taken = vec![];
    while let Some(n) = limited.next() {
        taken.push(n.clone());
        let ns = graph(&n);
        limited.add_neighbours(&ns);
    }
    assert_eq!(taken, strings(&["b/1"]));

    let mut capped = Walk::from_direct_nodes(strings(&["x/1", "y/1"]), 2);
    assert!(capped.next().is_none());
    assert!(capped.found().is_empty());
}

fn commit(id: Option<i64>, login: &str, email: Option<&str>) -> CommitData {
    CommitData {
        author: id.map(|i| CommitAuthor { login: login.to_string(), id: i, avatar_url: format!("av{}", i) }),
        commit: CommitDetail { author: Some(CommitInfo { _author: None, email: email.map(|e| e.to_string()) }) },
    }
}

#[test]
fn commit_tally() {
    let mut t: Vec<Contributor> = Vec::new();
    count_commits(&mut t, &vec![commit(Some(1), "a", None), commit(Some(2), "b", Some("b@x")), commit(None, "", Some("z@z"))]);
    count_commits(&mut t, &vec![commit(Some(2), "b", None), commit(Some(1), "a", Some("a@x")), commit(Some(2), "b", Some("other"))]);
    assert_eq!(t.len(), 2);
    assert_eq!(t[0].id, 1);
    assert_eq!(t[0].contributions, 2);
    assert_eq!(t[0].email.as_deref(), Some("a@x"));
    assert_eq!(t[1].contributions, 3);
    assert_eq!(t[1].email.as_deref(), Some("b@x"));
    let sorted = sort_by_contributions(&t);
    assert_eq!(sorted[0].login, "b");
    assert_eq!(sorted[1].login, "a");
}

#[test]
fn listing_pages_and_limits() {
    assert!(has_next_page(Some("<https://x?page=2>; rel=\"next\", <..>; rel=\"last\"")));
    assert!(!has_next_page(Some("<https://x?page=1>; rel=\"prev\"")));
    assert!(!has_next_page(None));
    assert_eq!(next_page(1, 100, true, 100, true), Some(2));
    assert_eq!(next_page(100, 100, true, 100, true), None);
    assert_eq!(next_page(3, 100, true, 0, true), None);
    assert_eq!(next_page(3, 100, false, 5, true), None);
    assert_eq!(remaining_calls(Some("0")), 0);
    assert_eq!(remaining_calls(Some("x")), -1);
    assert_eq!(remaining_calls(None), -1);
    assert!(token_exhausted(false, true, 0));
    assert!(!token_exhausted(false, true, 5));
    assert!(!token_exhausted(true, true, 0));
    assert!(token_usable(true, Some("4999")));
    assert!(!token_usable(true, Some("0")));
    assert!(!token_usable(false, Some("10")));
    assert_eq!(auth_header("abc").as_deref(), Some("token abc"));
    assert!(auth_header("").is_none());
}

#[test]
fn first_commit_addresses() {
    assert_eq!(first_commit_email(&vec![commit(Some(1), "a", Some("a@x"))]).as_deref(), Some("a@x"));
    assert!(first_commit_email(&vec![]).is_none());
}

#[test]
fn repository_search_steps() {
    assert_eq!(search_query("2024-01-01", "2024-01-01"), "language:rust created:2024-01-01..2024-01-01");
    assert!(needs_search(None));
    assert!(needs_search(Some(false)));
    assert!(!needs_search(Some(true)));
    let page = |next: bool, cursor: Option<&str>| {
        Some(GraphQLResponse {
            data: Some(SearchData {
                search: SearchResult {
                    edges: vec![Edge { node: Repository { name: "r".into(), url: "u".into(), _created_at: "t".into() } }],
                    page_info: PageInfo { end_cursor: cursor.map(|c| c.to_string()), has_next_page: next },
                },
            }),
        })
    };
    match search_step(&page(true, Some("abc"))) {
        SyncStep::Continue(c) => assert_eq!(c.as_deref(), Some("abc")),
        SyncStep::Finished(_) => panic!("expected another page"),
    }
    assert!(matches!(search_step(&page(false, None)), SyncStep::Finished(true)));
    assert!(matches!(search_step(&Some(GraphQLResponse { data: None })), SyncStep::Finished(false)));
    assert!(matches!(search_step(&None), SyncStep::Finished(false)));
}

#[test]
fn controller_switches_and_import_batches() {
    assert!(switch_on("1"));
    assert!(!switch_on("true"));
    let c = CoreController::new(true, "1", "0", "1");
    assert!(c.dont_clone && c.import && !c.analysis && c.package);
    let mut l = ImportLoop::new();
    for _ in 0..999 {
        let a = l.after_message(true, false);
        assert!(!a.write_import_files && !a.save_checkpoint_and_exit && !a.pause);
    }
    assert_eq!(l.count(), 999);
    let a = l.after_message(false, false);
    assert!(a.write_import_files);
    assert!(a.pause);
    assert_eq!(l.count(), 0);
    let t = l.after_message(true, true);
    assert!(t.save_checkpoint_and_exit);
    assert!(l.after_message(true, false).save_checkpoint_and_exit);
}

#[test]
fn model_constructors() {
    let v = Version::new("serde", "1.0.0");
    assert_eq!((v.name.as_str(), v.version.as_str()), ("serde", "1.0.0"));
    let c = CrateInfo::new("n".into(), "1".into(), None, Some("d".into()), None, Some("MIT".into()), 4);
    assert_eq!(c.dependencies_count, 4);
    assert_eq!(c.license.as_deref(), Some("MIT"));
    let date = chrono::NaiveDate::from_ymd_opt(2024, 5, 1).unwrap();
    let cv = CrateVersion::new("1.0.0".into(), date, None);
    assert_eq!(cv.release_date, date);
}

#[test]
fn git_command_lines() {
    assert_eq!(clone_url("o", "r"), "https://github.com/o/r.git");
    let a = clone_args("o", "r", "/p", true);
    assert_eq!(a[0], "clone");
    assert_eq!(a[10], "https://github.com/o/r.git");
    assert_eq!(a[11], "/p");
    assert_eq!(a.last().unwrap(), "--filter=blob:none");
    assert_eq!(clone_args("o", "r", "/p", false).len(), 12);
    let q = quiet_git_args(&strings(&["pull", "--rebase"]));
    assert_eq!(q.len(), 10);
    assert_eq!(q[8], "pull");
    assert!(is_shallow_output("true\n"));
    assert!(!is_shallow_output("false\n"));
    let out = "* remote origin\n  Fetch URL: https://x\n  HEAD branch: main\n  Remote branch:\n";
    assert_eq!(head_branches(out), strings(&["main"]));
}

#[test]
fn uploads() {
    assert!(matches!(field_kind("file"), FieldKind::File));
    assert!(matches!(field_kind("githubLink"), FieldKind::GithubLink));
    assert!(matches!(field_kind("other"), FieldKind::Other));
    let mut form = UploadForm::new();
    form.text_field(FieldKind::UploadTime, "2024".into());
    form.text_field(FieldKind::UserEmail, "u@x".into());
    match form.file_field(Some("my crate.zip")) {
        UploadTarget::Zip { zip_path, extract_dir } => {
            assert!(zip_path.starts_with("target/zip/upload/"));
            assert!(zip_path.ends_with(".zip"));
            assert!(!extract_dir.contains('.'));
        }
        UploadTarget::Plain { .. } => panic!("a zip goes to the zip directory"),
    }
    assert_eq!(form.file_name.as_deref(), Some("my crate.zip"));
    form.text_field(FieldKind::GithubLink, "https://github.com/a/b".into());
    let rows = form.inserts();
    assert_eq!(rows.len(), 2);
    assert!(matches!(&rows[0], UploadInsert::Crate { filename, .. } if filename == "my crate.zip"));
    assert!(matches!(&rows[1], UploadInsert::Url { githuburl, .. } if githuburl == "https://github.com/a/b"));
    let mut plain = UploadForm::new();
    assert!(matches!(plain.file_field(Some("notes.txt")), UploadTarget::Plain { path } if path == "/home/rust/output/www/uploads/notes.txt"));
    assert!(plain.inserts().is_empty());
    let mut sneaky = UploadForm::new();
    match sneaky.file_field(Some("../evil/x.zip")) {
        UploadTarget::Zip { zip_path, extract_dir } => {
            assert_eq!(zip_path, "target/zip/upload/..evilx.zip");
            assert_eq!(extract_dir, "");
        }
        UploadTarget::Plain { .. } => panic!("still a zip"),
    }
    assert_eq!(sneaky.file_name.as_deref(), Some("../evil/x.zip"));
    let mut unnamed = UploadForm::new();
    unnamed.file_field(None);
    assert_eq!(unnamed.file_name.as_deref(), Some("default.zip"));
    assert_eq!(extracted_path("pkg", "src/lib.rs"), "target/www/uploads/pkg/src/lib.rs");
    assert!(is_dir_entry("src/"));
    assert!(!is_dir_entry("src/lib.rs"));
}

#[test]
fn plugin_upload_payload() {
    let p = plugin_data(b"hello");
    assert_eq!(p.code_base64, "aGVsbG8=");
    assert_eq!(p.name, "age_10");
    assert!(p.read_only);
    assert_eq!(p.code_type, "so");
}

#[test]
fn text_helpers() {
    assert_eq!(lines_of_text("a\r\nb\n"), strings(&["a", "b"]));
    assert_eq!(lines_of_text("a\r"), strings(&["a\r"]));
    assert_eq!(lines_of_text(""), Vec::<String>::new());
    let parts = split_by("a//b", '/');
    assert_eq!(parts, strings(&["a", "", "b"]));
    assert_eq!(join_by(&parts, '/'), "a//b");
}

#[test]
fn repository_list_scripts() {
    let (o, r) = script_owner_repo_of("git clone https://github.com/trustwallet/assets").unwrap();
    assert_eq!((o.as_str(), r.as_str()), ("trustwallet", "assets"));
    assert!(script_owner_repo_of("git clone https://github.com/onlyowner").is_none());
    assert!(script_owner_repo_of("git clone not a url").is_none());
    assert_eq!(owner_repo_of_path("/a/b/c"), ("a".to_string(), "b".to_string()));
    assert_eq!(
        clone_command("trustwallet", "assets"),
        "mkdir -p trustwallet/assets && git clone https://github.com/trustwallet/assets ./trustwallet/assets"
    );
    let m = move_plan("/w", "u", "r");
    assert_eq!((m.current.as_str(), m.target.as_str(), m.temp.as_str()), ("/w/r", "/w/u/r", "/w/temp/r"));
    assert_eq!(origin_entry("https://github.com/a/b"), Some((true, "git clone https://github.com/a/b".to_string())));
    assert_eq!(origin_entry("https://gitee.com/a/b"), Some((false, "git clone https://gitee.com/a/b".to_string())));
    assert_eq!(origin_entry(""), None);
    assert_eq!(owner_clone_command("o", "https://x/y").as_deref(), Some("mkdir -p o && git clone https://x/y ./o"));
    assert!(owner_clone_command("", "https://x/y").is_none());
    assert!(matches!(cratesio_line("https://github.com/serde-rs/serde"), CratesioLine::Line(l) if l == "serde-rs,https://github.com/serde-rs/serde"));
    assert!(matches!(cratesio_line("https://gitlab.com/a/b"), CratesioLine::Skipped));
    assert!(matches!(cratesio_line("github.com/a"), CratesioLine::Unreadable));
}

#[test]
fn origin_csv_splits_github_and_gitee() {
    let data = b"url,stars\nhttps://github.com/a/b,3\n,4\nhttps://gitee.com/c/d,5\n";
    let (github, gitee, failed) = convert_origin_csv(data);
    assert_eq!(github, vec!["git clone https://github.com/a/b".to_string()]);
    assert_eq!(gitee, vec!["git clone https://gitee.com/c/d".to_string()]);
    assert!(!failed);
}

#[test]
fn origin_csv_stops_at_a_malformed_record() {
    let data = b"url,stars\nhttps://github.com/a/b,3\nhttps://github.com/x/y\nhttps://github.com/c/d,5\n";
    let (github, gitee, failed) = convert_origin_csv(data);
    assert_eq!(github, vec!["git clone https://github.com/a/b".to_string()]);
    assert!(gitee.is_empty());
    assert!(failed);
}

#[test]
fn owner_csv_needs_owner_and_url() {
    let data = b"owner,name,url\nrust-lang,rust,https://github.com/rust-lang/rust\n,x,https://github.com/x/x\ntokio,tokio,\n";
    let (lines, failed) = convert0817_csv(data);
    assert_eq!(
        lines,
        vec!["mkdir -p rust-lang && git clone https://github.com/rust-lang/rust ./rust-lang".to_string()]
    );
    assert!(!failed);
}

#[test]
fn cratesio_csv_reads_owner_from_tenth_field() {
    let data = b"a,b,c,d,e,f,g,h,i,repository\n1,2,3,4,5,6,7,8,9,https://github.com/serde-rs/serde\n1,2,3,4,5,6,7,8,9,https://gitlab.com/x/y\n1,2,3,4,5,6,7,8,9,\n";
    let (lines, stopped) = convert_cratesio_lines(data);
    assert_eq!(lines, vec!["serde-rs,https://github.com/serde-rs/serde".to_string()]);
    assert!(!stopped);
}

#[test]
fn cratesio_csv_stops_at_unreadable_url() {
    let data = b"a,b,c,d,e,f,g,h,i,repository\n1,2,3,4,5,6,7,8,9,https://github.com/o/r\n1,2,3,4,5,6,7,8,9,github.com/p/q\n1,2,3,4,5,6,7,8,9,https://github.com/s/t\n";
    let (lines, stopped) = convert_cratesio_lines(data);
    assert_eq!(lines, vec!["o,https://github.com/o/r".to_string()]);
    assert!(stopped);
}

#[test]
fn graph_rows_give_versions_in_order() {
    let rows = strings(&[
        r#"{"n.version":"1.0.0"}"#,
        r#"{"n.other":"x"}"#,
        r#"{"n.version":"0.9.1"}"#,
        r#"{"n.version":3}"#,
    ]);
    let v = str_field_values(&rows, "n.version").unwrap();
    assert_eq!(v, strings(&["1.0.0", "0.9.1"]));
}

#[test]
fn graph_rows_not_json_give_none() {
    let rows = strings(&[r#"{"n.version":"1.0.0"}"#, "not json"]);
    assert!(str_field_values(&rows, "n.version").is_none());
    assert!(first_str_field(&rows, "n.version").is_none());
}

#[test]
fn graph_rows_first_url() {
    let rows = strings(&[
        r#"{"n.github_url":null}"#,
        r#"{"n.github_url":"https://github.com/serde-rs/serde"}"#,
    ]);
    assert_eq!(
        first_str_field(&rows, "n.github_url"),
        Some("https://github.com/serde-rs/serde".to_string())
    );
    assert_eq!(first_str_field(&rows[..1].to_vec(), "n.github_url"), None);
}

#[test]
fn graph_rows_dependency_nodes_once_each() {
    let rows = strings(&[
        r#"{"name_and_version":"serde/1.0.1"}"#,
        r#"{"name_and_version":"serde/1.0.1"}"#,
        r#"{"name_and_version":"bad"}"#,
        r#"{"name_and_version":"tokio/1.2.0"}"#,
    ]);
    let nodes = dependency_nodes(&rows).unwrap();
    let pairs: Vec<(String, String)> = nodes.into_iter().map(|n| (n.name, n.version)).collect();
    assert_eq!(
        pairs,
        vec![
            ("serde".to_string(), "1.0.1".to_string()),
            ("tokio".to_string(), "1.2.0".to_string())
        ]
    );
    let missing = strings(&[r#"{"other":"a/b"}"#]);
    assert!(dependency_nodes(&missing).is_none());
}

#[test]
fn version_info_from_dependency_rows() {
    let rows = strings(&[r#"{"name_and_version":"serde/1.0.1"}"#]);
    let info = VersionInfo::from_dependency_rows("0.1.0".to_string(), &rows).unwrap();
    assert_eq!(info.version_base, "0.1.0");
    assert_eq!(info.dependencies.len(), 1);
    assert_eq!(info.dependencies[0].name, "serde");
    assert!(VersionInfo::from_dependency_rows(1u8, &strings(&["{"])).is_none());
}

#[test]
fn import_run_writes_per_full_batch_and_exits_once() {
    let mut l = ImportLoop::new();
    let mut writes = 0;
    for _ in 0..2500 {
        let a = l.after_message(true, false);
        assert!(!a.save_checkpoint_and_exit);
        if a.write_import_files {
            writes += 1;
        }
    }
    assert_eq!(writes, 2);
    assert_eq!(l.count(), 500);
    let a = l.after_message(true, true);
    assert!(a.save_checkpoint_and_exit);
    assert!(!a.write_import_files);
    assert_eq!(l.count(), 500);
}

fn search_page(next: bool, cursor: Option<&str>) -> Option<GraphQLResponse> {
    Some(GraphQLResponse {
        data: Some(SearchData {
            search: SearchResult {
                edges: vec![],
                page_info: PageInfo { end_cursor: cursor.map(|c| c.to_string()), has_next_page: next },
            },
        }),
    })
}

/// Runs a day's search over the responses as the sync loop does: the
/// number of responses taken and whether the status is saved.
fn run_search(rs: Vec<Option<GraphQLResponse>>) -> (usize, bool) {
    let mut taken = 0;
    for r in &rs {
        taken += 1;
        if let SyncStep::Finished(ok) = search_step(r) {
            return (taken, ok);
        }
    }
    (taken, false)
}

#[test]
fn search_run_stops_at_first_finishing_response() {
    let rs = vec![search_page(true, Some("a")), search_page(true, Some("b")), search_page(false, None), None];
    assert_eq!(run_search(rs), (3, true));
    let failed = vec![search_page(true, Some("a")), None, search_page(false, None)];
    assert_eq!(run_search(failed), (2, false));
}

#[test]
fn unlimited_walk_reaches_exactly_the_reachable_nodes() {
    let graph = |n: &str| -> Vec<String> {
        match n {
            "a/1" => strings(&["b/1", "c/1"]),
            "b/1" => strings(&["d/1"]),
            "c/1" => strings(&["d/1", "a/1"]),
            "e/1" => strings(&["a/1"]),
            _ => vec![],
        }
    };
    let mut w = Walk::from_root("a/1".to_string());
    while let Some(n) = w.next() {
        w.add_neighbours(&graph(&n));
    }
    let mut found = w.found();
    found.sort();
    assert_eq!(found, strings(&["a/1", "b/1", "c/1", "d/1"]));
}

#[test]
fn mono_remote_sets_crate_path() {
    let (url, path) = mono_remote("http://mono.mega.local:80", "serde").unwrap();
    assert_eq!(url, "http://mono.mega.local/third-part/crates/serde");
    assert_eq!(path, "/third-part/crates/serde");
    assert!(mono_remote("not a url", "serde").is_none());
}

#[test]
fn commit_tally_by_pages_equals_all_at_once() {
    let a = vec![commit(Some(1), "a", None), commit(Some(2), "b", Some("b@x"))];
    let b = vec![commit(Some(2), "b", None), commit(Some(3), "c", Some("c@x")), commit(Some(1), "a", Some("a@x"))];
    let mut paged: Vec<Contributor> = Vec::new();
    count_commits(&mut paged, &a);
    count_commits(&mut paged, &b);
    let mut all: Vec<Contributor> = Vec::new();
    let mut both = vec![commit(Some(1), "a", None), commit(Some(2), "b", Some("b@x"))];
    both.extend(vec![commit(Some(2), "b", None), commit(Some(3), "c", Some("c@x")), commit(Some(1), "a", Some("a@x"))]);
    count_commits(&mut all, &both);
    let view = |t: &Vec<Contributor>| -> Vec<(i64, i32, Option<String>)> {
        t.iter().map(|c| (c.id, c.contributions, c.email.clone())).collect()
    };
    assert_eq!(view(&paged), view(&all));
    assert_eq!(view(&all), vec![(1, 2, Some("a@x".to_string())), (2, 2, Some("b@x".to_string())), (3, 1, Some("c@x".to_string()))]);
}

#[test]
fn listing_asks_at_most_max_pages() {
    let mut page = 1u32;
    let mut asked = 1;
    while let Some(p) = next_page(page, 100, true, 100, true) {
        page = p;
        asked += 1;
    }
    assert_eq!(asked, 100);
}

#[test]
fn plugin_code_base64_edges() {
    assert_eq!(plugin_data(b"").code_base64, "");
    assert_eq!(plugin_data(b"a").code_base64, "YQ==");
    assert_eq!(plugin_data(&[0u8, 16u8]).code_base64, "ABA=");
    assert_eq!(plugin_data(&[255u8, 254u8, 62u8]).code_base64, "//4+");
}

#[test]
fn synced_day_is_not_searched_again() {
    let mut record: Option<bool> = None;
    let mut requests = 0;
    if needs_search(record) {
        let (n, ok) = run_search(vec![search_page(true, Some("a")), search_page(false, None)]);
        requests += n;
        if ok {
            record = Some(true);
        }
    }
    assert_eq!((requests, record), (2, Some(true)));
    assert!(!needs_search(record));
}

fn zip_bytes(entries: &[(&str, Option<&[u8]>)]) -> Vec<u8> {
    let mut w = zip::ZipWriter::new(std::io::Cursor::new(Vec::new()));
    let opts = zip::write::SimpleFileOptions::default().compression_method(zip::CompressionMethod::Stored);
    for (name, data) in entries {
        match data {
            Some(d) => {
                w.start_file(name.to_string(), opts).unwrap();
                std::io::Write::write_all(&mut w, d).unwrap();
            }
            None => w.add_directory(name.to_string(), opts).unwrap(),
        }
    }
    w.finish().unwrap().into_inner()
}

#[test]
fn unpack_plan_writes_only_inside_extract_dir() {
    let data = zip_bytes(&[
        ("a/", None),
        ("a/b.txt", Some(b"hello")),
        ("../evil.txt", Some(b"x")),
        ("c/../d.txt", Some(b"dd")),
    ]);
    let steps = unpack_plan("pkg", &data).unwrap();
    let v: Vec<(String, bool, Vec<u8>)> = steps.into_iter().map(|s| (s.path, s.is_dir, s.data)).collect();
    assert_eq!(
        v,
        vec![
            ("target/www/uploads/pkg/a".to_string(), true, vec![]),
            ("target/www/uploads/pkg/a/b.txt".to_string(), false, b"hello".to_vec()),
            ("target/www/uploads/pkg/d.txt".to_string(), false, b"dd".to_vec()),
        ]
    );
    assert!(unpack_plan("pkg", b"not a zip").is_none());
}

#[test]
fn zip_upload_goes_to_a_safe_directory() {
    let mut form = UploadForm::new();
    match form.file_field(Some("../../etc/pkg.zip")) {
        UploadTarget::Zip { zip_path, extract_dir } => {
            assert!(!extract_dir.contains('/'));
            assert_eq!(zip_path, "target/zip/upload/....etcpkg.zip");
            assert_eq!(extract_dir, "");
        }
        UploadTarget::Plain { .. } => panic!("a zip upload"),
    }
}

#[test]
fn mirror_resumes_after_seen_lines() {
    let lines = strings(&["a", "b", "c"]);
    assert_eq!(lines_after(&lines, 1), strings(&["b", "c"]));
    assert_eq!(lines_after(&lines, 3), Vec::<String>::new());
    assert_eq!(lines_after(&lines, 7), Vec::<String>::new());
    assert_eq!(lines_after(&lines, 0), lines);
}

#[test]
fn day_sync_runs_pages_and_saves_once_done() {
    let (_, a) = DaySync::start(Some(true));
    assert!(matches!(a, DayAction::Stop));
    let (mut day, a) = DaySync::start(None);
    assert!(matches!(a, DayAction::Request(None)));
    match day.on_response(&search_page(true, Some("c1"))) {
        DayAction::Request(c) => assert_eq!(c.as_deref(), Some("c1")),
        _ => panic!("another page expected"),
    }
    assert!(matches!(day.on_response(&search_page(false, None)), DayAction::SaveStatus));
    let (mut failed, _) = DaySync::start(Some(false));
    assert!(matches!(failed.on_response(&None), DayAction::Stop));
}
