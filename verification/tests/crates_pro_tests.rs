use crates_pro::advisory::{CveInfo, DBHandler, RustSec};
use crates_pro::api::{
    dependency_page_on_lookup, front_page, version_page_of, DependencyInfo, DependencyPageStep,
    dedup_hits, dependency_info, dependent_info, front_info, indirect_nodes, name_and_version,
    query_response, resolve_version, version_page, version_page_from_cache, version_page_from_dump, Crateinfo,
    DependencyCount, DependentCount, NameVersion, SearchHit,
};
use crates_pro::cache::{
    decode_advisories_text, encode_advisories_text, front_page_cache_key, front_page_on_computed,
    front_page_on_lookup, front_page_ttl, FrontPageStep,
};
use crates_pro::contributors::{
    analyze_timezones, author_timezones, contributor_emails, is_china_timezone, report_counts,
    ContributorAnalysis,
};
use crates_pro::github::{calculate_hash, mask_token, normalize_repo_url, parse_to_owner_and_repo, repo_dir};
use crates_pro::numbers::{parse_i32, parse_u32, parse_usize};
use crates_pro::tu_client::parse_req;
use crates_pro::versions::{get_max_version, sort_versions_desc, try_max_version};

fn strings(v: &[&str]) -> Vec<String> {
    v.iter().map(|s| s.to_string()).collect()
}

#[test]
fn test_normalize_url() {
    let url1 = String::from("https://github.com/user/repo.git");
    let url2 = String::from("https://github.com/user/repo/");
    let url3 = String::from("https://github.com/user/repo#readme/a/b/c");
    assert_eq!(parse_to_owner_and_repo(&url1).unwrap().1, "repo");
    assert_eq!(parse_to_owner_and_repo(&url2).unwrap().1, "repo");
    assert_eq!(parse_to_owner_and_repo(&url3).unwrap().1, "repo");

    let fail_url1 = String::from("https://github.com/user/");
    assert!(parse_to_owner_and_repo(&fail_url1).is_none());
}

#[test]
fn owner_comes_from_the_url() {
    let (owner, repo) = parse_to_owner_and_repo("https://github.com/tokio-rs/tokio").unwrap();
    assert_eq!(owner, "tokio-rs");
    assert_eq!(repo, "tokio");
    assert_eq!(normalize_repo_url("Repo.GIT"), "Repo");
    assert_eq!(normalize_repo_url("repo//"), "repo");
    assert!(parse_to_owner_and_repo("https://gitlab.com/a/b").is_none());
}

#[test]
fn hash_and_repo_dir() {
    assert_eq!(
        calculate_hash("abc"),
        "ba7816bf8f01cfea414140de5dae2223b00361a396177a9cb410ff61f20015ad"
    );
    assert_eq!(repo_dir("/data".to_string(), "abc", "repo"), "/data/ba/78/abc/repo");
    assert_eq!(repo_dir("/data/".to_string(), "abc", "x"), "/data/ba/78/abc/x");
    assert_eq!(repo_dir(String::new(), "abc", "x"), "ba/78/abc/x");
}

#[test]
fn token_masking() {
    assert_eq!(mask_token("short"), "*****");
    assert_eq!(mask_token("abcdefgh"), "********");
    assert_eq!(mask_token("abcdefghijklmnop"), "abcdefghij********mnop");
}

#[test]
fn request_parsing() {
    assert_eq!(
        parse_req("Alice,The Matrix").unwrap(),
        ("Alice".to_string(), "The Matrix".to_string())
    );
    let msg = "parse request error, format should be `Person.name,Movie.title`";
    assert_eq!(parse_req("a,b,c").unwrap_err(), msg);
    assert_eq!(parse_req("nocomma").unwrap_err(), msg);
    assert_eq!(parse_req(",").unwrap(), (String::new(), String::new()));
}

#[test]
fn name_version_parsing() {
    let nv = NameVersion::from_string("serde/1.0.100").unwrap();
    assert_eq!(nv.name, "serde");
    assert_eq!(nv.version, "1.0.100");
    assert!(NameVersion::from_string("a/b/c").is_none());
    assert!(NameVersion::from_string("serde").is_none());
    let text = name_and_version("tokio", "1.2.3");
    assert_eq!(text, "tokio/1.2.3");
    let back = NameVersion::from_string(&text).unwrap();
    assert_eq!((back.name.as_str(), back.version.as_str()), ("tokio", "1.2.3"));
}

#[test]
fn number_parsing() {
    assert_eq!(parse_usize("42"), Some(42));
    assert_eq!(parse_usize("+7"), Some(7));
    assert_eq!(parse_usize(""), None);
    assert_eq!(parse_usize("4x"), None);
    assert_eq!(parse_i32("-2147483648"), Some(i32::MIN));
    assert_eq!(parse_i32("2147483648"), None);
    assert_eq!(parse_i32("-"), None);
    assert_eq!(parse_u32("4294967295"), Some(u32::MAX));
    assert_eq!(parse_u32("4294967296"), None);
}

#[test]
fn china_timezones() {
    assert!(is_china_timezone("+08:00"));
    assert!(is_china_timezone("+0800"));
    assert!(is_china_timezone("CST"));
    assert!(is_china_timezone("Asia/Shanghai"));
    assert!(!is_china_timezone("-05:00"));
    assert!(!is_china_timezone("Z"));
}

#[test]
fn commit_timezones_from_git_log() {
    let out = "2024-01-02T10:00:00+08:00\n2024-01-03T11:00:00-05:00\nnot a date\n\n";
    assert_eq!(author_timezones(out), strings(&["+08:00", "-05:00"]));
    assert!(author_timezones("").is_empty());
}

#[test]
fn timezone_analysis() {
    let tzs = strings(&["+08:00", "-05:00", "+08:00"]);
    let a = analyze_timezones("a@b.c", &tzs).unwrap();
    assert_eq!(a.email.as_deref(), Some("a@b.c"));
    assert!(a.from_china);
    assert_eq!(a.common_timezone, "+08:00");
    let b = analyze_timezones("x@y.z", &strings(&["-05:00"])).unwrap();
    assert!(!b.from_china);
    assert_eq!(b.common_timezone, "-05:00");
    assert!(analyze_timezones("none@x", &Vec::new()).is_none());
}

#[test]
fn shortlog_addresses() {
    let out = "    10\tAlice <alice@x.org>\n     3\tBob < bob@y.org >\n     1\tNo Address\n";
    assert_eq!(contributor_emails(out), strings(&["alice@x.org", "bob@y.org"]));
}

#[test]
fn contributors_report_counts() {
    let analyses = vec![
        ContributorAnalysis { email: None, from_china: true, common_timezone: "+08:00".into() },
        ContributorAnalysis { email: None, from_china: false, common_timezone: "Z".into() },
        ContributorAnalysis { email: None, from_china: true, common_timezone: "CST".into() },
    ];
    let c = report_counts(&analyses);
    assert_eq!(c.total_contributors, 3);
    assert_eq!(c.china_contributors_count, 2);
    assert_eq!(c.non_china_contributors_count, 1);
}

#[test]
fn patched_range_matching() {
    let m = |p: &str, v: &str| DBHandler::match_version(p.to_string(), v.to_string());
    assert!(m(">=1.2.0", "1.3.0"));
    assert!(!m(">=1.2.0", "1.1.0"));
    assert!(m(">=1.2.0", "1.2.0"));
    assert!(m("<1.0.0", "0.9.0"));
    assert!(!m("<1.0.0", "1.0.0"));
    assert!(m("^1.2.3", "1.2.3"));
    assert!(!m("^1.2.3", "1.2.4"));
    assert!(m(">=1.0.0, <2.0.0", "1.5.0"));
    assert!(!m(">=1.0.0, <2.0.0", "2.0.0"));
    assert!(m("<1.0.0|>=2.0.0", "2.1.0"));
    assert!(!m("<1.0.0|>=2.0.0", "1.5.0"));
}

fn advisory(id: &str, krate: &str, patched: &str) -> RustSec {
    RustSec::from_row(
        id.to_string(),
        krate.to_string(),
        patched.to_string(),
        "CVE-1;GHSA-2",
        "desc".to_string(),
    )
}

#[test]
fn advisory_rows() {
    let r = advisory("RUSTSEC-1", "foo", ">=1.0.0");
    assert_eq!(r.aliases, strings(&["CVE-1", "GHSA-2"]));
    let c = CveInfo::from_row(
        "CVE-2024-1".into(),
        "foo".into(),
        "1.0".into(),
        "2.0".into(),
        "d".into(),
    );
    assert_eq!(c.url, "https://www.cve.org/CVERecord?id=CVE-2024-1");
}

#[test]
fn advisory_cache_roundtrip() {
    let rs = vec![advisory("RUSTSEC-1", "foo", ">=1.0.0"), advisory("RUSTSEC-2", "bar", "^0.1.0")];
    let text = encode_advisories_text(&rs);
    let back = decode_advisories_text(&text);
    assert_eq!(back.len(), 2);
    assert_eq!(back[0].id, "RUSTSEC-1");
    assert_eq!(back[1].id, "RUSTSEC-2");
    assert_eq!(back[1].aliases, strings(&["CVE-1", "GHSA-2"]));
    assert_eq!(back[0].small_desc, "desc");
    assert!(decode_advisories_text("").is_empty());
}

#[test]
fn direct_advisories_for_a_version() {
    let all = vec![advisory("A", "foo", ">=1.0.0"), advisory("B", "foo", "<0.5.0"), advisory("C", "bar", ">=1.0.0")];
    let sel = DBHandler::select_direct_rustsec(&all, "foo", "0.9.0");
    let ids: Vec<&str> = sel.iter().map(|r| r.id.as_str()).collect();
    assert!(ids.iter().all(|i| *i == "A" || *i == "B" || *i == "C"));
    assert!(!ids.contains(&"C"));
}

#[test]
fn front_page_cache_key_and_ttl() {
    assert_eq!(front_page_cache_key("tokio-rs/tokio", "tokio", "1.0.0"), "crates_info:tokio-rs/tokio:tokio:1.0.0");
    assert_eq!(front_page_ttl(), 604800);
}

#[test]
fn front_page_row_roundtrip() {
    let info = Crateinfo {
        crate_name: "foo".into(),
        description: "".into(),
        dependencies: DependencyCount { direct: 3, indirect: 4 },
        dependents: DependentCount { direct: 5, indirect: 0 },
        cves: vec![advisory("A", "foo", ">=1.0.0")],
        dep_cves: vec![],
        license: "MIT".into(),
        github_url: "https://github.com/a/foo".into(),
        doc_url: "".into(),
        versions: strings(&["1.0.0", "0.9.0"]),
    };
    let row = DBHandler::crates_info_row(&info, "a/foo", "foo", "1.0.0");
    assert_eq!(row.id, "a/foo/foo/1.0.0");
    assert_eq!(row.versions, "1.0.0/0.9.0");
    let back = DBHandler::crateinfo_from_row(&row, "foo".into());
    assert_eq!(back.dependencies.direct, 3);
    assert_eq!(back.dependencies.indirect, 4);
    assert_eq!(back.dependents.direct, 5);
    assert_eq!(back.versions, info.versions);
    assert_eq!(back.cves.len(), 1);
    assert_eq!(back.cves[0].id, "A");
    assert!(back.dep_cves.is_empty());
    assert_eq!(back.license, "MIT");
}

#[test]
fn search_paging() {
    let hit = |n: &str, ns: &str, v: &str| SearchHit { name: n.into(), namespace: ns.into(), max_version: v.into() };
    let hits = vec![hit("tokio", "tokio-rs/tokio", "1.0.0"), hit("tokio", "tokio-rs/tokio", "1.0.0"), hit("serde", "serde-rs/serde", "null")];
    assert_eq!(dedup_hits(&hits).len(), 2);
    let r = query_response(&hits, 1, 20);
    assert_eq!(r.code, 200);
    assert_eq!(r.message, "成功");
    assert_eq!(r.data.total_page, 1);
    assert_eq!(r.data.items.len(), 2);
    assert_eq!(r.data.items[0].nsfront, "tokio-rs");
    assert_eq!(r.data.items[0].nsbehind, "tokio");
    assert_eq!(r.data.items[1].version, "0.0.0");
    let r2 = query_response(&hits, 2, 20);
    assert!(r2.data.items.is_empty());
}

#[test]
fn dependency_pages() {
    let direct = vec![NameVersion { name: "a".into(), version: "1".into() }];
    let all = strings(&["a/1", "b/2", "c/3"]);
    let ind = indirect_nodes(&all, &direct);
    assert_eq!(ind, strings(&["b/2", "c/3"]));
    let info = dependency_info(&direct, &vec![7], &ind, &vec![0, 1]);
    assert_eq!(info.direct_count, 1);
    assert_eq!(info.indirect_count, 2);
    assert_eq!(info.data.len(), 3);
    assert_eq!(info.data[0].relation, "Direct");
    assert_eq!(info.data[0].dependencies, 7);
    assert_eq!(info.data[2].crate_name, "c");
    assert_eq!(info.data[2].relation, "Indirect");
    let many: Vec<NameVersion> = (0..60).map(|i| NameVersion { name: format!("d{}", i), version: "1".into() }).collect();
    let dep = dependent_info(&many, &strings(&["x/1"]));
    assert_eq!(dep.direct_count, 60);
    assert_eq!(dep.indirect_count, 1);
    assert_eq!(dep.data.len(), 51);
}

#[test]
fn version_pages() {
    let page = version_page_from_cache("1.0.0|2024-01-01|100|5/0.9.0|2023-01-01|50|2");
    assert_eq!(page.len(), 2);
    assert_eq!(page[0].version, "1.0.0");
    assert_eq!(page[0].dependents, 5);
    assert_eq!(page[1].downloads, "50");
    let e = version_page_from_dump("1.0.0".into(), 3, "2024-01-01/100").unwrap();
    assert_eq!(e.updated_at, "2024-01-01");
    assert_eq!(e.downloads, "100");
    assert_eq!(e.dependents, 3);
    assert!(version_page_from_dump("1.0.0".into(), 3, "").is_none());
    assert!(version_page_from_dump("1.0.0".into(), 3, "a/b/c").is_none());
}

#[test]
fn newest_versions_first() {
    let vs = strings(&["1.0.0", "1.10.0", "1.2.0"]);
    assert_eq!(sort_versions_desc(&vs), strings(&["1.10.0", "1.2.0", "1.0.0"]));
    assert_eq!(try_max_version(&vs).unwrap(), "1.10.0");
    assert_eq!(get_max_version(vs), "1.10.0");
    assert_eq!(resolve_version("0.1.0", &vec![], &vec![]).unwrap(), "0.1.0");
    assert_eq!(resolve_version("default", &strings(&["0.1.0"]), &strings(&["0.2.0"])).unwrap(), "0.2.0");
}

#[test]
fn front_page_from_parts() {
    let info = front_info(
        "foo".into(),
        "null".into(),
        "https://docs.rs/foo".into(),
        1,
        2,
        3,
        vec![],
        vec![],
        &strings(&["MIT"]),
        &strings(&["0.1.0", "0.2.0"]),
    );
    assert_eq!(info.github_url, "");
    assert_eq!(info.doc_url, "https://docs.rs/foo");
    assert_eq!(info.license, "MIT");
    assert_eq!(info.versions, strings(&["0.2.0", "0.1.0"]));
    assert_eq!(info.dependents.indirect, 0);
}

#[test]
fn dependency_cves_once_each() {
    let c = |id: &str, name: &str, lo: &str, hi: &str| {
        CveInfo::from_row(id.into(), name.into(), lo.into(), hi.into(), "d".into())
    };
    let all = vec![c("CVE-1", "foo", "1.0.0", "2.0.0"), c("CVE-2", "bar", "0.1.0", "0.3.0"), c("CVE-3", "foo", "3.0.0", "4.0.0")];
    let mut ids = DBHandler::select_dependency_cves(&all, &strings(&["foo/1.5.0", "bar/0.2.0", "foo/1.6.0"]));
    ids.sort();
    assert_eq!(ids, strings(&["CVE-1", "CVE-2"]));
    assert_eq!(DBHandler::select_direct_cves(&all, "foo", "3.5.0"), strings(&["CVE-3"]));
    assert!(DBHandler::select_dependency_cves(&all, &strings(&["baz/1.0.0"])).is_empty());
}

fn page(name: &str, direct: usize) -> Crateinfo {
    Crateinfo {
        crate_name: name.into(),
        description: "".into(),
        dependencies: DependencyCount { direct, indirect: 0 },
        dependents: DependentCount { direct: 0, indirect: 0 },
        cves: vec![],
        dep_cves: vec![],
        license: "MIT".into(),
        github_url: "".into(),
        doc_url: "".into(),
        versions: strings(&["1.0.0"]),
    }
}

#[test]
fn front_page_stored_row_is_replied() {
    match front_page_on_lookup(vec![page("foo", 7), page("bar", 1)]) {
        FrontPageStep::Reply(c) => {
            assert_eq!(c.crate_name, "foo");
            assert_eq!(c.dependencies.direct, 7);
        }
        FrontPageStep::Compute => panic!("a stored page must be replied"),
    }
    assert!(matches!(front_page_on_lookup(vec![]), FrontPageStep::Compute));
}

#[test]
fn front_page_computed_is_stored_and_replied() {
    let s = front_page_on_computed(page("foo", 2), "a/foo", "foo", "1.0.0");
    assert_eq!(s.row.id, "a/foo/foo/1.0.0");
    assert_eq!(s.row.direct_dependency, 2);
    assert_eq!(s.row.versions, "1.0.0");
    assert_eq!(s.reply.crate_name, "foo");
}

#[test]
fn version_page_keeps_versions_with_dump_entries() {
    let versions = sort_versions_desc(&strings(&["0.9.0", "1.0.0", "0.8.0"]));
    assert_eq!(versions, strings(&["1.0.0", "0.9.0", "0.8.0"]));
    let dumps = strings(&["2024-01-02/150", "", "2023-05-06/20"]);
    let page = version_page(&versions, &vec![4, 9, 1], &dumps);
    assert_eq!(page.len(), 2);
    assert_eq!(page[0].version, "1.0.0");
    assert_eq!(page[0].updated_at, "2024-01-02");
    assert_eq!(page[0].downloads, "150");
    assert_eq!(page[0].dependents, 4);
    assert_eq!(page[1].version, "0.8.0");
    assert_eq!(page[1].dependents, 1);
}

#[test]
fn version_page_of_sorts_newest_first() {
    let page = version_page_of(
        &strings(&["0.9.0", "1.0.0", "0.8.0"]),
        &vec![4, 9, 1],
        &strings(&["2024-01-02/150", "", "2023-05-06/20"]),
    );
    assert_eq!(page.len(), 2);
    assert_eq!(page[0].version, "1.0.0");
    assert_eq!(page[0].dependents, 4);
    assert_eq!(page[1].version, "0.8.0");
    assert_eq!(page[1].downloads, "20");
}

#[test]
fn front_page_counts_indirect_dependencies() {
    let direct = vec![NameVersion { name: "a".into(), version: "1".into() }];
    let all = strings(&["a/1", "b/2", "c/3"]);
    let c = front_page(
        "foo".into(),
        "null".into(),
        "https://docs.rs/foo".into(),
        &direct,
        &all,
        5,
        vec![],
        vec![],
        &strings(&["MIT"]),
        &strings(&["0.1.0", "1.0.0"]),
    );
    assert_eq!(c.dependencies.direct, 1);
    assert_eq!(c.dependencies.indirect, 2);
    assert_eq!(c.dependents.direct, 5);
    assert_eq!(c.github_url, "");
    assert_eq!(c.doc_url, "https://docs.rs/foo");
    assert_eq!(c.versions, strings(&["1.0.0", "0.1.0"]));
}

#[test]
fn dependency_page_stored_is_replied() {
    let stored = DependencyInfo { direct_count: 2, indirect_count: 3, data: vec![] };
    match dependency_page_on_lookup(vec![stored]) {
        DependencyPageStep::Reply(d) => {
            assert_eq!(d.direct_count, 2);
            assert_eq!(d.indirect_count, 3);
        }
        DependencyPageStep::Compute => panic!("a stored page must be replied"),
    }
    assert!(matches!(dependency_page_on_lookup(vec![]), DependencyPageStep::Compute));
}
