use vstd::prelude::*;
use crate::advisory::RustSec;
use crate::text::{join_with, split_by, split_on, str_eq, views};
use crate::advisory::advisory_views;
use crate::numbers::{parse_usize, usize_value};
use crate::versions::{greatest_version, lemma_sort_desc_len, sort_desc, sort_versions_desc, try_max_version};

verus! {

/// A search request: the text to search for and the page wanted.
pub struct Query {
    pub query: String,
    pub pagination: Pagination,
}

/// A page number (from 1) and the page size asked for.
pub struct Pagination {
    pub page: usize,
    pub per_page: usize,
}

/// The answer to a search.
pub struct QueryCratesInfo {
    pub code: u32,
    pub message: String,
    pub data: QueryData,
}

/// One page of search results and the number of pages.
pub struct QueryData {
    pub total_page: usize,
    pub items: Vec<QueryItem>,
}

/// One crate in a page of search results.
pub struct QueryItem {
    pub name: String,
    pub version: String,
    pub date: String,
    pub nsfront: String,
    pub nsbehind: String,
}

/// One dependency of a crate version.
pub struct DependencyCrateInfo {
    pub crate_name: String,
    pub version: String,
    pub relation: String,
    pub license: String,
    pub dependencies: usize,
}

/// The dependencies of a crate version.
pub struct DependencyInfo {
    pub direct_count: usize,
    pub indirect_count: usize,
    pub data: Vec<DependencyCrateInfo>,
}

/// The dependents of a crate version.
pub struct DependentInfo {
    pub direct_count: usize,
    pub indirect_count: usize,
    pub data: Vec<DependentData>,
}

/// One dependent of a crate version.
pub struct DependentData {
    pub crate_name: String,
    pub version: String,
    pub relation: String,
}

/// The front page of a crate version.
pub struct Crateinfo {
    pub crate_name: String,
    pub description: String,
    pub dependencies: DependencyCount,
    pub dependents: DependentCount,
    pub cves: Vec<RustSec>,
    pub dep_cves: Vec<RustSec>,
    pub license: String,
    pub github_url: String,
    pub doc_url: String,
    pub versions: Vec<String>,
}

/// Direct and indirect dependency counts.
pub struct DependencyCount {
    pub direct: usize,
    pub indirect: usize,
}

/// Direct and indirect dependent counts.
pub struct DependentCount {
    pub direct: usize,
    pub indirect: usize,
}

/// An advisory in the form of the RustSec web listing.
pub struct NewRustsec {
    pub id: String,
    pub subtitle: String,
    pub reported: String,
    pub issued: String,
    pub package: String,
    pub ttype: String,
    pub keywords: String,
    pub aliases: String,
    pub reference: String,
    pub patched: String,
    pub unaffected: String,
    pub description: String,
    pub url: String,
}

/// A dependency tree with the number of advisories of each node.
pub struct Deptree {
    pub name_and_version: String,
    pub cve_count: usize,
    pub direct_dependency: Vec<Deptree>,
}

/// One line of the versions page of a crate.
pub struct Versionpage {
    pub version: String,
    pub updated_at: String,
    pub downloads: String,
    pub dependents: usize,
}

/// A crate name and one of its versions.
pub struct NameVersion {
    pub name: String,
    pub version: String,
}

impl NameVersion {
    /// Parses `name/version`: exactly one `/`, the name before it and the
    /// version after it; anything else gives `None`.
    pub fn from_string(name_version: &str) -> (r: Option<NameVersion>)
        ensures
            r is Some <==> split_on(name_version@, '/').len() == 2,
            r matches Some(nv) ==> nv.name@ == split_on(name_version@, '/')[0] && nv.version@
                == split_on(name_version@, '/')[1],
    {
        let parts = split_by(name_version, '/');
        if parts.len() == 2 {
            assert(views(parts@)[0] == parts@[0]@);
            assert(views(parts@)[1] == parts@[1]@);
            Some(NameVersion { name: parts[0].clone(), version: parts[1].clone() })
        } else {
            None
        }
    }
}


/// One search hit: a crate, the namespace it lives in (`front/behind`) and
/// its greatest version (`null` when it has none).
pub struct SearchHit {
    pub name: String,
    pub namespace: String,
    pub max_version: String,
}

/// Two hits name the same crate in the same namespace.
pub open spec fn same_crate(a: SearchHit, b: SearchHit) -> bool {
    a.name@ == b.name@ && a.namespace@ == b.namespace@
}

/// The hits without repeats: a hit is kept when no earlier hit names the
/// same crate in the same namespace.
pub open spec fn first_hits(s: Seq<SearchHit>) -> Seq<SearchHit>
    decreases s.len(),
{
    if s.len() == 0 {
        s
    } else {
        let rest = first_hits(s.drop_last());
        if exists|j: int| 0 <= j < s.len() - 1 && same_crate(#[trigger] s[j], s.last()) {
            rest
        } else {
            rest.push(s.last())
        }
    }
}

/// Removing repeats keeps only hits of the search.
pub proof fn lemma_first_hits_from(s: Seq<SearchHit>)
    ensures
        forall|i: int| 0 <= i < first_hits(s).len() ==> s.contains(#[trigger] first_hits(s)[i]),
    decreases s.len(),
{
    if s.len() > 0 {
        let d = s.drop_last();
        lemma_first_hits_from(d);
        let rest = first_hits(d);
        let r = first_hits(s);
        assert forall|i: int| 0 <= i < r.len() implies s.contains(#[trigger] r[i]) by {
            if i < rest.len() {
                assert(r[i] == rest[i]);
                assert(d.contains(rest[i]));
                let k = choose|k: int| 0 <= k < d.len() && d[k] == rest[i];
                assert(s[k] == d[k]);
            } else {
                assert(s[s.len() - 1] == r[i]);
            }
        }
    }
}

/// Once repeats are removed, no crate is named twice.
pub proof fn lemma_first_hits_distinct(s: Seq<SearchHit>)
    ensures
        forall|i: int, j: int|
            0 <= i < j < first_hits(s).len() ==> !same_crate(
                #[trigger] first_hits(s)[i],
                #[trigger] first_hits(s)[j],
            ),
    decreases s.len(),
{
    if s.len() > 0 {
        let d = s.drop_last();
        let last = s.last();
        lemma_first_hits_distinct(d);
        lemma_first_hits_from(d);
        let rest = first_hits(d);
        let r = first_hits(s);
        if !exists|j: int| 0 <= j < s.len() - 1 && same_crate(#[trigger] s[j], last) {
            assert(r == rest.push(last));
            assert forall|i: int, j: int| 0 <= i < j < r.len() implies !same_crate(
                #[trigger] r[i],
                #[trigger] r[j],
            ) by {
                assert(r[i] == rest[i]);
                if j == r.len() - 1 {
                    assert(d.contains(rest[i]));
                    let k = choose|k: int| 0 <= k < d.len() && d[k] == rest[i];
                    assert(s[k] == d[k]);
                    assert(!same_crate(s[k], last));
                } else {
                    assert(r[j] == rest[j]);
                }
            }
        }
    }
}

/// Removing repeats loses no crate of the search.
pub proof fn lemma_first_hits_complete(s: Seq<SearchHit>)
    ensures
        forall|k: int|
            #![trigger s[k]]
            0 <= k < s.len() ==> exists|i: int|
                0 <= i < first_hits(s).len() && same_crate(#[trigger] first_hits(s)[i], s[k]),
    decreases s.len(),
{
    if s.len() > 0 {
        let d = s.drop_last();
        let last = s.last();
        lemma_first_hits_complete(d);
        let rest = first_hits(d);
        let r = first_hits(s);
        let dup = exists|j: int| 0 <= j < s.len() - 1 && same_crate(#[trigger] s[j], last);
        assert forall|k: int| #![trigger s[k]] 0 <= k < s.len() implies exists|i: int|
            0 <= i < r.len() && same_crate(#[trigger] r[i], s[k]) by {
            if k < s.len() - 1 {
                assert(s[k] == d[k]);
                let i = choose|i: int| 0 <= i < rest.len() && same_crate(#[trigger] rest[i], d[k]);
                assert(r[i] == rest[i]);
            } else if dup {
                let j = choose|j: int| 0 <= j < s.len() - 1 && same_crate(#[trigger] s[j], last);
                assert(s[j] == d[j]);
                let i = choose|i: int| 0 <= i < rest.len() && same_crate(#[trigger] rest[i], d[j]);
                assert(r[i] == rest[i]);
                assert(same_crate(r[i], s[k]));
            } else {
                assert(r == rest.push(last));
                assert(same_crate(r[r.len() - 1], s[k]));
            }
        }
    }
}

/// The number of pages of `per_page` entries that `n` entries fill; an
/// empty result still has one page.
pub open spec fn page_count(n: nat, per_page: nat) -> nat {
    if n == 0 || n % per_page != 0 {
        n / per_page + 1
    } else {
        n / per_page
    }
}

/// The page count is the least number of pages of `per_page` entries
/// that hold all `n` entries, and at least one: the pages before the last
/// hold fewer than `n` entries, and all pages together hold them all.
pub proof fn lemma_page_count_least(n: nat, per_page: nat)
    requires
        per_page >= 1,
    ensures
        page_count(n, per_page) >= 1,
        n <= page_count(n, per_page) * per_page,
        n > 0 ==> (page_count(n, per_page) - 1) * per_page < n,
        n == 0 ==> page_count(n, per_page) == 1,
{
    let q = n / per_page;
    let r = n % per_page;
    assert(n == q * per_page + r && 0 <= r < per_page) by (nonlinear_arith)
        requires
            per_page >= 1,
            q == n / per_page,
            r == n % per_page,
    ;
    if n == 0 {
        assert(q == 0) by (nonlinear_arith)
            requires
                n == 0,
                per_page >= 1,
                q == n / per_page,
        ;
    } else if r != 0 {
        assert(n <= (q + 1) * per_page && q * per_page < n) by (nonlinear_arith)
            requires
                n == q * per_page + r,
                0 < r < per_page,
        ;
    } else {
        assert(q >= 1) by (nonlinear_arith)
            requires
                n == q * per_page,
                n > 0,
                per_page >= 1,
        ;
        assert((q - 1) * per_page < n) by (nonlinear_arith)
            requires
                n == q * per_page,
                per_page >= 1,
                q >= 1,
        ;
    }
}

/// The version a search lists for a hit: `0.0.0` in place of `null`.
pub open spec fn listed_version(v: Seq<char>) -> Seq<char> {
    if v == "null"@ {
        "0.0.0"@
    } else {
        v
    }
}

/// The list entry for a hit.
pub open spec fn item_for(h: SearchHit, it: QueryItem) -> bool {
    &&& it.name@ == h.name@
    &&& it.version@ == listed_version(h.max_version@)
    &&& it.date@ == Seq::<char>::empty()
    &&& it.nsfront@ == split_on(h.namespace@, '/')[0]
    &&& it.nsbehind@ == split_on(h.namespace@, '/')[1]
}

fn copy_hit(h: &SearchHit) -> (r: SearchHit)
    ensures
        r.name@ == h.name@,
        r.namespace@ == h.namespace@,
        r.max_version@ == h.max_version@,
{
    SearchHit {
        name: h.name.clone(),
        namespace: h.namespace.clone(),
        max_version: h.max_version.clone(),
    }
}

/// Views of hits: the texts they hold.
pub open spec fn hit_key(h: SearchHit) -> (Seq<char>, Seq<char>, Seq<char>) {
    (h.name@, h.namespace@, h.max_version@)
}

/// Removes repeated hits, keeping the first of each crate and namespace.
pub fn dedup_hits(hits: &Vec<SearchHit>) -> (r: Vec<SearchHit>)
    ensures
        r@.map_values(|h: SearchHit| hit_key(h)) == first_hits(hits@).map_values(
            |h: SearchHit| hit_key(h),
        ),
{
    let mut out: Vec<SearchHit> = Vec::new();
    let mut i: usize = 0;
    while i < hits.len()
        invariant
            i <= hits@.len(),
            out@.map_values(|h: SearchHit| hit_key(h)) == first_hits(hits@.take(i as int)).map_values(
                |h: SearchHit| hit_key(h),
            ),
        decreases hits.len() - i,
    {
        let h = &hits[i];
        let ghost pre = hits@.take(i as int);
        let ghost cur = hits@.take(i + 1);
        assert(cur.drop_last() =~= pre);
        assert(cur.last() == hits@[i as int]);
        let mut seen = false;
        let mut j: usize = 0;
        while j < i
            invariant
                j <= i < hits@.len(),
                h == hits@[i as int],
                seen == exists|k: int| 0 <= k < j && same_crate(#[trigger] hits@[k], *h),
            decreases i - j,
        {
            if hits[j].name == h.name && hits[j].namespace == h.namespace {
                seen = true;
            }
            j += 1;
        }
        proof {
            if seen {
                let k = choose|k: int| 0 <= k < i && same_crate(#[trigger] hits@[k], *h);
                assert(cur[k] == hits@[k]);
            }
            if exists|k: int| 0 <= k < cur.len() - 1 && same_crate(#[trigger] cur[k], cur.last()) {
                let k = choose|k: int| 0 <= k < cur.len() - 1 && same_crate(#[trigger] cur[k], cur.last());
                assert(cur[k] == hits@[k]);
            }
        }
        let ghost before = out@.map_values(|h: SearchHit| hit_key(h));
        if !seen {
            let c = copy_hit(h);
            out.push(c);
            assert(out@.map_values(|h: SearchHit| hit_key(h)) =~= before.push(hit_key(*h)));
            assert(first_hits(cur) == first_hits(pre).push(*h));
            assert(first_hits(cur).map_values(|h: SearchHit| hit_key(h)) =~= first_hits(pre).map_values(
                |h: SearchHit| hit_key(h),
            ).push(hit_key(*h)));
        }
        i += 1;
    }
    assert(hits@.take(hits@.len() as int) =~= hits@);
    out
}

/// The response to a search: the hits without repeats, the number of pages
/// of `per_page` entries they fill, and the entries of page `page`, which
/// always holds (up to) twenty entries starting at entry `(page - 1) * 20`.
pub fn query_response(hits: &Vec<SearchHit>, page: usize, per_page: usize) -> (r:
    QueryCratesInfo)
    requires
        page >= 1,
        per_page >= 1,
        (page - 1) * 20 + 20 <= usize::MAX,
        forall|k: int|
            (page - 1) * 20 <= k < first_hits(hits@).len() && k < (page - 1) * 20 + 20
                ==> (#[trigger] first_hits(hits@)[k]).namespace@.contains('/'),
    ensures
        r.code == 200,
        r.message@ == "成功"@,
        r.data.total_page == page_count(first_hits(hits@).len(), per_page as nat),
        ({
            let u = first_hits(hits@);
            let start = (page - 1) * 20;
            let end = if u.len() < start + 20 {
                u.len() as int
            } else {
                start + 20
            };
            &&& r.data.items@.len() == if end > start {
                end - start
            } else {
                0
            }
            &&& forall|k: int|
                0 <= k < r.data.items@.len() ==> item_for(u[start + k], #[trigger] r.data.items@[k])
        }),
{
    let uniq = dedup_hits(hits);
    let ghost u = first_hits(hits@);
    assert(uniq@.len() == u.len()) by {
        assert(uniq@.map_values(|h: SearchHit| hit_key(h)).len() == u.map_values(|h: SearchHit| hit_key(h)).len());
    }
    let n = uniq.len();
    let mut total_page = n / per_page;
    if n == 0 || n % per_page != 0 {
        assert(n / per_page < usize::MAX) by (nonlinear_arith)
            requires
                per_page >= 1,
                n == 0 || n % per_page != 0,
                n <= usize::MAX,
        {
            if per_page == 1 {
                assert(n % per_page == 0);
            }
        }
        total_page += 1;
    }
    let start = (page - 1) * 20;
    let mut items: Vec<QueryItem> = Vec::new();
    let mut i = start;
    while i < start + 20 && i < n
        invariant
            start == (page - 1) * 20,
            start + 20 <= usize::MAX,
            start <= i <= start + 20,
            n == uniq@.len(),
            n == u.len(),
            u == first_hits(hits@),
            uniq@.map_values(|h: SearchHit| hit_key(h)) == u.map_values(|h: SearchHit| hit_key(h)),
            forall|k: int|
                start <= k < u.len() && k < start + 20 ==> (#[trigger] u[k]).namespace@.contains('/'),
            i <= n || i == start,
            items@.len() == i - start,
            forall|k: int| 0 <= k < items@.len() ==> item_for(u[start + k], #[trigger] items@[k]),
        decreases start + 20 - i,
    {
        let h = &uniq[i];
        assert(hit_key(uniq@[i as int]) == hit_key(u[i as int])) by {
            assert(uniq@.map_values(|h: SearchHit| hit_key(h))[i as int] == u.map_values(|h: SearchHit| hit_key(h))[i as int]);
        }
        assert(u[i as int].namespace@.contains('/'));
        let parts = split_by(h.namespace.as_str(), '/');
        proof {
            crate::text::lemma_split_has_sep(h.namespace@, '/');
            assert(views(parts@)[0] == parts@[0]@);
            assert(views(parts@)[1] == parts@[1]@);
        }
        let version = if str_eq(h.max_version.as_str(), "null") {
            "0.0.0".to_owned()
        } else {
            h.max_version.clone()
        };
        let it = QueryItem {
            name: h.name.clone(),
            version,
            date: String::new(),
            nsfront: parts[0].clone(),
            nsbehind: parts[1].clone(),
        };
        items.push(it);
        i += 1;
    }
    QueryCratesInfo {
        code: 200,
        message: "成功".to_owned(),
        data: QueryData { total_page, items },
    }
}


/// The `name/version` text of a release.
pub open spec fn nv_text(name: Seq<char>, version: Seq<char>) -> Seq<char> {
    name + seq!['/'] + version
}

/// The `name/version` text of a release parses back into the release,
/// when neither part holds `/`.
pub proof fn lemma_name_version_roundtrip(name: Seq<char>, version: Seq<char>)
    requires
        !name.contains('/'),
        !version.contains('/'),
    ensures
        split_on(nv_text(name, version), '/') == seq![name, version],
{
    let pieces = seq![name, version];
    assert(pieces.drop_last() =~= seq![name]);
    assert(join_with(pieces.drop_last(), '/') == name);
    assert(pieces.last() == version);
    assert(join_with(pieces, '/') == join_with(pieces.drop_last(), '/').push('/') + pieces.last());
    assert(name.push('/') + version =~= nv_text(name, version));
    crate::text::lemma_split_join(pieces, '/');
}

/// `name/version`.
pub fn name_and_version(name: &str, version: &str) -> (r: String)
    ensures
        r@ == nv_text(name@, version@),
{
    let mut r = name.to_owned();
    crate::text::push_char(&mut r, '/');
    r.append(version);
    r
}

/// No direct dependency is the release `node`.
pub open spec fn not_direct(node: Seq<char>, direct: Seq<NameVersion>) -> bool {
    forall|j: int| 0 <= j < direct.len() ==> nv_text(direct[j].name@, direct[j].version@) != node
}

/// The dependencies in `all` (as `name/version` texts) that are not direct
/// dependencies, in order.
pub fn indirect_nodes(all: &Vec<String>, direct: &Vec<NameVersion>) -> (r: Vec<String>)
    ensures
        views(r@) == views(all@).filter(|x: Seq<char>| not_direct(x, direct@)),
{
    let ghost pred = |x: Seq<char>| not_direct(x, direct@);
    let mut out: Vec<String> = Vec::new();
    let mut i: usize = 0;
    while i < all.len()
        invariant
            i <= all@.len(),
            pred == (|x: Seq<char>| not_direct(x, direct@)),
            views(out@) == views(all@).take(i as int).filter(pred),
        decreases all.len() - i,
    {
        let node = &all[i];
        let mut dr = false;
        let mut j: usize = 0;
        while j < direct.len()
            invariant
                j <= direct@.len(),
                dr == exists|k: int|
                    0 <= k < j && nv_text(direct@[k].name@, direct@[k].version@) == node@,
            decreases direct.len() - j,
        {
            let nv = name_and_version(direct[j].name.as_str(), direct[j].version.as_str());
            if nv == *node {
                dr = true;
            }
            j += 1;
        }
        proof {
            views(all@).take(i as int).lemma_filter_push(node@, pred);
            assert(views(all@).take(i + 1) =~= views(all@).take(i as int).push(node@));
            if dr {
                let k = choose|k: int|
                    0 <= k < direct@.len() && nv_text(direct@[k].name@, direct@[k].version@)
                        == node@;
                assert(!pred(node@));
            }
        }
        let ghost before = views(out@);
        if !dr {
            out.push(node.clone());
            assert(views(out@) =~= before.push(node@));
        }
        i += 1;
    }
    assert(views(all@).take(all@.len() as int) =~= views(all@));
    out
}

/// The dependencies page: the direct dependencies first, each with its
/// dependency count, then the indirect ones (`name/version` texts) with
/// theirs.
pub fn dependency_info(
    direct: &Vec<NameVersion>,
    direct_counts: &Vec<usize>,
    indirect: &Vec<String>,
    indirect_counts: &Vec<usize>,
) -> (r: DependencyInfo)
    requires
        direct_counts@.len() == direct@.len(),
        indirect_counts@.len() == indirect@.len(),
        forall|k: int| 0 <= k < indirect@.len() ==> (#[trigger] indirect@[k])@.contains('/'),
    ensures
        r.direct_count == direct@.len(),
        r.indirect_count == indirect@.len(),
        r.data@.len() == direct@.len() + indirect@.len(),
        forall|k: int|
            0 <= k < direct@.len() ==> {
                let d = #[trigger] r.data@[k];
                &&& d.crate_name@ == direct@[k].name@
                &&& d.version@ == direct@[k].version@
                &&& d.relation@ == "Direct"@
                &&& d.license@ == Seq::<char>::empty()
                &&& d.dependencies == direct_counts@[k]
            },
        forall|k: int|
            0 <= k < indirect@.len() ==> {
                let d = r.data@[direct@.len() + k];
                &&& d.crate_name@ == split_on((#[trigger] indirect@[k])@, '/')[0]
                &&& d.version@ == split_on(indirect@[k]@, '/')[1]
                &&& d.relation@ == "Indirect"@
                &&& d.license@ == Seq::<char>::empty()
                &&& d.dependencies == indirect_counts@[k]
            },
{
    let mut data: Vec<DependencyCrateInfo> = Vec::new();
    let mut i: usize = 0;
    while i < direct.len()
        invariant
            i <= direct@.len(),
            direct_counts@.len() == direct@.len(),
            data@.len() == i,
            forall|k: int|
                0 <= k < i ==> {
                    let d = #[trigger] data@[k];
                    &&& d.crate_name@ == direct@[k].name@
                    &&& d.version@ == direct@[k].version@
                    &&& d.relation@ == "Direct"@
                    &&& d.license@ == Seq::<char>::empty()
                    &&& d.dependencies == direct_counts@[k]
                },
        decreases direct.len() - i,
    {
        data.push(
            DependencyCrateInfo {
                crate_name: direct[i].name.clone(),
                version: direct[i].version.clone(),
                relation: "Direct".to_owned(),
                license: String::new(),
                dependencies: direct_counts[i],
            },
        );
        i += 1;
    }
    let mut j: usize = 0;
    while j < indirect.len()
        invariant
            j <= indirect@.len(),
            indirect_counts@.len() == indirect@.len(),
            forall|k: int| 0 <= k < indirect@.len() ==> (#[trigger] indirect@[k])@.contains('/'),
            data@.len() == direct@.len() + j,
            forall|k: int|
                0 <= k < direct@.len() ==> {
                    let d = #[trigger] data@[k];
                    &&& d.crate_name@ == direct@[k].name@
                    &&& d.version@ == direct@[k].version@
                    &&& d.relation@ == "Direct"@
                    &&& d.license@ == Seq::<char>::empty()
                    &&& d.dependencies == direct_counts@[k]
                },
            forall|k: int|
                0 <= k < j ==> {
                    let d = data@[direct@.len() + k];
                    &&& d.crate_name@ == split_on((#[trigger] indirect@[k])@, '/')[0]
                    &&& d.version@ == split_on(indirect@[k]@, '/')[1]
                    &&& d.relation@ == "Indirect"@
                    &&& d.license@ == Seq::<char>::empty()
                    &&& d.dependencies == indirect_counts@[k]
                },
        decreases indirect.len() - j,
    {
        let parts = split_by(indirect[j].as_str(), '/');
        proof {
            crate::text::lemma_split_has_sep(indirect@[j as int]@, '/');
            assert(views(parts@)[0] == parts@[0]@);
            assert(views(parts@)[1] == parts@[1]@);
        }
        let ghost before = data@;
        data.push(
            DependencyCrateInfo {
                crate_name: parts[0].clone(),
                version: parts[1].clone(),
                relation: "Indirect".to_owned(),
                license: String::new(),
                dependencies: indirect_counts[j],
            },
        );
        assert forall|k: int| 0 <= k < before.len() implies #[trigger] data@[k] == before[k] by {}
        j += 1;
    }
    DependencyInfo { direct_count: direct.len(), indirect_count: indirect.len(), data }
}

/// How many of the first `cap` entries of a list of `n` are listed.
pub open spec fn listed(n: nat, cap: nat) -> nat {
    if n < cap {
        n
    } else {
        cap
    }
}

/// The dependents page: at most fifty direct dependents, then at most
/// forty-nine indirect ones (`name/version` texts), with the full counts.
pub fn dependent_info(direct: &Vec<NameVersion>, indirect: &Vec<String>) -> (r: DependentInfo)
    requires
        forall|k: int|
            0 <= k < indirect@.len() && k < 50 ==> (#[trigger] indirect@[k])@.contains('/'),
    ensures
        r.direct_count == direct@.len(),
        r.indirect_count == indirect@.len(),
        r.data@.len() == listed(direct@.len(), 50) + listed(indirect@.len(), 49),
        forall|k: int|
            0 <= k < listed(direct@.len(), 50) ==> {
                let d = #[trigger] r.data@[k];
                &&& d.crate_name@ == direct@[k].name@
                &&& d.version@ == direct@[k].version@
                &&& d.relation@ == "Direct"@
            },
        forall|k: int|
            0 <= k < listed(indirect@.len(), 49) ==> {
                let d = r.data@[listed(direct@.len(), 50) + k];
                &&& d.crate_name@ == split_on((#[trigger] indirect@[k])@, '/')[0]
                &&& d.version@ == split_on(indirect@[k]@, '/')[1]
                &&& d.relation@ == "Indirect"@
            },
{
    let mut data: Vec<DependentData> = Vec::new();
    let mut count1: usize = 0;
    while count1 < direct.len() && count1 < 50
        invariant
            count1 <= direct@.len(),
            count1 <= 50,
            data@.len() == count1,
            forall|k: int|
                0 <= k < count1 ==> {
                    let d = #[trigger] data@[k];
                    &&& d.crate_name@ == direct@[k].name@
                    &&& d.version@ == direct@[k].version@
                    &&& d.relation@ == "Direct"@
                },
        decreases direct.len() - count1,
    {
        data.push(
            DependentData {
                crate_name: direct[count1].name.clone(),
                version: direct[count1].version.clone(),
                relation: "Direct".to_owned(),
            },
        );
        count1 += 1;
    }
    let ghost m = data@.len();
    assert(m == listed(direct@.len(), 50));
    let mut count2: usize = 0;
    while count2 < indirect.len() && count2 < 49
        invariant
            count2 <= indirect@.len(),
            count2 <= 49,
            m == listed(direct@.len(), 50),
            forall|k: int|
                0 <= k < indirect@.len() && k < 50 ==> (#[trigger] indirect@[k])@.contains('/'),
            data@.len() == m + count2,
            forall|k: int|
                0 <= k < m ==> {
                    let d = #[trigger] data@[k];
                    &&& d.crate_name@ == direct@[k].name@
                    &&& d.version@ == direct@[k].version@
                    &&& d.relation@ == "Direct"@
                },
            forall|k: int|
                0 <= k < count2 ==> {
                    let d = data@[m + k];
                    &&& d.crate_name@ == split_on((#[trigger] indirect@[k])@, '/')[0]
                    &&& d.version@ == split_on(indirect@[k]@, '/')[1]
                    &&& d.relation@ == "Indirect"@
                },
        decreases indirect.len() - count2,
    {
        let parts = split_by(indirect[count2].as_str(), '/');
        proof {
            crate::text::lemma_split_has_sep(indirect@[count2 as int]@, '/');
            assert(views(parts@)[0] == parts@[0]@);
            assert(views(parts@)[1] == parts@[1]@);
        }
        let ghost before = data@;
        data.push(
            DependentData {
                crate_name: parts[0].clone(),
                version: parts[1].clone(),
                relation: "Indirect".to_owned(),
            },
        );
        assert forall|k: int| 0 <= k < before.len() implies #[trigger] data@[k] == before[k] by {}
        assert forall|k: int| 0 <= k < count2 + 1 implies {
            let d = data@[m + k];
            &&& d.crate_name@ == split_on((#[trigger] indirect@[k])@, '/')[0]
            &&& d.version@ == split_on(indirect@[k]@, '/')[1]
            &&& d.relation@ == "Indirect"@
        } by {
            if k < count2 {
                assert(data@[m + k] == before[m + k]);
            } else {
                assert(k == count2);
                assert(m + k == before.len());
            }
        }
        count2 += 1;
    }
    DependentInfo { direct_count: direct.len(), indirect_count: indirect.len(), data }
}


/// A link as the front page shows it: empty in place of `null` or `None`.
pub open spec fn shown_link(s: Seq<char>) -> Seq<char> {
    if s == "null"@ || s == "None"@ {
        Seq::<char>::empty()
    } else {
        s
    }
}

fn link_or_empty(s: String) -> (r: String)
    ensures
        r@ == shown_link(s@),
{
    if str_eq(s.as_str(), "null") || str_eq(s.as_str(), "None") {
        String::new()
    } else {
        s
    }
}

/// The version a front page is asked for: for `default`, the greatest of
/// the library and application versions (see `greatest_version`).
pub open spec fn requested_version(
    version: Seq<char>,
    lib_versions: Seq<Seq<char>>,
    app_versions: Seq<Seq<char>>,
) -> Option<Seq<char>> {
    if version == "default"@ {
        greatest_version(lib_versions + app_versions)
    } else {
        Some(version)
    }
}

/// Resolves the version a front page is asked for; `None` where the
/// greatest version cannot be found (a release part that is not a number).
pub fn resolve_version(version: &str, lib_versions: &Vec<String>, app_versions: &Vec<String>) -> (r:
    Option<String>)
    ensures
        r is Some <==> requested_version(version@, views(lib_versions@), views(app_versions@)) is Some,
        r matches Some(v) ==> v@ == requested_version(
            version@,
            views(lib_versions@),
            views(app_versions@),
        )->0,
{
    if str_eq(version, "default") {
        let mut all = crate::text::clone_strings(lib_versions);
        let mut more = crate::text::clone_strings(app_versions);
        let ghost a = views(all@);
        let ghost b = views(more@);
        all.append(&mut more);
        assert(views(all@) =~= a + b);
        try_max_version(&all)
    } else {
        Some(version.to_owned())
    }
}

/// The front page of a crate version computed afresh: its counts, its
/// advisories, the first license found, the links (empty for `null` or
/// `None`) and the library versions newest first.
pub fn front_info(
    name: String,
    github_url: String,
    doc_url: String,
    direct_dependencies: usize,
    indirect_dependencies: usize,
    direct_dependents: usize,
    cves: Vec<RustSec>,
    dep_cves: Vec<RustSec>,
    licenses: &Vec<String>,
    lib_versions: &Vec<String>,
) -> (r: Crateinfo)
    requires
        licenses@.len() >= 1,
    ensures
        r.crate_name@ == name@,
        r.description@ == Seq::<char>::empty(),
        r.dependencies.direct == direct_dependencies,
        r.dependencies.indirect == indirect_dependencies,
        r.dependents.direct == direct_dependents,
        r.dependents.indirect == 0,
        advisory_views(r.cves@) == advisory_views(cves@),
        advisory_views(r.dep_cves@) == advisory_views(dep_cves@),
        r.license@ == licenses@[0]@,
        r.github_url@ == shown_link(github_url@),
        r.doc_url@ == shown_link(doc_url@),
        views(r.versions@) == sort_desc(views(lib_versions@)),
{
    Crateinfo {
        crate_name: name,
        description: String::new(),
        dependencies: DependencyCount { direct: direct_dependencies, indirect: indirect_dependencies },
        dependents: DependentCount { direct: direct_dependents, indirect: 0 },
        cves,
        dep_cves,
        license: licenses[0].clone(),
        github_url: link_or_empty(github_url),
        doc_url: link_or_empty(doc_url),
        versions: sort_versions_desc(lib_versions),
    }
}

/// A cached versions-page line, `version|updated|downloads|dependents`,
/// that the page can be read from: at least four `|`-separated parts and
/// a dependents count that is a `usize`.
pub open spec fn readable_line(line: Seq<char>) -> bool {
    let p = split_on(line, '|');
    p.len() >= 4 && usize_value(p[3]) is Some
}

/// The entry a readable cached line gives.
pub open spec fn entry_of_line(line: Seq<char>, e: Versionpage) -> bool {
    let p = split_on(line, '|');
    &&& e.version@ == p[0]
    &&& e.updated_at@ == p[1]
    &&& e.downloads@ == p[2]
    &&& usize_value(p[3]) == Some(e.dependents as nat)
}

/// The versions page read back from its cached form: `/`-separated lines,
/// each `version|updated|downloads|dependents`.
pub fn version_page_from_cache(cached: &str) -> (r: Vec<Versionpage>)
    requires
        forall|i: int|
            0 <= i < split_on(cached@, '/').len() ==> readable_line(
                #[trigger] split_on(cached@, '/')[i],
            ),
    ensures
        r@.len() == split_on(cached@, '/').len(),
        forall|i: int|
            0 <= i < r@.len() ==> entry_of_line(split_on(cached@, '/')[i], #[trigger] r@[i]),
{
    let lines = split_by(cached, '/');
    let ghost ls = split_on(cached@, '/');
    let mut out: Vec<Versionpage> = Vec::new();
    let mut i: usize = 0;
    while i < lines.len()
        invariant
            i <= lines@.len(),
            views(lines@) == ls,
            ls == split_on(cached@, '/'),
            forall|k: int| 0 <= k < ls.len() ==> readable_line(#[trigger] ls[k]),
            out@.len() == i,
            forall|k: int| 0 <= k < i ==> entry_of_line(ls[k], #[trigger] out@[k]),
        decreases lines.len() - i,
    {
        assert(ls[i as int] == lines@[i as int]@);
        assert(readable_line(ls[i as int]));
        let parts = split_by(lines[i].as_str(), '|');
        assert(views(parts@)[3] == parts@[3]@);
        assert(views(parts@)[0] == parts@[0]@);
        assert(views(parts@)[1] == parts@[1]@);
        assert(views(parts@)[2] == parts@[2]@);
        let dependents = match parse_usize(parts[3].as_str()) {
            Some(n) => n,
            None => {
                assert(false);
                0
            },
        };
        out.push(
            Versionpage {
                version: parts[0].clone(),
                updated_at: parts[1].clone(),
                downloads: parts[2].clone(),
                dependents,
            },
        );
        i += 1;
    }
    out
}

/// The versions-page line for `version` from the crates.io dump entry
/// `updated/downloads`; none for an empty entry or one that does not have
/// exactly two parts.
pub fn version_page_from_dump(version: String, dependents: usize, dump: &str) -> (r: Option<
    Versionpage,
>)
    ensures
        r is Some <==> (dump@.len() > 0 && split_on(dump@, '/').len() == 2),
        r matches Some(e) ==> {
            &&& e.version@ == version@
            &&& e.dependents == dependents
            &&& e.updated_at@ == split_on(dump@, '/')[0]
            &&& e.downloads@ == split_on(dump@, '/')[1]
        },
{
    if dump.is_empty() {
        return None;
    }
    let parts = split_by(dump, '/');
    if parts.len() == 2 {
        assert(views(parts@)[0] == parts@[0]@);
        assert(views(parts@)[1] == parts@[1]@);
        Some(
            Versionpage {
                version,
                updated_at: parts[0].clone(),
                downloads: parts[1].clone(),
                dependents,
            },
        )
    } else {
        None
    }
}


/// A versions-page line as plain values: version, update time, downloads,
/// dependents.
pub open spec fn page_line(e: Versionpage) -> (Seq<char>, Seq<char>, Seq<char>, usize) {
    (e.version@, e.updated_at@, e.downloads@, e.dependents)
}

/// The versions page assembled from the versions in page order, each
/// version's dependents count and its crates.io dump entry: a line per
/// version whose entry is `updated/downloads`, the others left out.
pub open spec fn page_lines(
    versions: Seq<Seq<char>>,
    dependents: Seq<usize>,
    dumps: Seq<Seq<char>>,
) -> Seq<(Seq<char>, Seq<char>, Seq<char>, usize)>
    decreases versions.len(),
{
    if versions.len() == 0 {
        Seq::empty()
    } else {
        let rest = page_lines(versions.drop_last(), dependents.drop_last(), dumps.drop_last());
        let d = dumps.last();
        if d.len() > 0 && split_on(d, '/').len() == 2 {
            rest.push((versions.last(), split_on(d, '/')[0], split_on(d, '/')[1], dependents.last()))
        } else {
            rest
        }
    }
}

/// Assembles the versions page: `versions` in page order (newest first, as
/// `sort_versions_desc` gives them), and for the version at each position
/// its dependents count and crates.io dump entry.
pub fn version_page(versions: &Vec<String>, dependents: &Vec<usize>, dumps: &Vec<String>) -> (r: Vec<
    Versionpage,
>)
    requires
        dependents@.len() == versions@.len(),
        dumps@.len() == versions@.len(),
    ensures
        r@.map_values(|e: Versionpage| page_line(e)) == page_lines(
            views(versions@),
            dependents@,
            views(dumps@),
        ),
{
    let mut out: Vec<Versionpage> = Vec::new();
    let mut i: usize = 0;
    while i < versions.len()
        invariant
            i <= versions@.len(),
            dependents@.len() == versions@.len(),
            dumps@.len() == versions@.len(),
            out@.map_values(|e: Versionpage| page_line(e)) == page_lines(
                views(versions@).take(i as int),
                dependents@.take(i as int),
                views(dumps@).take(i as int),
            ),
        decreases versions.len() - i,
    {
        proof {
            assert(views(versions@).take(i + 1).drop_last() =~= views(versions@).take(i as int));
            assert(dependents@.take(i + 1).drop_last() =~= dependents@.take(i as int));
            assert(views(dumps@).take(i + 1).drop_last() =~= views(dumps@).take(i as int));
            assert(views(dumps@).take(i + 1).last() == dumps@[i as int]@);
            assert(views(versions@).take(i + 1).last() == versions@[i as int]@);
        }
        let ghost before = out@;
        match version_page_from_dump(versions[i].clone(), dependents[i], dumps[i].as_str()) {
            Some(e) => {
                out.push(e);
                assert(out@.map_values(|e: Versionpage| page_line(e)) =~= before.map_values(
                    |e: Versionpage| page_line(e),
                ).push(page_line(e)));
            },
            None => {},
        }
        i += 1;
    }
    assert(views(versions@).take(versions.len() as int) =~= views(versions@));
    assert(dependents@.take(versions.len() as int) =~= dependents@);
    assert(views(dumps@).take(versions.len() as int) =~= views(dumps@));
    out
}


/// The versions page of a crate from its library versions: they are put
/// newest first (`sort_versions_desc`), and the dependents counts and dump
/// entries are those of the versions in that order.
pub fn version_page_of(lib_versions: &Vec<String>, dependents: &Vec<usize>, dumps: &Vec<String>) -> (r:
    Vec<Versionpage>)
    requires
        dependents@.len() == lib_versions@.len(),
        dumps@.len() == lib_versions@.len(),
    ensures
        r@.map_values(|e: Versionpage| page_line(e)) == page_lines(
            sort_desc(views(lib_versions@)),
            dependents@,
            views(dumps@),
        ),
{
    let sorted = sort_versions_desc(lib_versions);
    proof {
        lemma_sort_desc_len(views(lib_versions@));
        assert(views(sorted@).len() == sorted@.len());
    }
    version_page(&sorted, dependents, dumps)
}

/// The front page of a crate version computed afresh from what the graph
/// gives: the direct dependencies, all dependencies (`name/version` texts)
/// of which those not direct count as indirect, and the direct dependents
/// count; the rest as `front_info` takes it.
pub fn front_page(
    name: String,
    github_url: String,
    doc_url: String,
    direct_dependencies: &Vec<NameVersion>,
    all_dependencies: &Vec<String>,
    direct_dependents: usize,
    cves: Vec<RustSec>,
    dep_cves: Vec<RustSec>,
    licenses: &Vec<String>,
    lib_versions: &Vec<String>,
) -> (r: Crateinfo)
    requires
        licenses@.len() >= 1,
    ensures
        r.crate_name@ == name@,
        r.description@ == Seq::<char>::empty(),
        r.dependencies.direct == direct_dependencies@.len(),
        r.dependencies.indirect == views(all_dependencies@).filter(
            |x: Seq<char>| not_direct(x, direct_dependencies@),
        ).len(),
        r.dependents.direct == direct_dependents,
        r.dependents.indirect == 0,
        advisory_views(r.cves@) == advisory_views(cves@),
        advisory_views(r.dep_cves@) == advisory_views(dep_cves@),
        r.license@ == licenses@[0]@,
        r.github_url@ == shown_link(github_url@),
        r.doc_url@ == shown_link(doc_url@),
        views(r.versions@) == sort_desc(views(lib_versions@)),
{
    let indirect = indirect_nodes(all_dependencies, direct_dependencies);
    assert(views(indirect@).len() == indirect@.len());
    front_info(
        name,
        github_url,
        doc_url,
        direct_dependencies.len(),
        indirect.len(),
        direct_dependents,
        cves,
        dep_cves,
        licenses,
        lib_versions,
    )
}

/// What a dependencies-page request does once the cache table has been
/// asked: reply with the stored page, or compute the page afresh.
pub enum DependencyPageStep {
    Reply(DependencyInfo),
    Compute,
}

/// The step after the dependencies-page cache lookup: the first stored
/// page is the reply, and nothing is written; with none stored, the page
/// is computed (and then stored and replied as computed).
pub fn dependency_page_on_lookup(stored: Vec<DependencyInfo>) -> (r: DependencyPageStep)
    ensures
        stored@.len() > 0 ==> r == DependencyPageStep::Reply(stored@[0]),
        stored@.len() == 0 ==> r is Compute,
{
    let mut stored = stored;
    if stored.len() > 0 {
        DependencyPageStep::Reply(stored.remove(0))
    } else {
        DependencyPageStep::Compute
    }
}

} // verus!
