use vstd::prelude::*;
use crate::advisory::{advisory_views, DBHandler, RustSec, RustSecView};
use crate::api::{Crateinfo, DependencyCount, DependentCount};
use crate::text::{
    join_by, join_with, lemma_join_excludes, lemma_split_join, split_by, split_on,
    views,
};

verus! {

/// A front page as one row of the `crates_info` cache table.
pub struct CrateInfoRow {
    pub id: String,
    pub description: String,
    pub direct_dependency: i32,
    pub indirect_dependency: i32,
    pub direct_dependent: i32,
    pub indirect_dependent: i32,
    pub cves: String,
    pub dep_cves: String,
    pub versions: String,
    pub license: String,
    pub github_url: String,
    pub doc_url: String,
}

/// The non-empty texts among `parts`, in order.
pub open spec fn keep_nonempty(parts: Seq<Seq<char>>) -> Seq<Seq<char>>
    decreases parts.len(),
{
    if parts.len() == 0 {
        parts
    } else {
        let rest = keep_nonempty(parts.drop_last());
        if parts.last().len() > 0 {
            rest.push(parts.last())
        } else {
            rest
        }
    }
}

proof fn lemma_keep_nonempty_push(s: Seq<Seq<char>>, x: Seq<char>)
    ensures
        keep_nonempty(s.push(x)) == if x.len() > 0 {
            keep_nonempty(s).push(x)
        } else {
            keep_nonempty(s)
        },
{
    assert(s.push(x).drop_last() =~= s);
}

/// An advisory as cached: id, short description and `;`-joined aliases,
/// the non-empty ones joined with `/`.
pub open spec fn encode_advisory(r: RustSecView) -> Seq<char> {
    join_with(keep_nonempty(seq![r.id, r.small_desc, join_with(r.aliases, ';')]), '/')
}

/// A list of advisories as cached: the encoded advisories joined with `|`.
pub open spec fn encode_advisories(rs: Seq<RustSecView>) -> Seq<char> {
    join_with(rs.map_values(|r: RustSecView| encode_advisory(r)), '|')
}

/// An advisory read back from one cached piece: two `/`-separated parts
/// give id and description, three give aliases as well (split at `;`);
/// crate name and patched ranges are not cached and come back empty.
pub open spec fn decode_advisory(piece: Seq<char>) -> Option<RustSecView> {
    let parts = split_on(piece, '/');
    if parts.len() == 2 {
        Some(
            RustSecView {
                id: parts[0],
                cratename: Seq::<char>::empty(),
                patched: Seq::<char>::empty(),
                aliases: Seq::<Seq<char>>::empty(),
                small_desc: parts[1],
            },
        )
    } else if parts.len() == 3 {
        Some(
            RustSecView {
                id: parts[0],
                cratename: Seq::<char>::empty(),
                patched: Seq::<char>::empty(),
                aliases: split_on(parts[2], ';'),
                small_desc: parts[1],
            },
        )
    } else {
        None
    }
}

/// The advisories read back from the pieces, skipping malformed ones.
pub open spec fn decode_pieces(pieces: Seq<Seq<char>>) -> Seq<RustSecView>
    decreases pieces.len(),
{
    if pieces.len() == 0 {
        Seq::<RustSecView>::empty()
    } else {
        let rest = decode_pieces(pieces.drop_last());
        match decode_advisory(pieces.last()) {
            Some(r) => rest.push(r),
            None => rest,
        }
    }
}

/// The advisories read back from a cached list.
pub open spec fn decode_advisories(text: Seq<char>) -> Seq<RustSecView> {
    decode_pieces(split_on(text, '|'))
}

/// An advisory as the cache keeps it: crate name and patched ranges are
/// not stored.
pub open spec fn cached_form(r: RustSecView) -> RustSecView {
    RustSecView { cratename: Seq::<char>::empty(), patched: Seq::<char>::empty(), ..r }
}

/// A text the cache encoding can carry as a field: non-empty, without the
/// `/` and `|` separators.
pub open spec fn plain_field(s: Seq<char>) -> bool {
    s.len() > 0 && !s.contains('/') && !s.contains('|')
}

/// An advisory whose id, description and aliases the cache encoding carries
/// unchanged: id and description are plain fields; no alias holds `/`, `|`
/// or `;`, and where there are aliases their `;`-joined text is not empty
/// (an alias list that joins to nothing is not written).
pub open spec fn cacheable(r: RustSecView) -> bool {
    &&& plain_field(r.id)
    &&& plain_field(r.small_desc)
    &&& forall|i: int|
        0 <= i < r.aliases.len() ==> !(#[trigger] r.aliases[i]).contains('/')
            && !r.aliases[i].contains('|') && !r.aliases[i].contains(';')
    &&& (r.aliases.len() > 0 ==> join_with(r.aliases, ';').len() > 0)
}

proof fn lemma_advisory_roundtrip(r: RustSecView)
    requires
        cacheable(r),
    ensures
        decode_advisory(encode_advisory(r)) == Some(cached_form(r)),
        !encode_advisory(r).contains('|'),
{
    let a = join_with(r.aliases, ';');
    lemma_join_excludes(r.aliases, ';', '/');
    lemma_join_excludes(r.aliases, ';', '|');
    let all = seq![r.id, r.small_desc, a];
    lemma_keep_nonempty_push(seq![r.id, r.small_desc], a);
    lemma_keep_nonempty_push(seq![r.id], r.small_desc);
    lemma_keep_nonempty_push(Seq::<Seq<char>>::empty(), r.id);
    assert(seq![r.id, r.small_desc].push(a) =~= all);
    assert(seq![r.id].push(r.small_desc) =~= seq![r.id, r.small_desc]);
    assert(Seq::<Seq<char>>::empty().push(r.id) =~= seq![r.id]);
    let parts = keep_nonempty(all);
    if r.aliases.len() == 0 {
        assert(a.len() == 0);
        assert(parts =~= seq![r.id, r.small_desc]);
        assert(r.aliases =~= Seq::<Seq<char>>::empty());
    } else {
        assert(parts =~= seq![r.id, r.small_desc, a]);
        lemma_split_join(r.aliases, ';');
    }
    assert forall|i: int| 0 <= i < parts.len() implies !(#[trigger] parts[i]).contains('/') by {}
    lemma_split_join(parts, '/');
    assert forall|i: int| 0 <= i < parts.len() implies !(#[trigger] parts[i]).contains('|') by {}
    lemma_join_excludes(parts, '/', '|');
}

proof fn lemma_decode_encoded_pieces(rs: Seq<RustSecView>)
    requires
        forall|i: int| 0 <= i < rs.len() ==> cacheable(#[trigger] rs[i]),
    ensures
        decode_pieces(rs.map_values(|r: RustSecView| encode_advisory(r))) == rs.map_values(
            |r: RustSecView| cached_form(r),
        ),
    decreases rs.len(),
{
    if rs.len() > 0 {
        let init = rs.drop_last();
        assert forall|i: int| 0 <= i < init.len() implies cacheable(#[trigger] init[i]) by {
            assert(init[i] == rs[i]);
        }
        lemma_decode_encoded_pieces(init);
        let m = rs.map_values(|r: RustSecView| encode_advisory(r));
        assert(m.drop_last() =~= init.map_values(|r: RustSecView| encode_advisory(r)));
        assert(cacheable(rs[rs.len() - 1]));
        lemma_advisory_roundtrip(rs.last());
        assert(rs.map_values(|r: RustSecView| cached_form(r)) =~= init.map_values(
            |r: RustSecView| cached_form(r),
        ).push(cached_form(rs.last())));
    }
}

/// Reading back a cached list of advisories gives every advisory as the
/// cache keeps it (crate name and patched ranges dropped), in order, when
/// their texts avoid the separators the encoding uses.
pub proof fn lemma_advisories_roundtrip(rs: Seq<RustSecView>)
    requires
        forall|i: int| 0 <= i < rs.len() ==> cacheable(#[trigger] rs[i]),
    ensures
        decode_advisories(encode_advisories(rs)) == rs.map_values(|r: RustSecView| cached_form(r)),
{
    let m = rs.map_values(|r: RustSecView| encode_advisory(r));
    if rs.len() == 0 {
        assert(m.len() == 0);
        assert(encode_advisories(rs) == Seq::<char>::empty());
        assert(split_on(Seq::<char>::empty(), '|') == seq![Seq::<char>::empty()]);
        assert(split_on(Seq::<char>::empty(), '/') == seq![Seq::<char>::empty()]);
        assert(seq![Seq::<char>::empty()].drop_last() =~= Seq::<Seq<char>>::empty());
        assert(decode_advisory(Seq::<char>::empty()) is None);
        let one = seq![Seq::<char>::empty()];
        assert(one.drop_last() =~= Seq::<Seq<char>>::empty());
        assert(decode_pieces(one.drop_last()) == Seq::<RustSecView>::empty());
        assert(one.last() == Seq::<char>::empty());
        assert(decode_pieces(one) == Seq::<RustSecView>::empty());
        assert(rs.map_values(|r: RustSecView| cached_form(r)) =~= Seq::<RustSecView>::empty());
    } else {
        assert forall|i: int| 0 <= i < m.len() implies !(#[trigger] m[i]).contains('|') by {
            assert(cacheable(rs[i]));
            lemma_advisory_roundtrip(rs[i]);
        }
        lemma_split_join(m, '|');
        assert(encode_advisories(rs) == join_with(m, '|'));
        assert(split_on(join_with(m, '|'), '|') == m);
        lemma_decode_encoded_pieces(rs);
    }
}

/// Encodes one advisory for the cache.
fn encode_one(r: &RustSec) -> (s: String)
    ensures
        s@ == encode_advisory(r@),
{
    let aliases = join_by(&r.aliases, ';');
    let mut parts: Vec<String> = Vec::new();
    let ghost all = seq![r.id@, r.small_desc@, aliases@];
    assert(all.take(0) =~= Seq::<Seq<char>>::empty());
    assert(views(parts@) =~= keep_nonempty(all.take(0)));
    let ghost p0 = views(parts@);
    if !r.id.as_str().is_empty() {
        parts.push(r.id.clone());
        assert(views(parts@) =~= p0.push(r.id@));
    }
    proof {
        lemma_keep_nonempty_push(all.take(0), r.id@);
        assert(all.take(0).push(r.id@) =~= all.take(1));
    }
    let ghost p1 = views(parts@);
    if !r.small_desc.as_str().is_empty() {
        parts.push(r.small_desc.clone());
        assert(views(parts@) =~= p1.push(r.small_desc@));
    }
    proof {
        lemma_keep_nonempty_push(all.take(1), r.small_desc@);
        assert(all.take(1).push(r.small_desc@) =~= all.take(2));
    }
    let ghost p2 = views(parts@);
    if !aliases.as_str().is_empty() {
        parts.push(aliases);
        assert(views(parts@) =~= p2.push(all[2]));
    }
    proof {
        lemma_keep_nonempty_push(all.take(2), all[2]);
        assert(all.take(2).push(all[2]) =~= all);
    }
    join_by(&parts, '/')
}

/// Encodes a list of advisories for the cache.
pub fn encode_advisories_text(rs: &Vec<RustSec>) -> (s: String)
    ensures
        s@ == encode_advisories(advisory_views(rs@)),
{
    let mut pieces: Vec<String> = Vec::new();
    let mut i: usize = 0;
    while i < rs.len()
        invariant
            i <= rs@.len(),
            views(pieces@) == advisory_views(rs@).take(i as int).map_values(
                |r: RustSecView| encode_advisory(r),
            ),
        decreases rs.len() - i,
    {
        let ghost before = views(pieces@);
        let e = encode_one(&rs[i]);
        pieces.push(e);
        assert(views(pieces@) =~= before.push(encode_advisory(rs@[i as int]@)));
        assert(advisory_views(rs@).take(i + 1) =~= advisory_views(rs@).take(i as int).push(
            rs@[i as int]@,
        ));
        assert(advisory_views(rs@).take(i + 1).map_values(|r: RustSecView| encode_advisory(r))
            =~= advisory_views(rs@).take(i as int).map_values(
            |r: RustSecView| encode_advisory(r),
        ).push(encode_advisory(rs@[i as int]@)));
        i += 1;
    }
    assert(advisory_views(rs@).take(rs@.len() as int) =~= advisory_views(rs@));
    join_by(&pieces, '|')
}

/// Reads one cached piece back.
fn decode_one(piece: &str) -> (r: Option<RustSec>)
    ensures
        r matches Some(x) ==> decode_advisory(piece@) == Some(x@),
        r is None ==> decode_advisory(piece@) is None,
{
    let parts = split_by(piece, '/');
    assert(views(parts@).len() == parts@.len());
    if parts.len() == 2 {
        assert(views(parts@)[0] == parts@[0]@);
        assert(views(parts@)[1] == parts@[1]@);
        let x = RustSec {
            id: parts[0].clone(),
            cratename: String::new(),
            patched: String::new(),
            aliases: Vec::new(),
            small_desc: parts[1].clone(),
        };
        assert(views(x.aliases@) =~= Seq::<Seq<char>>::empty());
        Some(x)
    } else if parts.len() == 3 {
        assert(views(parts@)[0] == parts@[0]@);
        assert(views(parts@)[1] == parts@[1]@);
        assert(views(parts@)[2] == parts@[2]@);
        let x = RustSec {
            id: parts[0].clone(),
            cratename: String::new(),
            patched: String::new(),
            aliases: split_by(parts[2].as_str(), ';'),
            small_desc: parts[1].clone(),
        };
        Some(x)
    } else {
        None
    }
}

/// Reads a cached list of advisories back.
pub fn decode_advisories_text(text: &str) -> (r: Vec<RustSec>)
    ensures
        advisory_views(r@) == decode_advisories(text@),
{
    let pieces = split_by(text, '|');
    let ghost ps = split_on(text@, '|');
    let mut out: Vec<RustSec> = Vec::new();
    let mut i: usize = 0;
    while i < pieces.len()
        invariant
            i <= pieces@.len(),
            views(pieces@) == ps,
            advisory_views(out@) == decode_pieces(ps.take(i as int)),
        decreases pieces.len() - i,
    {
        assert(ps.take(i + 1).drop_last() =~= ps.take(i as int));
        assert(ps.take(i + 1).last() == pieces@[i as int]@);
        let ghost before = advisory_views(out@);
        match decode_one(pieces[i].as_str()) {
            Some(x) => {
                out.push(x);
                assert(advisory_views(out@) =~= before.push(x@));
            },
            None => {},
        }
        i += 1;
    }
    assert(ps.take(pieces@.len() as int) =~= ps);
    out
}

impl DBHandler {
    /// The cache row for the front page of `namespace/name/version`: counts
    /// narrowed to `i32` as the table stores them, advisories encoded as
    /// above, versions joined with `/`.
    pub fn crates_info_row(crateinfo: &Crateinfo, namespace: &str, name: &str, version: &str) -> (r:
        CrateInfoRow)
        ensures
            r.id@ == namespace@ + seq!['/'] + name@ + seq!['/'] + version@,
            r.description@ == crateinfo.description@,
            r.direct_dependency == crateinfo.dependencies.direct as i32,
            r.indirect_dependency == crateinfo.dependencies.indirect as i32,
            r.direct_dependent == crateinfo.dependents.direct as i32,
            r.indirect_dependent == crateinfo.dependents.indirect as i32,
            r.cves@ == encode_advisories(advisory_views(crateinfo.cves@)),
            r.dep_cves@ == encode_advisories(advisory_views(crateinfo.dep_cves@)),
            r.versions@ == join_with(views(crateinfo.versions@), '/'),
            r.license@ == crateinfo.license@,
            r.github_url@ == crateinfo.github_url@,
            r.doc_url@ == crateinfo.doc_url@,
    {
        let mut id = namespace.to_owned();
        crate::text::push_char(&mut id, '/');
        id.append(name);
        crate::text::push_char(&mut id, '/');
        id.append(version);
        CrateInfoRow {
            id,
            description: crateinfo.description.clone(),
            direct_dependency: crateinfo.dependencies.direct as i32,
            indirect_dependency: crateinfo.dependencies.indirect as i32,
            direct_dependent: crateinfo.dependents.direct as i32,
            indirect_dependent: crateinfo.dependents.indirect as i32,
            cves: encode_advisories_text(&crateinfo.cves),
            dep_cves: encode_advisories_text(&crateinfo.dep_cves),
            versions: join_by(&crateinfo.versions, '/'),
            license: crateinfo.license.clone(),
            github_url: crateinfo.github_url.clone(),
            doc_url: crateinfo.doc_url.clone(),
        }
    }

    /// The front page read back from a cache row, under crate name `name`.
    pub fn crateinfo_from_row(row: &CrateInfoRow, name: String) -> (r: Crateinfo)
        ensures
            r.crate_name@ == name@,
            r.description@ == row.description@,
            r.dependencies.direct == row.direct_dependency as usize,
            r.dependencies.indirect == row.indirect_dependency as usize,
            r.dependents.direct == row.direct_dependent as usize,
            r.dependents.indirect == row.indirect_dependent as usize,
            advisory_views(r.cves@) == decode_advisories(row.cves@),
            advisory_views(r.dep_cves@) == decode_advisories(row.dep_cves@),
            views(r.versions@) == split_on(row.versions@, '/'),
            r.license@ == row.license@,
            r.github_url@ == row.github_url@,
            r.doc_url@ == row.doc_url@,
    {
        Crateinfo {
            crate_name: name,
            description: row.description.clone(),
            dependencies: DependencyCount {
                direct: row.direct_dependency as usize,
                indirect: row.indirect_dependency as usize,
            },
            dependents: DependentCount {
                direct: row.direct_dependent as usize,
                indirect: row.indirect_dependent as usize,
            },
            cves: decode_advisories_text(row.cves.as_str()),
            dep_cves: decode_advisories_text(row.dep_cves.as_str()),
            versions: split_by(row.versions.as_str(), '/'),
            license: row.license.clone(),
            github_url: row.github_url.clone(),
            doc_url: row.doc_url.clone(),
        }
    }
}


/// The key a front page is cached under: `crates_info:namespace:name:version`.
pub open spec fn front_page_key(namespace: Seq<char>, name: Seq<char>, version: Seq<char>) -> Seq<
    char,
> {
    "crates_info:"@ + namespace + ":"@ + name + ":"@ + version
}

/// The key a front page is cached under.
pub fn front_page_cache_key(namespace: &str, name: &str, version: &str) -> (r: String)
    ensures
        r@ == front_page_key(namespace@, name@, version@),
{
    let mut k = "crates_info:".to_owned();
    k.append(namespace);
    k.append(":");
    k.append(name);
    k.append(":");
    k.append(version);
    k
}

/// How long a cached front page lives: one week, in seconds.
pub fn front_page_ttl() -> (r: u64)
    ensures
        r == 7 * 24 * 60 * 60,
{
    7 * 24 * 60 * 60
}


/// What a front-page request does once the cache table has been asked:
/// reply with the stored page, or compute the page afresh.
pub enum FrontPageStep {
    Reply(Crateinfo),
    Compute,
}

/// The step after the cache lookup: the first stored page is the reply,
/// and nothing is written; with none stored, the page is computed.
pub fn front_page_on_lookup(stored: Vec<Crateinfo>) -> (r: FrontPageStep)
    ensures
        stored@.len() > 0 ==> r == FrontPageStep::Reply(stored@[0]),
        stored@.len() == 0 ==> r is Compute,
{
    let mut stored = stored;
    if stored.len() > 0 {
        FrontPageStep::Reply(stored.remove(0))
    } else {
        FrontPageStep::Compute
    }
}

/// A freshly computed front page: the row written to the cache table and
/// the page replied.
pub struct FrontPageStore {
    pub row: CrateInfoRow,
    pub reply: Crateinfo,
}

/// The step after computing a front page: it is written to the cache
/// table under `namespace/name/version` and replied as computed.
pub fn front_page_on_computed(page: Crateinfo, namespace: &str, name: &str, version: &str) -> (r:
    FrontPageStore)
    ensures
        r.reply == page,
        r.row.id@ == namespace@ + seq!['/'] + name@ + seq!['/'] + version@,
        r.row.description@ == page.description@,
        r.row.direct_dependency == page.dependencies.direct as i32,
        r.row.indirect_dependency == page.dependencies.indirect as i32,
        r.row.direct_dependent == page.dependents.direct as i32,
        r.row.indirect_dependent == page.dependents.indirect as i32,
        r.row.cves@ == encode_advisories(advisory_views(page.cves@)),
        r.row.dep_cves@ == encode_advisories(advisory_views(page.dep_cves@)),
        r.row.versions@ == join_with(views(page.versions@), '/'),
        r.row.license@ == page.license@,
        r.row.github_url@ == page.github_url@,
        r.row.doc_url@ == page.doc_url@,
{
    let row = DBHandler::crates_info_row(&page, namespace, name, version);
    FrontPageStore { row, reply: page }
}

/// A front page kept in the cache and read back has the counts, versions
/// and advisories (in their cached form) it was kept with, when its counts
/// fit the table's `i32` columns, it has at least one version and none
/// holds `/`, and its advisory texts avoid the encoding's separators.
pub proof fn lemma_front_page_roundtrip(c: Crateinfo)
    requires
        c.dependencies.direct <= i32::MAX,
        c.dependencies.indirect <= i32::MAX,
        c.dependents.direct <= i32::MAX,
        c.dependents.indirect <= i32::MAX,
        c.versions@.len() >= 1,
        forall|i: int| 0 <= i < c.versions@.len() ==> !(#[trigger] c.versions@[i])@.contains('/'),
        forall|i: int|
            0 <= i < c.cves@.len() ==> cacheable(#[trigger] advisory_views(c.cves@)[i]),
        forall|i: int|
            0 <= i < c.dep_cves@.len() ==> cacheable(#[trigger] advisory_views(c.dep_cves@)[i]),
    ensures
        (c.dependencies.direct as i32) as usize == c.dependencies.direct,
        (c.dependencies.indirect as i32) as usize == c.dependencies.indirect,
        (c.dependents.direct as i32) as usize == c.dependents.direct,
        (c.dependents.indirect as i32) as usize == c.dependents.indirect,
        decode_advisories(encode_advisories(advisory_views(c.cves@))) == advisory_views(
            c.cves@,
        ).map_values(|r: RustSecView| cached_form(r)),
        decode_advisories(encode_advisories(advisory_views(c.dep_cves@))) == advisory_views(
            c.dep_cves@,
        ).map_values(|r: RustSecView| cached_form(r)),
        split_on(join_with(views(c.versions@), '/'), '/') == views(c.versions@),
{
    lemma_advisories_roundtrip(advisory_views(c.cves@));
    lemma_advisories_roundtrip(advisory_views(c.dep_cves@));
    let vs = views(c.versions@);
    assert forall|i: int| 0 <= i < vs.len() implies !(#[trigger] vs[i]).contains('/') by {
        assert(vs[i] == c.versions@[i]@);
    }
    crate::text::lemma_split_join(vs, '/');
}

} // verus!
