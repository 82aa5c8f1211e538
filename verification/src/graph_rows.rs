//! Decoding the rows a graph query returns: each row is a JSON object, and
//! the readers take text fields out of it.

use vstd::prelude::*;
use crate::api::NameVersion;
use crate::github::opt_view;
use crate::text::{split_on, views};

verus! {

/// What `serde_json::from_str::<Value>` and `Value::get` find in a row:
/// `None` when the row is not JSON; else the text at `key` when the row
/// is an object holding a string there.
pub uninterp spec fn json_str_field_of(row: Seq<char>, key: Seq<char>) -> Option<Option<Seq<char>>>;

/// The view of a nested optional text.
pub open spec fn opt_opt_view(x: Option<Option<String>>) -> Option<Option<Seq<char>>> {
    match x {
        Some(Some(s)) => Some(Some(s@)),
        Some(None) => Some(None),
        None => None,
    }
}

/// Parses the row with `serde_json::from_str` into a `serde_json::Value`
/// and reads the string at `key` with `Value::get`; what comes back is the
/// name `json_str_field_of`. JSON parsing itself is not stated here.
#[verifier::external_body]
fn json_str_field(row: &str, key: &str) -> (r: Option<Option<String>>)
    ensures
        opt_opt_view(r) == json_str_field_of(row@, key@),
{
    match serde_json::from_str::<serde_json::Value>(row) {
        Ok(v) => match v.get(key) {
            Some(serde_json::Value::String(s)) => Some(Some(s.clone())),
            _ => Some(None),
        },
        Err(_) => None,
    }
}

/// The texts at `key` of the rows that hold one, in row order; `None` when
/// some row is not JSON.
pub open spec fn field_values(rows: Seq<Seq<char>>, key: Seq<char>) -> Option<Seq<Seq<char>>>
    decreases rows.len(),
{
    if rows.len() == 0 {
        Some(Seq::empty())
    } else {
        match field_values(rows.drop_last(), key) {
            None => None,
            Some(vs) => match json_str_field_of(rows.last(), key) {
                None => None,
                Some(None) => Some(vs),
                Some(Some(v)) => Some(vs.push(v)),
            },
        }
    }
}

/// The texts at `key` of the rows (a version per row of a versions
/// query, say); `None` when some row is not JSON.
pub fn str_field_values(rows: &Vec<String>, key: &str) -> (r: Option<Vec<String>>)
    ensures
        match r {
            Some(v) => field_values(views(rows@), key@) == Some(views(v@)),
            None => field_values(views(rows@), key@) is None,
        },
{
    let mut out: Vec<String> = Vec::new();
    let mut i: usize = 0;
    while i < rows.len()
        invariant
            i <= rows.len(),
            field_values(views(rows@).take(i as int), key@) == Some(views(out@)),
        decreases rows.len() - i,
    {
        proof {
            assert(views(rows@).take(i + 1).drop_last() =~= views(rows@).take(i as int));
        }
        let ghost before = out@;
        match json_str_field(rows[i].as_str(), key) {
            None => {
                proof {
                    lemma_field_values_none_stays(views(rows@), key@, i + 1);
                }
                return None;
            },
            Some(None) => {},
            Some(Some(v)) => {
                let ghost vv = v@;
                out.push(v);
                assert(views(out@) =~= views(before).push(vv));
            },
        }
        i += 1;
    }
    assert(views(rows@).take(rows.len() as int) =~= views(rows@));
    Some(out)
}

/// Once a prefix of the rows holds a row that is not JSON, so does every
/// longer prefix.
proof fn lemma_field_values_none_stays(rows: Seq<Seq<char>>, key: Seq<char>, n: int)
    requires
        0 <= n <= rows.len(),
        field_values(rows.take(n), key) is None,
    ensures
        field_values(rows, key) is None,
    decreases rows.len() - n,
{
    if n < rows.len() {
        assert(rows.take(n + 1).drop_last() =~= rows.take(n));
        lemma_field_values_none_stays(rows, key, n + 1);
    } else {
        assert(rows.take(n) =~= rows);
    }
}

/// The text at `key` of the first row that holds one: the single URL a
/// lookup of a crate's repository or documentation returns. `None` when
/// some row is not JSON or no row holds such a text.
pub open spec fn first_field_value(rows: Seq<Seq<char>>, key: Seq<char>) -> Option<Seq<char>> {
    match field_values(rows, key) {
        Some(vs) => if vs.len() > 0 {
            Some(vs[0])
        } else {
            None
        },
        None => None,
    }
}

/// The text at `key` of the first row that holds one.
pub fn first_str_field(rows: &Vec<String>, key: &str) -> (r: Option<String>)
    ensures
        opt_view(r) == first_field_value(views(rows@), key@),
{
    match str_field_values(rows, key) {
        Some(vs) => if vs.len() > 0 {
            assert(views(vs@)[0] == vs@[0]@);
            Some(vs[0].clone())
        } else {
            None
        },
        None => None,
    }
}

/// Each distinct row once, in the order the rows first appear.
pub open spec fn distinct_rows(rows: Seq<Seq<char>>) -> Seq<Seq<char>>
    decreases rows.len(),
{
    if rows.len() == 0 {
        Seq::empty()
    } else if rows.drop_last().contains(rows.last()) {
        distinct_rows(rows.drop_last())
    } else {
        distinct_rows(rows.drop_last()).push(rows.last())
    }
}

/// The `name/version` pairs of a dependencies query: for each distinct
/// row, its `name_and_version` text read as `name/version`, rows whose text
/// is no such pair left out; `None` when some row is not JSON or holds no
/// such text.
pub open spec fn dependency_pairs(rows: Seq<Seq<char>>) -> Option<Seq<(Seq<char>, Seq<char>)>>
    decreases rows.len(),
{
    if rows.len() == 0 {
        Some(Seq::empty())
    } else {
        match dependency_pairs(rows.drop_last()) {
            None => None,
            Some(ps) => match json_str_field_of(rows.last(), "name_and_version"@) {
                Some(Some(t)) => if split_on(t, '/').len() == 2 {
                    Some(ps.push((split_on(t, '/')[0], split_on(t, '/')[1])))
                } else {
                    Some(ps)
                },
                _ => None,
            },
        }
    }
}

/// The pairs of a sequence of crate versions.
pub open spec fn pair_views(v: Seq<NameVersion>) -> Seq<(Seq<char>, Seq<char>)> {
    v.map_values(|nv: NameVersion| (nv.name@, nv.version@))
}

/// The crate versions a dependencies query's rows name, each distinct row
/// read once.
pub fn dependency_nodes(rows: &Vec<String>) -> (r: Option<Vec<NameVersion>>)
    ensures
        match r {
            Some(v) => dependency_pairs(distinct_rows(views(rows@))) == Some(pair_views(v@)),
            None => dependency_pairs(distinct_rows(views(rows@))) is None,
        },
{
    let mut seen: Vec<String> = Vec::new();
    let mut out: Vec<NameVersion> = Vec::new();
    let mut i: usize = 0;
    while i < rows.len()
        invariant
            i <= rows.len(),
            views(seen@) == distinct_rows(views(rows@).take(i as int)),
            dependency_pairs(views(seen@)) == Some(pair_views(out@)),
        decreases rows.len() - i,
    {
        let ghost prefix = views(rows@).take(i as int);
        proof {
            assert(views(rows@).take(i + 1).drop_last() =~= prefix);
            assert(views(rows@).take(i + 1).last() == rows@[i as int]@);
            lemma_distinct_rows_members(prefix);
        }
        if !crate::text::contains_str(&seen, rows[i].as_str()) {
            let ghost s0 = views(seen@);
            let ghost o0 = pair_views(out@);
            match json_str_field(rows[i].as_str(), "name_and_version") {
                Some(Some(t)) => {
                    seen.push(rows[i].clone());
                    assert(views(seen@) =~= s0.push(rows@[i as int]@));
                    assert(views(seen@).drop_last() =~= s0);
                    match NameVersion::from_string(t.as_str()) {
                        Some(nv) => {
                            out.push(nv);
                            assert(pair_views(out@) =~= o0.push((nv.name@, nv.version@)));
                        },
                        None => {},
                    }
                },
                _ => {
                    proof {
                        let s1 = s0.push(rows@[i as int]@);
                        assert(s1.drop_last() =~= s0);
                        assert(dependency_pairs(s1) is None);
                        lemma_distinct_rows_members(views(rows@).take(i + 1));
                        lemma_pairs_none_stays(views(rows@), i + 1);
                    }
                    return None;
                },
            }
        }
        i += 1;
    }
    assert(views(rows@).take(rows.len() as int) =~= views(rows@));
    Some(out)
}

/// The distinct rows of a prefix are exactly its members.
proof fn lemma_distinct_rows_members(rows: Seq<Seq<char>>)
    ensures
        forall|x: Seq<char>| distinct_rows(rows).contains(x) <==> rows.contains(x),
    decreases rows.len(),
{
    if rows.len() > 0 {
        let p = rows.drop_last();
        lemma_distinct_rows_members(p);
        assert forall|x: Seq<char>| distinct_rows(rows).contains(x) <==> rows.contains(x) by {
            if rows.contains(x) {
                let k = choose|k: int| 0 <= k < rows.len() && rows[k] == x;
                if k < rows.len() - 1 {
                    assert(p[k] == x);
                }
            }
            if p.contains(x) {
                let k = choose|k: int| 0 <= k < p.len() && p[k] == x;
                assert(rows[k] == x);
            }
            if !p.contains(rows.last()) {
                let d = distinct_rows(p);
                assert(distinct_rows(rows) == d.push(rows.last()));
                if d.push(rows.last()).contains(x) && x != rows.last() {
                    let k = choose|k: int| 0 <= k < d.len() + 1 && d.push(rows.last())[k] == x;
                    assert(d[k] == x);
                }
                if d.contains(x) {
                    let k = choose|k: int| 0 <= k < d.len() && d[k] == x;
                    assert(d.push(rows.last())[k] == x);
                }
                assert(d.push(rows.last())[d.len() as int] == rows.last());
            }
        }
    }
}

/// Once the distinct rows of a prefix hold one that gives no pair text,
/// so do those of every longer prefix.
proof fn lemma_pairs_none_stays(rows: Seq<Seq<char>>, n: int)
    requires
        0 <= n <= rows.len(),
        dependency_pairs(distinct_rows(rows.take(n))) is None,
    ensures
        dependency_pairs(distinct_rows(rows)) is None,
    decreases rows.len() - n,
{
    if n < rows.len() {
        let t = rows.take(n + 1);
        assert(t.drop_last() =~= rows.take(n));
        if !t.drop_last().contains(t.last()) {
            assert(distinct_rows(t).drop_last() =~= distinct_rows(rows.take(n)));
        }
        lemma_pairs_none_stays(rows, n + 1);
    } else {
        assert(rows.take(n) =~= rows);
    }
}


/// A version of a program with the crate versions it depends on directly;
/// the version record's type is the graph model's.
pub struct VersionInfo<V> {
    pub version_base: V,
    pub dependencies: Vec<NameVersion>,
}

impl<V> VersionInfo<V> {
    /// The version with the dependencies its dependencies query's rows
    /// name; `None` when some row is not JSON or names no crate version.
    pub fn from_dependency_rows(version_base: V, rows: &Vec<String>) -> (r: Option<VersionInfo<V>>)
        ensures
            match r {
                Some(info) => info.version_base == version_base && dependency_pairs(
                    distinct_rows(views(rows@)),
                ) == Some(pair_views(info.dependencies@)),
                None => dependency_pairs(distinct_rows(views(rows@))) is None,
            },
    {
        match dependency_nodes(rows) {
            Some(dependencies) => Some(VersionInfo { version_base, dependencies }),
            None => None,
        }
    }
}

} // verus!
