use vstd::prelude::*;
use crate::text::{chars_of, contains_char, split_by, split_on, views};
use crate::numbers::{i32_value, parse_i32};

verus! {

/// Whether `semver::Version::parse` accepts the text.
pub uninterp spec fn semver_valid(text: Seq<char>) -> bool;

/// The three-way order (-1, 0, 1) that `semver::Version`'s `Ord` gives two
/// versions parsed from the texts.
pub uninterp spec fn semver_order(a: Seq<char>, b: Seq<char>) -> i8;

/// Calls `semver::Version::parse` and reports whether it succeeded.
#[verifier::external_body]
pub(crate) fn semver_parses(text: &str) -> (r: bool)
    ensures
        r == semver_valid(text@),
{
    semver::Version::parse(text).is_ok()
}

/// Orders two valid version texts with `Ord` on the parsed `semver::Version`
/// values; the result is -1, 0 or 1 for less, equal, greater, and swapping the
/// arguments negates it (`Ord` is a total order, as semver's documentation
/// states). Which of two versions is greater is not stated here: it is the
/// name `semver_order`.
#[verifier::external_body]
pub(crate) fn semver_compare(a: &str, b: &str) -> (r: i8)
    requires
        semver_valid(a@),
        semver_valid(b@),
    ensures
        r == semver_order(a@, b@),
        -1 <= r <= 1,
        r == -semver_order(b@, a@),
{
    let va = semver::Version::parse(a).unwrap();
    let vb = semver::Version::parse(b).unwrap();
    match va.cmp(&vb) {
        std::cmp::Ordering::Less => -1,
        std::cmp::Ordering::Equal => 0,
        std::cmp::Ordering::Greater => 1,
    }
}


/// The order in which the service lists version texts, newest first: two
/// valid versions by descending semver order, valid versions before invalid
/// ones, invalid ones equal to each other. The result is the sign of the
/// comparison of `a` against `b` (-1: `a` comes first).
pub open spec fn desc_order(a: Seq<char>, b: Seq<char>) -> i8 {
    if semver_valid(a) && semver_valid(b) {
        semver_order(b, a)
    } else if semver_valid(a) {
        -1i8
    } else if semver_valid(b) {
        1i8
    } else {
        0i8
    }
}

/// Inserts `x` into `s` after every element that does not come after it.
pub open spec fn insert_desc(s: Seq<Seq<char>>, x: Seq<char>) -> Seq<Seq<char>>
    decreases s.len(),
{
    if s.len() == 0 {
        seq![x]
    } else if desc_order(s.last(), x) == 1 {
        insert_desc(s.drop_last(), x).push(s.last())
    } else {
        s.push(x)
    }
}

/// The stable sort of `s` by `desc_order`: elements that compare equal keep
/// their relative order.
pub open spec fn sort_desc(s: Seq<Seq<char>>) -> Seq<Seq<char>>
    decreases s.len(),
{
    if s.len() == 0 {
        s
    } else {
        insert_desc(sort_desc(s.drop_last()), s.last())
    }
}

/// The listing order is antisymmetric and three-way on these texts.
spec fn desc_antisymmetric(pool: Seq<Seq<char>>) -> bool {
    forall|a: Seq<char>, b: Seq<char>|
        pool.contains(a) && pool.contains(b) ==> #[trigger] desc_order(a, b) == -desc_order(b, a)
            && -1 <= desc_order(a, b) <= 1
}

/// No neighbour pair of `r` is out of the listing order.
spec fn neighbours_in_order(r: Seq<Seq<char>>) -> bool {
    forall|i: int, j: int|
        #![trigger r[i], r[j]]
        0 <= i && j == i + 1 && j < r.len() ==> desc_order(r[i], r[j]) != 1
}

proof fn lemma_insert_desc_sorted(s: Seq<Seq<char>>, x: Seq<char>, pool: Seq<Seq<char>>)
    requires
        neighbours_in_order(s),
        desc_antisymmetric(pool),
        pool.contains(x),
        forall|i: int| 0 <= i < s.len() ==> pool.contains(#[trigger] s[i]),
    ensures
        neighbours_in_order(insert_desc(s, x)),
        insert_desc(s, x).to_multiset() == s.to_multiset().insert(x),
        insert_desc(s, x).last() == x || (s.len() > 0 && insert_desc(s, x).last() == s.last()),
        insert_desc(s, x).len() == s.len() + 1,
    decreases s.len(),
{
    broadcast use vstd::seq_lib::group_to_multiset_ensures;
    if s.len() == 0 {
        assert(insert_desc(s, x) == seq![x]);
        assert(seq![x] =~= s.push(x));
    } else {
        let d = s.drop_last();
        let l = s.last();
        assert(pool.contains(s[s.len() - 1]));
        if desc_order(l, x) == 1 {
            assert(neighbours_in_order(d)) by {
                assert forall|i: int, j: int| 0 <= i && j == i + 1 && j < d.len() implies desc_order(#[trigger] d[i], #[trigger] d[j]) != 1 by {
                    assert(d[i] == s[i] && d[j] == s[j]);
                }
            }
            assert forall|i: int| 0 <= i < d.len() implies pool.contains(#[trigger] d[i]) by {
                assert(d[i] == s[i]);
            }
            lemma_insert_desc_sorted(d, x, pool);
            let t = insert_desc(d, x);
            let r = t.push(l);
            assert(insert_desc(s, x) == r);
            assert(desc_order(t.last(), l) != 1) by {
                if t.last() == x {
                    assert(desc_order(x, l) == -desc_order(l, x));
                } else {
                    assert(t.last() == d.last());
                    assert(d.last() == s[s.len() - 2] && l == s[s.len() - 1]);
                }
            }
            assert forall|i: int, j: int| 0 <= i && j == i + 1 && j < r.len() implies desc_order(#[trigger] r[i], #[trigger] r[j]) != 1 by {
                if j < t.len() {
                    assert(r[i] == t[i] && r[j] == t[j]);
                } else {
                    assert(r[i] == t.last() && r[j] == l);
                }
            }
            assert(s =~= d.push(l));
            assert(r.to_multiset() == t.to_multiset().insert(l));
            assert(s.to_multiset() == d.to_multiset().insert(l));
            assert(r.to_multiset() =~= s.to_multiset().insert(x));
        } else {
            let r = s.push(x);
            assert(insert_desc(s, x) == r);
            assert forall|i: int, j: int| 0 <= i && j == i + 1 && j < r.len() implies desc_order(#[trigger] r[i], #[trigger] r[j]) != 1 by {
                if j < s.len() {
                    assert(r[i] == s[i] && r[j] == s[j]);
                } else {
                    assert(r[i] == l && r[j] == x);
                }
            }
        }
    }
}

proof fn lemma_sort_desc_sorted(s: Seq<Seq<char>>, pool: Seq<Seq<char>>)
    requires
        desc_antisymmetric(pool),
        forall|i: int| 0 <= i < s.len() ==> pool.contains(#[trigger] s[i]),
    ensures
        neighbours_in_order(sort_desc(s)),
        sort_desc(s).to_multiset() == s.to_multiset(),
    decreases s.len(),
{
    broadcast use vstd::seq_lib::group_to_multiset_ensures;
    if s.len() > 0 {
        let d = s.drop_last();
        assert forall|i: int| 0 <= i < d.len() implies pool.contains(#[trigger] d[i]) by {
            assert(d[i] == s[i]);
        }
        lemma_sort_desc_sorted(d, pool);
        let t = sort_desc(d);
        assert forall|i: int| 0 <= i < t.len() implies pool.contains(#[trigger] t[i]) by {
            assert(t.to_multiset().count(t[i]) > 0);
            assert(d.to_multiset().count(t[i]) > 0);
            assert(d.contains(t[i]));
            let k = choose|k: int| 0 <= k < d.len() && d[k] == t[i];
            assert(pool.contains(d[k]));
        }
        assert(pool.contains(s[s.len() - 1]));
        lemma_insert_desc_sorted(t, s.last(), pool);
        assert(s =~= d.push(s.last()));
    } else {
        assert(s.to_multiset() =~= sort_desc(s).to_multiset());
    }
}

/// Listing versions newest first rearranges them (nothing lost or added)
/// so that, of any two neighbours, a valid version never follows a text
/// that does not parse, and of two valid ones the first is not older:
/// semver does not order it below the second.
pub proof fn lemma_versions_newest_first(s: Seq<Seq<char>>)
    requires
        forall|i: int, j: int|
            0 <= i < s.len() && 0 <= j < s.len() && semver_valid(#[trigger] s[i]) && semver_valid(
                #[trigger] s[j],
            ) ==> semver_order(s[i], s[j]) == -semver_order(s[j], s[i]) && -1 <= semver_order(
                s[i],
                s[j],
            ) <= 1,
    ensures
        sort_desc(s).to_multiset() == s.to_multiset(),
        forall|i: int, j: int|
            #![trigger sort_desc(s)[i], sort_desc(s)[j]]
            0 <= i && j == i + 1 && j < sort_desc(s).len() ==> (semver_valid(sort_desc(s)[j])
                ==> semver_valid(sort_desc(s)[i])) && (semver_valid(sort_desc(s)[i])
                && semver_valid(sort_desc(s)[j]) ==> semver_order(sort_desc(s)[i], sort_desc(s)[j])
                != -1),
{
    assert(desc_antisymmetric(s)) by {
        assert forall|a: Seq<char>, b: Seq<char>| s.contains(a) && s.contains(b) implies #[trigger] desc_order(a, b)
            == -desc_order(b, a) && -1 <= desc_order(a, b) <= 1 by {
            let i = choose|i: int| 0 <= i < s.len() && s[i] == a;
            let j = choose|j: int| 0 <= j < s.len() && s[j] == b;
            if semver_valid(a) && semver_valid(b) {
                assert(semver_valid(s[i]) && semver_valid(s[j]));
                assert(semver_order(s[j], s[i]) == -semver_order(s[i], s[j]));
                assert(-1 <= semver_order(s[j], s[i]) <= 1);
            }
        }
    }
    lemma_sort_desc_sorted(s, s);
    let r = sort_desc(s);
    assert forall|i: int, j: int|
        #![trigger r[i], r[j]]
        0 <= i && j == i + 1 && j < r.len() implies (semver_valid(r[j]) ==> semver_valid(r[i])) && (
        semver_valid(r[i]) && semver_valid(r[j]) ==> semver_order(r[i], r[j]) != -1) by {
        assert(desc_order(r[i], r[j]) != 1);
        broadcast use vstd::seq_lib::group_to_multiset_ensures;
        assert(r.to_multiset().count(r[i]) > 0 && r.to_multiset().count(r[j]) > 0);
        assert(s.contains(r[i]) && s.contains(r[j]));
        let a = choose|a: int| 0 <= a < s.len() && s[a] == r[i];
        let b = choose|b: int| 0 <= b < s.len() && s[b] == r[j];
        if semver_valid(r[i]) && semver_valid(r[j]) {
            assert(semver_valid(s[a]) && semver_valid(s[b]));
            assert(semver_order(s[a], s[b]) == -semver_order(s[b], s[a]));
        }
    }
}

/// Compares two version texts in the listing order (see `desc_order`).
pub fn version_desc_order(a: &str, b: &str) -> (r: i8)
    ensures
        r == desc_order(a@, b@),
{
    let va = semver_parses(a);
    let vb = semver_parses(b);
    if va && vb {
        semver_compare(b, a)
    } else if va {
        -1
    } else if vb {
        1
    } else {
        0
    }
}

proof fn lemma_insert_desc_step(s: Seq<Seq<char>>, x: Seq<char>, j: int)
    requires
        0 < j <= s.len(),
        desc_order(s[j - 1], x) == 1,
    ensures
        insert_desc(s.take(j), x) + s.skip(j) == insert_desc(s.take(j - 1), x) + s.skip(j - 1),
{
    let t = s.take(j);
    assert(t.drop_last() =~= s.take(j - 1));
    assert(t.last() == s[j - 1]);
    assert(insert_desc(t, x) == insert_desc(s.take(j - 1), x).push(s[j - 1]));
    assert(s.skip(j - 1) =~= seq![s[j - 1]] + s.skip(j));
    assert(insert_desc(s.take(j - 1), x).push(s[j - 1]) + s.skip(j)
        =~= insert_desc(s.take(j - 1), x) + s.skip(j - 1));
}

/// Inserts `x` into the sorted list `v` in the stable listing order.
fn insert_version(v: &mut Vec<String>, x: String)
    ensures
        views(final(v)@) == insert_desc(views(old(v)@), x@),
{
    let ghost s = views(v@);
    let mut j: usize = v.len();
    assert(s.take(j as int) =~= s);
    assert(insert_desc(s, x@) + s.skip(j as int) =~= insert_desc(s, x@));
    while j > 0 && version_desc_order(v[j - 1].as_str(), x.as_str()) == 1
        invariant
            j <= v.len(),
            views(v@) == s,
            insert_desc(s, x@) == insert_desc(s.take(j as int), x@) + s.skip(j as int),
        decreases j,
    {
        proof {
            lemma_insert_desc_step(s, x@, j as int);
        }
        j -= 1;
    }
    proof {
        let t = s.take(j as int);
        if j > 0 {
            assert(t.drop_last() =~= s.take(j - 1));
            assert(t.last() == s[j - 1]);
            assert(insert_desc(t, x@) == t.push(x@));
        } else {
            assert(t.len() == 0);
            assert(insert_desc(t, x@) == seq![x@]);
            assert(t.push(x@) =~= seq![x@]);
        }
    }
    let ghost before = v@;
    v.insert(j, x);
    assert(views(v@) =~= s.take(j as int).push(x@) + s.skip(j as int));
}

/// Sorts version texts newest first, as the service lists them: valid
/// semver versions by descending semver order, then the texts that do not
/// parse, each group in its original relative order.
pub fn sort_versions_desc(versions: &Vec<String>) -> (r: Vec<String>)
    ensures
        views(r@) == sort_desc(views(versions@)),
{
    let mut out: Vec<String> = Vec::new();
    let mut i: usize = 0;
    while i < versions.len()
        invariant
            i <= versions.len(),
            views(out@) == sort_desc(views(versions@).take(i as int)),
        decreases versions.len() - i,
    {
        let ghost pre = views(versions@).take(i as int);
        assert(views(versions@).take(i + 1).drop_last() =~= pre);
        assert(views(versions@).take(i + 1).last() == versions@[i as int]@);
        insert_version(&mut out, versions[i].clone());
        i += 1;
    }
    assert(views(versions@).take(versions.len() as int) =~= views(versions@));
    out
}


pub proof fn lemma_insert_desc_len(s: Seq<Seq<char>>, x: Seq<char>)
    ensures
        insert_desc(s, x).len() == s.len() + 1,
    decreases s.len(),
{
    if s.len() > 0 {
        lemma_insert_desc_len(s.drop_last(), x);
    }
}

/// Sorting keeps the number of entries.
pub proof fn lemma_sort_desc_len(s: Seq<Seq<char>>)
    ensures
        sort_desc(s).len() == s.len(),
    decreases s.len(),
{
    if s.len() > 0 {
        lemma_sort_desc_len(s.drop_last());
        lemma_insert_desc_len(sort_desc(s.drop_last()), s.last());
    }
}


/// The release part of a version text: what precedes the first `-`, or,
/// when there is none, the first `+`.
pub open spec fn version_base(v: Seq<char>) -> Seq<char> {
    if v.contains('-') {
        split_on(v, '-')[0]
    } else if v.contains('+') {
        split_on(v, '+')[0]
    } else {
        v
    }
}

/// Compares dot-separated numeric parts pairwise up to the shorter list:
/// the first pair that differs decides. `None` when a pair that is reached
/// does not parse as `i32` numbers.
pub open spec fn compare_parts(a: Seq<Seq<char>>, b: Seq<Seq<char>>) -> Option<i8>
    decreases a.len(),
{
    if a.len() == 0 || b.len() == 0 {
        Some(0i8)
    } else if i32_value(a[0]) is None || i32_value(b[0]) is None {
        None
    } else if i32_value(a[0])->0 < i32_value(b[0])->0 {
        Some(-1i8)
    } else if i32_value(a[0])->0 > i32_value(b[0])->0 {
        Some(1i8)
    } else {
        compare_parts(a.drop_first(), b.drop_first())
    }
}

/// How the greatest-version search compares two version texts.
pub open spec fn numeric_order(a: Seq<char>, b: Seq<char>) -> Option<i8> {
    compare_parts(split_on(version_base(a), '.'), split_on(version_base(b), '.'))
}

/// The greatest of `acc` and the texts of `rest`, taken in order, a later
/// text replacing the current one unless the current one is greater.
/// `None` when a comparison on the way cannot be made.
pub open spec fn max_fold(acc: Seq<char>, rest: Seq<Seq<char>>) -> Option<Seq<char>>
    decreases rest.len(),
{
    if rest.len() == 0 {
        Some(acc)
    } else {
        match numeric_order(acc, rest[0]) {
            None => None,
            Some(c) => max_fold(
                if c == 1 {
                    acc
                } else {
                    rest[0]
                },
                rest.drop_first(),
            ),
        }
    }
}

/// The greatest version of a list, `0.0.0` for an empty list; `None` when
/// the search meets a part it cannot read as a number.
pub open spec fn greatest_version(versions: Seq<Seq<char>>) -> Option<Seq<char>> {
    if versions.len() == 0 {
        Some("0.0.0"@)
    } else {
        max_fold(versions[0], versions.drop_first())
    }
}

/// The release numbers of a version text: the `.`-separated pieces of its
/// release part read as `i32` numbers.
pub open spec fn release_numbers(v: Seq<char>) -> Seq<int> {
    split_on(version_base(v), '.').map_values(|p: Seq<char>| i32_value(p)->0)
}

/// Every piece of the version's release part reads as an `i32` number.
pub open spec fn numeric_release(v: Seq<char>) -> bool {
    forall|i: int|
        0 <= i < split_on(version_base(v), '.').len() ==> (#[trigger] i32_value(
            split_on(version_base(v), '.')[i],
        )) is Some
}

/// `w` beats `g`: at the first position where their numbers differ, `w`'s
/// number is the larger.
pub open spec fn beats(w: Seq<int>, g: Seq<int>) -> bool {
    exists|k: int|
        #![trigger w[k], g[k]]
        0 <= k < w.len() && k < g.len() && w.take(k) == g.take(k) && w[k] > g[k]
}

/// The three-way lexicographic comparison of two number sequences up to
/// the shorter one.
spec fn lex_order(a: Seq<int>, b: Seq<int>) -> int
    decreases a.len(),
{
    if a.len() == 0 || b.len() == 0 {
        0
    } else if a[0] < b[0] {
        -1
    } else if a[0] > b[0] {
        1
    } else {
        lex_order(a.drop_first(), b.drop_first())
    }
}

proof fn lemma_compare_parts_lex(a: Seq<Seq<char>>, b: Seq<Seq<char>>)
    requires
        forall|i: int| 0 <= i < a.len() ==> (#[trigger] i32_value(a[i])) is Some,
        forall|i: int| 0 <= i < b.len() ==> (#[trigger] i32_value(b[i])) is Some,
    ensures
        compare_parts(a, b) == Some(
            lex_order(
                a.map_values(|p: Seq<char>| i32_value(p)->0),
                b.map_values(|p: Seq<char>| i32_value(p)->0),
            ) as i8,
        ),
        -1 <= lex_order(
            a.map_values(|p: Seq<char>| i32_value(p)->0),
            b.map_values(|p: Seq<char>| i32_value(p)->0),
        ) <= 1,
    decreases a.len(),
{
    let na = a.map_values(|p: Seq<char>| i32_value(p)->0);
    let nb = b.map_values(|p: Seq<char>| i32_value(p)->0);
    if a.len() > 0 && b.len() > 0 {
        assert(i32_value(a[0]) is Some);
        assert(i32_value(b[0]) is Some);
        let ta = a.drop_first();
        let tb = b.drop_first();
        assert forall|i: int| 0 <= i < ta.len() implies (#[trigger] i32_value(ta[i])) is Some by {
            assert(ta[i] == a[i + 1]);
            assert(i32_value(a[i + 1]) is Some);
        }
        assert forall|i: int| 0 <= i < tb.len() implies (#[trigger] i32_value(tb[i])) is Some by {
            assert(tb[i] == b[i + 1]);
            assert(i32_value(b[i + 1]) is Some);
        }
        lemma_compare_parts_lex(ta, tb);
        assert(na.drop_first() =~= ta.map_values(|p: Seq<char>| i32_value(p)->0));
        assert(nb.drop_first() =~= tb.map_values(|p: Seq<char>| i32_value(p)->0));
        assert(na[0] == i32_value(a[0])->0);
        assert(nb[0] == i32_value(b[0])->0);
    }
}

proof fn lemma_lex_antisymmetric(a: Seq<int>, b: Seq<int>)
    ensures
        lex_order(a, b) == -lex_order(b, a),
        -1 <= lex_order(a, b) <= 1,
    decreases a.len(),
{
    if a.len() > 0 && b.len() > 0 {
        lemma_lex_antisymmetric(a.drop_first(), b.drop_first());
    }
}

proof fn lemma_lex_transitive(a: Seq<int>, b: Seq<int>, c: Seq<int>)
    requires
        a.len() == b.len(),
        b.len() == c.len(),
        lex_order(a, b) != 1,
        lex_order(b, c) != 1,
    ensures
        lex_order(a, c) != 1,
    decreases a.len(),
{
    if a.len() > 0 {
        if a[0] == b[0] && b[0] == c[0] {
            lemma_lex_transitive(a.drop_first(), b.drop_first(), c.drop_first());
        }
    }
}

proof fn lemma_beats_lex(w: Seq<int>, g: Seq<int>)
    requires
        beats(w, g),
    ensures
        lex_order(w, g) == 1,
    decreases w.len(),
{
    let k = choose|k: int|
        #![trigger w[k], g[k]]
        0 <= k < w.len() && k < g.len() && w.take(k) == g.take(k) && w[k] > g[k];
    if k > 0 {
        assert(w[0] == w.take(k)[0] && g[0] == g.take(k)[0]);
        let tw = w.drop_first();
        let tg = g.drop_first();
        assert(tw.take(k - 1) =~= w.take(k).drop_first());
        assert(tg.take(k - 1) =~= g.take(k).drop_first());
        assert(tw[k - 1] == w[k] && tg[k - 1] == g[k]);
        assert(beats(tw, tg));
        lemma_beats_lex(tw, tg);
    }
}

/// Versions that all have `n` release numbers, each readable.
spec fn uniform_releases(vs: Seq<Seq<char>>, n: nat) -> bool {
    forall|i: int|
        0 <= i < vs.len() ==> numeric_release(#[trigger] vs[i]) && release_numbers(vs[i]).len() == n
}

proof fn lemma_numeric_order_lex(a: Seq<char>, b: Seq<char>)
    requires
        numeric_release(a),
        numeric_release(b),
    ensures
        numeric_order(a, b) == Some(lex_order(release_numbers(a), release_numbers(b)) as i8),
        -1 <= lex_order(release_numbers(a), release_numbers(b)) <= 1,
{
    let pa = split_on(version_base(a), '.');
    let pb = split_on(version_base(b), '.');
    assert forall|i: int| 0 <= i < pa.len() implies (#[trigger] i32_value(pa[i])) is Some by {}
    assert forall|i: int| 0 <= i < pb.len() implies (#[trigger] i32_value(pb[i])) is Some by {}
    lemma_compare_parts_lex(pa, pb);
}

proof fn lemma_max_fold_greatest(acc: Seq<char>, rest: Seq<Seq<char>>, seen: Seq<Seq<char>>, n: nat)
    requires
        numeric_release(acc),
        release_numbers(acc).len() == n,
        uniform_releases(rest, n),
        uniform_releases(seen, n),
        forall|i: int|
            0 <= i < seen.len() ==> lex_order(release_numbers(acc), release_numbers(#[trigger] seen[i])) != -1,
    ensures
        max_fold(acc, rest) matches Some(g) && (g == acc || rest.contains(g)) && lex_order(
            release_numbers(g),
            release_numbers(acc),
        ) != -1 && (forall|i: int|
            0 <= i < seen.len() ==> lex_order(release_numbers(g), release_numbers(#[trigger] seen[i]))
                != -1) && (forall|i: int|
            0 <= i < rest.len() ==> lex_order(release_numbers(g), release_numbers(#[trigger] rest[i]))
                != -1),
    decreases rest.len(),
{
    let na = release_numbers(acc);
    lemma_lex_antisymmetric(na, na);
    if rest.len() > 0 {
        let r0 = rest[0];
        assert(numeric_release(r0) && release_numbers(r0).len() == n);
        let nr = release_numbers(r0);
        lemma_numeric_order_lex(acc, r0);
        lemma_lex_antisymmetric(na, nr);
        let c = lex_order(na, nr);
        let tail = rest.drop_first();
        assert forall|i: int| 0 <= i < tail.len() implies numeric_release(#[trigger] tail[i])
            && release_numbers(tail[i]).len() == n by {
            assert(tail[i] == rest[i + 1]);
        }
        if c == 1 {
            let seen2 = seen.push(r0);
            assert forall|i: int| 0 <= i < seen2.len() implies numeric_release(#[trigger] seen2[i])
                && release_numbers(seen2[i]).len() == n by {
                if i < seen.len() {
                    assert(seen2[i] == seen[i]);
                }
            }
            assert forall|i: int| 0 <= i < seen2.len() implies lex_order(na, release_numbers(#[trigger] seen2[i])) != -1 by {
                if i < seen.len() {
                    assert(seen2[i] == seen[i]);
                }
            }
            lemma_max_fold_greatest(acc, tail, seen2, n);
            let g = max_fold(acc, rest)->0;
            assert(max_fold(acc, rest) == max_fold(acc, tail));
            assert forall|i: int| 0 <= i < seen.len() implies lex_order(release_numbers(g), release_numbers(#[trigger] seen[i])) != -1 by {
                assert(seen2[i] == seen[i]);
            }
            assert forall|i: int| 0 <= i < rest.len() implies lex_order(release_numbers(g), release_numbers(#[trigger] rest[i])) != -1 by {
                if i == 0 {
                    assert(seen2[seen.len() as int] == r0);
                } else {
                    assert(rest[i] == tail[i - 1]);
                }
            }
            if tail.contains(g) {
                let k = choose|k: int| 0 <= k < tail.len() && tail[k] == g;
                assert(rest[k + 1] == g);
            }
        } else {
            let seen2 = seen.push(acc);
            assert forall|i: int| 0 <= i < seen2.len() implies numeric_release(#[trigger] seen2[i])
                && release_numbers(seen2[i]).len() == n by {
                if i < seen.len() {
                    assert(seen2[i] == seen[i]);
                }
            }
            assert forall|i: int| 0 <= i < seen2.len() implies lex_order(nr, release_numbers(#[trigger] seen2[i])) != -1 by {
                if i < seen.len() {
                    assert(seen2[i] == seen[i]);
                    let nw = release_numbers(seen[i]);
                    lemma_lex_antisymmetric(na, nw);
                    lemma_lex_transitive(nw, na, nr);
                    lemma_lex_antisymmetric(nr, nw);
                } else {
                    assert(seen2[i] == acc);
                }
            }
            lemma_max_fold_greatest(r0, tail, seen2, n);
            let g = max_fold(acc, rest)->0;
            assert(max_fold(acc, rest) == max_fold(r0, tail));
            assert(lex_order(release_numbers(g), na) != -1) by {
                assert(seen2[seen.len() as int] == acc);
            }
            assert forall|i: int| 0 <= i < seen.len() implies lex_order(release_numbers(g), release_numbers(#[trigger] seen[i])) != -1 by {
                assert(seen2[i] == seen[i]);
            }
            assert forall|i: int| 0 <= i < rest.len() implies lex_order(release_numbers(g), release_numbers(#[trigger] rest[i])) != -1 by {
                if i > 0 {
                    assert(rest[i] == tail[i - 1]);
                }
            }
            if g == r0 {
                assert(rest[0] == g);
            } else {
                let k = choose|k: int| 0 <= k < tail.len() && tail[k] == g;
                assert(rest[k + 1] == g);
            }
        }
    }
}

/// Among versions whose release parts all read as numbers and have the
/// same number of parts, the greatest version is one of them, and no
/// listed version beats it: at the first position where their numbers
/// differ, the greatest version's number is the larger.
pub proof fn lemma_greatest_version_is_greatest(vs: Seq<Seq<char>>)
    requires
        vs.len() > 0,
        forall|i: int| 0 <= i < vs.len() ==> numeric_release(#[trigger] vs[i]),
        forall|i: int, j: int|
            0 <= i < vs.len() && 0 <= j < vs.len() ==> (#[trigger] release_numbers(vs[i])).len()
                == (#[trigger] release_numbers(vs[j])).len(),
    ensures
        greatest_version(vs) matches Some(g) && vs.contains(g) && forall|i: int|
            0 <= i < vs.len() ==> !beats(release_numbers(#[trigger] vs[i]), release_numbers(g)),
{
    let n = release_numbers(vs[0]).len();
    let tail = vs.drop_first();
    assert forall|i: int| 0 <= i < tail.len() implies numeric_release(#[trigger] tail[i])
        && release_numbers(tail[i]).len() == n by {
        assert(tail[i] == vs[i + 1]);
        assert(release_numbers(vs[i + 1]).len() == release_numbers(vs[0]).len());
    }
    let seen = Seq::<Seq<char>>::empty();
    lemma_max_fold_greatest(vs[0], tail, seen, n);
    let g = greatest_version(vs)->0;
    if g == vs[0] {
        assert(vs.contains(g));
    } else {
        let k = choose|k: int| 0 <= k < tail.len() && tail[k] == g;
        assert(vs[k + 1] == g);
    }
    assert forall|i: int| 0 <= i < vs.len() implies !beats(release_numbers(#[trigger] vs[i]), release_numbers(g)) by {
        let nw = release_numbers(vs[i]);
        let ng = release_numbers(g);
        if i > 0 {
            assert(vs[i] == tail[i - 1]);
        }
        assert(lex_order(ng, nw) != -1);
        lemma_lex_antisymmetric(ng, nw);
        if beats(nw, ng) {
            lemma_beats_lex(nw, ng);
        }
    }
}

/// The release part of a version text.
fn base_of(v: &str) -> (r: String)
    ensures
        r@ == version_base(v@),
{
    let cs = chars_of(v);
    if contains_char(&cs, '-') {
        let parts = split_by(v, '-');
        proof {
            crate::text::lemma_split_on_nonempty(v@, '-');
            assert(views(parts@)[0] == parts@[0]@);
        }
        parts[0].clone()
    } else if contains_char(&cs, '+') {
        let parts = split_by(v, '+');
        proof {
            crate::text::lemma_split_on_nonempty(v@, '+');
            assert(views(parts@)[0] == parts@[0]@);
        }
        parts[0].clone()
    } else {
        v.to_owned()
    }
}

/// Compares two version texts part by part (see `numeric_order`).
fn compare_numeric(a: &str, b: &str) -> (r: Option<i8>)
    ensures
        r == numeric_order(a@, b@),
{
    let pa = split_by(base_of(a).as_str(), '.');
    let pb = split_by(base_of(b).as_str(), '.');
    let ghost sa = views(pa@);
    let ghost sb = views(pb@);
    let mut i: usize = 0;
    assert(sa.skip(0) =~= sa);
    assert(sb.skip(0) =~= sb);
    while i < pa.len() && i < pb.len()
        invariant
            i <= pa@.len(),
            i <= pb@.len(),
            sa == views(pa@),
            sb == views(pb@),
            numeric_order(a@, b@) == compare_parts(sa.skip(i as int), sb.skip(i as int)),
        decreases pa.len() - i,
    {
        let x = parse_i32(pa[i].as_str());
        let y = parse_i32(pb[i].as_str());
        assert(sa.skip(i as int)[0] == pa@[i as int]@);
        assert(sb.skip(i as int)[0] == pb@[i as int]@);
        assert(sa.skip(i as int).drop_first() =~= sa.skip(i + 1));
        assert(sb.skip(i as int).drop_first() =~= sb.skip(i + 1));
        match (x, y) {
            (Some(p), Some(q)) => {
                if p < q {
                    return Some(-1);
                } else if p > q {
                    return Some(1);
                }
            },
            _ => {
                return None;
            },
        }
        i += 1;
    }
    Some(0)
}

/// The greatest version of the list (see `greatest_version`), or `None`
/// where the search meets a release part that is not an `i32` number.
pub fn try_max_version(versions: &Vec<String>) -> (r: Option<String>)
    ensures
        r is Some <==> greatest_version(views(versions@)) is Some,
        r matches Some(v) ==> v@ == greatest_version(views(versions@))->0,
{
    if versions.len() == 0 {
        return Some("0.0.0".to_owned());
    }
    let ghost all = views(versions@);
    let mut acc = versions[0].clone();
    let mut i: usize = 1;
    assert(all.drop_first() =~= all.skip(1));
    while i < versions.len()
        invariant
            1 <= i <= versions@.len(),
            all == views(versions@),
            max_fold(acc@, all.skip(i as int)) == greatest_version(all),
        decreases versions.len() - i,
    {
        let c = compare_numeric(acc.as_str(), versions[i].as_str());
        assert(all.skip(i as int)[0] == versions@[i as int]@);
        assert(all.skip(i as int).drop_first() =~= all.skip(i + 1));
        match c {
            Some(k) => {
                if k != 1 {
                    acc = versions[i].clone();
                }
            },
            None => {
                return None;
            },
        }
        i += 1;
    }
    Some(acc)
}

/// The greatest version of the list, compared part by part on the release
/// numbers (`numeric_order`); among equal ones the last is kept; `0.0.0`
/// for an empty list.
pub fn get_max_version(versions: Vec<String>) -> (r: String)
    requires
        greatest_version(views(versions@)) is Some,
    ensures
        r@ == greatest_version(views(versions@))->0,
{
    match try_max_version(&versions) {
        Some(v) => v,
        None => {
            assert(false);
            String::new()
        },
    }
}

} // verus!
