use vstd::prelude::*;
use crate::text::{
    chars_of, clone_strings, contains_char, strings_eq, join_with, split_by, split_on, string_of_range, trim, trim_chars, views,
};
use crate::versions::{
    desc_order, insert_desc, lemma_sort_desc_len, semver_order, semver_valid, sort_desc,
    sort_versions_desc,
};

verus! {

/// A connection to the service's relational store. The checks on advisory
/// data that it runs are computed here; the queries stand beside it.
pub struct DBHandler {
    pub client: tokio_postgres::Client,
}

#[verifier::external_type_specification]
#[verifier::external_body]
pub struct ExPgClient(tokio_postgres::Client);

/// An advisory from the RustSec database, as the service stores it.
pub struct RustSec {
    pub id: String,
    pub cratename: String,
    pub patched: String,
    pub aliases: Vec<String>,
    pub small_desc: String,
}

/// The texts an advisory holds.
pub struct RustSecView {
    pub id: Seq<char>,
    pub cratename: Seq<char>,
    pub patched: Seq<char>,
    pub aliases: Seq<Seq<char>>,
    pub small_desc: Seq<char>,
}

impl View for RustSec {
    type V = RustSecView;

    open spec fn view(&self) -> RustSecView {
        RustSecView {
            id: self.id@,
            cratename: self.cratename@,
            patched: self.patched@,
            aliases: views(self.aliases@),
            small_desc: self.small_desc@,
        }
    }
}

impl RustSec {
    /// An advisory from the columns of a stored row; the aliases column
    /// holds the aliases separated by `;`.
    pub fn from_row(
        id: String,
        cratename: String,
        patched: String,
        aliases: &str,
        small_desc: String,
    ) -> (r: RustSec)
        ensures
            r.id@ == id@,
            r.cratename@ == cratename@,
            r.patched@ == patched@,
            views(r.aliases@) == split_on(aliases@, ';'),
            r.small_desc@ == small_desc@,
    {
        RustSec { id, cratename, patched, aliases: split_by(aliases, ';'), small_desc }
    }

    /// A copy of the advisory.
    pub fn duplicate(&self) -> (r: RustSec)
        ensures
            r@ == self@,
    {
        RustSec {
            id: self.id.clone(),
            cratename: self.cratename.clone(),
            patched: self.patched.clone(),
            aliases: clone_strings(&self.aliases),
            small_desc: self.small_desc.clone(),
        }
    }

    /// Whether two advisories hold the same texts.
    pub fn same_as(&self, other: &RustSec) -> (r: bool)
        ensures
            r == (self@ == other@),
    {
        self.id == other.id && self.cratename == other.cratename && self.patched
            == other.patched && strings_eq(&self.aliases, &other.aliases) && self.small_desc
            == other.small_desc
    }
}

/// `s` begins with `>` but not with `>=`.
pub open spec fn strict_lower(s: Seq<char>) -> bool {
    s.len() >= 1 && s[0] == '>' && !(s.len() >= 2 && s[1] == '=')
}

/// `s` begins with `>=`.
pub open spec fn loose_lower(s: Seq<char>) -> bool {
    s.len() >= 2 && s[0] == '>' && s[1] == '='
}

/// `s` begins with `<` but not with `<=`.
pub open spec fn strict_upper(s: Seq<char>) -> bool {
    s.len() >= 1 && s[0] == '<' && !(s.len() >= 2 && s[1] == '=')
}

/// `s` begins with `<=`.
pub open spec fn loose_upper(s: Seq<char>) -> bool {
    s.len() >= 2 && s[0] == '<' && s[1] == '='
}

/// The lower and upper bound of a two-sided range written `A, B`: the piece
/// that begins with `>` is the lower one, the one that begins with `<` the
/// upper one; anything else gives two empty bounds.
pub open spec fn range_bounds(pieces: Seq<Seq<char>>) -> (Seq<char>, Seq<char>) {
    if pieces.len() == 2 {
        let a = trim(pieces[0]);
        let b = trim(pieces[1]);
        if a.len() >= 1 && a[0] == '>' {
            (a, b)
        } else if a.len() >= 1 && a[0] == '<' {
            (b, a)
        } else {
            (Seq::<char>::empty(), Seq::<char>::empty())
        }
    } else {
        (Seq::<char>::empty(), Seq::<char>::empty())
    }
}

/// A version and the two bounds of a range, sorted newest first (versions
/// that do not parse last); the range checks look at where the version
/// lands.
pub open spec fn middle_of(v: Seq<char>, lo: Seq<char>, hi: Seq<char>) -> Seq<Seq<char>> {
    sort_desc(seq![v, lo, hi])
}

/// Whether one `|`-separated piece of a `patched` field covers `v`.
pub open spec fn range_matches(piece: Seq<char>, v: Seq<char>) -> bool {
    if piece.contains(',') {
        let (left, right) = range_bounds(split_on(piece, ','));
        if strict_lower(left) && strict_upper(right) {
            let s = middle_of(v, left.skip(1), right.skip(1));
            s[1] == v && s[0] != v && s[2] != v
        } else if strict_lower(left) && loose_upper(right) {
            let s = middle_of(v, left.skip(1), right.skip(2));
            s[1] == v && s[2] != v
        } else if loose_lower(left) && strict_upper(right) {
            let s = middle_of(v, left.skip(2), right.skip(1));
            s[1] == v && s[0] != v
        } else if loose_lower(left) && loose_upper(right) {
            let s = middle_of(v, left.skip(2), right.skip(2));
            s[1] == v
        } else {
            false
        }
    } else if piece.contains('^') {
        piece.len() >= 1 && piece[0] == '^' && piece.skip(1) == v
    } else if strict_lower(piece) {
        let s = sort_desc(seq![v, piece.skip(1)]);
        s[0] == v && piece.skip(1) != v
    } else if loose_lower(piece) {
        let s = sort_desc(seq![v, piece.skip(2)]);
        s[0] == v
    } else if strict_upper(piece) {
        let s = sort_desc(seq![v, piece.skip(1)]);
        s[1] == v && piece.skip(1) != v
    } else if loose_upper(piece) {
        let s = sort_desc(seq![v, piece.skip(2)]);
        s[1] == v
    } else {
        false
    }
}

/// Whether some `|`-separated piece of `patched` covers `v`.
pub open spec fn patched_covers(patched: Seq<char>, v: Seq<char>) -> bool {
    exists|i: int|
        0 <= i < split_on(patched, '|').len() && range_matches(
            #[trigger] split_on(patched, '|')[i],
            v,
        )
}


/// Two valid versions whose semver comparison is antisymmetric and three-way.
pub open spec fn ordered_pair(v: Seq<char>, a: Seq<char>) -> bool {
    &&& semver_valid(v)
    &&& semver_valid(a)
    &&& semver_order(v, a) == -semver_order(a, v)
    &&& -1 <= semver_order(v, a) <= 1
    &&& semver_order(v, v) == -semver_order(v, v)
}

proof fn lemma_sort_two(v: Seq<char>, a: Seq<char>)
    requires
        semver_valid(v),
        semver_valid(a),
    ensures
        sort_desc(seq![v, a]) == if semver_order(a, v) == 1 {
            seq![a, v]
        } else {
            seq![v, a]
        },
{
    let s = seq![v, a];
    assert(s.drop_last() =~= seq![v]);
    assert(seq![v].drop_last() =~= Seq::<Seq<char>>::empty());
    assert(sort_desc(Seq::<Seq<char>>::empty()) == Seq::<Seq<char>>::empty());
    assert(insert_desc(Seq::<Seq<char>>::empty(), v) == seq![v]);
    assert(sort_desc(seq![v]) == seq![v]);
    assert(desc_order(v, a) == semver_order(a, v));
    let one = seq![v];
    assert(one.last() == v);
    assert(one.drop_last() =~= Seq::<Seq<char>>::empty());
    if semver_order(a, v) == 1 {
        assert(insert_desc(one, a) == insert_desc(Seq::<Seq<char>>::empty(), a).push(v));
        assert(insert_desc(Seq::<Seq<char>>::empty(), a) == seq![a]);
        assert(seq![a].push(v) =~= seq![a, v]);
    } else {
        assert(insert_desc(one, a) == one.push(a));
        assert(one.push(a) =~= seq![v, a]);
    }
}

/// The patched field `piece` alone (no `|`) covers `v` exactly when the
/// range `piece` does.
proof fn lemma_single_piece(piece: Seq<char>, v: Seq<char>)
    requires
        !piece.contains('|'),
    ensures
        patched_covers(piece, v) == range_matches(piece, v),
{
    crate::text::lemma_split_no_sep(piece, '|');
    assert(split_on(piece, '|')[0] == piece);
}

/// A bound written after an operator: it holds no `,`, `^` or `|` and does
/// not begin with `=`.
pub open spec fn plain_bound(a: Seq<char>) -> bool {
    &&& !a.contains(',')
    &&& !a.contains('^')
    &&& !a.contains('|')
    &&& !(a.len() > 0 && a[0] == '=')
}

proof fn lemma_op_piece(op: Seq<char>, a: Seq<char>)
    requires
        plain_bound(a),
        op == ">"@ || op == ">="@ || op == "<"@ || op == "<="@,
    ensures
        !(op + a).contains(','),
        !(op + a).contains('^'),
        !(op + a).contains('|'),
        (op + a).skip(op.len() as int) == a,
        op == ">"@ ==> strict_lower(op + a),
        op == ">="@ ==> loose_lower(op + a) && !strict_lower(op + a),
        op == "<"@ ==> strict_upper(op + a) && !strict_lower(op + a) && !loose_lower(op + a),
        op == "<="@ ==> loose_upper(op + a) && !strict_upper(op + a) && !strict_lower(op + a)
            && !loose_lower(op + a),
{
    reveal_strlit(">");
    reveal_strlit(">=");
    reveal_strlit("<");
    reveal_strlit("<=");
    let p = op + a;
    assert(p.skip(op.len() as int) =~= a);
    assert forall|c: char| (c == ',' || c == '^' || c == '|') && #[trigger] p.contains(c) implies false by {
        let k = choose|k: int| 0 <= k < p.len() && p[k] == c;
        if k >= op.len() {
            assert(a[k - op.len()] == c);
        }
    }
    if a.len() > 0 {
        assert(p[op.len() as int] == a[0]);
    }
}

/// A single strict lower bound `>A` covers exactly the versions above
/// `A`: every version semver orders above `A` is covered, none below it,
/// and not `A` itself.
pub proof fn lemma_strict_lower_bound(a: Seq<char>, v: Seq<char>)
    requires
        plain_bound(a),
        ordered_pair(v, a),
    ensures
        semver_order(v, a) == 1 ==> patched_covers(">"@ + a, v),
        semver_order(v, a) == -1 ==> !patched_covers(">"@ + a, v),
        v == a ==> !patched_covers(">"@ + a, v),
{
    reveal_strlit(">");
    lemma_op_piece(">"@, a);
    lemma_single_piece(">"@ + a, v);
    lemma_sort_two(v, a);
    let p = ">"@ + a;
    assert(p.skip(1) == a);
    assert(range_matches(p, v) == (sort_desc(seq![v, a])[0] == v && a != v));
}

/// A single loose lower bound `>=A` covers exactly the versions that
/// semver does not order below `A`.
pub proof fn lemma_loose_lower_bound(a: Seq<char>, v: Seq<char>)
    requires
        plain_bound(a),
        ordered_pair(v, a),
    ensures
        patched_covers(">="@ + a, v) <==> semver_order(v, a) >= 0,
{
    reveal_strlit(">=");
    lemma_op_piece(">="@, a);
    lemma_single_piece(">="@ + a, v);
    lemma_sort_two(v, a);
    let p = ">="@ + a;
    assert(p.skip(2) == a);
    assert(range_matches(p, v) == (sort_desc(seq![v, a])[0] == v));
}

/// A single strict upper bound `<A` covers exactly the versions semver
/// orders below `A`.
pub proof fn lemma_strict_upper_bound(a: Seq<char>, v: Seq<char>)
    requires
        plain_bound(a),
        ordered_pair(v, a),
    ensures
        patched_covers("<"@ + a, v) <==> semver_order(v, a) == -1,
{
    reveal_strlit("<");
    lemma_op_piece("<"@, a);
    lemma_single_piece("<"@ + a, v);
    lemma_sort_two(v, a);
    let p = "<"@ + a;
    assert(p.skip(1) == a);
    assert(range_matches(p, v) == (sort_desc(seq![v, a])[1] == v && a != v));
}

/// A single loose upper bound `<=A` covers every version semver orders
/// below `A` and `A` itself, and no version above it.
pub proof fn lemma_loose_upper_bound(a: Seq<char>, v: Seq<char>)
    requires
        plain_bound(a),
        ordered_pair(v, a),
    ensures
        semver_order(v, a) == -1 ==> patched_covers("<="@ + a, v),
        semver_order(v, a) == 1 ==> !patched_covers("<="@ + a, v),
        v == a ==> patched_covers("<="@ + a, v),
{
    reveal_strlit("<=");
    lemma_op_piece("<="@, a);
    lemma_single_piece("<="@ + a, v);
    lemma_sort_two(v, a);
    let p = "<="@ + a;
    assert(p.skip(2) == a);
    assert(range_matches(p, v) == (sort_desc(seq![v, a])[1] == v));
}

/// Where a version lands among two bounds: sorted newest first, a version
/// between them comes second, one below both last, one above both first.
proof fn lemma_sort_three(v: Seq<char>, lo: Seq<char>, hi: Seq<char>)
    requires
        ordered_pair(v, lo),
        ordered_pair(v, hi),
        ordered_pair(hi, lo),
        semver_order(hi, lo) == 1,
    ensures
        semver_order(v, lo) == 1 && semver_order(v, hi) == -1 ==> sort_desc(seq![v, lo, hi])
            == seq![hi, v, lo],
        semver_order(v, lo) == -1 && semver_order(v, hi) == -1 ==> sort_desc(seq![v, lo, hi])
            == seq![hi, lo, v],
        semver_order(v, lo) == 1 && semver_order(v, hi) == 1 ==> sort_desc(seq![v, lo, hi])
            == seq![v, hi, lo],
{
    let s3 = seq![v, lo, hi];
    assert(s3.drop_last() =~= seq![v, lo]);
    assert(s3.last() == hi);
    lemma_sort_two(v, lo);
    let e = Seq::<Seq<char>>::empty();
    assert(insert_desc(e, hi) == seq![hi]);
    if semver_order(v, lo) == 1 {
        let t = seq![v, lo];
        assert(sort_desc(seq![v, lo]) == t);
        assert(t.last() == lo && t.drop_last() =~= seq![v]);
        assert(desc_order(lo, hi) == semver_order(hi, lo));
        let one = seq![v];
        assert(one.last() == v && one.drop_last() =~= e);
        assert(desc_order(v, hi) == semver_order(hi, v));
        if semver_order(v, hi) == -1 {
            assert(insert_desc(one, hi) == insert_desc(e, hi).push(v));
            assert(insert_desc(t, hi) == insert_desc(one, hi).push(lo));
            assert(seq![hi].push(v).push(lo) =~= seq![hi, v, lo]);
        } else if semver_order(v, hi) == 1 {
            assert(insert_desc(one, hi) == one.push(hi));
            assert(insert_desc(t, hi) == insert_desc(one, hi).push(lo));
            assert(one.push(hi).push(lo) =~= seq![v, hi, lo]);
        }
    } else if semver_order(v, lo) == -1 && semver_order(v, hi) == -1 {
        let t = seq![lo, v];
        assert(sort_desc(seq![v, lo]) == t);
        assert(t.last() == v && t.drop_last() =~= seq![lo]);
        assert(desc_order(v, hi) == semver_order(hi, v));
        let one = seq![lo];
        assert(one.last() == lo && one.drop_last() =~= e);
        assert(desc_order(lo, hi) == semver_order(hi, lo));
        assert(insert_desc(one, hi) == insert_desc(e, hi).push(lo));
        assert(insert_desc(t, hi) == insert_desc(one, hi).push(v));
        assert(seq![hi].push(lo).push(v) =~= seq![hi, lo, v]);
    }
}

/// A piece that has no white space at either end is its own trim.
proof fn lemma_trim_plain(p: Seq<char>)
    requires
        p.len() > 0,
        !crate::text::is_white_space(p[0]),
        !crate::text::is_white_space(p.last()),
    ensures
        trim(p) == p,
{
    assert(crate::text::trim_start(p) == p);
}

/// A bound that can close a range: plain, not empty, and not ending in
/// white space.
pub open spec fn range_bound(a: Seq<char>) -> bool {
    plain_bound(a) && a.len() > 0 && !crate::text::is_white_space(a.last())
}

/// A two-sided range `>A,<B` (either side loose or strict) with `A` below
/// `B` covers every version strictly between its bounds, and no version
/// below both bounds or above both.
pub proof fn lemma_two_sided_range(op_lo: Seq<char>, lo: Seq<char>, op_hi: Seq<char>, hi: Seq<char>, v: Seq<char>)
    requires
        op_lo == ">"@ || op_lo == ">="@,
        op_hi == "<"@ || op_hi == "<="@,
        range_bound(lo),
        range_bound(hi),
        ordered_pair(v, lo),
        ordered_pair(v, hi),
        ordered_pair(hi, lo),
        semver_order(hi, lo) == 1,
    ensures
        semver_order(v, lo) == 1 && semver_order(v, hi) == -1 ==> patched_covers(
            (op_lo + lo).push(',') + (op_hi + hi),
            v,
        ),
        semver_order(v, lo) == -1 && semver_order(v, hi) == -1 ==> !patched_covers(
            (op_lo + lo).push(',') + (op_hi + hi),
            v,
        ),
        semver_order(v, lo) == 1 && semver_order(v, hi) == 1 ==> !patched_covers(
            (op_lo + lo).push(',') + (op_hi + hi),
            v,
        ),
{
    reveal_strlit(">");
    reveal_strlit(">=");
    reveal_strlit("<");
    reveal_strlit("<=");
    let l = op_lo + lo;
    let u = op_hi + hi;
    let piece = l.push(',') + u;
    lemma_op_piece(op_lo, lo);
    lemma_op_piece(op_hi, hi);
    assert(l.last() == lo.last() && u.last() == hi.last());
    assert(l[0] == '>' && u[0] == '<');
    assert(!crate::text::is_white_space('>') && !crate::text::is_white_space('<'));
    lemma_trim_plain(l);
    lemma_trim_plain(u);
    crate::text::lemma_split_after_sep(l, u, ',');
    crate::text::lemma_split_no_sep(l, ',');
    assert(split_on(piece, ',') =~= seq![l, u]);
    assert(piece.contains(',')) by {
        assert(piece[l.len() as int] == ',');
    }
    assert(!piece.contains('|')) by {
        if piece.contains('|') {
            let k = choose|k: int| 0 <= k < piece.len() && piece[k] == '|';
            if k < l.len() {
                assert(l[k] == '|');
            } else if k > l.len() {
                assert(u[k - l.len() - 1] == '|');
            }
        }
    }
    lemma_single_piece(piece, v);
    assert(range_bounds(split_on(piece, ',')) == (l, u));
    lemma_sort_three(v, lo, hi);
    assert(l.skip(op_lo.len() as int) == lo);
    assert(u.skip(op_hi.len() as int) == hi);
    assert(v != lo ==> true);
    if semver_order(v, lo) == 1 && semver_order(v, hi) == -1 {
        assert(hi != v && lo != v);
    }
}

/// Sorts `v`, `lo` and `hi` (and `hi` only where there are three) newest
/// first.
fn sorted_with(v: &String, lo: String, hi: Option<String>) -> (r: Vec<String>)
    ensures
        hi is Some ==> views(r@) == sort_desc(seq![v@, lo@, hi->0@]),
        hi is None ==> views(r@) == sort_desc(seq![v@, lo@]),
        hi is Some ==> r@.len() == 3,
        hi is None ==> r@.len() == 2,
{
    let mut items: Vec<String> = Vec::new();
    items.push(v.clone());
    items.push(lo);
    match hi {
        Some(h) => {
            items.push(h);
        },
        None => {},
    }
    let r = sort_versions_desc(&items);
    proof {
        lemma_sort_desc_len(views(items@));
        if hi is Some {
            assert(views(items@) =~= seq![v@, lo@, hi->0@]);
        } else {
            assert(views(items@) =~= seq![v@, lo@]);
        }
    }
    r
}

/// Whether one piece of a `patched` field covers `version`.
fn piece_matches(piece: &String, version: &String) -> (r: bool)
    ensures
        r == range_matches(piece@, version@),
{
    let cs = chars_of(piece.as_str());
    let v = version;
    if contains_char(&cs, ',') {
        let parts = split_by(piece.as_str(), ',');
        let mut left: Vec<char> = Vec::new();
        let mut right: Vec<char> = Vec::new();
        if parts.len() == 2 {
            let a = trim_chars(chars_of(parts[0].as_str()).as_slice());
            let b = trim_chars(chars_of(parts[1].as_str()).as_slice());
            assert(views(parts@)[0] == parts@[0]@);
            assert(views(parts@)[1] == parts@[1]@);
            if a.len() >= 1 && a[0] == '>' {
                left = a;
                right = b;
            } else if a.len() >= 1 && a[0] == '<' {
                left = b;
                right = a;
            }
        }
        proof {
            let (l, r) = range_bounds(split_on(piece@, ','));
            assert(left@ == l);
            assert(right@ == r);
        }
        let lgt = left.len() >= 1 && left[0] == '>' && !(left.len() >= 2 && left[1] == '=');
        let lge = left.len() >= 2 && left[0] == '>' && left[1] == '=';
        let rlt = right.len() >= 1 && right[0] == '<' && !(right.len() >= 2 && right[1] == '=');
        let rle = right.len() >= 2 && right[0] == '<' && right[1] == '=';
        if lgt && rlt {
            let lo = string_of_range(&left, 1, left.len());
            let hi = string_of_range(&right, 1, right.len());
            assert(lo@ == left@.skip(1));
            assert(hi@ == right@.skip(1));
            let s = sorted_with(v, lo, Some(hi));
            s[1] == *v && s[0] != *v && s[2] != *v
        } else if lgt && rle {
            let lo = string_of_range(&left, 1, left.len());
            let hi = string_of_range(&right, 2, right.len());
            assert(lo@ == left@.skip(1));
            assert(hi@ == right@.skip(2));
            let s = sorted_with(v, lo, Some(hi));
            s[1] == *v && s[2] != *v
        } else if lge && rlt {
            let lo = string_of_range(&left, 2, left.len());
            let hi = string_of_range(&right, 1, right.len());
            assert(lo@ == left@.skip(2));
            assert(hi@ == right@.skip(1));
            let s = sorted_with(v, lo, Some(hi));
            s[1] == *v && s[0] != *v
        } else if lge && rle {
            let lo = string_of_range(&left, 2, left.len());
            let hi = string_of_range(&right, 2, right.len());
            assert(lo@ == left@.skip(2));
            assert(hi@ == right@.skip(2));
            let s = sorted_with(v, lo, Some(hi));
            s[1] == *v
        } else {
            false
        }
    } else if contains_char(&cs, '^') {
        if cs.len() >= 1 && cs[0] == '^' {
            let rest = string_of_range(&cs, 1, cs.len());
            assert(rest@ == piece@.skip(1));
            rest == *v
        } else {
            false
        }
    } else {
        let gt = cs.len() >= 1 && cs[0] == '>' && !(cs.len() >= 2 && cs[1] == '=');
        let ge = cs.len() >= 2 && cs[0] == '>' && cs[1] == '=';
        let lt = cs.len() >= 1 && cs[0] == '<' && !(cs.len() >= 2 && cs[1] == '=');
        let le = cs.len() >= 2 && cs[0] == '<' && cs[1] == '=';
        if gt {
            let bound = string_of_range(&cs, 1, cs.len());
            assert(bound@ == piece@.skip(1));
            let s = sorted_with(v, bound.clone(), None);
            s[0] == *v && bound != *v
        } else if ge {
            let bound = string_of_range(&cs, 2, cs.len());
            assert(bound@ == piece@.skip(2));
            let s = sorted_with(v, bound, None);
            s[0] == *v
        } else if lt {
            let bound = string_of_range(&cs, 1, cs.len());
            assert(bound@ == piece@.skip(1));
            let s = sorted_with(v, bound.clone(), None);
            s[1] == *v && bound != *v
        } else if le {
            let bound = string_of_range(&cs, 2, cs.len());
            assert(bound@ == piece@.skip(2));
            let s = sorted_with(v, bound, None);
            s[1] == *v
        } else {
            false
        }
    }
}

/// A CVE record as the service lists it.
pub struct CveInfo {
    pub cve_id: String,
    pub url: String,
    pub description: String,
    pub crate_name: String,
    pub start_version: String,
    pub end_version: String,
}

/// The full CVE list.
pub struct Allcve {
    pub cves: Vec<CveInfo>,
}

impl CveInfo {
    /// The entry for a stored CVE row, linked to its page on cve.org.
    pub fn from_row(
        cve_id: String,
        crate_name: String,
        start_version: String,
        end_version: String,
        description: String,
    ) -> (r: CveInfo)
        ensures
            r.url@ == "https://www.cve.org/CVERecord?id="@ + cve_id@,
            r.cve_id@ == cve_id@,
            r.crate_name@ == crate_name@,
            r.start_version@ == start_version@,
            r.end_version@ == end_version@,
            r.description@ == description@,
    {
        let mut url = "https://www.cve.org/CVERecord?id=".to_owned();
        url.append(cve_id.as_str());
        CveInfo { cve_id, url, description, crate_name, start_version, end_version }
    }
}

/// `v` lies between the two bounds of a CVE record: among the three texts
/// sorted newest first it comes second.
pub open spec fn between_bounds(start: Seq<char>, end: Seq<char>, v: Seq<char>) -> bool {
    sort_desc(seq![start, end, v])[1] == v
}

/// The ids of the records of crate `name` whose bounds hold `v`, in order.
pub open spec fn cve_ids_for(cves: Seq<CveInfo>, name: Seq<char>, v: Seq<char>) -> Seq<Seq<char>>
    decreases cves.len(),
{
    if cves.len() == 0 {
        Seq::<Seq<char>>::empty()
    } else {
        let c = cves.last();
        let rest = cve_ids_for(cves.drop_last(), name, v);
        if c.crate_name@ == name && between_bounds(c.start_version@, c.end_version@, v) {
            rest.push(c.cve_id@)
        } else {
            rest
        }
    }
}

/// Whether the version lies between the bounds of the record.
fn record_holds(c: &CveInfo, version: &String) -> (r: bool)
    ensures
        r == between_bounds(c.start_version@, c.end_version@, version@),
{
    let mut items: Vec<String> = Vec::new();
    items.push(c.start_version.clone());
    items.push(c.end_version.clone());
    items.push(version.clone());
    let sorted = sort_versions_desc(&items);
    proof {
        assert(views(items@) =~= seq![c.start_version@, c.end_version@, version@]);
        lemma_sort_desc_len(views(items@));
        assert(views(sorted@)[1] == sorted@[1]@);
    }
    sorted[1] == *version
}

/// The views of a list of advisories.
pub open spec fn advisory_views(v: Seq<RustSec>) -> Seq<RustSecView> {
    v.map_values(|x: RustSec| x@)
}

/// An advisory concerns release `version` of crate `cname` when it is filed
/// against that crate and its patched ranges do not cover the version.
pub open spec fn applies_to(r: RustSecView, cname: Seq<char>, version: Seq<char>) -> bool {
    r.cratename == cname && !patched_covers(r.patched, version)
}

/// The crate name of a `name/version` text.
pub open spec fn nv_name(nv: Seq<char>) -> Seq<char> {
    split_on(nv, '/')[0]
}

/// The version of a `name/version` text.
pub open spec fn nv_version(nv: Seq<char>) -> Seq<char> {
    split_on(nv, '/')[1]
}

/// Some listed release is concerned by an advisory equal to `x`.
pub open spec fn concerns_some(all: Seq<RustSecView>, nvs: Seq<Seq<char>>, x: RustSecView) -> bool {
    exists|i: int, j: int|
        0 <= i < nvs.len() && 0 <= j < all.len() && #[trigger] all[j] == x && applies_to(
            x,
            nv_name(#[trigger] nvs[i]),
            nv_version(nvs[i]),
        )
}

/// Some listed release is concerned by the CVE record with id `id`.
pub open spec fn cve_listed_for_some(all: Seq<CveInfo>, nvs: Seq<Seq<char>>, id: Seq<char>) -> bool {
    exists|i: int|
        0 <= i < nvs.len() && cve_ids_for(all, nv_name(#[trigger] nvs[i]), nv_version(nvs[i])).contains(
            id,
        )
}

impl DBHandler {
    /// Whether `version` lies in one of the ranges of an advisory's
    /// `patched` field: `|`-separated pieces, each a two-sided range
    /// (`>A, <B` with `>`/`>=` and `<`/`<=`, in either order), a single
    /// bound (`>A`, `>=A`, `<A`, `<=A`) or an exact `^A`. Bounds are compared
    /// in the service's listing order of versions (`sort_versions_desc`).
    pub fn match_version(patched: String, version: String) -> (r: bool)
        ensures
            r == patched_covers(patched@, version@),
    {
        let pieces = split_by(patched.as_str(), '|');
        let v = version;
        let mut matched = false;
        let mut i: usize = 0;
        while i < pieces.len()
            invariant
                i <= pieces@.len(),
                views(pieces@) == split_on(patched@, '|'),
                v@ == version@,
                matched == exists|k: int| 0 <= k < i && range_matches(#[trigger] split_on(patched@, '|')[k], version@),
            decreases pieces.len() - i,
        {
            let m = piece_matches(&pieces[i], &v);
            assert(split_on(patched@, '|')[i as int] == pieces@[i as int]@);
            if m {
                matched = true;
            }
            i += 1;
        }
        matched
    }

    /// The ids of the CVE records, among `all`, filed against crate
    /// `cratename` whose bounds hold `version`.
    pub fn select_direct_cves(all: &Vec<CveInfo>, cratename: &str, version: &str) -> (r: Vec<
        String,
    >)
        ensures
            views(r@) == cve_ids_for(all@, cratename@, version@),
    {
        let v = version.to_owned();
        let mut out: Vec<String> = Vec::new();
        let mut i: usize = 0;
        while i < all.len()
            invariant
                i <= all@.len(),
                v@ == version@,
                views(out@) == cve_ids_for(all@.take(i as int), cratename@, version@),
            decreases all.len() - i,
        {
            let c = &all[i];
            assert(all@.take(i + 1).drop_last() =~= all@.take(i as int));
            assert(all@.take(i + 1).last() == all@[i as int]);
            let ghost before = views(out@);
            if crate::text::str_eq(c.crate_name.as_str(), cratename) && record_holds(c, &v) {
                out.push(c.cve_id.clone());
                assert(views(out@) =~= before.push(c.cve_id@));
            }
            i += 1;
        }
        assert(all@.take(all@.len() as int) =~= all@);
        out
    }

    /// The advisories, among `all`, that concern release `version` of crate
    /// `cname`, in their stored order.
    pub fn select_direct_rustsec(all: &Vec<RustSec>, cname: &str, version: &str) -> (r: Vec<
        RustSec,
    >)
        ensures
            advisory_views(r@) == advisory_views(all@).filter(
                |x: RustSecView| applies_to(x, cname@, version@),
            ),
    {
        let ghost pred = |x: RustSecView| applies_to(x, cname@, version@);
        let mut out: Vec<RustSec> = Vec::new();
        let mut i: usize = 0;
        while i < all.len()
            invariant
                i <= all@.len(),
                pred == (|x: RustSecView| applies_to(x, cname@, version@)),
                advisory_views(out@) == advisory_views(all@).take(i as int).filter(pred),
            decreases all.len() - i,
        {
            let rc = &all[i];
            let ghost before = advisory_views(out@);
            proof {
                advisory_views(all@).take(i as int).lemma_filter_push(rc@, pred);
                assert(advisory_views(all@).take(i + 1) =~= advisory_views(all@).take(i as int).push(
                    rc@,
                ));
            }
            let same_crate = crate::text::str_eq(rc.cratename.as_str(), cname);
            if same_crate {
                let covered = DBHandler::match_version(rc.patched.clone(), version.to_owned());
                if !covered {
                    let copy = rc.duplicate();
                    out.push(copy);
                    assert(advisory_views(out@) =~= before.push(rc@));
                }
            }
            i += 1;
        }
        assert(advisory_views(all@).take(all@.len() as int) =~= advisory_views(all@));
        out
    }

    /// The ids of the CVE records that concern some of the listed releases
    /// (`name/version` texts), each once.
    pub fn select_dependency_cves(all: &Vec<CveInfo>, name_versions: &Vec<String>) -> (r: Vec<String>)
        requires
            forall|i: int|
                0 <= i < name_versions@.len() ==> (#[trigger] name_versions@[i])@.contains('/'),
        ensures
            views(r@).no_duplicates(),
            forall|id: Seq<char>|
                views(r@).contains(id) <==> cve_listed_for_some(all@, views(name_versions@), id),
    {
        let ghost nvs = views(name_versions@);
        let mut out: Vec<String> = Vec::new();
        let mut i: usize = 0;
        while i < name_versions.len()
            invariant
                i <= name_versions@.len(),
                nvs == views(name_versions@),
                forall|i: int|
                    0 <= i < name_versions@.len() ==> (#[trigger] name_versions@[i])@.contains('/'),
                views(out@).no_duplicates(),
                forall|id: Seq<char>|
                    views(out@).contains(id) <==> cve_listed_for_some(all@, nvs.take(i as int), id),
            decreases name_versions.len() - i,
        {
            let parts = split_by(name_versions[i].as_str(), '/');
            proof {
                assert(nvs[i as int] == name_versions@[i as int]@);
                crate::text::lemma_split_has_sep(nvs[i as int], '/');
            }
            assert(parts@[0]@ == nv_name(nvs[i as int]));
            assert(parts@[1]@ == nv_version(nvs[i as int]));
            let ids = DBHandler::select_direct_cves(all, parts[0].as_str(), parts[1].as_str());
            let ghost found = views(ids@);
            let mut j: usize = 0;
            while j < ids.len()
                invariant
                    i < name_versions@.len(),
                    j <= ids@.len(),
                    nvs == views(name_versions@),
                    found == views(ids@),
                    found == cve_ids_for(all@, nv_name(nvs[i as int]), nv_version(nvs[i as int])),
                    views(out@).no_duplicates(),
                    forall|id: Seq<char>|
                        views(out@).contains(id) <==> (cve_listed_for_some(all@, nvs.take(i as int), id)
                            || found.take(j as int).contains(id)),
                decreases ids.len() - j,
            {
                let ghost before = views(out@);
                assert(found[j as int] == ids@[j as int]@);
                if !crate::text::contains_str(&out, ids[j].as_str()) {
                    out.push(ids[j].clone());
                    assert(views(out@) =~= before.push(found[j as int]));
                    assert(views(out@).no_duplicates()) by {
                        let v = views(out@);
                        assert forall|a: int, b: int| 0 <= a < v.len() && 0 <= b < v.len() && a != b implies v[a] != v[b] by {
                            if a == v.len() - 1 {
                                assert(before.contains(before[b]));
                            } else if b == v.len() - 1 {
                                assert(before.contains(before[a]));
                            }
                        }
                    }
                }
                assert forall|id: Seq<char>| found.take(j + 1).contains(id) <==> (found.take(j as int).contains(id) || id == found[j as int]) by {
                    if found.take(j + 1).contains(id) {
                        let k = choose|k: int| 0 <= k < j + 1 && #[trigger] found.take(j + 1)[k] == id;
                        if k < j {
                            assert(found.take(j as int)[k] == id);
                        }
                    }
                    if found.take(j as int).contains(id) {
                        let k = choose|k: int| 0 <= k < j && #[trigger] found.take(j as int)[k] == id;
                        assert(found.take(j + 1)[k] == id);
                    }
                    if id == found[j as int] {
                        assert(found.take(j + 1)[j as int] == id);
                    }
                }
                assert forall|id: Seq<char>| views(out@).contains(id) <==> (cve_listed_for_some(all@, nvs.take(i as int), id)
                    || found.take(j + 1).contains(id)) by {
                    if views(out@).contains(id) && !before.contains(id) {
                        let k = choose|k: int| 0 <= k < views(out@).len() && #[trigger] views(out@)[k] == id;
                        assert(k == before.len());
                    }
                    if id == found[j as int] && !before.contains(id) {
                        assert(views(out@)[before.len() as int] == id);
                    }
                    if before.contains(id) {
                        let k = choose|k: int| 0 <= k < before.len() && #[trigger] before[k] == id;
                        assert(views(out@)[k] == id);
                    }
                }
                j += 1;
            }
            assert(found.take(j as int) =~= found);
            assert forall|id: Seq<char>| cve_listed_for_some(all@, nvs.take(i + 1), id) <==> (
            cve_listed_for_some(all@, nvs.take(i as int), id) || found.contains(id)) by {
                if cve_listed_for_some(all@, nvs.take(i + 1), id) {
                    let k = choose|k: int|
                        0 <= k < nvs.take(i + 1).len() && cve_ids_for(all@, nv_name(
                            #[trigger] nvs.take(i + 1)[k],
                        ), nv_version(nvs.take(i + 1)[k])).contains(id);
                    if k < i {
                        assert(nvs.take(i as int)[k] == nvs.take(i + 1)[k]);
                    }
                }
                if cve_listed_for_some(all@, nvs.take(i as int), id) {
                    let k = choose|k: int|
                        0 <= k < nvs.take(i as int).len() && cve_ids_for(all@, nv_name(
                            #[trigger] nvs.take(i as int)[k],
                        ), nv_version(nvs.take(i as int)[k])).contains(id);
                    assert(nvs.take(i + 1)[k] == nvs.take(i as int)[k]);
                }
                if found.contains(id) {
                    assert(nvs.take(i + 1)[i as int] == nvs[i as int]);
                }
            }
            i += 1;
        }
        assert(nvs.take(nvs.len() as int) =~= nvs);
        out
    }

    /// The advisories, among `all`, that concern some release listed in
    /// `name_versions` (each a `name/version` text), each once.
    pub fn select_dependency_rustsec(all: &Vec<RustSec>, name_versions: &Vec<String>) -> (r: Vec<
        RustSec,
    >)
        requires
            forall|i: int|
                0 <= i < name_versions@.len() ==> (#[trigger] name_versions@[i])@.contains('/'),
        ensures
            advisory_views(r@).no_duplicates(),
            forall|x: RustSecView|
                advisory_views(r@).contains(x) <==> concerns_some(
                    advisory_views(all@),
                    views(name_versions@),
                    x,
                ),
    {
        let ghost av = advisory_views(all@);
        let ghost nvs = views(name_versions@);
        let mut out: Vec<RustSec> = Vec::new();
        let mut i: usize = 0;
        while i < name_versions.len()
            invariant
                i <= name_versions@.len(),
                av == advisory_views(all@),
                nvs == views(name_versions@),
                forall|i: int|
                    0 <= i < name_versions@.len() ==> (#[trigger] name_versions@[i])@.contains('/'),
                advisory_views(out@).no_duplicates(),
                forall|x: RustSecView|
                    advisory_views(out@).contains(x) <==> concerns_some(av, nvs.take(i as int), x),
            decreases name_versions.len() - i,
        {
            let parts = split_by(name_versions[i].as_str(), '/');
            proof {
                assert(nvs[i as int] == name_versions@[i as int]@);
                crate::text::lemma_split_has_sep(nvs[i as int], '/');
            }
            let name = &parts[0];
            let version = &parts[1];
            assert(name@ == nv_name(nvs[i as int]));
            assert(version@ == nv_version(nvs[i as int]));
            let mut j: usize = 0;
            while j < all.len()
                invariant
                    i < name_versions@.len(),
                    j <= all@.len(),
                    av == advisory_views(all@),
                    nvs == views(name_versions@),
                    name@ == nv_name(nvs[i as int]),
                    version@ == nv_version(nvs[i as int]),
                    advisory_views(out@).no_duplicates(),
                    forall|x: RustSecView|
                        advisory_views(out@).contains(x) <==> (concerns_some(
                            av,
                            nvs.take(i as int),
                            x,
                        ) || exists|k: int|
                            0 <= k < j && #[trigger] av[k] == x && applies_to(
                                x,
                                nv_name(nvs[i as int]),
                                nv_version(nvs[i as int]),
                            )),
                decreases all.len() - j,
            {
                let rc = &all[j];
                let applies = rc.cratename == *name && !DBHandler::match_version(
                    rc.patched.clone(),
                    version.clone(),
                );
                let ghost before = advisory_views(out@);
                assert(applies == applies_to(rc@, nv_name(nvs[i as int]), nv_version(nvs[i as int])));
                assert(av[j as int] == rc@);
                if applies {
                    let mut seen = false;
                    let mut k: usize = 0;
                    while k < out.len()
                        invariant
                            k <= out@.len(),
                            seen == exists|m: int| 0 <= m < k && out@[m]@ == rc@,
                        decreases out.len() - k,
                    {
                        if out[k].same_as(rc) {
                            seen = true;
                        }
                        k += 1;
                    }
                    if !seen {
                        let copy = rc.duplicate();
                        out.push(copy);
                        assert(advisory_views(out@) =~= before.push(rc@));
                        assert(advisory_views(out@)[before.len() as int] == rc@);
                        assert(!before.contains(rc@)) by {
                            if before.contains(rc@) {
                                let m = choose|m: int| 0 <= m < before.len() && before[m] == rc@;
                                assert(out@[m]@ == rc@);
                            }
                        }
                    } else {
                        proof {
                            let m = choose|m: int| 0 <= m < out@.len() && out@[m]@ == rc@;
                            assert(before[m] == rc@);
                            assert(advisory_views(out@) == before);
                        }
                    }
                }
                proof {
                    let now = advisory_views(out@);
                    if applies {
                        assert(now.contains(rc@));
                    } else {
                        assert(now == before);
                    }
                    assert(forall|m: int| 0 <= m < before.len() ==> now[m] == before[m]);
                    assert(now.len() == before.len() || (now.len() == before.len() + 1 && now.last() == rc@ && applies));
                    assert forall|x: RustSecView|
                        now.contains(x) implies (concerns_some(av, nvs.take(i as int), x) || exists|k: int|
                            0 <= k < j + 1 && #[trigger] av[k] == x && applies_to(
                                x,
                                nv_name(nvs[i as int]),
                                nv_version(nvs[i as int]),
                            )) by {
                        let m = choose|m: int| 0 <= m < now.len() && now[m] == x;
                        if m < before.len() {
                            assert(before[m] == x);
                            assert(before.contains(x));
                        } else {
                            assert(x == rc@);
                            assert(av[j as int] == x);
                        }
                    }
                    assert forall|x: RustSecView|
                        (concerns_some(av, nvs.take(i as int), x) || exists|k: int|
                            0 <= k < j + 1 && #[trigger] av[k] == x && applies_to(
                                x,
                                nv_name(nvs[i as int]),
                                nv_version(nvs[i as int]),
                            )) implies now.contains(x) by {
                        if concerns_some(av, nvs.take(i as int), x) {
                            assert(before.contains(x));
                            let m = choose|m: int| 0 <= m < before.len() && before[m] == x;
                            assert(now[m] == x);
                        } else {
                            let k = choose|k: int|
                                0 <= k < j + 1 && #[trigger] av[k] == x && applies_to(
                                    x,
                                    nv_name(nvs[i as int]),
                                    nv_version(nvs[i as int]),
                                );
                            if k < j {
                                assert(before.contains(x));
                                let m = choose|m: int| 0 <= m < before.len() && before[m] == x;
                                assert(now[m] == x);
                            } else {
                                assert(x == rc@);
                            }
                        }
                    }
                }
                j += 1;
            }
            proof {
                assert forall|x: RustSecView|
                    advisory_views(out@).contains(x) <==> concerns_some(
                        av,
                        nvs.take(i + 1),
                        x,
                    ) by {
                    let t = nvs.take(i + 1);
                    if concerns_some(av, t, x) {
                        let (a, b) = choose|a: int, b: int|
                            0 <= a < t.len() && 0 <= b < av.len() && #[trigger] av[b] == x
                                && applies_to(x, nv_name(#[trigger] t[a]), nv_version(t[a]));
                        if a < i {
                            assert(nvs.take(i as int)[a] == t[a]);
                            assert(concerns_some(av, nvs.take(i as int), x));
                        } else {
                            assert(t[a] == nvs[i as int]);
                        }
                    }
                    if concerns_some(av, nvs.take(i as int), x) {
                        let (a, b) = choose|a: int, b: int|
                            0 <= a < nvs.take(i as int).len() && 0 <= b < av.len() && #[trigger] av[b]
                                == x && applies_to(
                                x,
                                nv_name(#[trigger] nvs.take(i as int)[a]),
                                nv_version(nvs.take(i as int)[a]),
                            );
                        assert(t[a] == nvs.take(i as int)[a]);
                    }
                    if exists|k: int|
                        0 <= k < all@.len() && #[trigger] av[k] == x && applies_to(
                            x,
                            nv_name(nvs[i as int]),
                            nv_version(nvs[i as int]),
                        ) {
                        let k = choose|k: int|
                            0 <= k < all@.len() && #[trigger] av[k] == x && applies_to(
                                x,
                                nv_name(nvs[i as int]),
                                nv_version(nvs[i as int]),
                            );
                        assert(t[i as int] == nvs[i as int]);
                    }
                }
            }
            i += 1;
        }
        assert(nvs.take(name_versions@.len() as int) =~= nvs);
        out
    }
}

} // verus!
