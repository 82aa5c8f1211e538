use vstd::prelude::*;

verus! {

/// Appends one character to a string (`String::push`).
#[verifier::external_body]
pub(crate) fn push_char(s: &mut String, c: char)
    ensures
        final(s)@ == old(s)@.push(c),
{
    s.push(c);
}

/// The characters of a string slice, in order.
pub fn chars_of(s: &str) -> (v: Vec<char>)
    ensures
        v@ == s@,
{
    let mut v: Vec<char> = Vec::new();
    for c in it: s.chars()
        invariant
            v@ == it.seq().take(it.index() as int),
            it.seq() == s@,
    {
        v.push(c);
    }
    v
}

/// Builds a string from a run of characters.
pub fn string_of(v: &[char]) -> (s: String)
    ensures
        s@ == v@,
{
    let mut s = String::new();
    let mut i: usize = 0;
    while i < v.len()
        invariant
            i <= v.len(),
            s@ == v@.take(i as int),
        decreases v.len() - i,
    {
        push_char(&mut s, v[i]);
        assert(v@.take(i as int).push(v@[i as int]) =~= v@.take(i + 1));
        i += 1;
    }
    assert(v@.take(v.len() as int) =~= v@);
    s
}


/// The views of a sequence of strings.
pub open spec fn views(v: Seq<String>) -> Seq<Seq<char>> {
    v.map_values(|x: String| x@)
}

/// The pieces of `s` between occurrences of `sep`, as `str::split` with a
/// character pattern yields them: one more piece than there are separators.
pub open spec fn split_on(s: Seq<char>, sep: char) -> Seq<Seq<char>>
    decreases s.len(),
{
    if s.len() == 0 {
        seq![Seq::<char>::empty()]
    } else {
        let rest = split_on(s.drop_last(), sep);
        if s.last() == sep {
            rest.push(Seq::<char>::empty())
        } else {
            rest.update(rest.len() - 1, rest.last().push(s.last()))
        }
    }
}

/// The pieces joined with `sep` between consecutive pieces (`[T]::join`).
pub open spec fn join_with(pieces: Seq<Seq<char>>, sep: char) -> Seq<char>
    decreases pieces.len(),
{
    if pieces.len() == 0 {
        Seq::<char>::empty()
    } else if pieces.len() == 1 {
        pieces[0]
    } else {
        join_with(pieces.drop_last(), sep).push(sep) + pieces.last()
    }
}

pub proof fn lemma_split_on_nonempty(s: Seq<char>, sep: char)
    ensures
        split_on(s, sep).len() >= 1,
    decreases s.len(),
{
    if s.len() > 0 {
        lemma_split_on_nonempty(s.drop_last(), sep);
    }
}

proof fn lemma_join_extend_last(x: Seq<Seq<char>>, c: char, sep: char)
    requires
        x.len() >= 1,
    ensures
        join_with(x.update(x.len() - 1, x.last().push(c)), sep) == join_with(x, sep).push(c),
{
    let y = x.update(x.len() - 1, x.last().push(c));
    if x.len() == 1 {
        assert(y[0] == x[0].push(c));
    } else {
        assert(y.drop_last() =~= x.drop_last());
        assert(join_with(y, sep) == join_with(x.drop_last(), sep).push(sep) + x.last().push(c));
        assert(join_with(x.drop_last(), sep).push(sep) + x.last().push(c)
            =~= (join_with(x.drop_last(), sep).push(sep) + x.last()).push(c));
    }
}

/// Joining the pieces of a split with the same separator gives the text back.
pub proof fn lemma_join_split(s: Seq<char>, sep: char)
    ensures
        join_with(split_on(s, sep), sep) == s,
    decreases s.len(),
{
    if s.len() == 0 {
    } else {
        let rest = split_on(s.drop_last(), sep);
        lemma_join_split(s.drop_last(), sep);
        lemma_split_on_nonempty(s.drop_last(), sep);
        if s.last() == sep {
            let x = rest.push(Seq::<char>::empty());
            assert(x.drop_last() =~= rest);
            assert(join_with(x, sep) =~= s.drop_last().push(sep));
            assert(s.drop_last().push(sep) =~= s);
        } else {
            lemma_join_extend_last(rest, s.last(), sep);
            assert(s.drop_last().push(s.last()) =~= s);
        }
    }
}

/// A text without the separator splits into itself alone.
pub proof fn lemma_split_no_sep(p: Seq<char>, sep: char)
    requires
        !p.contains(sep),
    ensures
        split_on(p, sep) == seq![p],
    decreases p.len(),
{
    if p.len() == 0 {
        assert(p =~= Seq::<char>::empty());
    } else {
        assert(!p.drop_last().contains(sep)) by {
            if p.drop_last().contains(sep) {
                let k = choose|k: int| 0 <= k < p.drop_last().len() && p.drop_last()[k] == sep;
                assert(p[k] == sep);
            }
        }
        lemma_split_no_sep(p.drop_last(), sep);
        assert(p[p.len() - 1] != sep);
        assert(p.drop_last().push(p.last()) =~= p);
        let rest = split_on(p.drop_last(), sep);
        assert(rest == seq![p.drop_last()]);
        assert(rest.len() == 1);
        assert(rest.last() == p.drop_last());
        assert(split_on(p, sep) == rest.update(0, p.drop_last().push(p.last())));
        assert(rest.update(0, p.drop_last().push(p.last())) =~= seq![p]);
    }
}

/// Splitting a text, a separator and a text without it gives the first
/// text's pieces and then the second text.
pub proof fn lemma_split_after_sep(a: Seq<char>, b: Seq<char>, sep: char)
    requires
        !b.contains(sep),
    ensures
        split_on(a.push(sep) + b, sep) == split_on(a, sep).push(b),
    decreases b.len(),
{
    if b.len() == 0 {
        assert(b =~= Seq::<char>::empty());
        assert(a.push(sep) + b =~= a.push(sep));
        assert(a.push(sep).drop_last() =~= a);
        assert(split_on(a.push(sep), sep) == split_on(a, sep).push(Seq::<char>::empty()));
    } else {
        let b0 = b.drop_last();
        assert(!b0.contains(sep)) by {
            if b0.contains(sep) {
                let k = choose|k: int| 0 <= k < b0.len() && b0[k] == sep;
                assert(b[k] == sep);
            }
        }
        lemma_split_after_sep(a, b0, sep);
        let t = a.push(sep) + b;
        assert(t.drop_last() =~= a.push(sep) + b0);
        assert(t.last() == b.last());
        assert(b[b.len() - 1] != sep);
        let r = split_on(a, sep).push(b0);
        assert(b0.push(b.last()) =~= b);
        assert(r.last() == b0);
        assert(split_on(t, sep) == r.update(r.len() - 1, r.last().push(t.last())));
        assert(r.update(r.len() - 1, r.last().push(b.last())) =~= split_on(a, sep).push(b));
    }
}

/// Splitting a join gives the pieces back, when no piece holds the separator.
pub proof fn lemma_split_join(pieces: Seq<Seq<char>>, sep: char)
    requires
        pieces.len() >= 1,
        forall|i: int| 0 <= i < pieces.len() ==> !(#[trigger] pieces[i]).contains(sep),
    ensures
        split_on(join_with(pieces, sep), sep) == pieces,
    decreases pieces.len(),
{
    if pieces.len() == 1 {
        lemma_split_no_sep(pieces[0], sep);
        assert(seq![pieces[0]] =~= pieces);
    } else {
        let init = pieces.drop_last();
        assert forall|i: int| 0 <= i < init.len() implies !(#[trigger] init[i]).contains(sep) by {
            assert(init[i] == pieces[i]);
        }
        lemma_split_join(init, sep);
        assert(!pieces.last().contains(sep)) by {
            assert(pieces.last() == pieces[pieces.len() - 1]);
        }
        lemma_split_after_sep(join_with(init, sep), pieces.last(), sep);
        assert(init.push(pieces.last()) =~= pieces);
    }
}

/// Splits `s` at every occurrence of `sep` (`str::split` with a character).
pub fn split_by(s: &str, sep: char) -> (r: Vec<String>)
    ensures
        views(r@) == split_on(s@, sep),
{
    let cs = chars_of(s);
    let mut pieces: Vec<String> = Vec::new();
    let mut cur: Vec<char> = Vec::new();
    let mut i: usize = 0;
    while i < cs.len()
        invariant
            i <= cs.len(),
            cs@ == s@,
            views(pieces@).push(cur@) == split_on(cs@.take(i as int), sep),
        decreases cs.len() - i,
    {
        let c = cs[i];
        let ghost before = views(pieces@);
        let ghost cur0 = cur@;
        assert(cs@.take(i + 1).drop_last() =~= cs@.take(i as int));
        if c == sep {
            let piece = string_of(cur.as_slice());
            pieces.push(piece);
            cur = Vec::new();
            assert(views(pieces@) =~= before.push(cur0));
        } else {
            cur.push(c);
            assert(views(pieces@) =~= before);
            assert(before.push(cur0).update(before.len() as int, cur0.push(c)) =~= before.push(cur@));
        }
        i += 1;
    }
    let last = string_of(cur.as_slice());
    let ghost before = views(pieces@);
    pieces.push(last);
    assert(views(pieces@) =~= before.push(cur@));
    assert(cs@.take(cs.len() as int) =~= s@);
    pieces
}

/// Joins the strings with `sep` between consecutive ones.
pub fn join_by(parts: &Vec<String>, sep: char) -> (r: String)
    ensures
        r@ == join_with(views(parts@), sep),
{
    let mut out = String::new();
    let mut i: usize = 0;
    while i < parts.len()
        invariant
            i <= parts.len(),
            out@ == join_with(views(parts@).take(i as int), sep),
        decreases parts.len() - i,
    {
        let ghost prev = views(parts@).take(i as int);
        assert(views(parts@).take(i + 1).drop_last() =~= prev);
        if i > 0 {
            push_char(&mut out, sep);
        }
        out.append(parts[i].as_str());
        if i == 0 {
            assert(views(parts@).take(1) =~= seq![parts@[0]@]);
        }
        i += 1;
    }
    assert(views(parts@).take(parts.len() as int) =~= views(parts@));
    out
}


/// Characters with the Unicode `White_Space` property (`char::is_whitespace`).
pub open spec fn is_white_space(c: char) -> bool {
    let u = c as u32;
    ||| 0x09 <= u <= 0x0d
    ||| u == 0x20
    ||| u == 0x85
    ||| u == 0xa0
    ||| u == 0x1680
    ||| 0x2000 <= u <= 0x200a
    ||| u == 0x2028
    ||| u == 0x2029
    ||| u == 0x202f
    ||| u == 0x205f
    ||| u == 0x3000
}

/// `s` without its leading white space.
pub open spec fn trim_start(s: Seq<char>) -> Seq<char>
    decreases s.len(),
{
    if s.len() > 0 && is_white_space(s[0]) {
        trim_start(s.drop_first())
    } else {
        s
    }
}

/// `s` without its trailing white space.
pub open spec fn trim_end(s: Seq<char>) -> Seq<char>
    decreases s.len(),
{
    if s.len() > 0 && is_white_space(s.last()) {
        trim_end(s.drop_last())
    } else {
        s
    }
}

/// `s` without leading and trailing white space (`str::trim`).
pub open spec fn trim(s: Seq<char>) -> Seq<char> {
    trim_end(trim_start(s))
}

pub fn is_white_space_char(c: char) -> (r: bool)
    ensures
        r == is_white_space(c),
{
    let u = c as u32;
    (0x09 <= u && u <= 0x0d) || u == 0x20 || u == 0x85 || u == 0xa0 || u == 0x1680 || (0x2000
        <= u && u <= 0x200a) || u == 0x2028 || u == 0x2029 || u == 0x202f || u == 0x205f || u
        == 0x3000
}

/// The characters `from..to` of `cs` as a string.
pub fn string_of_range(cs: &[char], from: usize, to: usize) -> (s: String)
    requires
        from <= to <= cs@.len(),
    ensures
        s@ == cs@.subrange(from as int, to as int),
{
    let mut s = String::new();
    let mut i: usize = from;
    while i < to
        invariant
            from <= i <= to,
            to <= cs@.len(),
            s@ == cs@.subrange(from as int, i as int),
        decreases to - i,
    {
        push_char(&mut s, cs[i]);
        assert(cs@.subrange(from as int, i as int).push(cs@[i as int]) =~= cs@.subrange(
            from as int,
            i + 1,
        ));
        i += 1;
    }
    s
}

/// `s` without leading and trailing white space.
pub fn trim_chars(s: &[char]) -> (r: Vec<char>)
    ensures
        r@ == trim(s@),
{
    let mut i: usize = 0;
    assert(s@.skip(0) =~= s@);
    while i < s.len() && is_white_space_char(s[i])
        invariant
            i <= s@.len(),
            trim_start(s@) == trim_start(s@.skip(i as int)),
        decreases s.len() - i,
    {
        assert(s@.skip(i as int).drop_first() =~= s@.skip(i + 1));
        i += 1;
    }
    assert(trim_start(s@.skip(i as int)) == s@.skip(i as int));
    let mut j: usize = s.len();
    let ghost t = s@.skip(i as int);
    assert(t =~= s@.subrange(i as int, j as int));
    while j > i && is_white_space_char(s[j - 1])
        invariant
            i <= j <= s@.len(),
            t == s@.skip(i as int),
            trim_end(t) == trim_end(s@.subrange(i as int, j as int)),
        decreases j,
    {
        assert(s@.subrange(i as int, j as int).drop_last() =~= s@.subrange(i as int, j - 1));
        j -= 1;
    }
    let mut r: Vec<char> = Vec::new();
    let mut k: usize = i;
    while k < j
        invariant
            i <= k <= j <= s@.len(),
            r@ == s@.subrange(i as int, k as int),
        decreases j - k,
    {
        r.push(s[k]);
        assert(s@.subrange(i as int, k as int).push(s@[k as int]) =~= s@.subrange(i as int, k + 1));
        k += 1;
    }
    r
}


/// Whether `c` occurs in `cs`.
pub fn contains_char(cs: &[char], c: char) -> (r: bool)
    ensures
        r == cs@.contains(c),
{
    let mut i: usize = 0;
    while i < cs.len()
        invariant
            i <= cs@.len(),
            forall|k: int| 0 <= k < i ==> cs@[k] != c,
        decreases cs.len() - i,
    {
        if cs[i] == c {
            assert(cs@[i as int] == c);
            return true;
        }
        i += 1;
    }
    false
}


/// A copy of a list of strings.
pub fn clone_strings(v: &Vec<String>) -> (r: Vec<String>)
    ensures
        views(r@) == views(v@),
{
    let mut r: Vec<String> = Vec::new();
    let mut i: usize = 0;
    while i < v.len()
        invariant
            i <= v@.len(),
            views(r@) == views(v@).take(i as int),
        decreases v.len() - i,
    {
        let ghost before = r@;
        let c = v[i].clone();
        r.push(c);
        assert(r@ == before.push(c));
        assert(views(r@) =~= views(before).push(v@[i as int]@));
        assert(views(v@).take(i + 1) =~= views(v@).take(i as int).push(v@[i as int]@));
        i += 1;
    }
    assert(views(v@).take(v@.len() as int) =~= views(v@));
    r
}

/// Whether two lists of strings hold the same texts in the same order.
pub fn strings_eq(a: &Vec<String>, b: &Vec<String>) -> (r: bool)
    ensures
        r == (views(a@) == views(b@)),
{
    if a.len() != b.len() {
        assert(views(a@).len() != views(b@).len());
        return false;
    }
    let mut i: usize = 0;
    while i < a.len()
        invariant
            i <= a@.len(),
            a@.len() == b@.len(),
            forall|k: int| 0 <= k < i ==> a@[k]@ == b@[k]@,
        decreases a.len() - i,
    {
        if a[i] != b[i] {
            assert(views(a@)[i as int] != views(b@)[i as int]);
            return false;
        }
        i += 1;
    }
    assert(views(a@) =~= views(b@));
    true
}


/// A text that holds the separator splits into at least two pieces.
pub proof fn lemma_split_has_sep(s: Seq<char>, sep: char)
    requires
        s.contains(sep),
    ensures
        split_on(s, sep).len() >= 2,
    decreases s.len(),
{
    let t = s.drop_last();
    lemma_split_on_nonempty(t, sep);
    if s.last() != sep {
        let k = choose|k: int| 0 <= k < s.len() && s[k] == sep;
        assert(t[k] == sep);
        lemma_split_has_sep(t, sep);
    }
}


/// Whether two string slices hold the same text.
pub fn str_eq(a: &str, b: &str) -> (r: bool)
    ensures
        r == (a@ == b@),
{
    let x = chars_of(a);
    let y = chars_of(b);
    if x.len() != y.len() {
        assert(a@.len() != b@.len());
        return false;
    }
    let mut i: usize = 0;
    while i < x.len()
        invariant
            i <= x@.len(),
            x@.len() == y@.len(),
            x@ == a@,
            y@ == b@,
            forall|k: int| 0 <= k < i ==> x@[k] == y@[k],
        decreases x.len() - i,
    {
        if x[i] != y[i] {
            assert(a@[i as int] != b@[i as int]);
            return false;
        }
        i += 1;
    }
    assert(x@ =~= y@);
    true
}


/// A join holds no character that is neither the separator nor in a piece.
pub proof fn lemma_join_excludes(pieces: Seq<Seq<char>>, sep: char, c: char)
    requires
        c != sep,
        forall|i: int| 0 <= i < pieces.len() ==> !(#[trigger] pieces[i]).contains(c),
    ensures
        !join_with(pieces, sep).contains(c),
    decreases pieces.len(),
{
    if pieces.len() == 0 {
    } else if pieces.len() == 1 {
        assert(!pieces[0].contains(c));
    } else {
        let init = pieces.drop_last();
        assert forall|i: int| 0 <= i < init.len() implies !(#[trigger] init[i]).contains(c) by {
            assert(init[i] == pieces[i]);
        }
        lemma_join_excludes(init, sep, c);
        let j = join_with(init, sep);
        let l = pieces.last();
        assert(!l.contains(c)) by {
            assert(l == pieces[pieces.len() - 1]);
        }
        let t = j.push(sep) + l;
        if t.contains(c) {
            let k = choose|k: int| 0 <= k < t.len() && t[k] == c;
            if k < j.len() {
                assert(j[k] == c);
            } else if k == j.len() {
                assert(t[k] == sep);
            } else {
                assert(l[k - j.len() - 1] == c);
            }
        }
    }
}

/// `p` occurs in `s` starting at position `i`.
pub open spec fn occurs_at(s: Seq<char>, p: Seq<char>, i: int) -> bool {
    0 <= i && i + p.len() <= s.len() && s.subrange(i, i + p.len()) == p
}

/// `p` occurs somewhere in `s` (`str::contains` with a string pattern).
pub open spec fn has_substring(s: Seq<char>, p: Seq<char>) -> bool {
    exists|i: int| occurs_at(s, p, i)
}

fn matches_at(s: &[char], p: &[char], i: usize) -> (r: bool)
    requires
        i + p@.len() <= s@.len(),
    ensures
        r == occurs_at(s@, p@, i as int),
{
    let mut k: usize = 0;
    while k < p.len()
        invariant
            k <= p@.len(),
            i + p@.len() <= s@.len(),
            forall|m: int| 0 <= m < k ==> s@[i + m] == p@[m],
        decreases p.len() - k,
    {
        assert(i + k < s.len());
        if s[i + k] != p[k] {
            assert(s@.subrange(i as int, i + p@.len())[k as int] != p@[k as int]);
            return false;
        }
        k += 1;
    }
    assert(s@.subrange(i as int, i + p@.len()) =~= p@);
    true
}

/// Whether `p` occurs in `s`.
pub fn contains_text(s: &str, p: &str) -> (r: bool)
    ensures
        r == has_substring(s@, p@),
{
    let sc = chars_of(s);
    let pc = chars_of(p);
    if pc.len() > sc.len() {
        assert forall|i: int| !occurs_at(s@, p@, i) by {}
        return false;
    }
    let last = sc.len() - pc.len();
    let mut i: usize = 0;
    while i <= last
        invariant
            pc@.len() <= sc@.len(),
            last == sc@.len() - pc@.len(),
            sc@ == s@,
            pc@ == p@,
            i <= last + 1,
            forall|j: int| 0 <= j < i ==> !occurs_at(s@, p@, j),
        decreases last + 1 - i,
    {
        if matches_at(&sc, &pc, i) {
            return true;
        }
        if i == last {
            assert forall|j: int| !occurs_at(s@, p@, j) by {}
            return false;
        }
        i += 1;
    }
    assert forall|j: int| !occurs_at(s@, p@, j) by {
        if 0 <= j && j < i {
        }
    }
    false
}

/// The first position at or after `i` where `p` occurs in `s`.
pub open spec fn occurrence_from(s: Seq<char>, p: Seq<char>, i: int) -> Option<int>
    decreases s.len() + 1 - i,
{
    if i < 0 || i + p.len() > s.len() {
        None
    } else if occurs_at(s, p, i) {
        Some(i)
    } else {
        occurrence_from(s, p, i + 1)
    }
}

/// The first position where `p` occurs in `s` (`str::find`, counted in
/// characters).
pub open spec fn first_occurrence(s: Seq<char>, p: Seq<char>) -> Option<int> {
    occurrence_from(s, p, 0)
}

/// The position of the first occurrence of `p` in `s`.
pub fn find_text(s: &str, p: &str) -> (r: Option<usize>)
    ensures
        r matches Some(i) ==> first_occurrence(s@, p@) == Some(i as int),
        r is None ==> first_occurrence(s@, p@) is None,
{
    let sc = chars_of(s);
    let pc = chars_of(p);
    if pc.len() > sc.len() {
        return None;
    }
    let last = sc.len() - pc.len();
    let mut i: usize = 0;
    while i < last
        invariant
            sc@ == s@,
            pc@ == p@,
            last == sc@.len() - pc@.len(),
            i <= last,
            occurrence_from(s@, p@, 0) == occurrence_from(s@, p@, i as int),
        decreases last - i,
    {
        if matches_at(&sc, &pc, i) {
            return Some(i);
        }
        i += 1;
    }
    if matches_at(&sc, &pc, last) {
        Some(last)
    } else {
        assert(occurrence_from(s@, p@, last + 1) is None);
        None
    }
}

/// The position of the last `c` in `s`.
pub open spec fn last_index_of(s: Seq<char>, c: char) -> Option<int>
    decreases s.len(),
{
    if s.len() == 0 {
        None
    } else if s.last() == c {
        Some(s.len() - 1)
    } else {
        last_index_of(s.drop_last(), c)
    }
}

/// Where `last_index_of` points, `c` stands.
pub proof fn lemma_last_index_of(s: Seq<char>, c: char)
    ensures
        last_index_of(s, c) matches Some(i) ==> 0 <= i < s.len() && s[i] == c,
        last_index_of(s, c) is None ==> !s.contains(c),
    decreases s.len(),
{
    if s.len() > 0 {
        lemma_last_index_of(s.drop_last(), c);
        if last_index_of(s, c) is None {
            assert forall|k: int| 0 <= k < s.len() implies s[k] != c by {
                if k < s.len() - 1 {
                    assert(s.drop_last()[k] == s[k]);
                }
            }
        }
    }
}

/// The position of the last `c` in `cs` (`str::rfind` with a character,
/// counted in characters).
pub fn rfind_char(cs: &[char], c: char) -> (r: Option<usize>)
    ensures
        r matches Some(i) ==> last_index_of(cs@, c) == Some(i as int),
        r is None ==> last_index_of(cs@, c) is None,
{
    let mut j: usize = cs.len();
    assert(cs@.take(j as int) =~= cs@);
    while j > 0 && cs[j - 1] != c
        invariant
            j <= cs@.len(),
            last_index_of(cs@, c) == last_index_of(cs@.take(j as int), c),
        decreases j,
    {
        assert(cs@.take(j as int).drop_last() =~= cs@.take(j - 1));
        j -= 1;
    }
    if j > 0 {
        Some(j - 1)
    } else {
        None
    }
}

/// `s` with every occurrence of `p`, taken from the left without overlap,
/// removed (`str::replace(p, "")`).
pub open spec fn remove_all(s: Seq<char>, p: Seq<char>) -> Seq<char>
    decreases s.len(),
{
    if p.len() == 0 || s.len() == 0 {
        s
    } else if s.len() >= p.len() && s.take(p.len() as int) == p {
        remove_all(s.skip(p.len() as int), p)
    } else {
        seq![s[0]] + remove_all(s.skip(1), p)
    }
}

/// Removes every occurrence of `p` from `s`.
pub fn remove_text(s: &str, p: &str) -> (r: String)
    ensures
        r@ == remove_all(s@, p@),
{
    let sc = chars_of(s);
    let pc = chars_of(p);
    if pc.len() == 0 {
        return s.to_owned();
    }
    let mut r = String::new();
    let mut i: usize = 0;
    assert(sc@.skip(0) =~= sc@);
    while i < sc.len()
        invariant
            sc@ == s@,
            pc@ == p@,
            pc@.len() > 0,
            i <= sc@.len(),
            remove_all(s@, p@) == r@ + remove_all(sc@.skip(i as int), p@),
        decreases sc.len() - i,
    {
        let ghost rest = sc@.skip(i as int);
        if pc.len() <= sc.len() - i && matches_at(&sc, &pc, i) {
            assert(rest.take(p@.len() as int) =~= sc@.subrange(i as int, i + p@.len()));
            assert(rest.skip(p@.len() as int) =~= sc@.skip(i + p@.len()));
            i += pc.len();
        } else {
            assert(!(rest.len() >= p@.len() && rest.take(p@.len() as int) == p@)) by {
                if rest.len() >= p@.len() && rest.take(p@.len() as int) == p@ {
                    assert(rest.take(p@.len() as int) =~= sc@.subrange(i as int, i + p@.len()));
                }
            }
            assert(rest.skip(1) =~= sc@.skip(i + 1));
            let ghost before = r@;
            push_char(&mut r, sc[i]);
            assert(r@ + remove_all(sc@.skip(i + 1), p@) =~= before + (seq![rest[0]] + remove_all(rest.skip(1), p@)));
            i += 1;
        }
    }
    assert(sc@.skip(i as int) =~= Seq::<char>::empty());
    assert(r@ + Seq::<char>::empty() =~= r@);
    r
}


/// `s` begins with `p`.
pub open spec fn starts_with(s: Seq<char>, p: Seq<char>) -> bool {
    p.len() <= s.len() && s.take(p.len() as int) == p
}

/// Whether `s` begins with `p`.
pub fn starts_with_text(s: &str, p: &str) -> (r: bool)
    ensures
        r == starts_with(s@, p@),
{
    let sc = chars_of(s);
    let pc = chars_of(p);
    if pc.len() > sc.len() {
        return false;
    }
    let r = matches_at(&sc, &pc, 0);
    assert(sc@.subrange(0, pc@.len() as int) =~= sc@.take(pc@.len() as int));
    r
}

/// A line without the `\r` that ends it, if one does.
pub open spec fn strip_cr(p: Seq<char>) -> Seq<char> {
    if p.len() > 0 && p.last() == '\r' {
        p.drop_last()
    } else {
        p
    }
}

/// The lines of a text as `str::lines` yields them: split at `\n`, a `\r`
/// before a `\n` dropped, and no empty line after a final `\n`.
pub open spec fn text_lines(s: Seq<char>) -> Seq<Seq<char>> {
    let ps = split_on(s, '\n');
    let body = ps.drop_last().map_values(|p: Seq<char>| strip_cr(p));
    if ps.last().len() == 0 {
        body
    } else {
        body.push(ps.last())
    }
}

/// The lines of a text.
pub fn lines_of_text(s: &str) -> (r: Vec<String>)
    ensures
        views(r@) == text_lines(s@),
{
    let ps = split_by(s, '\n');
    proof {
        lemma_split_on_nonempty(s@, '\n');
    }
    let ghost pv = views(ps@);
    let ghost f = |p: Seq<char>| strip_cr(p);
    let n = ps.len() - 1;
    let mut r: Vec<String> = Vec::new();
    let mut i: usize = 0;
    while i < n
        invariant
            n == ps@.len() - 1,
            i <= n,
            pv == views(ps@),
            pv == split_on(s@, '\n'),
            f == (|p: Seq<char>| strip_cr(p)),
            views(r@) == pv.take(i as int).map_values(f),
        decreases n - i,
    {
        let cs = chars_of(ps[i].as_str());
        assert(pv[i as int] == ps@[i as int]@);
        let line = if cs.len() > 0 && cs[cs.len() - 1] == '\r' {
            string_of_range(cs.as_slice(), 0, cs.len() - 1)
        } else {
            ps[i].clone()
        };
        assert(line@ == f(pv[i as int])) by {
            if cs@.len() > 0 && cs@.last() == '\r' {
                assert(cs@.subrange(0, cs@.len() - 1) =~= cs@.drop_last());
            }
        }
        let ghost before = views(r@);
        r.push(line);
        assert(views(r@) =~= before.push(f(pv[i as int])));
        assert(pv.take(i + 1).map_values(f) =~= pv.take(i as int).map_values(f).push(
            f(pv[i as int]),
        ));
        i += 1;
    }
    assert(pv.take(n as int) =~= pv.drop_last());
    assert(pv.last() == ps@[n as int]@);
    if !ps[n].as_str().is_empty() {
        let ghost before = views(r@);
        r.push(ps[n].clone());
        assert(views(r@) =~= before.push(pv.last()));
    }
    r
}

/// Whether `p` is one of the strings.
pub fn contains_str(paths: &Vec<String>, p: &str) -> (r: bool)
    ensures
        r == views(paths@).contains(p@),
{
    let mut i: usize = 0;
    while i < paths.len()
        invariant
            i <= paths@.len(),
            forall|k: int| 0 <= k < i ==> paths@[k]@ != p@,
        decreases paths.len() - i,
    {
        if str_eq(paths[i].as_str(), p) {
            assert(views(paths@)[i as int] == p@);
            return true;
        }
        i += 1;
    }
    assert forall|k: int| 0 <= k < views(paths@).len() implies views(paths@)[k] != p@ by {
        assert(views(paths@)[k] == paths@[k]@);
    }
    false
}


/// Where `s` starts once its leading white space is skipped.
pub fn leading_space(cs: &[char]) -> (i: usize)
    ensures
        i <= cs@.len(),
        trim_start(cs@) == cs@.skip(i as int),
{
    let mut i: usize = 0;
    assert(cs@.skip(0) =~= cs@);
    while i < cs.len() && is_white_space_char(cs[i])
        invariant
            i <= cs@.len(),
            trim_start(cs@) == trim_start(cs@.skip(i as int)),
        decreases cs.len() - i,
    {
        assert(cs@.skip(i as int).drop_first() =~= cs@.skip(i + 1));
        i += 1;
    }
    i
}

} // verus!
