use vstd::prelude::*;
use crate::text::{
    chars_of, contains_char, contains_text, has_substring, split_by, split_on, string_of_range,
    trim, trim_chars, views,
};

verus! {

/// Whether chrono parses the text as a `DateTime<FixedOffset>`.
pub uninterp spec fn datetime_accepts(text: Seq<char>) -> bool;

/// Calls `str::parse::<chrono::DateTime<chrono::FixedOffset>>` and reports
/// whether it succeeded; which texts it accepts is the name
/// `datetime_accepts`.
#[verifier::external_body]
fn parses_as_datetime(text: &str) -> (r: bool)
    ensures
        r == datetime_accepts(text@),
{
    text.parse::<chrono::DateTime<chrono::FixedOffset>>().is_ok()
}

/// What the analysis of one contributor found.
pub struct ContributorAnalysis {
    pub email: Option<String>,
    pub from_china: bool,
    pub common_timezone: String,
}

/// A timezone text that may well be China's: it holds `+0800`, `+08:00`,
/// `CST` or `Asia/Shanghai`.
pub open spec fn china_timezone(tz: Seq<char>) -> bool {
    has_substring(tz, "+0800"@) || has_substring(tz, "+08:00"@) || has_substring(tz, "CST"@)
        || has_substring(tz, "Asia/Shanghai"@)
}

/// Whether the timezone text may well be China's.
pub fn is_china_timezone(timezone: &str) -> (r: bool)
    ensures
        r == china_timezone(timezone@),
{
    contains_text(timezone, "+0800") || contains_text(timezone, "+08:00") || contains_text(
        timezone,
        "CST",
    ) || contains_text(timezone, "Asia/Shanghai")
}

/// The non-empty lines of a command's output, once trimmed.
pub open spec fn output_lines(out: Seq<char>) -> Seq<Seq<char>> {
    split_on(trim(out), '\n').filter(|l: Seq<char>| l.len() > 0)
}

fn lines_of(out: &str) -> (r: Vec<String>)
    ensures
        views(r@) == output_lines(out@),
{
    let t = trim_chars(chars_of(out).as_slice());
    let ts = crate::text::string_of(t.as_slice());
    let all = split_by(ts.as_str(), '\n');
    let ghost pred = |l: Seq<char>| l.len() > 0;
    let mut r: Vec<String> = Vec::new();
    let mut i: usize = 0;
    while i < all.len()
        invariant
            i <= all@.len(),
            views(all@) == split_on(trim(out@), '\n'),
            pred == (|l: Seq<char>| l.len() > 0),
            views(r@) == views(all@).take(i as int).filter(pred),
        decreases all.len() - i,
    {
        proof {
            views(all@).take(i as int).lemma_filter_push(all@[i as int]@, pred);
            assert(views(all@).take(i + 1) =~= views(all@).take(i as int).push(all@[i as int]@));
        }
        let ghost before = views(r@);
        if !all[i].as_str().is_empty() {
            r.push(all[i].clone());
            assert(views(r@) =~= before.push(all@[i as int]@));
        }
        i += 1;
    }
    assert(views(all@).take(all@.len() as int) =~= views(all@));
    r
}

/// The position of the last `+` or `-` in `s`.
pub open spec fn last_sign(s: Seq<char>) -> Option<int>
    decreases s.len(),
{
    if s.len() == 0 {
        None
    } else if s.last() == '+' || s.last() == '-' {
        Some(s.len() - 1)
    } else {
        last_sign(s.drop_last())
    }
}

/// The timezone of an ISO 8601 commit date: from its last sign on, else
/// `Z` for a date that holds one, else `Unknown`.
pub open spec fn timezone_of(line: Seq<char>) -> Seq<char> {
    match last_sign(line) {
        Some(p) => line.skip(p),
        None => if line.contains('Z') {
            "Z"@
        } else {
            "Unknown"@
        },
    }
}

proof fn lemma_last_sign_bound(s: Seq<char>)
    ensures
        last_sign(s) matches Some(p) ==> 0 <= p < s.len(),
    decreases s.len(),
{
    if s.len() > 0 {
        lemma_last_sign_bound(s.drop_last());
    }
}

fn timezone_of_line(line: &str) -> (r: String)
    ensures
        r@ == timezone_of(line@),
{
    let cs = chars_of(line);
    let mut j: usize = cs.len();
    assert(cs@.take(j as int) =~= cs@);
    while j > 0 && cs[j - 1] != '+' && cs[j - 1] != '-'
        invariant
            j <= cs@.len(),
            cs@ == line@,
            last_sign(line@) == last_sign(cs@.take(j as int)),
        decreases j,
    {
        assert(cs@.take(j as int).drop_last() =~= cs@.take(j - 1));
        j -= 1;
    }
    if j > 0 {
        assert(last_sign(cs@.take(j as int)) == Some(j - 1));
        string_of_range(&cs, j - 1, cs.len())
    } else {
        assert(cs@.take(0) =~= Seq::<char>::empty());
        if contains_char(&cs, 'Z') {
            "Z".to_owned()
        } else {
            "Unknown".to_owned()
        }
    }
}

/// The timezones of the commit dates in `git log --format=%aI` output: one
/// per non-empty line that chrono reads as a date with an offset.
pub open spec fn commit_timezones(out: Seq<char>) -> Seq<Seq<char>> {
    output_lines(out).filter(|l: Seq<char>| datetime_accepts(l)).map_values(
        |l: Seq<char>| timezone_of(l),
    )
}

/// Reads the timezones of an author's commits from `git log` output.
pub fn author_timezones(out: &str) -> (r: Vec<String>)
    ensures
        views(r@) == commit_timezones(out@),
{
    let lines = lines_of(out);
    let ghost ls = views(lines@);
    let ghost pred = |l: Seq<char>| datetime_accepts(l);
    let mut r: Vec<String> = Vec::new();
    let mut i: usize = 0;
    while i < lines.len()
        invariant
            i <= lines@.len(),
            ls == views(lines@),
            ls == output_lines(out@),
            pred == (|l: Seq<char>| datetime_accepts(l)),
            views(r@) == ls.take(i as int).filter(pred).map_values(|l: Seq<char>| timezone_of(l)),
        decreases lines.len() - i,
    {
        let l = &lines[i];
        proof {
            ls.take(i as int).lemma_filter_push(l@, pred);
            assert(ls.take(i + 1) =~= ls.take(i as int).push(l@));
        }
        let ghost before = views(r@);
        if parses_as_datetime(l.as_str()) {
            let tz = timezone_of_line(l.as_str());
            r.push(tz);
            assert(views(r@) =~= before.push(timezone_of(l@)));
            assert(ls.take(i + 1).filter(pred).map_values(|l: Seq<char>| timezone_of(l))
                =~= ls.take(i as int).filter(pred).map_values(|l: Seq<char>| timezone_of(l)).push(
                timezone_of(l@),
            ));
        }
        i += 1;
    }
    assert(ls.take(ls.len() as int) =~= ls);
    r
}

/// How many times `x` occurs in `s`.
pub open spec fn occurrences(s: Seq<Seq<char>>, x: Seq<char>) -> nat
    decreases s.len(),
{
    if s.len() == 0 {
        0
    } else {
        occurrences(s.drop_last(), x) + if s.last() == x {
            1nat
        } else {
            0nat
        }
    }
}

fn count_in(v: &Vec<String>, x: &String) -> (n: usize)
    ensures
        n == occurrences(views(v@), x@),
{
    let mut n: usize = 0;
    let mut j: usize = 0;
    while j < v.len()
        invariant
            j <= v@.len(),
            n == occurrences(views(v@).take(j as int), x@),
            n <= j,
        decreases v.len() - j,
    {
        assert(views(v@).take(j + 1).drop_last() =~= views(v@).take(j as int));
        assert(views(v@).take(j + 1).last() == v@[j as int]@);
        if v[j] == *x {
            n += 1;
        }
        j += 1;
    }
    assert(views(v@).take(v@.len() as int) =~= views(v@));
    n
}

/// What the analysis of a contributor finds from the timezones of their
/// commits: nothing without commits; else whether some timezone may be
/// China's, and a most frequent timezone.
pub fn analyze_timezones(email: &str, timezones: &Vec<String>) -> (r: Option<ContributorAnalysis>)
    ensures
        r is Some <==> timezones@.len() > 0,
        r matches Some(a) ==> {
            &&& a.email matches Some(e) && e@ == email@
            &&& a.from_china == exists|i: int|
                0 <= i < timezones@.len() && china_timezone(#[trigger] timezones@[i]@)
            &&& views(timezones@).contains(a.common_timezone@)
            &&& forall|i: int|
                0 <= i < timezones@.len() ==> occurrences(views(timezones@), #[trigger] timezones@[i]@)
                    <= occurrences(views(timezones@), a.common_timezone@)
        },
{
    if timezones.len() == 0 {
        return None;
    }
    let mut china = false;
    let mut best: usize = 0;
    let mut best_count = count_in(timezones, &timezones[0]);
    let mut i: usize = 0;
    while i < timezones.len()
        invariant
            i <= timezones@.len(),
            best < timezones@.len(),
            best_count == occurrences(views(timezones@), timezones@[best as int]@),
            china == exists|k: int| 0 <= k < i && china_timezone(#[trigger] timezones@[k]@),
            forall|k: int|
                0 <= k < i ==> occurrences(views(timezones@), #[trigger] timezones@[k]@)
                    <= best_count,
        decreases timezones.len() - i,
    {
        if is_china_timezone(timezones[i].as_str()) {
            china = true;
        }
        let c = count_in(timezones, &timezones[i]);
        if c > best_count {
            best = i;
            best_count = c;
        }
        i += 1;
    }
    assert(views(timezones@)[best as int] == timezones@[best as int]@);
    Some(
        ContributorAnalysis {
            email: Some(email.to_owned()),
            from_china: china,
            common_timezone: timezones[best].clone(),
        },
    )
}

/// The position of the first `c` in `s`.
pub open spec fn first_index(s: Seq<char>, c: char) -> Option<int>
    decreases s.len(),
{
    if s.len() == 0 {
        None
    } else {
        match first_index(s.drop_last(), c) {
            Some(i) => Some(i),
            None => if s.last() == c {
                Some(s.len() - 1)
            } else {
                None
            },
        }
    }
}

proof fn lemma_first_index(s: Seq<char>, c: char)
    ensures
        first_index(s, c) matches Some(i) ==> 0 <= i < s.len() && s[i] == c && forall|k: int|
            0 <= k < i ==> s[k] != c,
        first_index(s, c) is None ==> !s.contains(c),
    decreases s.len(),
{
    if s.len() > 0 {
        let d = s.drop_last();
        lemma_first_index(d, c);
        assert forall|k: int| 0 <= k < d.len() implies d[k] == s[k] by {}
        if first_index(d, c) is None {
            assert forall|k: int| 0 <= k < d.len() implies s[k] != c by {
                if s[k] == c {
                    assert(d[k] == c);
                    assert(d.contains(c));
                }
            }
            if s.last() != c {
                assert forall|k: int| 0 <= k < s.len() implies s[k] != c by {}
            }
        }
    }
}

fn find_char(cs: &Vec<char>, c: char) -> (r: Option<usize>)
    ensures
        r matches Some(i) ==> first_index(cs@, c) == Some(i as int),
        r is None ==> first_index(cs@, c) is None,
{
    let mut i: usize = 0;
    while i < cs.len()
        invariant
            i <= cs@.len(),
            forall|k: int| 0 <= k < i ==> cs@[k] != c,
        decreases cs.len() - i,
    {
        if cs[i] == c {
            proof {
                lemma_first_index(cs@, c);
                if first_index(cs@, c) is None {
                    assert(cs@.contains(c));
                }
            }
            return Some(i);
        }
        i += 1;
    }
    proof {
        lemma_first_index(cs@, c);
    }
    None
}

/// A `git shortlog -sen` line whose address can be read: when it holds
/// both `<` and `>`, the first `<` comes before the first `>`.
pub open spec fn readable_shortlog_line(l: Seq<char>) -> bool {
    match (first_index(l, '<'), first_index(l, '>')) {
        (Some(a), Some(b)) => a < b,
        _ => true,
    }
}

/// The address of a `git shortlog -sen` line: between its first `<` and its
/// first `>`, trimmed.
pub open spec fn email_of(l: Seq<char>) -> Option<Seq<char>> {
    match (first_index(l, '<'), first_index(l, '>')) {
        (Some(a), Some(b)) => Some(trim(l.subrange(a + 1, b))),
        _ => None,
    }
}

/// Whether every line of `git shortlog -sen` output can be read (see
/// `readable_shortlog_line`).
pub fn shortlog_readable(out: &str) -> (r: bool)
    ensures
        r == forall|i: int|
            0 <= i < output_lines(out@).len() ==> readable_shortlog_line(
                #[trigger] output_lines(out@)[i],
            ),
{
    let lines = lines_of(out);
    let ghost ls = views(lines@);
    let mut i: usize = 0;
    while i < lines.len()
        invariant
            i <= lines@.len(),
            ls == views(lines@),
            ls == output_lines(out@),
            forall|k: int| 0 <= k < i ==> readable_shortlog_line(#[trigger] ls[k]),
        decreases lines.len() - i,
    {
        assert(ls[i as int] == lines@[i as int]@);
        let cs = chars_of(lines[i].as_str());
        match (find_char(&cs, '<'), find_char(&cs, '>')) {
            (Some(a), Some(b)) => {
                if a >= b {
                    return false;
                }
            },
            _ => {},
        }
        i += 1;
    }
    true
}

/// The addresses in `git shortlog -sen` output, one per line that has one.
pub open spec fn shortlog_emails(out: Seq<char>) -> Seq<Seq<char>> {
    output_lines(out).filter(|l: Seq<char>| email_of(l) is Some).map_values(
        |l: Seq<char>| email_of(l)->0,
    )
}

/// Reads the contributors' addresses from `git shortlog -sen` output.
pub fn contributor_emails(out: &str) -> (r: Vec<String>)
    requires
        forall|i: int|
            0 <= i < output_lines(out@).len() ==> readable_shortlog_line(
                #[trigger] output_lines(out@)[i],
            ),
    ensures
        views(r@) == shortlog_emails(out@),
{
    let lines = lines_of(out);
    let ghost ls = views(lines@);
    let ghost pred = |l: Seq<char>| email_of(l) is Some;
    let mut r: Vec<String> = Vec::new();
    let mut i: usize = 0;
    while i < lines.len()
        invariant
            i <= lines@.len(),
            ls == views(lines@),
            ls == output_lines(out@),
            forall|k: int| 0 <= k < ls.len() ==> readable_shortlog_line(#[trigger] ls[k]),
            pred == (|l: Seq<char>| email_of(l) is Some),
            views(r@) == ls.take(i as int).filter(pred).map_values(|l: Seq<char>| email_of(l)->0),
        decreases lines.len() - i,
    {
        let l = &lines[i];
        assert(ls[i as int] == l@);
        proof {
            ls.take(i as int).lemma_filter_push(l@, pred);
            assert(ls.take(i + 1) =~= ls.take(i as int).push(l@));
        }
        let cs = chars_of(l.as_str());
        let ghost before = views(r@);
        match (find_char(&cs, '<'), find_char(&cs, '>')) {
            (Some(a), Some(b)) => {
                proof {
                    lemma_first_index(cs@, '<');
                    lemma_first_index(cs@, '>');
                }
                assert(a < b);
                let inner = trim_chars(crate::text::chars_of(string_of_range(&cs, a + 1, b).as_str()).as_slice());
                let e = crate::text::string_of(inner.as_slice());
                r.push(e);
                assert(views(r@) =~= before.push(email_of(l@)->0));
                assert(ls.take(i + 1).filter(pred).map_values(|l: Seq<char>| email_of(l)->0)
                    =~= ls.take(i as int).filter(pred).map_values(|l: Seq<char>| email_of(l)->0).push(
                    email_of(l@)->0,
                ));
            },
            _ => {},
        }
        i += 1;
    }
    assert(ls.take(ls.len() as int) =~= ls);
    r
}

/// The number of analysed contributors that may well be from China.
pub open spec fn china_total(s: Seq<ContributorAnalysis>) -> nat
    decreases s.len(),
{
    if s.len() == 0 {
        0
    } else {
        china_total(s.drop_last()) + if s.last().from_china {
            1nat
        } else {
            0nat
        }
    }
}

/// The head counts of a contributors report.
pub struct ReportCounts {
    pub total_contributors: usize,
    pub china_contributors_count: usize,
    pub non_china_contributors_count: usize,
}

/// The head counts of a report on the analysed contributors: all of them,
/// those that may well be from China, and the others.
pub fn report_counts(analyses: &Vec<ContributorAnalysis>) -> (r: ReportCounts)
    ensures
        r.total_contributors == analyses@.len(),
        r.china_contributors_count == china_total(analyses@),
        r.non_china_contributors_count == analyses@.len() - china_total(analyses@),
{
    let mut china: usize = 0;
    let mut i: usize = 0;
    while i < analyses.len()
        invariant
            i <= analyses@.len(),
            china == china_total(analyses@.take(i as int)),
            china <= i,
        decreases analyses.len() - i,
    {
        assert(analyses@.take(i + 1).drop_last() =~= analyses@.take(i as int));
        if analyses[i].from_china {
            china += 1;
        }
        i += 1;
    }
    assert(analyses@.take(analyses@.len() as int) =~= analyses@);
    ReportCounts {
        total_contributors: analyses.len(),
        china_contributors_count: china,
        non_china_contributors_count: analyses.len() - china,
    }
}

} // verus!
