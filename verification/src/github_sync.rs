use vstd::prelude::*;
use crate::github::opt_view;
use crate::numbers::{i32_value, parse_i32};
use crate::text::{chars_of, contains_text, has_substring, push_char};

verus! {

/// A contributor of a repository as GitHub reports one.
pub struct Contributor {
    pub id: i64,
    pub login: String,
    pub avatar_url: String,
    pub contributions: i32,
    pub email: Option<String>,
}

/// The text of a `Contributor`.
pub struct ContributorView {
    pub id: i64,
    pub login: Seq<char>,
    pub avatar_url: Seq<char>,
    pub contributions: i32,
    pub email: Option<Seq<char>>,
}

impl View for Contributor {
    type V = ContributorView;

    open spec fn view(&self) -> ContributorView {
        ContributorView {
            id: self.id,
            login: self.login@,
            avatar_url: self.avatar_url@,
            contributions: self.contributions,
            email: opt_view(self.email),
        }
    }
}

/// The texts of a run of contributors.
pub open spec fn contributor_views(s: Seq<Contributor>) -> Seq<ContributorView> {
    s.map_values(|c: Contributor| c@)
}

/// A contributor as stored with the location analysis.
pub struct ContributorDetail {
    pub id: i64,
    pub login: String,
    pub name: Option<String>,
    pub contributions: i32,
    pub location: Option<String>,
}

/// The GitHub account a commit is attributed to.
pub struct CommitAuthor {
    pub login: String,
    pub id: i64,
    pub avatar_url: String,
}

/// The author as the commit itself records it.
pub struct CommitInfo {
    pub _author: Option<String>,
    pub email: Option<String>,
}

/// The commit part of a listed commit.
pub struct CommitDetail {
    pub author: Option<CommitInfo>,
}

/// One commit as the commits API lists it.
pub struct CommitData {
    pub author: Option<CommitAuthor>,
    pub commit: CommitDetail,
}

/// The address the commit records for its author, if any.
pub open spec fn commit_email(c: CommitData) -> Option<Seq<char>> {
    match c.commit.author {
        Some(a) => opt_view(a.email),
        None => None,
    }
}

/// Where the contributor with the id stands in the tally.
pub open spec fn index_of_id(t: Seq<ContributorView>, id: i64) -> Option<int>
    decreases t.len(),
{
    if t.len() == 0 {
        None
    } else {
        match index_of_id(t.drop_last(), id) {
            Some(k) => Some(k),
            None => if t.last().id == id {
                Some(t.len() - 1)
            } else {
                None
            },
        }
    }
}

/// One commit counted into the tally: a commit without an account is
/// skipped; the account's entry gains a contribution (and the commit's
/// address, if it had none); an account not seen yet enters with one
/// contribution and the commit's address.
pub open spec fn tally_step(t: Seq<ContributorView>, c: CommitData) -> Seq<ContributorView> {
    match c.author {
        None => t,
        Some(a) => match index_of_id(t, a.id) {
            Some(k) => t.update(
                k,
                ContributorView {
                    id: t[k].id,
                    login: t[k].login,
                    avatar_url: t[k].avatar_url,
                    contributions: (t[k].contributions + 1) as i32,
                    email: if t[k].email is None && commit_email(c) is Some {
                        commit_email(c)
                    } else {
                        t[k].email
                    },
                },
            ),
            None => t.push(
                ContributorView {
                    id: a.id,
                    login: a.login@,
                    avatar_url: a.avatar_url@,
                    contributions: 1,
                    email: commit_email(c),
                },
            ),
        },
    }
}

/// The tally after counting the commits in order.
pub open spec fn tally_commits(t: Seq<ContributorView>, commits: Seq<CommitData>) -> Seq<
    ContributorView,
>
    decreases commits.len(),
{
    if commits.len() == 0 {
        t
    } else {
        tally_step(tally_commits(t, commits.drop_last()), commits.last())
    }
}

/// Counting the commits page by page is counting all of them at once:
/// the tally after one page, then the next, is the tally of both pages'
/// commits in order.
pub proof fn lemma_tally_pages(t: Seq<ContributorView>, a: Seq<CommitData>, b: Seq<CommitData>)
    ensures
        tally_commits(tally_commits(t, a), b) == tally_commits(t, a + b),
    decreases b.len(),
{
    if b.len() == 0 {
        assert(a + b =~= a);
    } else {
        lemma_tally_pages(t, a, b.drop_last());
        assert((a + b).drop_last() =~= a + b.drop_last());
        assert((a + b).last() == b.last());
    }
}

/// No account occurs twice in the tally.
pub open spec fn distinct_ids(t: Seq<ContributorView>) -> bool {
    forall|i: int, j: int| 0 <= i < j < t.len() ==> t[i].id != t[j].id
}

proof fn lemma_index_of_id(t: Seq<ContributorView>, id: i64)
    ensures
        index_of_id(t, id) matches Some(k) ==> 0 <= k < t.len() && t[k].id == id,
        index_of_id(t, id) is None ==> forall|k: int| 0 <= k < t.len() ==> t[k].id != id,
    decreases t.len(),
{
    if t.len() > 0 {
        lemma_index_of_id(t.drop_last(), id);
        assert forall|k: int| 0 <= k < t.len() - 1 implies t.drop_last()[k] == t[k] by {}
    }
}

/// Counting a commit keeps every account in the tally once.
pub proof fn lemma_tally_step_distinct(t: Seq<ContributorView>, c: CommitData)
    requires
        distinct_ids(t),
    ensures
        distinct_ids(tally_step(t, c)),
{
    if let Some(a) = c.author {
        lemma_index_of_id(t, a.id);
        let r = tally_step(t, c);
        match index_of_id(t, a.id) {
            Some(k) => {
                assert forall|i: int, j: int| 0 <= i < j < r.len() implies r[i].id != r[j].id by {
                    assert(r[i].id == t[i].id && r[j].id == t[j].id);
                }
            },
            None => {
                assert forall|i: int, j: int| 0 <= i < j < r.len() implies r[i].id != r[j].id by {
                    if j < t.len() {
                        assert(r[i] == t[i] && r[j] == t[j]);
                    } else {
                        assert(r[i] == t[i]);
                    }
                }
            },
        }
    }
}

/// The contributions of the tally, summed.
pub open spec fn total_contributions(t: Seq<ContributorView>) -> int
    decreases t.len(),
{
    if t.len() == 0 {
        0
    } else {
        total_contributions(t.drop_last()) + t.last().contributions
    }
}

/// How many of the commits are attributed to an account.
pub open spec fn attributed(commits: Seq<CommitData>) -> int
    decreases commits.len(),
{
    if commits.len() == 0 {
        0
    } else {
        attributed(commits.drop_last()) + if commits.last().author is Some {
            1int
        } else {
            0
        }
    }
}

proof fn lemma_total_update(t: Seq<ContributorView>, k: int, x: ContributorView)
    requires
        0 <= k < t.len(),
    ensures
        total_contributions(t.update(k, x)) == total_contributions(t) - t[k].contributions
            + x.contributions,
    decreases t.len(),
{
    if k < t.len() - 1 {
        assert(t.update(k, x).drop_last() =~= t.drop_last().update(k, x));
        lemma_total_update(t.drop_last(), k, x);
    } else {
        assert(t.update(k, x).drop_last() =~= t.drop_last());
    }
}

/// Counting a commit adds one contribution in all when the commit has an
/// account, none otherwise.
pub proof fn lemma_tally_step_total(t: Seq<ContributorView>, c: CommitData)
    requires
        forall|i: int| 0 <= i < t.len() ==> #[trigger] t[i].contributions < i32::MAX,
    ensures
        total_contributions(tally_step(t, c)) == total_contributions(t) + if c.author is Some {
            1int
        } else {
            0
        },
{
    if let Some(a) = c.author {
        lemma_index_of_id(t, a.id);
        match index_of_id(t, a.id) {
            Some(k) => {
                let x = tally_step(t, c)[k];
                assert(tally_step(t, c) == t.update(k, x));
                lemma_total_update(t, k, x);
            },
            None => {
                assert(tally_step(t, c).drop_last() =~= t);
            },
        }
    }
}

fn find_id(t: &Vec<Contributor>, id: i64) -> (r: Option<usize>)
    ensures
        r matches Some(k) ==> index_of_id(contributor_views(t@), id) == Some(k as int),
        r is None ==> index_of_id(contributor_views(t@), id) is None,
{
    let ghost tv = contributor_views(t@);
    let mut i: usize = 0;
    while i < t.len()
        invariant
            i <= t@.len(),
            tv == contributor_views(t@),
            index_of_id(tv.take(i as int), id) is None,
        decreases t.len() - i,
    {
        assert(tv.take(i + 1).drop_last() =~= tv.take(i as int));
        assert(tv.take(i + 1).last() == t@[i as int]@);
        if t[i].id == id {
            proof {
                lemma_index_prefix(tv, id, i as int);
            }
            return Some(i);
        }
        i += 1;
    }
    assert(tv.take(i as int) =~= tv);
    None
}

proof fn lemma_index_prefix(t: Seq<ContributorView>, id: i64, i: int)
    requires
        0 <= i < t.len(),
        index_of_id(t.take(i), id) is None,
        t[i].id == id,
    ensures
        index_of_id(t, id) == Some(i),
    decreases t.len(),
{
    if i < t.len() - 1 {
        assert(t.drop_last().take(i) =~= t.take(i));
        lemma_index_prefix(t.drop_last(), id, i);
    } else {
        assert(t.drop_last() =~= t.take(i));
    }
}

fn copy_email(e: &Option<String>) -> (r: Option<String>)
    ensures
        opt_view(r) == opt_view(*e),
{
    match e {
        Some(s) => Some(s.clone()),
        None => None,
    }
}

/// Counts one commit into the tally (see `tally_step`).
pub fn count_commit(t: &mut Vec<Contributor>, c: &CommitData)
    requires
        distinct_ids(contributor_views(old(t)@)),
        forall|i: int| 0 <= i < old(t)@.len() ==> #[trigger] old(t)@[i].contributions < i32::MAX,
    ensures
        contributor_views(final(t)@) == tally_step(contributor_views(old(t)@), *c),
        distinct_ids(contributor_views(final(t)@)),
{
    let ghost tv = contributor_views(t@);
    proof {
        lemma_tally_step_distinct(tv, *c);
    }
    let email = match &c.commit.author {
        Some(a) => copy_email(&a.email),
        None => None,
    };
    assert(opt_view(email) == commit_email(*c));
    match &c.author {
        None => {},
        Some(a) => match find_id(t, a.id) {
            Some(k) => {
                proof {
                    lemma_index_of_id(tv, a.id);
                }
                let old_entry = &t[k];
                assert(tv[k as int] == old_entry@);
                let new_email = if old_entry.email.is_none() && email.is_some() {
                    email
                } else {
                    copy_email(&old_entry.email)
                };
                let entry = Contributor {
                    id: old_entry.id,
                    login: old_entry.login.clone(),
                    avatar_url: old_entry.avatar_url.clone(),
                    contributions: old_entry.contributions + 1,
                    email: new_email,
                };
                let ghost ev = entry@;
                t.set(k, entry);
                assert(contributor_views(t@) =~= tv.update(k as int, ev));
            },
            None => {
                let entry = Contributor {
                    id: a.id,
                    login: a.login.clone(),
                    avatar_url: a.avatar_url.clone(),
                    contributions: 1,
                    email,
                };
                let ghost ev = entry@;
                t.push(entry);
                assert(contributor_views(t@) =~= tv.push(ev));
            },
        },
    }
}

/// `c` put into the run `sorted` (most contributions first): after every
/// entry with at least as many contributions, so that ties keep their order.
pub open spec fn insert_by_contributions(sorted: Seq<ContributorView>, c: ContributorView) -> Seq<
    ContributorView,
>
    decreases sorted.len(),
{
    if sorted.len() == 0 {
        seq![c]
    } else if sorted.last().contributions < c.contributions {
        insert_by_contributions(sorted.drop_last(), c).push(sorted.last())
    } else {
        sorted.push(c)
    }
}

/// The contributors stably sorted by contributions, most first.
pub open spec fn by_contributions(s: Seq<ContributorView>) -> Seq<ContributorView>
    decreases s.len(),
{
    if s.len() == 0 {
        s
    } else {
        insert_by_contributions(by_contributions(s.drop_last()), s.last())
    }
}

/// The run is ordered by contributions, most first.
pub open spec fn most_first(s: Seq<ContributorView>) -> bool {
    forall|i: int, j: int| 0 <= i < j < s.len() ==> s[i].contributions >= s[j].contributions
}

proof fn lemma_insert_by_contributions(s: Seq<ContributorView>, c: ContributorView)
    requires
        most_first(s),
    ensures
        most_first(insert_by_contributions(s, c)),
        insert_by_contributions(s, c).to_multiset() =~= s.to_multiset().insert(c),
    decreases s.len(),
{
    broadcast use vstd::seq_lib::group_to_multiset_ensures;

    if s.len() == 0 {
        assert(seq![c] =~= Seq::<ContributorView>::empty().push(c));
    } else {
        let d = s.drop_last();
        let last = s.last();
        assert(s =~= d.push(last));
        assert(most_first(d)) by {
            assert forall|i: int, j: int| 0 <= i < j < d.len() implies d[i].contributions
                >= d[j].contributions by {
                assert(d[i] == s[i] && d[j] == s[j]);
            }
        }
        if last.contributions < c.contributions {
            lemma_insert_by_contributions(d, c);
            let r0 = insert_by_contributions(d, c);
            assert forall|i: int| 0 <= i < r0.len() implies #[trigger] r0[i].contributions
                >= last.contributions by {
                let x = r0[i];
                assert(r0.contains(x));
                assert(r0.to_multiset().count(x) > 0);
                if x != c {
                    assert(d.to_multiset().count(x) > 0);
                    assert(d.contains(x));
                    let k = choose|k: int| 0 <= k < d.len() && d[k] == x;
                    assert(s[k] == x);
                }
            }
            let r = r0.push(last);
            assert forall|i: int, j: int| 0 <= i < j < r.len() implies r[i].contributions
                >= r[j].contributions by {
                if j == r.len() - 1 {
                    assert(r[i] == r0[i]);
                } else {
                    assert(r[i] == r0[i] && r[j] == r0[j]);
                }
            }
            assert(r.to_multiset() =~= s.to_multiset().insert(c));
        } else {
            let r = s.push(c);
            assert forall|i: int, j: int| 0 <= i < j < r.len() implies r[i].contributions
                >= r[j].contributions by {
                if j == r.len() - 1 {
                    assert(r[i] == s[i]);
                    if i < s.len() - 1 {
                        assert(s[i].contributions >= s[s.len() - 1].contributions);
                    }
                } else {
                    assert(r[i] == s[i] && r[j] == s[j]);
                }
            }
        }
    }
}

/// Sorting the tally puts the contributors most contributions first, and
/// loses or adds none.
pub proof fn lemma_by_contributions(s: Seq<ContributorView>)
    ensures
        most_first(by_contributions(s)),
        by_contributions(s).to_multiset() =~= s.to_multiset(),
    decreases s.len(),
{
    broadcast use vstd::seq_lib::group_to_multiset_ensures;

    if s.len() > 0 {
        lemma_by_contributions(s.drop_last());
        lemma_insert_by_contributions(by_contributions(s.drop_last()), s.last());
        assert(s =~= s.drop_last().push(s.last()));
    }
}

fn insert_contributor(sorted: &mut Vec<Contributor>, c: Contributor)
    ensures
        contributor_views(final(sorted)@) == insert_by_contributions(
            contributor_views(old(sorted)@),
            c@,
        ),
{
    let ghost s = contributor_views(sorted@);
    let mut j: usize = sorted.len();
    assert(s.take(j as int) =~= s);
    assert(s.skip(j as int) =~= Seq::<ContributorView>::empty());
    while j > 0 && sorted[j - 1].contributions < c.contributions
        invariant
            j <= sorted@.len(),
            s == contributor_views(sorted@),
            sorted@ == old(sorted)@,
            insert_by_contributions(s, c@) == insert_by_contributions(s.take(j as int), c@)
                + s.skip(j as int),
        decreases j,
    {
        proof {
            assert(s[j - 1] == sorted@[j - 1]@);
            assert(s.take(j as int).drop_last() =~= s.take(j - 1));
            assert(seq![s[j - 1]] + s.skip(j as int) =~= s.skip(j - 1));
            assert(insert_by_contributions(s.take(j - 1), c@).push(s[j - 1]) + s.skip(j as int)
                =~= insert_by_contributions(s.take(j - 1), c@) + s.skip(j - 1));
        }
        j -= 1;
    }
    proof {
        if j > 0 {
            assert(s[j - 1] == sorted@[j - 1]@);
            assert(s.take(j as int).drop_last() =~= s.take(j - 1));
            assert(s.take(j as int).last() == s[j - 1]);
        }
    }
    let ghost cv = c@;
    sorted.insert(j, c);
    assert(contributor_views(sorted@) =~= s.take(j as int).push(cv) + s.skip(j as int));
}

/// Orders the tally by contributions, most first; ties keep their order.
pub fn sort_by_contributions(t: &Vec<Contributor>) -> (r: Vec<Contributor>)
    ensures
        contributor_views(r@) == by_contributions(contributor_views(t@)),
        most_first(contributor_views(r@)),
        contributor_views(r@).to_multiset() == contributor_views(t@).to_multiset(),
{
    proof {
        lemma_by_contributions(contributor_views(t@));
    }
    let ghost tv = contributor_views(t@);
    let mut out: Vec<Contributor> = Vec::new();
    let mut k: usize = 0;
    while k < t.len()
        invariant
            k <= t@.len(),
            tv == contributor_views(t@),
            contributor_views(out@) == by_contributions(tv.take(k as int)),
        decreases t.len() - k,
    {
        assert(tv.take(k + 1).drop_last() =~= tv.take(k as int));
        assert(tv.take(k + 1).last() == t@[k as int]@);
        insert_contributor(&mut out, copy_contributor(&t[k]));
        k += 1;
    }
    assert(tv.take(tv.len() as int) =~= tv);
    out
}

fn copy_contributor(c: &Contributor) -> (r: Contributor)
    ensures
        r@ == c@,
{
    Contributor {
        id: c.id,
        login: c.login.clone(),
        avatar_url: c.avatar_url.clone(),
        contributions: c.contributions,
        email: copy_email(&c.email),
    }
}


/// Counts one page of commits into the tally, in order.
pub fn count_commits(t: &mut Vec<Contributor>, commits: &Vec<CommitData>)
    requires
        distinct_ids(contributor_views(old(t)@)),
        commits@.len() < i32::MAX,
        forall|i: int|
            0 <= i < old(t)@.len() ==> #[trigger] old(t)@[i].contributions + commits@.len()
                <= i32::MAX,
    ensures
        contributor_views(final(t)@) == tally_commits(contributor_views(old(t)@), commits@),
        distinct_ids(contributor_views(final(t)@)),
        total_contributions(contributor_views(final(t)@)) == total_contributions(
            contributor_views(old(t)@),
        ) + attributed(commits@),
{
    let ghost t0 = contributor_views(t@);
    let n = commits.len();
    let mut i: usize = 0;
    while i < n
        invariant
            i <= n,
            n == commits@.len(),
            n < i32::MAX,
            distinct_ids(contributor_views(t@)),
            contributor_views(t@) == tally_commits(t0, commits@.take(i as int)),
            forall|k: int| 0 <= k < t@.len() ==> #[trigger] t@[k].contributions + (n - i) <= i32::MAX,
            total_contributions(contributor_views(t@)) == total_contributions(t0) + attributed(
                commits@.take(i as int),
            ),
        decreases n - i,
    {
        assert(commits@.take(i + 1).drop_last() =~= commits@.take(i as int));
        assert(commits@.take(i + 1).last() == commits@[i as int]);
        proof {
            let tv = contributor_views(t@);
            assert forall|k: int| 0 <= k < tv.len() implies #[trigger] tv[k].contributions
                < i32::MAX by {
                assert(tv[k] == t@[k]@);
            }
            lemma_tally_step_total(tv, commits@[i as int]);
        }
        let ghost before = t@;
        count_commit(t, &commits[i]);
        proof {
            let tb = contributor_views(before);
            let c = commits@[i as int];
            assert forall|k: int| 0 <= k < t@.len() implies #[trigger] t@[k].contributions + (n - (
            i + 1)) <= i32::MAX by {
                assert(contributor_views(t@)[k] == t@[k]@);
                match c.author {
                    None => {
                        assert(contributor_views(before)[k] == before[k]@);
                    },
                    Some(a) => {
                        lemma_index_of_id(tb, a.id);
                        match index_of_id(tb, a.id) {
                            Some(j) => {
                                assert(contributor_views(t@).len() == tb.len());
                                assert(t@.len() == before.len());
                                assert(tb[k] == before[k]@);
                                assert(before[k].contributions + (n - i) <= i32::MAX);
                            },
                            None => {
                                assert(contributor_views(t@).len() == tb.len() + 1);
                                if k < before.len() {
                                    assert(tb[k] == before[k]@);
                                    assert(before[k].contributions + (n - i) <= i32::MAX);
                                }
                            },
                        }
                    },
                }
            }
        }
        i += 1;
    }
    assert(commits@.take(n as int) =~= commits@);
}

/// Whether a `Link` header announces a next page.
pub open spec fn announces_next(link: Option<Seq<char>>) -> bool {
    link matches Some(l) && has_substring(l, "rel=\"next\""@)
}

/// Whether the `Link` header of a listing announces a next page.
pub fn has_next_page(link: Option<&str>) -> (r: bool)
    ensures
        r == announces_next(match link {
            Some(l) => Some(l@),
            None => None,
        }),
{
    match link {
        Some(l) => contains_text(l, "rel=\"next\""),
        None => false,
    }
}

/// Whether a listing asks for the page after `page`: the page could be
/// read, held items and announced a next page, and `page` is below the
/// last page asked for.
pub open spec fn listing_goes_on(page: nat, max_pages: nat, read: bool, items: nat, has_next: bool) -> bool {
    read && items > 0 && has_next && page < max_pages
}

/// How many pages a listing asks for from page `page` on, given what each
/// page it gets shows (read, items, next page announced), in order.
pub open spec fn pages_asked(obs: Seq<(bool, nat, bool)>, page: nat, max_pages: nat) -> nat
    decreases obs.len(),
{
    if obs.len() == 0 {
        0
    } else if listing_goes_on(page, max_pages, obs[0].0, obs[0].1, obs[0].2) {
        1 + pages_asked(obs.skip(1), page + 1, max_pages)
    } else {
        1
    }
}

/// A listing that starts at page `page` asks for no page beyond
/// `max_pages`: at most `max_pages - page + 1` pages (so at most
/// `max_pages` from the first page).
pub proof fn lemma_pages_asked_bounded(obs: Seq<(bool, nat, bool)>, page: nat, max_pages: nat)
    requires
        1 <= page <= max_pages,
    ensures
        pages_asked(obs, page, max_pages) <= max_pages - page + 1,
    decreases obs.len(),
{
    if obs.len() > 0 && listing_goes_on(page, max_pages, obs[0].0, obs[0].1, obs[0].2) {
        lemma_pages_asked_bounded(obs.skip(1), page + 1, max_pages);
    }
}

/// The page to ask for after page `page` of a listing, or `None` to stop:
/// the listing goes on only when the page could be read, held items and
/// announced a next page, and the next page is within `max_pages`.
pub fn next_page(page: u32, max_pages: u32, read: bool, items: usize, has_next: bool) -> (r:
    Option<u32>)
    ensures
        r is Some <==> listing_goes_on(page as nat, max_pages as nat, read, items as nat, has_next),
        r matches Some(p) ==> p == page + 1,
{
    if read && items > 0 && has_next && page < max_pages {
        Some(page + 1)
    } else {
        None
    }
}

/// The remaining-calls count a rate-limit header gives: its value read as
/// an `i32`, or -1 when there is none or it does not read.
pub open spec fn remaining_of(header: Option<Seq<char>>) -> int {
    match header {
        Some(h) => match i32_value(h) {
            Some(v) => v,
            None => -1,
        },
        None => -1,
    }
}

/// Reads the `x-ratelimit-remaining` header.
pub fn remaining_calls(header: Option<&str>) -> (r: i32)
    ensures
        r == remaining_of(match header {
            Some(h) => Some(h@),
            None => None,
        }),
{
    match header {
        Some(h) => match parse_i32(h) {
            Some(v) => v,
            None => -1,
        },
        None => -1,
    }
}

/// Whether a response shows the token used up: it failed as forbidden and
/// no calls remain.
pub fn token_exhausted(success: bool, forbidden: bool, remaining: i32) -> (r: bool)
    ensures
        r == (!success && forbidden && remaining == 0),
{
    !success && forbidden && remaining == 0
}

/// Whether a token checked against the rate-limit endpoint is usable: the
/// check succeeded and the remaining-calls header reads as a positive
/// number.
pub fn token_usable(success: bool, header: Option<&str>) -> (r: bool)
    ensures
        r == (success && (header matches Some(h) && (i32_value(h@) matches Some(v) && v > 0))),
{
    if !success {
        return false;
    }
    match header {
        Some(h) => match parse_i32(h) {
            Some(v) => v > 0,
            None => false,
        },
        None => false,
    }
}

/// The `Authorization` header for a token: `token <token>`, none for an
/// empty token.
pub fn auth_header(token: &str) -> (r: Option<String>)
    ensures
        token@.len() == 0 ==> r is None,
        token@.len() > 0 ==> (r matches Some(h) && h@ == "token "@ + token@),
{
    if chars_of(token).len() == 0 {
        None
    } else {
        let mut h = "token ".to_owned();
        h.append(token);
        Some(h)
    }
}

/// The address of the newest commit of an author, from a one-commit
/// listing: none when the listing is empty.
pub fn first_commit_email(commits: &Vec<CommitData>) -> (r: Option<String>)
    requires
        commits@.len() > 0 ==> commit_email(commits@[0]) is Some,
    ensures
        commits@.len() == 0 ==> r is None,
        commits@.len() > 0 ==> opt_view(r) == commit_email(commits@[0]),
{
    if commits.len() == 0 {
        return None;
    }
    match &commits[0].commit.author {
        Some(a) => copy_email(&a.email),
        None => None,
    }
}

/// A repository found by the search.
pub struct Repository {
    pub name: String,
    pub url: String,
    pub _created_at: String,
}

/// The page position of a search result.
pub struct PageInfo {
    pub end_cursor: Option<String>,
    pub has_next_page: bool,
}

/// One edge of a search result.
pub struct Edge {
    pub node: Repository,
}

/// A page of search results.
pub struct SearchResult {
    pub edges: Vec<Edge>,
    pub page_info: PageInfo,
}

/// The data of a search response.
pub struct SearchData {
    pub search: SearchResult,
}

/// A GraphQL search response.
pub struct GraphQLResponse {
    pub data: Option<SearchData>,
}

/// What a day's repository search does after a response: ask for the page
/// after the cursor, or finish, successfully or not.
pub enum SyncStep {
    Continue(Option<String>),
    Finished(bool),
}

/// Whether a day with this stored sync record is searched: unless the
/// record says its search succeeded.
pub open spec fn search_needed(record: Option<bool>) -> bool {
    !(record == Some(true))
}

/// One sync of a day, from its stored record and the responses it would
/// get: how many requests it makes and the record stored after it. A day
/// whose record says done makes none; else it takes responses as
/// `search_run` says and saves the record `true` when the search
/// succeeded, leaving the record as it was otherwise.
pub open spec fn day_sync(record: Option<bool>, rs: Seq<Option<GraphQLResponse>>) -> (nat, Option<bool>) {
    if !search_needed(record) {
        (0, record)
    } else {
        match search_run(rs) {
            Some((n, ok)) => (n, if ok { Some(true) } else { record }),
            None => (rs.len(), record),
        }
    }
}

/// A day is never searched twice once a search of it succeeded: a sync
/// whose search would finish successfully leaves the record saying done
/// (making `n` requests when the day was not done yet), and every later
/// sync of that day, whatever responses it would get, makes no request and
/// leaves the record as it is.
pub proof fn lemma_synced_day_not_searched_again(
    record: Option<bool>,
    first: Seq<Option<GraphQLResponse>>,
    n: nat,
    later: Seq<Seq<Option<GraphQLResponse>>>,
)
    requires
        search_run(first) == Some((n, true)),
    ensures
        day_sync(record, first).1 == Some(true),
        search_needed(record) ==> day_sync(record, first).0 == n,
        forall|i: int|
            0 <= i < later.len() ==> #[trigger] day_sync(day_sync(record, first).1, later[i]) == (
                0nat,
                Some(true),
            ),
{
}

/// A day is searched again unless a record says its search succeeded.
pub fn needs_search(record: Option<bool>) -> (r: bool)
    ensures
        r == search_needed(record),
{
    match record {
        Some(done) => !done,
        None => true,
    }
}

/// The search query for repositories in Rust created between two dates.
pub fn search_query(start_date: &str, end_date: &str) -> (r: String)
    ensures
        r@ == "language:rust created:"@ + start_date@ + ".."@ + end_date@,
{
    let mut q = "language:rust created:".to_owned();
    q.append(start_date);
    q.append("..");
    q.append(end_date);
    q
}

/// A response that carries a page of results with another page after it.
pub open spec fn page_continues(res: Option<GraphQLResponse>) -> bool {
    match res {
        Some(g) => match g.data {
            Some(d) => d.search.page_info.has_next_page,
            None => false,
        },
        None => false,
    }
}

/// A response that carries the last page of results.
pub open spec fn page_completes(res: Option<GraphQLResponse>) -> bool {
    match res {
        Some(g) => match g.data {
            Some(d) => !d.search.page_info.has_next_page,
            None => false,
        },
        None => false,
    }
}

/// A day's search over the responses it gets, in order, each taken by
/// `search_step`: how many responses it takes before it finishes, and
/// whether it finishes successfully (so that its status is saved); none
/// while it has not finished.
pub open spec fn search_run(rs: Seq<Option<GraphQLResponse>>) -> Option<(nat, bool)>
    decreases rs.len(),
{
    if rs.len() == 0 {
        None
    } else if page_continues(rs[0]) {
        match search_run(rs.skip(1)) {
            Some((n, ok)) => Some((n + 1, ok)),
            None => None,
        }
    } else {
        Some((1, page_completes(rs[0])))
    }
}

/// A day's search finishes after exactly `n` responses when the first
/// `n - 1` each carried a page with another after it and the `n`-th did
/// not; it succeeds, and its status is saved, exactly when that last
/// response carried the last page. No response after it is asked for.
pub proof fn lemma_search_run(rs: Seq<Option<GraphQLResponse>>, n: nat, ok: bool)
    ensures
        search_run(rs) == Some((n, ok)) <==> {
            &&& 1 <= n <= rs.len()
            &&& forall|i: int| 0 <= i < n - 1 ==> page_continues(#[trigger] rs[i])
            &&& !page_continues(rs[n - 1])
            &&& ok == page_completes(rs[n - 1])
        },
    decreases rs.len(),
{
    if rs.len() > 0 && page_continues(rs[0]) {
        let t = rs.skip(1);
        if n >= 1 {
            lemma_search_run(t, (n - 1) as nat, ok);
        }
        if search_run(rs) == Some((n, ok)) {
            assert(n >= 2);
            assert forall|i: int| 0 <= i < n - 1 implies page_continues(#[trigger] rs[i]) by {
                if i > 0 {
                    assert(rs[i] == t[i - 1]);
                }
            }
            assert(rs[n - 1] == t[n - 2]);
        }
        if 1 <= n <= rs.len() && (forall|i: int| 0 <= i < n - 1 ==> page_continues(#[trigger] rs[i]))
            && !page_continues(rs[n - 1]) && ok == page_completes(rs[n - 1]) {
            assert(n >= 2);
            assert forall|i: int| 0 <= i < n - 2 implies page_continues(#[trigger] t[i]) by {
                assert(t[i] == rs[i + 1]);
            }
            assert(t[n - 2] == rs[n - 1]);
        }
    }
}

/// The step after a response (none when the request or its parsing
/// failed): without data the search finishes unsuccessfully; with a next
/// page it continues from the end cursor; else it finishes successfully.
pub fn search_step(res: &Option<GraphQLResponse>) -> (r: SyncStep)
    ensures
        (r is Continue) == page_continues(*res),
        r matches SyncStep::Finished(ok) ==> ok == page_completes(*res),
        ({
            match res {
                Some(g) => match g.data {
                    Some(d) => if d.search.page_info.has_next_page {
                        (r matches SyncStep::Continue(c) && opt_view(c) == opt_view(
                            d.search.page_info.end_cursor,
                        ))
                    } else {
                        (r matches SyncStep::Finished(ok) && ok)
                    },
                    None => (r matches SyncStep::Finished(ok) && !ok),
                },
                None => (r matches SyncStep::Finished(ok) && !ok),
            }
        }),
{
    match res {
        Some(g) => match &g.data {
            Some(d) => if d.search.page_info.has_next_page {
                SyncStep::Continue(copy_email(&d.search.page_info.end_cursor))
            } else {
                SyncStep::Finished(true)
            },
            None => SyncStep::Finished(false),
        },
        None => SyncStep::Finished(false),
    }
}


/// What a day's sync does next: ask for a page (after the cursor, from the
/// first page when none), save the day's status as done, or stop without
/// saving.
pub enum DayAction {
    Request(Option<String>),
    SaveStatus,
    Stop,
}

/// The sync of one day as it runs: its stored record, the responses it
/// took so far, and whether it still waits for one.
pub struct DaySync {
    record: Ghost<Option<bool>>,
    responses: Ghost<Seq<Option<GraphQLResponse>>>,
    searching: bool,
}

/// The cursor a response that continues gives.
pub open spec fn next_cursor(res: Option<GraphQLResponse>) -> Option<Seq<char>> {
    match res {
        Some(g) => match g.data {
            Some(d) => opt_view(d.search.page_info.end_cursor),
            None => None,
        },
        None => None,
    }
}

impl DaySync {
    #[verifier::type_invariant]
    closed spec fn inv(self) -> bool {
        self.searching ==> search_needed(self.record@) && forall|i: int|
            0 <= i < self.responses@.len() ==> page_continues(#[trigger] self.responses@[i])
    }

    /// The day's stored record.
    pub closed spec fn record(self) -> Option<bool> {
        self.record@
    }

    /// The responses taken so far.
    pub closed spec fn responses(self) -> Seq<Option<GraphQLResponse>> {
        self.responses@
    }

    /// Whether the sync waits for a response.
    pub closed spec fn searching(self) -> bool {
        self.searching
    }

    /// Starts the sync of a day with its stored record: a day whose record
    /// says done makes no request and stops (`day_sync` with no request);
    /// any other asks for the first page.
    pub fn start(record: Option<bool>) -> (r: (DaySync, DayAction))
        ensures
            r.0.record() == record,
            r.0.responses() == Seq::<Option<GraphQLResponse>>::empty(),
            r.0.searching() == search_needed(record),
            search_needed(record) ==> r.1 == DayAction::Request(None),
            !search_needed(record) ==> r.1 is Stop && forall|rs: Seq<Option<GraphQLResponse>>|
                #[trigger] day_sync(record, rs) == (0nat, record),
    {
        let searching = needs_search(record);
        let d = DaySync { record: Ghost(record), responses: Ghost(Seq::empty()), searching };
        if searching {
            (d, DayAction::Request(None))
        } else {
            (d, DayAction::Stop)
        }
    }

    /// Takes the response to the last request: another request after its
    /// cursor while pages continue; else the sync stops, saving the status
    /// exactly when the last page came. When it stops, what it did is
    /// `day_sync` of the record over the responses it took: one request
    /// per response, and the record saved done exactly when the search
    /// succeeded.
    pub fn on_response(&mut self, res: &Option<GraphQLResponse>) -> (r: DayAction)
        requires
            old(self).searching(),
        ensures
            final(self).record() == old(self).record(),
            final(self).responses() == old(self).responses().push(*res),
            final(self).searching() == page_continues(*res),
            page_continues(*res) ==> (r matches DayAction::Request(c) && opt_view(c) == next_cursor(
                *res,
            )),
            !page_continues(*res) ==> r == (if page_completes(*res) {
                DayAction::SaveStatus
            } else {
                DayAction::Stop
            }),
            !page_continues(*res) ==> day_sync(final(self).record(), final(self).responses()) == (
                final(self).responses().len(),
                if page_completes(*res) {
                    Some(true)
                } else {
                    old(self).record()
                },
            ),
    {
        proof {
            use_type_invariant(&*self);
        }
        let ghost rs = self.responses@.push(*res);
        let ghost record = self.record@;
        let step = search_step(res);
        match step {
            SyncStep::Continue(c) => {
                proof {
                    assert forall|i: int| 0 <= i < rs.len() implies page_continues(#[trigger] rs[i]) by {
                        if i < rs.len() - 1 {
                            assert(rs[i] == self.responses@[i]);
                        }
                    }
                }
                *self = DaySync { record: Ghost(record), responses: Ghost(rs), searching: true };
                DayAction::Request(c)
            },
            SyncStep::Finished(ok) => {
                proof {
                    assert forall|i: int| 0 <= i < rs.len() - 1 implies page_continues(#[trigger] rs[i]) by {
                        assert(rs[i] == self.responses@[i]);
                    }
                    assert(rs[rs.len() - 1] == *res);
                    lemma_search_run(rs, rs.len(), ok);
                }
                *self = DaySync { record: Ghost(record), responses: Ghost(rs), searching: false };
                if ok {
                    DayAction::SaveStatus
                } else {
                    DayAction::Stop
                }
            },
        }
    }
}

} // verus!
