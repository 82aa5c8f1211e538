use vstd::prelude::*;
use crate::github::opt_view;
use crate::text::{contains_str, str_eq, views};

verus! {

/// No text occurs twice.
pub open spec fn no_dups(s: Seq<Seq<char>>) -> bool {
    forall|i: int, j: int| 0 <= i < j < s.len() ==> s[i] != s[j]
}

/// A breadth-first walk over the dependency (or dependent) graph, one
/// `name/version` node at a time: the caller asks for the next node to
/// expand, looks up its direct neighbours and hands them back.
pub struct Walk {
    queue: Vec<String>,
    head: usize,
    visited: Vec<String>,
    limit: Option<usize>,
    stopped: bool,
}

/// The state of a walk: nodes taken off the queue so far, nodes still
/// queued, nodes reached (in the order they were reached), the number of
/// takes, the number of takes at which the walk gives up, and whether it
/// has.
pub struct WalkView {
    pub taken: Seq<Seq<char>>,
    pub pending: Seq<Seq<char>>,
    pub visited: Seq<Seq<char>>,
    pub steps: nat,
    pub limit: Option<nat>,
    pub stopped: bool,
}

impl View for Walk {
    type V = WalkView;

    closed spec fn view(&self) -> WalkView {
        WalkView {
            taken: views(self.queue@).take(self.head as int),
            pending: views(self.queue@).skip(self.head as int),
            visited: views(self.visited@),
            steps: self.head as nat,
            limit: match self.limit {
                Some(l) => Some(l as nat),
                None => None,
            },
            stopped: self.stopped,
        }
    }
}

impl Walk {
    #[verifier::type_invariant]
    closed spec fn inv(self) -> bool {
        &&& self.head <= self.queue@.len()
        &&& no_dups(views(self.visited@))
    }
}

/// One step of a walk: take nodes off the queue until one not reached yet
/// turns up, and reach it; every take counts, and the take that brings the
/// count to the limit stops the walk instead. A stopped or empty walk gives
/// nothing.
pub open spec fn walk_next(w: WalkView) -> (WalkView, Option<Seq<char>>)
    decreases w.pending.len(),
{
    if w.stopped || w.pending.len() == 0 {
        (w, None)
    } else {
        let steps = w.steps + 1;
        let node = w.pending[0];
        let rest = w.pending.drop_first();
        if w.limit matches Some(l) && steps == l {
            (
                WalkView {
                    taken: w.taken.push(node),
                    pending: rest,
                    visited: w.visited,
                    steps: steps,
                    limit: w.limit,
                    stopped: true,
                },
                None,
            )
        } else if w.visited.contains(node) {
            walk_next(
                WalkView {
                    taken: w.taken.push(node),
                    pending: rest,
                    visited: w.visited,
                    steps: steps,
                    limit: w.limit,
                    stopped: false,
                },
            )
        } else {
            (
                WalkView {
                    taken: w.taken.push(node),
                    pending: rest,
                    visited: w.visited.push(node),
                    steps: steps,
                    limit: w.limit,
                    stopped: false,
                },
                Some(node),
            )
        }
    }
}

/// A node a walk hands out was not reached before and is reached now; the
/// nodes reached so far stay as they were, and none is reached twice.
pub proof fn lemma_walk_next_fresh(w: WalkView)
    requires
        no_dups(w.visited),
    ensures
        no_dups(walk_next(w).0.visited),
        walk_next(w).1 matches Some(n) ==> !w.visited.contains(n) && walk_next(w).0.visited
            == w.visited.push(n),
        walk_next(w).1 is None ==> walk_next(w).0.visited == w.visited,
    decreases w.pending.len(),
{
    if !(w.stopped || w.pending.len() == 0) {
        let steps = w.steps + 1;
        let node = w.pending[0];
        let rest = w.pending.drop_first();
        if w.limit matches Some(l) && steps == l {
        } else if w.visited.contains(node) {
            lemma_walk_next_fresh(
                WalkView {
                    taken: w.taken.push(node),
                    pending: rest,
                    visited: w.visited,
                    steps: steps,
                    limit: w.limit,
                    stopped: false,
                },
            );
        } else {
            let v = w.visited.push(node);
            assert forall|i: int, j: int| 0 <= i < j < v.len() implies v[i] != v[j] by {
                if j == v.len() - 1 {
                    assert(w.visited[i] == v[i]);
                }
            }
        }
    }
}

/// A walk's bookkeeping holds: no node is reached twice, every node
/// reached was taken off the queue, and, unless the walk gave up, every
/// node taken off the queue was reached.
pub open spec fn walk_consistent(w: WalkView) -> bool {
    &&& no_dups(w.visited)
    &&& forall|x: Seq<char>| #[trigger] w.visited.contains(x) ==> w.taken.contains(x)
    &&& !w.stopped ==> forall|x: Seq<char>| #[trigger] w.taken.contains(x) ==> w.visited.contains(x)
}

/// Taking the next node keeps a walk's bookkeeping; so a walk whose
/// queue runs dry without giving up has reached every node it was ever
/// given, each once.
pub proof fn lemma_walk_next_consistent(w: WalkView)
    requires
        walk_consistent(w),
    ensures
        walk_consistent(walk_next(w).0),
    decreases w.pending.len(),
{
    lemma_walk_next_fresh(w);
    if !(w.stopped || w.pending.len() == 0) {
        let steps = w.steps + 1;
        let node = w.pending[0];
        let rest = w.pending.drop_first();
        let t = w.taken.push(node);
        assert forall|x: Seq<char>| w.taken.contains(x) implies #[trigger] t.contains(x) by {
            let k = choose|k: int| 0 <= k < w.taken.len() && w.taken[k] == x;
            assert(t[k] == x);
        }
        assert(t[t.len() - 1] == node);
        assert(t.contains(node));
        if w.limit matches Some(l) && steps == l {
        } else if w.visited.contains(node) {
            let w2 = WalkView {
                taken: t,
                pending: rest,
                visited: w.visited,
                steps: steps,
                limit: w.limit,
                stopped: false,
            };
            assert forall|x: Seq<char>| #[trigger] t.contains(x) implies w.visited.contains(x) by {
                let k = choose|k: int| 0 <= k < t.len() && t[k] == x;
                if k < w.taken.len() {
                    assert(w.taken[k] == x);
                    assert(w.taken.contains(x));
                }
            }
            lemma_walk_next_consistent(w2);
        } else {
            let v = w.visited.push(node);
            assert forall|x: Seq<char>| #[trigger] v.contains(x) implies t.contains(x) by {
                let k = choose|k: int| 0 <= k < v.len() && v[k] == x;
                if k < w.visited.len() {
                    assert(w.visited[k] == x);
                    assert(w.visited.contains(x));
                }
            }
            assert forall|x: Seq<char>| #[trigger] t.contains(x) implies v.contains(x) by {
                let k = choose|k: int| 0 <= k < t.len() && t[k] == x;
                if k < w.taken.len() {
                    assert(w.taken[k] == x);
                    assert(w.taken.contains(x));
                    assert(w.visited.contains(x));
                    let m = choose|m: int| 0 <= m < w.visited.len() && w.visited[m] == x;
                    assert(v[m] == x);
                } else {
                    assert(v[v.len() - 1] == x);
                }
            }
        }
    }
}

impl Walk {
    /// A walk that starts from the given nodes and, with a limit, gives up
    /// on the take that brings the count to it.
    pub fn new(start: Vec<String>, limit: Option<usize>) -> (w: Walk)
        ensures
            walk_consistent(w@),
            w@.taken == Seq::<Seq<char>>::empty(),
            w@.pending == views(start@),
            w@.visited == Seq::<Seq<char>>::empty(),
            w@.steps == 0,
            w@.limit == (match limit {
                Some(l) => Some(l as nat),
                None => None::<nat>,
            }),
            !w@.stopped,
    {
        let w = Walk { queue: start, head: 0, visited: Vec::new(), limit, stopped: false };
        assert(views(w.queue@).skip(0) =~= views(w.queue@));
        assert(views(w.queue@).take(0) =~= Seq::<Seq<char>>::empty());
        assert(views(w.visited@) =~= Seq::<Seq<char>>::empty());
        w
    }

    /// The walk from one node (`name/version`), without a limit.
    pub fn from_root(root: String) -> (w: Walk)
        ensures
            walk_consistent(w@),
            w@.taken == Seq::<Seq<char>>::empty(),
            w@.pending == seq![root@],
            w@.visited == Seq::<Seq<char>>::empty(),
            w@.steps == 0,
            w@.limit is None,
            !w@.stopped,
    {
        let mut start: Vec<String> = Vec::new();
        start.push(root);
        let w = Walk::new(start, None);
        assert(w@.pending =~= seq![root@]);
        w
    }

    /// The walk from a node's direct neighbours when there are fewer than
    /// `cap` of them; with as many or more, a walk that reaches nothing.
    pub fn from_direct_nodes(direct: Vec<String>, cap: usize) -> (w: Walk)
        ensures
            direct@.len() < cap ==> w@.pending == views(direct@) && !w@.stopped,
            direct@.len() >= cap ==> w@.stopped,
            walk_consistent(w@),
            w@.taken == Seq::<Seq<char>>::empty(),
            w@.visited == Seq::<Seq<char>>::empty(),
            w@.steps == 0,
            w@.limit is None,
    {
        if direct.len() < cap {
            Walk::new(direct, None)
        } else {
            let w = Walk {
                queue: Vec::new(),
                head: 0,
                visited: Vec::new(),
                limit: None,
                stopped: true,
            };
            assert(views(w.visited@) =~= Seq::<Seq<char>>::empty());
            assert(views(w.queue@).take(0) =~= Seq::<Seq<char>>::empty());
            w
        }
    }

    /// Takes the next node to expand (see `walk_next`).
    pub fn next(&mut self) -> (r: Option<String>)
        ensures
            (final(self)@, opt_view(r)) == walk_next(old(self)@),
    {
        proof {
            use_type_invariant(&*self);
        }
        if self.stopped {
            return None;
        }
        while self.head < self.queue.len()
            invariant
                walk_next(old(self)@) == walk_next(self@),
                !self.stopped,
                self.head <= self.queue@.len(),
                no_dups(views(self.visited@)),
            decreases self.queue.len() - self.head,
        {
            let i = self.head;
            let stop = match self.limit {
                Some(l) => i + 1 == l,
                None => false,
            };
            let ghost before = self@;
            assert(before.pending[0] == self.queue@[i as int]@);
            assert(before.pending.drop_first() =~= views(self.queue@).skip(i + 1));
            assert(views(self.queue@).take(i + 1) =~= before.taken.push(before.pending[0]));
            if stop {
                self.head = i + 1;
                self.stopped = true;
                return None;
            }
            if !contains_str(&self.visited, self.queue[i].as_str()) {
                let node = self.queue[i].clone();
                let ghost nv = node@;
                proof {
                    lemma_walk_next_fresh(before);
                }
                let mut v: Vec<String> = Vec::new();
                std::mem::swap(&mut v, &mut self.visited);
                v.push(self.queue[i].clone());
                assert(views(v@) =~= before.visited.push(nv));
                self.visited = v;
                self.head = i + 1;
                assert(self@.visited =~= before.visited.push(nv));
                return Some(node);
            }
            self.head = i + 1;
        }
        assert(self@.pending =~= Seq::<Seq<char>>::empty());
        None
    }

    /// Queues the neighbours of the node last taken.
    pub fn add_neighbours(&mut self, nodes: &Vec<String>)
        ensures
            final(self)@.taken == old(self)@.taken,
            final(self)@.pending == old(self)@.pending + views(nodes@),
            final(self)@.visited == old(self)@.visited,
            final(self)@.steps == old(self)@.steps,
            final(self)@.limit == old(self)@.limit,
            final(self)@.stopped == old(self)@.stopped,
    {
        proof {
            use_type_invariant(&*self);
        }
        let mut q = crate::text::clone_strings(&self.queue);
        let mut k: usize = 0;
        while k < nodes.len()
            invariant
                k <= nodes@.len(),
                views(q@) == views(old(self).queue@) + views(nodes@).take(k as int),
            decreases nodes.len() - k,
        {
            let ghost before = views(q@);
            q.push(nodes[k].clone());
            assert(views(q@) =~= before.push(nodes@[k as int]@));
            assert(views(nodes@).take(k + 1) =~= views(nodes@).take(k as int).push(nodes@[k as int]@));
            assert(views(q@) =~= views(old(self).queue@) + views(nodes@).take(k + 1));
            k += 1;
        }
        assert(views(nodes@).take(k as int) =~= views(nodes@));
        assert(q@.len() >= self.queue@.len());
        self.queue = q;
        assert(views(self.queue@).skip(self.head as int) =~= views(old(self).queue@).skip(
            self.head as int,
        ) + views(nodes@));
        assert(views(self.queue@).take(self.head as int) =~= views(old(self).queue@).take(
            self.head as int,
        ));
    }

    /// The nodes reached, each once, in the order they were reached.
    pub fn found(&self) -> (r: Vec<String>)
        ensures
            views(r@) == self@.visited,
            no_dups(views(r@)),
    {
        proof {
            use_type_invariant(&*self);
        }
        crate::text::clone_strings(&self.visited)
    }

    /// The nodes reached, but for `root`.
    pub fn found_except(&self, root: &str) -> (r: Vec<String>)
        ensures
            views(r@) == self@.visited.filter(|n: Seq<char>| n != root@),
            no_dups(views(r@)),
    {
        proof {
            use_type_invariant(&*self);
        }
        let ghost vs = views(self.visited@);
        let ghost pred = |n: Seq<char>| n != root@;
        let mut r: Vec<String> = Vec::new();
        let mut i: usize = 0;
        while i < self.visited.len()
            invariant
                i <= vs.len(),
                vs == views(self.visited@),
                no_dups(vs),
                pred == (|n: Seq<char>| n != root@),
                views(r@) == vs.take(i as int).filter(pred),
            decreases self.visited.len() - i,
        {
            assert(vs[i as int] == self.visited@[i as int]@);
            proof {
                vs.take(i as int).lemma_filter_push(vs[i as int], pred);
                assert(vs.take(i + 1) =~= vs.take(i as int).push(vs[i as int]));
            }
            if !str_eq(self.visited[i].as_str(), root) {
                let ghost before = views(r@);
                r.push(self.visited[i].clone());
                assert(views(r@) =~= before.push(vs[i as int]));
            }
            i += 1;
        }
        assert(vs.take(vs.len() as int) =~= vs);
        proof {
            lemma_filter_no_dups(vs, pred);
        }
        r
    }
}

proof fn lemma_filter_no_dups(s: Seq<Seq<char>>, pred: spec_fn(Seq<char>) -> bool)
    requires
        no_dups(s),
    ensures
        no_dups(s.filter(pred)),
    decreases s.len(),
{
    reveal(Seq::filter);
    if s.len() > 0 {
        let d = s.drop_last();
        assert(no_dups(d)) by {
            assert forall|i: int, j: int| 0 <= i < j < d.len() implies d[i] != d[j] by {
                assert(d[i] == s[i] && d[j] == s[j]);
            }
        }
        lemma_filter_no_dups(d, pred);
        if pred(s.last()) {
            let f = d.filter(pred);
            assert(!f.contains(s.last())) by {
                if f.contains(s.last()) {
                    d.lemma_filter_contains_rev(pred, s.last());
                    let m = choose|m: int| 0 <= m < d.len() && d[m] == s.last();
                    assert(s[m] == s[s.len() - 1]);
                }
            }
            let g = f.push(s.last());
            assert(s.filter(pred) == g);
            assert forall|i: int, j: int| 0 <= i < j < g.len() implies g[i] != g[j] by {
                if j == g.len() - 1 {
                    assert(g[i] == f[i]);
                    assert(f.contains(f[i]));
                }
            }
        } else {
            assert(s.filter(pred) == d.filter(pred));
        }
    }
}


/// `x` is among the direct neighbours the graph `g` gives `y`.
pub open spec fn edge(g: spec_fn(Seq<char>) -> Seq<Seq<char>>, y: Seq<char>, x: Seq<char>) -> bool {
    g(y).contains(x)
}

/// `x` is at most `n` edges of `g` away from one of the roots.
pub open spec fn reach_within(
    g: spec_fn(Seq<char>) -> Seq<Seq<char>>,
    roots: Seq<Seq<char>>,
    n: nat,
    x: Seq<char>,
) -> bool
    decreases n,
{
    if n == 0 {
        roots.contains(x)
    } else {
        reach_within(g, roots, (n - 1) as nat, x) || exists|y: Seq<char>|
            reach_within(g, roots, (n - 1) as nat, y) && #[trigger] edge(g, y, x)
    }
}

/// `x` can be reached from one of the roots along edges of `g`.
pub open spec fn reachable(g: spec_fn(Seq<char>) -> Seq<Seq<char>>, roots: Seq<Seq<char>>, x: Seq<char>) -> bool {
    exists|n: nat| #[trigger] reach_within(g, roots, n, x)
}

/// A walk from the roots that has taken nothing yet and has no limit.
pub open spec fn walk_start(roots: Seq<Seq<char>>) -> WalkView {
    WalkView {
        taken: Seq::empty(),
        pending: roots,
        visited: Seq::empty(),
        steps: 0,
        limit: None,
        stopped: false,
    }
}

/// One round of a walk over the graph `g`: take the next node (`next`)
/// and, when one comes, queue its neighbours (`add_neighbours`).
pub open spec fn walk_round(g: spec_fn(Seq<char>) -> Seq<Seq<char>>, w: WalkView) -> WalkView {
    let (w1, r) = walk_next(w);
    match r {
        Some(n) => WalkView { pending: w1.pending + g(n), ..w1 },
        None => w1,
    }
}

/// A walk after `k` rounds over the graph `g`.
pub open spec fn walk_rounds(g: spec_fn(Seq<char>) -> Seq<Seq<char>>, w: WalkView, k: nat) -> WalkView
    decreases k,
{
    if k == 0 {
        w
    } else {
        walk_rounds(g, walk_round(g, w), (k - 1) as nat)
    }
}

/// A node reached or still queued.
pub open spec fn member(w: WalkView, x: Seq<char>) -> bool {
    w.visited.contains(x) || w.pending.contains(x)
}

/// What holds of a walk without a limit over the graph `g` between
/// rounds: every member is reachable, every root is a member, and the
/// neighbours of every node reached are members.
pub open spec fn walk_invariant(
    g: spec_fn(Seq<char>) -> Seq<Seq<char>>,
    roots: Seq<Seq<char>>,
    w: WalkView,
) -> bool {
    &&& w.limit is None
    &&& !w.stopped
    &&& forall|x: Seq<char>| #[trigger] member(w, x) ==> reachable(g, roots, x)
    &&& forall|x: Seq<char>| #[trigger] roots.contains(x) ==> member(w, x)
    &&& forall|v: Seq<char>, y: Seq<char>| #[trigger] w.visited.contains(v) && #[trigger] edge(g, v, y) ==> member(w, y)
}

proof fn lemma_contains_push(s: Seq<Seq<char>>, a: Seq<char>, x: Seq<char>)
    ensures
        s.push(a).contains(x) <==> (s.contains(x) || x == a),
{
    if s.push(a).contains(x) {
        let k = choose|k: int| 0 <= k < s.push(a).len() && s.push(a)[k] == x;
        if k < s.len() {
            assert(s[k] == x);
        }
    }
    if s.contains(x) {
        let k = choose|k: int| 0 <= k < s.len() && s[k] == x;
        assert(s.push(a)[k] == x);
    }
    assert(s.push(a)[s.len() as int] == a);
}

proof fn lemma_contains_first(s: Seq<Seq<char>>, x: Seq<char>)
    requires
        s.len() > 0,
    ensures
        s.contains(x) <==> (s[0] == x || s.drop_first().contains(x)),
{
    if s.contains(x) {
        let k = choose|k: int| 0 <= k < s.len() && s[k] == x;
        if k > 0 {
            assert(s.drop_first()[k - 1] == x);
        }
    }
    if s.drop_first().contains(x) {
        let k = choose|k: int| 0 <= k < s.drop_first().len() && s.drop_first()[k] == x;
        assert(s[k + 1] == x);
    }
}

proof fn lemma_contains_append(s: Seq<Seq<char>>, t: Seq<Seq<char>>, x: Seq<char>)
    ensures
        (s + t).contains(x) <==> (s.contains(x) || t.contains(x)),
{
    if (s + t).contains(x) {
        let k = choose|k: int| 0 <= k < (s + t).len() && (s + t)[k] == x;
        if k < s.len() {
            assert(s[k] == x);
        } else {
            assert(t[k - s.len()] == x);
        }
    }
    if s.contains(x) {
        let k = choose|k: int| 0 <= k < s.len() && s[k] == x;
        assert((s + t)[k] == x);
    }
    if t.contains(x) {
        let k = choose|k: int| 0 <= k < t.len() && t[k] == x;
        assert((s + t)[k + s.len()] == x);
    }
}

/// Without a limit, taking the next node keeps the members; it hands out
/// a node that becomes reached, or finds the queue dry.
proof fn lemma_walk_next_members(w: WalkView)
    requires
        w.limit is None,
        !w.stopped,
    ensures
        walk_next(w).0.limit is None,
        !walk_next(w).0.stopped,
        forall|x: Seq<char>|
            #![trigger member(walk_next(w).0, x)]
            #![trigger member(w, x)]
            member(walk_next(w).0, x) == member(w, x),
        walk_next(w).1 is None ==> walk_next(w).0.pending.len() == 0 && walk_next(w).0.visited
            == w.visited,
        walk_next(w).1 matches Some(n) ==> walk_next(w).0.visited == w.visited.push(n),
    decreases w.pending.len(),
{
    if w.pending.len() > 0 {
        let node = w.pending[0];
        let rest = w.pending.drop_first();
        assert forall|x: Seq<char>| w.pending.contains(x) <==> (node == x || rest.contains(x)) by {
            lemma_contains_first(w.pending, x);
        }
        let w2 = WalkView {
            taken: w.taken.push(node),
            pending: rest,
            visited: w.visited,
            steps: w.steps + 1,
            limit: w.limit,
            stopped: false,
        };
        if w.visited.contains(node) {
            lemma_walk_next_members(w2);
            assert(walk_next(w) == walk_next(w2));
            assert forall|x: Seq<char>| member(walk_next(w).0, x) == member(w, x) by {
                assert(member(walk_next(w2).0, x) == member(w2, x));
            }
        } else {
            let w3 = walk_next(w).0;
            assert(w3.visited == w.visited.push(node));
            assert(w3.pending == rest);
            assert forall|x: Seq<char>| member(w3, x) == member(w, x) by {
                lemma_contains_push(w.visited, node, x);
            }
        }
    }
}

proof fn lemma_reachable_step(g: spec_fn(Seq<char>) -> Seq<Seq<char>>, roots: Seq<Seq<char>>, y: Seq<char>, x: Seq<char>)
    requires
        reachable(g, roots, y),
        edge(g, y, x),
    ensures
        reachable(g, roots, x),
{
    let n = choose|n: nat| #[trigger] reach_within(g, roots, n, y);
    assert(reach_within(g, roots, n + 1, x));
}

/// A round keeps the invariant.
proof fn lemma_walk_round_invariant(
    g: spec_fn(Seq<char>) -> Seq<Seq<char>>,
    roots: Seq<Seq<char>>,
    w: WalkView,
)
    requires
        walk_invariant(g, roots, w),
    ensures
        walk_invariant(g, roots, walk_round(g, w)),
        walk_next(w).1 is None ==> walk_round(g, w).pending.len() == 0,
{
    lemma_walk_next_members(w);
    let (w1, r) = walk_next(w);
    match r {
        None => {
            assert forall|v: Seq<char>, y: Seq<char>| #[trigger] w1.visited.contains(v) && #[trigger] edge(g, v, y) implies member(w1, y) by {
                assert(member(w, y));
            }
        },
        Some(n) => {
            let w2 = walk_round(g, w);
            assert(w2.visited == w.visited.push(n));
            assert(w2.pending == w1.pending + g(n));
            assert forall|x: Seq<char>| #[trigger] member(w2, x) <==> (member(w1, x) || g(n).contains(x)) by {
                lemma_contains_append(w1.pending, g(n), x);
            }
            assert(member(w1, n)) by {
                lemma_contains_push(w.visited, n, n);
            }
            assert(reachable(g, roots, n));
            assert forall|x: Seq<char>| #[trigger] member(w2, x) implies reachable(g, roots, x) by {
                if !member(w1, x) {
                    assert(edge(g, n, x));
                    lemma_reachable_step(g, roots, n, x);
                }
            }
            assert forall|x: Seq<char>| #[trigger] roots.contains(x) implies member(w2, x) by {
                assert(member(w, x));
                assert(member(w1, x));
            }
            assert forall|v: Seq<char>, y: Seq<char>| #[trigger] w2.visited.contains(v) && #[trigger] edge(g, v, y) implies member(w2, y) by {
                lemma_contains_push(w.visited, n, v);
                if v == n {
                    assert(g(n).contains(y));
                } else {
                    assert(member(w, y));
                    assert(member(w1, y));
                }
            }
        },
    }
}

proof fn lemma_walk_rounds_invariant(
    g: spec_fn(Seq<char>) -> Seq<Seq<char>>,
    roots: Seq<Seq<char>>,
    w: WalkView,
    k: nat,
)
    requires
        walk_invariant(g, roots, w),
    ensures
        walk_invariant(g, roots, walk_rounds(g, w, k)),
    decreases k,
{
    if k > 0 {
        lemma_walk_round_invariant(g, roots, w);
        lemma_walk_rounds_invariant(g, roots, walk_round(g, w), (k - 1) as nat);
    }
}

/// With the queue dry, whatever is reachable within `n` edges was reached.
proof fn lemma_dry_walk_reaches(
    g: spec_fn(Seq<char>) -> Seq<Seq<char>>,
    roots: Seq<Seq<char>>,
    w: WalkView,
    n: nat,
    x: Seq<char>,
)
    requires
        walk_invariant(g, roots, w),
        w.pending.len() == 0,
        reach_within(g, roots, n, x),
    ensures
        w.visited.contains(x),
    decreases n,
{
    assert(!w.pending.contains(x));
    if n == 0 {
        assert(member(w, x));
    } else if reach_within(g, roots, (n - 1) as nat, x) {
        lemma_dry_walk_reaches(g, roots, w, (n - 1) as nat, x);
    } else {
        let y = choose|y: Seq<char>| reach_within(g, roots, (n - 1) as nat, y) && #[trigger] edge(g, y, x);
        lemma_dry_walk_reaches(g, roots, w, (n - 1) as nat, y);
        assert(member(w, x));
    }
}

/// A walk without a limit from the roots over a graph, each round taking
/// the next node and queueing the neighbours the graph gives it, reaches,
/// once its queue runs dry, exactly the nodes reachable from the roots.
pub proof fn lemma_walk_complete(g: spec_fn(Seq<char>) -> Seq<Seq<char>>, roots: Seq<Seq<char>>, k: nat)
    requires
        walk_rounds(g, walk_start(roots), k).pending.len() == 0,
    ensures
        forall|x: Seq<char>| walk_rounds(g, walk_start(roots), k).visited.contains(x) <==> reachable(g, roots, x),
{
    let w0 = walk_start(roots);
    assert forall|x: Seq<char>| #[trigger] member(w0, x) implies reachable(g, roots, x) by {
        assert(!w0.visited.contains(x));
        assert(reach_within(g, roots, 0, x));
    }
    lemma_walk_rounds_invariant(g, roots, w0, k);
    let w = walk_rounds(g, w0, k);
    assert forall|x: Seq<char>| w.visited.contains(x) <==> reachable(g, roots, x) by {
        if w.visited.contains(x) {
            assert(member(w, x));
        }
        if reachable(g, roots, x) {
            let n = choose|n: nat| #[trigger] reach_within(g, roots, n, x);
            lemma_dry_walk_reaches(g, roots, w, n, x);
        }
    }
}

} // verus!
