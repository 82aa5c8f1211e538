use vstd::prelude::*;
use crate::text::str_eq;

verus! {

/// Which of the service's tasks run, and whether imports skip cloning.
pub struct CoreController {
    pub dont_clone: bool,
    pub import: bool,
    pub analysis: bool,
    pub package: bool,
}

/// A task switch is on when its setting is exactly `1`.
pub fn switch_on(setting: &str) -> (r: bool)
    ensures
        r == (setting@ == "1"@),
{
    str_eq(setting, "1")
}

impl CoreController {
    /// The controller for the given settings of the import, analysis and
    /// package switches.
    pub fn new(dont_clone: bool, import: &str, analysis: &str, package: &str) -> (r: Self)
        ensures
            r.dont_clone == dont_clone,
            r.import == (import@ == "1"@),
            r.analysis == (analysis@ == "1"@),
            r.package == (package@ == "1"@),
    {
        CoreController {
            dont_clone,
            import: switch_on(import),
            analysis: switch_on(analysis),
            package: switch_on(package),
        }
    }
}

/// How many imported messages go into one batch of graph import files.
pub open spec fn import_batch() -> nat {
    1000
}

/// The import task's decision after a message, from the messages in the
/// current batch and whether a termination signal was seen before: the new
/// batch count, whether the task is now terminating, and what it does.
pub open spec fn import_step(batch: nat, terminating: bool, imported: bool, signalled: bool) -> (
    nat,
    bool,
    ImportActions,
) {
    if terminating || signalled {
        (batch, true, ImportActions { save_checkpoint_and_exit: true, write_import_files: false, pause: false })
    } else if batch + 1 == import_batch() {
        (0, false, ImportActions { save_checkpoint_and_exit: false, write_import_files: true, pause: !imported })
    } else {
        (batch + 1, false, ImportActions { save_checkpoint_and_exit: false, write_import_files: false, pause: !imported })
    }
}

/// A run of the import task from its start over messages, each given as
/// (imported, termination signal seen after it): the batch count, whether
/// it is terminating, how often the import files were written, and how
/// often the checkpoint was saved to exit.
pub open spec fn import_run(events: Seq<(bool, bool)>) -> (nat, bool, nat, nat)
    decreases events.len(),
{
    if events.len() == 0 {
        (0, false, 0, 0)
    } else {
        let (b, t, w, x) = import_run(events.drop_last());
        let (b2, t2, a) = import_step(b, t, events.last().0, events.last().1);
        (
            b2,
            t2,
            w + if a.write_import_files { 1nat } else { 0nat },
            x + if a.save_checkpoint_and_exit { 1nat } else { 0nat },
        )
    }
}

/// While no termination signal comes, the import files are written once
/// per full batch: after `n` messages, `n / 1000` times, with `n % 1000`
/// messages in the current batch, and no checkpoint exit.
pub proof fn lemma_import_batches(events: Seq<(bool, bool)>)
    requires
        forall|i: int| 0 <= i < events.len() ==> !(#[trigger] events[i]).1,
    ensures
        import_run(events) == (
            (events.len() % import_batch()) as nat,
            false,
            (events.len() / import_batch()) as nat,
            0nat,
        ),
    decreases events.len(),
{
    if events.len() > 0 {
        let p = events.drop_last();
        assert forall|i: int| 0 <= i < p.len() implies !(#[trigger] p[i]).1 by {
            assert(p[i] == events[i]);
        }
        lemma_import_batches(p);
        assert(!events[events.len() - 1].1);
        let n = events.len() as int;
        assert((n - 1) % 1000 == 999 ==> n % 1000 == 0 && n / 1000 == (n - 1) / 1000 + 1)
            by (nonlinear_arith)
            requires n >= 1;
        assert((n - 1) % 1000 != 999 ==> n % 1000 == (n - 1) % 1000 + 1 && n / 1000 == (n - 1) / 1000)
            by (nonlinear_arith)
            requires n >= 1;
    }
}

/// The first termination signal, seen after message `k`, makes that step
/// save the checkpoint and exit: the files were written `k / 1000` times,
/// never at that step, and the checkpoint exit comes exactly once.
pub proof fn lemma_import_terminates(events: Seq<(bool, bool)>, k: int)
    requires
        0 <= k < events.len(),
        events[k].1,
        forall|i: int| 0 <= i < k ==> !(#[trigger] events[i]).1,
    ensures
        import_run(events.take(k + 1)) == (
            (k % (import_batch() as int)) as nat,
            true,
            (k / (import_batch() as int)) as nat,
            1nat,
        ),
{
    let t = events.take(k + 1);
    assert(t.drop_last() =~= events.take(k));
    let p = events.take(k);
    assert forall|i: int| 0 <= i < p.len() implies !(#[trigger] p[i]).1 by {
        assert(p[i] == events[i]);
    }
    lemma_import_batches(p);
    assert(t.last() == events[k]);
}

/// The import task between messages: how many messages went into the
/// current batch, whether a termination signal was seen, and the messages
/// taken so far (imported, signal seen after it).
pub struct ImportLoop {
    count: u32,
    received_term: bool,
    events: Ghost<Seq<(bool, bool)>>,
}

/// What the import task does after a message.
pub struct ImportActions {
    pub save_checkpoint_and_exit: bool,
    pub write_import_files: bool,
    pub pause: bool,
}

impl ImportLoop {
    #[verifier::type_invariant]
    closed spec fn inv(self) -> bool {
        &&& self.count < import_batch()
        &&& import_run(self.events@).0 == self.count as nat
        &&& import_run(self.events@).1 == self.received_term
    }

    /// The messages in the current batch.
    pub closed spec fn batch(self) -> nat {
        self.count as nat
    }

    /// Whether a termination signal was seen.
    pub closed spec fn terminating(self) -> bool {
        self.received_term
    }

    /// The messages taken so far, each as (imported, signal seen after it).
    pub closed spec fn history(self) -> Seq<(bool, bool)> {
        self.events@
    }

    /// The import task before its first message.
    pub fn new() -> (r: Self)
        ensures
            r.batch() == 0,
            !r.terminating(),
            r.history() == Seq::<(bool, bool)>::empty(),
    {
        ImportLoop { count: 0, received_term: false, events: Ghost(Seq::empty()) }
    }

    /// The messages in the current batch.
    pub fn count(&self) -> (r: u32)
        ensures
            r == self.batch(),
            r < import_batch(),
    {
        proof {
            use_type_invariant(self);
        }
        self.count
    }

    /// The decision after one message: once a termination signal was seen
    /// (now or before), save the checkpoint and exit; else count the
    /// message, write the import files when the batch is full (starting a
    /// new one), and pause when the import failed. The message joins the
    /// history, and the files written and checkpoint exits so far are
    /// counted as `import_run` counts them: the running task is its run
    /// from the start, so the laws over runs hold of it.
    pub fn after_message(&mut self, imported: bool, term_signalled: bool) -> (r: ImportActions)
        ensures
            (final(self).batch(), final(self).terminating(), r) == import_step(
                old(self).batch(),
                old(self).terminating(),
                imported,
                term_signalled,
            ),
            final(self).history() == old(self).history().push((imported, term_signalled)),
            import_run(final(self).history()).0 == final(self).batch(),
            import_run(final(self).history()).1 == final(self).terminating(),
            import_run(final(self).history()).2 == import_run(old(self).history()).2 + if r.write_import_files {
                1nat
            } else {
                0nat
            },
            import_run(final(self).history()).3 == import_run(old(self).history()).3 + if r.save_checkpoint_and_exit {
                1nat
            } else {
                0nat
            },
            final(self).terminating() == (old(self).terminating() || term_signalled),
            final(self).terminating() ==> r.save_checkpoint_and_exit && !r.write_import_files
                && !r.pause && final(self).batch() == old(self).batch(),
            !final(self).terminating() ==> {
                &&& !r.save_checkpoint_and_exit
                &&& r.write_import_files == (old(self).batch() + 1 == import_batch())
                &&& final(self).batch() == if old(self).batch() + 1 == import_batch() {
                    0
                } else {
                    old(self).batch() + 1
                }
                &&& r.pause == !imported
            },
    {
        proof {
            use_type_invariant(&*self);
        }
        let ghost events = self.events@.push((imported, term_signalled));
        proof {
            assert(events.drop_last() =~= self.events@);
        }
        let term = self.received_term || term_signalled;
        if term {
            *self = ImportLoop { count: self.count, received_term: true, events: Ghost(events) };
            return ImportActions {
                save_checkpoint_and_exit: true,
                write_import_files: false,
                pause: false,
            };
        }
        let next = self.count + 1;
        let full = next == 1000;
        let count = if full {
            0
        } else {
            next
        };
        *self = ImportLoop { count, received_term: false, events: Ghost(events) };
        ImportActions { save_checkpoint_and_exit: false, write_import_files: full, pause: !imported }
    }
}

} // verus!
