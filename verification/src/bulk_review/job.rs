//! A job over many pages: its batches one after the other, each run once or cut in two.
use crate::bulk_review::hints::lowercased;
use crate::bulk_review::memory::{TranslationMemory, MAX_MEMORY_BYTES};
use crate::bulk_review::metrics::{BatchMetrics, JobMetrics};
use crate::bulk_review::plan::{
    plan_text_batches, summaries_from_bulk, BulkPage, PageTextSummary, SummaryFault,
};
use crate::text;
use crate::text_map::TextMap;
use vstd::prelude::*;

verus! {

/// A page whose batch failed, and why.
pub struct FailedPage {
    pub page: String,
    pub error: String,
}

/// Why a job cannot start.
#[derive(Clone, Copy, Debug, PartialEq, Eq, Structural)]
pub enum StartFault {
    /// It names no page.
    NoPages,
    /// The pages that the project handed out cannot be measured.
    Unmeasured(SummaryFault),
    /// The page at this place is not among them.
    UnknownPage(usize),
}

/// What follows a batch that failed.
#[derive(Clone, Copy, Debug, PartialEq, Eq, Structural)]
pub enum FailureStep {
    /// Its two halves are run in its place.
    Split,
    /// Its pages are noted as failed, and the job goes on.
    Skip,
    /// Its pages are noted as failed, and the job ends.
    Abort,
}

/// The message speaks of a limit of the model's input.
pub open spec fn names_context_limit(message: Seq<char>) -> bool {
    let m = crate::bulk_review::hints::lowercase(message);
    ||| text::contains_text(m, "context"@)
    ||| text::contains_text(m, "token"@)
    ||| text::contains_text(m, "too long"@)
}

/// Whether a failure says that the batch was too large for the model.
pub fn is_context_error(message: &str) -> (r: bool)
    ensures
        r == names_context_limit(message@),
{
    let lower = lowercased(message);
    mentions_context_limit(lower.as_str())
}

/// Whether a message in lower case says that the batch was too large for the model.
pub fn mentions_context_limit(lower: &str) -> (r: bool)
    ensures
        r == (text::contains_text(lower@, "context"@) || text::contains_text(lower@, "token"@)
            || text::contains_text(lower@, "too long"@)),
{
    text::contains(lower, "context") || text::contains(lower, "token") || text::contains(
        lower,
        "too long",
    )
}

/// A job over many pages.
pub struct PageJob {
    /// The batches that are still to run, the next one first.
    pub queue: Vec<Vec<String>>,
    /// The batch that is running.
    pub running: Option<Vec<String>>,
    /// How many batches were started.
    pub sequence: usize,
    /// How many pages the job has.
    pub total: usize,
    pub completed: Vec<String>,
    pub failed: Vec<FailedPage>,
    pub memory: TranslationMemory,
    pub changed: bool,
    pub metrics: JobMetrics,
}

/// `part` is `whole` with some of its pages left out.
pub open spec fn keeps_order(part: Seq<Seq<char>>, whole: Seq<Seq<char>>) -> bool
    decreases whole.len(),
{
    if part.len() == 0 {
        true
    } else if whole.len() == 0 {
        false
    } else {
        ||| part.last() == whole.last() && keeps_order(part.drop_last(), whole.drop_last())
        ||| keeps_order(part, whole.drop_last())
    }
}

/// How often batches of these lengths can be run, counting every cut in two.
pub open spec fn runs_left(batches: Seq<Seq<Seq<char>>>) -> nat
    decreases batches.len(),
{
    if batches.len() == 0 {
        0
    } else {
        (2 * batches[0].len() - 1) as nat + runs_left(batches.drop_first())
    }
}

impl PageJob {
    /// The batches that are still to run.
    pub open spec fn pending(self) -> Seq<Seq<Seq<char>>> {
        crate::bulk_review::plan::batch_texts(self.queue@)
    }

    /// The pages of the batch that is running.
    pub open spec fn running_pages(self) -> Seq<Seq<char>> {
        match self.running {
            Some(batch) => text::texts(batch@),
            None => Seq::empty(),
        }
    }

    /// The pages that failed.
    pub open spec fn failed_pages(self) -> Seq<Seq<char>> {
        Seq::new(self.failed@.len(), |i: int| self.failed@[i].page@)
    }

    /// Every page of the job: done, failed, running or still to run.
    pub open spec fn account(self) -> vstd::multiset::Multiset<Seq<char>> {
        text::texts(self.completed@).to_multiset().add(self.failed_pages().to_multiset()).add(
            self.running_pages().to_multiset(),
        ).add(self.pending().flatten().to_multiset())
    }

    /// The pages that are running or still to run, the next one first.
    pub open spec fn remaining(self) -> Seq<Seq<char>> {
        self.running_pages() + self.pending().flatten()
    }

    /// The job has come this far through `pages`: what remains is their end, and what was done or
    /// failed stands in the order of what came before.
    pub open spec fn in_order(self, pages: Seq<Seq<char>>) -> bool {
        let past = pages.len() - self.remaining().len();
        &&& past >= 0
        &&& self.remaining() == pages.skip(past)
        &&& keeps_order(text::texts(self.completed@), pages.take(past))
        &&& keeps_order(self.failed_pages(), pages.take(past))
    }

    /// How many more batches can come to an end.
    pub open spec fn work(self) -> nat {
        runs_left(self.pending()) + (match self.running {
            Some(batch) => (2 * batch@.len() - 1) as nat,
            None => 0,
        })
    }

    /// How many more batches can be started.
    pub open spec fn starts(self) -> nat {
        runs_left(self.pending()) + (match self.running {
            Some(batch) => (2 * batch@.len() - 2) as nat,
            None => 0,
        })
    }

    pub open spec fn wf(self) -> bool {
        &&& self.memory.wf()
        &&& forall|i: int| 0 <= i < self.queue@.len() ==> (#[trigger] self.queue@[i])@.len() > 0
        &&& self.running matches Some(batch) ==> batch@.len() > 0
        &&& self.sequence + self.starts() <= usize::MAX
    }

    /// Plans a job over `pages`, given what the project handed out for them.
    pub fn start(pages: Vec<String>, data: &Option<Vec<BulkPage>>) -> (r: Result<
        PageJob,
        StartFault,
    >)
        requires
            2 * pages@.len() <= usize::MAX,
            data matches Some(list) ==> forall|k: Seq<char>| #[trigger]
                crate::bulk_review::plan::summaries_of(list@).contains_key(k)
                    ==> crate::bulk_review::plan::summaries_of(list@)[k].spec_size() <= usize::MAX,
        ensures
            match r {
                Ok(job) => {
                    let list = data->0@;
                    let sizes = crate::bulk_review::plan::summaries_of(list);
                    &&& data is Some
                    &&& pages@.len() > 0
                    &&& forall|i: int| 0 <= i < list.len() ==> (#[trigger] list[i]).id is Some
                    &&& forall|i: int|
                        0 <= i < pages@.len() ==> sizes.contains_key((#[trigger] pages@[i])@)
                    &&& job.wf()
                    &&& job.pending().flatten() == text::distinct(text::texts(pages@))
                    &&& crate::bulk_review::plan::well_planned(sizes, job.pending())
                    &&& job.total == text::distinct(text::texts(pages@)).len()
                    &&& job.account() == text::distinct(text::texts(pages@)).to_multiset()
                    &&& job.in_order(text::distinct(text::texts(pages@)))
                    &&& job.running is None
                    &&& job.sequence == 0
                    &&& job.completed@.len() == 0
                    &&& job.failed@.len() == 0
                    &&& job.memory.notes().len() == 0
                    &&& !job.changed
                    &&& job.metrics.is_empty()
                },
                Err(StartFault::NoPages) => pages@.len() == 0,
                Err(StartFault::Unmeasured(SummaryFault::MissingPages)) => pages@.len() > 0
                    && data is None,
                Err(StartFault::Unmeasured(SummaryFault::MissingId(i))) => {
                    &&& pages@.len() > 0
                    &&& data is Some
                    &&& i < data->0@.len()
                    &&& data->0@[i as int].id is None
                    &&& forall|j: int| 0 <= j < i ==> (#[trigger] data->0@[j]).id is Some
                },
                Err(StartFault::UnknownPage(i)) => {
                    let sizes = crate::bulk_review::plan::summaries_of(data->0@);
                    &&& data is Some
                    &&& forall|j: int|
                        0 <= j < data->0@.len() ==> (#[trigger] data->0@[j]).id is Some
                    &&& i < pages@.len()
                    &&& !sizes.contains_key(pages@[i as int]@)
                    &&& forall|j: int| 0 <= j < i ==> sizes.contains_key((#[trigger] pages@[j])@)
                },
            },
    {
        if pages.len() == 0 {
            return Err(StartFault::NoPages);
        }
        let summaries: TextMap<PageTextSummary> = match summaries_from_bulk(data) {
            Ok(summaries) => summaries,
            Err(fault) => return Err(StartFault::Unmeasured(fault)),
        };
        let ghost sizes = crate::bulk_review::plan::summaries_of(data->0@);
        let mut i: usize = 0;
        while i < pages.len()
            invariant
                i <= pages@.len(),
                data is Some,
                forall|j: int| 0 <= j < data->0@.len() ==> (#[trigger] data->0@[j]).id is Some,
                summaries@ == sizes,
                sizes == crate::bulk_review::plan::summaries_of(data->0@),
                forall|j: int| 0 <= j < i ==> sizes.contains_key((#[trigger] pages@[j])@),
            decreases pages@.len() - i,
        {
            if summaries.get(pages[i].as_str()).is_none() {
                return Err(StartFault::UnknownPage(i));
            }
            i += 1;
        }
        let ghost names = text::texts(pages@);
        let queue = plan_text_batches(pages, &summaries);
        let ghost batches = crate::bulk_review::plan::batch_texts(queue@);
        proof {
            text::lemma_distinct(names);
        }
        let total: usize = count_pages(&queue, Ghost(pages@.len()));
        let memory = TranslationMemory::new().bounded(MAX_MEMORY_BYTES);
        let job = PageJob {
            queue,
            running: None,
            sequence: 0,
            total,
            completed: Vec::new(),
            failed: Vec::new(),
            memory,
            changed: false,
            metrics: JobMetrics::new(),
        };
        proof {
            broadcast use vstd::seq_lib::group_to_multiset_ensures;

            text::lemma_distinct(names);
            lemma_runs_bound(batches);
            assert forall|i: int| 0 <= i < job.queue@.len() implies (
            #[trigger] job.queue@[i])@.len() > 0 by {
                assert(batches[i].len() > 0);
            }
            assert(text::texts(job.completed@) =~= Seq::empty());
            assert(job.failed_pages() =~= Seq::empty());
            assert(job.account() =~= batches.flatten().to_multiset());
            assert(job.remaining() =~= batches.flatten());
            assert(batches.flatten().skip(0) =~= batches.flatten());
        }
        Ok(job)
    }

    /// Takes the next batch up, and gives its number. `None` where no batch is left.
    pub fn next(&mut self) -> (r: Option<usize>)
        requires
            old(self).wf(),
            old(self).running is None,
        ensures
            final(self).wf(),
            final(self).account() == old(self).account(),
            forall|pages: Seq<Seq<char>>| #[trigger]
                old(self).in_order(pages) ==> final(self).in_order(pages),
            final(self).work() == old(self).work(),
            final(self).completed == old(self).completed,
            final(self).failed == old(self).failed,
            final(self).memory == old(self).memory,
            final(self).changed == old(self).changed,
            final(self).metrics == old(self).metrics,
            final(self).total == old(self).total,
            old(self).queue@.len() == 0 ==> r is None && *final(self) == *old(self),
            old(self).queue@.len() > 0 ==> {
                &&& r == Some(final(self).sequence)
                &&& final(self).sequence == old(self).sequence + 1
                &&& final(self).running == Some(old(self).queue@[0])
                &&& final(self).queue@ == old(self).queue@.drop_first()
            },
    {
        if self.queue.len() == 0 {
            return None;
        }
        let ghost before = *self;
        let ghost pending = self.pending();
        let batch = self.queue.remove(0);
        self.sequence = self.sequence + 1;
        self.running = Some(batch);
        proof {
            broadcast use vstd::seq_lib::group_to_multiset_ensures;

            assert(self.queue@ =~= before.queue@.drop_first());
            assert(self.pending() =~= pending.drop_first());
            assert(self.running_pages() == pending[0]);
            assert(pending.flatten() == pending[0] + pending.drop_first().flatten());
            vstd::seq_lib::lemma_multiset_commutative(pending[0], pending.drop_first().flatten());
            assert(before.running_pages().to_multiset() =~= vstd::multiset::Multiset::empty());
            assert(self.account() =~= before.account());
            assert forall|i: int| 0 <= i < self.queue@.len() implies (
            #[trigger] self.queue@[i])@.len() > 0 by {
                assert(self.queue@[i] == before.queue@[i + 1]);
            }
            assert(before.remaining() =~= self.remaining());
            assert(self.failed_pages() =~= before.failed_pages());
        }
        Some(self.sequence)
    }

    /// Notes that the running batch came to its end.
    pub fn on_success(&mut self, changed: bool, memory: TranslationMemory, metrics: &BatchMetrics)
        requires
            old(self).wf(),
            old(self).running is Some,
            memory.wf(),
        ensures
            final(self).wf(),
            final(self).account() == old(self).account(),
            forall|pages: Seq<Seq<char>>| #[trigger]
                old(self).in_order(pages) ==> final(self).in_order(pages),
            final(self).work() < old(self).work(),
            final(self).running is None,
            final(self).queue == old(self).queue,
            final(self).sequence == old(self).sequence,
            final(self).total == old(self).total,
            final(self).failed == old(self).failed,
            text::texts(final(self).completed@) == text::texts(old(self).completed@)
                + old(self).running_pages(),
            final(self).changed == (old(self).changed || changed),
            final(self).memory == memory,
            final(self).metrics == old(self).metrics.plus(*metrics),
    {
        let ghost before = *self;
        let mut batch: Vec<String> = match self.running.take() {
            Some(batch) => batch,
            None => Vec::new(),
        };
        let ghost done = text::texts(batch@);
        self.changed = self.changed || changed;
        self.memory = memory;
        self.completed.append(&mut batch);
        self.metrics.add_batch(metrics);
        proof {
            broadcast use vstd::seq_lib::group_to_multiset_ensures;

            let was = text::texts(before.completed@);
            assert(text::texts(self.completed@) =~= was + done);
            vstd::seq_lib::lemma_multiset_commutative(was, done);
            assert(self.running_pages().to_multiset() =~= vstd::multiset::Multiset::empty());
            assert(self.account() =~= before.account());
            assert(self.failed_pages() =~= before.failed_pages());
            assert(before.remaining() =~= done + self.remaining());
            assert forall|pages: Seq<Seq<char>>| #[trigger]
                before.in_order(pages) implies self.in_order(pages) by {
                lemma_stays_in_order(before, *self, done, pages);
            }
        }
    }

    /// Notes that the running batch failed, and says what follows. A batch that was too large for
    /// the model is cut in two, unless it is one page.
    pub fn on_failure(&mut self, message: &str, cancelled: bool) -> (r: FailureStep)
        requires
            old(self).wf(),
            old(self).running is Some,
        ensures
            final(self).wf(),
            final(self).account() == old(self).account(),
            forall|pages: Seq<Seq<char>>| #[trigger]
                old(self).in_order(pages) ==> final(self).in_order(pages),
            final(self).work() < old(self).work(),
            final(self).running is None,
            final(self).sequence == old(self).sequence,
            final(self).total == old(self).total,
            final(self).completed == old(self).completed,
            final(self).changed == old(self).changed,
            final(self).memory == old(self).memory,
            final(self).metrics == old(self).metrics,
            ({
                let batch = old(self).running_pages();
                let half = (batch.len() as int + 1) / 2;
                if names_context_limit(message@) && batch.len() > 1 {
                    &&& r == FailureStep::Split
                    &&& final(self).failed == old(self).failed
                    &&& final(self).pending() == seq![batch.take(half), batch.skip(half)]
                        + old(self).pending()
                } else {
                    &&& r == (if cancelled {
                        FailureStep::Abort
                    } else {
                        FailureStep::Skip
                    })
                    &&& final(self).queue == old(self).queue
                    &&& final(self).failed@.len() == old(self).failed@.len() + batch.len()
                    &&& final(self).failed@.take(old(self).failed@.len() as int)
                        == old(self).failed@
                    &&& forall|i: int|
                        0 <= i < batch.len() ==> (#[trigger] final(self).failed@[old(self).failed@.len() + i]).page@ == batch[i] && final(self).failed@[old(self).failed@.len() + i].error@ == message@
                }
            }),
    {
        let ghost before = *self;
        let mut batch: Vec<String> = match self.running.take() {
            Some(batch) => batch,
            None => Vec::new(),
        };
        let ghost names = text::texts(batch@);
        let ghost pending = self.pending();
        if is_context_error(message) && batch.len() > 1 {
            let middle: usize = batch.len() / 2 + batch.len() % 2;
            let right = batch.split_off(middle);
            let ghost left_names = text::texts(batch@);
            let ghost right_names = text::texts(right@);
            self.queue.insert(0, right);
            self.queue.insert(0, batch);
            proof {
                let half = (names.len() as int + 1) / 2;
                assert(middle == half);
                assert(left_names =~= names.take(half));
                assert(right_names =~= names.skip(half));
                assert(self.pending() =~= seq![left_names, right_names] + pending);
                lemma_split_account(self.pending(), left_names, right_names, pending);
                assert(left_names + right_names =~= names);
                vstd::seq_lib::lemma_multiset_commutative(names, pending.flatten());
                broadcast use vstd::seq_lib::group_to_multiset_ensures;

                assert(self.running_pages().to_multiset() =~= vstd::multiset::Multiset::empty());
                assert(self.account() =~= before.account());
                assert forall|i: int| 0 <= i < self.queue@.len() implies (
                #[trigger] self.queue@[i])@.len() > 0 by {
                    if i >= 2 {
                        assert(self.queue@[i] == before.queue@[i - 2]);
                    }
                }
                assert(before.remaining() =~= self.remaining());
                assert(self.failed_pages() =~= before.failed_pages());
            }
            return FailureStep::Split;
        }
        let ghost failed = self.failed@;
        let mut i: usize = 0;
        while i < batch.len()
            invariant
                i <= batch@.len(),
                names == text::texts(batch@),
                before == *old(self),
                failed == before.failed@,
                self.failed@.len() == failed.len() + i,
                self.failed@.take(failed.len() as int) == failed,
                forall|j: int|
                    0 <= j < i ==> (#[trigger] self.failed@[failed.len() + j]).page@ == names[j]
                        && self.failed@[failed.len() + j].error@ == message@,
                self.queue == before.queue,
                self.running is None,
                self.sequence == before.sequence,
                self.total == before.total,
                self.completed == before.completed,
                self.changed == before.changed,
                self.memory == before.memory,
                self.metrics == before.metrics,
            decreases batch@.len() - i,
        {
            let ghost was = self.failed@;
            self.failed.push(FailedPage { page: batch[i].clone(), error: message.to_owned() });
            proof {
                assert(self.failed@.take(failed.len() as int) =~= was.take(failed.len() as int));
                assert forall|j: int| 0 <= j < i + 1 implies (
                #[trigger] self.failed@[failed.len() + j]).page@ == names[j]
                    && self.failed@[failed.len() + j].error@ == message@ by {
                    if j < i {
                        assert(self.failed@[failed.len() + j] == was[failed.len() + j]);
                    }
                }
            }
            i += 1;
        }
        proof {
            broadcast use vstd::seq_lib::group_to_multiset_ensures;

            let was = before.failed_pages();
            assert(self.failed_pages() =~= was + names) by {
                assert forall|k: int| 0 <= k < was.len() implies self.failed_pages()[k] == was[k] by {
                    assert(self.failed@[k] == self.failed@.take(failed.len() as int)[k]);
                }
                assert forall|k: int| 0 <= k < names.len() implies self.failed_pages()[was.len() + k]
                    == names[k] by {
                    assert(self.failed@[failed.len() + k].page@ == names[k]);
                }
            }
            vstd::seq_lib::lemma_multiset_commutative(was, names);
            assert(self.running_pages().to_multiset() =~= vstd::multiset::Multiset::empty());
            assert(self.account() =~= before.account());
            assert(before.remaining() =~= names + self.remaining());
            assert forall|pages: Seq<Seq<char>>| #[trigger]
                before.in_order(pages) implies self.in_order(pages) by {
                lemma_stays_in_order(before, *self, names, pages);
            }
        }
        if cancelled {
            FailureStep::Abort
        } else {
            FailureStep::Skip
        }
    }
}

/// How many pages the batches have.
fn count_pages(queue: &Vec<Vec<String>>, Ghost(limit): Ghost<nat>) -> (n: usize)
    requires
        crate::bulk_review::plan::batch_texts(queue@).flatten().len() <= limit <= usize::MAX,
    ensures
        n == crate::bulk_review::plan::batch_texts(queue@).flatten().len(),
{
    let ghost batches = crate::bulk_review::plan::batch_texts(queue@);
    let mut n: usize = 0;
    let mut i: usize = 0;
    assert(batches.skip(0) =~= batches);
    while i < queue.len()
        invariant
            i <= queue@.len(),
            batches == crate::bulk_review::plan::batch_texts(queue@),
            batches.flatten().len() <= limit <= usize::MAX,
            n + batches.skip(i as int).flatten().len() == batches.flatten().len(),
        decreases queue@.len() - i,
    {
        proof {
            let rest = batches.skip(i as int);
            assert(rest.drop_first() =~= batches.skip(i + 1));
            assert(rest.flatten() == rest[0] + rest.drop_first().flatten());
            assert(rest[0] == text::texts(queue@[i as int]@));
        }
        n += queue[i].len();
        i += 1;
    }
    assert(batches.skip(i as int) =~= Seq::empty());
    n
}

proof fn lemma_runs_bound(batches: Seq<Seq<Seq<char>>>)
    requires
        forall|i: int| 0 <= i < batches.len() ==> (#[trigger] batches[i]).len() > 0,
    ensures
        runs_left(batches) <= 2 * batches.flatten().len(),
    decreases batches.len(),
{
    if batches.len() > 0 {
        assert forall|i: int| 0 <= i < batches.drop_first().len() implies (
        #[trigger] batches.drop_first()[i]).len() > 0 by {
            assert(batches.drop_first()[i] == batches[i + 1]);
        }
        lemma_runs_bound(batches.drop_first());
        assert(batches.flatten() == batches[0] + batches.drop_first().flatten());
    }
}

proof fn lemma_split_account(
    whole: Seq<Seq<Seq<char>>>,
    left: Seq<Seq<char>>,
    right: Seq<Seq<char>>,
    rest: Seq<Seq<Seq<char>>>,
)
    requires
        whole == seq![left, right] + rest,
        left.len() > 0,
        right.len() > 0,
    ensures
        whole.flatten() == left + right + rest.flatten(),
        runs_left(whole) == 2 * left.len() - 1 + 2 * right.len() - 1 + runs_left(rest),
{
    let tail = whole.drop_first();
    assert(tail =~= seq![right] + rest);
    assert(tail.drop_first() =~= rest);
    assert(whole[0] == left);
    assert(tail[0] == right);
    assert(whole.flatten() == left + tail.flatten());
    assert(tail.flatten() == right + rest.flatten());
    assert(runs_left(tail) == (2 * right.len() - 1) as nat + runs_left(rest));
    assert(runs_left(whole) == (2 * left.len() - 1) as nat + runs_left(tail));
    assert(left + (right + rest.flatten()) =~= left + right + rest.flatten());
}

proof fn lemma_order_of_prefix(part: Seq<Seq<char>>, whole: Seq<Seq<char>>, more: Seq<Seq<char>>)
    requires
        keeps_order(part, whole),
    ensures
        keeps_order(part, whole + more),
        keeps_order(part + more, whole + more),
    decreases more.len(),
{
    if more.len() == 0 {
        assert(part + more =~= part);
        assert(whole + more =~= whole);
    } else {
        lemma_order_of_prefix(part, whole, more.drop_last());
        assert((whole + more).drop_last() =~= whole + more.drop_last());
        assert((part + more).drop_last() =~= part + more.drop_last());
        assert((part + more).last() == (whole + more).last());
    }
}

/// A job that goes past a batch stays in order, whether its pages are done or failed.
proof fn lemma_stays_in_order(
    before: PageJob,
    after: PageJob,
    batch: Seq<Seq<char>>,
    pages: Seq<Seq<char>>,
)
    requires
        before.in_order(pages),
        before.remaining() == batch + after.remaining(),
        ({
            let done = text::texts(before.completed@);
            let failed = before.failed_pages();
            ||| text::texts(after.completed@) == done + batch && after.failed_pages() == failed
            ||| text::texts(after.completed@) == done && after.failed_pages() == failed + batch
        }),
    ensures
        after.in_order(pages),
{
    let was = pages.len() - before.remaining().len();
    let past = pages.len() - after.remaining().len();
    assert(pages.skip(was) == batch + after.remaining());
    assert(pages.skip(past) =~= after.remaining()) by {
        assert forall|i: int| 0 <= i < after.remaining().len() implies pages.skip(past)[i]
            == after.remaining()[i] by {
            assert(pages.skip(was)[batch.len() + i] == after.remaining()[i]);
        }
    }
    assert(pages.take(past) =~= pages.take(was) + batch) by {
        assert forall|i: int| 0 <= i < batch.len() implies pages[was + i] == batch[i] by {
            assert(pages.skip(was)[i] == batch[i]);
        }
    }
    lemma_order_of_prefix(text::texts(before.completed@), pages.take(was), batch);
    lemma_order_of_prefix(before.failed_pages(), pages.take(was), batch);
}

/// A job whose batches have all come to an end lists the pages that are done, and those that
/// failed, in the order of its pages.
pub proof fn lemma_ended_job_keeps_order(job: PageJob, pages: Seq<Seq<char>>)
    requires
        job.running is None,
        job.queue@.len() == 0,
        job.in_order(pages),
    ensures
        keeps_order(text::texts(job.completed@), pages),
        keeps_order(job.failed_pages(), pages),
{
    assert(job.pending() =~= Seq::empty());
    assert(job.remaining() =~= Seq::empty());
    assert(pages.take(pages.len() as int) =~= pages);
}

/// A job whose batches have all come to an end accounts for every page once.
pub proof fn lemma_ended_job_accounts(job: PageJob, pages: Seq<Seq<char>>)
    requires
        job.running is None,
        job.queue@.len() == 0,
        job.account() == text::distinct(pages).to_multiset(),
    ensures
        (text::texts(job.completed@) + job.failed_pages()).to_multiset() == text::distinct(
            pages,
        ).to_multiset(),
        job.completed@.len() + job.failed@.len() == text::distinct(pages).len(),
{
    broadcast use vstd::seq_lib::group_to_multiset_ensures;

    let done = text::texts(job.completed@);
    let failed = job.failed_pages();
    assert(job.pending() =~= Seq::empty());
    assert(job.pending().flatten().to_multiset() =~= vstd::multiset::Multiset::empty());
    assert(job.running_pages().to_multiset() =~= vstd::multiset::Multiset::empty());
    vstd::seq_lib::lemma_multiset_commutative(done, failed);
    assert(job.account() =~= (done + failed).to_multiset());
    assert((done + failed).len() == (done + failed).to_multiset().len());
    assert(text::distinct(pages).len() == text::distinct(pages).to_multiset().len());
}

/// Cutting a batch in two keeps the order of the pages that are still to run.
pub proof fn lemma_split_keeps_order(
    batch: Seq<Seq<char>>,
    half: int,
    pending: Seq<Seq<Seq<char>>>,
)
    requires
        0 < half < batch.len(),
    ensures
        (seq![batch.take(half), batch.skip(half)] + pending).flatten() == batch + pending.flatten(),
{
    lemma_split_account(
        seq![batch.take(half), batch.skip(half)] + pending,
        batch.take(half),
        batch.skip(half),
        pending,
    );
    assert(batch.take(half) + batch.skip(half) =~= batch);
}

/// What tells that a batch was too large for the model, in letters of either case: that its message
/// speaks of the context, of a token, or of something that is too long.
pub proof fn lemma_words_of_a_context_limit(message: Seq<char>)
    ensures
        ({
            let lower = crate::bulk_review::hints::lowercase(message);
            names_context_limit(message) <==> text::contains_text(lower, "context"@)
                || text::contains_text(lower, "token"@) || text::contains_text(lower, "too long"@)
        }),
{
}

} // verus!
