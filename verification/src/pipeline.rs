//! The per-file driver state: the running aggregate, the soft-error budget,
//! and the rule that crossing the budget stops ingestion while keeping what
//! was already aggregated.

use vstd::prelude::*;

use crate::corpus::{corpus_add, corpus_of_records};
use crate::record::{author_key, decode_record, record_of, Comment};
use crate::text::text_item::{tokens_of, utf8_of, TextItem};

verus! {

/// How many soft record failures one file may see before ingestion stops.
pub const ERROR_BUDGET: u64 = 10;

/// What one line turned into when only decoded, aggregation left to the
/// caller's batch.
pub enum TakeOutcome {
    /// The line was a record; its aggregation is the caller's to do.
    Record(Comment),
    /// The line was empty or malformed; the budget took the hit.
    SoftError,
    /// Ingestion for this file is over; the line was not decoded.
    Stopped,
}

/// What happened to one line.
pub enum LineOutcome {
    /// The line was a record and its counts were aggregated.
    Accepted,
    /// The line was empty or malformed; the budget took the hit.
    SoftError,
    /// Ingestion for this file is over; the line was not aggregated.
    Stopped,
}

/// One line's effect on the driver state.
pub open spec fn step(
    c: Map<Seq<u8>, Map<Seq<u8>, u64>>,
    errs: u64,
    stopped: bool,
    line: Seq<u8>,
) -> (Map<Seq<u8>, Map<Seq<u8>, u64>>, u64, bool) {
    if stopped {
        (c, errs, true)
    } else {
        match record_of(line) {
            Some(r) => (corpus_add(c, r.0, tokens_of(r.1)), errs, false),
            None => {
                if errs + 1 > ERROR_BUDGET {
                    (c, (errs + 1) as u64, true)
                } else {
                    (c, (errs + 1) as u64, false)
                }
            },
        }
    }
}

/// A whole sequence of lines' effect, first line first.
pub open spec fn run_lines(
    c: Map<Seq<u8>, Map<Seq<u8>, u64>>,
    errs: u64,
    stopped: bool,
    lines: Seq<Seq<u8>>,
) -> (Map<Seq<u8>, Map<Seq<u8>, u64>>, u64, bool)
    decreases lines.len(),
{
    if lines.len() == 0 {
        (c, errs, stopped)
    } else {
        let st = step(c, errs, stopped, lines[0]);
        run_lines(st.0, st.1, st.2, lines.drop_first())
    }
}

/// The driver for one input file.
pub struct Driver {
    pub item: TextItem,
    pub err_cnt: u64,
    pub stopped: bool,
}

impl Driver {
    pub open spec fn wf(&self) -> bool {
        &&& self.item.word_freqs.wf()
        &&& self.err_cnt <= ERROR_BUDGET + 1
        &&& !self.stopped ==> self.err_cnt <= ERROR_BUDGET
    }

    pub fn new() -> (r: Driver)
        ensures
            r.wf(),
            r.item.word_freqs@ == Map::<Seq<u8>, Map<Seq<u8>, u64>>::empty(),
            r.err_cnt == 0,
            !r.stopped,
    {
        Driver { item: TextItem::new(), err_cnt: 0, stopped: false }
    }

    /// Decodes one line and charges the budget, without touching the
    /// corpus: the caller batches and aggregates the records it gets back.
    pub fn take_line(&mut self, line: &Vec<u8>) -> (r: TakeOutcome)
        requires
            old(self).wf(),
        ensures
            final(self).wf(),
            final(self).item == old(self).item,
            old(self).stopped ==> *final(self) == *old(self) && r is Stopped,
            !old(self).stopped && record_of(line@) is Some ==> final(self).err_cnt == old(
                self,
            ).err_cnt && !final(self).stopped && (r matches TakeOutcome::Record(c) && record_of(
                line@,
            ) == Some((utf8_of(c.author@), c.body@))),
            !old(self).stopped && record_of(line@) is None ==> final(self).err_cnt == old(
                self,
            ).err_cnt + 1 && final(self).stopped == (old(self).err_cnt + 1 > ERROR_BUDGET) && (
            r is Stopped <==> final(self).stopped) && (r is SoftError <==> !final(self).stopped),
    {
        if self.stopped {
            return TakeOutcome::Stopped;
        }
        match decode_record(line.as_slice()) {
            Some(c) => TakeOutcome::Record(c),
            None => {
                self.err_cnt = self.err_cnt + 1;
                if self.err_cnt > ERROR_BUDGET {
                    self.stopped = true;
                    TakeOutcome::Stopped
                } else {
                    TakeOutcome::SoftError
                }
            },
        }
    }

    /// Feeds one line to the driver: aggregate it, charge the budget, or
    /// refuse it because ingestion already stopped.
    pub fn accept_line(&mut self, line: &Vec<u8>) -> (r: LineOutcome)
        requires
            old(self).wf(),
        ensures
            final(self).wf(),
            ({
                let st = step(
                    old(self).item.word_freqs@,
                    old(self).err_cnt,
                    old(self).stopped,
                    line@,
                );
                &&& final(self).item.word_freqs@ == st.0
                &&& final(self).err_cnt == st.1
                &&& final(self).stopped == st.2
            }),
            r is Stopped <==> final(self).stopped,
            r is Accepted <==> (!old(self).stopped && record_of(line@) is Some),
    {
        match self.take_line(line) {
            TakeOutcome::Record(c) => {
                let key = author_key(&c);
                let wc = TextItem::process_alt(c.body.as_str());
                self.item.word_freqs.add_counts(key, wc);
                LineOutcome::Accepted
            },
            TakeOutcome::SoftError => LineOutcome::SoftError,
            TakeOutcome::Stopped => LineOutcome::Stopped,
        }
    }
}

/// A stopped driver absorbs everything: no line changes it again.
pub proof fn lemma_stopped_absorbs(
    c: Map<Seq<u8>, Map<Seq<u8>, u64>>,
    errs: u64,
    lines: Seq<Seq<u8>>,
)
    ensures
        run_lines(c, errs, true, lines) == (c, errs, true),
    decreases lines.len(),
{
    if lines.len() > 0 {
        lemma_stopped_absorbs(c, errs, lines.drop_first());
    }
}

/// Lines run in two legs: the state after the first leg feeds the second.
pub proof fn lemma_run_append(
    c: Map<Seq<u8>, Map<Seq<u8>, u64>>,
    errs: u64,
    stopped: bool,
    l1: Seq<Seq<u8>>,
    l2: Seq<Seq<u8>>,
)
    ensures
        ({
            let st = run_lines(c, errs, stopped, l1);
            run_lines(c, errs, stopped, l1 + l2) == run_lines(st.0, st.1, st.2, l2)
        }),
    decreases l1.len(),
{
    if l1.len() == 0 {
        assert(l1 + l2 =~= l2);
    } else {
        let st0 = step(c, errs, stopped, l1[0]);
        assert((l1 + l2).drop_first() =~= l1.drop_first() + l2);
        assert((l1 + l2)[0] == l1[0]);
        lemma_run_append(st0.0, st0.1, st0.2, l1.drop_first(), l2);
    }
}

/// Valid records spend no budget: the driver stays live and its error count
/// stays put.
pub proof fn lemma_run_good(
    c: Map<Seq<u8>, Map<Seq<u8>, u64>>,
    errs: u64,
    good: Seq<Seq<u8>>,
)
    requires
        forall|i: int| 0 <= i < good.len() ==> record_of(#[trigger] good[i]) is Some,
    ensures
        run_lines(c, errs, false, good).1 == errs,
        run_lines(c, errs, false, good).2 == false,
    decreases good.len(),
{
    if good.len() > 0 {
        let st = step(c, errs, false, good[0]);
        assert(record_of(good[0]) is Some);
        assert forall|i: int| 0 <= i < good.drop_first().len() implies record_of(
            #[trigger] good.drop_first()[i],
        ) is Some by {
            assert(good.drop_first()[i] == good[i + 1]);
        }
        lemma_run_good(st.0, st.1, good.drop_first());
    }
}

/// The tokenized records a sequence of valid lines stands for.
pub open spec fn records_of_lines(lines: Seq<Seq<u8>>) -> Seq<(Seq<u8>, Map<Seq<u8>, u64>)> {
    lines.map_values(
        |l: Seq<u8>|
            {
                let r = record_of(l)->Some_0;
                (r.0, tokens_of(r.1))
            },
    )
}

/// Valid lines build exactly their records' corpus: the run of the driver
/// meets the merge algebra's fold.
pub proof fn lemma_run_good_corpus(good: Seq<Seq<u8>>)
    requires
        forall|i: int| 0 <= i < good.len() ==> record_of(#[trigger] good[i]) is Some,
    ensures
        run_lines(Map::empty(), 0, false, good).0 == corpus_of_records(records_of_lines(good)),
    decreases good.len(),
{
    if good.len() == 0 {
        assert(records_of_lines(good) =~= Seq::<(Seq<u8>, Map<Seq<u8>, u64>)>::empty());
    } else {
        let gp = good.drop_last();
        assert forall|i: int| 0 <= i < gp.len() implies record_of(#[trigger] gp[i]) is Some by {
            assert(gp[i] == good[i]);
        }
        lemma_run_good_corpus(gp);
        lemma_run_good(Map::empty(), 0, gp);
        lemma_run_append(Map::empty(), 0, false, gp, seq![good.last()]);
        assert(gp + seq![good.last()] =~= good);
        let stg = run_lines(Map::<Seq<u8>, Map<Seq<u8>, u64>>::empty(), 0, false, gp);
        let last = good.last();
        assert(record_of(last) is Some);
        let st = step(stg.0, stg.1, stg.2, last);
        assert(run_lines(stg.0, stg.1, stg.2, seq![last]) == run_lines(
            st.0,
            st.1,
            st.2,
            seq![last].drop_first(),
        ));
        assert(seq![last].drop_first() =~= Seq::<Seq<u8>>::empty());
        assert(records_of_lines(good).drop_last() =~= records_of_lines(gp));
        assert(records_of_lines(good).last() == (
            record_of(last)->Some_0.0,
            tokens_of(record_of(last)->Some_0.1),
        ));
    }
}

/// Bad lines beyond the budget stop the driver without touching the corpus.
pub proof fn lemma_run_bad(
    c: Map<Seq<u8>, Map<Seq<u8>, u64>>,
    errs: u64,
    bad: Seq<Seq<u8>>,
)
    requires
        forall|i: int| 0 <= i < bad.len() ==> record_of(#[trigger] bad[i]) is None,
        errs <= ERROR_BUDGET,
        errs + bad.len() > ERROR_BUDGET,
    ensures
        run_lines(c, errs, false, bad).0 == c,
        run_lines(c, errs, false, bad).2 == true,
    decreases bad.len(),
{
    let st = step(c, errs, false, bad[0]);
    assert(record_of(bad[0]) is None);
    assert(st.0 == c);
    assert forall|i: int| 0 <= i < bad.drop_first().len() implies record_of(
        #[trigger] bad.drop_first()[i],
    ) is None by {
        assert(bad.drop_first()[i] == bad[i + 1]);
    }
    if errs + 1 > ERROR_BUDGET {
        lemma_stopped_absorbs(c, st.1, bad.drop_first());
    } else {
        lemma_run_bad(c, st.1, bad.drop_first());
    }
}

/// Error-budget termination: after any run of valid records followed by
/// more bad lines than the budget allows, the corpus is exactly what the
/// valid records built, ingestion is stopped, and whatever follows is never
/// aggregated.
pub proof fn lemma_error_budget(good: Seq<Seq<u8>>, bad: Seq<Seq<u8>>, rest: Seq<Seq<u8>>)
    requires
        forall|i: int| 0 <= i < good.len() ==> record_of(#[trigger] good[i]) is Some,
        forall|i: int| 0 <= i < bad.len() ==> record_of(#[trigger] bad[i]) is None,
        bad.len() > ERROR_BUDGET,
    ensures
        ({
            let all = run_lines(Map::empty(), 0, false, good + bad + rest);
            let g = run_lines(Map::empty(), 0, false, good);
            all.0 == g.0 && all.2 == true && all.0 == corpus_of_records(records_of_lines(good))
        }),
{
    lemma_run_good_corpus(good);
    let g = run_lines(Map::<Seq<u8>, Map<Seq<u8>, u64>>::empty(), 0, false, good);
    lemma_run_good(Map::empty(), 0, good);
    lemma_run_append(Map::empty(), 0, false, good, bad);
    lemma_run_bad(g.0, g.1, bad);
    let gb = run_lines(Map::<Seq<u8>, Map<Seq<u8>, u64>>::empty(), 0, false, good + bad);
    lemma_run_append(Map::empty(), 0, false, good + bad, rest);
    lemma_stopped_absorbs(gb.0, gb.1, rest);
    assert(good + bad + rest =~= (good + bad) + rest);
}

} // verus!
