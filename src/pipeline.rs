//! Per-file work (decode, parse, filter) and the single point where its
//! results meet the retained set and the run's counters.
use vstd::prelude::*;
use crate::decode::{decode_file, gunzip_of, is_line_split};
use vstd::utf8::{decode_utf8, valid_utf8};
use crate::parse::{line_makes_work, parse_line, work_of_line};
use crate::record::{relevant, RelevanceConfig, WorkObject};
use crate::topk::{is_run, sorted_desc, TopKAggregator};
use crate::vecs::reversed;

verus! {

/// A file that is not one complete gzip stream.
pub struct DecodeError {}

/// What one file gave: the works that passed the predicate, in line order,
/// and how many lines it had, how many parsed, how many did not.
pub struct FileReport {
    pub accepted: Vec<WorkObject>,
    pub lines: usize,
    pub evaluated: usize,
    pub parse_failures: usize,
}

/// How many lines parsed into a work.
pub open spec fn count_parsed(outcomes: Seq<Option<WorkObject>>) -> nat
    decreases outcomes.len(),
{
    if outcomes.len() == 0 {
        0
    } else {
        count_parsed(outcomes.drop_last()) + if outcomes.last() is Some { 1nat } else { 0nat }
    }
}

/// The parsed works that pass the predicate, in order.
pub open spec fn accepted_of(outcomes: Seq<Option<WorkObject>>, config: RelevanceConfig) -> Seq<WorkObject>
    decreases outcomes.len(),
{
    if outcomes.len() == 0 {
        Seq::empty()
    } else {
        let rest = accepted_of(outcomes.drop_last(), config);
        match outcomes.last() {
            Some(w) => if relevant(w, config) { rest.push(w) } else { rest },
            None => rest,
        }
    }
}

/// Every accepted work passes the predicate, and no more works are
/// accepted than parsed, nor parsed than there are lines.
pub proof fn lemma_accepted_relevant(outcomes: Seq<Option<WorkObject>>, config: RelevanceConfig)
    ensures
        accepted_of(outcomes, config).len() <= count_parsed(outcomes),
        count_parsed(outcomes) <= outcomes.len(),
        forall|i: int|
            0 <= i < accepted_of(outcomes, config).len() ==> relevant(
                #[trigger] accepted_of(outcomes, config)[i],
                config,
            ),
    decreases outcomes.len(),
{
    if outcomes.len() > 0 {
        lemma_accepted_relevant(outcomes.drop_last(), config);
    }
}

/// A file whose lines all parse but one yields one work fewer than it has
/// lines, and one failure.
pub proof fn lemma_one_malformed_line(outcomes: Seq<Option<WorkObject>>, bad: int)
    requires
        0 <= bad < outcomes.len(),
        outcomes[bad] is None,
        forall|i: int| 0 <= i < outcomes.len() && i != bad ==> #[trigger] outcomes[i] is Some,
    ensures
        count_parsed(outcomes) == outcomes.len() - 1,
    decreases outcomes.len(),
{
    if bad == outcomes.len() - 1 {
        lemma_all_parsed(outcomes.drop_last());
    } else {
        assert(outcomes.drop_last()[bad] is None);
        assert forall|i: int| 0 <= i < outcomes.drop_last().len() && i != bad implies #[trigger] outcomes.drop_last()[i] is Some by {
            assert(outcomes[i] is Some);
        }
        lemma_one_malformed_line(outcomes.drop_last(), bad);
        assert(outcomes[outcomes.len() - 1] is Some);
    }
}

proof fn lemma_all_parsed(outcomes: Seq<Option<WorkObject>>)
    requires
        forall|i: int| 0 <= i < outcomes.len() ==> #[trigger] outcomes[i] is Some,
    ensures
        count_parsed(outcomes) == outcomes.len(),
    decreases outcomes.len(),
{
    if outcomes.len() > 0 {
        assert forall|i: int| 0 <= i < outcomes.drop_last().len() implies #[trigger] outcomes.drop_last()[i] is Some by {
            assert(outcomes[i] is Some);
        }
        lemma_all_parsed(outcomes.drop_last());
        assert(outcomes[outcomes.len() - 1] is Some);
    }
}

/// Counts the outcomes of a file's lines and keeps the works that pass the
/// predicate.
pub fn evaluate_outcomes(outcomes: Vec<Option<WorkObject>>, config: &RelevanceConfig) -> (r: FileReport)
    ensures
        r.lines == outcomes@.len(),
        r.evaluated == count_parsed(outcomes@),
        r.parse_failures == outcomes@.len() - count_parsed(outcomes@),
        r.accepted@ == accepted_of(outcomes@, *config),
{
    let ghost all = outcomes@;
    let n = outcomes.len();
    let mut rest = reversed(outcomes);
    let mut accepted: Vec<WorkObject> = Vec::new();
    let mut evaluated: usize = 0;
    let mut i: usize = 0;
    while i < n
        invariant
            n == all.len(),
            i <= n,
            rest@.len() == n - i,
            forall|j: int| 0 <= j < rest@.len() ==> #[trigger] rest@[j] == all[n - 1 - j],
            evaluated == count_parsed(all.take(i as int)),
            evaluated <= i,
            accepted@ == accepted_of(all.take(i as int), *config),
        decreases n - i,
    {
        let o = rest.pop().unwrap();
        assert(o == all[i as int]);
        assert(all.take(i + 1).drop_last() =~= all.take(i as int));
        match o {
            Some(w) => {
                evaluated += 1;
                if w.is_relevant(config) {
                    accepted.push(w);
                }
            },
            None => {},
        }
        i += 1;
    }
    assert(all.take(n as int) =~= all);
    FileReport { accepted, lines: n, evaluated, parse_failures: n - evaluated }
}

/// Parses each line that decoded as text; a line that did not decode
/// gives `None`.
pub fn parse_texts(texts: Vec<Option<String>>) -> (r: Vec<Option<WorkObject>>)
    ensures
        r@.len() == texts@.len(),
        forall|i: int| 0 <= i < texts@.len() && texts@[i] is None ==> #[trigger] r@[i] is None,
        forall|i: int|
            0 <= i < texts@.len() && (texts@[i] matches Some(t)) ==> (#[trigger] r@[i] is Some <==> line_makes_work(
                texts@[i]->0@,
            )),
        forall|i: int|
            0 <= i < texts@.len() && #[trigger] r@[i] is Some ==> (texts@[i] is Some && work_of_line(
                r@[i]->0,
                texts@[i]->0@,
            )),
{
    let ghost all = texts@;
    let n = texts.len();
    let mut rest = reversed(texts);
    let mut out: Vec<Option<WorkObject>> = Vec::new();
    let mut i: usize = 0;
    while i < n
        invariant
            n == all.len(),
            i <= n,
            rest@.len() == n - i,
            forall|j: int| 0 <= j < rest@.len() ==> #[trigger] rest@[j] == all[n - 1 - j],
            out@.len() == i,
            forall|k: int| 0 <= k < i && all[k] is None ==> #[trigger] out@[k] is None,
            forall|k: int| 0 <= k < i && all[k] is Some ==> (#[trigger] out@[k] is Some <==> line_makes_work(all[k]->0@)),
            forall|k: int| 0 <= k < i && #[trigger] out@[k] is Some ==> (all[k] is Some && work_of_line(out@[k]->0, all[k]->0@)),
        decreases n - i,
    {
        let t = rest.pop().unwrap();
        assert(t == all[i as int]);
        let o = match t {
            Some(text) => parse_line(text.as_str()),
            None => None,
        };
        out.push(o);
        i += 1;
    }
    out
}

/// Each outcome is what its line gives: a work exactly when the line is
/// UTF-8 text whose JSON makes a work, and then that work.
pub open spec fn outcomes_of_lines(lines: Seq<Vec<u8>>, outcomes: Seq<Option<WorkObject>>) -> bool {
    &&& outcomes.len() == lines.len()
    &&& forall|i: int|
        0 <= i < lines.len() ==> (#[trigger] outcomes[i] is Some <==> (valid_utf8(lines[i]@)
            && line_makes_work(decode_utf8(lines[i]@))))
    &&& forall|i: int|
        0 <= i < lines.len() && #[trigger] outcomes[i] is Some ==> work_of_line(
            outcomes[i]->0,
            decode_utf8(lines[i]@),
        )
}

/// Decodes, parses and filters one compressed file.
pub fn process_file(data: &Vec<u8>, config: &RelevanceConfig) -> (r: Result<FileReport, DecodeError>)
    ensures
        r is Err <==> gunzip_of(data@) is None,
        r matches Ok(rep) ==> exists|lines: Seq<Vec<u8>>, outcomes: Seq<Option<WorkObject>>|
            {
                &&& is_line_split(gunzip_of(data@)->0, lines)
                &&& outcomes_of_lines(lines, outcomes)
                &&& rep.lines == lines.len()
                &&& rep.evaluated == count_parsed(outcomes)
                &&& rep.parse_failures == lines.len() - count_parsed(outcomes)
                &&& rep.accepted@ == accepted_of(outcomes, *config)
            },
        r matches Ok(rep) ==> forall|i: int|
            0 <= i < rep.accepted@.len() ==> relevant(#[trigger] rep.accepted@[i], *config),
{
    let texts = match decode_file(data) {
        Some(t) => t,
        None => return Err(DecodeError {}),
    };
    let ghost lines = choose|lines: Seq<Vec<u8>>|
        {
            &&& is_line_split(gunzip_of(data@)->0, lines)
            &&& texts@.len() == lines.len()
            &&& forall|i: int|
                0 <= i < lines.len() ==> (#[trigger] texts@[i] is Some <==> valid_utf8(lines[i]@))
            &&& forall|i: int|
                0 <= i < lines.len() ==> (#[trigger] texts@[i] matches Some(s) ==> s@ == decode_utf8(lines[i]@))
        };
    let ghost text_seq = texts@;
    let outcomes = parse_texts(texts);
    proof {
        lemma_accepted_relevant(outcomes@, *config);
        assert forall|i: int| 0 <= i < lines.len() implies (#[trigger] outcomes@[i] is Some <==> (valid_utf8(
            lines[i]@,
        ) && line_makes_work(decode_utf8(lines[i]@)))) by {
            if text_seq[i] is Some {
                assert(text_seq[i]->0@ == decode_utf8(lines[i]@));
            }
        }
        assert forall|i: int| 0 <= i < lines.len() && #[trigger] outcomes@[i] is Some implies work_of_line(
            outcomes@[i]->0,
            decode_utf8(lines[i]@),
        ) by {
            assert(text_seq[i]->0@ == decode_utf8(lines[i]@));
        }
        assert(outcomes_of_lines(lines, outcomes@));
    }
    let ghost os = outcomes@;
    let rep = evaluate_outcomes(outcomes, config);
    assert(outcomes_of_lines(lines, os));
    Ok(rep)
}

/// The counters a run reports at its end.
pub struct RunSummary {
    pub files_seen: u64,
    pub files_skipped: u64,
    pub lines_read: u64,
    pub lines_rejected: u64,
    pub records_evaluated: u64,
    pub records_accepted: u64,
    pub retained: u64,
}

/// A run in progress: the retained set and the counters, changed only
/// through its methods, one file at a time.
pub struct Aggregation {
    pub retained: TopKAggregator,
    pub summary: RunSummary,
}

impl Aggregation {
    pub fn new(top_k: Option<usize>) -> (r: Aggregation)
        ensures
            r.retained@ == Seq::<WorkObject>::empty(),
            r.retained.cap() == top_k,
            r.summary == (RunSummary {
                files_seen: 0,
                files_skipped: 0,
                lines_read: 0,
                lines_rejected: 0,
                records_evaluated: 0,
                records_accepted: 0,
                retained: 0,
            }),
    {
        Aggregation {
            retained: TopKAggregator::new(top_k),
            summary: RunSummary {
                files_seen: 0,
                files_skipped: 0,
                lines_read: 0,
                lines_rejected: 0,
                records_evaluated: 0,
                records_accepted: 0,
                retained: 0,
            },
        }
    }

    /// Counts a file that could not be opened or read.
    pub fn record_unreadable(&mut self)
        ensures
            final(self).retained == old(self).retained,
            final(self).summary == (RunSummary {
                files_seen: old(self).summary.files_seen.saturating_add(1),
                files_skipped: old(self).summary.files_skipped.saturating_add(1),
                ..old(self).summary
            }),
    {
        self.summary.files_seen = self.summary.files_seen.saturating_add(1);
        self.summary.files_skipped = self.summary.files_skipped.saturating_add(1);
    }

    /// Takes in what one file gave: a file that did not decode is counted
    /// as skipped; otherwise its counts are added and its accepted works
    /// are offered to the retained set in order.
    pub fn record_file(&mut self, outcome: Result<FileReport, DecodeError>)
        ensures
            final(self).retained.cap() == old(self).retained.cap(),
            final(self).summary.retained == old(self).summary.retained,
            final(self).summary.files_seen == old(self).summary.files_seen.saturating_add(1),
            outcome is Err ==> {
                &&& final(self).retained@ == old(self).retained@
                &&& final(self).summary == (RunSummary {
                    files_seen: old(self).summary.files_seen.saturating_add(1),
                    files_skipped: old(self).summary.files_skipped.saturating_add(1),
                    ..old(self).summary
                })
            },
            outcome matches Ok(rep) ==> {
                &&& exists|states: Seq<Seq<WorkObject>>|
                    is_run(old(self).retained@, old(self).retained.cap(), rep.accepted@, states)
                        && states.last() == final(self).retained@
                &&& final(self).summary.files_skipped == old(self).summary.files_skipped
                &&& final(self).summary.lines_read == old(self).summary.lines_read.saturating_add(rep.lines as u64)
                &&& final(self).summary.lines_rejected == old(self).summary.lines_rejected.saturating_add(rep.parse_failures as u64)
                &&& final(self).summary.records_evaluated == old(self).summary.records_evaluated.saturating_add(rep.evaluated as u64)
                &&& final(self).summary.records_accepted == old(self).summary.records_accepted.saturating_add(rep.accepted@.len() as u64)
            },
    {
        match outcome {
            Err(_) => {
                self.record_unreadable();
            },
            Ok(rep) => {
                let s = &mut self.summary;
                s.files_seen = s.files_seen.saturating_add(1);
                s.lines_read = s.lines_read.saturating_add(rep.lines as u64);
                s.lines_rejected = s.lines_rejected.saturating_add(rep.parse_failures as u64);
                s.records_evaluated = s.records_evaluated.saturating_add(rep.evaluated as u64);
                s.records_accepted = s.records_accepted.saturating_add(rep.accepted.len() as u64);
                self.retained.offer_all(rep.accepted);
            },
        }
    }

    /// Ends the run: the retained works, highest score first, and the
    /// counters with the number retained.
    pub fn finish(self) -> (r: (Vec<WorkObject>, RunSummary))
        ensures
            r.0@.to_multiset() == self.retained@.to_multiset(),
            sorted_desc(r.0@),
            r.1 == (RunSummary { retained: self.retained@.len() as u64, ..self.summary }),
    {
        let summary = self.summary;
        let works = self.retained.into_sorted();
        proof {
            vstd::seq_lib::to_multiset_len(works@);
            vstd::seq_lib::to_multiset_len(self.retained@);
        }
        let retained = works.len() as u64;
        (works, RunSummary { retained, ..summary })
    }
}

} // verus!
