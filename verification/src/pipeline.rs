use crate::errors::{DecodeError, ExtractError, StoreError};
use crate::extract::{expression_key, literal_key, KeyExtractor, Strategy};
use crate::record::{json_decode, Record};
use crate::stager::{entry_cost, total_cost, Stager};
use crate::stream::{line_end, next_record_line, RecordReader, SNIPPET_LIMIT};
use vstd::prelude::*;

verus! {

/// What the pipeline owner chose to do with per-record failures.
#[derive(Debug, Clone, Copy, PartialEq, Eq, Structural)]
pub enum ErrorPolicy {
    /// The first malformed or unextractable record aborts the run.
    AbortOnFirst,
    /// Malformed or unextractable records are collected and the run goes on.
    SkipAndContinue,
}

/// One per-record failure, attached to the byte offset of its record.
#[derive(Debug, PartialEq)]
pub enum Issue {
    Decode(DecodeError),
    Extract(usize, ExtractError),
}

/// Mathematical form of one per-record failure.
pub ghost enum IssueV {
    Decode(int, Seq<u8>),
    Extract(int, ExtractError),
}

pub open spec fn iv(x: Issue) -> IssueV {
    match x {
        Issue::Decode(d) => IssueV::Decode(d.offset as int, d.snippet@),
        Issue::Extract(o, e) => IssueV::Extract(o as int, e),
    }
}

pub open spec fn iviews(s: Seq<Issue>) -> Seq<IssueV> {
    Seq::new(s.len(), |i: int| iv(s[i]))
}

/// What staging one source yields overall, or the error that stopped it.
pub struct StageReport {
    /// How many records were extracted and staged.
    pub staged_count: u64,
    /// The per-record failures that were skipped, in source order.
    pub issues: Vec<Issue>,
}

/// A fatal pipeline failure.
#[derive(Debug, PartialEq)]
pub enum PipelineError {
    /// First malformed record under the abort-on-first policy.
    Decode(DecodeError),
    /// First unextractable record under the abort-on-first policy, with the
    /// byte offset of its record.
    Extract(usize, ExtractError),
    /// The staging store failed; always fatal to the run.
    Store(StoreError),
}

/// The join key the configured extractor assigns to a decoded record, if
/// any: the literal strategy reads the record, the expression strategy reads
/// the record's exact text.
pub open spec fn extract_outcome(kx: KeyExtractor, rec: Record, line: Seq<u8>) -> Option<Seq<u8>> {
    match kx.strategy {
        Strategy::Literal => literal_key(rec, kx.fields@),
        Strategy::Expression => expression_key(kx.sources(), line),
    }
}

/// The error variant extraction failure carries under each strategy.
pub open spec fn extract_failure(kx: KeyExtractor) -> ExtractError {
    match kx.strategy {
        Strategy::Literal => ExtractError::MissingOrNonString,
        Strategy::Expression => ExtractError::QueryFailed,
    }
}

pub proof fn lemma_line_end_bounds(s: Seq<u8>, from: int)
    requires
        0 <= from <= s.len(),
    ensures
        from <= line_end(s, from) <= s.len(),
    decreases s.len() - from,
{
    if from < s.len() && s[from] != 10u8 {
        lemma_line_end_bounds(s, from + 1);
    }
}

pub proof fn lemma_next_record_line_bounds(s: Seq<u8>, from: int)
    requires
        0 <= from,
    ensures
        match next_record_line(s, from) {
            Some(ab) => from <= ab.0 < s.len() && ab.0 < ab.1 <= s.len() && ab.1 == line_end(
                s,
                ab.0,
            ),
            None => true,
        },
    decreases s.len() - from,
{
    if from < s.len() {
        if s[from] == 10u8 {
            lemma_next_record_line_bounds(s, from + 1);
        } else {
            lemma_line_end_bounds(s, from + 1);
        }
    }
}

/// The records staged and the failures seen when one source is read from
/// `from` to its end under the given policy: pairs of (join key, record
/// text) for the records whose decode and extraction succeed, and one issue
/// per failure — all of them under skip-and-continue, only the first under
/// abort-on-first, which stops the run.
pub open spec fn run_spec(kx: KeyExtractor, s: Seq<u8>, from: int, skip: bool) -> (
    Seq<(Seq<u8>, Seq<u8>)>,
    Seq<IssueV>,
)
    decreases s.len() - from
        when 0 <= from via run_spec_dec
{
    match next_record_line(s, from) {
        None => (Seq::empty(), Seq::empty()),
        Some(ab) => {
            let line = s.subrange(ab.0, ab.1);
            let nxt = if ab.1 == s.len() {
                ab.1
            } else {
                ab.1 + 1
            };
            match json_decode(line) {
                None => {
                    let snip = s.subrange(
                        ab.0,
                        if ab.1 - ab.0 <= SNIPPET_LIMIT as int {
                            ab.1
                        } else {
                            ab.0 + SNIPPET_LIMIT as int
                        },
                    );
                    if skip {
                        let rest = run_spec(kx, s, nxt, skip);
                        (rest.0, seq![IssueV::Decode(ab.0, snip)] + rest.1)
                    } else {
                        (Seq::empty(), seq![IssueV::Decode(ab.0, snip)])
                    }
                },
                Some(rec) => match extract_outcome(kx, rec, line) {
                    None => {
                        if skip {
                            let rest = run_spec(kx, s, nxt, skip);
                            (rest.0, seq![IssueV::Extract(ab.0, extract_failure(kx))] + rest.1)
                        } else {
                            (Seq::empty(), seq![IssueV::Extract(ab.0, extract_failure(kx))])
                        }
                    },
                    Some(k) => {
                        let rest = run_spec(kx, s, nxt, skip);
                        (seq![(k, line)] + rest.0, rest.1)
                    },
                },
            }
        },
    }
}

#[via_fn]
proof fn run_spec_dec(kx: KeyExtractor, s: Seq<u8>, from: int, skip: bool) {
    lemma_next_record_line_bounds(s, from);
}

/// Reads one newline-delimited source, extracts each record's join key, and
/// stages every successful record into a fresh store at `path`, committing
/// the whole source as one transaction. Per-record failures follow the
/// chosen policy; store failures are always fatal and lose nothing already
/// committed elsewhere.
pub fn stage_all(
    path: &str,
    ceiling: u64,
    kx: &KeyExtractor,
    src: &[u8],
    policy: ErrorPolicy,
) -> (r: Result<(Stager, StageReport), PipelineError>)
    requires
        kx.wf(),
    ensures
        ({
            let skip = policy == ErrorPolicy::SkipAndContinue;
            let outcome = run_spec(*kx, src@, 0, skip);
            match r {
                Ok(pair) => {
                    &&& pair.0.wf()
                    &&& pair.0.is_committed()
                    &&& pair.0.capacity() == ceiling
                    &&& pair.0.staged() == outcome.0
                    &&& iviews(pair.1.issues@) == outcome.1
                    &&& pair.1.staged_count == outcome.0.len()
                    &&& (policy == ErrorPolicy::AbortOnFirst ==> outcome.1.len() == 0)
                },
                Err(PipelineError::Decode(d)) => policy == ErrorPolicy::AbortOnFirst
                    && outcome.1.len() > 0 && outcome.1[0] == IssueV::Decode(
                    d.offset as int,
                    d.snippet@,
                ),
                Err(PipelineError::Extract(o, e)) => policy == ErrorPolicy::AbortOnFirst
                    && outcome.1.len() > 0 && outcome.1[0] == IssueV::Extract(o as int, e),
                Err(PipelineError::Store(e)) => e != StoreError::AlreadyCommitted && (e
                    == StoreError::CapacityExceeded ==> exists|n: int|
                    0 <= n < outcome.0.len() && total_cost(outcome.0.take(n)) + entry_cost(
                        (#[trigger] outcome.0[n]).0,
                        outcome.0[n].1,
                    ) > ceiling),
            }
        }),
{
    let ghost skip = policy == ErrorPolicy::SkipAndContinue;
    let mut stager = match Stager::open_fresh(path, ceiling) {
        Ok(st) => st,
        Err(e) => {
            return Err(PipelineError::Store(e));
        },
    };
    let mut reader = RecordReader::open(src);
    let mut issues: Vec<Issue> = Vec::new();
    let mut count: u64 = 0;
    proof {
        assert(iviews(issues@) =~= Seq::<IssueV>::empty());
        assert(stager.staged() + run_spec(*kx, src@, 0, skip).0 =~= run_spec(*kx, src@, 0, skip).0);
        assert(iviews(issues@) + run_spec(*kx, src@, 0, skip).1 =~= run_spec(*kx, src@, 0, skip).1);
    }
    loop
        invariant
            kx.wf(),
            reader.wf(),
            reader.src@ == src@,
            stager.wf(),
            !stager.is_committed(),
            !stager.is_poisoned(),
            stager.capacity() == ceiling,
            skip == (policy == ErrorPolicy::SkipAndContinue),
            run_spec(*kx, src@, 0, skip).0 == stager.staged() + run_spec(
                *kx,
                src@,
                reader.pos as int,
                skip,
            ).0,
            run_spec(*kx, src@, 0, skip).1 == iviews(issues@) + run_spec(
                *kx,
                src@,
                reader.pos as int,
                skip,
            ).1,
            count == stager.staged().len(),
            policy == ErrorPolicy::AbortOnFirst ==> issues@.len() == 0,
        decreases src@.len() - reader.pos,
    {
        let ghost pos0 = reader.pos as int;
        let ghost rest = run_spec(*kx, src@, pos0, skip);
        match reader.next() {
            Ok(None) => {
                proof {
                    assert(rest.0 =~= Seq::<(Seq<u8>, Seq<u8>)>::empty());
                    assert(rest.1 =~= Seq::<IssueV>::empty());
                    assert(stager.staged() + rest.0 =~= stager.staged());
                    assert(iviews(issues@) + rest.1 =~= iviews(issues@));
                }
                match stager.commit() {
                    Ok(_) => {
                        return Ok(
                            (stager, StageReport { staged_count: count, issues }),
                        );
                    },
                    Err(e) => {
                        return Err(PipelineError::Store(e));
                    },
                }
            },
            Ok(Some(item)) => {
                let ghost ab = next_record_line(src@, pos0).unwrap();
                let ghost line = src@.subrange(ab.0, ab.1);
                let ghost nxt = if ab.1 == src@.len() {
                    ab.1
                } else {
                    ab.1 + 1
                };
                let ghost restn = run_spec(*kx, src@, nxt, skip);
                proof {
                    lemma_next_record_line_bounds(src@, pos0);
                    assert(item.raw@ == line);
                    assert(json_decode(line) == Some(item.record));
                }
                match kx.extract(&item.record, &item.raw) {
                    Ok(key) => {
                        proof {
                            assert(extract_outcome(*kx, item.record, line) == Some(key@));
                            assert(rest.0 == seq![(key@, line)] + restn.0);
                            assert(rest.1 == restn.1);
                        }
                        let ghost staged0 = stager.staged();
                        match stager.stage(key, item.raw) {
                            Ok(_) => {},
                            Err(e) => {
                                proof {
                                    let full = run_spec(*kx, src@, 0, skip).0;
                                    let n = staged0.len() as int;
                                    assert(full == staged0 + rest.0);
                                    assert(rest.0 == seq![(key@, line)] + restn.0);
                                    assert(full.take(n) =~= staged0);
                                    assert(full[n] == (key@, line));
                                    assert(e == StoreError::CapacityExceeded);
                                    assert(total_cost(full.take(n)) + entry_cost(
                                        full[n].0,
                                        full[n].1,
                                    ) > ceiling);
                                }
                                return Err(PipelineError::Store(e));
                            },
                        }
                        proof {
                            stager.lemma_staged_len_bounded();
                            assert(stager.staged() =~= staged0.push((key@, line)));
                            assert(stager.staged() + restn.0 =~= staged0 + (seq![(key@, line)]
                                + restn.0));
                        }
                        count = count + 1;
                    },
                    Err(e) => {
                        proof {
                            assert(extract_outcome(*kx, item.record, line) is None);
                            assert(e == extract_failure(*kx));
                        }
                        match policy {
                            ErrorPolicy::AbortOnFirst => {
                                proof {
                                    assert(rest.1 == seq![
                                        IssueV::Extract(ab.0, extract_failure(*kx)),
                                    ]);
                                    assert(run_spec(*kx, src@, 0, skip).1 == iviews(issues@)
                                        + rest.1);
                                    assert(iviews(issues@) + rest.1 =~= rest.1);
                                    assert(run_spec(*kx, src@, 0, skip).1[0] == IssueV::Extract(
                                        ab.0,
                                        e,
                                    ));
                                }
                                return Err(PipelineError::Extract(item.offset, e));
                            },
                            ErrorPolicy::SkipAndContinue => {
                                proof {
                                    assert(rest.0 == restn.0);
                                    assert(rest.1 == seq![IssueV::Extract(ab.0, e)] + restn.1);
                                }
                                let ghost issues0 = issues@;
                                issues.push(Issue::Extract(item.offset, e));
                                proof {
                                    assert(iviews(issues@) =~= iviews(issues0).push(
                                        IssueV::Extract(ab.0, e),
                                    ));
                                    assert(iviews(issues@) + restn.1 =~= iviews(issues0) + (seq![
                                        IssueV::Extract(ab.0, e),
                                    ] + restn.1));
                                }
                            },
                        }
                    },
                }
            },
            Err(d) => {
                let ghost ab = next_record_line(src@, pos0).unwrap();
                let ghost line = src@.subrange(ab.0, ab.1);
                let ghost nxt = if ab.1 == src@.len() {
                    ab.1
                } else {
                    ab.1 + 1
                };
                let ghost restn = run_spec(*kx, src@, nxt, skip);
                let ghost snip = src@.subrange(
                    ab.0,
                    if ab.1 - ab.0 <= SNIPPET_LIMIT as int {
                        ab.1
                    } else {
                        ab.0 + SNIPPET_LIMIT as int
                    },
                );
                proof {
                    lemma_next_record_line_bounds(src@, pos0);
                    assert(json_decode(line) is None);
                    assert(d.offset == ab.0 && d.snippet@ == snip);
                }
                match policy {
                    ErrorPolicy::AbortOnFirst => {
                        proof {
                            assert(rest.1 == seq![IssueV::Decode(ab.0, snip)]);
                            assert(run_spec(*kx, src@, 0, skip).1 == iviews(issues@) + rest.1);
                            assert(iviews(issues@) + rest.1 =~= rest.1);
                        }
                        return Err(PipelineError::Decode(d));
                    },
                    ErrorPolicy::SkipAndContinue => {
                        proof {
                            assert(rest.0 == restn.0);
                            assert(rest.1 == seq![IssueV::Decode(ab.0, snip)] + restn.1);
                        }
                        let ghost issues0 = issues@;
                        issues.push(Issue::Decode(d));
                        proof {
                            assert(iviews(issues@) =~= iviews(issues0).push(
                                IssueV::Decode(ab.0, snip),
                            ));
                            assert(iviews(issues@) + restn.1 =~= iviews(issues0) + (seq![
                                IssueV::Decode(ab.0, snip),
                            ] + restn.1));
                        }
                    },
                }
            },
        }
    }
}

} // verus!
