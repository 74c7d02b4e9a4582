//! The summarization stage: one provider call per new content digest.
//!
//! The stage resolves the configured model once (a missing model is a fatal
//! configuration error), builds a fixed instruction prompt around each file's
//! contents, and treats a failed or empty provider answer as "no summary
//! obtained": the file is dropped for this run and retried on a later scan.
//! Within one run a digest already summarized is not sent again — its files
//! reuse the memoized summary.

use vstd::prelude::*;

use crate::table::has_key;
use crate::table::lemma_lookup_at;
use crate::table::lookup;
use crate::table::keys_unique;
use crate::table::table_get;
use crate::table::table_put;
use crate::types::ProviderOutcome;
use crate::types::SummarizedFile;
use crate::types::SummaryError;
use crate::types::UnsummarizedFile;

verus! {

/// The fixed instruction that precedes the file contents in every request.
pub open spec fn prompt_prefix() -> Seq<char> {
    "Summarize this code in 3 sentences, using no newlines or bullet points in the summary:"@
}

/// The request prompt: the fixed instruction, a newline, and the contents.
pub fn build_prompt(code: &str) -> (r: String)
    ensures
        r@ == prompt_prefix() + "\n"@ + code@,
{
    let mut s =
        "Summarize this code in 3 sentences, using no newlines or bullet points in the summary:".to_owned();
    s.append("\n");
    s.append(code);
    s
}

/// Resolves the configured model by name: its first index among the
/// available models, or the fatal configuration error when it is missing.
pub fn resolve_model(available: &Vec<String>, wanted: &String) -> (r: Result<usize, SummaryError>)
    ensures
        r is Ok <==> exists|i: int| 0 <= i < available@.len() && available@[i]@ == wanted@,
        r is Ok ==> 0 <= r.unwrap() < available@.len() && available@[r.unwrap() as int]@
            == wanted@,
        r is Err ==> r == Err::<usize, SummaryError>(SummaryError::NoModel),
{
    let n = available.len();
    let mut i: usize = 0;
    while i < n
        invariant
            n == available@.len(),
            i <= n,
            forall|j: int| 0 <= j < i ==> available@[j]@ != wanted@,
        decreases n - i,
    {
        if available[i] == *wanted {
            return Ok(i);
        }
        i = i + 1;
    }
    Err(SummaryError::NoModel)
}

/// The text an outcome carries: the provider's answer, or nothing on failure.
pub open spec fn outcome_text(o: ProviderOutcome) -> Seq<char> {
    match o {
        ProviderOutcome::Success(t) => t@,
        ProviderOutcome::Failure => Seq::empty(),
    }
}

/// The summary the soft-failing call stage hands back for one outcome: the
/// provider's text on success, and the empty string on failure — an empty
/// summary is the designed "could not summarize this time" sentinel, not an
/// error.
pub fn summary_for_outcome(outcome: ProviderOutcome) -> (r: String)
    ensures
        r@ == outcome_text(outcome),
{
    match outcome {
        ProviderOutcome::Success(t) => t,
        ProviderOutcome::Failure => String::new(),
    }
}

/// The summarization stage's per-run state: the memo of summaries already
/// obtained this run, by content digest.
pub struct Summarizer {
    memo: Vec<(String, String)>,
}

impl Summarizer {
    /// The memoized (digest, summary) pairs, in the order they were obtained.
    pub closed spec fn memo_seq(self) -> Seq<(String, String)> {
        self.memo@
    }

    pub open spec fn wf(self) -> bool {
        keys_unique(self.memo_seq())
    }

    /// A fresh per-run state with an empty memo.
    pub fn new() -> (r: Summarizer)
        ensures
            r.wf(),
            r.memo_seq().len() == 0,
    {
        Summarizer { memo: Vec::new() }
    }

    /// Whether this file's digest still needs a provider call: it was not
    /// summarized earlier in this run.
    pub fn needs_call(&self, f: &UnsummarizedFile) -> (r: bool)
        requires
            self.wf(),
        ensures
            r == (lookup(self.memo_seq(), f.digest@) is None),
    {
        match table_get(&self.memo, &f.digest) {
            Some(_) => false,
            None => true,
        }
    }

    /// One step of the sequential summarization stage: a digest memoized
    /// earlier in the run reuses its summary without a call; otherwise the
    /// provider's outcome decides — a failed or empty answer drops the file,
    /// a non-empty answer is emitted and memoized. `outcome` carries the
    /// provider's answer exactly when [`Summarizer::needs_call`] said a call
    /// was needed.
    pub fn step(&mut self, f: &UnsummarizedFile, outcome: Option<ProviderOutcome>) -> (r: Option<
        SummarizedFile,
    >)
        requires
            old(self).wf(),
            (outcome is Some) == (lookup(old(self).memo_seq(), f.digest@) is None),
        ensures
            final(self).wf(),
            match lookup(old(self).memo_seq(), f.digest@) {
                Some(summary) => r == Some(
                    (SummarizedFile { path: f.path, mtime: f.mtime, digest: f.digest, summary }),
                ) && final(self).memo_seq() == old(self).memo_seq(),
                None => ({
                    let text = outcome_text(outcome.unwrap());
                    &&& text.len() == 0 ==> r is None && final(self).memo_seq() == old(
                        self,
                    ).memo_seq()
                    &&& text.len() > 0 ==> r is Some && r.unwrap().path == f.path
                        && r.unwrap().mtime == f.mtime && r.unwrap().digest == f.digest
                        && r.unwrap().summary@ == text && final(self).memo_seq() == old(
                        self,
                    ).memo_seq().push((f.digest, r.unwrap().summary))
                }),
            },
    {
        let memo_hit: Option<&String> = table_get(&self.memo, &f.digest);
        match memo_hit {
            Some(summary) => Some(
                SummarizedFile {
                    path: f.path.clone(),
                    mtime: f.mtime,
                    digest: f.digest.clone(),
                    summary: summary.clone(),
                },
            ),
            None => match outcome {
                Some(ProviderOutcome::Success(t)) => {
                    if t.as_str().is_empty() {
                        None
                    } else {
                        let out = SummarizedFile {
                            path: f.path.clone(),
                            mtime: f.mtime,
                            digest: f.digest.clone(),
                            summary: t.clone(),
                        };
                        let ghost memo_before = self.memo@;
                        table_put(&mut self.memo, f.digest.clone(), t);
                        proof {
                            if has_key(memo_before, f.digest@) {
                                let j = choose|j: int|
                                    0 <= j < memo_before.len() && memo_before[j].0@ == f.digest@;
                                lemma_lookup_at(memo_before, f.digest@, j);
                            }
                        }
                        Some(out)
                    }
                },
                Some(ProviderOutcome::Failure) => None,
                None => {
                    proof {
                        assert(false);
                    }
                    None
                },
            },
        }
    }
}

/// What the summarization stage does with a queue of files and the provider's
/// successive outcomes: the emitted files, the number of provider calls made,
/// and the per-run memo of summaries by digest. A file whose digest is
/// memoized reuses the memo without a call; otherwise one call is made, and
/// a failed or empty answer drops the file.
pub open spec fn summ_model(files: Seq<UnsummarizedFile>, outcomes: Seq<ProviderOutcome>) -> (
    Seq<SummarizedFile>,
    nat,
    Seq<(String, String)>,
)
    decreases files.len(),
{
    if files.len() == 0 {
        (Seq::empty(), 0nat, Seq::empty())
    } else {
        let (out, calls, memo) = summ_model(files.drop_last(), outcomes);
        let f = files.last();
        match lookup(memo, f.digest@) {
            Some(summary) => (
                out.push(
                    SummarizedFile { path: f.path, mtime: f.mtime, digest: f.digest, summary },
                ),
                calls,
                memo,
            ),
            None => {
                if calls < outcomes.len() {
                    match outcomes[calls as int] {
                        ProviderOutcome::Success(t) => {
                            if t@.len() == 0 {
                                (out, calls + 1, memo)
                            } else {
                                (
                                    out.push(
                                        SummarizedFile {
                                            path: f.path,
                                            mtime: f.mtime,
                                            digest: f.digest,
                                            summary: t,
                                        },
                                    ),
                                    calls + 1,
                                    memo.push((f.digest, t)),
                                )
                            }
                        },
                        ProviderOutcome::Failure => (out, calls + 1, memo),
                    }
                } else {
                    (out, calls, memo)
                }
            },
        }
    }
}

/// The summarization stage over a queue of files, with the provider's
/// successive outcomes supplied by the caller (one per call actually made,
/// in order; files beyond the supplied outcomes are dropped).
pub fn summarize_files(files: &Vec<UnsummarizedFile>, outcomes: &Vec<ProviderOutcome>) -> (r: (
    Vec<SummarizedFile>,
    usize,
))
    ensures
        r.0@ == summ_model(files@, outcomes@).0,
        r.1 as nat == summ_model(files@, outcomes@).1,
{
    let mut out: Vec<SummarizedFile> = Vec::new();
    let mut memo: Vec<(String, String)> = Vec::new();
    let mut calls: usize = 0;
    let n = files.len();
    let mut i: usize = 0;
    while i < n
        invariant
            n == files@.len(),
            i <= n,
            calls <= i,
            calls <= outcomes@.len(),
            keys_unique(memo@),
            (out@, calls as nat, memo@) == summ_model(files@.take(i as int), outcomes@),
        decreases n - i,
    {
        let ghost prefix = files@.take(i as int);
        let f = &files[i];
        proof {
            let prefix2 = files@.take(i as int + 1);
            assert(prefix2.drop_last() =~= prefix);
            assert(prefix2.last() == files@[i as int]);
        }
        let memo_hit: Option<&String> = table_get(&memo, &f.digest);
        match memo_hit {
            Some(summary) => {
                out.push(
                    SummarizedFile {
                        path: f.path.clone(),
                        mtime: f.mtime,
                        digest: f.digest.clone(),
                        summary: summary.clone(),
                    },
                );
            },
            None => {
                if calls < outcomes.len() {
                    match &outcomes[calls] {
                        ProviderOutcome::Success(t) => {
                            if t.as_str().is_empty() {
                                calls = calls + 1;
                            } else {
                                out.push(
                                    SummarizedFile {
                                        path: f.path.clone(),
                                        mtime: f.mtime,
                                        digest: f.digest.clone(),
                                        summary: t.clone(),
                                    },
                                );
                                let ghost memo_before = memo@;
                                table_put(&mut memo, f.digest.clone(), t.clone());
                                proof {
                                    if crate::table::has_key(memo_before, f.digest@) {
                                        let j = choose|j: int|
                                            0 <= j < memo_before.len() && memo_before[j].0@
                                                == f.digest@;
                                        lemma_lookup_at(memo_before, f.digest@, j);
                                    }
                                }
                                calls = calls + 1;
                            }
                        },
                        ProviderOutcome::Failure => {
                            calls = calls + 1;
                        },
                    }
                }
            },
        }
        i = i + 1;
    }
    proof {
        assert(files@.take(n as int) =~= files@);
    }
    (out, calls)
}

} // verus!
