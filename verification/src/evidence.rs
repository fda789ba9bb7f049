//! Auditable benchmark evidence: source pins, cases, unsupported cases, the
//! conditions a ledger must meet, and when a broad claim is allowed.
use vstd::prelude::*;
use crate::display::{push_str, string_from_chars};
use crate::text::{chars_of, is_space, is_white_space};

verus! {

/// A pinned external source: its id, where it lives, and its digest.
#[derive(Debug, Clone, PartialEq, Eq)]
pub struct SourcePin {
    pub id: String,
    pub url: String,
    pub sha256: String,
}

/// A case that the candidate does not cover, with the reason.
#[derive(Debug, Clone, PartialEq, Eq)]
pub struct UnsupportedCase {
    pub name: String,
    pub reason: String,
}

/// Whether a case's outputs matched.
#[derive(Debug, Clone, Copy, PartialEq, Eq, Structural)]
pub enum ChecksumStatus {
    Passed,
    Failed,
    NotApplicable,
}

/// Which side a case favours.
#[derive(Debug, Clone, Copy, PartialEq, Eq, Structural)]
pub enum Winner {
    Candidate,
    Baseline,
    Tie,
}

/// Why a ledger is refused.
#[derive(Debug, Clone, PartialEq, Eq)]
pub enum ValidationError {
    EmptyClaim,
    EmptySourceId,
    DuplicateSource(String),
    DuplicateCase(String),
    MissingCaseSource { case: String, source_id: String },
    InvalidTiming(String),
    ChecksumFailed(String),
    EmptyUnsupportedReason(String),
}

/// The description of an error, as its `Display` text reads.
pub open spec fn evidence_message(e: ValidationError) -> Seq<char> {
    match e {
        ValidationError::EmptyClaim => "claim cannot be empty"@,
        ValidationError::EmptySourceId => "source id cannot be empty"@,
        ValidationError::DuplicateSource(id) => "duplicate source id `"@ + id@ + "`"@,
        ValidationError::DuplicateCase(n) => "duplicate case `"@ + n@ + "`"@,
        ValidationError::MissingCaseSource { case, source_id } => "case `"@ + case@ + "` references missing source `"@
            + source_id@ + "`"@,
        ValidationError::InvalidTiming(n) => "case `"@ + n@ + "` has invalid timing"@,
        ValidationError::ChecksumFailed(n) => "case `"@ + n@ + "` has a checksum failure"@,
        ValidationError::EmptyUnsupportedReason(n) => "unsupported case `"@ + n@ + "` needs a reason"@,
    }
}

impl ValidationError {
    /// Human-readable description of the error.
    pub fn message(&self) -> (r: String)
        ensures
            r@ == evidence_message(*self),
    {
        let mut out: Vec<char> = Vec::new();
        match self {
            ValidationError::EmptyClaim => push_str(&mut out, "claim cannot be empty"),
            ValidationError::EmptySourceId => push_str(&mut out, "source id cannot be empty"),
            ValidationError::DuplicateSource(id) => {
                push_str(&mut out, "duplicate source id `");
                push_str(&mut out, id.as_str());
                push_str(&mut out, "`");
            },
            ValidationError::DuplicateCase(n) => {
                push_str(&mut out, "duplicate case `");
                push_str(&mut out, n.as_str());
                push_str(&mut out, "`");
            },
            ValidationError::MissingCaseSource { case, source_id } => {
                push_str(&mut out, "case `");
                push_str(&mut out, case.as_str());
                push_str(&mut out, "` references missing source `");
                push_str(&mut out, source_id.as_str());
                push_str(&mut out, "`");
            },
            ValidationError::InvalidTiming(n) => {
                push_str(&mut out, "case `");
                push_str(&mut out, n.as_str());
                push_str(&mut out, "` has invalid timing");
            },
            ValidationError::ChecksumFailed(n) => {
                push_str(&mut out, "case `");
                push_str(&mut out, n.as_str());
                push_str(&mut out, "` has a checksum failure");
            },
            ValidationError::EmptyUnsupportedReason(n) => {
                push_str(&mut out, "unsupported case `");
                push_str(&mut out, n.as_str());
                push_str(&mut out, "` needs a reason");
            },
        }
        proof {
            assert(out@ =~= evidence_message(*self));
        }
        string_from_chars(&out)
    }
}

impl SourcePin {
    pub fn new(id: &str, url: &str, sha256: &str) -> (r: SourcePin)
        ensures
            r.id@ == id@,
            r.url@ == url@,
            r.sha256@ == sha256@,
    {
        SourcePin { id: id.to_owned(), url: url.to_owned(), sha256: sha256.to_owned() }
    }
}

impl UnsupportedCase {
    pub fn new(name: &str, reason: &str) -> (r: UnsupportedCase)
        ensures
            r.name@ == name@,
            r.reason@ == reason@,
    {
        UnsupportedCase { name: name.to_owned(), reason: reason.to_owned() }
    }
}

/// What the checks read of a measured case: its name, the source it cites,
/// whether both of its timings are finite and positive, and its checksum.
#[derive(Debug, Clone)]
pub struct CaseRecord {
    pub name: String,
    pub source_id: String,
    pub timing_valid: bool,
    pub checksum: ChecksumStatus,
}

/// Text that is empty once surrounding whitespace is trimmed.
pub open spec fn blank(s: Seq<char>) -> bool {
    forall|i: int| 0 <= i < s.len() ==> is_white_space(#[trigger] s[i])
}

/// The first position from `k` below `n` where `p` holds.
pub open spec fn first_from(k: int, n: int, p: spec_fn(int) -> bool) -> Option<int>
    decreases n - k,
{
    if k >= n {
        None
    } else if p(k) {
        Some(k)
    } else {
        first_from(k + 1, n, p)
    }
}

pub proof fn lemma_first_from(k: int, n: int, p: spec_fn(int) -> bool)
    ensures
        match first_from(k, n, p) {
            Some(i) => k <= i < n && p(i) && forall|j: int| k <= j < i ==> !#[trigger] p(j),
            None => forall|j: int| k <= j < n ==> !#[trigger] p(j),
        },
    decreases n - k,
{
    if k < n && !p(k) {
        lemma_first_from(k + 1, n, p);
    }
}

/// A position found, against the one that `first_from` names.
pub open spec fn same_pos(r: Option<usize>, f: Option<int>) -> bool {
    match r {
        Some(i) => f == Some(i as int),
        None => f is None,
    }
}

/// Source `i` has a blank id or repeats an earlier id.
pub open spec fn source_fault(sources: Seq<SourcePin>, i: int) -> bool {
    blank(sources[i].id@) || exists|j: int| 0 <= j < i && sources[j].id@ == sources[i].id@
}

/// Some source has the id `id`.
pub open spec fn has_source(sources: Seq<SourcePin>, id: Seq<char>) -> bool {
    exists|j: int| 0 <= j < sources.len() && sources[j].id@ == id
}

/// Case `i` repeats an earlier name, cites a missing source, has invalid
/// timings or a failed checksum.
pub open spec fn case_fault(sources: Seq<SourcePin>, cases: Seq<CaseRecord>, i: int) -> bool {
    ||| exists|j: int| 0 <= j < i && cases[j].name@ == cases[i].name@
    ||| !has_source(sources, cases[i].source_id@)
    ||| !cases[i].timing_valid
    ||| cases[i].checksum == ChecksumStatus::Failed
}

/// The error a ledger's checks stop at, in the order they are made: the claim,
/// then each source, then each case, then each unsupported case's reason;
/// `None` when all pass.
pub open spec fn ledger_error(
    claim: Seq<char>,
    sources: Seq<SourcePin>,
    cases: Seq<CaseRecord>,
    unsupported: Seq<UnsupportedCase>,
    e: Option<ValidationError>,
) -> bool {
    let bad_source = first_from(0, sources.len() as int, |i: int| source_fault(sources, i));
    let bad_case = first_from(0, cases.len() as int, |i: int| case_fault(sources, cases, i));
    let bad_reason = first_from(0, unsupported.len() as int, |i: int| blank(unsupported[i].reason@));
    if blank(claim) {
        e == Some(ValidationError::EmptyClaim)
    } else if bad_source is Some {
        let i = bad_source->0;
        if blank(sources[i].id@) {
            e == Some(ValidationError::EmptySourceId)
        } else {
            e matches Some(ValidationError::DuplicateSource(id)) && id@ == sources[i].id@
        }
    } else if bad_case is Some {
        let i = bad_case->0;
        let c = cases[i];
        if exists|j: int| 0 <= j < i && cases[j].name@ == c.name@ {
            e matches Some(ValidationError::DuplicateCase(n)) && n@ == c.name@
        } else if !has_source(sources, c.source_id@) {
            e matches Some(ValidationError::MissingCaseSource { case: n, source_id: s }) && n@ == c.name@ && s@
                == c.source_id@
        } else if !c.timing_valid {
            e matches Some(ValidationError::InvalidTiming(n)) && n@ == c.name@
        } else {
            e matches Some(ValidationError::ChecksumFailed(n)) && n@ == c.name@
        }
    } else if bad_reason is Some {
        e matches Some(ValidationError::EmptyUnsupportedReason(n)) && n@ == unsupported[bad_reason->0].name@
    } else {
        e is None
    }
}

fn is_blank(s: &str) -> (r: bool)
    ensures
        r == blank(s@),
{
    let chars = chars_of(s);
    let mut i: usize = 0;
    while i < chars.len()
        invariant
            chars@ == s@,
            i <= chars.len(),
            forall|k: int| 0 <= k < i ==> is_white_space(#[trigger] s@[k]),
        decreases chars.len() - i,
    {
        if !is_space(chars[i]) {
            return false;
        }
        i = i + 1;
    }
    true
}

fn same_text(a: &String, b: &String) -> (r: bool)
    ensures
        r == (a@ == b@),
{
    a.eq(b)
}

fn first_source_fault(sources: &[SourcePin]) -> (r: Option<usize>)
    ensures
        same_pos(r, first_from(0, sources@.len() as int, |i: int| source_fault(sources@, i))),
{
    let ghost p = |i: int| source_fault(sources@, i);
    let mut i: usize = 0;
    while i < sources.len()
        invariant
            i <= sources.len(),
            p == (|i: int| source_fault(sources@, i)),
            first_from(0, sources@.len() as int, p) == first_from(i as int, sources@.len() as int, p),
        decreases sources.len() - i,
    {
        let mut fault = is_blank(sources[i].id.as_str());
        let mut j: usize = 0;
        while j < i && !fault
            invariant
                i < sources.len(),
                j <= i,
                fault == source_fault(sources@, i as int) || (!fault && forall|k: int|
                    0 <= k < j ==> sources@[k].id@ != sources@[i as int].id@),
                !fault ==> !blank(sources@[i as int].id@),
            decreases i - j,
        {
            if same_text(&sources[j].id, &sources[i].id) {
                fault = true;
            }
            j = j + 1;
        }
        if fault {
            return Some(i);
        }
        i = i + 1;
    }
    None
}

fn first_case_fault(sources: &[SourcePin], cases: &[CaseRecord]) -> (r: Option<usize>)
    ensures
        same_pos(r, first_from(0, cases@.len() as int, |i: int| case_fault(sources@, cases@, i))),
{
    let ghost p = |i: int| case_fault(sources@, cases@, i);
    let mut i: usize = 0;
    while i < cases.len()
        invariant
            i <= cases.len(),
            p == (|i: int| case_fault(sources@, cases@, i)),
            first_from(0, cases@.len() as int, p) == first_from(i as int, cases@.len() as int, p),
        decreases cases.len() - i,
    {
        if find_case_name(cases, i) || !find_source(sources, &cases[i].source_id) || !cases[i].timing_valid
            || cases[i].checksum == ChecksumStatus::Failed {
            return Some(i);
        }
        i = i + 1;
    }
    None
}

fn find_case_name(cases: &[CaseRecord], i: usize) -> (r: bool)
    requires
        i < cases.len(),
    ensures
        r == exists|j: int| 0 <= j < i && cases@[j].name@ == cases@[i as int].name@,
{
    let mut j: usize = 0;
    while j < i
        invariant
            i < cases.len(),
            j <= i,
            forall|k: int| 0 <= k < j ==> cases@[k].name@ != cases@[i as int].name@,
        decreases i - j,
    {
        if same_text(&cases[j].name, &cases[i].name) {
            return true;
        }
        j = j + 1;
    }
    false
}

fn find_source(sources: &[SourcePin], id: &String) -> (r: bool)
    ensures
        r == has_source(sources@, id@),
{
    let mut j: usize = 0;
    while j < sources.len()
        invariant
            j <= sources.len(),
            forall|k: int| 0 <= k < j ==> sources@[k].id@ != id@,
        decreases sources.len() - j,
    {
        if same_text(&sources[j].id, id) {
            return true;
        }
        j = j + 1;
    }
    false
}

fn first_blank_reason(unsupported: &[UnsupportedCase]) -> (r: Option<usize>)
    ensures
        same_pos(r, first_from(0, unsupported@.len() as int, |i: int| blank(unsupported@[i].reason@))),
{
    let ghost p = |i: int| blank(unsupported@[i].reason@);
    let mut i: usize = 0;
    while i < unsupported.len()
        invariant
            i <= unsupported.len(),
            p == (|i: int| blank(unsupported@[i].reason@)),
            first_from(0, unsupported@.len() as int, p) == first_from(i as int, unsupported@.len() as int, p),
        decreases unsupported.len() - i,
    {
        if is_blank(unsupported[i].reason.as_str()) {
            return Some(i);
        }
        i = i + 1;
    }
    None
}

/// Check a ledger: a non-blank claim; sources with non-blank, distinct ids;
/// cases with distinct names, cited sources present, valid timings and no
/// failed checksum; unsupported cases with a non-blank reason. The first
/// failing check is reported.
pub fn validate_evidence(
    claim: &str,
    sources: &[SourcePin],
    cases: &[CaseRecord],
    unsupported: &[UnsupportedCase],
) -> (r: Result<(), ValidationError>)
    ensures
        ledger_error(claim@, sources@, cases@, unsupported@, match r {
            Ok(_) => None,
            Err(e) => Some(e),
        }),
{
    proof {
        lemma_first_from(0, sources@.len() as int, |i: int| source_fault(sources@, i));
        lemma_first_from(0, cases@.len() as int, |i: int| case_fault(sources@, cases@, i));
        lemma_first_from(0, unsupported@.len() as int, |i: int| blank(unsupported@[i].reason@));
    }
    if is_blank(claim) {
        return Err(ValidationError::EmptyClaim);
    }
    match first_source_fault(sources) {
        Some(i) => {
            if is_blank(sources[i].id.as_str()) {
                return Err(ValidationError::EmptySourceId);
            }
            return Err(ValidationError::DuplicateSource(sources[i].id.clone()));
        },
        None => {},
    }
    match first_case_fault(sources, cases) {
        Some(i) => {
            let c = &cases[i];
            if find_case_name(cases, i) {
                return Err(ValidationError::DuplicateCase(c.name.clone()));
            }
            if !find_source(sources, &c.source_id) {
                return Err(
                    ValidationError::MissingCaseSource { case: c.name.clone(), source_id: c.source_id.clone() },
                );
            }
            if !c.timing_valid {
                return Err(ValidationError::InvalidTiming(c.name.clone()));
            }
            return Err(ValidationError::ChecksumFailed(c.name.clone()));
        },
        None => {},
    }
    match first_blank_reason(unsupported) {
        Some(i) => Err(ValidationError::EmptyUnsupportedReason(unsupported[i].name.clone())),
        None => Ok(()),
    }
}

/// The win counts of a ledger's cases and the claims they allow.
#[derive(Debug, Clone, Copy, PartialEq, Eq)]
pub struct WinTally {
    pub candidate_wins: usize,
    pub baseline_wins: usize,
    pub ties: usize,
    pub ranked_higher_by_wins: bool,
    pub global_claim_allowed: bool,
}

/// How many of `ws` are `w`.
pub open spec fn wins(ws: Seq<Winner>, w: Winner) -> nat
    decreases ws.len(),
{
    if ws.len() == 0 {
        0
    } else {
        wins(ws.drop_last(), w) + if ws.last() == w {
            1nat
        } else {
            0nat
        }
    }
}

proof fn lemma_wins_total(ws: Seq<Winner>)
    ensures
        wins(ws, Winner::Candidate) + wins(ws, Winner::Baseline) + wins(ws, Winner::Tie) == ws.len(),
    decreases ws.len(),
{
    if ws.len() > 0 {
        lemma_wins_total(ws.drop_last());
    }
}

/// Count each side's wins. The candidate ranks higher when it wins more cases
/// than the baseline, and a broad claim is allowed only then and only when no
/// case is left unsupported.
pub fn tally_winners(winners: &[Winner], unsupported_cases: usize) -> (r: WinTally)
    ensures
        r.candidate_wins == wins(winners@, Winner::Candidate),
        r.baseline_wins == wins(winners@, Winner::Baseline),
        r.ties == wins(winners@, Winner::Tie),
        r.candidate_wins + r.baseline_wins + r.ties == winners.len(),
        r.ranked_higher_by_wins == (r.candidate_wins > r.baseline_wins),
        r.global_claim_allowed == (r.candidate_wins > r.baseline_wins && unsupported_cases == 0),
{
    let mut c: usize = 0;
    let mut b: usize = 0;
    let mut t: usize = 0;
    let mut i: usize = 0;
    while i < winners.len()
        invariant
            i <= winners.len(),
            c == wins(winners@.take(i as int), Winner::Candidate),
            b == wins(winners@.take(i as int), Winner::Baseline),
            t == wins(winners@.take(i as int), Winner::Tie),
            c + b + t == i,
        decreases winners.len() - i,
    {
        assert(winners@.take(i + 1).drop_last() =~= winners@.take(i as int));
        match winners[i] {
            Winner::Candidate => c = c + 1,
            Winner::Baseline => b = b + 1,
            Winner::Tie => t = t + 1,
        }
        i = i + 1;
    }
    assert(winners@.take(i as int) =~= winners@);
    let ranked = c > b;
    WinTally {
        candidate_wins: c,
        baseline_wins: b,
        ties: t,
        ranked_higher_by_wins: ranked,
        global_claim_allowed: ranked && unsupported_cases == 0,
    }
}

} // verus!
