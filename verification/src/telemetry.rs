//! The record that is kept of each run, and where it is kept.

use crate::refine;
use crate::refine::RefinementResult;
use crate::text;
use vstd::prelude::*;
use vstd::string::*;

verus! {

/// A span of time.
#[derive(Debug, Clone, Copy)]
pub struct Elapsed {
    /// Whole seconds.
    pub secs: u64,
    /// Nanoseconds beyond the whole seconds.
    pub nanos: u32,
}

impl Elapsed {
    /// The span in nanoseconds.
    pub open spec fn total_nanos(self) -> nat {
        (self.secs * 1_000_000_000 + self.nanos) as nat
    }

    /// The whole milliseconds of the span.
    pub fn millis(self) -> (r: u128)
        ensures
            r == self.total_nanos() / 1_000_000,
    {
        self.secs as u128 * 1000 + (self.nanos / 1_000_000) as u128
    }
}

/// How long each part of a run took, in milliseconds.
#[derive(Debug)]
pub struct TelemetryLatencies {
    pub record: u128,
    pub transcribe: u128,
    pub refine: u128,
    pub total: u128,
}

/// Which models were asked, and what was refused.
#[derive(Debug)]
pub struct TelemetryModels {
    pub transcribe: &'static str,
    pub refine_resolved: Option<String>,
    pub refine_attempts: usize,
    pub retries: Vec<(String, u16)>,
}

/// What was said, and what was made of it.
#[derive(Debug)]
pub struct TelemetryTranscripts {
    pub raw: String,
    pub refined: Option<String>,
}

/// The record of one run.
#[derive(Debug)]
pub struct TelemetryRecord {
    pub id: String,
    pub timestamp: String,
    pub audio_duration: Elapsed,
    pub latencies_ms: TelemetryLatencies,
    pub models: TelemetryModels,
    pub transcripts: TelemetryTranscripts,
}

/// How long each part of a run took.
#[derive(Debug, Clone, Copy)]
pub struct Timings {
    pub record: Elapsed,
    pub transcribe: Elapsed,
    pub refine: Elapsed,
    pub total: Elapsed,
}

/// A text that may be missing, as the contracts have it.
pub open spec fn optional(s: Option<String>) -> Option<Seq<char>> {
    match s {
        Some(s) => Some(s@),
        None => None,
    }
}

/// Whether `latencies` gives each of `timings` in whole milliseconds.
pub open spec fn reports(latencies: TelemetryLatencies, timings: Timings) -> bool {
    &&& latencies.record == timings.record.total_nanos() / 1_000_000
    &&& latencies.transcribe == timings.transcribe.total_nanos() / 1_000_000
    &&& latencies.refine == timings.refine.total_nanos() / 1_000_000
    &&& latencies.total == timings.total.total_nanos() / 1_000_000
}

/// Whether `models` tells how `refined` came about.
pub open spec fn credits(models: TelemetryModels, refined: Option<refine::Refined>) -> bool {
    &&& models.transcribe@ == "gemini-3.5-transcribe"@
    &&& match refined {
        Some(result) => {
            &&& optional(models.refine_resolved) == Some(result.model)
            &&& models.refine_attempts == result.attempts
            &&& refine::refusals(models.retries@) == result.history
        },
        None => {
            &&& models.refine_resolved is None
            &&& models.refine_attempts == 0
            &&& models.retries@.len() == 0
        },
    }
}

/// Whether `record` tells of a run with these times, this transcript and this refinement.
pub open spec fn records(
    record: TelemetryRecord,
    timings: Timings,
    transcript: Seq<char>,
    refined: Option<refine::Refined>,
) -> bool {
    &&& record.audio_duration == timings.record
    &&& reports(record.latencies_ms, timings)
    &&& credits(record.models, refined)
    &&& record.transcripts.raw@ == transcript
    &&& optional(record.transcripts.refined) == match refined {
        Some(result) => Some(result.text),
        None => None,
    }
}

/// A refinement that may not have been asked for, as the contracts have it.
pub open spec fn refined_view(refined: Option<&RefinementResult>) -> Option<refine::Refined> {
    match refined {
        Some(result) => Some(result@),
        None => None,
    }
}

fn copy_refusals(list: &Vec<(String, u16)>) -> (r: Vec<(String, u16)>)
    ensures
        refine::refusals(r@) == refine::refusals(list@),
{
    let mut r: Vec<(String, u16)> = Vec::new();
    let mut i: usize = 0;
    while i < list.len()
        invariant
            i <= list@.len(),
            r@.len() == i,
            forall|k: int|
                0 <= k < i ==> (#[trigger] r@[k]).0@ == list@[k].0@ && r@[k].1 == list@[k].1,
        decreases list@.len() - i,
    {
        let (model, status) = &list[i];
        r.push((model.as_str().to_owned(), *status));
        i = i + 1;
    }
    r
}

/// The record of a run, under this identifier and with this time stamp.
pub fn telemetry_record(
    id: String,
    timestamp: String,
    timings: Timings,
    transcript: &str,
    refined: Option<&RefinementResult>,
) -> (r: TelemetryRecord)
    ensures
        r.id@ == id@,
        r.timestamp@ == timestamp@,
        records(r, timings, transcript@, refined_view(refined)),
{
    let latencies_ms = TelemetryLatencies {
        record: timings.record.millis(),
        transcribe: timings.transcribe.millis(),
        refine: timings.refine.millis(),
        total: timings.total.millis(),
    };
    let (refine_resolved, refine_attempts, retries, text): (
        Option<String>,
        usize,
        Vec<(String, u16)>,
        Option<String>,
    ) = match refined {
        Some(result) => (
            Some(result.model_resolved.as_str().to_owned()),
            result.attempts,
            copy_refusals(&result.retry_history),
            Some(result.text.as_str().to_owned()),
        ),
        None => (None, 0, Vec::new(), None),
    };
    TelemetryRecord {
        id,
        timestamp,
        audio_duration: timings.record,
        latencies_ms,
        models: TelemetryModels {
            transcribe: "gemini-3.5-transcribe",
            refine_resolved,
            refine_attempts,
            retries,
        },
        transcripts: TelemetryTranscripts { raw: transcript.to_owned(), refined: text },
    }
}

/// Whether `c` is a lower case hexadecimal digit.
pub open spec fn hex_digit(c: char) -> bool {
    '0' <= c <= '9' || 'a' <= c <= 'f'
}

/// Whether `s` is a random identifier: five groups of lower case hexadecimal digits with
/// hyphens between, which carry the version 4 and the variant of RFC 4122.
pub open spec fn is_identifier(s: Seq<char>) -> bool {
    &&& s.len() == 36
    &&& forall|i: int|
        0 <= i < 36 ==> if i == 8 || i == 13 || i == 18 || i == 23 {
            #[trigger] s[i] == '-'
        } else {
            hex_digit(s[i])
        }
    &&& s[14] == '4'
    &&& s[19] == '8' || s[19] == '9' || s[19] == 'a' || s[19] == 'b'
}

/// `uuid::Uuid::new_v4` displayed. The identifier is random; its form is the hyphenated
/// one, with the version and the variant in their places. It is not said that two
/// identifiers differ. The call panics where the system has no randomness to give.
#[verifier::external_body]
fn new_identifier() -> (r: String)
    ensures
        is_identifier(r@),
{
    uuid::Uuid::new_v4().to_string()
}

/// Whether `c` is a decimal digit.
pub open spec fn decimal_digit(c: char) -> bool {
    '0' <= c <= '9'
}

/// Whether `s` has a decimal digit at each place from `from` up to `to`.
pub open spec fn digits_at(s: Seq<char>, from: int, to: int) -> bool {
    forall|i: int| from <= i < to ==> decimal_digit(#[trigger] s[i])
}

/// Whether `s` has two decimal digits at place `i` that make a number from `least` to
/// `most`.
pub open spec fn pair_at(s: Seq<char>, i: int, least: int, most: int) -> bool {
    &&& decimal_digit(s[i])
    &&& decimal_digit(s[i + 1])
    &&& least <= 10 * (s[i] as int - '0' as int) + (s[i + 1] as int - '0' as int) <= most
}

/// How many places the year takes up: four, or a sign and five or six digits.
pub open spec fn year_width(s: Seq<char>) -> int {
    if s[0] != '+' {
        4
    } else if s[6] == '-' {
        6
    } else {
        7
    }
}

/// Whether `s` is the fraction of a second: nothing, or a dot with three, six or nine
/// digits, of which the last three are not all zero.
pub open spec fn is_fraction(s: Seq<char>) -> bool {
    ||| s.len() == 0
    ||| {
        &&& s.len() == 4 || s.len() == 7 || s.len() == 10
        &&& s[0] == '.'
        &&& digits_at(s, 1, s.len() as int)
        &&& !(s[s.len() - 3] == '0' && s[s.len() - 2] == '0' && s[s.len() - 1] == '0')
    }
}

/// Whether `s` is a point in time in UTC as RFC 3339 writes it: year, month and day, `T`,
/// hours, minutes and seconds, where needed a fraction, and the offset.
pub open spec fn is_utc_timestamp(s: Seq<char>) -> bool {
    let y = year_width(s);
    &&& s.len() >= y + 21
    &&& digits_at(s, if y == 4 { 0 } else { 1 }, y)
    &&& s[y] == '-'
    &&& pair_at(s, y + 1, 1, 12)
    &&& s[y + 3] == '-'
    &&& pair_at(s, y + 4, 1, 31)
    &&& s[y + 6] == 'T'
    &&& pair_at(s, y + 7, 0, 23)
    &&& s[y + 9] == ':'
    &&& pair_at(s, y + 10, 0, 59)
    &&& s[y + 12] == ':'
    &&& pair_at(s, y + 13, 0, 59)
    &&& is_fraction(s.subrange(y + 15, s.len() - 6))
    &&& s.subrange(s.len() - 6, s.len() as int) == "+00:00"@
}

/// `chrono::Utc::now` in the form of RFC 3339. Which point in time it is depends on the
/// clock; that it is given in UTC and in that form does not. The call panics where the
/// clock stands before the year 1970.
#[verifier::external_body]
fn now() -> (r: String)
    ensures
        is_utc_timestamp(r@),
{
    chrono::Utc::now().to_rfc3339()
}

/// The record of a run, under an identifier of its own and with the present time.
pub fn new_telemetry_record(
    timings: Timings,
    transcript: &str,
    refined: Option<&RefinementResult>,
) -> (r: TelemetryRecord)
    ensures
        is_identifier(r.id@),
        is_utc_timestamp(r.timestamp@),
        records(r, timings, transcript@, refined_view(refined)),
{
    telemetry_record(new_identifier(), now(), timings, transcript, refined)
}

/// The components of the path of the history log.
pub open spec fn history_path(local_app_data: Option<Seq<char>>) -> Seq<Seq<char>> {
    match local_app_data {
        Some(base) => seq![base, "neuralnet"@, "voice"@, "history.jsonl"@],
        None => seq!["C:\\Users\\Israel\\AppData\\Local\\neuralnet\\voice\\history.jsonl"@],
    }
}

/// The components of the path of the history log, given the value of `LOCALAPPDATA`,
/// where it has one.
pub fn get_history_log_path(local_app_data: Option<&str>) -> (r: Vec<String>)
    ensures
        text::texts(r@) == history_path(
            match local_app_data {
                Some(base) => Some(base@),
                None => None,
            },
        ),
{
    let mut r: Vec<String> = Vec::new();
    match local_app_data {
        Some(base) => {
            r.push(base.to_owned());
            r.push("neuralnet".to_owned());
            r.push("voice".to_owned());
            r.push("history.jsonl".to_owned());
        },
        None => {
            r.push(
                "C:\\Users\\Israel\\AppData\\Local\\neuralnet\\voice\\history.jsonl".to_owned(),
            );
        },
    }
    r
}

/// The latencies of a run whose parts do not overlap add up to no more than its total.
pub proof fn lemma_latencies_within_total(latencies: TelemetryLatencies, timings: Timings)
    requires
        reports(latencies, timings),
        timings.record.total_nanos() + timings.transcribe.total_nanos()
            + timings.refine.total_nanos() <= timings.total.total_nanos(),
    ensures
        latencies.record + latencies.transcribe + latencies.refine <= latencies.total,
{
}

/// A span in milliseconds is cut, not rounded: it is never more than the span, and less than
/// a millisecond short of it.
pub proof fn lemma_reports(latencies: TelemetryLatencies, timings: Timings)
    requires
        reports(latencies, timings),
    ensures
        cut(latencies.record, timings.record),
        cut(latencies.transcribe, timings.transcribe),
        cut(latencies.refine, timings.refine),
        cut(latencies.total, timings.total),
{
}

/// Whether `millis` is a span of time without what is left of its last millisecond.
pub open spec fn cut(millis: u128, span: Elapsed) -> bool {
    let nanos = span.secs * 1_000_000_000 + span.nanos;
    millis * 1_000_000 <= nanos < (millis + 1) * 1_000_000
}

/// A record holds the time of the recording, the transcript as it is, and of a refinement
/// its text, its model, its count and every refusal; without one it holds none of these.
pub proof fn lemma_records(
    record: TelemetryRecord,
    timings: Timings,
    transcript: Seq<char>,
    refined: Option<refine::Refined>,
)
    requires
        records(record, timings, transcript, refined),
    ensures
        record.audio_duration.secs == timings.record.secs,
        record.audio_duration.nanos == timings.record.nanos,
        cut(record.latencies_ms.record, timings.record),
        cut(record.latencies_ms.transcribe, timings.transcribe),
        cut(record.latencies_ms.refine, timings.refine),
        cut(record.latencies_ms.total, timings.total),
        record.models.transcribe@ == "gemini-3.5-transcribe"@,
        record.transcripts.raw@ == transcript,
        refined matches Some(result) ==> {
            &&& record.transcripts.refined matches Some(s)
            &&& s@ == result.text
            &&& record.models.refine_resolved matches Some(model)
            &&& model@ == result.model
            &&& record.models.refine_attempts == result.attempts
            &&& record.models.retries@.len() == result.history.len()
            &&& forall|i: int|
                0 <= i < result.history.len() ==> {
                    &&& (#[trigger] record.models.retries@[i]).0@ == result.history[i].0
                    &&& record.models.retries@[i].1 == result.history[i].1
                }
        },
        refined is None ==> {
            &&& record.transcripts.refined is None
            &&& record.models.refine_resolved is None
            &&& record.models.refine_attempts == 0
            &&& record.models.retries@.len() == 0
        },
{
    lemma_reports(record.latencies_ms, timings);
    if let Some(result) = refined {
        let list = record.models.retries@;
        assert forall|i: int| 0 <= i < result.history.len() implies {
            &&& (#[trigger] list[i]).0@ == result.history[i].0
            &&& list[i].1 == result.history[i].1
        } by {
            assert(refine::refusals(list)[i] == result.history[i]);
        }
    }
}

/// The log lies below the directory that is given, and its name is always the same.
pub proof fn lemma_history_path(base: Seq<char>)
    ensures
        history_path(Some(base)).len() == 4,
        history_path(Some(base))[0] == base,
        history_path(Some(base))[1] == "neuralnet"@,
        history_path(Some(base))[2] == "voice"@,
        history_path(Some(base))[3] == "history.jsonl"@,
        history_path(None).len() == 1,
        text::ends_with(history_path(None)[0], "\\neuralnet\\voice\\history.jsonl"@),
{
    reveal_strlit("C:\\Users\\Israel\\AppData\\Local\\neuralnet\\voice\\history.jsonl");
    reveal_strlit("\\neuralnet\\voice\\history.jsonl");
    let path = history_path(None)[0];
    let tail = "\\neuralnet\\voice\\history.jsonl"@;
    assert(path.skip(path.len() - tail.len()) =~= tail);
}

} // verus!
