use voice_prompt::output::{
    after_injection, after_pipe, begin_copy, printout, target_copy_text, CopyError, Copying,
    Printout,
};
use voice_prompt::refine::RefinementResult;
use voice_prompt::telemetry::{
    get_history_log_path, new_telemetry_record, telemetry_record, Elapsed, Timings,
};

fn timings() -> Timings {
    Timings {
        record: Elapsed { secs: 5, nanos: 1_999_999 },
        transcribe: Elapsed { secs: 0, nanos: 750_000_000 },
        refine: Elapsed { secs: 0, nanos: 0 },
        total: Elapsed { secs: 6, nanos: 999_999_999 },
    }
}

fn refined() -> RefinementResult {
    RefinementResult {
        text: "Do it.".to_string(),
        model_resolved: "gemini-3.5-flash".to_string(),
        attempts: 1,
        retry_history: vec![("gemini-3.5-flash-lite".to_string(), 503); 3],
    }
}

#[test]
fn spans_are_cut_to_milliseconds() {
    assert_eq!(Elapsed { secs: 0, nanos: 999_999 }.millis(), 0);
    assert_eq!(Elapsed { secs: 2, nanos: 1_000_000 }.millis(), 2001);
    assert_eq!(Elapsed { secs: u64::MAX, nanos: 999_999_999 }.millis(), 18446744073709551615999);
}

#[test]
fn a_record_without_refinement() {
    let record = telemetry_record("id".to_string(), "now".to_string(), timings(), "um", None);
    assert_eq!(record.id, "id");
    assert_eq!(record.timestamp, "now");
    assert_eq!(record.audio_duration.secs, 5);
    assert_eq!(record.audio_duration.nanos, 1_999_999);
    assert_eq!(record.latencies_ms.record, 5001);
    assert_eq!(record.latencies_ms.transcribe, 750);
    assert_eq!(record.latencies_ms.refine, 0);
    assert_eq!(record.latencies_ms.total, 6999);
    assert_eq!(record.models.transcribe, "gemini-3.5-transcribe");
    assert_eq!(record.models.refine_resolved, None);
    assert_eq!(record.models.refine_attempts, 0);
    assert!(record.models.retries.is_empty());
    assert_eq!(record.transcripts.raw, "um");
    assert_eq!(record.transcripts.refined, None);
    let parts = record.latencies_ms.record + record.latencies_ms.transcribe;
    assert!(parts + record.latencies_ms.refine <= record.latencies_ms.total);
}

#[test]
fn a_record_with_refinement() {
    let result = refined();
    let record = telemetry_record(String::new(), String::new(), timings(), "um", Some(&result));
    assert_eq!(record.models.refine_resolved, Some("gemini-3.5-flash".to_string()));
    assert_eq!(record.models.refine_attempts, 1);
    assert_eq!(record.models.retries, result.retry_history);
    assert_eq!(record.transcripts.refined, Some("Do it.".to_string()));
}

#[test]
fn identifiers_and_time_stamps_have_their_form() {
    let record = new_telemetry_record(timings(), "um", None);
    let id: Vec<char> = record.id.chars().collect();
    assert_eq!(id.len(), 36);
    for (i, c) in id.iter().enumerate() {
        if [8, 13, 18, 23].contains(&i) {
            assert_eq!(*c, '-');
        } else {
            assert!(matches!(*c, '0'..='9' | 'a'..='f'));
        }
    }
    assert_eq!(id[14], '4');
    assert!(matches!(id[19], '8' | '9' | 'a' | 'b'));
    let stamp: Vec<char> = record.timestamp.chars().collect();
    assert!([25, 29, 32, 35].contains(&stamp.len()));
    assert!(record.timestamp.ends_with("+00:00"));
    let fraction: String = stamp[19..stamp.len() - 6].iter().collect();
    if !fraction.is_empty() {
        assert!(fraction.starts_with('.'));
        assert!(fraction[1..].chars().all(|c| c.is_ascii_digit()));
        assert!(!fraction.ends_with("000"));
    }
    let pair = |i: usize| record.timestamp[i..i + 2].parse::<u32>().unwrap();
    assert!((1..=12).contains(&pair(5)));
    assert!((1..=31).contains(&pair(8)));
    assert!(pair(11) < 24 && pair(14) < 60 && pair(17) < 60);
    assert_eq!((stamp[4], stamp[7], stamp[10]), ('-', '-', 'T'));
    assert_eq!((stamp[13], stamp[16]), (':', ':'));
    assert!(chrono::DateTime::parse_from_rfc3339(&record.timestamp).is_ok());
    assert!(uuid::Uuid::parse_str(&record.id).is_ok());
    assert_ne!(record.id, new_telemetry_record(timings(), "um", None).id);
}

#[test]
fn the_log_lies_below_local_app_data() {
    assert_eq!(
        get_history_log_path(Some("C:\\Local")),
        vec!["C:\\Local", "neuralnet", "voice", "history.jsonl"]
    );
    assert_eq!(
        get_history_log_path(None),
        vec!["C:\\Users\\Israel\\AppData\\Local\\neuralnet\\voice\\history.jsonl"]
    );
}

#[test]
fn the_refined_text_is_what_a_run_is_about() {
    assert_eq!(target_copy_text("um", None), "um");
    assert_eq!(target_copy_text("um", Some(&refined())), "Do it.");
}

#[test]
fn a_copy_is_made_only_where_it_is_asked_for() {
    assert!(matches!(begin_copy(false, "text"), Copying::Off));
    assert!(matches!(begin_copy(true, " \n"), Copying::Skipped));
    assert!(matches!(begin_copy(true, " x "), Copying::Inject));
}

#[test]
fn a_refused_copy_goes_to_the_fallback() {
    assert!(matches!(after_injection(Ok(())), Copying::Copied));
    let error = match after_injection(Err(CopyError::Refused("locked".to_string()))) {
        Copying::Pipe(error) => error,
        _ => panic!("expected the fallback"),
    };
    assert!(matches!(after_pipe(error, true), Copying::Copied));
    let failed = after_pipe(CopyError::Refused("locked".to_string()), false);
    assert_eq!(failed.notice(false), Some("[-] Clipboard injection error: locked".to_string()));
    let lost = after_pipe(CopyError::Lost("cancelled".to_string()), false);
    assert_eq!(lost.notice(true), Some("[-] Clipboard task error: cancelled".to_string()));
}

#[test]
fn only_failures_are_told_without_a_terminal() {
    assert_eq!(Copying::Copied.notice(true), Some("[*] Copied to clipboard.".to_string()));
    assert_eq!(Copying::Copied.notice(false), None);
    assert_eq!(
        Copying::Skipped.notice(true),
        Some("[*] Clipboard write skipped: transcript is empty.".to_string())
    );
    assert_eq!(Copying::Skipped.notice(false), None);
    assert_eq!(Copying::Off.notice(true), None);
    assert_eq!(Copying::Inject.notice(true), None);
}

#[test]
fn another_program_gets_the_bare_text() {
    match printout(false, "um", Some(&refined())) {
        Printout::Plain(text) => assert_eq!(text, "Do it."),
        _ => panic!("expected a bare text"),
    }
    match printout(false, "um", None) {
        Printout::Plain(text) => assert_eq!(text, "um"),
        _ => panic!("expected a bare text"),
    }
}

#[test]
fn a_terminal_gets_both_texts() {
    match printout(true, "um", Some(&refined())) {
        Printout::Labelled { raw, refined } => {
            assert_eq!(raw, "um");
            assert_eq!(refined, Some("Do it.".to_string()));
        }
        _ => panic!("expected labels"),
    }
    match printout(true, "um", None) {
        Printout::Labelled { raw, refined } => {
            assert_eq!(raw, "um");
            assert_eq!(refined, None);
        }
        _ => panic!("expected labels"),
    }
}
