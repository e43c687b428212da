use voice_prompt::json::{parse_json, Json};
use voice_prompt::refine::{
    refinement_request, refinement_url, Event, Model, Refinement, RefinementResult, Step,
};

fn answer(status: u16, body: &str) -> Event {
    Event::Answer { status, body: body.to_string() }
}

fn again(step: Step) -> (Refinement, u64) {
    match step {
        Step::Again { refinement, seconds } => (refinement, seconds),
        _ => panic!("expected another request"),
    }
}

fn done(step: Step) -> RefinementResult {
    match step {
        Step::Done(result) => result,
        _ => panic!("expected a result"),
    }
}

fn failed(step: Step) -> String {
    match step {
        Step::Failed(message) => message,
        _ => panic!("expected a failure"),
    }
}

const GOOD: &str =
    r#"{"candidates": [{"content": {"parts": [{"text": "  Build it.\n"}, {"text": "no"}]}}]}"#;

/// A refinement after this many refusals for want of capacity.
fn after_refusals(n: usize) -> Refinement {
    let mut refinement = Refinement::begin();
    for _ in 0..n {
        refinement = again(refinement.step(answer(503, "busy"))).0;
    }
    refinement
}

#[test]
fn the_first_reply_may_settle_it() {
    let result = done(Refinement::begin().step(answer(200, GOOD)));
    assert_eq!(result.text, "Build it.");
    assert_eq!(result.model_resolved, "gemini-3.5-flash-lite");
    assert_eq!(result.attempts, 1);
    assert!(result.retry_history.is_empty());
    let notice = result.notice(120);
    assert_eq!(notice.text, "[*] Refinement Model: gemini-3.5-flash-lite (latency: 120ms)");
    assert!(!notice.warning);
}

#[test]
fn the_wait_doubles() {
    let (refinement, seconds) = again(Refinement::begin().step(answer(503, "busy")));
    assert_eq!(seconds, 1);
    assert_eq!(refinement.model(), Model::Primary);
    assert_eq!(refinement.attempt(), 1);
    assert_eq!(
        refinement.notice(seconds),
        "[*] Primary refinement model 503 unavailable. Retrying in 1s (attempt 1/3)..."
    );
    let (refinement, seconds) = again(refinement.step(answer(503, "busy")));
    assert_eq!(seconds, 2);
    assert_eq!(
        refinement.notice(seconds),
        "[*] Primary refinement model 503 unavailable. Retrying in 2s (attempt 2/3)..."
    );
    let (refinement, seconds) = again(refinement.step(answer(503, "busy")));
    assert_eq!(seconds, 0);
    assert_eq!(refinement.model(), Model::Fallback);
    assert_eq!(refinement.attempt(), 0);
    assert_eq!(
        refinement.notice(seconds),
        "[*] Primary model 503 persisted. Dynamically falling back to gemini-3.5-flash..."
    );
}

#[test]
fn a_retry_is_accounted_for() {
    let result = done(after_refusals(2).step(answer(200, GOOD)));
    assert_eq!(result.model_resolved, "gemini-3.5-flash-lite");
    assert_eq!(result.attempts, 3);
    let refusal = ("gemini-3.5-flash-lite".to_string(), 503);
    assert_eq!(result.retry_history, vec![refusal.clone(), refusal]);
    let notice = result.notice(9);
    assert_eq!(
        notice.text,
        "[*] Refinement Model: gemini-3.5-flash-lite [attempt 3/3 after 503 retry] (latency: 9ms)"
    );
    assert!(notice.warning);
}

#[test]
fn the_fallback_is_accounted_for() {
    let result = done(after_refusals(3).step(answer(200, GOOD)));
    assert_eq!(result.model_resolved, "gemini-3.5-flash");
    assert_eq!(result.attempts, 1);
    assert_eq!(result.retry_history.len(), 3);
    assert!(result.retry_history.iter().all(|r| r.0 == "gemini-3.5-flash-lite" && r.1 == 503));
    let notice = result.notice(4000);
    assert_eq!(
        notice.text,
        "[*] Refinement Model: gemini-3.5-flash [fallback after 3x 503] (latency: 4000ms)"
    );
    assert!(notice.warning);
}

#[test]
fn the_fourth_refusal_ends_it() {
    assert_eq!(
        failed(after_refusals(3).step(answer(503, "busy"))),
        "Refinement API error (503 Service Unavailable) with model gemini-3.5-flash: busy"
    );
}

#[test]
fn any_other_refusal_ends_it_at_once() {
    assert_eq!(
        failed(Refinement::begin().step(answer(429, "slow down"))),
        "Refinement API error (429 Too Many Requests) with model gemini-3.5-flash-lite: slow down"
    );
    assert_eq!(
        failed(after_refusals(1).step(answer(300, ""))),
        "Refinement API error (300 Multiple Choices) with model gemini-3.5-flash-lite: "
    );
    assert_eq!(
        failed(Refinement::begin().refuse(500, "line", "body")),
        "Refinement API error (line) with model gemini-3.5-flash-lite: body"
    );
}

#[test]
fn trouble_on_the_way_ends_it() {
    assert_eq!(
        failed(Refinement::begin().step(Event::Unreachable("no route".to_string()))),
        "Refinement network error: no route"
    );
    assert_eq!(
        failed(after_refusals(2).step(Event::Unreadable("cut off".to_string()))),
        "Failed to read refinement response: cut off"
    );
}

#[test]
fn a_reply_without_a_candidate_is_reported() {
    for body in [
        "{}",
        "[]",
        r#"{"candidates": []}"#,
        r#"{"candidates": [{"content": {"parts": [{"text": 1}]}}]}"#,
        r#"{"candidates": [{"content": {"parts": []}}]}"#,
        r#"{"candidates": [{}, {"content": {"parts": [{"text": "second"}]}}]}"#,
    ] {
        assert_eq!(
            failed(Refinement::begin().step(answer(200, body))),
            format!("Unexpected refinement response schema: {}", body)
        );
    }
}

#[test]
fn a_candidate_may_be_a_member_named_0() {
    let body = r#"{"candidates": {"0": {"content": {"parts": {"0": {"text": "x"}}}}}}"#;
    let value: serde_json::Value = serde_json::from_str(body).unwrap();
    assert_eq!(
        value.pointer("/candidates/0/content/parts/0/text").and_then(|v| v.as_str()),
        Some("x")
    );
    assert_eq!(done(Refinement::begin().step(answer(200, body))).text, "x");
}

#[test]
fn a_broken_reply_is_reported() {
    assert_eq!(
        failed(Refinement::begin().step(answer(200, "<html>"))),
        "Failed to parse refinement JSON: expected value at line 1 column 1"
    );
    assert_eq!(
        failed(Refinement::begin().settle("body", Err("why".to_string()))),
        "Failed to parse refinement JSON: why"
    );
}

#[test]
fn a_parsed_reply_settles_it() {
    let parsed = parse_json(GOOD);
    assert_eq!(done(after_refusals(1).settle(GOOD, parsed)).attempts, 2);
    assert_eq!(
        failed(Refinement::begin().settle("null", Ok(Json::Null))),
        "Unexpected refinement response schema: null"
    );
}

#[test]
fn an_empty_candidate_is_still_a_result() {
    let body = r#"{"candidates": [{"content": {"parts": [{"text": " \n "}]}}]}"#;
    assert_eq!(done(Refinement::begin().step(answer(200, body))).text, "");
}

#[test]
fn requests_go_to_the_model() {
    assert_eq!(Model::Primary.name(), "gemini-3.5-flash-lite");
    assert_eq!(
        refinement_url(Model::Fallback, "KEY"),
        "https://generativelanguage.googleapis.com/v1beta/models/gemini-3.5-flash:generateContent?key=KEY"
    );
}

#[test]
fn a_request_holds_instruction_and_transcript() {
    let request = refinement_request("um, build it");
    let part = |message: &Json| {
        let parts = message.get("parts").unwrap().as_array().unwrap();
        assert_eq!(parts.len(), 1);
        parts[0].get("text").unwrap().as_str().unwrap().to_string()
    };
    let instruction = part(request.get("system_instruction").unwrap());
    assert!(instruction.starts_with("You are the Neuralnet Prompt Compiler."));
    assert!(instruction.ends_with("Preserve all technical tokens verbatim."));
    let contents = request.get("contents").unwrap().as_array().unwrap();
    assert_eq!(contents.len(), 1);
    assert_eq!(part(&contents[0]), "um, build it");
}
