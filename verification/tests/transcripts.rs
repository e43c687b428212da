use voice_prompt::json::{parse_json, Json};
use voice_prompt::transcript::{
    extract_transcript, read_transcript, report_refusal, transcription_outcome,
    transcription_request,
};

fn extract(text: &str) -> String {
    extract_transcript(&parse_json(text).unwrap())
}

#[test]
fn output_text_comes_first() {
    assert_eq!(extract(r#"{"output_text": "  hi there\n", "text": "no"}"#), "hi there");
}

#[test]
fn text_comes_second() {
    assert_eq!(extract(r#"{"output_text": " \t", "text": " second "}"#), "second");
    assert_eq!(extract(r#"{"output_text": 5, "text": "second"}"#), "second");
}

#[test]
fn passages_are_collected_in_order() {
    let body = r#"{
        "steps": [
            {"content": [{"text": " one "}, {"text": "  "}, {"other": 1}, {"text": "two"}], "output": "three"},
            {"output": "four"},
            {"content": "none"},
            7
        ],
        "outputs": [{"text": "five "}, {"text": 6}, "seven"],
        "text": ""
    }"#;
    assert_eq!(extract(body), "one two three four five");
}

#[test]
fn no_passage_means_no_transcript() {
    assert_eq!(extract("{}"), "");
    assert_eq!(extract("[]"), "");
    assert_eq!(extract("\"text\""), "");
    assert_eq!(extract(r#"{"steps": {}, "outputs": []}"#), "");
}

#[test]
fn a_transcript_has_no_white_space_at_its_ends() {
    let t = extract("{\"outputs\": [{\"text\": \"\\u3000a b\\u00a0\"}, {\"text\": \"\\n\\n\"}]}");
    assert_eq!(t, "a b");
    assert_eq!(t.trim(), t);
}

#[test]
fn a_success_gives_the_transcript() {
    assert_eq!(transcription_outcome(200, r#"{"text": "x"}"#), Ok("x".to_string()));
    assert_eq!(transcription_outcome(204, "{}"), Ok(String::new()));
    assert_eq!(read_transcript(Ok(Json::Null)), Ok(String::new()));
}

#[test]
fn a_refusal_is_reported() {
    assert_eq!(
        transcription_outcome(403, "denied"),
        Err("Transcribe API error (403 Forbidden): denied".to_string())
    );
    assert_eq!(
        transcription_outcome(503, ""),
        Err("Transcribe API error (503 Service Unavailable): ".to_string())
    );
    assert_eq!(
        transcription_outcome(599, "?"),
        Err("Transcribe API error (599 <unknown status code>): ?".to_string())
    );
    assert_eq!(report_refusal("line", "body"), "Transcribe API error (line): body");
}

#[test]
fn a_broken_transcription_is_reported() {
    assert_eq!(
        transcription_outcome(200, "oops"),
        Err("Failed parsing response JSON: expected value at line 1 column 1".to_string())
    );
    assert_eq!(
        read_transcript(Err("why".to_string())),
        Err("Failed parsing response JSON: why".to_string())
    );
}

#[test]
fn a_request_holds_recording_and_vocabulary() {
    let terms = vec!["Rust".to_string(), "WASAPI".to_string()];
    let request = transcription_request("QUJD", &terms);
    assert_eq!(request.get("model").unwrap().as_str(), Some("gemini-3.5-transcribe"));
    let input = request.get("input").unwrap().as_array().unwrap();
    assert_eq!(input.len(), 1);
    assert_eq!(input[0].get("type").unwrap().as_str(), Some("audio"));
    assert_eq!(input[0].get("data").unwrap().as_str(), Some("QUJD"));
    assert_eq!(input[0].get("mime_type").unwrap().as_str(), Some("audio/wav"));
    let list = request
        .get("generation_config")
        .unwrap()
        .get("transcription_config")
        .unwrap()
        .get("custom_vocabulary")
        .unwrap()
        .as_array()
        .unwrap();
    let back: Vec<&str> = list.iter().map(|t| t.as_str().unwrap()).collect();
    assert_eq!(back, vec!["Rust", "WASAPI"]);
}

#[test]
fn lists_are_transcribed_in_turn() {
    let a = r#"{"content": [{"text": "one"}], "output": "two"}"#;
    let b = r#"{"output": "three"}"#;
    let steps = |list: &str| extract(&format!("{{\"steps\": [{}], \"outputs\": []}}", list));
    assert_eq!(steps(&format!("{},{}", a, b)), format!("{} {}", steps(a), steps(b)));
    assert_eq!(steps(&format!("{},{{}}", a)), steps(a));
    let body = r#"{"steps": [{"output": "x"}], "outputs": [{"text": "y"}, {"text": "z"}]}"#;
    assert_eq!(extract(body), "x y z");
}
