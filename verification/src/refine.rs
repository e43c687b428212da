//! Refinement of a transcript: one request at a time, with a wait between retries and a
//! second model to fall back on.

use crate::binary;
use crate::http;
use crate::json;
use crate::json::Json;
use crate::text;
use vstd::prelude::*;
use vstd::string::*;

verus! {

/// How many requests the first model gets.
pub const MAX_PRIMARY_ATTEMPTS: usize = 3;

/// The status that is worth another request.
pub const UNAVAILABLE: u16 = 503;

/// What a refinement came to.
#[derive(Debug, Clone)]
pub struct RefinementResult {
    /// The refined text.
    pub text: String,
    /// The model that answered.
    pub model_resolved: String,
    /// How many requests that model got.
    pub attempts: usize,
    /// The refused requests, each with the model that it went to and its status.
    pub retry_history: Vec<(String, u16)>,
}

/// The model that is asked first, or the one that is fallen back on.
#[derive(Debug, Clone, Copy, PartialEq, Eq, Structural)]
pub enum Model {
    Primary,
    Fallback,
}

impl Model {
    pub open spec fn spec_name(self) -> Seq<char> {
        match self {
            Model::Primary => "gemini-3.5-flash-lite"@,
            Model::Fallback => "gemini-3.5-flash"@,
        }
    }

    /// The name under which the service knows the model.
    pub fn name(self) -> (r: &'static str)
        ensures
            r@ == self.spec_name(),
    {
        match self {
            Model::Primary => "gemini-3.5-flash-lite",
            Model::Fallback => "gemini-3.5-flash",
        }
    }
}

/// Refused requests: the model and the status of each.
pub open spec fn refusals(list: Seq<(String, u16)>) -> Seq<(Seq<char>, u16)> {
    Seq::new(list.len(), |i: int| (list[i].0@, list[i].1))
}

/// Where a refinement stands before its next request.
#[verifier::ext_equal]
pub ghost struct Standing {
    pub model: Model,
    /// How many requests the model has had.
    pub attempt: nat,
    pub history: Seq<(Seq<char>, u16)>,
}

/// `n` refusals of the first model for want of capacity.
pub open spec fn primary_refusals(n: nat) -> Seq<(Seq<char>, u16)> {
    Seq::new(n, |i: int| (Model::Primary.spec_name(), UNAVAILABLE))
}

impl Standing {
    pub open spec fn start() -> Standing {
        Standing { model: Model::Primary, attempt: 0, history: Seq::empty() }
    }

    /// Every request so far went to the first model and was refused for want of
    /// capacity; the second model has had none.
    pub open spec fn valid(self) -> bool {
        match self.model {
            Model::Primary => {
                &&& self.attempt < MAX_PRIMARY_ATTEMPTS
                &&& self.history == primary_refusals(self.attempt)
            },
            Model::Fallback => {
                &&& self.attempt == 0
                &&& self.history == primary_refusals(MAX_PRIMARY_ATTEMPTS as nat)
            },
        }
    }
}

/// What became of a request.
pub ghost enum Reply {
    /// It could not be sent, for this reason.
    Unreachable(Seq<char>),
    /// The reply's body could not be read, for this reason.
    Unreadable(Seq<char>),
    /// A reply came.
    Answer(u16, Seq<char>),
}

/// What a refinement came to.
#[verifier::ext_equal]
pub ghost struct Refined {
    pub text: Seq<char>,
    pub model: Seq<char>,
    pub attempts: nat,
    pub history: Seq<(Seq<char>, u16)>,
}

/// What to do next.
#[verifier::ext_equal]
pub ghost enum Verdict {
    /// Wait this many seconds, then send the next request.
    Again(Standing, nat),
    Done(Refined),
    Failed(Seq<char>),
}

/// The value below `tree` that `token` leads to: a member of an object by its name, the
/// first item of an array by `0`. No other index is ever asked for.
pub open spec fn child(tree: json::Tree, token: Seq<char>) -> Option<json::Tree> {
    match tree {
        json::Tree::Object(members) => json::lookup(members, token),
        json::Tree::Array(items) => if token == "0"@ && items.len() > 0 {
            Some(items[0])
        } else {
            None
        },
        _ => None,
    }
}

/// The value that a path leads to.
pub open spec fn follow(tree: json::Tree, path: Seq<Seq<char>>) -> Option<json::Tree>
    decreases path.len(),
{
    if path.len() == 0 {
        Some(tree)
    } else {
        match child(tree, path[0]) {
            Some(next) => follow(next, path.drop_first()),
            None => None,
        }
    }
}

/// The path to the first part of the first candidate.
pub open spec fn candidate_path() -> Seq<Seq<char>> {
    seq!["candidates"@, "0"@, "content"@, "parts"@, "0"@, "text"@]
}

/// The text of the first part of the first candidate.
pub open spec fn candidate_text(tree: json::Tree) -> Option<Seq<char>> {
    match follow(tree, candidate_path()) {
        Some(found) => found.text(),
        None => None,
    }
}

/// What a successful reply leads to, given what its body was parsed to.
pub open spec fn settled(
    standing: Standing,
    body: Seq<char>,
    parsed: Result<json::Tree, Seq<char>>,
) -> Verdict {
    match parsed {
        Err(reason) => Verdict::Failed("Failed to parse refinement JSON: "@ + reason),
        Ok(tree) => match candidate_text(tree) {
            Some(s) => Verdict::Done(
                Refined {
                    text: text::trimmed(s),
                    model: standing.model.spec_name(),
                    attempts: standing.attempt + 1,
                    history: standing.history,
                },
            ),
            None => Verdict::Failed("Unexpected refinement response schema: "@ + body),
        },
    }
}

/// How a refusal that ends the refinement is reported, given how its status displays.
pub open spec fn refusal(line: Seq<char>, model: Seq<char>, body: Seq<char>) -> Seq<char> {
    "Refinement API error ("@ + line + ") with model "@ + model + ": "@ + body
}

/// What a reply other than a success leads to, given how its status displays.
pub open spec fn refused(
    standing: Standing,
    status: u16,
    line: Seq<char>,
    body: Seq<char>,
) -> Verdict {
    let attempt = standing.attempt + 1;
    let history = standing.history.push((standing.model.spec_name(), status));
    if status == UNAVAILABLE && standing.model == Model::Primary {
        if attempt < MAX_PRIMARY_ATTEMPTS {
            Verdict::Again(
                Standing { model: Model::Primary, attempt, history },
                vstd::arithmetic::power2::pow2((attempt - 1) as nat),
            )
        } else {
            Verdict::Again(Standing { model: Model::Fallback, attempt: 0, history }, 0)
        }
    } else {
        Verdict::Failed(refusal(line, standing.model.spec_name(), body))
    }
}

/// What to do after a request.
pub open spec fn next(standing: Standing, reply: Reply) -> Verdict {
    match reply {
        Reply::Unreachable(reason) => Verdict::Failed("Refinement network error: "@ + reason),
        Reply::Unreadable(reason) => Verdict::Failed(
            "Failed to read refinement response: "@ + reason,
        ),
        Reply::Answer(status, body) => if http::success(status) {
            settled(standing, body, json::json_parse(body))
        } else {
            refused(standing, status, http::status_line(status), body)
        },
    }
}

/// What the model is told to do with a transcript.
pub open spec fn instruction() -> Seq<char> {
    "You are the Neuralnet Prompt Compiler. Convert the raw spoken transcript into a concise, high-density technical prompt or instruction block. Eliminate disfluencies, false starts, and filler words. Preserve all technical tokens verbatim."@
}

/// A message that consists of one text.
pub open spec fn message_tree(s: Seq<char>) -> json::Tree {
    json::Tree::Object(
        seq![
            (
                "parts"@,
                json::Tree::Array(
                    seq![json::Tree::Object(seq![("text"@, json::Tree::Text(s))])],
                ),
            ),
        ],
    )
}

/// The body of a request to refine a transcript.
pub open spec fn request_tree(transcript: Seq<char>) -> json::Tree {
    json::Tree::Object(
        seq![
            ("system_instruction"@, message_tree(instruction())),
            ("contents"@, json::Tree::Array(seq![message_tree(transcript)])),
        ],
    )
}

fn message(s: &str) -> (r: Json)
    ensures
        r@ == message_tree(s@),
{
    json::wrap("parts", json::only(json::wrap("text", json::text(s))))
}

/// The body of a request to refine a transcript.
pub fn refinement_request(transcript: &str) -> (r: Json)
    ensures
        r@ == request_tree(transcript@),
{
    let prompt = message(
        "You are the Neuralnet Prompt Compiler. Convert the raw spoken transcript into a concise, high-density technical prompt or instruction block. Eliminate disfluencies, false starts, and filler words. Preserve all technical tokens verbatim.",
    );
    let contents = json::only(message(transcript));
    let members: Vec<(String, Json)> = vec![
        ("system_instruction".to_owned(), prompt),
        ("contents".to_owned(), contents),
    ];
    assert(json::member_trees(members@) == seq![
        ("system_instruction"@, message_tree(instruction())),
        ("contents"@, json::Tree::Array(seq![message_tree(transcript@)])),
    ]);
    json::object(members)
}

/// Where a request to a model goes.
pub open spec fn request_url(model: Model, api_key: Seq<char>) -> Seq<char> {
    "https://generativelanguage.googleapis.com/v1beta/models/"@ + model.spec_name()
        + ":generateContent?key="@ + api_key
}

/// Where a request to a model goes.
pub fn refinement_url(model: Model, api_key: &str) -> (r: String)
    ensures
        r@ == request_url(model, api_key@),
{
    let mut url = String::from_str("https://generativelanguage.googleapis.com/v1beta/models/");
    url.append(model.name());
    url.append(":generateContent?key=");
    url.append(api_key);
    url
}

/// Where a refinement stands before its next request.
pub struct Refinement {
    model: Model,
    attempt: usize,
    history: Vec<(String, u16)>,
}

impl View for Refinement {
    type V = Standing;

    closed spec fn view(&self) -> Standing {
        Standing {
            model: self.model,
            attempt: self.attempt as nat,
            history: refusals(self.history@),
        }
    }
}

/// What became of a request.
#[derive(Debug)]
pub enum Event {
    Unreachable(String),
    Unreadable(String),
    Answer { status: u16, body: String },
}

impl View for Event {
    type V = Reply;

    open spec fn view(&self) -> Reply {
        match self {
            Event::Unreachable(reason) => Reply::Unreachable(reason@),
            Event::Unreadable(reason) => Reply::Unreadable(reason@),
            Event::Answer { status, body } => Reply::Answer(*status, body@),
        }
    }
}

impl View for RefinementResult {
    type V = Refined;

    open spec fn view(&self) -> Refined {
        Refined {
            text: self.text@,
            model: self.model_resolved@,
            attempts: self.attempts as nat,
            history: refusals(self.retry_history@),
        }
    }
}

/// What to do next.
pub enum Step {
    Again { refinement: Refinement, seconds: u64 },
    Done(RefinementResult),
    Failed(String),
}

impl View for Step {
    type V = Verdict;

    open spec fn view(&self) -> Verdict {
        match self {
            Step::Again { refinement, seconds } => Verdict::Again(refinement@, *seconds as nat),
            Step::Done(result) => Verdict::Done(result@),
            Step::Failed(message) => Verdict::Failed(message@),
        }
    }
}

/// The value below `json` that `token` leads to.
fn find_child<'a>(json: &'a Json, token: &str) -> (r: Option<&'a Json>)
    ensures
        match r {
            Some(found) => child(json@, token@) == Some(found@),
            None => child(json@, token@) is None,
        },
{
    match json.as_array() {
        Some(items) => {
            if items.len() > 0 && text::same(token, "0") {
                assert(json::item_trees(items@)[0] == items@[0]@);
                Some(&items[0])
            } else {
                None
            }
        },
        None => json.get(token),
    }
}

/// The text of the first part of the first candidate.
fn find_candidate_text(json: &Json) -> (r: Option<String>)
    ensures
        match r {
            Some(s) => candidate_text(json@) == Some(s@),
            None => candidate_text(json@) is None,
        },
{
    let path: Vec<&str> = vec!["candidates", "0", "content", "parts", "0", "text"];
    let ghost names = candidate_path();
    let mut at: &Json = json;
    let mut i: usize = 0;
    assert(names.skip(0) == names);
    while i < path.len()
        invariant
            names == candidate_path(),
            i <= path@.len() == names.len(),
            forall|k: int| 0 <= k < names.len() ==> path@[k]@ == #[trigger] names[k],
            follow(json@, names) == follow(at@, names.skip(i as int)),
        decreases path@.len() - i,
    {
        proof {
            assert(names.skip(i as int)[0] == names[i as int]);
            assert(names.skip(i as int).drop_first() == names.skip(i + 1));
        }
        match find_child(at, path[i]) {
            Some(found) => {
                at = found;
            },
            None => {
                return None;
            },
        }
        i = i + 1;
    }
    match at.as_str() {
        Some(s) => Some(s.to_owned()),
        None => None,
    }
}

impl Refinement {
    #[verifier::type_invariant]
    spec fn sound(self) -> bool {
        self@.valid()
    }

    /// A refinement before its first request.
    pub fn begin() -> (r: Refinement)
        ensures
            r@ == Standing::start(),
            r@.valid(),
    {
        let history: Vec<(String, u16)> = Vec::new();
        proof {
            assert(refusals(history@) == primary_refusals(0));
            assert(refusals(history@) == Seq::<(Seq<char>, u16)>::empty());
        }
        Refinement { model: Model::Primary, attempt: 0, history }
    }

    /// What a successful reply leads to, given what its body was parsed to.
    pub fn settle(self, body: &str, parsed: Result<Json, String>) -> (r: Step)
        ensures
            r@ == settled(self@, body@, json::parse_view(parsed)),
    {
        proof {
            use_type_invariant(&self);
        }
        match parsed {
            Err(reason) => {
                let mut message = String::from_str("Failed to parse refinement JSON: ");
                message.append(reason.as_str());
                Step::Failed(message)
            },
            Ok(json) => match find_candidate_text(&json) {
                Some(s) => Step::Done(
                    RefinementResult {
                        text: s.trim().to_owned(),
                        model_resolved: self.model.name().to_owned(),
                        attempts: self.attempt + 1,
                        retry_history: self.history,
                    },
                ),
                None => {
                    let mut message = String::from_str("Unexpected refinement response schema: ");
                    message.append(body);
                    Step::Failed(message)
                },
            },
        }
    }

    /// What a reply other than a success leads to, given how its status displays.
    pub fn refuse(self, status: u16, line: &str, body: &str) -> (r: Step)
        ensures
            r@ == refused(self@, status, line@, body@),
    {
        proof {
            use_type_invariant(&self);
        }
        let name = self.model.name();
        let attempt: usize = self.attempt + 1;
        let ghost standing = self@;
        if status == UNAVAILABLE && self.model == Model::Primary {
            let mut history = self.history;
            let ghost before = history@;
            history.push((name.to_owned(), status));
            proof {
                assert(refusals(history@) == refusals(before).push((name@, status)));
                assert(refusals(history@) == primary_refusals(attempt as nat));
            }
            if attempt < MAX_PRIMARY_ATTEMPTS {
                proof {
                    vstd::arithmetic::power2::lemma2_to64();
                }
                let seconds: u64 = binary::power((attempt - 1) as u32) as u64;
                Step::Again {
                    refinement: Refinement { model: Model::Primary, attempt, history },
                    seconds,
                }
            } else {
                Step::Again {
                    refinement: Refinement { model: Model::Fallback, attempt: 0, history },
                    seconds: 0,
                }
            }
        } else {
            let mut message = String::from_str("Refinement API error (");
            message.append(line);
            message.append(") with model ");
            message.append(name);
            message.append(": ");
            message.append(body);
            Step::Failed(message)
        }
    }

    /// What to do after a request.
    pub fn step(self, event: Event) -> (r: Step)
        requires
            event matches Event::Answer { status, .. } ==> http::is_status(status),
        ensures
            r@ == next(self@, event@),
    {
        match event {
            Event::Unreachable(reason) => {
                let mut message = String::from_str("Refinement network error: ");
                message.append(reason.as_str());
                Step::Failed(message)
            },
            Event::Unreadable(reason) => {
                let mut message = String::from_str("Failed to read refinement response: ");
                message.append(reason.as_str());
                Step::Failed(message)
            },
            Event::Answer { status, body } => {
                if http::is_success(status) {
                    let parsed = json::parse_json(body.as_str());
                    self.settle(body.as_str(), parsed)
                } else {
                    let line = http::display_status(status);
                    self.refuse(status, line.as_str(), body.as_str())
                }
            },
        }
    }

    /// The model that the next request goes to.
    pub fn model(&self) -> (r: Model)
        ensures
            r == self@.model,
    {
        self.model
    }

    /// How many requests the model has had.
    pub fn attempt(&self) -> (r: usize)
        ensures
            r == self@.attempt,
    {
        self.attempt
    }
}

/// A line for the user, and whether it tells of trouble.
#[derive(Debug)]
pub struct Notice {
    pub text: String,
    pub warning: bool,
}

/// What is said of a finished refinement that took `latency_ms` milliseconds.
pub open spec fn done_notice(result: Refined, latency_ms: nat) -> Seq<char> {
    let tail = " (latency: "@ + text::decimal(latency_ms) + "ms)"@;
    let head = "[*] Refinement Model: "@ + result.model;
    if result.model != Model::Primary.spec_name() {
        head + " [fallback after 3x 503]"@ + tail
    } else if result.history.len() > 0 {
        head + " [attempt "@ + text::decimal(result.attempts) + "/"@ + text::decimal(
            MAX_PRIMARY_ATTEMPTS as nat,
        ) + " after 503 retry]"@ + tail
    } else {
        head + tail
    }
}

/// What is said before another request to `standing.model` after `seconds` seconds.
pub open spec fn again_notice(standing: Standing, seconds: nat) -> Seq<char> {
    match standing.model {
        Model::Primary => "[*] Primary refinement model 503 unavailable. Retrying in "@
            + text::decimal(seconds) + "s (attempt "@ + text::decimal(standing.attempt) + "/"@
            + text::decimal(MAX_PRIMARY_ATTEMPTS as nat) + ")..."@,
        Model::Fallback => "[*] Primary model 503 persisted. Dynamically falling back to gemini-3.5-flash..."@,
    }
}

impl RefinementResult {
    /// What is said of a finished refinement that took `latency_ms` milliseconds.
    pub fn notice(&self, latency_ms: u128) -> (r: Notice)
        ensures
            r.text@ == done_notice(self@, latency_ms as nat),
            r.warning == (self@.model != Model::Primary.spec_name() || self@.history.len() > 0),
    {
        let mut s = String::from_str("[*] Refinement Model: ");
        s.append(self.model_resolved.as_str());
        let primary = text::same(self.model_resolved.as_str(), Model::Primary.name());
        let smooth = self.retry_history.len() == 0;
        if !primary {
            s.append(" [fallback after 3x 503]");
        } else if !smooth {
            s.append(" [attempt ");
            s.append(text::to_decimal(self.attempts as u128).as_str());
            s.append("/");
            s.append(text::to_decimal(MAX_PRIMARY_ATTEMPTS as u128).as_str());
            s.append(" after 503 retry]");
        }
        let ghost head = s@;
        s.append(" (latency: ");
        s.append(text::to_decimal(latency_ms).as_str());
        s.append("ms)");
        proof {
            let tail = " (latency: "@ + text::decimal(latency_ms as nat) + "ms)"@;
            assert(s@ == head + tail);
        }
        Notice { text: s, warning: !primary || !smooth }
    }
}

impl Refinement {
    /// What is said before the next request, which is sent after `seconds` seconds.
    pub fn notice(&self, seconds: u64) -> (r: String)
        ensures
            r@ == again_notice(self@, seconds as nat),
    {
        match self.model {
            Model::Primary => {
                let mut s = String::from_str(
                    "[*] Primary refinement model 503 unavailable. Retrying in ",
                );
                s.append(text::to_decimal(seconds as u128).as_str());
                s.append("s (attempt ");
                s.append(text::to_decimal(self.attempt as u128).as_str());
                s.append("/");
                s.append(text::to_decimal(MAX_PRIMARY_ATTEMPTS as u128).as_str());
                s.append(")...");
                s
            },
            Model::Fallback => String::from_str(
                "[*] Primary model 503 persisted. Dynamically falling back to gemini-3.5-flash...",
            ),
        }
    }
}

/// Where a refinement stands after a list of replies, from its start on.
pub open spec fn after(replies: Seq<Reply>) -> Verdict
    decreases replies.len(),
{
    if replies.len() == 0 {
        Verdict::Again(Standing::start(), 0)
    } else {
        match after(replies.drop_last()) {
            Verdict::Again(standing, _) => next(standing, replies.last()),
            verdict => verdict,
        }
    }
}

/// A step keeps a standing valid.
pub proof fn lemma_step_valid(standing: Standing, reply: Reply)
    requires
        standing.valid(),
    ensures
        next(standing, reply) matches Verdict::Again(then, _) ==> then.valid(),
{
    if let Reply::Answer(status, body) = reply {
        if status == UNAVAILABLE && standing.model == Model::Primary {
            assert(standing.history.push((standing.model.spec_name(), status)) =~= primary_refusals(
                standing.history.len() + 1,
            ));
        }
    }
}

/// Another request is sent exactly after the first model reports that it is unavailable.
pub proof fn lemma_again_only_when_unavailable(standing: Standing, reply: Reply)
    ensures
        next(standing, reply) is Again <==> {
            &&& reply matches Reply::Answer(status, _)
            &&& status == UNAVAILABLE
            &&& standing.model == Model::Primary
        },
{
}

/// How many requests stand behind a standing.
pub open spec fn requests(standing: Standing) -> nat {
    match standing.model {
        Model::Primary => standing.attempt,
        Model::Fallback => MAX_PRIMARY_ATTEMPTS as nat,
    }
}

/// A refinement under way has had as many requests as it got replies, all of them refused
/// for want of capacity by the first model; the second is asked only after three of these.
pub proof fn lemma_under_way(replies: Seq<Reply>)
    ensures
        after(replies) matches Verdict::Again(standing, _) ==> {
            &&& standing.valid()
            &&& requests(standing) == replies.len()
        },
    decreases replies.len(),
{
    if replies.len() == 0 {
        assert(Standing::start().history =~= primary_refusals(0));
    } else {
        lemma_under_way(replies.drop_last());
        if let Verdict::Again(standing, _) = after(replies.drop_last()) {
            lemma_step_valid(standing, replies.last());
        }
    }
}

/// A refinement is over after at most four replies: three from the first model and one
/// from the second.
pub proof fn lemma_over_after_four(replies: Seq<Reply>)
    requires
        replies.len() > MAX_PRIMARY_ATTEMPTS,
    ensures
        !(after(replies) is Again),
{
    lemma_under_way(replies);
}

/// The wait doubles: one second after the first refusal, two after the second, and none
/// before the second model is asked.
pub proof fn lemma_backoff(standing: Standing, status: u16, body: Seq<char>)
    requires
        standing.valid(),
    ensures
        next(standing, Reply::Answer(status, body)) matches Verdict::Again(then, seconds) ==> {
            &&& then.attempt == 1 ==> seconds == 1
            &&& then.attempt == 2 ==> seconds == 2
            &&& then.model == Model::Fallback <==> seconds == 0
        },
{
    vstd::arithmetic::power2::lemma2_to64();
}

/// A result names the model that answered, how many requests that model got, and one
/// refusal of the first model for each request before the last.
pub proof fn lemma_result_accounts(replies: Seq<Reply>)
    ensures
        after(replies) matches Verdict::Done(result) ==> {
            ||| {
                &&& result.model == Model::Primary.spec_name()
                &&& 1 <= result.attempts <= MAX_PRIMARY_ATTEMPTS
                &&& result.history == primary_refusals((result.attempts - 1) as nat)
            }
            ||| {
                &&& result.model == Model::Fallback.spec_name()
                &&& result.attempts == 1
                &&& result.history == primary_refusals(MAX_PRIMARY_ATTEMPTS as nat)
            }
        },
    decreases replies.len(),
{
    if replies.len() > 0 {
        lemma_result_accounts(replies.drop_last());
        lemma_under_way(replies.drop_last());
    }
}

/// A request holds the transcript as the only text of its contents.
pub proof fn lemma_request_holds(transcript: Seq<char>)
    ensures
        ({
            let path = seq!["contents"@, "0"@, "parts"@, "0"@, "text"@];
            follow(request_tree(transcript), path) == Some(json::Tree::Text(transcript))
        }),
{
    reveal_strlit("system_instruction");
    reveal_strlit("contents");
    reveal_with_fuel(json::lookup, 3);
    let path = seq!["contents"@, "0"@, "parts"@, "0"@, "text"@];
    let p1 = path.drop_first();
    let p2 = p1.drop_first();
    let p3 = p2.drop_first();
    let p4 = p3.drop_first();
    assert(p4.drop_first() =~= Seq::empty());
    let message = message_tree(transcript);
    assert("system_instruction"@.len() != "contents"@.len());
    let members = request_tree(transcript)->Object_0;
    assert(members.drop_first()[0] == members[1]);
    assert(child(request_tree(transcript), path[0]) == Some(
        json::Tree::Array(seq![message]),
    ));
    let part = json::Tree::Object(seq![("text"@, json::Tree::Text(transcript))]);
    assert(child(message, p2[0]) == Some(json::Tree::Array(seq![part])));
    reveal_with_fuel(follow, 6);
}

/// A text that was refined has no white space at its ends.
pub proof fn lemma_refined_trimmed(standing: Standing, reply: Reply)
    ensures
        next(standing, reply) matches Verdict::Done(result) ==> text::trimmed(result.text)
            == result.text,
{
    if let Reply::Answer(_, body) = reply {
        if let Ok(tree) = json::json_parse(body) {
            if let Some(s) = candidate_text(tree) {
                text::lemma_trimmed(s);
            }
        }
    }
}

/// A document whose first candidate has a first part with a text finishes the refinement,
/// whatever else it holds. The refined text is that text with nothing but the white space at
/// its ends taken off.
pub proof fn lemma_refined_text(
    standing: Standing,
    body: Seq<char>,
    tree: json::Tree,
    candidates: Seq<json::Tree>,
    content: json::Tree,
    parts: Seq<json::Tree>,
    s: Seq<char>,
)
    requires
        tree.member("candidates"@) == Some(json::Tree::Array(candidates)),
        candidates.len() > 0,
        candidates[0].member("content"@) == Some(content),
        content.member("parts"@) == Some(json::Tree::Array(parts)),
        parts.len() > 0,
        parts[0].member("text"@) == Some(json::Tree::Text(s)),
    ensures
        match settled(standing, body, Ok::<json::Tree, Seq<char>>(tree)) {
            Verdict::Done(result) => {
                &&& text::trims_to(s, result.text)
                &&& result.model == standing.model.spec_name()
                &&& result.attempts == standing.attempt + 1
                &&& result.history == standing.history
            },
            _ => false,
        },
{
    let path = candidate_path();
    let p1 = path.drop_first();
    let p2 = p1.drop_first();
    let p3 = p2.drop_first();
    let p4 = p3.drop_first();
    let p5 = p4.drop_first();
    assert(p5.drop_first() =~= Seq::empty());
    assert(child(tree, path[0]) == Some(json::Tree::Array(candidates)));
    assert(child(json::Tree::Array(candidates), p1[0]) == Some(candidates[0]));
    assert(child(candidates[0], p2[0]) == Some(content));
    assert(child(content, p3[0]) == Some(json::Tree::Array(parts)));
    assert(child(json::Tree::Array(parts), p4[0]) == Some(parts[0]));
    assert(child(parts[0], p5[0]) == Some(json::Tree::Text(s)));
    reveal_with_fuel(follow, 7);
    assert(candidate_text(tree) == Some(s));
    text::lemma_trims_to(s, text::trimmed(s));
}

/// Whether `found` is the first item of an array, or the member of an object that is named
/// like its index.
pub open spec fn is_first(list: json::Tree, found: json::Tree) -> bool {
    ||| list matches json::Tree::Array(items) && items.len() > 0 && items[0] == found
    ||| list.member("0"@) == Some(found)
}

/// Whether `s` is the text of the first part of the first candidate of a document, and these
/// are the values on the way to it.
pub open spec fn leads_to(
    tree: json::Tree,
    candidates: json::Tree,
    candidate: json::Tree,
    content: json::Tree,
    parts: json::Tree,
    part: json::Tree,
    s: Seq<char>,
) -> bool {
    &&& tree.member("candidates"@) == Some(candidates)
    &&& is_first(candidates, candidate)
    &&& candidate.member("content"@) == Some(content)
    &&& content.member("parts"@) == Some(parts)
    &&& is_first(parts, part)
    &&& part.member("text"@) == Some(json::Tree::Text(s))
}

/// A refinement is finished only by the first part of the first candidate, never by another
/// one.
pub proof fn lemma_refined_from(standing: Standing, body: Seq<char>, tree: json::Tree)
    ensures
        settled(standing, body, Ok::<json::Tree, Seq<char>>(tree)) matches Verdict::Done(result)
            ==> exists|
            candidates: json::Tree,
            candidate: json::Tree,
            content: json::Tree,
            parts: json::Tree,
            part: json::Tree,
            s: Seq<char>,
        | #[trigger]
            leads_to(tree, candidates, candidate, content, parts, part, s) && text::trims_to(
                s,
                result.text,
            ),
{
    reveal_strlit("candidates");
    reveal_strlit("content");
    reveal_strlit("parts");
    reveal_strlit("text");
    reveal_strlit("0");
    assert("candidates"@.len() == 10 && "content"@.len() == 7 && "parts"@.len() == 5);
    assert("text"@.len() == 4 && "0"@.len() == 1);
    let path = candidate_path();
    let p1 = path.drop_first();
    let p2 = p1.drop_first();
    let p3 = p2.drop_first();
    let p4 = p3.drop_first();
    let p5 = p4.drop_first();
    let p6 = p5.drop_first();
    assert(p6 =~= Seq::empty());
    assert(path[0] == "candidates"@ && p1[0] == "0"@ && p2[0] == "content"@);
    assert(p3[0] == "parts"@ && p4[0] == "0"@ && p5[0] == "text"@);
    if let Some(s) = candidate_text(tree) {
        assert(child(tree, "candidates"@) is Some);
        let candidates = child(tree, "candidates"@)->Some_0;
        assert(follow(candidates, p1) == follow(tree, path));
        let candidate = child(candidates, "0"@)->Some_0;
        assert(follow(candidate, p2) == follow(candidates, p1));
        let content = child(candidate, "content"@)->Some_0;
        assert(follow(content, p3) == follow(candidate, p2));
        let parts = child(content, "parts"@)->Some_0;
        assert(follow(parts, p4) == follow(content, p3));
        let part = child(parts, "0"@)->Some_0;
        assert(follow(part, p5) == follow(parts, p4));
        let found = child(part, "text"@)->Some_0;
        assert(follow(found, p6) == follow(part, p5));
        assert(found == json::Tree::Text(s));
        text::lemma_trims_to(s, text::trimmed(s));
        assert(leads_to(tree, candidates, candidate, content, parts, part, s));
    }
}

/// A text that neither begins nor ends with white space is refined text as it stands, line
/// breaks and all.
pub proof fn lemma_refined_text_whole(
    standing: Standing,
    body: Seq<char>,
    tree: json::Tree,
    candidates: Seq<json::Tree>,
    content: json::Tree,
    parts: Seq<json::Tree>,
    s: Seq<char>,
)
    requires
        tree.member("candidates"@) == Some(json::Tree::Array(candidates)),
        candidates.len() > 0,
        candidates[0].member("content"@) == Some(content),
        content.member("parts"@) == Some(json::Tree::Array(parts)),
        parts.len() > 0,
        parts[0].member("text"@) == Some(json::Tree::Text(s)),
        s.len() > 0,
        !text::white_space(s.first()),
        !text::white_space(s.last()),
    ensures
        match settled(standing, body, Ok::<json::Tree, Seq<char>>(tree)) {
            Verdict::Done(result) => result.text == s,
            _ => false,
        },
{
    lemma_refined_text(standing, body, tree, candidates, content, parts, s);
    text::lemma_trim_keeps(s);
    text::lemma_trims_to(s, s);
    if let Verdict::Done(result) = settled(standing, body, Ok::<json::Tree, Seq<char>>(tree)) {
        text::lemma_trims_to(s, result.text);
    }
}

/// A document without candidates ends the refinement, and so does a body that could not be
/// read; each is told with the whole body or the whole reason.
pub proof fn lemma_settled_failures(
    standing: Standing,
    body: Seq<char>,
    tree: json::Tree,
    reason: Seq<char>,
)
    ensures
        tree.member("candidates"@) is None && !(tree is Array) ==> settled(
            standing,
            body,
            Ok::<json::Tree, Seq<char>>(tree),
        ) is Failed,
        settled(standing, body, Ok::<json::Tree, Seq<char>>(tree)) matches Verdict::Failed(m)
            ==> text::ends_with(m, "schema: "@ + body),
        match settled(standing, body, Err::<json::Tree, Seq<char>>(reason)) {
            Verdict::Failed(m) => text::ends_with(m, "JSON: "@ + reason),
            _ => false,
        },
{
    reveal_strlit("Failed to parse refinement JSON: ");
    reveal_strlit("JSON: ");
    reveal_strlit("Unexpected refinement response schema: ");
    reveal_strlit("schema: ");
    let a = "Failed to parse refinement JSON: "@ + reason;
    let x = "JSON: "@ + reason;
    assert(a.skip(a.len() - x.len()) =~= x);
    let b = "Unexpected refinement response schema: "@ + body;
    let y = "schema: "@ + body;
    assert(b.skip(b.len() - y.len()) =~= y);
    let path = candidate_path();
    assert(path[0] == "candidates"@);
    reveal_with_fuel(follow, 2);
}

/// A refusal is followed by another request exactly if it is a 503 of the first model. It is
/// entered in the history under the model that was asked. Any other refusal ends the
/// refinement, told with how its status displays, the model, and the whole body.
pub proof fn lemma_refused(standing: Standing, status: u16, line: Seq<char>, body: Seq<char>)
    ensures
        refused(standing, status, line, body) is Again <==> status == 503 && standing.model
            == Model::Primary,
        match refused(standing, status, line, body) {
            Verdict::Again(then, seconds) => {
                &&& then.history == standing.history.push(("gemini-3.5-flash-lite"@, 503))
                &&& if standing.attempt + 1 < 3 {
                    then.model == Model::Primary && then.attempt == standing.attempt + 1
                } else {
                    then.model == Model::Fallback && then.attempt == 0 && seconds == 0
                }
            },
            Verdict::Done(_) => false,
            Verdict::Failed(message) => text::ends_with(
                message,
                "API error ("@ + line + ") with model "@ + standing.model.spec_name() + ": "@
                    + body,
            ),
        },
{
    reveal_strlit("Refinement API error (");
    reveal_strlit("API error (");
    let name = standing.model.spec_name();
    let message = refusal(line, name, body);
    let tail = "API error ("@ + line + ") with model "@ + name + ": "@ + body;
    assert(message.skip(message.len() - tail.len()) =~= tail);
}

/// Whether every reply is a 503.
pub open spec fn all_unavailable(replies: Seq<Reply>) -> bool {
    forall|i: int|
        0 <= i < replies.len() ==> ((#[trigger] replies[i]) matches Reply::Answer(status, _)
            && status == 503)
}

/// The first model gets three requests and the second one: after as many 503 as there were
/// requests it is still the first model's turn as long as there were fewer than three, then
/// it is the second's, and the fourth ends the refinement.
pub proof fn lemma_three_and_one(replies: Seq<Reply>)
    requires
        all_unavailable(replies),
        replies.len() <= 4,
    ensures
        match after(replies) {
            Verdict::Again(standing, _) => {
                &&& replies.len() < 4
                &&& standing.history.len() == replies.len()
                &&& standing.model == if replies.len() < 3 {
                    Model::Primary
                } else {
                    Model::Fallback
                }
                &&& standing.attempt == if replies.len() < 3 {
                    replies.len()
                } else {
                    0
                }
            },
            Verdict::Done(_) => false,
            Verdict::Failed(_) => replies.len() == 4,
        },
    decreases replies.len(),
{
    if replies.len() > 0 {
        let rest = replies.drop_last();
        assert forall|i: int| 0 <= i < rest.len() implies ((#[trigger] rest[i]) matches
            Reply::Answer(status, _) && status == 503) by {
            assert(rest[i] == replies[i]);
        }
        lemma_three_and_one(rest);
        assert(replies[replies.len() - 1] == replies.last());
    }
}

/// Refusals of the first model, one by one.
pub proof fn lemma_primary_refusals(n: nat, i: int)
    requires
        0 <= i < n,
    ensures
        primary_refusals(n).len() == n,
        primary_refusals(n)[i] == ("gemini-3.5-flash-lite"@, 503u16),
{
}

/// What is said of a reply once its body has been read is what is said of the reply.
pub proof fn lemma_settled(standing: Standing, status: u16, body: Seq<char>)
    requires
        200 <= status < 300,
    ensures
        next(standing, Reply::Answer(status, body)) == settled(
            standing,
            body,
            json::json_parse(body),
        ),
{
}

/// A refinement is finished by a success alone, and only where the reply has candidates.
pub proof fn lemma_done_only(standing: Standing, reply: Reply)
    ensures
        next(standing, reply) is Done ==> {
            &&& reply matches Reply::Answer(status, body)
            &&& 200 <= status < 300
            &&& json::json_parse(body) matches Ok(tree)
            &&& tree.member("candidates"@) is Some
        },
{
    if let Reply::Answer(status, body) = reply {
        if let Ok(tree) = json::json_parse(body) {
            let path = candidate_path();
            assert(path[0] == "candidates"@);
            reveal_with_fuel(follow, 2);
            reveal_strlit("candidates");
            reveal_strlit("0");
            assert("candidates"@.len() != "0"@.len());
        }
    }
}

/// A refinement that ends without a result says why: the whole body of a reply that was
/// refused or has no candidate, or the reason why there is none; a refusal also its status
/// and the model.
pub proof fn lemma_failures(standing: Standing, reply: Reply)
    requires
        reply matches Reply::Answer(status, _) ==> 100 <= status < 1000,
    ensures
        next(standing, reply) matches Verdict::Failed(message) ==> match reply {
            Reply::Unreachable(reason) => text::ends_with(message, "network error: "@ + reason),
            Reply::Unreadable(reason) => text::ends_with(message, "response: "@ + reason),
            Reply::Answer(status, body) => if 200 <= status < 300 {
                match json::json_parse(body) {
                    Ok(tree) => text::ends_with(message, ": "@ + body),
                    Err(reason) => text::ends_with(message, ": "@ + reason),
                }
            } else {
                &&& text::ends_with(message, ") with model "@ + standing.model.spec_name() + ": "@ + body)
                &&& message.take(22) == "Refinement API error ("@
                &&& text::number_of(message.subrange(22, 25)) == status
            },
        },
        !(reply is Answer) ==> next(standing, reply) is Failed,
{
    reveal_strlit("Refinement network error: ");
    reveal_strlit("network error: ");
    reveal_strlit("Failed to read refinement response: ");
    reveal_strlit("response: ");
    reveal_strlit("Failed to parse refinement JSON: ");
    reveal_strlit("Unexpected refinement response schema: ");
    reveal_strlit(": ");
    reveal_strlit("Refinement API error (");
    reveal_strlit(") with model ");
    match reply {
        Reply::Unreachable(reason) => {
            let message = "Refinement network error: "@ + reason;
            let tail = "network error: "@ + reason;
            assert(message.skip(message.len() - tail.len()) =~= tail);
        },
        Reply::Unreadable(reason) => {
            let message = "Failed to read refinement response: "@ + reason;
            let tail = "response: "@ + reason;
            assert(message.skip(message.len() - tail.len()) =~= tail);
        },
        Reply::Answer(status, body) => {
            if http::success(status) {
                match json::json_parse(body) {
                    Ok(tree) => {
                        let message = "Unexpected refinement response schema: "@ + body;
                        let tail = ": "@ + body;
                        assert(message.skip(message.len() - tail.len()) =~= tail);
                    },
                    Err(reason) => {
                        let message = "Failed to parse refinement JSON: "@ + reason;
                        let tail = ": "@ + reason;
                        assert(message.skip(message.len() - tail.len()) =~= tail);
                    },
                }
            } else {
                http::lemma_status_line(status);
                let line = http::status_line(status);
                let name = standing.model.spec_name();
                let message = refusal(line, name, body);
                let tail = ") with model "@ + name + ": "@ + body;
                assert(message.skip(message.len() - tail.len()) =~= tail);
                assert(message.take(22) =~= "Refinement API error ("@);
                assert(message.subrange(22, 25) =~= line.take(3));
            }
        },
    }
}

/// The models are told apart, and the first is the light one.
pub proof fn lemma_models()
    ensures
        Model::Primary.spec_name() == Model::Fallback.spec_name() + "-lite"@,
{
    reveal_strlit("gemini-3.5-flash-lite");
    reveal_strlit("gemini-3.5-flash");
    reveal_strlit("-lite");
    assert(Model::Primary.spec_name() =~= Model::Fallback.spec_name() + "-lite"@);
}

/// A request goes to the model that is asked, with the key that was given.
pub proof fn lemma_request_url(model: Model, api_key: Seq<char>)
    ensures
        text::ends_with(
            request_url(model, api_key),
            "/models/"@ + model.spec_name() + ":generateContent?key="@ + api_key,
        ),
        request_url(model, api_key).take(41) == "https://generativelanguage.googleapis.com"@,
{
    reveal_strlit("https://generativelanguage.googleapis.com");
    reveal_strlit("https://generativelanguage.googleapis.com/v1beta/models/");
    reveal_strlit("/models/");
    reveal_strlit(":generateContent?key=");
    let url = request_url(model, api_key);
    let tail = "/models/"@ + model.spec_name() + ":generateContent?key="@ + api_key;
    assert(url.skip(url.len() - tail.len()) =~= tail);
    assert(url.take(41) =~= "https://generativelanguage.googleapis.com"@);
}

/// What the model is told: to turn speech into a prompt, to leave out what is not meant, and
/// to keep the technical terms.
pub proof fn lemma_instruction()
    ensures
        text::occurs(
            instruction(),
            "Convert the raw spoken transcript into a concise, high-density technical prompt"@,
        ),
        text::occurs(instruction(), "Eliminate disfluencies, false starts, and filler words."@),
        text::ends_with(instruction(), "Preserve all technical tokens verbatim."@),
{
    reveal_strlit(
        "You are the Neuralnet Prompt Compiler. Convert the raw spoken transcript into a concise, high-density technical prompt or instruction block. Eliminate disfluencies, false starts, and filler words. Preserve all technical tokens verbatim.",
    );
    reveal_strlit(
        "Convert the raw spoken transcript into a concise, high-density technical prompt",
    );
    reveal_strlit("Eliminate disfluencies, false starts, and filler words.");
    reveal_strlit("Preserve all technical tokens verbatim.");
    let whole = instruction();
    let a = "Convert the raw spoken transcript into a concise, high-density technical prompt"@;
    let b = "Eliminate disfluencies, false starts, and filler words."@;
    let c = "Preserve all technical tokens verbatim."@;
    assert(whole.subrange(39, 39 + a.len() as int) =~= a);
    assert(text::occurs_at(whole, a, 39));
    let i = whole.len() - c.len() - 1 - b.len();
    assert(whole.subrange(i, i + b.len()) =~= b);
    assert(text::occurs_at(whole, b, i));
    assert(whole.skip(whole.len() - c.len()) =~= c);
}

/// A request tells the model what to do before it gives the transcript: two messages, of
/// which the first does not depend on the transcript.
pub proof fn lemma_request_instruction(a: Seq<char>, b: Seq<char>)
    ensures
        request_tree(a)->Object_0.len() == 2,
        request_tree(a)->Object_0[0].0 == "system_instruction"@,
        request_tree(a)->Object_0[0] == request_tree(b)->Object_0[0],
        request_tree(a)->Object_0[1].1 matches json::Tree::Array(messages) && messages.len() == 1,
        request_tree(a) == request_tree(b) ==> a == b,
{
    lemma_request_holds(a);
    lemma_request_holds(b);
}

/// What is said of a finished refinement names the model that answered and ends with how
/// long it took.
pub proof fn lemma_done_notice(result: Refined, latency_ms: nat)
    ensures
        text::occurs(done_notice(result, latency_ms), "[*] Refinement Model: "@ + result.model),
        text::ends_with(
            done_notice(result, latency_ms),
            " (latency: "@ + text::decimal(latency_ms) + "ms)"@,
        ),
        result.model == Model::Primary.spec_name() && result.history.len() > 0 ==> text::occurs(
            done_notice(result, latency_ms),
            " [attempt "@ + text::decimal(result.attempts) + "/3"@,
        ),
{
    let notice = done_notice(result, latency_ms);
    let head = "[*] Refinement Model: "@ + result.model;
    let tail = " (latency: "@ + text::decimal(latency_ms) + "ms)"@;
    assert(notice.subrange(0, head.len() as int) =~= head);
    assert(text::occurs_at(notice, head, 0));
    assert(notice.skip(notice.len() - tail.len()) =~= tail);
    if result.model == Model::Primary.spec_name() && result.history.len() > 0 {
        reveal_strlit("/3");
        reveal_strlit("/");
        text::lemma_decimal(3);
        reveal_with_fuel(text::decimal, 2);
        assert("/3"@ =~= "/"@ + text::decimal(3));
        let middle = " [attempt "@ + text::decimal(result.attempts) + "/3"@;
        let i = head.len() as int;
        assert(notice.subrange(i, i + middle.len()) =~= middle);
        assert(text::occurs_at(notice, middle, i));
    }
}

/// What is said before another request to the first model gives the wait and the count.
pub proof fn lemma_again_notice(standing: Standing, seconds: nat)
    requires
        standing.model == Model::Primary,
    ensures
        text::occurs(
            again_notice(standing, seconds),
            " Retrying in "@ + text::decimal(seconds) + "s (attempt "@ + text::decimal(
                standing.attempt,
            ) + "/3)..."@,
        ),
{
    reveal_strlit("[*] Primary refinement model 503 unavailable. Retrying in ");
    reveal_strlit(" Retrying in ");
    reveal_strlit("/3)...");
    reveal_strlit("/");
    reveal_strlit(")...");
    text::lemma_decimal(3);
    reveal_with_fuel(text::decimal, 2);
    assert("/3)..."@ =~= "/"@ + text::decimal(3) + ")..."@);
    let notice = again_notice(standing, seconds);
    let tail = " Retrying in "@ + text::decimal(seconds) + "s (attempt "@ + text::decimal(
        standing.attempt,
    ) + "/3)..."@;
    let i = notice.len() - tail.len();
    assert(notice.subrange(i, i + tail.len()) =~= tail);
    assert(text::occurs_at(notice, tail, i));
}

} // verus!
