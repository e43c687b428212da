//! The transcription request and what its reply says.

use crate::http;
use crate::json;
use crate::json::Json;
use crate::text;
use vstd::prelude::*;
use vstd::string::*;

verus! {

/// The text of the member named `key` without white space at its ends, where anything is
/// left of it.
pub open spec fn passage(tree: json::Tree, key: Seq<char>) -> Option<Seq<char>> {
    match tree.member(key) {
        Some(member) => match member.text() {
            Some(s) => if text::trimmed(s).len() > 0 {
                Some(text::trimmed(s))
            } else {
                None
            },
            None => None,
        },
        None => None,
    }
}

/// A passage as a list of at most one.
pub open spec fn at_most_one(passage: Option<Seq<char>>) -> Seq<Seq<char>> {
    match passage {
        Some(s) => seq![s],
        None => Seq::empty(),
    }
}

/// The `text` passages of a list of items.
pub open spec fn item_passages(items: Seq<json::Tree>) -> Seq<Seq<char>>
    decreases items.len(),
{
    if items.len() == 0 {
        Seq::empty()
    } else {
        item_passages(items.drop_last()) + at_most_one(passage(items.last(), "text"@))
    }
}

/// The `text` passages of the array named `key`, where there is one.
pub open spec fn array_passages(tree: json::Tree, key: Seq<char>) -> Seq<Seq<char>> {
    match tree.member(key) {
        Some(member) => match member.items() {
            Some(items) => item_passages(items),
            None => Seq::empty(),
        },
        None => Seq::empty(),
    }
}

/// The passages of a list of steps: for each, those of its content, then its output.
pub open spec fn step_passages(steps: Seq<json::Tree>) -> Seq<Seq<char>>
    decreases steps.len(),
{
    if steps.len() == 0 {
        Seq::empty()
    } else {
        step_passages(steps.drop_last()) + (array_passages(steps.last(), "content"@) + at_most_one(
            passage(steps.last(), "output"@),
        ))
    }
}

/// The passages of the `steps` array, where there is one.
pub open spec fn all_step_passages(tree: json::Tree) -> Seq<Seq<char>> {
    match tree.member("steps"@) {
        Some(member) => match member.items() {
            Some(steps) => step_passages(steps),
            None => Seq::empty(),
        },
        None => Seq::empty(),
    }
}

/// The transcript that a reply holds: its `output_text`, else its `text`, else every
/// passage of its steps and outputs, with a space between each two.
pub open spec fn transcript(tree: json::Tree) -> Seq<char> {
    match passage(tree, "output_text"@) {
        Some(s) => s,
        None => match passage(tree, "text"@) {
            Some(s) => s,
            None => text::joined(
                all_step_passages(tree) + array_passages(tree, "outputs"@),
                " "@,
            ),
        },
    }
}

/// The text of the member named `key` without white space at its ends, where anything is
/// left of it.
fn find_passage(json: &Json, key: &str) -> (r: Option<String>)
    ensures
        match r {
            Some(s) => passage(json@, key@) == Some(s@),
            None => passage(json@, key@) is None,
        },
{
    if let Some(member) = json.get(key) {
        if let Some(s) = member.as_str() {
            let t = s.trim();
            if !t.is_empty() {
                return Some(t.to_owned());
            }
        }
    }
    None
}

/// Appends a passage, where there is one.
fn push_passage(list: &mut Vec<String>, json: &Json, key: &str)
    ensures
        text::texts(final(list)@) == text::texts(old(list)@) + at_most_one(passage(json@, key@)),
{
    let ghost before = list@;
    if let Some(s) = find_passage(json, key) {
        let ghost t = s@;
        list.push(s);
        assert(text::texts(list@) == text::texts(before) + seq![t]);
    } else {
        assert(text::texts(before) + Seq::<Seq<char>>::empty() == text::texts(before));
    }
}

/// Appends the `text` passages of the array named `key`, where there is one.
fn push_array(list: &mut Vec<String>, json: &Json, key: &str)
    ensures
        text::texts(final(list)@) == text::texts(old(list)@) + array_passages(json@, key@),
{
    let ghost before = text::texts(list@);
    assert(before + Seq::<Seq<char>>::empty() == before);
    if let Some(member) = json.get(key) {
        if let Some(items) = member.as_array() {
            let ghost trees = json::item_trees(items@);
            let mut i: usize = 0;
            while i < items.len()
                invariant
                    i <= items@.len(),
                    trees == json::item_trees(items@),
                    text::texts(list@) == before + item_passages(trees.take(i as int)),
                decreases items@.len() - i,
            {
                push_passage(list, &items[i], "text");
                proof {
                    assert(trees.take(i + 1).drop_last() == trees.take(i as int));
                    assert(trees.take(i + 1).last() == items@[i as int]@);
                }
                i = i + 1;
            }
            assert(trees.take(trees.len() as int) == trees);
        }
    }
}

/// Appends the passages of the `steps` array, where there is one.
fn push_steps(list: &mut Vec<String>, json: &Json)
    ensures
        text::texts(final(list)@) == text::texts(old(list)@) + all_step_passages(json@),
{
    let ghost before = text::texts(list@);
    assert(before + Seq::<Seq<char>>::empty() == before);
    if let Some(member) = json.get("steps") {
        if let Some(steps) = member.as_array() {
            let ghost trees = json::item_trees(steps@);
            let mut i: usize = 0;
            while i < steps.len()
                invariant
                    i <= steps@.len(),
                    trees == json::item_trees(steps@),
                    text::texts(list@) == before + step_passages(trees.take(i as int)),
                decreases steps@.len() - i,
            {
                push_array(list, &steps[i], "content");
                push_passage(list, &steps[i], "output");
                proof {
                    assert(trees.take(i + 1).drop_last() == trees.take(i as int));
                    assert(trees.take(i + 1).last() == steps@[i as int]@);
                }
                i = i + 1;
            }
            assert(trees.take(trees.len() as int) == trees);
        }
    }
}

/// The transcript that a reply holds. It is empty where the reply holds none.
pub fn extract_transcript(val: &Json) -> (r: String)
    ensures
        r@ == transcript(val@),
{
    if let Some(s) = find_passage(val, "output_text") {
        return s;
    }
    if let Some(s) = find_passage(val, "text") {
        return s;
    }
    let mut collected: Vec<String> = Vec::new();
    push_steps(&mut collected, val);
    push_array(&mut collected, val, "outputs");
    proof {
        let none = Seq::<Seq<char>>::empty();
        assert(none + all_step_passages(val@) == all_step_passages(val@));
    }
    text::join(&collected, " ")
}

/// The terms that the service is told to expect.
pub open spec fn vocabulary_tree(vocabulary: Seq<Seq<char>>) -> json::Tree {
    json::Tree::Object(
        seq![
            (
                "transcription_config"@,
                json::Tree::Object(
                    seq![
                        (
                            "custom_vocabulary"@,
                            json::Tree::Array(
                                Seq::new(
                                    vocabulary.len(),
                                    |i: int| json::Tree::Text(vocabulary[i]),
                                ),
                            ),
                        ),
                    ],
                ),
            ),
        ],
    )
}

/// A recording in a request, given in base64.
pub open spec fn audio_tree(audio: Seq<char>) -> json::Tree {
    json::Tree::Object(
        seq![
            ("type"@, json::Tree::Text("audio"@)),
            ("data"@, json::Tree::Text(audio)),
            ("mime_type"@, json::Tree::Text("audio/wav"@)),
        ],
    )
}

/// The body of a request to transcribe a recording.
pub open spec fn request_tree(audio: Seq<char>, vocabulary: Seq<Seq<char>>) -> json::Tree {
    json::Tree::Object(
        seq![
            ("model"@, json::Tree::Text("gemini-3.5-transcribe"@)),
            ("input"@, json::Tree::Array(seq![audio_tree(audio)])),
            ("generation_config"@, vocabulary_tree(vocabulary)),
        ],
    )
}

/// The body of a request to transcribe a recording, which is given in base64.
pub fn transcription_request(audio: &str, vocabulary: &Vec<String>) -> (r: Json)
    ensures
        r@ == request_tree(audio@, text::texts(vocabulary@)),
{
    let ghost terms = text::texts(vocabulary@);
    let list = json::text_array(vocabulary);
    assert(list@->Array_0 == Seq::new(terms.len(), |i: int| json::Tree::Text(terms[i])));
    let config = json::wrap("transcription_config", json::wrap("custom_vocabulary", list));
    assert(config@ == vocabulary_tree(terms));
    let recording: Vec<(String, Json)> = vec![
        ("type".to_owned(), json::text("audio")),
        ("data".to_owned(), json::text(audio)),
        ("mime_type".to_owned(), json::text("audio/wav")),
    ];
    assert(json::member_trees(recording@) == audio_tree(audio@)->Object_0);
    let input = json::only(json::object(recording));
    let members: Vec<(String, Json)> = vec![
        ("model".to_owned(), json::text("gemini-3.5-transcribe")),
        ("input".to_owned(), input),
        ("generation_config".to_owned(), config),
    ];
    assert(json::member_trees(members@) == request_tree(audio@, terms)->Object_0);
    json::object(members)
}

/// What a successful reply comes to, given what its body was parsed to.
pub open spec fn read(parsed: Result<json::Tree, Seq<char>>) -> Result<Seq<char>, Seq<char>> {
    match parsed {
        Ok(tree) => Ok(transcript(tree)),
        Err(reason) => Err("Failed parsing response JSON: "@ + reason),
    }
}

/// How a reply other than a success is reported, given how its status displays.
pub open spec fn refusal(line: Seq<char>, body: Seq<char>) -> Seq<char> {
    "Transcribe API error ("@ + line + "): "@ + body
}

/// The transcript that a reply holds, or why it holds none.
pub open spec fn outcome(status: u16, body: Seq<char>) -> Result<Seq<char>, Seq<char>> {
    if http::success(status) {
        read(json::json_parse(body))
    } else {
        Err(refusal(http::status_line(status), body))
    }
}

/// A text or a message, as the contracts have it.
pub open spec fn outcome_view(r: Result<String, String>) -> Result<Seq<char>, Seq<char>> {
    match r {
        Ok(s) => Ok(s@),
        Err(message) => Err(message@),
    }
}

/// What a successful reply comes to, given what its body was parsed to.
pub fn read_transcript(parsed: Result<Json, String>) -> (r: Result<String, String>)
    ensures
        outcome_view(r) == read(json::parse_view(parsed)),
{
    match parsed {
        Ok(json) => Ok(extract_transcript(&json)),
        Err(reason) => {
            let mut message = String::from_str("Failed parsing response JSON: ");
            message.append(reason.as_str());
            Err(message)
        },
    }
}

/// How a reply other than a success is reported, given how its status displays.
pub fn report_refusal(line: &str, body: &str) -> (r: String)
    ensures
        r@ == refusal(line@, body@),
{
    let mut message = String::from_str("Transcribe API error (");
    message.append(line);
    message.append("): ");
    message.append(body);
    message
}

/// The transcript that a reply holds, or why it holds none.
pub fn transcription_outcome(status: u16, body: &str) -> (r: Result<String, String>)
    requires
        http::is_status(status),
    ensures
        outcome_view(r) == outcome(status, body@),
{
    if http::is_success(status) {
        read_transcript(json::parse_json(body))
    } else {
        Err(report_refusal(http::display_status(status).as_str(), body))
    }
}

/// Whether every one of a list of passages has something in it, and no white space at its
/// ends.
spec fn clean(passages: Seq<Seq<char>>) -> bool {
    forall|i: int| 0 <= i < passages.len() ==> clean_text(#[trigger] passages[i])
}

spec fn clean_text(s: Seq<char>) -> bool {
    &&& s.len() > 0
    &&& !text::white_space(s.first())
    &&& !text::white_space(s.last())
}

proof fn lemma_passage_clean(tree: json::Tree, key: Seq<char>)
    ensures
        passage(tree, key) matches Some(s) ==> clean_text(s),
        clean(at_most_one(passage(tree, key))),
{
    if let Some(member) = tree.member(key) {
        if let Some(s) = member.text() {
            text::lemma_trimmed(s);
        }
    }
}

proof fn lemma_items_clean(items: Seq<json::Tree>)
    ensures
        clean(item_passages(items)),
    decreases items.len(),
{
    if items.len() > 0 {
        lemma_items_clean(items.drop_last());
        lemma_passage_clean(items.last(), "text"@);
    }
}

proof fn lemma_array_clean(tree: json::Tree, key: Seq<char>)
    ensures
        clean(array_passages(tree, key)),
{
    if let Some(member) = tree.member(key) {
        if let Some(items) = member.items() {
            lemma_items_clean(items);
        }
    }
}

proof fn lemma_steps_clean(steps: Seq<json::Tree>)
    ensures
        clean(step_passages(steps)),
    decreases steps.len(),
{
    if steps.len() > 0 {
        lemma_steps_clean(steps.drop_last());
        lemma_array_clean(steps.last(), "content"@);
        lemma_passage_clean(steps.last(), "output"@);
    }
}

/// A transcript has no white space at its ends.
pub proof fn lemma_transcript_trimmed(tree: json::Tree)
    ensures
        text::trimmed(transcript(tree)) == transcript(tree),
{
    lemma_passage_clean(tree, "output_text"@);
    lemma_passage_clean(tree, "text"@);
    if let Some(member) = tree.member("steps"@) {
        if let Some(steps) = member.items() {
            lemma_steps_clean(steps);
        }
    }
    lemma_array_clean(tree, "outputs"@);
    let parts = all_step_passages(tree) + array_passages(tree, "outputs"@);
    assert(clean(parts));
    if parts.len() > 0 {
        assert forall|i: int| 0 <= i < parts.len() implies (#[trigger] parts[i]).len() > 0 by {
            assert(clean_text(parts[i]));
        }
        text::lemma_joined_ends(parts, " "@);
        assert(clean_text(parts[0]));
        assert(clean_text(parts[parts.len() - 1]));
    }
    text::lemma_strip_nothing(transcript(tree), |c: char| text::white_space(c));
}

/// A transcript is empty exactly if the reply holds no passage in any of its places.
pub proof fn lemma_transcript_empty(tree: json::Tree)
    ensures
        transcript(tree).len() == 0 <==> {
            &&& passage(tree, "output_text"@) is None
            &&& passage(tree, "text"@) is None
            &&& all_step_passages(tree).len() == 0
            &&& array_passages(tree, "outputs"@).len() == 0
        },
{
    lemma_passage_clean(tree, "output_text"@);
    lemma_passage_clean(tree, "text"@);
    if let Some(member) = tree.member("steps"@) {
        if let Some(steps) = member.items() {
            lemma_steps_clean(steps);
        }
    }
    lemma_array_clean(tree, "outputs"@);
    let parts = all_step_passages(tree) + array_passages(tree, "outputs"@);
    assert(clean(parts));
    if parts.len() > 0 {
        assert forall|i: int| 0 <= i < parts.len() implies (#[trigger] parts[i]).len() > 0 by {
            assert(clean_text(parts[i]));
        }
        text::lemma_joined_ends(parts, " "@);
    }
}

/// Two transcripts as one, with a space between them unless one is empty.
pub open spec fn in_turn(first: Seq<char>, second: Seq<char>) -> Seq<char> {
    if first.len() == 0 {
        second
    } else if second.len() == 0 {
        first
    } else {
        first + " "@ + second
    }
}

proof fn lemma_steps_in_turn(a: Seq<json::Tree>, b: Seq<json::Tree>)
    ensures
        step_passages(a + b) == step_passages(a) + step_passages(b),
    decreases b.len(),
{
    if b.len() == 0 {
        assert(a + b =~= a);
        assert(step_passages(a) + step_passages(b) =~= step_passages(a));
    } else {
        assert((a + b).drop_last() =~= a + b.drop_last());
        lemma_steps_in_turn(a, b.drop_last());
        assert(step_passages(a + b) =~= step_passages(a) + step_passages(b));
    }
}

proof fn lemma_items_in_turn(a: Seq<json::Tree>, b: Seq<json::Tree>)
    ensures
        item_passages(a + b) == item_passages(a) + item_passages(b),
    decreases b.len(),
{
    if b.len() == 0 {
        assert(a + b =~= a);
        assert(item_passages(a) + item_passages(b) =~= item_passages(a));
    } else {
        assert((a + b).drop_last() =~= a + b.drop_last());
        lemma_items_in_turn(a, b.drop_last());
        assert(item_passages(a + b) =~= item_passages(a) + item_passages(b));
    }
}

/// Clean passages joined are empty only where there are none, so joining two lists of them
/// puts their texts in turn.
proof fn lemma_clean_in_turn(a: Seq<Seq<char>>, b: Seq<Seq<char>>)
    requires
        clean(a),
        clean(b),
    ensures
        text::joined(a + b, " "@) == in_turn(text::joined(a, " "@), text::joined(b, " "@)),
{
    text::lemma_joined_lists(a, b, " "@);
    lemma_clean_empty(a);
    lemma_clean_empty(b);
}

proof fn lemma_clean_empty(passages: Seq<Seq<char>>)
    requires
        clean(passages),
    ensures
        text::joined(passages, " "@).len() == 0 <==> passages.len() == 0,
{
    if passages.len() > 0 {
        assert forall|i: int| 0 <= i < passages.len() implies (#[trigger] passages[i]).len()
            > 0 by {
            assert(clean_text(passages[i]));
        }
        text::lemma_joined_ends(passages, " "@);
    }
}

/// A reply that holds steps and outputs, and nothing else.
pub open spec fn reply_tree(steps: Seq<json::Tree>, outputs: Seq<json::Tree>) -> json::Tree {
    json::Tree::Object(
        seq![("steps"@, json::Tree::Array(steps)), ("outputs"@, json::Tree::Array(outputs))],
    )
}

proof fn lemma_reply(steps: Seq<json::Tree>, outputs: Seq<json::Tree>)
    ensures
        transcript(reply_tree(steps, outputs)) == in_turn(
            text::joined(step_passages(steps), " "@),
            text::joined(item_passages(outputs), " "@),
        ),
{
    reveal_strlit("output_text");
    reveal_strlit("text");
    reveal_strlit("steps");
    reveal_strlit("outputs");
    assert("output_text"@.len() == 11 && "text"@.len() == 4);
    assert("steps"@.len() == 5 && "outputs"@.len() == 7);
    let tree = reply_tree(steps, outputs);
    let members = tree->Object_0;
    assert(members.drop_first()[0] == members[1]);
    reveal_with_fuel(json::lookup, 3);
    assert(tree.member("steps"@) == Some(json::Tree::Array(steps)));
    assert(tree.member("outputs"@) == Some(json::Tree::Array(outputs)));
    lemma_steps_clean(steps);
    lemma_items_clean(outputs);
    lemma_clean_in_turn(step_passages(steps), item_passages(outputs));
}

/// The transcript of two lists of steps is that of the one and then that of the other, and
/// so it is for two lists of outputs. Outputs come after steps.
pub proof fn lemma_transcripts_in_turn(a: Seq<json::Tree>, b: Seq<json::Tree>)
    ensures
        ({
            let none = Seq::<json::Tree>::empty();
            &&& transcript(reply_tree(a + b, none)) == in_turn(
                transcript(reply_tree(a, none)),
                transcript(reply_tree(b, none)),
            )
            &&& transcript(reply_tree(none, a + b)) == in_turn(
                transcript(reply_tree(none, a)),
                transcript(reply_tree(none, b)),
            )
            &&& transcript(reply_tree(a, b)) == in_turn(
                transcript(reply_tree(a, none)),
                transcript(reply_tree(none, b)),
            )
        }),
{
    let none = Seq::<json::Tree>::empty();
    lemma_reply(a + b, none);
    lemma_reply(a, none);
    lemma_reply(b, none);
    lemma_reply(none, a + b);
    lemma_reply(none, a);
    lemma_reply(none, b);
    lemma_reply(a, b);
    lemma_steps_in_turn(a, b);
    lemma_items_in_turn(a, b);
    lemma_steps_clean(a);
    lemma_steps_clean(b);
    lemma_items_clean(a);
    lemma_items_clean(b);
    lemma_clean_in_turn(step_passages(a), step_passages(b));
    lemma_clean_in_turn(item_passages(a), item_passages(b));
    assert(text::joined(Seq::<Seq<char>>::empty(), " "@) == Seq::<char>::empty());
    assert(step_passages(none) == Seq::<Seq<char>>::empty());
    assert(item_passages(none) == Seq::<Seq<char>>::empty());
}

/// A request holds the recording, and every term of the vocabulary in its place.
pub proof fn lemma_request_holds(audio: Seq<char>, vocabulary: Seq<Seq<char>>)
    ensures
        ({
            let request = request_tree(audio, vocabulary);
            &&& request.member("input"@) matches Some(input)
            &&& input.items() matches Some(items)
            &&& items.len() == 1
            &&& items[0].member("data"@) == Some(json::Tree::Text(audio))
            &&& request.member("generation_config"@) matches Some(config)
            &&& config.member("transcription_config"@) matches Some(inner)
            &&& inner.member("custom_vocabulary"@) matches Some(list)
            &&& list.items() matches Some(terms)
            &&& terms.len() == vocabulary.len()
            &&& forall|i: int|
                0 <= i < terms.len() ==> #[trigger] terms[i] == json::Tree::Text(vocabulary[i])
        }),
{
    reveal_strlit("model");
    reveal_strlit("input");
    reveal_strlit("generation_config");
    reveal_strlit("type");
    reveal_strlit("data");
    reveal_strlit("mime_type");
    reveal_with_fuel(json::lookup, 4);
    assert("model"@[0] != "input"@[0]);
    assert("type"@[0] != "data"@[0]);
}

/// Whether a reply has a text under `key` that is more than white space.
pub open spec fn speaks(tree: json::Tree, key: Seq<char>) -> bool {
    tree.member(key) matches Some(json::Tree::Text(s)) && !text::blank(s)
}

/// What a member comes to: its text without the white space at its ends, or nothing where
/// it is no text.
pub open spec fn member_says(tree: json::Tree, key: Seq<char>, said: Seq<char>) -> bool {
    match tree.member(key) {
        Some(json::Tree::Text(s)) => text::trims_to(s, said),
        _ => said.len() == 0,
    }
}

proof fn lemma_passage(tree: json::Tree, key: Seq<char>, said: Seq<char>)
    ensures
        passage(tree, key) is Some <==> speaks(tree, key),
        member_says(tree, key, said) ==> at_most_one(passage(tree, key)) == if said.len() > 0 {
            seq![said]
        } else {
            Seq::empty()
        },
        member_says(tree, key, said) && said.len() > 0 ==> passage(tree, key) == Some(said),
        passage(tree, key) == Some(said) ==> member_says(tree, key, said),
{
    if let Some(json::Tree::Text(s)) = tree.member(key) {
        text::lemma_trims_to(s, said);
    }
}

/// Where `output_text` says anything, the transcript is that text, whatever else the reply
/// holds.
pub proof fn lemma_output_text_first(tree: json::Tree, s: Seq<char>)
    requires
        tree.member("output_text"@) == Some(json::Tree::Text(s)),
        !text::blank(s),
    ensures
        text::trims_to(s, transcript(tree)),
        transcript(tree).len() > 0,
{
    text::lemma_trims_to(s, transcript(tree));
}

/// Where `output_text` says nothing and `text` does, the transcript is that text, whatever
/// else the reply holds.
pub proof fn lemma_text_second(tree: json::Tree, s: Seq<char>)
    requires
        !speaks(tree, "output_text"@),
        tree.member("text"@) == Some(json::Tree::Text(s)),
        !text::blank(s),
    ensures
        text::trims_to(s, transcript(tree)),
        transcript(tree).len() > 0,
{
    lemma_passage(tree, "output_text"@, Seq::empty());
    text::lemma_trims_to(s, transcript(tree));
}

/// The items of the array under `key`, or none.
pub open spec fn list_under(tree: json::Tree, key: Seq<char>) -> Seq<json::Tree> {
    match tree.member(key) {
        Some(json::Tree::Array(items)) => items,
        _ => Seq::empty(),
    }
}

/// Where neither `output_text` nor `text` says anything, the transcript is that of the steps
/// and outputs alone.
pub proof fn lemma_lists_third(tree: json::Tree)
    requires
        !speaks(tree, "output_text"@),
        !speaks(tree, "text"@),
    ensures
        transcript(tree) == transcript(
            reply_tree(list_under(tree, "steps"@), list_under(tree, "outputs"@)),
        ),
{
    let steps = list_under(tree, "steps"@);
    let outputs = list_under(tree, "outputs"@);
    lemma_passage(tree, "output_text"@, Seq::empty());
    lemma_passage(tree, "text"@, Seq::empty());
    lemma_reply(steps, outputs);
    lemma_steps_clean(steps);
    lemma_items_clean(outputs);
    lemma_clean_in_turn(step_passages(steps), item_passages(outputs));
    assert(all_step_passages(tree) =~= step_passages(steps));
    assert(array_passages(tree, "outputs"@) =~= item_passages(outputs));
}

/// A reply without steps and outputs has no transcript, and one with a single output has its
/// text for a transcript.
pub proof fn lemma_one_output(item: json::Tree, said: Seq<char>)
    requires
        member_says(item, "text"@, said),
    ensures
        transcript(reply_tree(Seq::empty(), Seq::empty())).len() == 0,
        transcript(reply_tree(Seq::empty(), seq![item])) == said,
{
    let none = Seq::<json::Tree>::empty();
    lemma_reply(none, none);
    lemma_reply(none, seq![item]);
    lemma_passage(item, "text"@, said);
    assert(seq![item].drop_last() =~= none);
    assert(item_passages(none) =~= Seq::empty());
    assert(step_passages(none) =~= Seq::empty());
    assert(item_passages(seq![item]) =~= at_most_one(passage(item, "text"@)));
    assert(text::joined(Seq::<Seq<char>>::empty(), " "@) =~= Seq::empty());
}

/// The transcript of a single step is that of its content, taken as outputs, and then its
/// own output.
pub proof fn lemma_one_step(step: json::Tree, said: Seq<char>)
    requires
        member_says(step, "output"@, said),
    ensures
        transcript(reply_tree(seq![step], Seq::empty())) == in_turn(
            transcript(reply_tree(Seq::empty(), list_under(step, "content"@))),
            said,
        ),
{
    let none = Seq::<json::Tree>::empty();
    let content = list_under(step, "content"@);
    lemma_reply(seq![step], none);
    lemma_reply(none, content);
    lemma_passage(step, "output"@, said);
    lemma_passage_clean(step, "output"@);
    lemma_items_clean(content);
    assert(seq![step].drop_last() =~= none);
    assert(item_passages(none) =~= Seq::empty());
    assert(step_passages(none) =~= Seq::empty());
    let own = at_most_one(passage(step, "output"@));
    assert(array_passages(step, "content"@) =~= item_passages(content));
    assert(step_passages(seq![step]) =~= item_passages(content) + own);
    lemma_clean_in_turn(item_passages(content), own);
    assert(text::joined(Seq::<Seq<char>>::empty(), " "@) =~= Seq::empty());
    assert(text::joined(own, " "@) =~= said);
}

/// Nothing but `output_text`, `text`, `steps` and `outputs` has a say in the transcript.
pub proof fn lemma_other_members(a: json::Tree, b: json::Tree)
    requires
        a.member("output_text"@) == b.member("output_text"@),
        a.member("text"@) == b.member("text"@),
        a.member("steps"@) == b.member("steps"@),
        a.member("outputs"@) == b.member("outputs"@),
    ensures
        transcript(a) == transcript(b),
{
}

/// A request names the model and says that its one input is a WAV recording.
pub proof fn lemma_request_form(audio: Seq<char>, vocabulary: Seq<Seq<char>>)
    ensures
        ({
            let request = request_tree(audio, vocabulary);
            &&& request.member("model"@) == Some(json::Tree::Text("gemini-3.5-transcribe"@))
            &&& request->Object_0.len() == 3
            &&& request.member("input"@) matches Some(input)
            &&& input.items() matches Some(items)
            &&& items[0].member("type"@) == Some(json::Tree::Text("audio"@))
            &&& items[0].member("mime_type"@) == Some(json::Tree::Text("audio/wav"@))
        }),
{
    lemma_request_holds(audio, vocabulary);
    reveal_strlit("model");
    reveal_strlit("input");
    reveal_strlit("type");
    reveal_strlit("data");
    reveal_strlit("mime_type");
    reveal_with_fuel(json::lookup, 4);
    assert("model"@[0] != "input"@[0]);
    assert("type"@[0] != "data"@[0]);
    assert("type"@.len() != "mime_type"@.len());
    assert("data"@.len() != "mime_type"@.len());
}

/// What was read from a body decides: the transcript of a document, or the reason why there
/// is none. A refusal is told with how its status displays and the whole body.
pub proof fn lemma_told(tree: json::Tree, reason: Seq<char>, line: Seq<char>, body: Seq<char>)
    ensures
        read(Ok::<json::Tree, Seq<char>>(tree)) == Ok::<Seq<char>, Seq<char>>(transcript(tree)),
        match read(Err::<json::Tree, Seq<char>>(reason)) {
            Ok(_) => false,
            Err(message) => text::ends_with(message, "JSON: "@ + reason),
        },
        text::ends_with(refusal(line, body), "API error ("@ + line + "): "@ + body),
{
    reveal_strlit("Transcribe API error (");
    reveal_strlit("API error (");
    reveal_strlit("JSON: ");
    reveal_strlit("Failed parsing response JSON: ");
    let message = "Failed parsing response JSON: "@ + reason;
    let tail = "JSON: "@ + reason;
    assert(message.skip(message.len() - tail.len()) =~= tail);
    let told = refusal(line, body);
    let end = "API error ("@ + line + "): "@ + body;
    assert(told.skip(told.len() - end.len()) =~= end);
}

/// A transcript comes of a success alone, and of every success whose body can be read. A
/// refusal is told with its status and the whole body, and an unreadable body with the
/// reason.
pub proof fn lemma_outcome(status: u16, body: Seq<char>)
    requires
        100 <= status < 1000,
    ensures
        status as int / 100 == 2 ==> match json::json_parse(body) {
            Ok(tree) => outcome(status, body) == Ok::<Seq<char>, Seq<char>>(transcript(tree)),
            Err(reason) => match outcome(status, body) {
                Ok(_) => false,
                Err(message) => text::ends_with(message, ": "@ + reason),
            },
        },
        status as int / 100 != 2 ==> match outcome(status, body) {
            Ok(_) => false,
            Err(message) => {
                &&& text::ends_with(message, "): "@ + body)
                &&& message.take(22) == "Transcribe API error ("@
                &&& text::number_of(message.subrange(22, 25)) == status
            },
        },
{
    http::lemma_success(status);
    http::lemma_status_line(status);
    reveal_strlit("Transcribe API error (");
    reveal_strlit("): ");
    reveal_strlit(": ");
    reveal_strlit("Failed parsing response JSON: ");
    if http::success(status) {
        if let Err(reason) = json::json_parse(body) {
            let message = "Failed parsing response JSON: "@ + reason;
            let tail = ": "@ + reason;
            assert(message.skip(message.len() - tail.len()) =~= tail);
        }
    } else {
        let line = http::status_line(status);
        let message = refusal(line, body);
        let tail = "): "@ + body;
        assert(message.skip(message.len() - tail.len()) =~= tail);
        assert(message.take(22) =~= "Transcribe API error ("@);
        assert(message.subrange(22, 25) =~= line.take(3));
    }
}

} // verus!
