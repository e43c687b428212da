//! Where the API key comes from.

use crate::text;
use vstd::prelude::*;
use vstd::string::*;

verus! {

/// What a line of a secrets file that sets the key starts with.
pub open spec fn assignment() -> Seq<char> {
    "$env.GEMINI_API_KEY"@
}

/// The characters that may surround a key in a secrets file.
pub open spec fn quoting(c: char) -> bool {
    c == '"' || c == '\'' || c == ';' || c == ' '
}

/// `s` without quoting characters at either end.
pub open spec fn unquoted(s: Seq<char>) -> Seq<char> {
    text::strip(s, |c: char| quoting(c))
}

/// `s` if it is not empty.
pub open spec fn unless_empty(s: Seq<char>) -> Option<Seq<char>> {
    if s.len() > 0 {
        Some(s)
    } else {
        None
    }
}

/// The position of the first `c` in `s`, or the length of `s`.
pub open spec fn find(s: Seq<char>, c: char) -> nat
    decreases s.len(),
{
    if s.len() == 0 || s.first() == c {
        0
    } else {
        find(s.drop_first(), c) + 1
    }
}

/// What a line without white space at its ends sets the key to.
pub open spec fn line_key(line: Seq<char>) -> Option<Seq<char>> {
    let at = find(line, '=');
    if text::occurs_at(line, assignment(), 0) && at < line.len() {
        unless_empty(unquoted(text::trimmed(line.skip(at as int + 1))))
    } else {
        None
    }
}

/// The key that the first line of a secrets file that sets one sets.
pub open spec fn secrets_key(content: Seq<char>) -> Option<Seq<char>>
    decreases content.len(),
{
    let end = find(content, '\n');
    match line_key(text::trimmed(content.take(end as int))) {
        Some(key) => Some(key),
        None => if end < content.len() {
            secrets_key(content.skip(end as int + 1))
        } else {
            None
        },
    }
}

/// A text, where there is one.
pub open spec fn opt_text(s: Option<String>) -> Option<Seq<char>> {
    match s {
        Some(s) => Some(s@),
        None => None,
    }
}

proof fn lemma_find(s: Seq<char>, c: char, i: nat)
    requires
        i <= s.len(),
        forall|j: int| 0 <= j < i ==> s[j] != c,
        i < s.len() ==> s[i as int] == c,
    ensures
        find(s, c) == i,
    decreases s.len(),
{
    if i > 0 {
        lemma_find(s.drop_first(), c, (i - 1) as nat);
    }
}

/// The position of the first `c` from `from` on, or the length.
fn position(chars: &Vec<char>, c: char, from: usize) -> (r: usize)
    requires
        from <= chars@.len(),
    ensures
        from <= r <= chars@.len(),
        r - from == find(chars@.skip(from as int), c),
{
    let mut i: usize = from;
    while i < chars.len() && chars[i] != c
        invariant
            from <= i <= chars@.len(),
            forall|j: int| from <= j < i ==> chars@[j] != c,
        decreases chars@.len() - i,
    {
        i = i + 1;
    }
    proof {
        let s = chars@.skip(from as int);
        assert forall|j: int| 0 <= j < i - from implies s[j] != c by {
            assert(s[j] == chars@[from + j]);
        }
        lemma_find(s, c, (i - from) as nat);
    }
    i
}

fn is_quoting(c: char) -> (r: bool)
    ensures
        r == quoting(c),
{
    c == '"' || c == '\'' || c == ';' || c == ' '
}

/// `s` without quoting characters at either end.
fn unquote(s: &str) -> (r: String)
    ensures
        r@ == unquoted(s@),
{
    let chars = text::characters(s);
    let ghost drop = |c: char| quoting(c);
    let mut from: usize = 0;
    assert(chars@.skip(0) == chars@);
    while from < chars.len() && is_quoting(chars[from])
        invariant
            from <= chars@.len(),
            drop == (|c: char| quoting(c)),
            text::strip_start(chars@, drop) == text::strip_start(chars@.skip(from as int), drop),
        decreases chars@.len() - from,
    {
        assert(chars@.skip(from as int).drop_first() == chars@.skip(from + 1));
        from = from + 1;
    }
    assert(text::strip_start(chars@, drop) == chars@.skip(from as int));
    let mut to: usize = chars.len();
    assert(chars@.subrange(from as int, to as int) == chars@.skip(from as int));
    while to > from && is_quoting(chars[to - 1])
        invariant
            from <= to <= chars@.len(),
            drop == (|c: char| quoting(c)),
            text::strip_end(chars@.skip(from as int), drop) == text::strip_end(
                chars@.subrange(from as int, to as int),
                drop,
            ),
        decreases to,
    {
        assert(chars@.subrange(from as int, to as int).drop_last() == chars@.subrange(
            from as int,
            to - 1,
        ));
        to = to - 1;
    }
    text::slice_text(&chars, from, to)
}

/// What a line without white space at its ends sets the key to.
pub fn key_of_line(line: &str) -> (r: Option<String>)
    ensures
        opt_text(r) == line_key(line@),
{
    let chars = text::characters(line);
    let prefix = text::characters("$env.GEMINI_API_KEY");
    if !text::stands_at(&chars, &prefix, 0) {
        return None;
    }
    assert(chars@.skip(0) == chars@);
    let at = position(&chars, '=', 0);
    if at == chars.len() {
        return None;
    }
    let rest = text::slice_text(&chars, at + 1, chars.len());
    assert(rest@ == line@.skip(at + 1));
    let key = unquote(rest.as_str().trim());
    if key.as_str().is_empty() {
        None
    } else {
        Some(key)
    }
}

/// The key that the first line of a secrets file that sets one sets.
pub fn key_from_secrets(content: &str) -> (r: Option<String>)
    ensures
        opt_text(r) == secrets_key(content@),
{
    let chars = text::characters(content);
    let len: usize = chars.len();
    let mut from: usize = 0;
    assert(chars@.skip(0) == chars@);
    loop
        invariant
            from <= len,
            len == chars@.len(),
            chars@ == content@,
            secrets_key(content@) == secrets_key(chars@.skip(from as int)),
        decreases len - from,
    {
        let end = position(&chars, '\n', from);
        let line = text::slice_text(&chars, from, end);
        proof {
            let rest = chars@.skip(from as int);
            assert(line@ == rest.take(end - from));
            if end < len {
                assert(rest.skip(end - from + 1) == chars@.skip(end + 1));
            }
        }
        if let Some(key) = key_of_line(line.as_str().trim()) {
            return Some(key);
        }
        if end == len {
            return None;
        }
        from = end + 1;
    }
}

/// The key that an environment variable holds: its text without white space at its ends,
/// where anything is left of it.
pub fn key_from_variable(value: &str) -> (r: Option<String>)
    ensures
        opt_text(r) == unless_empty(text::trimmed(value@)),
{
    let t = value.trim();
    if t.is_empty() {
        None
    } else {
        Some(t.to_owned())
    }
}

/// The key to use: the environment's, else that of the secrets file.
pub open spec fn resolved(variable: Option<Seq<char>>, secrets: Option<Seq<char>>) -> Option<
    Seq<char>,
> {
    let from_variable = match variable {
        Some(value) => unless_empty(text::trimmed(value)),
        None => None,
    };
    match from_variable {
        Some(key) => Some(key),
        None => match secrets {
            Some(content) => secrets_key(content),
            None => None,
        },
    }
}

/// The key to use, given the environment variable and the secrets file, each where it can
/// be had.
pub fn resolve_gemini_api_key(variable: Option<&str>, secrets: Option<&str>) -> (r: Option<String>)
    ensures
        opt_text(r) == resolved(
            match variable {
                Some(s) => Some(s@),
                None => None,
            },
            match secrets {
                Some(s) => Some(s@),
                None => None,
            },
        ),
{
    if let Some(value) = variable {
        if let Some(key) = key_from_variable(value) {
            return Some(key);
        }
    }
    match secrets {
        Some(content) => key_from_secrets(content),
        None => None,
    }
}

/// The components of the path of the secrets file, given the value of `APPDATA`.
pub fn secrets_path(app_data: &str) -> (r: Vec<String>)
    ensures
        text::texts(r@) == seq![app_data@, "nushell"@, "secrets.nu"@],
{
    let mut r: Vec<String> = Vec::new();
    r.push(app_data.to_owned());
    r.push("nushell".to_owned());
    r.push("secrets.nu".to_owned());
    r
}

proof fn lemma_find_prefix(a: Seq<char>, b: Seq<char>, c: char, i: nat)
    requires
        i <= a.len(),
        forall|j: int| 0 <= j < i ==> a[j] != c,
        i < a.len() ==> a[i as int] == c,
        i == a.len() ==> b.len() == 0 || b[0] == c,
    ensures
        find(a + b, c) == i,
{
    lemma_find(a + b, c, i);
}

/// A line that sets the key, as a shell would have it.
pub open spec fn assignment_line(key: Seq<char>) -> Seq<char> {
    assignment() + " = \""@ + key + "\""@
}

/// A key that is written on a line of its own is read back, whatever lines follow. The
/// line cannot hold a key with a line break in it, nor one with quoting characters at
/// its ends.
pub proof fn lemma_assignment_read(key: Seq<char>, rest: Seq<char>)
    requires
        key.len() > 0,
        !quoting(key.first()),
        !quoting(key.last()),
        !key.contains('\n'),
        rest.len() == 0 || rest[0] == '\n',
    ensures
        secrets_key(assignment_line(key) + rest) == Some(key),
{
    reveal_strlit("$env.GEMINI_API_KEY");
    reveal_strlit(" = \"");
    reveal_strlit("\"");
    let line = assignment_line(key);
    let n = line.len() as int;
    let content = line + rest;
    assert forall|j: int| 0 <= j < n implies line[j] != '\n' by {
        if 23 <= j < n - 1 {
            assert(line[j] == key[j - 23]);
        }
    }
    lemma_find_prefix(line, rest, '\n', n as nat);
    assert(content.take(n) =~= line);
    text::lemma_strip_nothing(line, |c: char| text::white_space(c));
    assert(text::trimmed(line) == line);
    assert(line.subrange(0, 19) =~= assignment());
    assert(text::occurs_at(line, assignment(), 0));
    assert(line =~= line + Seq::empty());
    lemma_find_prefix(line, Seq::empty(), '=', 20);
    let value = line.skip(21);
    let quoted = value.drop_first();
    let white = |c: char| text::white_space(c);
    assert(value.first() == ' ');
    assert(quoted.first() == '"' && quoted.last() == '"');
    assert(text::strip_start(value, white) == text::strip_start(quoted, white));
    text::lemma_strip_nothing(quoted, white);
    assert(text::trimmed(value) == quoted);
    let quote = |c: char| quoting(c);
    let open = quoted.drop_first();
    assert(open.drop_last() =~= key);
    assert(open.last() == '"');
    assert(open.first() == key.first());
    assert(text::strip_start(quoted, quote) == text::strip_start(open, quote));
    assert(text::strip_start(open, quote) == open);
    assert(text::strip_end(open, quote) == text::strip_end(key, quote));
    assert(text::strip_end(key, quote) == key);
}

/// A line that sets no key is passed over.
pub proof fn lemma_line_passed_over(line: Seq<char>, rest: Seq<char>)
    requires
        !line.contains('\n'),
        line_key(text::trimmed(line)) is None,
    ensures
        secrets_key(line + seq!['\n'] + rest) == secrets_key(rest),
{
    let content = line + seq!['\n'] + rest;
    let n = line.len() as int;
    let tail = seq!['\n'] + rest;
    assert(content =~= line + tail);
    assert forall|j: int| 0 <= j < n implies line[j] != '\n' by {
        assert(line.contains(line[j]));
    }
    lemma_find_prefix(line, tail, '\n', n as nat);
    assert(content.take(n) =~= line);
    assert(content.skip(n + 1) =~= rest);
}

/// A secrets file keeps its key when lines are appended, and has that of the appended
/// lines where it had none.
pub proof fn lemma_lines_appended(content: Seq<char>, more: Seq<char>)
    ensures
        secrets_key(content + seq!['\n'] + more) == match secrets_key(content) {
            Some(key) => Some(key),
            None => secrets_key(more),
        },
    decreases content.len(),
{
    let tail = seq!['\n'] + more;
    let whole = content + seq!['\n'] + more;
    assert(whole =~= content + tail);
    let end = find(content, '\n');
    lemma_find_first(content, '\n');
    lemma_find_prefix(content, tail, '\n', end);
    assert(whole.take(end as int) =~= content.take(end as int));
    if end < content.len() {
        let rest = content.skip(end as int + 1);
        lemma_lines_appended(rest, more);
        assert(whole.skip(end as int + 1) =~= rest + seq!['\n'] + more);
    } else {
        assert(whole.skip(end as int + 1) =~= more);
    }
}

proof fn lemma_find_first(s: Seq<char>, c: char)
    ensures
        find(s, c) <= s.len(),
        forall|j: int| 0 <= j < find(s, c) ==> #[trigger] s[j] != c,
        find(s, c) < s.len() ==> s[find(s, c) as int] == c,
    decreases s.len(),
{
    if s.len() > 0 && s.first() != c {
        let rest = s.drop_first();
        lemma_find_first(rest, c);
        assert forall|j: int| 0 <= j < find(s, c) implies #[trigger] s[j] != c by {
            if j > 0 {
                assert(rest[j - 1] == s[j]);
            }
        }
    }
}

/// A key is never empty. One from a secrets file has no quoting characters at its ends,
/// and one from the environment no white space.
pub proof fn lemma_key_clean(variable: Option<Seq<char>>, secrets: Option<Seq<char>>)
    ensures
        resolved(variable, secrets) matches Some(key) ==> {
            &&& key.len() > 0
            &&& if variable matches Some(value) && text::trimmed(value).len() > 0 {
                !text::white_space(key.first()) && !text::white_space(key.last())
            } else {
                !quoting(key.first()) && !quoting(key.last())
            }
        },
{
    if let Some(value) = variable {
        text::lemma_trimmed(value);
    }
    if let Some(content) = secrets {
        lemma_secrets_key_clean(content);
    }
}

proof fn lemma_secrets_key_clean(content: Seq<char>)
    ensures
        secrets_key(content) matches Some(key) ==> {
            &&& key.len() > 0
            &&& !quoting(key.first())
            &&& !quoting(key.last())
        },
    decreases content.len(),
{
    let end = find(content, '\n');
    let line = text::trimmed(content.take(end as int));
    let at = find(line, '=');
    text::lemma_strip_clean(text::trimmed(line.skip(at as int + 1)), |c: char| quoting(c));
    if end < content.len() {
        lemma_secrets_key_clean(content.skip(end as int + 1));
    }
}

/// The environment comes first: the secrets file counts only where the variable is
/// missing or blank.
pub proof fn lemma_variable_first(value: Seq<char>, secrets: Option<Seq<char>>)
    ensures
        resolved(None, secrets) == match secrets {
            Some(content) => secrets_key(content),
            None => None,
        },
        resolved(Some(value), secrets) == if text::trimmed(value).len() > 0 {
            Some(text::trimmed(value))
        } else {
            resolved(None, secrets)
        },
{
}

proof fn lemma_single_line(line: Seq<char>)
    requires
        !line.contains('\n'),
    ensures
        secrets_key(line) == line_key(text::trimmed(line)),
{
    assert forall|j: int| 0 <= j < line.len() implies line[j] != '\n' by {
        assert(line.contains(line[j]));
    }
    lemma_find(line, '\n', line.len());
    assert(line.take(line.len() as int) =~= line);
}

/// A line that does not begin with `$env.GEMINI_API_KEY`, white space aside, sets no key.
pub proof fn lemma_other_line(line: Seq<char>, t: Seq<char>)
    requires
        !line.contains('\n'),
        text::trims_to(line, t),
        !(t.len() >= 19 && t.take(19) == "$env.GEMINI_API_KEY"@),
    ensures
        secrets_key(line) is None,
{
    reveal_strlit("$env.GEMINI_API_KEY");
    text::lemma_trims_to(line, t);
    lemma_single_line(line);
    if text::occurs_at(t, assignment(), 0) {
        assert(t.take(19) =~= t.subrange(0, 19));
    }
}

/// A line without an equals sign sets no key.
pub proof fn lemma_line_without_equals(line: Seq<char>)
    requires
        !line.contains('\n'),
        !line.contains('='),
    ensures
        secrets_key(line) is None,
{
    lemma_single_line(line);
    let t = text::trimmed(line);
    let (a, b) = text::lemma_strip_parts(line, |c: char| text::white_space(c));
    assert forall|j: int| 0 <= j < t.len() implies t[j] != '=' by {
        assert(line[a.len() + j] == t[j]);
        assert(line.contains(line[a.len() + j]));
    }
    lemma_find(t, '=', t.len());
}

/// Whether `s` holds nothing but white space and the characters that may surround a key.
pub open spec fn surrounding(s: Seq<char>) -> bool {
    forall|i: int|
        0 <= i < s.len() ==> {
            ||| text::white_space(#[trigger] s[i])
            ||| s[i] == '"'
            ||| s[i] == '\''
            ||| s[i] == ';'
        }
}

/// Whether `t` assigns `key`: the variable, something without an equals sign, the sign, and
/// the key with nothing but white space and quotes around it.
pub open spec fn assigns(
    t: Seq<char>,
    gap: Seq<char>,
    before: Seq<char>,
    key: Seq<char>,
    after: Seq<char>,
) -> bool {
    &&& t == "$env.GEMINI_API_KEY"@ + gap + seq!['='] + before + key + after
    &&& !gap.contains('=')
    &&& surrounding(before)
    &&& surrounding(after)
}

/// The key that a line sets is what stands behind the first equals sign, without white space
/// and quotes at its ends.
pub proof fn lemma_line_assigns(line: Seq<char>, t: Seq<char>, key: Seq<char>)
    requires
        !line.contains('\n'),
        text::trims_to(line, t),
        secrets_key(line) == Some(key),
    ensures
        key.len() > 0,
        key.first() != '"' && key.first() != '\'' && key.first() != ';' && key.first() != ' ',
        key.last() != '"' && key.last() != '\'' && key.last() != ';' && key.last() != ' ',
        exists|gap: Seq<char>, before: Seq<char>, after: Seq<char>| #[trigger]
            assigns(t, gap, before, key, after),
{
    reveal_strlit("$env.GEMINI_API_KEY");
    text::lemma_trims_to(line, t);
    lemma_single_line(line);
    let at = find(t, '=') as int;
    lemma_find_first(t, '=');
    let value = t.skip(at + 1);
    let white = |c: char| text::white_space(c);
    let quote = |c: char| quoting(c);
    let inner = text::trimmed(value);
    let (a, b) = text::lemma_strip_parts(value, white);
    let (c, d) = text::lemma_strip_parts(inner, quote);
    text::lemma_strip_clean(inner, quote);
    assert(key == text::strip(inner, quote));
    let head = t.subrange(0, 19);
    assert(head == "$env.GEMINI_API_KEY"@);
    assert forall|j: int| 0 <= j < 19 implies "$env.GEMINI_API_KEY"@[j] != '=' by {}
    assert(at >= 19) by {
        if at < 19 {
            assert(t[at] == head[at]);
        }
    }
    let gap = t.subrange(19, at);
    let before = a + c;
    let after = d + b;
    assert forall|i: int| 0 <= i < before.len() implies {
        ||| text::white_space(#[trigger] before[i])
        ||| before[i] == '"'
        ||| before[i] == '\''
        ||| before[i] == ';'
    } by {
        if i < a.len() {
            assert(white(a[i]));
        } else {
            assert(quote(c[i - a.len()]));
        }
    }
    assert forall|i: int| 0 <= i < after.len() implies {
        ||| text::white_space(#[trigger] after[i])
        ||| after[i] == '"'
        ||| after[i] == '\''
        ||| after[i] == ';'
    } by {
        if i < d.len() {
            assert(quote(d[i]));
        } else {
            assert(white(b[i - d.len()]));
        }
    }
    assert(!gap.contains('=')) by {
        if gap.contains('=') {
            let j = choose|j: int| 0 <= j < gap.len() && gap[j] == '=';
            assert(t[19 + j] == '=');
        }
    }
    assert(t =~= head + gap + seq!['='] + value);
    assert(value =~= a + (c + key + d) + b);
    assert(t =~= "$env.GEMINI_API_KEY"@ + gap + seq!['='] + before + key + after);
    assert(assigns(t, gap, before, key, after));
}

/// A line sets the key that it assigns, in whatever quotes and with whatever white space
/// around these.
pub proof fn lemma_line_sets(
    lead: Seq<char>,
    gap: Seq<char>,
    w1: Seq<char>,
    q1: Seq<char>,
    key: Seq<char>,
    q2: Seq<char>,
    w2: Seq<char>,
)
    requires
        key.len() > 0,
        !quoting(key.first()) && !text::white_space(key.first()),
        !quoting(key.last()) && !text::white_space(key.last()),
        text::blank(lead) && text::blank(w1) && text::blank(w2),
        forall|i: int| 0 <= i < q1.len() ==> quoting(#[trigger] q1[i]) && q1[i] != ' ',
        forall|i: int| 0 <= i < q2.len() ==> quoting(#[trigger] q2[i]) && q2[i] != ' ',
        !gap.contains('='),
        !(lead + gap + w1 + key + w2).contains('\n'),
    ensures
        secrets_key(
            lead + "$env.GEMINI_API_KEY"@ + gap + seq!['='] + w1 + q1 + key + q2 + w2,
        ) == Some(key),
{
    reveal_strlit("$env.GEMINI_API_KEY");
    let name = "$env.GEMINI_API_KEY"@;
    let line = lead + name + gap + seq!['='] + w1 + q1 + key + q2 + w2;
    let white = |c: char| text::white_space(c);
    let quote = |c: char| quoting(c);
    let risky = lead + gap + w1 + key + w2;
    // no line break
    assert forall|j: int| 0 <= j < line.len() implies line[j] != '\n' by {
        let l0 = lead.len() as int;
        let l1 = l0 + 19;
        let l2 = l1 + gap.len();
        let l3 = l2 + 1;
        let l4 = l3 + w1.len();
        let l5 = l4 + q1.len();
        let l6 = l5 + key.len();
        let l7 = l6 + q2.len();
        if j < l0 {
            assert(risky[j] == line[j]);
            assert(risky.contains(risky[j]));
        } else if j < l1 {
            assert(line[j] == name[j - l0]);
        } else if j < l2 {
            let i = l0 + (j - l1);
            assert(risky[i] == line[j]);
            assert(risky.contains(risky[i]));
        } else if j < l3 {
        } else if j < l4 {
            let i = l0 + gap.len() + (j - l3);
            assert(risky[i] == line[j]);
            assert(risky.contains(risky[i]));
        } else if j < l5 {
            assert(quoting(q1[j - l4]));
        } else if j < l6 {
            let i = l0 + gap.len() + w1.len() + (j - l5);
            assert(risky[i] == line[j]);
            assert(risky.contains(risky[i]));
        } else if j < l7 {
            assert(quoting(q2[j - l6]));
        } else {
            let i = l0 + gap.len() + w1.len() + key.len() + (j - l7);
            assert(risky[i] == line[j]);
            assert(risky.contains(risky[i]));
        }
    }
    assert(!line.contains('\n'));
    lemma_single_line(line);
    // the trimmed line
    let quoted = q1 + key + q2;
    let t = name + gap + seq!['='] + w1 + quoted;
    assert(line =~= lead + t + w2);
    assert(text::all_dropped(lead, white));
    assert(text::all_dropped(w2, white));
    if q2.len() > 0 {
        assert(quoting(q2[q2.len() - 1]));
    }
    assert(t.first() == '$');
    assert(!text::white_space(t.last()));
    text::lemma_strip_around(lead, t, w2, white);
    assert(text::trimmed(line) == t);
    assert(t.subrange(0, 19) =~= name);
    assert(text::occurs_at(t, assignment(), 0));
    let at = 19 + gap.len() as int;
    assert forall|j: int| 0 <= j < at implies t[j] != '=' by {
        if j < 19 {
            assert(t[j] == name[j]);
        } else {
            assert(t[j] == gap[j - 19]);
            assert(gap.contains(gap[j - 19]));
        }
    }
    lemma_find(t, '=', at as nat);
    let value = t.skip(at + 1);
    let none = Seq::<char>::empty();
    assert(value =~= w1 + quoted + none);
    if q1.len() > 0 {
        assert(quoting(q1[0]));
    }
    assert(text::all_dropped(w1, white));
    text::lemma_strip_around(w1, quoted, none, white);
    assert(text::all_dropped(q1, quote));
    assert(text::all_dropped(q2, quote));
    text::lemma_strip_around(q1, key, q2, quote);
}

/// A variable that is more than white space gives the key, whatever the secrets file holds.
pub proof fn lemma_variable_given(value: Seq<char>, t: Seq<char>, secrets: Option<Seq<char>>)
    requires
        text::trims_to(value, t),
    ensures
        t.len() > 0 ==> resolved(Some(value), secrets) == Some(t),
        t.len() == 0 ==> resolved(Some(value), secrets) == resolved(None, secrets),
        unless_empty(text::trimmed(value)) == if t.len() > 0 {
            Some(t)
        } else {
            None
        },
        resolved(None, None) is None,
        secrets matches Some(content) ==> resolved(None, secrets) == secrets_key(content),
{
    text::lemma_trims_to(value, t);
}

} // verus!
