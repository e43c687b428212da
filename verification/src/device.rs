//! Choice of the audio input device.

use crate::text;
use vstd::prelude::*;
use vstd::string::*;

verus! {

/// A text in lower case, as `str::to_lowercase` gives it.
pub uninterp spec fn lower_case(s: Seq<char>) -> Seq<char>;

/// `str::to_lowercase`: the lower case equivalent of a text, which is a function of the
/// text alone.
pub assume_specification[ str::to_lowercase ](s: &str) -> (r: String)
    ensures
        r@ == lower_case(s@),
;

/// Which device to record from.
#[derive(Debug, Clone, Copy, PartialEq, Eq, Structural)]
pub enum Choice {
    /// The device at this place in the list.
    Listed(usize),
    /// Whatever the system has for a default.
    SystemDefault,
}

/// Whether a device is the webcam that is preferred where nothing else is asked for.
pub open spec fn preferred(name: Seq<char>) -> bool {
    ||| text::occurs(name, "Microphone (HD Pro Webcam C920)"@)
    ||| text::occurs(name, "HD Pro Webcam C920"@)
    ||| text::occurs(name, "C920"@)
}

/// The place of the first name that `wanted` picks.
pub open spec fn first(names: Seq<Seq<char>>, wanted: spec_fn(Seq<char>) -> bool) -> Option<int>
    decreases names.len(),
{
    if names.len() == 0 {
        None
    } else {
        match first(names.drop_last(), wanted) {
            Some(i) => Some(i),
            None => if wanted(names.last()) {
                Some(names.len() - 1)
            } else {
                None
            },
        }
    }
}

/// The place of the first name that holds `needle`, both already in lower case.
pub open spec fn first_holding(names: Seq<Seq<char>>, needle: Seq<char>) -> Option<int> {
    first(names, |name: Seq<char>| text::occurs(name, needle))
}

/// The place of the first preferred device.
pub open spec fn first_preferred(names: Seq<Seq<char>>) -> Option<int> {
    first(names, |name: Seq<char>| preferred(name))
}

/// How the failure to find a device is reported.
pub open spec fn missing(wanted: Seq<char>) -> Seq<char> {
    "Specified audio device substring '"@ + wanted + "' not found."@
}

/// A place in a list, as the contracts have it.
pub open spec fn place(r: Option<usize>) -> Option<int> {
    match r {
        Some(i) => Some(i as int),
        None => None,
    }
}

/// The place of the first name that holds `needle`, both already in lower case.
pub fn find_holding(names: &Vec<String>, needle: &str) -> (r: Option<usize>)
    ensures
        place(r) == first_holding(text::texts(names@), needle@),
        r matches Some(i) ==> i < names@.len(),
{
    let ghost all = text::texts(names@);
    let ghost wanted = |name: Seq<char>| text::occurs(name, needle@);
    let mut found: Option<usize> = None;
    let mut i: usize = 0;
    while i < names.len()
        invariant
            i <= names@.len(),
            all == text::texts(names@),
            wanted == (|name: Seq<char>| text::occurs(name, needle@)),
            place(found) == first(all.take(i as int), wanted),
            found matches Some(k) ==> k < i,
        decreases names@.len() - i,
    {
        let hit = text::contains(names[i].as_str(), needle);
        proof {
            assert(all.take(i + 1).drop_last() == all.take(i as int));
            assert(all.take(i + 1).last() == names@[i as int]@);
        }
        if found.is_none() && hit {
            found = Some(i);
        }
        i = i + 1;
    }
    assert(all.take(all.len() as int) == all);
    found
}

/// The place of the first preferred device.
pub fn find_preferred(names: &Vec<String>) -> (r: Option<usize>)
    ensures
        place(r) == first_preferred(text::texts(names@)),
        r matches Some(i) ==> i < names@.len(),
{
    let ghost all = text::texts(names@);
    let ghost wanted = |name: Seq<char>| preferred(name);
    let mut found: Option<usize> = None;
    let mut i: usize = 0;
    while i < names.len()
        invariant
            i <= names@.len(),
            all == text::texts(names@),
            wanted == (|name: Seq<char>| preferred(name)),
            place(found) == first(all.take(i as int), wanted),
            found matches Some(k) ==> k < i,
        decreases names@.len() - i,
    {
        let name = names[i].as_str();
        let hit = text::contains(name, "Microphone (HD Pro Webcam C920)") || text::contains(
            name,
            "HD Pro Webcam C920",
        ) || text::contains(name, "C920");
        proof {
            assert(all.take(i + 1).drop_last() == all.take(i as int));
            assert(all.take(i + 1).last() == names@[i as int]@);
        }
        if found.is_none() && hit {
            found = Some(i);
        }
        i = i + 1;
    }
    assert(all.take(all.len() as int) == all);
    found
}

/// Names in lower case.
pub open spec fn lowered(names: Seq<Seq<char>>) -> Seq<Seq<char>> {
    Seq::new(names.len(), |i: int| lower_case(names[i]))
}

fn lower(names: &Vec<String>) -> (r: Vec<String>)
    ensures
        text::texts(r@) == lowered(text::texts(names@)),
{
    let mut r: Vec<String> = Vec::new();
    let mut i: usize = 0;
    while i < names.len()
        invariant
            i <= names@.len(),
            r@.len() == i,
            forall|k: int| 0 <= k < i ==> (#[trigger] r@[k])@ == lower_case(names@[k]@),
        decreases names@.len() - i,
    {
        r.push(names[i].as_str().to_lowercase());
        i = i + 1;
    }
    r
}

/// The device to record from: the first whose name holds `wanted`, whatever the case of
/// either; or, where nothing is asked for, the preferred webcam, or else the system's
/// default.
pub open spec fn selected(names: Seq<Seq<char>>, wanted: Option<Seq<char>>) -> Result<
    Choice,
    Seq<char>,
> {
    match wanted {
        Some(s) => match first_holding(lowered(names), lower_case(s)) {
            Some(i) => Ok(Choice::Listed(i as usize)),
            None => Err(missing(s)),
        },
        None => match first_preferred(names) {
            Some(i) => Ok(Choice::Listed(i as usize)),
            None => Ok(Choice::SystemDefault),
        },
    }
}

/// The device to record from. A device whose name cannot be had has the empty name.
pub fn select_device(names: &Vec<String>, wanted: Option<&str>) -> (r: Result<Choice, String>)
    ensures
        match r {
            Ok(choice) => selected(
                text::texts(names@),
                match wanted {
                    Some(s) => Some(s@),
                    None => None,
                },
            ) == Ok::<Choice, Seq<char>>(choice),
            Err(message) => selected(
                text::texts(names@),
                match wanted {
                    Some(s) => Some(s@),
                    None => None,
                },
            ) == Err::<Choice, Seq<char>>(message@),
        },
        r matches Ok(Choice::Listed(i)) ==> i < names@.len(),
{
    match wanted {
        Some(s) => {
            let needle = s.to_lowercase();
            match find_holding(&lower(names), needle.as_str()) {
                Some(i) => Ok(Choice::Listed(i)),
                None => {
                    let mut message = String::from_str("Specified audio device substring '");
                    message.append(s);
                    message.append("' not found.");
                    Err(message)
                },
            }
        },
        None => match find_preferred(names) {
            Some(i) => Ok(Choice::Listed(i)),
            None => Ok(Choice::SystemDefault),
        },
    }
}

/// What is found is picked, and nothing before it is; and where nothing is found, nothing
/// is picked.
pub proof fn lemma_first(names: Seq<Seq<char>>, wanted: spec_fn(Seq<char>) -> bool)
    ensures
        match first(names, wanted) {
            Some(i) => {
                &&& 0 <= i < names.len()
                &&& wanted(names[i])
                &&& forall|j: int| 0 <= j < i ==> !wanted(#[trigger] names[j])
            },
            None => forall|j: int| 0 <= j < names.len() ==> !wanted(#[trigger] names[j]),
        },
    decreases names.len(),
{
    if names.len() > 0 {
        let rest = names.drop_last();
        lemma_first(rest, wanted);
        assert forall|j: int| 0 <= j < rest.len() implies rest[j] == #[trigger] names[j] by {}
    }
}

/// A device is preferred exactly if its name holds `C920`.
pub proof fn lemma_preferred(name: Seq<char>)
    ensures
        preferred(name) <==> text::occurs(name, "C920"@),
{
    reveal_strlit("Microphone (HD Pro Webcam C920)");
    reveal_strlit("HD Pro Webcam C920");
    reveal_strlit("C920");
    let long = "Microphone (HD Pro Webcam C920)"@;
    let middle = "HD Pro Webcam C920"@;
    let short = "C920"@;
    if text::occurs(name, long) {
        let i = choose|i: int| text::occurs_at(name, long, i);
        assert(name.subrange(i + 26, i + 30) == long.subrange(26, 30)) by {
            assert(name.subrange(i, i + long.len()).subrange(26, 30) == name.subrange(
                i + 26,
                i + 30,
            ));
        }
        assert(long.subrange(26, 30) == short);
        assert(text::occurs_at(name, short, i + 26));
    }
    if text::occurs(name, middle) {
        let i = choose|i: int| text::occurs_at(name, middle, i);
        assert(name.subrange(i + 14, i + 18) == middle.subrange(14, 18)) by {
            assert(name.subrange(i, i + middle.len()).subrange(14, 18) == name.subrange(
                i + 14,
                i + 18,
            ));
        }
        assert(middle.subrange(14, 18) == short);
        assert(text::occurs_at(name, short, i + 14));
    }
}

/// A device that is asked for is the first whose name holds the text, both in lower case,
/// and it is an error that there is none. Where nothing is asked for it is the first whose
/// name holds `C920`, or else the system's default.
pub proof fn lemma_selected(names: Seq<Seq<char>>, wanted: Option<Seq<char>>)
    requires
        names.len() <= usize::MAX,
    ensures
        match selected(names, wanted) {
            Ok(Choice::Listed(i)) => {
                &&& i < names.len()
                &&& wants(names[i as int], wanted)
                &&& forall|j: int| 0 <= j < i ==> !wants(#[trigger] names[j], wanted)
            },
            Ok(Choice::SystemDefault) => {
                &&& wanted is None
                &&& forall|j: int| 0 <= j < names.len() ==> !wants(#[trigger] names[j], wanted)
            },
            Err(message) => {
                &&& wanted matches Some(s)
                &&& text::occurs(message, "'"@ + s + "'"@)
                &&& forall|j: int| 0 <= j < names.len() ==> !wants(#[trigger] names[j], wanted)
            },
        },
{
    match wanted {
        Some(s) => {
            let low = lowered(names);
            let pick = |name: Seq<char>| text::occurs(name, lower_case(s));
            lemma_first(low, pick);
            match first_holding(low, lower_case(s)) {
                Some(i) => {
                    assert(pick(low[i]));
                    assert forall|j: int| 0 <= j < i implies !wants(
                        #[trigger] names[j],
                        wanted,
                    ) by {
                        assert(!pick(low[j]));
                    }
                },
                None => {
                    assert forall|j: int| 0 <= j < names.len() implies !wants(
                        #[trigger] names[j],
                        wanted,
                    ) by {
                        assert(!pick(low[j]));
                    }
                    reveal_strlit("Specified audio device substring '");
                    reveal_strlit("'");
                    reveal_strlit("' not found.");
                    let message = missing(s);
                    let part = "'"@ + s + "'"@;
                    assert(message.subrange(33, 33 + part.len() as int) =~= part);
                    assert(text::occurs_at(message, part, 33));
                },
            }
        },
        None => {
            let pick = |name: Seq<char>| preferred(name);
            lemma_first(names, pick);
            assert forall|j: int| 0 <= j < names.len() implies pick(names[j]) == wants(
                #[trigger] names[j],
                wanted,
            ) by {
                lemma_preferred(names[j]);
            }
        },
    }
}

/// Whether a name is one that is asked for.
pub open spec fn wants(name: Seq<char>, wanted: Option<Seq<char>>) -> bool {
    match wanted {
        Some(s) => text::occurs(lower_case(name), lower_case(s)),
        None => text::occurs(name, "C920"@),
    }
}

} // verus!
