//! What a run hands back: the text for the clipboard, and what goes to the terminal or to
//! the next program.

use crate::refine;
use crate::refine::RefinementResult;
use crate::text;
use vstd::prelude::*;
use vstd::string::*;

verus! {

/// The text that a run is about: the refined one where there is one, else the transcript.
pub open spec fn target_text(transcript: Seq<char>, refined: Option<refine::Refined>) -> Seq<char> {
    match refined {
        Some(result) => result.text,
        None => transcript,
    }
}

/// The text that a run is about: the refined one where there is one, else the transcript.
pub fn target_copy_text(transcript: &str, refined: Option<&RefinementResult>) -> (r: String)
    ensures
        r@ == target_text(
            transcript@,
            match refined {
                Some(result) => Some(result@),
                None => None,
            },
        ),
{
    match refined {
        Some(result) => result.text.as_str().to_owned(),
        None => transcript.to_owned(),
    }
}

/// Where copying to the clipboard stands.
#[derive(Debug)]
pub enum Copying {
    /// No copy was asked for.
    Off,
    /// There is nothing to copy.
    Skipped,
    /// The text is to be put on the clipboard.
    Inject,
    /// The clipboard did not take the text, for this reason, so it goes to `clip.exe`.
    Pipe(CopyError),
    /// The text is on the clipboard.
    Copied,
    /// Neither way worked.
    Failed(CopyError),
}

/// Why the clipboard did not take a text.
#[derive(Debug)]
pub enum CopyError {
    /// The clipboard refused it.
    Refused(String),
    /// The task that was to put it there did not finish.
    Lost(String),
}

impl CopyError {
    /// How the failure is reported.
    pub open spec fn report(self) -> Seq<char> {
        match self {
            CopyError::Refused(reason) => "[-] Clipboard injection error: "@ + reason@,
            CopyError::Lost(reason) => "[-] Clipboard task error: "@ + reason@,
        }
    }

    /// How the failure is reported.
    pub fn message(&self) -> (r: String)
        ensures
            r@ == self.report(),
    {
        let (mut s, reason): (String, &String) = match self {
            CopyError::Refused(reason) => (
                String::from_str("[-] Clipboard injection error: "),
                reason,
            ),
            CopyError::Lost(reason) => (String::from_str("[-] Clipboard task error: "), reason),
        };
        s.append(reason.as_str());
        s
    }
}

/// What to do with a text when a copy was asked for or not.
pub fn begin_copy(asked: bool, target: &str) -> (r: Copying)
    ensures
        r == if !asked {
            Copying::Off
        } else if text::trimmed(target@).len() == 0 {
            Copying::Skipped
        } else {
            Copying::Inject
        },
{
    if !asked {
        Copying::Off
    } else if target.trim().is_empty() {
        Copying::Skipped
    } else {
        Copying::Inject
    }
}

/// Where copying stands after the clipboard took the text or did not.
pub open spec fn injected(outcome: Result<(), CopyError>) -> Copying {
    match outcome {
        Ok(()) => Copying::Copied,
        Err(error) => Copying::Pipe(error),
    }
}

/// Where copying stands after `clip.exe` took the text or did not.
pub open spec fn piped(error: CopyError, taken: bool) -> Copying {
    if taken {
        Copying::Copied
    } else {
        Copying::Failed(error)
    }
}

/// Where copying stands after the clipboard took the text or did not.
pub fn after_injection(outcome: Result<(), CopyError>) -> (r: Copying)
    ensures
        r == injected(outcome),
{
    match outcome {
        Ok(_) => Copying::Copied,
        Err(error) => Copying::Pipe(error),
    }
}

/// Where copying stands after `clip.exe` took the text or did not.
pub fn after_pipe(error: CopyError, taken: bool) -> (r: Copying)
    ensures
        r == piped(error, taken),
{
    if taken {
        Copying::Copied
    } else {
        Copying::Failed(error)
    }
}

impl Copying {
    /// What is said of copying where it stands. Only a failure is reported when the output
    /// does not go to a terminal.
    pub open spec fn report(self, terminal: bool) -> Option<Seq<char>> {
        match self {
            Copying::Skipped => if terminal {
                Some("[*] Clipboard write skipped: transcript is empty."@)
            } else {
                None
            },
            Copying::Copied => if terminal {
                Some("[*] Copied to clipboard."@)
            } else {
                None
            },
            Copying::Failed(error) => Some(error.report()),
            _ => None,
        }
    }

    /// What is said of copying where it stands.
    pub fn notice(&self, terminal: bool) -> (r: Option<String>)
        ensures
            match r {
                Some(s) => self.report(terminal) == Some(s@),
                None => self.report(terminal) is None,
            },
    {
        match self {
            Copying::Skipped => if terminal {
                Some("[*] Clipboard write skipped: transcript is empty.".to_owned())
            } else {
                None
            },
            Copying::Copied => if terminal {
                Some("[*] Copied to clipboard.".to_owned())
            } else {
                None
            },
            Copying::Failed(error) => Some(error.message()),
            _ => None,
        }
    }
}

/// Copying is over after the clipboard and `clip.exe` had a try each. It is reported as
/// done exactly if one of them took the text, and a failure is told by the reason that the
/// clipboard gave.
pub proof fn lemma_copy_outcome(outcome: Result<(), CopyError>, taken: bool)
    ensures
        injected(outcome) is Pipe <==> outcome is Err,
        outcome is Ok ==> injected(outcome) == Copying::Copied,
        outcome matches Err(error) ==> {
            &&& piped(error, taken) == Copying::Copied <==> taken
            &&& !taken ==> piped(error, taken).report(false) == Some(error.report())
        },
{
}

/// What is printed at the end of a run.
#[derive(Debug)]
pub enum Printout {
    /// To a terminal: the transcript, and the refined text where there is one.
    Labelled { raw: String, refined: Option<String> },
    /// To another program: the text that the run is about, and nothing else.
    Plain(String),
}

/// Whether `printout` is what is printed at the end of a run.
pub open spec fn prints(
    printout: Printout,
    terminal: bool,
    transcript: Seq<char>,
    refined: Option<refine::Refined>,
) -> bool {
    match printout {
        Printout::Labelled { raw, refined: shown } => {
            &&& terminal
            &&& raw@ == transcript
            &&& match refined {
                Some(result) => shown matches Some(s) && s@ == result.text,
                None => shown is None,
            }
        },
        Printout::Plain(s) => !terminal && s@ == target_text(transcript, refined),
    }
}

/// What is printed at the end of a run.
pub fn printout(terminal: bool, transcript: &str, refined: Option<&RefinementResult>) -> (r:
    Printout)
    ensures
        prints(
            r,
            terminal,
            transcript@,
            match refined {
                Some(result) => Some(result@),
                None => None,
            },
        ),
{
    if terminal {
        let shown: Option<String> = match refined {
            Some(result) => Some(result.text.as_str().to_owned()),
            None => None,
        };
        Printout::Labelled { raw: transcript.to_owned(), refined: shown }
    } else {
        Printout::Plain(target_copy_text(transcript, refined))
    }
}

/// Another program gets the refined text and nothing else, or the transcript where nothing
/// was refined; a terminal gets the transcript in any case, and the refined text beside it.
pub proof fn lemma_prints(
    printout: Printout,
    terminal: bool,
    transcript: Seq<char>,
    refined: Option<refine::Refined>,
)
    requires
        prints(printout, terminal, transcript, refined),
    ensures
        !terminal && refined is None ==> (printout matches Printout::Plain(s) && s@ == transcript),
        !terminal ==> (refined matches Some(result) ==> (printout matches Printout::Plain(s)
            && s@ == result.text)),
        terminal ==> printout is Labelled && printout->raw@ == transcript,
        terminal && refined is None ==> printout->refined is None,
        terminal ==> (refined matches Some(result) ==> (printout->refined matches Some(s) && s@
            == result.text)),
        refined matches Some(result) ==> target_text(transcript, refined) == result.text,
        refined is None ==> target_text(transcript, refined) == transcript,
{
}

/// A failure to copy is told with the whole reason, and the two ways to fail are told apart.
pub proof fn lemma_copy_report(reason: String)
    ensures
        text::ends_with(CopyError::Refused(reason).report(), "injection error: "@ + reason@),
        text::ends_with(CopyError::Lost(reason).report(), "task error: "@ + reason@),
{
    reveal_strlit("[-] Clipboard injection error: ");
    reveal_strlit("[-] Clipboard task error: ");
    reveal_strlit("injection error: ");
    reveal_strlit("task error: ");
    let a = CopyError::Refused(reason).report();
    let b = CopyError::Lost(reason).report();
    let x = "injection error: "@ + reason@;
    let y = "task error: "@ + reason@;
    assert(a.skip(a.len() - x.len()) =~= x);
    assert(b.skip(b.len() - y.len()) =~= y);
}

/// To a terminal it is told that there was nothing to copy, or that the text was copied;
/// elsewhere neither. A failure is told in any case, and nothing is told of a copy that was
/// not asked for or is under way.
pub proof fn lemma_copy_notices(error: CopyError, terminal: bool)
    ensures
        Copying::Skipped.report(terminal) is Some <==> terminal,
        Copying::Copied.report(terminal) is Some <==> terminal,
        Copying::Failed(error).report(terminal) == Some(error.report()),
        Copying::Off.report(terminal) is None,
        Copying::Inject.report(terminal) is None,
        Copying::Pipe(error).report(terminal) is None,
        Copying::Skipped.report(true) != Copying::Copied.report(true),
{
    reveal_strlit("[*] Clipboard write skipped: transcript is empty.");
    reveal_strlit("[*] Copied to clipboard.");
    let a = "[*] Clipboard write skipped: transcript is empty."@;
    let b = "[*] Copied to clipboard."@;
    assert(a.len() != b.len());
}

} // verus!
