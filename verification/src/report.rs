//! Errors, and the run-level fault aggregation: every unit's failure is
//! reported with its character (and tab) context, and the run as a whole
//! fails exactly when some unit failed.

use vstd::prelude::*;
use vstd::string::StringExecFns;

verus! {

/// Everything that can go wrong in a run, with the offending path or the
/// underlying cause already rendered as text.
pub enum Error {
    OutputExists(String),
    NotEnoughInputs,
    InputDoesNotExist(String),
    InputIsNotDirectory(String),
    BadTimeDiff(String),
    BadTimestamp(String),
    UnableToCreateDirectory(String, String),
    MessageParseError(String),
    UnableToOpenIndex(String, String),
    UnableToOpenLog(String, String),
    UnableToOpenDirectory(String, String),
    ExitingWithError,
}

/// The text of each error.
pub open spec fn error_text(e: Error) -> Seq<char> {
    match e {
        Error::OutputExists(p) => "Output folder `"@ + p@ + "` already exists"@,
        Error::NotEnoughInputs => "Specify more than one input folder"@,
        Error::InputDoesNotExist(p) => "Input folder `"@ + p@ + "` does not exist"@,
        Error::InputIsNotDirectory(p) => "Input folder `"@ + p@ + "` is not a directory"@,
        Error::BadTimeDiff(c) => c@,
        Error::BadTimestamp(c) => c@,
        Error::UnableToCreateDirectory(p, c) => "Unable to create directory `"@ + p@
            + "` due to: "@ + c@,
        Error::MessageParseError(c) => "Failed to parse a message due to: "@ + c@,
        Error::UnableToOpenIndex(p, c) => "Unable to open index `"@ + p@ + "` due to: "@ + c@,
        Error::UnableToOpenLog(p, c) => "Unable to open log `"@ + p@ + "` due to: "@ + c@,
        Error::UnableToOpenDirectory(p, c) => "Unable to open directory `"@ + p@ + "` due to: "@
            + c@,
        Error::ExitingWithError => "Exiting with error. Check output."@,
    }
}

impl Error {
    /// The error's display text.
    pub fn message(&self) -> (r: String)
        ensures
            r@ == error_text(*self),
    {
        match self {
            Error::OutputExists(p) => {
                let mut s = String::from_str("Output folder `");
                s.append(p.as_str());
                s.append("` already exists");
                s
            },
            Error::NotEnoughInputs => String::from_str("Specify more than one input folder"),
            Error::InputDoesNotExist(p) => {
                let mut s = String::from_str("Input folder `");
                s.append(p.as_str());
                s.append("` does not exist");
                s
            },
            Error::InputIsNotDirectory(p) => {
                let mut s = String::from_str("Input folder `");
                s.append(p.as_str());
                s.append("` is not a directory");
                s
            },
            Error::BadTimeDiff(c) => c.clone(),
            Error::BadTimestamp(c) => c.clone(),
            Error::UnableToCreateDirectory(p, c) => {
                let mut s = String::from_str("Unable to create directory `");
                s.append(p.as_str());
                s.append("` due to: ");
                s.append(c.as_str());
                s
            },
            Error::MessageParseError(c) => {
                let mut s = String::from_str("Failed to parse a message due to: ");
                s.append(c.as_str());
                s
            },
            Error::UnableToOpenIndex(p, c) => {
                let mut s = String::from_str("Unable to open index `");
                s.append(p.as_str());
                s.append("` due to: ");
                s.append(c.as_str());
                s
            },
            Error::UnableToOpenLog(p, c) => {
                let mut s = String::from_str("Unable to open log `");
                s.append(p.as_str());
                s.append("` due to: ");
                s.append(c.as_str());
                s
            },
            Error::UnableToOpenDirectory(p, c) => {
                let mut s = String::from_str("Unable to open directory `");
                s.append(p.as_str());
                s.append("` due to: ");
                s.append(c.as_str());
                s
            },
            Error::ExitingWithError => String::from_str("Exiting with error. Check output."),
        }
    }
}

/// One tab's outcome within a character.
pub struct TabReport {
    pub tab: String,
    pub error: Option<Error>,
}

/// One character's outcome: either a character-level error (its tabs never
/// ran), or the outcomes of its tabs.
pub struct CharacterReport {
    pub character: String,
    pub error: Option<Error>,
    pub tabs: Vec<TabReport>,
}

/// The reported line of a failed tab.
pub open spec fn tab_line(character: String, t: TabReport) -> Seq<char> {
    t.tab@ + " for "@ + character@ + " had an error: "@ + error_text(t.error.unwrap())
}

/// The reported line of a failed character.
pub open spec fn char_line(c: CharacterReport) -> Seq<char> {
    c.character@ + " had an error: "@ + error_text(c.error.unwrap())
}

/// The error lines of one character's tabs, in tab order.
pub open spec fn tab_lines(character: String, ts: Seq<TabReport>) -> Seq<Seq<char>>
    decreases ts.len(),
{
    if ts.len() == 0 {
        Seq::empty()
    } else {
        tab_lines(character, ts.drop_last()) + (if ts.last().error is Some {
            seq![tab_line(character, ts.last())]
        } else {
            Seq::empty()
        })
    }
}

/// The error lines of one character: its own error, then its tabs'.
pub open spec fn char_lines(c: CharacterReport) -> Seq<Seq<char>> {
    (if c.error is Some {
        seq![char_line(c)]
    } else {
        Seq::empty()
    }) + tab_lines(c.character, c.tabs@)
}

/// Every error line of the run, character by character.
pub open spec fn error_lines(rs: Seq<CharacterReport>) -> Seq<Seq<char>>
    decreases rs.len(),
{
    if rs.len() == 0 {
        Seq::empty()
    } else {
        error_lines(rs.drop_last()) + char_lines(rs.last())
    }
}

/// The run's outcome: every error line in order, and whether the run as a
/// whole succeeded.
pub struct RunSummary {
    pub lines: Vec<String>,
    pub ok: bool,
}

fn append_tab_lines(lines: &mut Vec<String>, character: &String, tabs: &Vec<TabReport>)
    ensures
        final(lines)@.map_values(|s: String| s@) == old(lines)@.map_values(|s: String| s@)
            + tab_lines(*character, tabs@),
{
    let ghost l0 = lines@.map_values(|s: String| s@);
    let mut j: usize = 0;
    proof {
        assert(tabs@.take(0) =~= Seq::<TabReport>::empty());
        assert(l0 + tab_lines(*character, tabs@.take(0)) =~= l0);
    }
    while j < tabs.len()
        invariant
            j <= tabs@.len(),
            l0 == old(lines)@.map_values(|s: String| s@),
            lines@.map_values(|s: String| s@) == l0 + tab_lines(*character, tabs@.take(j as int)),
        decreases tabs@.len() - j,
    {
        let t = &tabs[j];
        match &t.error {
            Option::Some(e) => {
                let mut line = t.tab.clone();
                line.append(" for ");
                line.append(character.as_str());
                line.append(" had an error: ");
                let msg = e.message();
                line.append(msg.as_str());
                lines.push(line);
                proof {
                    assert(line@ == tab_line(*character, tabs@[j as int]));
                    assert(lines@.map_values(|s: String| s@) =~= l0 + tab_lines(*character,
                        tabs@.take(j as int)) + seq![line@]);
                }
            },
            Option::None => {},
        }
        proof {
            assert(tabs@.take(j + 1).drop_last() =~= tabs@.take(j as int));
            assert(tabs@.take(j + 1).last() == tabs@[j as int]);
            assert(lines@.map_values(|s: String| s@) =~= l0 + tab_lines(*character, tabs@.take(
                j + 1)));
        }
        j += 1;
    }
    proof {
        assert(tabs@.take(tabs@.len() as int) =~= tabs@);
    }
}

/// Collect every unit's failure into its report line, in order, and judge
/// the run: it succeeds exactly when no character and no tab failed.
pub fn summarize(reports: &Vec<CharacterReport>) -> (r: RunSummary)
    ensures
        r.lines@.map_values(|s: String| s@) == error_lines(reports@),
        r.ok <==> error_lines(reports@).len() == 0,
{
    let mut lines: Vec<String> = Vec::new();
    let mut i: usize = 0;
    proof {
        assert(reports@.take(0) =~= Seq::<CharacterReport>::empty());
        assert(lines@.map_values(|s: String| s@) =~= error_lines(reports@.take(0)));
    }
    while i < reports.len()
        invariant
            i <= reports@.len(),
            lines@.map_values(|s: String| s@) == error_lines(reports@.take(i as int)),
        decreases reports@.len() - i,
    {
        let c = &reports[i];
        match &c.error {
            Option::Some(e) => {
                let mut line = c.character.clone();
                line.append(" had an error: ");
                let msg = e.message();
                line.append(msg.as_str());
                lines.push(line);
                proof {
                    assert(line@ == char_line(reports@[i as int]));
                }
            },
            Option::None => {},
        }
        let ghost before = lines@.map_values(|s: String| s@);
        append_tab_lines(&mut lines, &c.character, &c.tabs);
        proof {
            assert(reports@.take(i + 1).drop_last() =~= reports@.take(i as int));
            assert(reports@.take(i + 1).last() == reports@[i as int]);
            assert(lines@.map_values(|s: String| s@) =~= error_lines(reports@.take(i + 1)));
        }
        i += 1;
    }
    proof {
        assert(reports@.take(reports@.len() as int) =~= reports@);
    }
    let ok = lines.len() == 0;
    proof {
        assert(lines@.map_values(|s: String| s@).len() == lines@.len());
    }
    RunSummary { lines, ok }
}

} // verus!
