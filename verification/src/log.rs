//! The window's standing list of what the run has complained about.

use vstd::prelude::*;
use crate::layer::texts_view;
use crate::text::{decimal, decimal_of};

verus! {

/// One record.
#[derive(Debug)]
pub struct LogLine {
    /// How bad it is.
    pub level: String,
    /// What it says.
    pub message: String,
}

/// The newest records, newest first, and how many there are besides.
#[derive(Debug)]
pub struct LogView {
    /// How many records are held.
    pub held: u64,
    /// How many of them are errors.
    pub errors: u64,
    /// How many are older than the ones here.
    pub older: u64,
    /// The records.
    pub lines: Vec<LogLine>,
}

/// What the header of the list says.
pub open spec fn captioned(held: u64, errors: u64) -> Seq<char> {
    if held == 0 {
        "log"@
    } else if errors == 0 {
        "log \u{2014} "@ + decimal(held as nat) + " held"@
    } else {
        "log \u{2014} "@ + decimal(held as nat) + " held, "@ + decimal(errors as nat) + " error"@ + (
        if errors == 1 {
            ""@
        } else {
            "s"@
        })
    }
}

/// What a row says.
pub open spec fn row_of(line: LogLine) -> Seq<char> {
    line.level@ + "  "@ + line.message@
}

/// How many records of a view do not fit in some rows.
pub open spec fn hidden(view: LogView, rows: int) -> int {
    view.older + (if view.lines@.len() > rows {
        view.lines@.len() - rows
    } else {
        0
    })
}

/// How many rows a view fills.
pub open spec fn filled(view: LogView, rows: int) -> int {
    if view.lines@.len() < rows {
        view.lines@.len() as int
    } else {
        rows
    }
}

/// What the rows say: a record each, newest first. Where some do not fit, the last row counts
/// them instead, with the one whose place it takes.
pub open spec fn rows_of(view: LogView, rows: int) -> Seq<Seq<char>> {
    Seq::new(
        filled(view, rows) as nat,
        |i: int|
            if hidden(view, rows) > 0 && i == filled(view, rows) - 1 {
                "\u{2026} "@ + decimal((hidden(view, rows) + 1) as nat) + " earlier"@
            } else {
                row_of(view.lines@[i])
            },
    )
}

/// The header line, which says how much the panel holds without it having to be opened.
pub fn caption_for(view: &LogView) -> (text: String)
    ensures
        text@ == captioned(view.held, view.errors),
{
    if view.held == 0 {
        return String::from_str("log");
    }
    let mut text: String = String::from_str("log \u{2014} ");
    text.append(decimal_of(view.held as u128).as_str());
    if view.errors == 0 {
        text.append(" held");
        return text;
    }
    text.append(" held, ");
    text.append(decimal_of(view.errors as u128).as_str());
    text.append(" error");
    text.append(
        if view.errors == 1 {
            ""
        } else {
            "s"
        },
    );
    text
}

fn line_text(line: &LogLine) -> (text: String)
    ensures
        text@ == row_of(*line),
{
    let mut text: String = line.level.clone();
    text.append("  ");
    text.append(line.message.as_str());
    text
}

/// The rows of the list, newest first. Where some records do not fit, the last row counts
/// them, the record that the count displaced included: a list that silently ends is worse
/// than a short one.
pub fn lines_for(view: &LogView, rows: usize) -> (lines: Vec<String>)
    ensures
        texts_view(lines@) == rows_of(*view, rows as int),
{
    let mut lines: Vec<String> = Vec::new();
    let mut i: usize = 0;
    while i < view.lines.len() && i < rows
        invariant
            i <= view.lines@.len(),
            i <= rows,
            lines@.len() == i,
            forall|j: int| 0 <= j < i ==> (#[trigger] lines@[j])@ == row_of(view.lines@[j]),
        decreases view.lines@.len() - i,
    {
        lines.push(line_text(&view.lines[i]));
        i = i + 1;
    }
    let beyond: usize = if view.lines.len() > rows {
        view.lines.len() - rows
    } else {
        0
    };
    let unseen: u128 = view.older as u128 + beyond as u128;
    if unseen > 0 && lines.len() > 0 {
        let mut text: String = String::from_str("\u{2026} ");
        text.append(decimal_of(unseen + 1).as_str());
        text.append(" earlier");
        let last: usize = lines.len() - 1;
        lines.set(last, text);
    }
    proof {
        assert(texts_view(lines@) =~= rows_of(*view, rows as int));
    }
    lines
}

/// Everything that is not in a row of its own is counted in the last one.
pub proof fn law_no_record_goes_unmentioned(view: LogView, rows: int)
    requires
        rows > 0,
        view.lines@.len() > 0,
    ensures
        rows_of(view, rows).len() == filled(view, rows),
        filled(view, rows) > 0,
        hidden(view, rows) == 0 ==> filled(view, rows) == view.lines@.len() && view.older == 0,
        hidden(view, rows) > 0 ==> (filled(view, rows) - 1) + (hidden(view, rows) + 1)
            == view.lines@.len() + view.older,
{
}

/// What a row says, where there is a line for it; nothing where there is not.
pub fn row_text(lines: &Vec<String>, row: usize) -> (text: &str)
    ensures
        text@ == (if row < lines@.len() {
            lines@[row as int]@
        } else {
            ""@
        }),
{
    if row < lines.len() {
        lines[row].as_str()
    } else {
        ""
    }
}

/// What the rows were last written from.
#[derive(Clone, Copy, Debug)]
pub struct LogPanel {
    /// The number of the record that was newest.
    pub shown: Option<u64>,
}

impl LogPanel {
    /// Nothing has been written.
    pub fn new() -> (panel: LogPanel)
        ensures
            panel.shown is None,
    {
        LogPanel { shown: None }
    }

    /// Whether the rows have to be written again, noting that they have been: a warning arrives
    /// far less often than a frame does.
    pub fn is_stale(&mut self, newest: u64) -> (answer: bool)
        ensures
            answer == (old(self).shown != Some(newest)),
            final(self).shown == Some(newest),
    {
        let stale: bool = match self.shown {
            Some(shown) => shown != newest,
            None => true,
        };
        self.shown = Some(newest);
        stale
    }
}

} // verus!
