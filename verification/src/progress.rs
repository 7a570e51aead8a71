//! Reporting the progress of a table's merge: on a bar where there is a
//! terminal to draw it on, in lines of text where there is none, or not at
//! all.

use crate::text::{decimal_text, push_decimal};
use vstd::prelude::*;

verus! {

/// How progress is reported.
#[derive(Debug, Clone, Copy, PartialEq, Eq, Structural)]
pub enum ProgressType {
    /// On a bar that is drawn on the terminal.
    Bar,
    /// In lines of text.
    Console,
    /// Not at all.
    Null,
}

/// What is to be shown after a step.
#[derive(Debug)]
pub enum ProgressAction {
    /// Nothing.
    Nothing,
    /// The bar moves on by this many records.
    Advance(u64),
    /// The bar is complete.
    Complete,
    /// This line is written.
    Print(String),
}

pub enum ProgressActionView {
    Nothing,
    Advance(u64),
    Complete,
    Print(Seq<char>),
}

impl View for ProgressAction {
    type V = ProgressActionView;

    open spec fn view(&self) -> ProgressActionView {
        match self {
            ProgressAction::Nothing => ProgressActionView::Nothing,
            ProgressAction::Advance(delta) => ProgressActionView::Advance(*delta),
            ProgressAction::Complete => ProgressActionView::Complete,
            ProgressAction::Print(line) => ProgressActionView::Print(line@),
        }
    }
}

/// The progress of the merge of one table.
pub struct ProgressIndicator {
    progress_type: ProgressType,
    model_name: String,
    total_rows: u64,
    count: u64,
}

pub struct ProgressIndicatorView {
    pub progress_type: ProgressType,
    pub model_name: Seq<char>,
    pub total_rows: u64,
    /// The number of records that the lines of text have reported.
    pub count: u64,
}

/// The line that reports `count` of `total` records of the table `name`.
pub open spec fn progress_line(name: Seq<char>, count: nat, total: nat) -> Seq<char> {
    name + ": Processed "@ + decimal_text(count) + "/"@ + decimal_text(total) + " records"@
}

/// The template of the bar for the table `name`.
pub open spec fn bar_template_text(name: Seq<char>) -> Seq<char> {
    "{spinner:.green} "@ + name + " [{elapsed_precise}] [{wide_bar:.cyan/blue}] {pos}/{len}"@
}

/// The sum of the two numbers, or the greatest number where the sum is
/// beyond it.
pub open spec fn capped_sum(a: u64, b: u64) -> u64 {
    if a + b > u64::MAX {
        u64::MAX
    } else {
        (a + b) as u64
    }
}

impl ProgressIndicatorView {
    /// The state and what is shown after `delta` more records.
    pub open spec fn after_inc(self, delta: u64) -> (ProgressIndicatorView, ProgressActionView) {
        match self.progress_type {
            ProgressType::Null => (self, ProgressActionView::Nothing),
            ProgressType::Bar => (self, ProgressActionView::Advance(delta)),
            ProgressType::Console => {
                let count = capped_sum(self.count, delta);
                let next = ProgressIndicatorView { count, ..self };
                if delta != 0 {
                    (
                        next,
                        ProgressActionView::Print(
                            progress_line(self.model_name, count as nat, self.total_rows as nat),
                        ),
                    )
                } else {
                    (next, ProgressActionView::Nothing)
                }
            },
        }
    }

    /// The state and what is shown at the end.
    pub open spec fn after_finish(self) -> (ProgressIndicatorView, ProgressActionView) {
        match self.progress_type {
            ProgressType::Null => (self, ProgressActionView::Nothing),
            ProgressType::Bar => (self, ProgressActionView::Complete),
            ProgressType::Console => (
                ProgressIndicatorView { count: self.total_rows, ..self },
                ProgressActionView::Print(
                    progress_line(
                        self.model_name,
                        self.total_rows as nat,
                        self.total_rows as nat,
                    ),
                ),
            ),
        }
    }
}

impl View for ProgressIndicator {
    type V = ProgressIndicatorView;

    closed spec fn view(&self) -> ProgressIndicatorView {
        ProgressIndicatorView {
            progress_type: self.progress_type,
            model_name: self.model_name@,
            total_rows: self.total_rows,
            count: self.count,
        }
    }
}

impl ProgressIndicator {
    /// Progress over the `total_rows` records of the table `model_name`: on
    /// a bar where the input is a terminal, and else in lines of text.
    pub fn new(model_name: &str, total_rows: u64, terminal: bool) -> (progress: ProgressIndicator)
        ensures
            progress@ == (ProgressIndicatorView {
                progress_type: if terminal {
                    ProgressType::Bar
                } else {
                    ProgressType::Console
                },
                model_name: model_name@,
                total_rows,
                count: 0,
            }),
    {
        ProgressIndicator {
            progress_type: if terminal {
                ProgressType::Bar
            } else {
                ProgressType::Console
            },
            model_name: String::from_str(model_name),
            total_rows,
            count: 0,
        }
    }

    /// Progress that is not reported.
    pub fn null() -> (progress: ProgressIndicator)
        ensures
            progress@ == (ProgressIndicatorView {
                progress_type: ProgressType::Null,
                model_name: Seq::empty(),
                total_rows: 0,
                count: 0,
            }),
    {
        ProgressIndicator {
            progress_type: ProgressType::Null,
            model_name: String::new(),
            total_rows: 0,
            count: 0,
        }
    }

    /// How the progress is reported.
    pub fn progress_type(&self) -> (kind: ProgressType)
        ensures
            kind == self@.progress_type,
    {
        self.progress_type
    }

    /// The template of the bar.
    pub fn bar_template(&self) -> (template: String)
        ensures
            template@ == bar_template_text(self@.model_name),
    {
        let mut template = String::from_str("{spinner:.green} ");
        template.append(self.model_name.as_str());
        template.append(" [{elapsed_precise}] [{wide_bar:.cyan/blue}] {pos}/{len}");
        template
    }

    fn line(&self) -> (line: String)
        ensures
            line@ == progress_line(self@.model_name, self@.count as nat, self@.total_rows as nat),
    {
        let mut line = self.model_name.clone();
        line.append(": Processed ");
        push_decimal(&mut line, self.count);
        line.append("/");
        push_decimal(&mut line, self.total_rows);
        line.append(" records");
        line
    }

    /// Records `delta` more records.
    pub fn inc(&mut self, delta: u64) -> (action: ProgressAction)
        ensures
            (final(self)@, action@) == old(self)@.after_inc(delta),
    {
        match self.progress_type {
            ProgressType::Null => ProgressAction::Nothing,
            ProgressType::Bar => ProgressAction::Advance(delta),
            ProgressType::Console => {
                self.count = match self.count.checked_add(delta) {
                    Some(sum) => sum,
                    None => u64::MAX,
                };
                if delta != 0 {
                    ProgressAction::Print(self.line())
                } else {
                    ProgressAction::Nothing
                }
            },
        }
    }

    /// Records that the merge of the table is complete.
    pub fn finish(&mut self) -> (action: ProgressAction)
        ensures
            (final(self)@, action@) == old(self)@.after_finish(),
    {
        match self.progress_type {
            ProgressType::Null => ProgressAction::Nothing,
            ProgressType::Bar => ProgressAction::Complete,
            ProgressType::Console => {
                self.count = self.total_rows;
                ProgressAction::Print(self.line())
            },
        }
    }
}

} // verus!
