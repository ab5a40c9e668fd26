//! Comparing a rendered template with the file that stands at its
//! destination.

use crate::render::render;
use crate::rules::Config;
use difference::{Changeset, Difference};
use vstd::prelude::*;

verus! {

/// A run of lines of a comparison.
#[derive(Debug, PartialEq, Eq)]
pub enum Segment {
    /// Lines that both texts hold.
    Same(String),
    /// Lines that only the second text holds.
    Add(String),
    /// Lines that only the first text holds.
    Rem(String),
}

/// A `Segment` as text.
pub enum SegmentView {
    Same(Seq<char>),
    Add(Seq<char>),
    Rem(Seq<char>),
}

impl View for Segment {
    type V = SegmentView;

    open spec fn view(&self) -> SegmentView {
        match self {
            Segment::Same(text) => SegmentView::Same(text@),
            Segment::Add(text) => SegmentView::Add(text@),
            Segment::Rem(text) => SegmentView::Rem(text@),
        }
    }
}

impl DeepView for Segment {
    type V = SegmentView;

    open spec fn deep_view(&self) -> SegmentView {
        self@
    }
}

/// The segments into which `difference::Changeset::new` parts two texts,
/// which it first cuts at each `split`.
pub uninterp spec fn changeset(orig: Seq<char>, edit: Seq<char>, split: Seq<char>) -> Seq<
    SegmentView,
>;

/// Calls `difference::Changeset::new` and hands out its `diffs`, each as a
/// `Segment` of the same kind with the same text.
///
/// Trusted: the segments are a function of the three texts alone.
#[verifier::external_body]
fn changeset_new(orig: &str, edit: &str, split: &str) -> (segments: Vec<Segment>)
    ensures
        segments.deep_view() == changeset(orig@, edit@, split@),
{
    Changeset::new(orig, edit, split).diffs.into_iter().map(
        |d| match d {
            Difference::Same(text) => Segment::Same(text),
            Difference::Add(text) => Segment::Add(text),
            Difference::Rem(text) => Segment::Rem(text),
        },
    ).collect()
}

/// What a comparison found.
#[derive(Debug, PartialEq, Eq)]
pub enum DiffReport {
    /// The two texts are the same.
    NoDifference,
    /// The two texts differ: the segments of the comparison, in order.
    Differences(Vec<Segment>),
}

/// Whether every segment holds lines that both texts hold.
pub open spec fn all_same(segments: Seq<SegmentView>) -> bool {
    forall|i: int| 0 <= i < segments.len() ==> #[trigger] segments[i] is Same
}

/// What a comparison with these segments found.
pub open spec fn report_of(segments: Seq<SegmentView>) -> Option<Seq<SegmentView>> {
    if all_same(segments) {
        None
    } else {
        Some(segments)
    }
}

impl DiffReport {
    /// The segments of the differences found, if any were.
    pub open spec fn differences(self) -> Option<Seq<SegmentView>> {
        match self {
            DiffReport::NoDifference => None,
            DiffReport::Differences(segments) => Some(segments.deep_view()),
        }
    }

    /// What a comparison with these segments found: no difference if every one
    /// of them is `Same`, else the segments as they are.
    pub fn new(segments: Vec<Segment>) -> (report: DiffReport)
        ensures
            report.differences() == report_of(segments.deep_view()),
    {
        let n = segments.len();
        let mut i: usize = 0;
        while i < n
            invariant
                i <= n,
                n == segments.len(),
                forall|j: int| 0 <= j < i ==> #[trigger] segments.deep_view()[j] is Same,
            decreases n - i,
        {
            match &segments[i] {
                Segment::Same(_) => {},
                _ => {
                    proof {
                        assert(!(segments.deep_view()[i as int] is Same));
                    }
                    return DiffReport::Differences(segments);
                },
            }
            i += 1;
        }
        DiffReport::NoDifference
    }
}

impl Config {
    /// Compares, line by line, the text `existing` of a destination file
    /// with what the lines of its template render to.
    pub fn compare(&self, lines: &Vec<String>, existing: &str) -> (report: DiffReport)
        ensures
            report.differences() == report_of(
                changeset(existing@, render(self@, lines.deep_view()), "\n"@),
            ),
    {
        let rendered = self.template_file(lines);
        DiffReport::new(changeset_new(existing, rendered.as_str(), "\n"))
    }
}

} // verus!
