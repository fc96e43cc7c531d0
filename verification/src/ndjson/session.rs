//! What comes of lines, one after the other.
use vstd::prelude::*;
use crate::ndjson::encode::{EncodedLine, LineView};
use crate::ndjson::grouping::{grouped, with_set, EncodedTracks, Groups};
use crate::pgs::display_set::DisplaySetView;
use crate::text::{decimal, push_decimal};

verus! {

/// Collects the display sets that lines describe.
pub struct EncodeSession {
    tracks: EncodedTracks,
    skipped: u64,
}

/// The display sets so far, and the number of those that were left out.
#[verifier::ext_equal]
pub struct SessionView {
    pub groups: Groups,
    pub skipped: nat,
}

impl View for EncodeSession {
    type V = SessionView;

    closed spec fn view(&self) -> SessionView {
        SessionView { groups: self.tracks@, skipped: self.skipped as nat }
    }
}

/// What a line makes of the display sets so far. One without a composition is
/// left out and counted; what is no display set changes nothing.
pub open spec fn accepted(s: SessionView, line: LineView) -> SessionView {
    match line {
        LineView::Described(id, ds) => SessionView { groups: with_set(s.groups, id, ds), ..s },
        LineView::NoComposition => SessionView { skipped: s.skipped + 1, ..s },
        _ => s,
    }
}

/// What is said about a line that is left out.
pub open spec fn notice(line: LineView, number: u64) -> Option<Seq<char>> {
    match line {
        LineView::Unknown(kind) => Some(
            "line "@ + decimal(number as nat) + ": skipping unknown type '"@ + kind + "'"@,
        ),
        LineView::NoComposition => Some(
            "line "@ + decimal(number as nat) + ": skipping display set with null composition"@,
        ),
        _ => None,
    }
}

impl EncodeSession {
    /// No display sets.
    pub fn new() -> (r: Self)
        ensures
            r@ == (SessionView { groups: Groups::empty(), skipped: 0 }),
    {
        EncodeSession { tracks: EncodedTracks::new(), skipped: 0 }
    }

    /// Takes what the line with a number says. Returns what is to be said about
    /// it, if it is left out.
    pub fn accept(&mut self, line: EncodedLine, number: u64) -> (r: Option<String>)
        requires
            old(self)@.skipped < u64::MAX,
        ensures
            final(self)@ == accepted(old(self)@, line@),
            match (r, notice(line@, number)) {
                (Some(s), Some(t)) => s@ == t,
                (None, None) => true,
                _ => false,
            },
    {
        match line {
            EncodedLine::Tracks => None,
            EncodedLine::Unknown(kind) => {
                let mut s = "line ".to_owned();
                push_decimal(&mut s, number);
                s.push_str(": skipping unknown type '");
                s.push_str(kind.as_str());
                s.push_str("'");
                Some(s)
            },
            EncodedLine::NoComposition => {
                self.skipped = self.skipped + 1;
                let mut s = "line ".to_owned();
                push_decimal(&mut s, number);
                s.push_str(": skipping display set with null composition");
                Some(s)
            },
            EncodedLine::Described(id, ds) => {
                self.tracks.push(id, ds);
                None
            },
        }
    }

    /// The display sets so far.
    pub fn tracks(&self) -> (r: &EncodedTracks)
        ensures
            r@ == self@.groups,
    {
        &self.tracks
    }

    /// The number of display sets that were left out.
    pub fn skipped(&self) -> (r: u64)
        ensures
            r == self@.skipped,
    {
        self.skipped
    }
}

/// What comes of lines, from nothing.
pub open spec fn accepted_all(lines: Seq<LineView>) -> SessionView
    decreases lines.len(),
{
    if lines.len() == 0 {
        SessionView { groups: Groups::empty(), skipped: 0 }
    } else {
        accepted(accepted_all(lines.drop_last()), lines.last())
    }
}

/// The display sets that lines describe, in order.
pub open spec fn described_sets(lines: Seq<LineView>) -> Seq<(u64, DisplaySetView)>
    decreases lines.len(),
{
    if lines.len() == 0 {
        Seq::empty()
    } else {
        let before = described_sets(lines.drop_last());
        match lines.last() {
            LineView::Described(id, ds) => before.push((id, ds)),
            _ => before,
        }
    }
}

/// The groups are those of the display sets that lines describe. What lines say
/// besides changes none of them.
pub proof fn lines_are_grouped(lines: Seq<LineView>)
    ensures
        accepted_all(lines).groups == grouped(described_sets(lines)),
    decreases lines.len(),
{
    if lines.len() > 0 {
        lines_are_grouped(lines.drop_last());
        if let LineView::Described(id, ds) = lines.last() {
            let before = described_sets(lines.drop_last());
            assert(before.push((id, ds)).drop_last() =~= before);
        }
    }
}

} // verus!
