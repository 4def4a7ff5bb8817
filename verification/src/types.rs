//! Plain data carried between the components of the canvas, each with the
//! mathematical value that the contracts speak of.

use spacetimedb::Identity;
use spacetimedb::Timestamp;
use vstd::prelude::*;

verus! {

/// `spacetimedb::Identity`, the 256-bit identity of a caller. The canvas only
/// carries such a value along and never looks inside it.
#[verifier::external_type_specification]
#[verifier::external_body]
pub struct ExIdentity(Identity);

/// `spacetimedb::Timestamp`, a point in time. The canvas only carries it along
/// as the commit time of a change.
#[verifier::external_type_specification]
#[verifier::external_body]
pub struct ExTimestamp(Timestamp);

/// Why a request was turned down.
#[derive(Clone, Copy, Debug, PartialEq, Eq, Structural)]
pub enum CanvasError {
    /// The connection does not resolve to an identity.
    Unauthenticated,
    /// The colour is not one the canvas accepts, or a stored entry is not
    /// numbered one higher than the entry before it.
    InvalidRequest,
    /// The coordinate lies outside the canvas.
    OutOfBounds,
    /// A subscriber's channel is gone; the subscriber is dropped silently.
    SubscriberUnavailable,
}

/// The text that names each error.
pub open spec fn error_text(error: CanvasError) -> Seq<char> {
    match error {
        CanvasError::Unauthenticated => "unauthenticated: no identity for this connection"@,
        CanvasError::InvalidRequest => "invalid request: a colour that is not accepted, or a stored entry out of order"@,
        CanvasError::OutOfBounds => "out of bounds: the coordinate is not on the canvas"@,
        CanvasError::SubscriberUnavailable => "subscriber unavailable"@,
    }
}

impl CanvasError {
    /// A short text for the caller.
    pub fn message(&self) -> (text: &'static str)
        ensures
            text@ == error_text(*self),
    {
        match self {
            CanvasError::Unauthenticated => "unauthenticated: no identity for this connection",
            CanvasError::InvalidRequest => "invalid request: a colour that is not accepted, or a stored entry out of order",
            CanvasError::OutOfBounds => "out of bounds: the coordinate is not on the canvas",
            CanvasError::SubscriberUnavailable => "subscriber unavailable",
        }
    }
}

/// Which colours a canvas accepts.
#[derive(Debug, PartialEq, Eq)]
pub enum ColorFormat {
    /// Any non-empty string.
    FreeForm,
    /// Exactly the listed names.
    Palette(Vec<String>),
}

/// The values of a list of colour names.
pub open spec fn name_views(names: Seq<String>) -> Seq<Seq<char>> {
    names.map_values(|n: String| n@)
}

/// The mathematical value of a [`ColorFormat`].
pub enum ColorFormatView {
    FreeForm,
    Palette(Seq<Seq<char>>),
}

impl View for ColorFormat {
    type V = ColorFormatView;

    open spec fn view(&self) -> ColorFormatView {
        match self {
            ColorFormat::FreeForm => ColorFormatView::FreeForm,
            ColorFormat::Palette(names) => ColorFormatView::Palette(name_views(names@)),
        }
    }
}

impl ColorFormatView {
    /// A colour is accepted when it is not empty and, under a palette, is one
    /// of the palette's names.
    pub open spec fn accepts(self, color: Seq<char>) -> bool {
        &&& color.len() > 0
        &&& match self {
            ColorFormatView::FreeForm => true,
            ColorFormatView::Palette(names) => names.contains(color),
        }
    }
}

impl ColorFormat {
    /// Whether `color` is accepted.
    pub fn accepts(&self, color: &String) -> (ok: bool)
        ensures
            ok == self@.accepts(color@),
    {
        if color.as_str().is_empty() {
            return false;
        }
        match self {
            ColorFormat::FreeForm => true,
            ColorFormat::Palette(names) => {
                let ghost views = name_views(names@);
                let mut i: usize = 0;
                while i < names.len()
                    invariant
                        i <= names.len(),
                        views == name_views(names@),
                        self@ == ColorFormatView::Palette(views),
                        color@.len() > 0,
                        forall|j: int| 0 <= j < i ==> views[j] != color@,
                    decreases names.len() - i,
                {
                    if names[i] == *color {
                        assert(views[i as int] == color@);
                        return true;
                    }
                    i += 1;
                }
                false
            },
        }
    }
}

/// The size of a canvas and the colours it accepts, fixed when it is made.
#[derive(Debug, PartialEq, Eq)]
pub struct CanvasConfig {
    pub width: u32,
    pub height: u32,
    pub colors: ColorFormat,
}

/// One coloured cell of the canvas.
#[derive(Debug, PartialEq, Eq)]
pub struct Pixel {
    pub x: u32,
    pub y: u32,
    pub color: String,
}

/// The mathematical value of a [`Pixel`].
pub struct PixelView {
    pub x: nat,
    pub y: nat,
    pub color: Seq<char>,
}

impl View for Pixel {
    type V = PixelView;

    open spec fn view(&self) -> PixelView {
        PixelView { x: self.x as nat, y: self.y as nat, color: self.color@ }
    }
}

impl Clone for Pixel {
    fn clone(&self) -> (copy: Self)
        ensures
            copy == *self,
    {
        Pixel { x: self.x, y: self.y, color: self.color.clone() }
    }
}

/// A caller's proposed change of one cell.
///
/// `sender` is the identity that the request itself names. A commit is
/// logged under the identity that the caller's connection resolves to,
/// whatever this field holds.
#[derive(Debug, PartialEq, Eq)]
pub struct NewPixel {
    pub sender: Identity,
    pub x: u32,
    pub y: u32,
    pub color: String,
}

/// The record of one committed change.
#[derive(Debug, PartialEq, Eq)]
pub struct ChangeLogEntry {
    pub sequence: u64,
    pub sender: Identity,
    pub x: u32,
    pub y: u32,
    pub color: String,
    pub commit_time: Timestamp,
}

/// The mathematical value of a [`ChangeLogEntry`].
pub struct EntryView {
    pub sequence: nat,
    pub sender: Identity,
    pub x: nat,
    pub y: nat,
    pub color: Seq<char>,
    pub commit_time: Timestamp,
}

impl View for ChangeLogEntry {
    type V = EntryView;

    open spec fn view(&self) -> EntryView {
        EntryView {
            sequence: self.sequence as nat,
            sender: self.sender,
            x: self.x as nat,
            y: self.y as nat,
            color: self.color@,
            commit_time: self.commit_time,
        }
    }
}

impl Clone for ChangeLogEntry {
    fn clone(&self) -> (copy: Self)
        ensures
            copy == *self,
    {
        ChangeLogEntry {
            sequence: self.sequence,
            sender: self.sender,
            x: self.x,
            y: self.y,
            color: self.color.clone(),
            commit_time: self.commit_time,
        }
    }
}

impl ChangeLogEntry {
    /// The cell that this change wrote.
    pub fn pixel(&self) -> (p: Pixel)
        ensures
            p@ == (PixelView { x: self@.x, y: self@.y, color: self@.color }),
    {
        Pixel { x: self.x, y: self.y, color: self.color.clone() }
    }
}

/// The values of a run of log entries.
pub open spec fn entry_views(entries: Seq<ChangeLogEntry>) -> Seq<EntryView> {
    entries.map_values(|e: ChangeLogEntry| e@)
}

/// The values of a run of pixels.
pub open spec fn pixel_views(pixels: Seq<Pixel>) -> Seq<PixelView> {
    pixels.map_values(|p: Pixel| p@)
}

} // verus!
