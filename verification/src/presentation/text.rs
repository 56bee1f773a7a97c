use vstd::prelude::*;

verus! {

/// Owned text content of a text primitive.
#[derive(Clone, Debug, Eq, PartialEq)]
pub enum TextContent {
    /// No text.
    Empty,
    /// Plain UTF-8 text.
    Plain(String),
}

impl Default for TextContent {
    /// No text.
    fn default() -> (r: Self)
        ensures
            r == TextContent::Empty,
    {
        TextContent::Empty
    }
}

impl TextContent {
    /// The characters of the content.
    pub open spec fn chars(self) -> Seq<char> {
        match self {
            TextContent::Empty => Seq::empty(),
            TextContent::Plain(text) => text@,
        }
    }

    /// Plain text content holding a copy of `text`.
    pub fn plain(text: &str) -> (r: Self)
        ensures
            r == TextContent::Plain(r->Plain_0),
            r.chars() == text@,
    {
        TextContent::Plain(text.to_owned())
    }

    /// Returns `true` when there are no characters.
    pub fn is_empty(&self) -> (r: bool)
        ensures
            r == (self.chars().len() == 0),
    {
        match self {
            TextContent::Empty => true,
            TextContent::Plain(text) => text.as_str().is_empty(),
        }
    }

    /// The content as a string slice (empty for no text).
    pub fn as_str(&self) -> (r: &str)
        ensures
            r@ == self.chars(),
    {
        match self {
            TextContent::Empty => {
                proof {
                    reveal_strlit("");
                }
                ""
            },
            TextContent::Plain(text) => text.as_str(),
        }
    }
}

/// Horizontal text alignment.
#[derive(Clone, Copy, Debug, Default, Eq, PartialEq, Structural)]
pub enum TextAlign {
    /// Align to the start edge of the inline direction.
    #[default]
    Start,
    /// Center within the line box.
    Center,
    /// Align to the end edge of the inline direction.
    End,
}

/// Text overflow behavior.
#[derive(Clone, Copy, Debug, Default, Eq, PartialEq, Structural)]
pub enum TextOverflow {
    /// Clip overflow.
    #[default]
    Clip,
    /// Request an ellipsis where the renderer supports it.
    Ellipsis,
}

/// How an image is fitted into destination bounds.
#[derive(Clone, Copy, Debug, Default, Eq, PartialEq, Structural)]
#[non_exhaustive]
pub enum ImageFit {
    /// Stretch independently in x and y to fill the bounds.
    #[default]
    Stretch,
    /// Preserve aspect ratio and fit entirely within the bounds.
    Contain,
    /// Preserve aspect ratio and cover the bounds, allowing crop.
    Cover,
    /// Use the image's intrinsic size.
    Intrinsic,
    /// Use intrinsic size unless the image must shrink to fit.
    ScaleDown,
}

/// Scaling behavior for a sliced image region.
#[derive(Clone, Copy, Debug, Default, Eq, PartialEq, Structural)]
#[non_exhaustive]
pub enum SliceMode {
    /// Stretch the source region to the destination region.
    #[default]
    Stretch,
    /// Tile the source region across the destination region.
    Repeat,
}

/// Relative ordering of path fill and stroke passes.
#[derive(Clone, Copy, Debug, Default, Eq, PartialEq, Structural)]
pub enum PathPaintOrder {
    /// Paint fill first, then stroke.
    #[default]
    FillThenStroke,
    /// Paint stroke first, then fill.
    StrokeThenFill,
}

} // verus!
