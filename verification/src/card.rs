//! What a canvas card shows: its images' files and the palette its scene
//! is drawn with.

use vstd::prelude::*;

verus! {

/// The files of one image a card shows.
#[derive(Clone, Debug)]
pub struct CanvasImageAsset {
    pub original: String,
    pub thumbnail: String,
    /// The tiny `s_` thumbnail for small sprite tiers and far-out zoom.
    pub sprite: String,
}

/// An image a card shows, with the URL it is stored under.
#[derive(Clone, Debug)]
pub struct CanvasImage {
    pub url: String,
    pub asset: CanvasImageAsset,
}

/// The colors of a card's scene.
#[derive(Clone, Copy, Debug, PartialEq, Eq, Structural)]
pub enum CardColor {
    Transparent,
    Background82,
    Raised,
    Hover,
    Line,
    Ink,
    Ink90,
    Dim,
    Faint,
    Accent,
    Accent45,
    Danger,
}

/// How an image fills its frame on a card.
#[derive(Clone, Copy, Debug, PartialEq, Eq, Structural)]
pub enum CardImageFit {
    Contain,
    Cover,
}

impl CardColor {
    /// The color as an SVG hex color.
    pub fn svg_color(self) -> (hex: &'static str)
        ensures
            hex@ == card_color_hex(self),
    {
        match self {
            CardColor::Transparent => "#000000",
            CardColor::Background82 => "#0d0e12",
            CardColor::Raised => "#14161c",
            CardColor::Hover => "#1b1e26",
            CardColor::Line => "#262a35",
            CardColor::Ink => "#e8eaf0",
            CardColor::Ink90 => "#e8eaf0",
            CardColor::Dim => "#8b90a0",
            CardColor::Faint => "#5a5f6e",
            CardColor::Accent => "#7c8cff",
            CardColor::Accent45 => "#7c8cff",
            CardColor::Danger => "#ff6b6b",
        }
    }

    /// The color's SVG opacity, in hundredths.
    pub fn svg_opacity_percent(self) -> (percent: u8)
        ensures
            percent == card_color_opacity(self),
    {
        match self {
            CardColor::Transparent => 0,
            CardColor::Background82 => 82,
            CardColor::Ink90 => 90,
            CardColor::Accent45 => 45,
            _ => 100,
        }
    }
}

pub open spec fn card_color_hex(color: CardColor) -> Seq<char> {
    match color {
        CardColor::Transparent => "#000000"@,
        CardColor::Background82 => "#0d0e12"@,
        CardColor::Raised => "#14161c"@,
        CardColor::Hover => "#1b1e26"@,
        CardColor::Line => "#262a35"@,
        CardColor::Ink => "#e8eaf0"@,
        CardColor::Ink90 => "#e8eaf0"@,
        CardColor::Dim => "#8b90a0"@,
        CardColor::Faint => "#5a5f6e"@,
        CardColor::Accent => "#7c8cff"@,
        CardColor::Accent45 => "#7c8cff"@,
        CardColor::Danger => "#ff6b6b"@,
    }
}

pub open spec fn card_color_opacity(color: CardColor) -> u8 {
    match color {
        CardColor::Transparent => 0,
        CardColor::Background82 => 82,
        CardColor::Ink90 => 90,
        CardColor::Accent45 => 45,
        _ => 100,
    }
}

} // verus!
