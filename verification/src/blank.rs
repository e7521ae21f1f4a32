//! The blank set the studio seeds a new unit with: a one-box sprite sheet, its
//! cut list, a model that hangs the box off an undrawn root, and a spin track.

use vstd::prelude::*;

use crate::text::{chars_of, decimal, decimal_text, extend, text_string};

verus! {

/// The suffix a seeded set's files carry.
pub const SEED_SUFFIX: &'static str = "00";

/// The width and height of the seeded sheet.
pub const SHEET_SPAN: u32 = 128;

/// The width and height of the box drawn on it.
pub const BOX_SPAN: u32 = 64;

/// The width of the box's rim.
pub const EDGE_WIDTH: u32 = 4;

/// The bytes of the seeded sheet's pixels, four to a pixel.
pub const SHEET_BYTES: usize = 65536;

/// The bytes a PNG encoder writes for an RGBA image.
pub uninterp spec fn png_encoding(rgba: Seq<u8>, width: u32, height: u32) -> Seq<u8>;

/// Encodes an RGBA buffer as a PNG with `image::write_buffer_with_format`,
/// which panics unless the buffer holds exactly four bytes per pixel. What it
/// writes is only named; on an encoder error the bytes written so far come
/// back.
#[verifier::external_body]
fn png_written(rgba: &[u8], width: u32, height: u32) -> (png: Vec<u8>)
    requires
        rgba@.len() == width * height * 4,
    ensures
        png@ == png_encoding(rgba@, width, height),
{
    let mut out = std::io::Cursor::new(Vec::new());
    let _ = image::write_buffer_with_format(&mut out, rgba, width, height, image::ColorType::Rgba8, image::ImageFormat::Png);
    out.into_inner()
}

/// Whether a pixel of the box lies on its rim.
pub open spec fn on_rim(x: int, y: int) -> bool {
    x < EDGE_WIDTH || y < EDGE_WIDTH || x >= BOX_SPAN - EDGE_WIDTH || y >= BOX_SPAN - EDGE_WIDTH
}

/// One channel of a pixel of the seeded sheet: the pale rim and the blue ink
/// of the box in its top left corner, and transparent everywhere else.
pub open spec fn seed_channel(x: int, y: int, channel: int) -> u8 {
    if x < BOX_SPAN && y < BOX_SPAN {
        if on_rim(x, y) {
            if channel == 0 { 235 } else if channel == 1 { 245 } else { 255 }
        } else {
            if channel == 0 { 90 } else if channel == 1 { 160 } else if channel == 2 { 235 } else { 255 }
        }
    } else {
        0
    }
}

/// The byte at `index` of the seeded sheet's rows of pixels.
pub open spec fn seed_byte(index: int) -> u8 {
    let pixel = index / 4;
    seed_channel(pixel % (SHEET_SPAN as int), pixel / (SHEET_SPAN as int), index % 4)
}

fn channel_of(x: u32, y: u32, channel: u32) -> (value: u8)
    ensures
        value == seed_channel(x as int, y as int, channel as int),
{
    if x < BOX_SPAN && y < BOX_SPAN {
        if x < EDGE_WIDTH || y < EDGE_WIDTH || x >= BOX_SPAN - EDGE_WIDTH || y >= BOX_SPAN - EDGE_WIDTH {
            if channel == 0 { 235 } else if channel == 1 { 245 } else { 255 }
        } else {
            if channel == 0 { 90 } else if channel == 1 { 160 } else if channel == 2 { 235 } else { 255 }
        }
    } else {
        0
    }
}

/// The seeded sheet's pixels; see [`seed_byte`].
pub fn art() -> (rgba: Vec<u8>)
    ensures
        rgba@ == Seq::new(SHEET_BYTES as nat, |index: int| seed_byte(index)),
{
    let mut rgba: Vec<u8> = Vec::new();
    let mut index: usize = 0;
    while index < SHEET_BYTES
        invariant
            index <= SHEET_BYTES,
            rgba@ == Seq::new(index as nat, |at: int| seed_byte(at)),
        decreases SHEET_BYTES - index,
    {
        let pixel = (index / 4) as u32;
        let value = channel_of(pixel % SHEET_SPAN, pixel / SHEET_SPAN, (index % 4) as u32);
        rgba.push(value);
        index = index + 1;
        assert(rgba@ == Seq::new(index as nat, |at: int| seed_byte(at)));
    }
    rgba
}

/// The seeded sheet as a PNG: the encoding of [`art`].
pub fn sheet() -> (png: Vec<u8>)
    ensures
        png@ == png_encoding(Seq::new(SHEET_BYTES as nat, |index: int| seed_byte(index)), SHEET_SPAN, SHEET_SPAN),
{
    let rgba = art();
    png_written(rgba.as_slice(), SHEET_SPAN, SHEET_SPAN)
}

/// The seeded cut list: one sheet named after the set and one cut, the box.
pub open spec fn cuts_text(name: Seq<char>) -> Seq<char> {
    "[imgcut]\n1\n"@ + name + ".png\n1\n0,0,"@ + decimal(BOX_SPAN as int) + seq![','] + decimal(
        BOX_SPAN as int,
    ) + ",box\n"@
}

/// Writes the seeded cut list; see [`cuts_text`].
pub fn cuts(name: &str) -> (text: String)
    ensures
        text@ == cuts_text(name@),
{
    let mut glyphs = chars_of("[imgcut]\n1\n");
    extend(&mut glyphs, chars_of(name).as_slice());
    extend(&mut glyphs, chars_of(".png\n1\n0,0,").as_slice());
    extend(&mut glyphs, decimal_text(BOX_SPAN as i128).as_slice());
    glyphs.push(',');
    extend(&mut glyphs, decimal_text(BOX_SPAN as i128).as_slice());
    extend(&mut glyphs, chars_of(",box\n").as_slice());
    text_string(glyphs.as_slice())
}

/// The seeded model: an undrawn root and the box hung off it, standing on the
/// ground line and centred on it, with both alignment rows measured against
/// the root.
pub open spec fn model_text() -> Seq<char> {
    let half = decimal((BOX_SPAN / 2) as int);
    "[modelanim:model]\n3\n2\n-1,-1,0,0,0,0,0,0,1000,1000,0,1000,0,root\n0,0,0,1,0,-"@ + half + seq![','] + half
        + seq![','] + half + ",1000,1000,0,1000,0,box\n1000,3600,1000\n2\n0,0,0,0,5,0,combat\n0,0,0,0,5,0,gacha\n"@
}

/// Writes the seeded model; see [`model_text`].
pub fn model() -> (text: String)
    ensures
        text@ == model_text(),
{
    let half = decimal_text((BOX_SPAN / 2) as i128);
    let mut glyphs = chars_of("[modelanim:model]\n3\n2\n-1,-1,0,0,0,0,0,0,1000,1000,0,1000,0,root\n0,0,0,1,0,-");
    extend(&mut glyphs, half.as_slice());
    glyphs.push(',');
    extend(&mut glyphs, half.as_slice());
    glyphs.push(',');
    extend(&mut glyphs, half.as_slice());
    extend(
        &mut glyphs,
        chars_of(",1000,1000,0,1000,0,box\n1000,3600,1000\n2\n0,0,0,0,5,0,combat\n0,0,0,0,5,0,gacha\n").as_slice(),
    );
    text_string(glyphs.as_slice())
}

/// The seeded animation: one track that spins the box a full turn over sixty
/// frames, forever.
pub fn track() -> (text: String)
    ensures
        text@ == "[modelanim:animation]\n1\n1\n1,11,-1,0,0,spin\n2\n0,0,0,0\n60,3600,0,0\n"@,
{
    "[modelanim:animation]\n1\n1\n1,11,-1,0,0,spin\n2\n0,0,0,0\n60,3600,0,0\n".to_owned()
}

} // verus!
