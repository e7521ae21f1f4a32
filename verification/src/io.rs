//! File naming rules: which listed file is a stray spelling of a name about
//! to be written, and the names a gatya item's icon may be stored under.

use vstd::prelude::*;
use vstd::string::StringSliceAdditionalSpecFns;
use vstd::utf8::encode_utf8;

use crate::combos::zero_padded;
use crate::text::{chars_of, decimal, decimal_text, digits, extend, text_string};
use crate::tree::lowered;

verus! {

/// Whether two byte strings are equal but for ASCII case, as
/// `str::eq_ignore_ascii_case` compares them.
pub open spec fn same_but_case(left: Seq<u8>, right: Seq<u8>) -> bool {
    left.len() == right.len() && forall|at: int| 0 <= at < left.len() ==> lowered(#[trigger] left[at]) == lowered(right[at])
}

fn lower(byte: u8) -> (low: u8)
    ensures
        low == lowered(byte),
{
    if 65 <= byte && byte <= 90 {
        byte + 32
    } else {
        byte
    }
}

fn alike(left: &str, right: &str) -> (same: bool)
    ensures
        same == same_but_case(left.spec_bytes(), right.spec_bytes()),
{
    let one = left.as_bytes();
    let other = right.as_bytes();
    if one.len() != other.len() {
        return false;
    }
    let mut at: usize = 0;
    while at < one.len()
        invariant
            one@ == left.spec_bytes(),
            other@ == right.spec_bytes(),
            one@.len() == other@.len(),
            at <= one@.len(),
            forall|k: int| 0 <= k < at ==> lowered(#[trigger] one@[k]) == lowered(other@[k]),
        decreases one@.len() - at,
    {
        if lower(one[at]) != lower(other[at]) {
            return false;
        }
        at = at + 1;
    }
    true
}

/// The listed file to rename onto `wanted` before writing it: none where the
/// name is already listed exactly, otherwise the first listed name that
/// differs from it only in ASCII case, if any does.
pub fn stray_spelling(names: &[String], wanted: &str) -> (stray: Option<usize>)
    ensures
        match stray {
            Some(at) => {
                &&& at < names@.len()
                &&& same_but_case(encode_utf8(names@[at as int]@), wanted.spec_bytes())
                &&& forall|before: int| 0 <= before < at ==> !same_but_case(
                    encode_utf8((#[trigger] names@[before])@),
                    wanted.spec_bytes(),
                )
                &&& forall|any: int| 0 <= any < names@.len() ==> (#[trigger] names@[any])@ != wanted@
            },
            None => (exists|any: int| 0 <= any < names@.len() && (#[trigger] names@[any])@ == wanted@) || forall|any: int|
                0 <= any < names@.len() ==> !same_but_case(encode_utf8((#[trigger] names@[any])@), wanted.spec_bytes()),
        },
{
    let mut stray: Option<usize> = None;
    let mut at: usize = 0;
    while at < names.len()
        invariant
            at <= names@.len(),
            forall|any: int| 0 <= any < at ==> (#[trigger] names@[any])@ != wanted@,
            match stray {
                Some(found) => {
                    &&& found < at
                    &&& same_but_case(encode_utf8(names@[found as int]@), wanted.spec_bytes())
                    &&& forall|before: int| 0 <= before < found ==> !same_but_case(
                        encode_utf8((#[trigger] names@[before])@),
                        wanted.spec_bytes(),
                    )
                },
                None => forall|before: int| 0 <= before < at ==> !same_but_case(
                    encode_utf8((#[trigger] names@[before])@),
                    wanted.spec_bytes(),
                ),
            },
        decreases names@.len() - at,
    {
        let current = names[at].as_str();
        let exact = crate::text::same_text(chars_of(current).as_slice(), chars_of(wanted).as_slice());
        if exact {
            assert(names@[at as int]@ == wanted@);
            return None;
        }
        if stray.is_none() && alike(current, wanted) {
            stray = Some(at);
        }
        at = at + 1;
    }
    stray
}

/// An integer written with at least `width` characters, zeros filling in
/// after the sign, as `format!("{:0width$}")` writes it.
pub open spec fn padded(value: int, width: int) -> Seq<char> {
    if value < 0 {
        seq!['-'] + zero_padded(digits((-value) as nat), width - 1)
    } else {
        zero_padded(digits(value as nat), width)
    }
}

/// The name of a gatya item's icon for a given spelling of its id.
pub open spec fn icon_name(id: Seq<char>) -> Seq<char> {
    "gatyaitemD_"@ + id + "_f.png"@
}

fn pad(value: i32, width: usize) -> (text: Vec<char>)
    requires
        1 <= width <= 3,
    ensures
        text@ == padded(value as int, width as int),
{
    let mut text: Vec<char> = Vec::new();
    let magnitude: i128 = if value < 0 {
        text.push('-');
        -(value as i128)
    } else {
        value as i128
    };
    let shown = decimal_text(magnitude);
    assert(shown@ == digits(magnitude as nat));
    let room: usize = if value < 0 { width - 1 } else { width };
    let ghost zeros_from = text@;
    let mut count: usize = shown.len();
    while count < room
        invariant
            shown@.len() <= count <= room || (count == shown@.len() && count >= room),
            room <= 3,
            text@ == zeros_from + Seq::new((count - shown@.len()) as nat, |at: int| '0'),
        decreases room - count,
    {
        text.push('0');
        count = count + 1;
        assert(text@ == zeros_from + Seq::new((count - shown@.len()) as nat, |at: int| '0'));
    }
    extend(&mut text, shown.as_slice());
    text
}

/// The names a gatya item's icon may be stored under, tried in order: its id
/// padded to three digits, to two, and as it is.
pub fn gatya_item_names(id: i32) -> (names: Vec<String>)
    ensures
        names@.len() == 3,
        names@[0]@ == icon_name(padded(id as int, 3)),
        names@[1]@ == icon_name(padded(id as int, 2)),
        names@[2]@ == icon_name(decimal(id as int)),
{
    let mut names: Vec<String> = Vec::new();
    let mut width: usize = 3;
    while width > 0
        invariant
            width <= 3,
            names@.len() == 3 - width,
            forall|at: int| 0 <= at < names@.len() ==> (#[trigger] names@[at])@ == icon_name(padded(id as int, 3 - at)),
        decreases width,
    {
        let mut glyphs = chars_of("gatyaitemD_");
        extend(&mut glyphs, pad(id, width).as_slice());
        extend(&mut glyphs, chars_of("_f.png").as_slice());
        names.push(text_string(glyphs.as_slice()));
        width = width - 1;
    }
    assert(padded(id as int, 1) == decimal(id as int));
    names
}

} // verus!
