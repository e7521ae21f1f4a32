//! The parts of a unit's rig the editors read: the model's part hierarchy as
//! the engine reads it, and the sprite regions of a cut list.

use vstd::prelude::*;

use nyanko::graphics::rig::Model as Rig;
use nyanko::graphics::rig::RigError;

use crate::rows::Row;

verus! {

/// The cells of a model part row: parent, sheet id, sprite, z order, x, y,
/// pivot x, pivot y, scale x, scale y, angle, opacity and glow.
pub const PART_CELLS: usize = 13;

/// The cells of an alignment row: part, an unread column, x, y and two more
/// unread columns.
pub const OFFSET_CELLS: usize = 6;

/// The cells of a sprite cut: x, y, width and height.
pub const CUT_CELLS: usize = 4;

/// One model part in its rest pose.
pub type Part = Row<13>;

/// One row of the alignment block that places a model against the world.
pub type Offset = Row<6>;

/// One sprite region of a cut list.
pub type Cut = Row<4>;

/// Why a rig file could not be read.
#[derive(Debug, Clone, Copy, PartialEq, Eq)]
pub enum RigFault {
    /// The file held no lines at all.
    EmptyFile,
    /// The file was too short to hold its header.
    TruncatedHeader,
    /// No usable part count was declared.
    NoPartHeader,
    /// The texture atlas could not be decoded.
    ImageDecodeFailed,
    /// The cut list described no sprite regions.
    NoSpriteCuts,
    /// A declared row count was negative or too large to allocate.
    CountTooLarge,
    /// A reason this library does not know by name.
    Other,
}

/// A unit's part hierarchy in its rest pose, as the engine reads a `.mamodel`.
#[derive(Clone, Debug)]
pub struct Model {
    /// The declared format revision.
    pub version: i32,
    /// The parts, root first.
    pub parts: Vec<Part>,
    /// The divisor turning a raw scale into a ratio.
    pub scale_unit: i32,
    /// The divisor turning a raw angle into turns.
    pub angle_unit: i32,
    /// The divisor turning a raw opacity into a ratio.
    pub opacity_unit: i32,
    /// The fourth units column, where the file carries one.
    pub unknown_3: Option<i32>,
    /// The alignment rows.
    pub alignment: Vec<Offset>,
}

impl Model {
    /// The model the engine starts from: no parts, and its usual units.
    pub open spec fn is_default(self) -> bool {
        &&& self.version == 0
        &&& self.parts@.len() == 0
        &&& self.scale_unit == 1000
        &&& self.angle_unit == 3600
        &&& self.opacity_unit == 1000
        &&& self.unknown_3.is_none()
        &&& self.alignment@.len() == 0
    }
}

impl Default for Model {
    fn default() -> (model: Model)
        ensures
            model.is_default(),
    {
        Model {
            version: 0,
            parts: Vec::new(),
            scale_unit: 1000,
            angle_unit: 3600,
            opacity_unit: 1000,
            unknown_3: None,
            alignment: Vec::new(),
        }
    }
}

/// What `nyanko`'s `Model::parse` makes of a file's bytes: the model it reads,
/// or the fault it refuses them with.
pub uninterp spec fn model_reading(bytes: Seq<u8>) -> Result<Model, RigFault>;

/// The reason `nyanko::graphics::rig::Model::parse` gives for refusing a file.
#[verifier::external_type_specification]
pub struct ExRigError(RigError);

/// The fault a `nyanko::graphics::rig::RigError` is named by: the variant of
/// the same name, or [`RigFault::Other`] for one added after this library was
/// written.
pub open spec fn fault_named(error: RigError) -> RigFault {
    match error {
        RigError::EmptyFile => RigFault::EmptyFile,
        RigError::TruncatedHeader => RigFault::TruncatedHeader,
        RigError::NoPartHeader => RigFault::NoPartHeader,
        RigError::ImageDecodeFailed => RigFault::ImageDecodeFailed,
        RigError::NoSpriteCuts => RigFault::NoSpriteCuts,
        RigError::CountTooLarge => RigFault::CountTooLarge,
        _ => RigFault::Other,
    }
}

/// Reads a model through `nyanko::graphics::rig::Model::parse`, converting its
/// parts and alignment rows cell for cell. What comes back is that reading of
/// the bytes, the model or the refusal; of the model only what nyanko's source
/// shows is claimed: it has at least one part, no count past the 65536 rows
/// its reader allows, and no alignment rows below the third revision, which is
/// the first to declare them.
#[verifier::external_body]
pub(crate) fn parse_model(bytes: &[u8]) -> (read: Result<Model, RigError>)
    ensures
        model_reading(bytes@) == match read {
            Ok(model) => Ok(model),
            Err(error) => Err(fault_named(error)),
        },
        read matches Ok(model) ==> 1 <= model.parts@.len() <= 65536 && model.alignment@.len() <= 65536,
        read matches Ok(model) ==> (model.version < 3 ==> model.alignment@.len() == 0),
{
    let m = Rig::parse(bytes)?;
    let parts = m.parts.into_iter().map(|p| Row { cells: [p.parent, p.id, p.sprite, p.z, p.x, p.y,
        p.pivot_x, p.pivot_y, p.scale_x, p.scale_y, p.angle, p.opacity, p.glow], name: p.name });
    let alignment = m.alignment.into_iter().map(|a| Row { cells: [a.part, a.unknown_1, a.x, a.y, a.unknown_4, a.unknown_5], name: a.name });
    Ok(Model { version: m.version, parts: parts.collect(), scale_unit: m.scale_unit, angle_unit: m.angle_unit,
        opacity_unit: m.opacity_unit, unknown_3: m.unknown_3, alignment: alignment.collect() })
}

/// Names a refusal by its fault; see [`fault_named`].
pub fn fault_of(error: RigError) -> (fault: RigFault)
    ensures
        fault == fault_named(error),
{
    match error {
        RigError::EmptyFile => RigFault::EmptyFile,
        RigError::TruncatedHeader => RigFault::TruncatedHeader,
        RigError::NoPartHeader => RigFault::NoPartHeader,
        RigError::ImageDecodeFailed => RigFault::ImageDecodeFailed,
        RigError::NoSpriteCuts => RigFault::NoSpriteCuts,
        RigError::CountTooLarge => RigFault::CountTooLarge,
        _ => RigFault::Other,
    }
}

/// The number of rows a declared count asks for, or none for a count the
/// engine would abort on: a negative one or one past 65536.
pub open spec fn rows_declared(count: i32) -> Option<usize> {
    if 0 <= count <= 65536 {
        Some(count as usize)
    } else {
        None
    }
}

/// Turns a declared count into a row count with `nyanko::common::declared_rows`,
/// whose source refuses a negative count and one above `1 << 16`.
#[verifier::external_body]
pub(crate) fn declared_rows(count: i32) -> (rows: Option<usize>)
    ensures
        rows == rows_declared(count),
{
    nyanko::common::declared_rows(count)
}

} // verus!
