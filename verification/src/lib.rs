//! Verified editing of the sprite cut lists and part models the game ships,
//! the timing of animation curves, and the small text rules the studio applies.

pub mod text;
pub mod plain;
pub mod rows;
pub mod rig;
pub mod mamodel;
pub mod imgcut;
pub mod cadence;
pub mod glyphs;
pub mod name_box;
pub mod resolved;
pub mod costs;
pub mod combos;
pub mod branches;
pub mod history;
pub mod import;
pub mod tree;
pub mod names;
pub mod row_window;
pub mod utilities;
pub mod menu;
pub mod localized;
pub mod blank;
pub mod io;
pub mod enemy;
