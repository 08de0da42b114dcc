//! Flwing: the verified core of a vector graphics editor.
pub mod text;
pub mod geometry;
pub mod path;
pub mod flw;
pub mod locale;
pub mod order;
pub mod fonts;
pub mod filepath;
pub mod embed;
pub mod gradient;
pub mod kinds;
pub mod svg;
pub mod shaping;
