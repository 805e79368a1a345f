//! Entity data of GoldSrc BSP maps: the file header and its lumps, the
//! entity text format, its repair, and the model behind the entity editor.

pub mod text;
pub mod error;
pub mod bsp;
pub mod entity;
pub mod ent;
pub mod normalise;
pub mod rip;
pub mod report;
pub mod editor;
pub mod menu;
