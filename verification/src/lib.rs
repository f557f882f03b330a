//! Engine of a terminal CSV viewer that opens files of any size at once.
//!
//! A file is never copied: the only structure built over it is a sparse index
//! that holds the byte offset of one record out of every [`index::STRIDE`].
//! Any record is reached by jumping to the nearest checkpoint and skipping the
//! records in between.
//!
//! - [`source`], [`csv`], [`numeric`], [`index`], [`search`]: the bytes of a
//!   file, its records and fields, where they start, where a text occurs.
//! - [`path`], [`order`], [`tree`]: the file explorer.
//! - [`doc`]: an open file, its columns and its cursor.
//! - [`screen`], [`display`]: the cell grid and what a terminal makes of it.
//! - [`term`]: keys and mouse.
//! - [`state`], [`app`]: what every event does. What takes reading or
//!   starting something outside is handed back as an action.
//! - [`picture`], [`view`], [`frames`]: what a frame shows, and drawing it.
//! - [`text`], [`util`], [`wrap`], [`base64`]: tools.
//!
//! What the parts promise together is stated and proved in modules of their
//! own: [`reading`] of records and fields, [`layout`] of columns, [`starting`]
//! and [`browsing`] of files, keys and searches, [`typing`] of terminal input,
//! [`exploring`] of the explorer, [`formats`] of texts and numbers,
//! [`painting`], [`showing`], [`panels`], [`marking`], [`ruling`] and
//! [`records`] of what stands on the screen.

pub mod app;
pub mod base64;
pub mod browsing;
pub mod csv;
pub mod display;
pub mod doc;
pub mod exploring;
pub mod formats;
pub mod frames;
pub mod index;
pub mod layout;
pub mod marking;
pub mod numeric;
pub mod order;
pub mod painting;
pub mod panels;
pub mod path;
pub mod picture;
pub mod reading;
pub mod records;
pub mod ruling;
pub mod screen;
pub mod search;
pub mod showing;
pub mod source;
pub mod starting;
pub mod state;
pub mod term;
pub mod text;
pub mod tree;
pub mod typing;
pub mod util;
pub mod view;
pub mod wrap;
