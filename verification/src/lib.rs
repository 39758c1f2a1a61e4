//! An incremental "type to filter, then launch" picker.
//!
//! The user types, the candidates are ranked against the query after every
//! key, the best matches stand in one line behind the query, and a match can
//! be highlighted and committed. This library holds the decisions of that
//! loop:
//!
//! - `rank`: the candidates ordered by their similarity to the query plus a
//!   boost for those that hold the query literally, compared exactly;
//! - `select` and `picker`: the highlight that cycles through the matches,
//!   and the state of the interaction with the event that changes it;
//! - `compose`: the line as segments of text in two shades of one colour;
//! - `text`: glyph coverage blended into the pixel buffer and cut off at the
//!   right boundary;
//! - `visual`, `image`: the layout of pixel values and the pixel buffer;
//! - `path`, `arguments`, `keys`, `core_font`: the candidates of a search
//!   path, the values of arguments, key symbols, and requests for text drawn
//!   by the server;
//! - `fixed`, `big`, `weight`, `matching`, `order`: fractions as whole
//!   numbers, whole numbers without a bound, the boost, literal matching,
//!   and the order of best first.
//!
//! Waiting for events, talking to the server, reading fonts and directories
//! and starting the chosen program are left to the program around it.

pub mod arguments;
pub mod big;
pub mod compose;
pub mod core_font;
pub mod fixed;
pub mod image;
pub mod keys;
pub mod matching;
pub mod order;
pub mod path;
pub mod picker;
pub mod rank;
pub mod select;
pub mod text;
pub mod visual;
pub mod weight;
