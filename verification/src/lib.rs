//! Decoder for single lines of the Prometheus text exposition format.
//!
//! [`Line::parse`] takes one line of text and returns what it holds: a type
//! directive ([`Header`]), a sample ([`Metric`]), or nothing, for an empty
//! line and for a comment. A line that is neither fails with an
//! [`ErrorKind`] that names what was expected and where.
//!
//! Each decoder is specified by a function from the text in front of it,
//! as a sequence of characters, to the text it leaves and the value it
//! finds, and is proved to compute exactly that function. The modules state
//! the grammar bottom up:
//!
//! - [`text`]: character classes, blanks, trimming;
//! - [`token`]: names and single characters;
//! - [`quoted`]: quoted label values and their escapes;
//! - [`labels`] and [`label_set`]: the labels of a sample;
//! - [`value`]: sample values;
//! - [`metric`], [`header`] and [`line`]: samples, type directives, lines.
//!
//! Three things are taken from elsewhere and not proved here: that
//! `String::push` appends a character, which characters beyond ASCII are
//! white space (`char::is_whitespace`), and how a decimal number is read
//! (`nom::number::complete::double`). The specifications give each of the
//! last two a name and say nothing more of it.

pub mod error;
pub mod header;
pub mod label_set;
pub mod labels;
pub mod line;
pub mod metric;
pub mod quoted;
pub mod text;
pub mod token;
pub mod value;

pub use error::ErrorKind;
pub use header::{Header, MetricKind};
pub use labels::Labels;
pub use line::Line;
pub use metric::Metric;
pub use text::trim_space;
pub use token::{match_char, parse_name};
