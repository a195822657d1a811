//! A parser and aggregator for semicolon-delimited personal-finance
//! statement exports.
//!
//! A statement is plain text, one transaction per line. Each line comes in
//! one of two layouts: a quoted layout (the line contains a double quote,
//! with HTML-escaped ampersands to undo and the payload fields shifted by
//! one) and an unquoted layout. A line is parsed into an [`record::Item`]
//! holding a calendar date, a free-text description, a signed fixed-point
//! amount written in European notation (comma as decimal mark, space as
//! digit-group separator, non-breaking spaces as noise), and a category
//! label. Parsed items can then be summed by category and month.

pub mod aggregate;
pub mod amount;
pub mod date;
pub mod record;
pub mod text;
