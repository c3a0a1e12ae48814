//! Verified cores of a family of small command-line text utilities.
//!
//! Each module holds the data model and the decision/computation logic of
//! one utility, stated over mathematical views and proved with Verus: the
//! suffix-extraction engine of `tail` (count grammar, offset resolution,
//! dual-mode extraction, multi-file orchestration), line and word counting
//! (`wc`), leading windows (`head`), position lists and column extraction
//! (`cut`), line matching (`grep`), duplicate folding (`uniq`), line
//! numbering (`cat`), two-input comparison (`comm`), calendar arguments and
//! pages (`cal`), permission strings (`ls`), fortune records (`fortune`)
//! and entry filtering (`find`), over the shared digit scanner (`decimal`)
//! and field layout helpers (`textfmt`).
//!
//! File handles, terminals and argument vectors stay outside the library:
//! the surrounding program feeds these functions plain values and writes
//! their results out.

pub mod cal;
pub mod cat;
pub mod comm;
pub mod cut;
pub mod decimal;
pub mod find;
pub mod fortune;
pub mod grep;
pub mod head;
pub mod ls;
pub mod tail;
pub mod textfmt;
pub mod uniq;
pub mod wc;
