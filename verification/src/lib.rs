//! A vocabulary-drill engine.
//!
//! The library keeps an ordered working set of words, presents one word at a
//! time, judges a free-text answer against the accepted translation variants
//! of the current word, and re-sequences the remaining words: a correctly
//! answered word is dropped, a wrongly answered one moves to the end of the
//! deck for another try. The deck is drained when every word has been
//! answered correctly.

pub mod text;

pub mod domain;

pub mod parse;

pub mod laws;
