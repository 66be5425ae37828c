//! Rule-based tokenizer in the style of the Moses tokenizer: punctuation is
//! separated from words except where language conventions keep it attached.

pub mod abbrev;
pub mod escape;
pub mod language;
pub mod moses;
pub mod multidot;
pub mod newline;
pub mod normalize;
pub mod passes;
pub mod protect;
pub mod roundtrip;
pub mod text;

pub use abbrev::{NonbreakingPrefixes, PrefixType};
pub use language::Language;
pub use moses::{finish_line, moses_tokenize, moses_tokenize_line};
pub use protect::PatternError;
