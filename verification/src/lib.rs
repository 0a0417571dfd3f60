//! Byte-pair merging of a text or a run of bytes into morphemes.
pub mod byte_str;
pub mod char_count;
pub mod colored;
pub mod counting;
pub mod language_analysis;
pub mod merge;
pub mod report;
pub mod span;
pub mod span_merger;
pub mod sub_slice;
pub mod table;

pub use byte_str::{ByteStr, ByteStrMut};
pub use char_count::char_frequency;
pub use colored::{SpanColored, TermColor, TermLayer};
pub use language_analysis::{
    Corpus, Credits, MorphemeCombinaison, MorphemeID, MorphemeLetter, MorpheneData, TrainingData,
};
pub use report::report;
pub use span::{InputKind, Span};
pub use span_merger::SpanMerger;
pub use sub_slice::AllSubSlice;
pub use table::{MorphenePairEntry, MorphenePairs};
