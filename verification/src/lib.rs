//! Arranges a collection of tagged photographs into an ordered sequence of
//! display slides, maximizing a pairwise interest score between consecutive
//! slides. A slide is either one horizontal photo or a pair of vertical
//! photos; the combined tag set of a slide drives the scoring. The ordering
//! is built by a bounded greedy heuristic, not an exact solver.

pub mod photos;
pub mod pool;
pub mod records;
pub mod score;
pub mod sequence;
pub mod show;
pub mod slide;
pub mod vocab;

pub use photos::HorizontalPhoto;
pub use photos::PhotoId;
pub use photos::Photos;
pub use photos::TagId;
pub use photos::VerticalPhoto;
pub use records::PhotoRecord;
pub use records::build;
pub use score::subscore;
pub use sequence::Windows;
pub use sequence::sequence;
pub use show::Slideshow;
pub use slide::Slide;
pub use vocab::TagMap;
