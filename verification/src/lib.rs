//! An unsupervised label-propagation pipeline over a corpus of article
//! records: a document-frequency vocabulary is selected, a sparse word
//! co-occurrence matrix built and row-normalized, a keyword-by-hallmark
//! rating matrix seeded from the hallmark descriptions and propagated
//! through the co-occurrence graph, and each article scored by how its
//! abstract aligns with every hallmark.
//!
//! All matrix and rating values are exact rationals kept as integer
//! numerators over shared denominators, so normalization facts (row sums,
//! diagonal entries, idempotence) are exact theorems rather than
//! floating-point approximations.
pub mod analyzer;
pub mod analyzer_data;
pub mod article;
pub mod hist;
pub mod matrix;
pub mod numbers;
pub mod seqs;
pub mod tokenize;

pub use analyzer::{Analyzer, Fraction, RatedPublication, WordCount};
pub use analyzer_data::{
    AnalyzerData, AnalyzerError, FullRunOutput, Hallmark, HallmarkRatingOutput,
};
pub use article::Article;
