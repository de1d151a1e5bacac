//! Exercises in clustering: agglomerative hierarchical clustering with
//! single linkage, the distances it starts from, the report on the tree it
//! ends with, and beside it a bitmap font, the channels of colours and random
//! numbers within bounds.

pub mod color;
pub mod dendrogram;
pub mod font;
pub mod hierarchy_grouping;
pub mod keys;
pub mod laws;
pub mod linkage;
pub mod report;
pub mod seeding;
pub mod text;
pub mod utils;
pub mod validation;
