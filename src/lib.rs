pub mod model;
pub mod normalize;
pub mod tabulate;
pub mod text;
pub mod header;
pub mod discover;
pub mod resolver;
pub mod extract;
pub mod pattern;
pub mod metadata;
pub mod reports;
pub mod records;
