pub mod column;
pub mod dataset;
pub mod files;
pub mod parse;
pub mod random_state;
pub mod schema;
pub mod value;

pub use column::ValueVec;
pub use dataset::Dataset;
pub use dataset::SplitSize;
pub use random_state::RandomState;
pub use value::Kind;
pub use value::Value;
