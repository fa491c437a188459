pub mod belt;
pub mod belt_connection;
pub mod buffered_splitter;
pub mod grouping;
pub mod lane;
pub mod round_robin;
pub mod splitter;
pub mod stack;

pub use belt::Belt;
pub use buffered_splitter::BufferedSplitter;
pub use belt_connection::{
    BeltConnectionKind, BeltInputConnection, BeltOutputConnection, Connection, ConnectionView,
    OutputBatch,
};
pub use grouping::BeltItem;
pub use splitter::Splitter;
pub use stack::Stack;
