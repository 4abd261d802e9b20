pub mod buffer;
pub mod cells;
pub mod channel;
pub mod history;
pub mod hub;
pub mod model;
pub mod mpsc;
pub mod select;
pub mod stream;
