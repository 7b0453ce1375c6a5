//! Non-blocking, backpressure-aware write buffering over a byte-stream
//! transport, together with two supporting containers: a fixed-capacity
//! byte buffer with separate read/write cursors and a fixed-size circular
//! history buffer with overwrite-on-full semantics.

pub mod buffer;
pub mod ring_vec;
pub mod write_buffer;

pub use buffer::BufferVec;
pub use buffer::ByteSource;
pub use buffer::ExpandVec;
pub use buffer::ScriptedSource;
pub use ring_vec::RingVec;
pub use write_buffer::ByteSink;
pub use write_buffer::ErrorKind;
pub use write_buffer::IOError;
pub use write_buffer::ScriptedSink;
pub use write_buffer::WriteBuffer;
