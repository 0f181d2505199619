//! Verified core of a serial data logger: a frame parser for the textual
//! wire format spoken by the device, and a file sequencer that keeps a
//! monotonically increasing generation counter for the on-disk data files.
//!
//! All I/O (the serial port itself, the filesystem) lives outside this
//! library; the functions here work on plain bytes and directory listings
//! handed in by the caller.

pub mod digits;
pub mod parser;
pub mod sequencer;
pub mod wire;

pub use sequencer::BootstrapActions;
pub use sequencer::RotateActions;
pub use sequencer::SequencerError;
pub use sequencer::SequencerState;

pub use parser::parse_serial;

pub use wire::acquisition_action;
pub use wire::FrameError;
pub use wire::LoopAction;
pub use wire::OpCode;
pub use wire::SerialData;
