//! A palette of addressed color cells whose entries may depend on each other,
//! mutated through reversible operations.
pub mod address;
pub mod color;
pub mod data;
pub mod error;
pub mod operation;
pub mod palette;
pub mod ramp;
pub mod undo;

pub use address::{Address, Group, Interval, Selection};
pub use color::{Color, ColorElement, Mixer};
pub use data::Data;
pub use error::Error;
pub use operation::{
    CopyColor, InsertColor, InsertWatcher, Operation, PaletteOperation, RemoveElement,
    RepeatOperation, SequenceOperation,
};
pub use palette::Palette;
pub use ramp::InsertRamp;
pub use undo::{HistoryEntry, OperationInfo, Undo};
