//! Dependency inference and dataflow graphs over notebook cells.
//!
//! Cells are analysed into leaves that provide and require names, leaves are
//! assembled into dataflows, dataflows are scheduled into dependency levels and
//! emitted back as source text.
pub mod cell;
pub mod emit;
pub mod names;
pub mod schedule;
pub mod session;
pub mod source;
pub mod syntax;
pub mod tangle;
pub mod text;

pub use crate::cell::{get_provides, identifier_occurs_before};
pub use crate::schedule::topo_sort;
pub use crate::session::{EditableNode, TangleApp};
pub use crate::syntax::{DocRange, Position};
pub use crate::tangle::{Error, Members, Tangle, TangleString};
