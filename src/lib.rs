//! Checks that a change to an interface is backwards compatible with every use of that
//! interface.
//!
//! [`Inter`] describes the shape of an interface; [`Inter::try_fit_within`] lists, lazily, why an
//! old shape does not fit within a new one. [`Loc`] describes which parts of an interface a
//! consumer uses: locators merge with [`Loc::consume`] and narrow an interface with
//! [`Loc::select_subset`].

pub mod inter;
pub mod loc;

pub use inter::{Incompatibility, IncompatibilityStream, Inter};
pub use loc::Loc;
