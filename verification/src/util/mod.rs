//! Splitting, protecting and pretty-printing of brace-nested text.

pub mod balancer;
pub mod converse;
pub mod guarantees;
pub mod inverse;
pub mod level;
pub mod pretty;
pub mod protect;
pub mod split;

pub use self::level::is_balanced;
pub use self::pretty::{deprettify, is_prettifiable, prettify, DeprettifyError};
pub use self::protect::{
    protect, protect_unbalanced, protect_unconditionally, splitarg, unprotect, ProtectTest,
    SplitArgError,
};
pub use self::split::{safesplit, safesplit_once, SafesplitIter, SafesplitOnceError};
