//! Reading, writing and inspecting PSY-Q object files (`LNK` format), the
//! `LIB` archives that bundle them, and the textual linker scripts that
//! accompany them.
pub mod codec;
pub mod cputype;
pub mod display;
pub mod expression;
pub mod io;
pub mod library;
pub mod link;
pub mod listing;
pub mod module_name;
pub mod object;
pub mod section;
pub mod text;
pub mod timestamp;
