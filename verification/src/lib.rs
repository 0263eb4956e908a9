//! The engine of a text editor for files that are too large to load: a sparse
//! line index over an immutable buffer, an edit overlay on top of it, and the
//! searches, transforms and data operations that work line by line.

mod bytes;
pub mod encoding;
pub mod eol;
pub mod text;
pub mod error;
pub mod detect;
pub mod walk;
pub mod lines;
pub mod index;
pub mod document;
pub mod overlay;
pub mod rebase;
pub mod wal;
pub mod model;
pub mod effect;
pub mod edit;
pub mod cache;
pub mod save;
pub mod reread;
pub mod session;
pub mod kept;
pub mod carets;
pub mod preserve;
pub mod recovery;
pub mod markers;
pub mod patterns;
pub mod search;
pub mod casing;
pub mod styles;
pub mod transform;
pub mod fields;
pub mod finds;
pub mod reading;
pub mod strides;
pub mod rewrite;
pub mod records;
pub mod runs;
pub mod sort;
pub mod arrange;
pub mod ordering;
pub mod top;
pub mod sums;
pub mod group;
pub mod distinct;
pub mod tallies;
pub mod places;
pub mod split;
pub mod grep;
pub mod sifting;
pub mod staging;
pub mod mapfault;
pub mod calendar;
pub mod release;
pub mod versions;
pub mod steps;

pub use document::{Document, FileStat, Line, OpenOptions, TailRefresh};
pub use encoding::Encoding;
pub use eol::Eol;
pub use error::Error;
pub use index::{LineIndex, CHECKPOINT_BYTES, DEFAULT_STRIDE, MINIMUM_SUPPORTED_LINES};
pub use session::{EditLine, EditSession, EditStats, SaveResult};
