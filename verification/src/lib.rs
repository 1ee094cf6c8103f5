//! Retention of timestamped log files: a fixed-width timestamp token used as a
//! file stem, the classification of directory entries by that token, the
//! newest-first ordering of the recognised files and the choice of the files
//! that leave when a retention limit is enforced.

pub mod instant;
pub mod codec;
pub mod retention;
pub mod builder;
