//! What each operation does, said of what it is given and what it gives:
//! every byte by its place, every name by its letters, every outcome by what
//! it takes to come about.

pub mod text;
pub mod wire;
pub mod reading;
pub mod structures;
pub mod calls;
pub mod replies;
pub mod answers;
pub mod sessions;
pub mod targets;
pub mod locations;
