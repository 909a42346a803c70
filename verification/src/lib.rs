//! A field-updatable bootloader core: it decodes a self-describing block
//! format read from removable storage, reassembles the blocks into
//! erase-granularity-aligned flash writes while protecting the reserved
//! second-stage loader region, and computes the final hand-off into the
//! freshly written program.
//!
//! The library is pure logic: every flash commit is returned as a value
//! (a [`flash::Commit`]) for the surrounding firmware to carry out, and the
//! one-way jump is modelled as the terminal CPU state it establishes.

pub mod boot;
pub mod controller;
pub mod device;
pub mod flash;
pub mod uf2;
pub mod update;
