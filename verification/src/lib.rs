//! Memory management core of a small 64-bit kernel, together with the pure
//! parts of its text display and disk drivers.
//!
//! Everything here works on plain values: the page tables are an owned
//! hierarchy of typed tables, frames and pages are numbers, and the effects
//! on the machine (table memory, the table-base register, the translation
//! cache) are left to the caller, which reads them off the values returned.

pub mod memory;
pub mod vga_buffer;
pub mod disk;
pub mod interrupts;
