//! Static extraction of a behavioural manifest from an ELF executable: which
//! operating-system services each defined function can reach.

pub mod error;
pub mod dwarf_analysis;
pub mod syscall_set;
pub mod syscall_flow;
pub mod api_detection;
pub mod elf_utils;
pub mod analysis;
