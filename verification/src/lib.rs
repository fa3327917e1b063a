pub mod cli;
pub mod elf;
pub mod error;
pub mod kallsyms;
pub mod kmsg;
pub mod loader;
pub mod modinfo;
pub mod symbols;
pub mod text;
pub mod vermagic;
pub mod words;
