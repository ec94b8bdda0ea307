//! Extraction of the execution graph from an ELF image.
pub mod cfg_builder;
pub mod dwarf_cfi;
pub mod elf_parser;
