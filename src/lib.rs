//! Codec for the two-stage "BootStage" firmware container, with converters
//! to and from a flat loadable image, ELF executables and DOL files.
pub mod bootstage;
pub mod bytes;
pub mod convert;
pub mod dol;
pub mod elf;
