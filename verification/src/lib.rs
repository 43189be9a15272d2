//! An Office VBA project parser.
//!
//! The main entry point into the API is the [`Project`] type, returned by the
//! [`open_project`] function. A project's bytes are a compound file: a small file system with
//! storages and streams. Its *dir* stream describes the project; each module has a stream that
//! holds its source code in compressed form.
//!
//! The modules fall into four groups:
//!
//! * [`format`], [`bytes`], [`information`], [`references`], [`modules`] and [`dir_stream`] read
//!   the *dir* stream. Each parser is tied to a grammar function on byte sequences.
//!   [`written_records`], [`written_references`], [`written_modules`] and [`written_dir`] state
//!   what the records of a *dir* stream say and that nothing else is read, and [`dropped`],
//!   [`dir_laws`], [`reference_laws`] and [`module_laws`] which of their bytes do not matter.
//! * [`matching`], [`compression`], [`decompression`] and [`round_trip`] hold the compression of
//!   streams. [`token_laws`] and [`chunk_laws`] state what a compressed stream stands for, and
//!   [`encoding_laws`] how one is written.
//! * [`code_page`] holds the conversion of text, of which [`text_laws`] states what it comes to.
//! * [`container`], [`layout`] and [`place`] hold the compound file, [`module_stream`] the stream
//!   of a module, and [`project`] what is done with all of it. [`project_laws`] and
//!   [`layout_laws`] state what follows from the contents of a compound file, [`laws`] what holds
//!   over several operations, and [`value_laws`] what the results stand for.

pub mod bytes;
pub mod chunk_laws;
pub mod code_page;
pub mod compression;
pub mod container;
pub mod decompression;
pub mod dir_laws;
pub mod dir_stream;
pub mod dropped;
pub mod encoding_laws;
pub mod error;
pub mod format;
pub mod information;
pub mod laws;
pub mod layout;
pub mod layout_laws;
pub mod matching;
pub mod module_laws;
pub mod module_stream;
pub mod modules;
pub mod place;
pub mod project;
pub mod project_laws;
pub mod reference_laws;
pub mod references;
pub mod round_trip;
pub mod text_laws;
pub mod token_laws;
pub mod value_laws;
pub mod written_dir;
pub mod written_modules;
pub mod written_records;
pub mod written_references;

pub use crate::error::Error;
pub use crate::information::{Information, SysKind};
pub use crate::modules::{Module, ModuleType};
pub use crate::project::{open_project, try_open_project, Project};
pub use crate::references::{
    Reference, ReferenceControl, ReferenceOriginal, ReferenceProject, ReferenceRegistered,
};
