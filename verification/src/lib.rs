//! Binary-format manipulation of WebAssembly modules: a section-level codec,
//! a typed catalog over decoded sections, a leveled optimization pipeline that
//! strips custom sections, and a composition engine that links several modules
//! into one.
//!
//! The data flows from bytes through [`codec::decode`] to a [`module::Module`],
//! through [`optimizer::optimize`] or [`composer::compose`] to another module,
//! and through [`codec::encode`] back to bytes. Every function states what it
//! returns over the mathematical value of its arguments, and the laws that
//! relate the functions to each other are proved beside them:
//!
//! - `leb128`: unsigned LEB128 integers; reading accepts every encoding of
//!   a 64-bit value, writing gives the minimal one.
//! - `module`, `codec`: the sections of a module and their encoding; decoding
//!   what was encoded gives the module back.
//! - `catalog`: imports, exports, counts and custom sections of a module.
//! - `optimizer`: the levels of stripping; each is a filter and idempotent.
//! - `config`, `resolver`: the configuration of a composition and the
//!   resolution of imports against exports.
//! - `layout`, `rewrite`, `merge`, `composer`: the index spaces of the linked
//!   module, the rewriting of references, the merged sections, the engine.
//! - `linked`: what the import and export sections of a linked module hold.
//! - `utils`, `text`, `report`: names, sizes and errors as text.

pub mod catalog;
pub mod codec;
pub mod composer;
pub mod config;
pub mod layout;
pub mod leb128;
pub mod linked;
pub mod merge;
pub mod module;
pub mod optimizer;
pub mod report;
pub mod resolver;
pub mod rewrite;
pub mod text;
pub mod utils;
