//! Generates bash and zsh completion scripts from a line-oriented description of a
//! program's options.
//!
//! A description is read by [`config::Config::from_string`] into a [`config::Config`];
//! [`generate::generate_script`] turns that into the text of a script for the shell the
//! description names.
//!
//! Every function here is verified against a contract over the characters of the texts it
//! takes and returns:
//!
//! - [`text`]: sequences of characters, and what is done to them: cutting, trimming,
//!   quoting, joining, padding.
//! - [`config`]: the description as data.
//! - [`error`]: what can be wrong with a description.
//! - [`parser`]: the grammar of descriptions, and the reader.
//! - [`describe`]: the plain written form of a description, and the proof that it is read
//!   back as the same description.
//! - [`bash`], [`zsh`]: the layout of the two scripts, the writers, and what holds of every
//!   script they write.
//! - [`generate`]: the choice between the two.

pub mod bash;
pub mod config;
pub mod describe;
pub mod error;
pub mod generate;
pub mod parser;
pub mod text;
pub mod zsh;
