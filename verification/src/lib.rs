//! The core of a small interactive command interpreter.
//!
//! A line of input goes through four steps. The tokenizer splits it into
//! raw tokens: words, with their quotes and backslashes, and redirect
//! operators. The resolver turns each raw token into the literal word. The
//! builder makes a command of the words: an executable, its arguments, and
//! the files that its output is redirected to. The dispatcher decides what
//! the command leads to: a built-in command or a search for an executable.
//!
//! - [`text`]: character classes, and strings as sequences of characters.
//! - [`grammar`]: what the tokens of a line are.
//! - [`tokenize`]: the tokenizer, made of parsers and combinators.
//! - [`scan`]: a one-pass reading of a line, and its agreement with the
//!   grammar.
//! - [`unescape`]: the resolver of quotes and escapes.
//! - [`command`]: the builder of commands.
//! - [`dispatch`]: the built-in commands and the search path.
//!
//! Nothing in this crate reads input, writes output, touches a file or
//! starts a process: it computes what is to be done, and leaves the doing to
//! its caller.

pub mod text;
pub mod grammar;
pub mod tokenize;
pub mod scan;
pub mod unescape;
pub mod command;
pub mod dispatch;
