//! A small interactive shell: the command-line language (quoting, splitting on
//! pipes and chain operators, here-documents, alias, variable, tilde and brace
//! expansion, tokenizing and command classification) and the decisions that
//! drive chains and control flow, each stated against a mathematical model.
pub mod text;
pub mod split;
pub mod heredoc;
pub mod number;
pub mod braces;
pub mod expand;
pub mod command;
pub mod alias;
pub mod order;
pub mod parse;
pub mod glob_pattern;
pub mod control;
pub mod builtins;
pub mod shell;
pub mod arith;
