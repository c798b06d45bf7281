//! A compiler for a small firewall rule language with file inclusion.
//!
//! The library turns a declarative rule source into an ordered script of
//! `iptables` invocations.  Every user-defined chain is hidden behind a
//! namespace prefix so that generated state can be installed, regenerated
//! and removed without touching pre-existing configuration.
//!
//! Text is modelled as sequences of characters (`Vec<char>` in executable
//! code, `Seq<char>` in specifications); callers convert to and from
//! `String` at the boundary.

pub mod compiler;
pub mod loader;
pub mod ports;
pub mod text;
