//! Quoted-literal reading for policy text, and the small configuration shapes around it.

pub mod lexical;
pub mod test_util;
pub mod route_config;
