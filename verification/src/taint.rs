//! Taint propagation.

pub mod annotations;
pub mod channels;
pub mod enforcement;
pub mod explicit;
pub mod exprs;
pub mod funcs;
pub mod goto;
pub mod implicit;
pub mod laws;
pub mod mutation;
pub mod statements;
pub mod visits;
pub mod walks;
