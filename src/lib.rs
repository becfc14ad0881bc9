//! Expands one function declaration with promotable parameters into a family
//! of specialised variants and a dispatcher that routes each call to the most
//! specialised variant whose constants match the runtime arguments.

pub mod model;
pub mod outside;
pub mod analyze;
pub mod expand;
pub mod laws;
