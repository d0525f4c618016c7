//! Code generation backends: rendering a `Shape` as target-language source
//! text.

pub mod typescript;
pub mod typescript_type_alias;
