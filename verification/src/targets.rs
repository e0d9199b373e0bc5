//! Grammar targets that need no scenario logic of their own, and the scope
//! repair of generated Yul.

pub mod alpenglow;
pub mod evm;
pub mod yul;
