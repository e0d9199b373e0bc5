//! Scenario formats, constraint checks and coverage bookkeeping for grammar
//! targets: the two Alpenglow scenario grammars (rendering, parsing,
//! validation and generation), k-path and k-alt-path coverage, the scope
//! repair of generated Yul, and the command line of the sample generator.

pub mod format;
pub mod rng;
pub mod text;

pub mod alpenglow_two_rounds;
pub mod alpenglow;
pub mod altpath;
pub mod cli;
pub mod coverage;
pub mod targets;
