//! Display options.
use vstd::prelude::*;

verus! {

/// Display options of the program.
#[derive(Debug, Clone, Copy, PartialEq, Eq, Structural)]
pub struct Config {
    /// Draw with double-width glyphs, one for every two terminal columns.
    pub enable_cjk: bool,
}

impl Default for Config {
    fn default() -> (r: Config)
        ensures
            !r.enable_cjk,
    {
        Config { enable_cjk: false }
    }
}

} // verus!
