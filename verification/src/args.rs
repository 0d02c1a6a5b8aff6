use vstd::prelude::*;

verus! {

// ------------------------------------------------------------------
// The commands the program understands, as plain data. Argument
// parsing itself is command-line I/O and lives outside the library.
// ------------------------------------------------------------------

#[derive(Debug, Clone)]
pub enum PluginAction {
    List,
    Add { path: String },
    Remove { name: String },
    Enable { name: String },
    Disable { name: String },
}

#[derive(Debug, Clone)]
pub enum Commands {
    Plugin { action: PluginAction },
}

} // verus!
