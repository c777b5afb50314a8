//! Names chosen for the generated wires of one module.

use vstd::prelude::*;

verus! {

/// The mangled wire names for one instance's ports: each input `p` becomes
/// `__<instance>_input_<p>` and each output `__<instance>_output_<p>`.
pub struct InstanceDecls {
    pub input_names: Vec<(String, String)>,
    pub output_names: Vec<(String, String)>,
}

/// The mangled wire names for one memory's write port.
pub struct MemDecls {
    pub write_address_name: String,
    pub write_value_name: String,
    pub write_enable_name: String,
}

/// The mangled names for one register: its current value
/// `__reg_<name>_<ordinal>` and its next value `<value>_next`.
pub struct RegisterDecls {
    pub value_name: String,
    pub next_name: String,
}

/// All generated names of one module, keyed by node index.
pub struct ModuleDecls {
    pub instances: Vec<(usize, InstanceDecls)>,
    pub mems: Vec<(usize, MemDecls)>,
    pub regs: Vec<(usize, RegisterDecls)>,
}

} // verus!
