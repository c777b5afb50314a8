//! A hardware description library: users build a graph of digital-logic
//! modules (inputs, outputs, registers, combinational operators, bit slicing,
//! concatenation, multiplexers, nested instances), validate it, and either
//! emit structural SystemVerilog or simulate the design cycle by cycle.

pub mod module;
pub mod sim;
pub mod system_verilog;
pub mod validation;
pub mod value;
