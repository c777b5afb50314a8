//! Structural SystemVerilog generation.
//!
//! [`generate`] validates the hierarchy rooted at a module — recursion,
//! driven-ness, memory and combinational-loop checks — and then emits one
//! SystemVerilog module definition per reachable module: ports `reset_n`,
//! `clk` and the declared inputs and outputs, a wire per signal node, one
//! `always_ff` block per register (with an active-low asynchronous reset
//! when the register declares an initial value), the instantiations, and the
//! combinational assignments.

mod instance_decls;

pub use instance_decls::{InstanceDecls, MemDecls, ModuleDecls, RegisterDecls};

use crate::module::{BinOp, Context, Error, Module, SignalData};
use crate::validation::{
    in_seq, module_instances_driven, module_mems_ok, module_regs_driven, order_closed,
    validate_module_hierarchy, validation_error_witnessed,
};
use vstd::prelude::*;
use vstd::string::StringExecFns;

verus! {

/// One decimal or hexadecimal digit.
fn digit_str(v: u32) -> (r: &'static str)
    requires
        v < 16,
{
    match v {
        0 => "0",
        1 => "1",
        2 => "2",
        3 => "3",
        4 => "4",
        5 => "5",
        6 => "6",
        7 => "7",
        8 => "8",
        9 => "9",
        10 => "a",
        11 => "b",
        12 => "c",
        13 => "d",
        14 => "e",
        _ => "f",
    }
}

/// `v` in decimal.
fn dec_u32(v: u32) -> (r: String)
    decreases v,
{
    if v >= 10 {
        let mut s = dec_u32(v / 10);
        s.append(digit_str(v % 10));
        s
    } else {
        digit_str(v).to_owned()
    }
}

/// `v` in decimal.
fn dec_usize(v: usize) -> (r: String)
    decreases v,
{
    if v >= 10 {
        let mut s = dec_usize(v / 10);
        s.append(digit_str((v % 10) as u32));
        s
    } else {
        digit_str(v as u32).to_owned()
    }
}

/// `v` in hexadecimal.
fn hex_u128(v: u128) -> (r: String)
    decreases v,
{
    if v >= 16 {
        let mut s = hex_u128(v / 16);
        s.append(digit_str((v % 16) as u32));
        s
    } else {
        digit_str(v as u32).to_owned()
    }
}

/// The width annotation `[w-1:0] ` for multi-bit wires, empty for one bit.
fn width_spec(w: u32) -> (r: String)
    requires
        w >= 1,
{
    if w > 1 {
        let mut s: String = "[".to_owned();
        s.append(dec_u32(w - 1).as_str());
        s.append(":0] ");
        s
    } else {
        "".to_owned()
    }
}

/// The wire name that carries signal `i` inside its module: an input keeps
/// its port name, a register uses its mangled value name, an instance
/// output uses the instance port wire, and every other node gets a numbered
/// wire.
fn signal_ref(c: &Context, i: usize) -> (r: String)
    requires
        c.wf(),
        i < c.signals@.len(),
{
    proof {
        assert(c.signal_wf(i as int));
    }
    match &c.signals[i].data {
        SignalData::Input { name, .. } => name.clone(),
        SignalData::Reg { name, .. } => {
            let md = c.signals[i].module;
            let mut s: String = "__reg_".to_owned();
            s.append(name.as_str());
            s.append("_");
            match crate::module::table_find(&c.modules[md].registers, name) {
                Some(j) => {
                    s.append(dec_usize(j).as_str());
                },
                None => {
                    proof {
                        assert(false);
                    }
                },
            }
            s
        },
        SignalData::InstanceOutput { instance, name } => {
            let mut s: String = "__".to_owned();
            s.append(c.instances[instance.id].name.as_str());
            s.append("_output_");
            s.append(name.as_str());
            s
        },
        _ => {
            let mut s: String = "__n".to_owned();
            s.append(dec_usize(i).as_str());
            s
        },
    }
}

/// The SystemVerilog infix operator for a binary operator; comparisons of
/// signed interpretation are emitted over `$signed` operands.
fn binop_token(op: BinOp) -> (r: &'static str)
{
    match op {
        BinOp::BitAnd => " & ",
        BinOp::BitOr => " | ",
        BinOp::BitXor => " ^ ",
        BinOp::Add => " + ",
        BinOp::Eq => " == ",
        BinOp::Ne => " != ",
        BinOp::Lt | BinOp::LtSigned => " < ",
        BinOp::Le | BinOp::LeSigned => " <= ",
        BinOp::Gt | BinOp::GtSigned => " > ",
        BinOp::Ge | BinOp::GeSigned => " >= ",
    }
}

/// Whether the operands are compared under signed interpretation.
fn binop_signed(op: BinOp) -> (r: bool)
{
    match op {
        BinOp::LtSigned | BinOp::LeSigned | BinOp::GtSigned | BinOp::GeSigned => true,
        _ => false,
    }
}

/// An operand reference, wrapped in `$signed(..)` when requested.
fn operand_ref(c: &Context, i: usize, signed: bool) -> (r: String)
    requires
        c.wf(),
        i < c.signals@.len(),
{
    if signed {
        let mut s: String = "$signed(".to_owned();
        s.append(signal_ref(c, i).as_str());
        s.append(")");
        s
    } else {
        signal_ref(c, i)
    }
}

/// The defining expression of one combinational node.
fn node_expr(c: &Context, i: usize) -> (r: String)
    requires
        c.wf(),
        i < c.signals@.len(),
{
    proof {
        assert(c.signal_wf(i as int));
    }
    match &c.signals[i].data {
        SignalData::Lit { value, bit_width } => {
            let mut s = dec_u32(*bit_width);
            s.append("'h");
            s.append(hex_u128(*value).as_str());
            s
        },
        SignalData::UnOp { op, source } => {
            let mut s: String = "~".to_owned();
            s.append(signal_ref(c, source.id).as_str());
            s
        },
        SignalData::BinOp { op, lhs, rhs } => {
            let signed = binop_signed(*op);
            let mut s = operand_ref(c, lhs.id, signed);
            s.append(binop_token(*op));
            s.append(operand_ref(c, rhs.id, signed).as_str());
            s
        },
        SignalData::Bit { source, index } => {
            let mut s = signal_ref(c, source.id);
            s.append("[");
            s.append(dec_u32(*index).as_str());
            s.append("]");
            s
        },
        SignalData::Bits { source, range_high, range_low } => {
            let mut s = signal_ref(c, source.id);
            s.append("[");
            s.append(dec_u32(*range_high).as_str());
            s.append(":");
            s.append(dec_u32(*range_low).as_str());
            s.append("]");
            s
        },
        SignalData::Repeat { source, count } => {
            let mut s: String = "{".to_owned();
            s.append(dec_u32(*count).as_str());
            s.append("{");
            s.append(signal_ref(c, source.id).as_str());
            s.append("}}");
            s
        },
        SignalData::Concat { lhs, rhs } => {
            let mut s: String = "{".to_owned();
            s.append(signal_ref(c, lhs.id).as_str());
            s.append(", ");
            s.append(signal_ref(c, rhs.id).as_str());
            s.append("}");
            s
        },
        SignalData::Mux { a, b, sel } => {
            let mut s = signal_ref(c, sel.id);
            s.append(" ? ");
            s.append(signal_ref(c, a.id).as_str());
            s.append(" : ");
            s.append(signal_ref(c, b.id).as_str());
            s
        },
        _ => String::new(),
    }
}

/// The mangled names for the ports of instance entry `j` of module `md`.
fn instance_decls_for(c: &Context, md: usize, j: usize) -> (r: InstanceDecls)
    requires
        c.wf(),
        md < c.modules@.len(),
        j < c.modules@[md as int].instances@.len(),
{
    proof {
        assert(c.module_wf(md as int));
        assert(c.instance_entry_ok(md as int, j as int));
    }
    let inst = c.modules[md].instances[j].1;
    proof {
        assert(c.instance_wf(inst.id as int));
    }
    let inst_name = &c.instances[inst.id].name;
    let target = c.instances[inst.id].instantiated;
    let mut input_names: Vec<(String, String)> = Vec::new();
    let n_in = c.modules[target].inputs.len();
    let mut l: usize = 0;
    while l < n_in
        invariant
            c.wf(),
            target < c.modules@.len(),
            inst.id < c.instances@.len(),
            n_in == c.modules@[target as int].inputs@.len(),
        decreases n_in - l,
    {
        let port = &c.modules[target].inputs[l].0;
        let mut w: String = "__".to_owned();
        w.append(c.instances[inst.id].name.as_str());
        w.append("_input_");
        w.append(port.as_str());
        input_names.push((port.clone(), w));
        l = l + 1;
    }
    let mut output_names: Vec<(String, String)> = Vec::new();
    let n_out = c.modules[target].outputs.len();
    let mut l2: usize = 0;
    while l2 < n_out
        invariant
            c.wf(),
            target < c.modules@.len(),
            inst.id < c.instances@.len(),
            n_out == c.modules@[target as int].outputs@.len(),
        decreases n_out - l2,
    {
        let port = &c.modules[target].outputs[l2].0;
        let mut w: String = "__".to_owned();
        w.append(c.instances[inst.id].name.as_str());
        w.append("_output_");
        w.append(port.as_str());
        output_names.push((port.clone(), w));
        l2 = l2 + 1;
    }
    InstanceDecls { input_names, output_names }
}

/// Emits the full definition of module `md`.
#[verifier::rlimit(100)]
#[verifier::spinoff_prover]
fn emit_module(c: &Context, md: usize) -> (r: String)
    requires
        c.wf(),
        md < c.modules@.len(),
        module_regs_driven(*c, md as int),
        module_instances_driven(*c, md as int),
    ensures
        r@.len() >= 1,
{
    proof {
        assert(c.module_wf(md as int));
    }
    let mut decls = ModuleDecls { instances: Vec::new(), mems: Vec::new(), regs: Vec::new() };
    let n_reg = c.modules[md].registers.len();
    let n_inst = c.modules[md].instances.len();
    let n_in = c.modules[md].inputs.len();
    let n_out = c.modules[md].outputs.len();
    let n_sig = c.signals.len();
    let mut j: usize = 0;
    while j < n_reg
        invariant
            c.wf(),
            md < c.modules@.len(),
            n_reg == c.modules@[md as int].registers@.len(),
            decls.regs@.len() == j,
            decls.instances@.len() == 0,
            j <= n_reg,
            forall|k3: int|
                0 <= k3 < j ==> (#[trigger] decls.regs@[k3]).0
                    == c.modules@[md as int].registers@[k3].1.value.id,
        decreases n_reg - j,
    {
        let mut value_name: String = "__reg_".to_owned();
        value_name.append(c.modules[md].registers[j].0.as_str());
        value_name.append("_");
        value_name.append(dec_usize(j).as_str());
        let mut next_name = value_name.clone();
        next_name.append("_next");
        let rv = c.modules[md].registers[j].1.value;
        decls.regs.push((rv.id, RegisterDecls { value_name, next_name }));
        j = j + 1;
    }
    let mut j2: usize = 0;
    while j2 < n_inst
        invariant
            c.wf(),
            md < c.modules@.len(),
            n_reg == c.modules@[md as int].registers@.len(),
            n_inst == c.modules@[md as int].instances@.len(),
            decls.regs@.len() == n_reg,
            forall|k3: int|
                0 <= k3 < n_reg ==> (#[trigger] decls.regs@[k3]).0
                    == c.modules@[md as int].registers@[k3].1.value.id,
            decls.instances@.len() == j2,
            j2 <= n_inst,
        decreases n_inst - j2,
    {
        let d = instance_decls_for(c, md, j2);
        proof {
            assert(c.module_wf(md as int));
            assert(c.instance_entry_ok(md as int, j2 as int));
        }
        decls.instances.push((c.modules[md].instances[j2].1.id, d));
        j2 = j2 + 1;
    }
    proof {
        assert forall|k3: int| 0 <= k3 < n_reg implies (#[trigger] decls.regs@[k3]).0
            < c.signals@.len() by {
            assert(c.module_wf(md as int));
            assert(c.register_entry_ok(md as int, k3));
        }
    }
    // header and ports
    let mut w: String = "module ".to_owned();
    proof {
        reveal_strlit("module ");
    }
    w.append(c.modules[md].name.as_str());
    w.append("(\n    input wire logic reset_n,\n    input wire logic clk");
    let mut j3: usize = 0;
    while j3 < n_in
        invariant
            w@.len() >= 1,
            c.wf(),
            md < c.modules@.len(),
            n_in == c.modules@[md as int].inputs@.len(),
        decreases n_in - j3,
    {
        proof {
            assert(c.module_wf(md as int));
            assert(c.input_entry_ok(md as int, j3 as int));
        }
        w.append(",\n    input wire logic ");
        let sg = c.modules[md].inputs[j3].1;
        proof {
            assert(c.signal_wf(sg.id as int));
        }
        w.append(width_spec(c.signals[sg.id].width).as_str());
        w.append(c.modules[md].inputs[j3].0.as_str());
        j3 = j3 + 1;
    }
    let mut j4: usize = 0;
    while j4 < n_out
        invariant
            w@.len() >= 1,
            c.wf(),
            md < c.modules@.len(),
            n_out == c.modules@[md as int].outputs@.len(),
        decreases n_out - j4,
    {
        proof {
            assert(c.module_wf(md as int));
            assert(c.output_entry_ok(md as int, j4 as int));
        }
        w.append(",\n    output wire logic ");
        let sg = c.modules[md].outputs[j4].1.source;
        proof {
            assert(c.signal_wf(sg.id as int));
        }
        w.append(width_spec(c.signals[sg.id].width).as_str());
        w.append(c.modules[md].outputs[j4].0.as_str());
        j4 = j4 + 1;
    }
    w.append("\n);\n\n");
    // wire declarations for combinational nodes, instance ports, registers
    let mut i: usize = 0;
    while i < n_sig
        invariant
            w@.len() >= 1,
            c.wf(),
            md < c.modules@.len(),
            n_sig == c.signals@.len(),
        decreases n_sig - i,
    {
        proof {
            assert(c.signal_wf(i as int));
        }
        if c.signals[i].module == md {
            let emit_wire: bool = match &c.signals[i].data {
                SignalData::Input { .. } => false,
                SignalData::Reg { .. } => false,
                SignalData::InstanceOutput { .. } => false,
                _ => true,
            };
            if emit_wire {
                w.append("    logic ");
                w.append(width_spec(c.signals[i].width).as_str());
                w.append(signal_ref(c, i).as_str());
                w.append(";\n");
            }
        }
        i = i + 1;
    }
    let nd_inst = decls.instances.len();
    let mut k: usize = 0;
    while k < nd_inst
        invariant
            w@.len() >= 1,
            c.wf(),
            md < c.modules@.len(),
            nd_inst == decls.instances@.len(),
        decreases nd_inst - k,
    {
        let n_i = decls.instances[k].1.input_names.len();
        let mut l: usize = 0;
        while l < n_i
            invariant
                w@.len() >= 1,
            w@.len() >= 1,
                c.wf(),
                k < decls.instances@.len(),
                n_i == decls.instances@[k as int].1.input_names@.len(),
            decreases n_i - l,
        {
            w.append("    logic ");
            w.append(decls.instances[k].1.input_names[l].1.as_str());
            w.append(";\n");
            l = l + 1;
        }
        let n_o = decls.instances[k].1.output_names.len();
        let mut l2: usize = 0;
        while l2 < n_o
            invariant
                w@.len() >= 1,
            w@.len() >= 1,
                c.wf(),
                k < decls.instances@.len(),
                n_o == decls.instances@[k as int].1.output_names@.len(),
            decreases n_o - l2,
        {
            w.append("    logic ");
            w.append(decls.instances[k].1.output_names[l2].1.as_str());
            w.append(";\n");
            l2 = l2 + 1;
        }
        k = k + 1;
    }
    let nd_reg = decls.regs.len();
    let mut k2: usize = 0;
    while k2 < nd_reg
        invariant
            w@.len() >= 1,
            c.wf(),
            md < c.modules@.len(),
            n_reg == c.modules@[md as int].registers@.len(),
            nd_reg == decls.regs@.len(),
            nd_reg == n_reg,
            forall|k3: int|
                0 <= k3 < n_reg ==> (#[trigger] decls.regs@[k3]).0
                    == c.modules@[md as int].registers@[k3].1.value.id,
        decreases nd_reg - k2,
    {
        proof {
            assert(c.module_wf(md as int));
            assert(c.register_entry_ok(md as int, k2 as int));
            assert(c.signal_wf(decls.regs@[k2 as int].0 as int));
        }
        let rid = decls.regs[k2].0;
        w.append("    logic ");
        w.append(width_spec(c.signals[rid].width).as_str());
        w.append(decls.regs[k2].1.value_name.as_str());
        w.append(";\n    logic ");
        w.append(width_spec(c.signals[rid].width).as_str());
        w.append(decls.regs[k2].1.next_name.as_str());
        w.append(";\n");
        k2 = k2 + 1;
    }
    w.append("\n");
    // instantiations
    let mut j5: usize = 0;
    while j5 < n_inst
        invariant
            w@.len() >= 1,
            c.wf(),
            md < c.modules@.len(),
            n_inst == c.modules@[md as int].instances@.len(),
            nd_inst == decls.instances@.len(),
            nd_inst == n_inst,
        decreases n_inst - j5,
    {
        proof {
            assert(c.module_wf(md as int));
            assert(c.instance_entry_ok(md as int, j5 as int));
            assert(c.instance_wf(c.modules@[md as int].instances@[j5 as int].1.id as int));
        }
        let inst = c.modules[md].instances[j5].1;
        let target = c.instances[inst.id].instantiated;
        w.append("    ");
        w.append(c.modules[target].name.as_str());
        w.append(" ");
        w.append(c.instances[inst.id].name.as_str());
        w.append("(\n        .reset_n(reset_n),\n        .clk(clk)");
        let n_i = decls.instances[j5].1.input_names.len();
        let mut l: usize = 0;
        while l < n_i
            invariant
                w@.len() >= 1,
            w@.len() >= 1,
                c.wf(),
                j5 < decls.instances@.len(),
                n_i == decls.instances@[j5 as int].1.input_names@.len(),
            decreases n_i - l,
        {
            w.append(",\n        .");
            w.append(decls.instances[j5].1.input_names[l].0.as_str());
            w.append("(");
            w.append(decls.instances[j5].1.input_names[l].1.as_str());
            w.append(")");
            l = l + 1;
        }
        let n_o = decls.instances[j5].1.output_names.len();
        let mut l2: usize = 0;
        while l2 < n_o
            invariant
                w@.len() >= 1,
            w@.len() >= 1,
                c.wf(),
                j5 < decls.instances@.len(),
                n_o == decls.instances@[j5 as int].1.output_names@.len(),
            decreases n_o - l2,
        {
            w.append(",\n        .");
            w.append(decls.instances[j5].1.output_names[l2].0.as_str());
            w.append("(");
            w.append(decls.instances[j5].1.output_names[l2].1.as_str());
            w.append(")");
            l2 = l2 + 1;
        }
        w.append(");\n\n");
        j5 = j5 + 1;
    }
    // one always_ff block per register
    let mut j6: usize = 0;
    while j6 < n_reg
        invariant
            w@.len() >= 1,
            c.wf(),
            md < c.modules@.len(),
            n_reg == c.modules@[md as int].registers@.len(),
            nd_reg == decls.regs@.len(),
            nd_reg == n_reg,
            forall|k3: int|
                0 <= k3 < n_reg ==> (#[trigger] decls.regs@[k3]).0
                    == c.modules@[md as int].registers@[k3].1.value.id,
        decreases n_reg - j6,
    {
        proof {
            assert(c.module_wf(md as int));
            assert(c.register_entry_ok(md as int, j6 as int));
            assert(c.signal_wf(decls.regs@[j6 as int].0 as int));
        }
        let rid = decls.regs[j6].0;
        let initial: Option<u128> = match &c.signals[rid].data {
            SignalData::Reg { initial_value, .. } => *initial_value,
            _ => None,
        };
        w.append("    always_ff @(posedge clk");
        match initial {
            Some(_) => {
                w.append(", negedge reset_n");
            },
            None => {},
        }
        w.append(") begin\n");
        match initial {
            Some(iv) => {
                w.append("        if (~reset_n) begin\n            ");
                w.append(decls.regs[j6].1.value_name.as_str());
                w.append(" <= ");
                w.append(dec_u32(c.signals[rid].width).as_str());
                w.append("'h");
                w.append(hex_u128(iv).as_str());
                w.append(";\n        end\n        else begin\n            ");
                w.append(decls.regs[j6].1.value_name.as_str());
                w.append(" <= ");
                w.append(decls.regs[j6].1.next_name.as_str());
                w.append(";\n        end\n");
            },
            None => {
                w.append("        ");
                w.append(decls.regs[j6].1.value_name.as_str());
                w.append(" <= ");
                w.append(decls.regs[j6].1.next_name.as_str());
                w.append(";\n");
            },
        }
        w.append("    end\n\n");
        j6 = j6 + 1;
    }
    // combinational assignments for every node of this module
    let mut i2: usize = 0;
    while i2 < n_sig
        invariant
            w@.len() >= 1,
            c.wf(),
            md < c.modules@.len(),
            n_sig == c.signals@.len(),
        decreases n_sig - i2,
    {
        proof {
            assert(c.signal_wf(i2 as int));
        }
        if c.signals[i2].module == md {
            let emit_assign: bool = match &c.signals[i2].data {
                SignalData::Input { .. } => false,
                SignalData::Reg { .. } => false,
                SignalData::InstanceOutput { .. } => false,
                _ => true,
            };
            if emit_assign {
                w.append("    assign ");
                w.append(signal_ref(c, i2).as_str());
                w.append(" = ");
                w.append(node_expr(c, i2).as_str());
                w.append(";\n");
            }
        }
        i2 = i2 + 1;
    }
    // output bindings
    let mut j7: usize = 0;
    while j7 < n_out
        invariant
            w@.len() >= 1,
            c.wf(),
            md < c.modules@.len(),
            n_out == c.modules@[md as int].outputs@.len(),
        decreases n_out - j7,
    {
        proof {
            assert(c.module_wf(md as int));
            assert(c.output_entry_ok(md as int, j7 as int));
        }
        w.append("    assign ");
        w.append(c.modules[md].outputs[j7].0.as_str());
        w.append(" = ");
        w.append(signal_ref(c, c.modules[md].outputs[j7].1.source.id).as_str());
        w.append(";\n");
        j7 = j7 + 1;
    }
    // instance input bindings
    let mut j8: usize = 0;
    while j8 < n_inst
        invariant
            w@.len() >= 1,
            c.wf(),
            md < c.modules@.len(),
            module_instances_driven(*c, md as int),
            n_inst == c.modules@[md as int].instances@.len(),
            nd_inst == decls.instances@.len(),
            nd_inst == n_inst,
        decreases n_inst - j8,
    {
        proof {
            assert(c.module_wf(md as int));
            assert(c.instance_entry_ok(md as int, j8 as int));
            assert(c.instance_wf(c.modules@[md as int].instances@[j8 as int].1.id as int));
            assert(crate::validation::instance_fully_driven(
                *c,
                c.modules@[md as int].instances@[j8 as int].1.id as int,
            ));
        }
        let inst = c.modules[md].instances[j8].1;
        let n_i = decls.instances[j8].1.input_names.len();
        let mut l: usize = 0;
        while l < n_i
            invariant
                w@.len() >= 1,
            w@.len() >= 1,
                c.wf(),
                md < c.modules@.len(),
                j8 < decls.instances@.len(),
                inst.id < c.instances@.len(),
                c.instance_wf(inst.id as int),
                crate::validation::instance_fully_driven(*c, inst.id as int),
                n_i == decls.instances@[j8 as int].1.input_names@.len(),
            decreases n_i - l,
        {
            let port = &decls.instances[j8].1.input_names[l].0;
            match crate::module::table_find(&c.instances[inst.id].driven_inputs, port) {
                Some(d) => {
                    proof {
                        assert(c.driven_input_ok(inst.id as int, d as int));
                    }
                    w.append("    assign ");
                    w.append(decls.instances[j8].1.input_names[l].1.as_str());
                    w.append(" = ");
                    w.append(signal_ref(c, c.instances[inst.id].driven_inputs[d].1.id).as_str());
                    w.append(";\n");
                },
                None => {},
            }
            l = l + 1;
        }
        j8 = j8 + 1;
    }
    // register next-value bindings
    let mut j9: usize = 0;
    while j9 < n_reg
        invariant
            w@.len() >= 1,
            c.wf(),
            md < c.modules@.len(),
            module_regs_driven(*c, md as int),
            n_reg == c.modules@[md as int].registers@.len(),
            nd_reg == decls.regs@.len(),
            nd_reg == n_reg,
            forall|k3: int|
                0 <= k3 < n_reg ==> (#[trigger] decls.regs@[k3]).0
                    == c.modules@[md as int].registers@[k3].1.value.id,
        decreases n_reg - j9,
    {
        proof {
            assert(c.module_wf(md as int));
            assert(c.register_entry_ok(md as int, j9 as int));
            assert(c.signal_wf(decls.regs@[j9 as int].0 as int));
        }
        let rid = decls.regs[j9].0;
        match &c.signals[rid].data {
            SignalData::Reg { next, .. } => match next {
                Some(nx) => {
                    w.append("    assign ");
                    w.append(decls.regs[j9].1.next_name.as_str());
                    w.append(" = ");
                    w.append(signal_ref(c, nx.id).as_str());
                    w.append(";\n");
                },
                None => {},
            },
            _ => {},
        }
        j9 = j9 + 1;
    }
    w.append("endmodule\n\n");
    w
}

/// Validates the hierarchy rooted at `m` — including combinational-loop
/// detection — and emits one SystemVerilog definition for it and for every
/// module it transitively instantiates. Nothing is emitted unless the whole
/// hierarchy validates.
pub fn generate(c: &Context, m: Module) -> (r: Result<String, Error>)
    requires
        c.wf(),
        m.id < c.modules@.len(),
    ensures
        match r {
            Ok(text) => text@.len() >= 1 && exists|v: Seq<usize>|
                {
                    &&& #[trigger] in_seq(v, m.id)
                    &&& order_closed(*c, v)
                    &&& forall|i: int|
                        0 <= i < v.len() ==> module_regs_driven(*c, (#[trigger] v[i]) as int)
                            && module_instances_driven(*c, v[i] as int) && module_mems_ok(
                            *c,
                            v[i] as int,
                        )
                },
            Err(e) => validation_error_witnessed(*c, e) || crate::sim::lowering_error(*c, e),
        },
{
    match crate::sim::Sim::new(c, m) {
        Ok(_) => {},
        Err(e) => {
            return Err(e);
        },
    }
    let order = match validate_module_hierarchy(c, m) {
        Ok(v) => v,
        Err(e) => {
            return Err(e);
        },
    };
    let mut text = String::new();
    let n_ord = order.len();
    let mut i: usize = n_ord;
    while i > 0
        invariant
            c.wf(),
            n_ord == order@.len(),
            i <= n_ord,
            i < n_ord ==> text@.len() >= 1,
            order_closed(*c, order@),
            forall|i2: int|
                0 <= i2 < order@.len() ==> module_regs_driven(*c, (#[trigger] order@[i2]) as int)
                    && module_instances_driven(*c, order@[i2] as int) && module_mems_ok(
                    *c,
                    order@[i2] as int,
                ),
        decreases i,
    {
        i = i - 1;
        let md = order[i];
        proof {
            assert(order@[i as int] < c.modules@.len());
        }
        text.append(emit_module(c, md).as_str());
    }
    proof {
        assert(in_seq(order@, m.id));
        assert(n_ord >= 1);
    }
    Ok(text)
}

} // verus!
