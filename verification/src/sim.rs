//! Cycle-accurate simulation of a validated design.
//!
//! A design is lowered once into a straight line of instructions in
//! dependency order, with common subexpressions shared through a memo keyed
//! by (module context, signal). A [`Sim`] then models one module: its inputs
//! and outputs by name, and its registers, across the whole flattened
//! instance hierarchy. Simulation is two-phase: [`Sim::prop`] recomputes all
//! combinational values from the current inputs and register values, and
//! [`Sim::posedge_clk`] latches every register's next value without
//! recomputing, so outputs keep their pre-edge values until the following
//! `prop`.
//!
//! The meaning of the lowered program is pinned in two steps. [`sig_den`]
//! gives every graph signal's value as a function of the design, the raw
//! inputs and the registers' current values — the combinational semantics of
//! the data model itself. For a design without instances, [`Sim::new`]
//! ensures [`sim_denotes`]: every output and every register's next-value
//! instruction computes exactly that denotation, and each simulator register
//! stands for a distinct register node with its width and initial value.
//! Designs with instances elaborate through per-path contexts; their lowered
//! program satisfies the same execution contracts, but its relation to the
//! graph is checked by the tests rather than stated here.

pub mod module_context;

use crate::module::{BinOp, Context, Error, Module, Register, Signal, SignalData, UnOp};
use crate::value::{
    add_of, add_val, and_of, as_signed, bit_of, bits_of, bits_val, concat_of, concat_val, in_width,
    lt_signed_of, mask_to_width, not_of, not_val, or_of, pow2w, repeat_of, repeat_val, xor_of,
};
use vstd::prelude::*;

verus! {

/// One lowered instruction. Operand fields hold indices of earlier
/// instructions; `width` fields are in bits.
#[derive(Clone, Copy)]
pub enum Instr {
    /// The root-module input at `index`, masked to `width` bits.
    Input { index: usize, width: u32 },
    /// The current value of register `reg`.
    RegValue { reg: usize, width: u32 },
    /// A constant that fits in `width` bits.
    Lit { value: u128, width: u32 },
    /// Complement of the low `width` bits of `src`.
    Not { src: usize, width: u32 },
    /// A binary operator over two operands of `op_width` bits.
    Binop { op: BinOp, lhs: usize, rhs: usize, op_width: u32 },
    /// The single bit of `src` at `index`.
    Bit { src: usize, index: u32 },
    /// The bits of `src` from `range_high` down to `range_low`.
    Bits { src: usize, range_high: u32, range_low: u32 },
    /// `src` (of `src_width` bits) repeated `count` times: `width` bits.
    Repeat { src: usize, src_width: u32, count: u32, width: u32 },
    /// `lhs` above the `rhs_width`-bit `rhs`: `width` bits in all.
    Concat { lhs: usize, rhs: usize, rhs_width: u32, width: u32 },
    /// `a` when `sel` is high, `b` when it is low; `width` bits.
    Mux { a: usize, b: usize, sel: usize, width: u32 },
}

/// The bit width of an instruction's result.
pub open spec fn instr_res_width(ins: Instr) -> u32 {
    match ins {
        Instr::Input { width, .. } => width,
        Instr::RegValue { width, .. } => width,
        Instr::Lit { width, .. } => width,
        Instr::Not { width, .. } => width,
        Instr::Binop { op, op_width, .. } => if op.spec_is_comparison() {
            1u32
        } else {
            op_width
        },
        Instr::Bit { .. } => 1u32,
        Instr::Bits { range_high, range_low, .. } => ((range_high - range_low + 1) as u32),
        Instr::Repeat { width, .. } => width,
        Instr::Concat { width, .. } => width,
        Instr::Mux { width, .. } => width,
    }
}

/// Well-formedness of instruction `i`: its operands come strictly earlier,
/// all widths are in `[1, 128]` and agree with the operands' result widths.
pub open spec fn instr_wf(instrs: Seq<Instr>, n_inputs: int, reg_widths: Seq<u32>, i: int) -> bool {
    &&& 1 <= instr_res_width(instrs[i]) <= 128
    &&& match instrs[i] {
        Instr::Input { index, width } => index < n_inputs,
        Instr::RegValue { reg, width } => reg < reg_widths.len() && width == reg_widths[reg as int],
        Instr::Lit { value, width } => in_width(value, width),
        Instr::Not { src, width } => src < i && width == instr_res_width(instrs[src as int]),
        Instr::Binop { op, lhs, rhs, op_width } => {
            &&& lhs < i
            &&& rhs < i
            &&& 1 <= op_width <= 128
            &&& op_width == instr_res_width(instrs[lhs as int])
            &&& op_width == instr_res_width(instrs[rhs as int])
        },
        Instr::Bit { src, index } => src < i && index < instr_res_width(instrs[src as int]),
        Instr::Bits { src, range_high, range_low } => src < i && range_low <= range_high
            < instr_res_width(instrs[src as int]),
        Instr::Repeat { src, src_width, count, width } => {
            &&& src < i
            &&& src_width == instr_res_width(instrs[src as int])
            &&& count >= 1
            &&& width == src_width * count
        },
        Instr::Concat { lhs, rhs, rhs_width, width } => {
            &&& lhs < i
            &&& rhs < i
            &&& rhs_width == instr_res_width(instrs[rhs as int])
            &&& width == instr_res_width(instrs[lhs as int]) + rhs_width
        },
        Instr::Mux { a, b, sel, width } => {
            &&& a < i
            &&& b < i
            &&& sel < i
            &&& width == instr_res_width(instrs[a as int])
            &&& width == instr_res_width(instrs[b as int])
            &&& instr_res_width(instrs[sel as int]) == 1
        },
    }
}

/// The value of a binary operator on canonical `w`-bit operands.
pub open spec fn binop_val(op: BinOp, a: u128, b: u128, w: u32) -> u128 {
    match op {
        BinOp::BitAnd => a & b,
        BinOp::BitOr => a | b,
        BinOp::BitXor => a ^ b,
        BinOp::Add => (add_val(a, b, w)) as u128,
        BinOp::Eq => if a == b {
            1u128
        } else {
            0u128
        },
        BinOp::Ne => if a != b {
            1u128
        } else {
            0u128
        },
        BinOp::Lt => if a < b {
            1u128
        } else {
            0u128
        },
        BinOp::Le => if a <= b {
            1u128
        } else {
            0u128
        },
        BinOp::Gt => if a > b {
            1u128
        } else {
            0u128
        },
        BinOp::Ge => if a >= b {
            1u128
        } else {
            0u128
        },
        BinOp::LtSigned => if as_signed(a, w) < as_signed(b, w) {
            1u128
        } else {
            0u128
        },
        BinOp::LeSigned => if as_signed(a, w) <= as_signed(b, w) {
            1u128
        } else {
            0u128
        },
        BinOp::GtSigned => if as_signed(a, w) > as_signed(b, w) {
            1u128
        } else {
            0u128
        },
        BinOp::GeSigned => if as_signed(a, w) >= as_signed(b, w) {
            1u128
        } else {
            0u128
        },
    }
}

/// The value computed by instruction `i`, as a function of the instruction
/// list, the raw input values, and the registers' current values. This is
/// the simulator's defining semantics: after [`Sim::prop`], every output and
/// every register's pending next value equal `slot_val` at their slots.
pub open spec fn slot_val(instrs: Seq<Instr>, inputs: Seq<u128>, regvals: Seq<u128>, i: int) -> u128
    decreases i,
{
    if 0 <= i < instrs.len() {
        match instrs[i] {
            Instr::Input { index, width } => if index < inputs.len() {
                ((inputs[index as int] as int % pow2w(width)) as u128)
            } else {
                0
            },
            Instr::RegValue { reg, width } => if reg < regvals.len() {
                ((regvals[reg as int] as int % pow2w(width)) as u128)
            } else {
                0
            },
            Instr::Lit { value, width } => value,
            Instr::Not { src, width } => if src < i {
                ((not_val(slot_val(instrs, inputs, regvals, src as int), width)) as u128)
            } else {
                0
            },
            Instr::Binop { op, lhs, rhs, op_width } => if lhs < i && rhs < i {
                binop_val(
                    op,
                    slot_val(instrs, inputs, regvals, lhs as int),
                    slot_val(instrs, inputs, regvals, rhs as int),
                    op_width,
                )
            } else {
                0
            },
            Instr::Bit { src, index } => if src < i && index < 128 {
                ((bits_val(slot_val(instrs, inputs, regvals, src as int), index, index)) as u128)
            } else {
                0
            },
            Instr::Bits { src, range_high, range_low } => if src < i && range_low <= range_high
                && range_high < 128 {
                ((bits_val(
                    slot_val(instrs, inputs, regvals, src as int),
                    range_high,
                    range_low,
                )) as u128)
            } else {
                0
            },
            Instr::Repeat { src, src_width, count, width } => if src < i {
                ((repeat_val(slot_val(instrs, inputs, regvals, src as int), src_width, count)) as u128)
            } else {
                0
            },
            Instr::Concat { lhs, rhs, rhs_width, width } => if lhs < i && rhs < i {
                ((concat_val(
                    slot_val(instrs, inputs, regvals, lhs as int),
                    slot_val(instrs, inputs, regvals, rhs as int),
                    rhs_width,
                )) as u128)
            } else {
                0
            },
            Instr::Mux { a, b, sel, width } => if a < i && b < i && sel < i {
                if slot_val(instrs, inputs, regvals, sel as int) != 0 {
                    slot_val(instrs, inputs, regvals, a as int)
                } else {
                    slot_val(instrs, inputs, regvals, b as int)
                }
            } else {
                0
            },
        }
    } else {
        0
    }
}

/// The first entry of a name-keyed table holding `k`.
pub open spec fn first_key_index<T>(s: Seq<(String, T)>, k: Seq<char>) -> int
    decreases s.len(),
{
    if s.len() <= 0 {
        0
    } else if s[0].0@ == k {
        0
    } else {
        1 + first_key_index(s.drop_first(), k)
    }
}

/// When a table holds `k`, its first index is in range and carries `k`; with
/// unique keys it is the only one.
pub proof fn lemma_first_key_index<T>(s: Seq<(String, T)>, k: Seq<char>)
    requires
        crate::module::has_key(s, k),
    ensures
        0 <= first_key_index(s, k) < s.len(),
        s[first_key_index(s, k)].0@ == k,
    decreases s.len(),
{
    if s.len() > 0 && s[0].0@ != k {
        let i = choose|i: int| 0 <= i < s.len() && s[i].0@ == k;
        assert(s.drop_first()[i - 1].0@ == k);
        lemma_first_key_index(s.drop_first(), k);
        assert(s[1 + first_key_index(s.drop_first(), k)] == s.drop_first()[first_key_index(
            s.drop_first(),
            k,
        )]);
    }
}

/// Whether the design uses instances at all. Designs without them elaborate
/// in a single context, and for those the compiled program's meaning is tied
/// to the graph denotation below.
pub open spec fn no_instances(c: Context) -> bool {
    c.instances@.len() == 0
}

/// The denotation of graph signal `sig`: its combinational value as a
/// function of the design, the raw input values (in root input declaration
/// order) and an environment giving each register node's current value.
/// This is the §-semantics of the data model itself, defined structurally
/// over the graph; instance outputs are out of its single-context scope.
pub open spec fn sig_den(c: Context, inputs: Seq<u128>, regs: Map<int, u128>, sig: int) -> u128
    decreases sig,
{
    if 0 <= sig < c.signals@.len() {
        let n = c.signals@[sig];
        match n.data {
            SignalData::Lit { value, bit_width } => value,
            SignalData::Input { name, bit_width } => {
                let idx = first_key_index(c.modules@[n.module as int].inputs@, name@);
                if 0 <= idx < inputs.len() {
                    (((inputs[idx] as int) % pow2w(bit_width)) as u128)
                } else {
                    0
                }
            },
            SignalData::Reg { bit_width, .. } => (((regs[sig] as int) % pow2w(bit_width)) as u128),
            SignalData::UnOp { op, source } => if source.id < sig {
                ((not_val(sig_den(c, inputs, regs, source.id as int), n.width)) as u128)
            } else {
                0
            },
            SignalData::BinOp { op, lhs, rhs } => if lhs.id < sig && rhs.id < sig {
                binop_val(
                    op,
                    sig_den(c, inputs, regs, lhs.id as int),
                    sig_den(c, inputs, regs, rhs.id as int),
                    c.signals@[lhs.id as int].width,
                )
            } else {
                0
            },
            SignalData::Bit { source, index } => if source.id < sig && index < 128 {
                ((bits_val(sig_den(c, inputs, regs, source.id as int), index, index)) as u128)
            } else {
                0
            },
            SignalData::Bits { source, range_high, range_low } => if source.id < sig && range_low
                <= range_high && range_high < 128 {
                ((bits_val(
                    sig_den(c, inputs, regs, source.id as int),
                    range_high,
                    range_low,
                )) as u128)
            } else {
                0
            },
            SignalData::Repeat { source, count } => if source.id < sig {
                ((repeat_val(
                    sig_den(c, inputs, regs, source.id as int),
                    c.signals@[source.id as int].width,
                    count,
                )) as u128)
            } else {
                0
            },
            SignalData::Concat { lhs, rhs } => if lhs.id < sig && rhs.id < sig {
                ((concat_val(
                    sig_den(c, inputs, regs, lhs.id as int),
                    sig_den(c, inputs, regs, rhs.id as int),
                    c.signals@[rhs.id as int].width,
                )) as u128)
            } else {
                0
            },
            SignalData::Mux { a, b, sel } => if a.id < sig && b.id < sig && sel.id < sig {
                if sig_den(c, inputs, regs, sel.id as int) != 0 {
                    sig_den(c, inputs, regs, a.id as int)
                } else {
                    sig_den(c, inputs, regs, b.id as int)
                }
            } else {
                0
            },
            SignalData::InstanceOutput { .. } => 0,
        }
    } else {
        0
    }
}

/// A binary operator on canonical operands gives a canonical result.
proof fn lemma_binop_val_in_width(op: BinOp, a: u128, b: u128, w: u32)
    requires
        1 <= w <= 128,
        in_width(a, w),
        in_width(b, w),
    ensures
        in_width(
            binop_val(op, a, b, w),
            if op.spec_is_comparison() {
                1u32
            } else {
                w
            },
        ),
{
    vstd::arithmetic::power2::lemma2_to64();
    crate::value::lemma_pow2w_bounds(w);
    match op {
        BinOp::BitAnd => {
            assert(a & b <= a) by (bit_vector);
        },
        BinOp::BitOr | BinOp::BitXor => {
            crate::value::lemma_or_xor_bound(a, b, w);
        },
        BinOp::Add => {
            vstd::arithmetic::power2::lemma_pow2_pos(w as nat);
            vstd::arithmetic::div_mod::lemma_mod_bound(a + b, pow2w(w));
        },
        _ => {},
    }
}

/// Every graph denotation is canonical for its node's declared width.
pub proof fn lemma_sig_den_in_width(c: Context, inputs: Seq<u128>, regs: Map<int, u128>, sig: int)
    requires
        c.wf(),
        0 <= sig < c.signals@.len(),
    ensures
        in_width(sig_den(c, inputs, regs, sig), c.signals@[sig].width),
    decreases sig,
{
    assert(c.signal_wf(sig));
    let n = c.signals@[sig];
    crate::value::lemma_pow2w_bounds(n.width);
    vstd::arithmetic::power2::lemma_pow2_pos(n.width as nat);
    match n.data {
        SignalData::Lit { value, bit_width } => {},
        SignalData::Input { name, bit_width } => {
            let idx = first_key_index(c.modules@[n.module as int].inputs@, name@);
            if 0 <= idx < inputs.len() {
                vstd::arithmetic::div_mod::lemma_mod_bound(inputs[idx] as int, pow2w(bit_width));
            }
        },
        SignalData::Reg { bit_width, .. } => {
            vstd::arithmetic::div_mod::lemma_mod_bound(regs[sig] as int, pow2w(bit_width));
        },
        SignalData::UnOp { op, source } => {
            lemma_sig_den_in_width(c, inputs, regs, source.id as int);
        },
        SignalData::BinOp { op, lhs, rhs } => {
            assert(c.signal_wf(lhs.id as int));
            lemma_sig_den_in_width(c, inputs, regs, lhs.id as int);
            lemma_sig_den_in_width(c, inputs, regs, rhs.id as int);
            lemma_binop_val_in_width(
                op,
                sig_den(c, inputs, regs, lhs.id as int),
                sig_den(c, inputs, regs, rhs.id as int),
                c.signals@[lhs.id as int].width,
            );
        },
        SignalData::Bit { source, index } => {
            assert(c.signal_wf(source.id as int));
            vstd::arithmetic::power2::lemma_pow2_pos(0);
            vstd::arithmetic::power2::lemma_pow2_pos(index as nat);
            vstd::arithmetic::div_mod::lemma_mod_bound(
                (sig_den(c, inputs, regs, source.id as int) as int) / pow2w(index),
                pow2w(1),
            );
        },
        SignalData::Bits { source, range_high, range_low } => {
            assert(c.signal_wf(source.id as int));
            vstd::arithmetic::power2::lemma_pow2_pos(range_low as nat);
            vstd::arithmetic::div_mod::lemma_mod_bound(
                (sig_den(c, inputs, regs, source.id as int) as int) / pow2w(range_low),
                pow2w((range_high - range_low + 1) as u32),
            );
        },
        SignalData::Repeat { source, count } => {
            assert(c.signal_wf(source.id as int));
            lemma_sig_den_in_width(c, inputs, regs, source.id as int);
            crate::value::lemma_repeat_val_bound(
                sig_den(c, inputs, regs, source.id as int),
                c.signals@[source.id as int].width,
                count,
            );
        },
        SignalData::Concat { lhs, rhs } => {
            assert(c.signal_wf(lhs.id as int));
            assert(c.signal_wf(rhs.id as int));
            lemma_sig_den_in_width(c, inputs, regs, lhs.id as int);
            lemma_sig_den_in_width(c, inputs, regs, rhs.id as int);
            crate::value::lemma_concat_val_bound(
                sig_den(c, inputs, regs, lhs.id as int),
                c.signals@[lhs.id as int].width,
                sig_den(c, inputs, regs, rhs.id as int),
                c.signals@[rhs.id as int].width,
            );
        },
        SignalData::Mux { a, b, sel } => {
            lemma_sig_den_in_width(c, inputs, regs, a.id as int);
            lemma_sig_den_in_width(c, inputs, regs, b.id as int);
        },
        SignalData::InstanceOutput { .. } => {},
    }
}

/// A double negation denotes the signal negated twice, at every input and
/// register valuation: the numeric half of the double-negation law, stated
/// on the design graph itself.
pub proof fn lemma_sig_den_not_not(
    c: Context,
    inputs: Seq<u128>,
    regs: Map<int, u128>,
    z: int,
    y: Signal,
    x: Signal,
)
    requires
        c.wf(),
        0 <= z < c.signals@.len(),
        c.signals@[z].data == (SignalData::UnOp { op: UnOp::Not, source: y }),
        c.signals@[y.id as int].data == (SignalData::UnOp { op: UnOp::Not, source: x }),
    ensures
        sig_den(c, inputs, regs, z) == sig_den(c, inputs, regs, x.id as int),
{
    assert(c.signal_wf(z));
    assert(c.signal_wf(y.id as int));
    let w = c.signals@[z].width;
    crate::value::lemma_pow2w_bounds(w);
    lemma_sig_den_in_width(c, inputs, regs, x.id as int);
    let vx = sig_den(c, inputs, regs, x.id as int);
    crate::value::lemma_not_not(vx, w);
    let vy = sig_den(c, inputs, regs, y.id as int);
    assert(vy == (not_val(vx, w)) as u128);
    assert(sig_den(c, inputs, regs, z) == (not_val(vy, w)) as u128);
}

/// A bitwise operator applied to one signal twice denotes that signal for
/// `and` and `or`, and zero for `xor`, at every input and register
/// valuation.
pub proof fn lemma_sig_den_bitwise_self(
    c: Context,
    inputs: Seq<u128>,
    regs: Map<int, u128>,
    z: int,
    a: Signal,
    op: BinOp,
)
    requires
        c.wf(),
        0 <= z < c.signals@.len(),
        c.signals@[z].data == (SignalData::BinOp { op, lhs: a, rhs: a }),
        op == BinOp::BitAnd || op == BinOp::BitOr || op == BinOp::BitXor,
    ensures
        op != BinOp::BitXor ==> sig_den(c, inputs, regs, z) == sig_den(c, inputs, regs, a.id as int),
        op == BinOp::BitXor ==> sig_den(c, inputs, regs, z) == 0,
{
    assert(c.signal_wf(z));
    crate::value::lemma_bitwise_self(sig_den(c, inputs, regs, a.id as int));
}

/// Selecting bits of a literal denotes the shifted, masked constant, at
/// every input and register valuation.
pub proof fn lemma_sig_den_bits_of_lit(
    c: Context,
    inputs: Seq<u128>,
    regs: Map<int, u128>,
    z: int,
    src: Signal,
    v: u128,
    w: u32,
    hi: u32,
    lo: u32,
)
    requires
        c.wf(),
        0 <= z < c.signals@.len(),
        c.signals@[z].data == (SignalData::Bits { source: src, range_high: hi, range_low: lo }),
        c.signals@[src.id as int].data == (SignalData::Lit { value: v, bit_width: w }),
        hi - lo + 1 < 128,
    ensures
        sig_den(c, inputs, regs, z) == ((v >> lo) & (((1u128 << ((hi - lo + 1) as u32))
            - 1) as u128)),
{
    assert(c.signal_wf(z));
    assert(c.signal_wf(src.id as int));
    crate::value::lemma_bits_shift_mask(v, hi, lo);
    vstd::arithmetic::power2::lemma_pow2_pos(lo as nat);
    vstd::arithmetic::power2::lemma_pow2_pos((hi - lo + 1) as nat);
    vstd::arithmetic::div_mod::lemma_mod_bound((v as int) / pow2w(lo), pow2w((hi - lo + 1) as u32));
    crate::value::lemma_pow2w_bounds((hi - lo + 1) as u32);
    assert(sig_den(c, inputs, regs, src.id as int) == v);
}

/// A concatenation round-trips through bit selection on the design itself:
/// the field above the lower operand denotes the upper operand, and the low
/// field denotes the lower operand, at every input and register valuation.
pub proof fn lemma_sig_den_concat_bits(
    c: Context,
    inputs: Seq<u128>,
    regs: Map<int, u128>,
    z_hi: int,
    z_lo: int,
    cat: Signal,
    a: Signal,
    b: Signal,
)
    requires
        c.wf(),
        0 <= z_hi < c.signals@.len(),
        0 <= z_lo < c.signals@.len(),
        c.signals@[cat.id as int].data == (SignalData::Concat { lhs: a, rhs: b }),
        c.signals@[z_hi].data == (SignalData::Bits {
            source: cat,
            range_high: (c.signals@[a.id as int].width + c.signals@[b.id as int].width
                - 1) as u32,
            range_low: c.signals@[b.id as int].width,
        }),
        c.signals@[z_lo].data == (SignalData::Bits {
            source: cat,
            range_high: (c.signals@[b.id as int].width - 1) as u32,
            range_low: 0,
        }),
    ensures
        sig_den(c, inputs, regs, z_hi) == sig_den(c, inputs, regs, a.id as int),
        sig_den(c, inputs, regs, z_lo) == sig_den(c, inputs, regs, b.id as int),
{
    assert(c.signal_wf(z_hi));
    assert(c.signal_wf(z_lo));
    assert(c.signal_wf(cat.id as int));
    assert(c.signal_wf(a.id as int));
    assert(c.signal_wf(b.id as int));
    let wa = c.signals@[a.id as int].width;
    let wb = c.signals@[b.id as int].width;
    lemma_sig_den_in_width(c, inputs, regs, a.id as int);
    lemma_sig_den_in_width(c, inputs, regs, b.id as int);
    let va = sig_den(c, inputs, regs, a.id as int);
    let vb = sig_den(c, inputs, regs, b.id as int);
    crate::value::lemma_concat_val_bound(va, wa, vb, wb);
    crate::value::lemma_pow2w_bounds((wa + wb) as u32);
    crate::value::lemma_concat_bits(va, wa, vb, wb);
    assert(sig_den(c, inputs, regs, cat.id as int) == (concat_val(va, vb, wb)) as u128);
    vstd::arithmetic::power2::lemma_pow2_pos(wb as nat);
    crate::value::lemma_pow2w_bounds(wa);
    crate::value::lemma_pow2w_bounds(wb);
}

/// `rv` lists one value per simulator register and `env` agrees with it at
/// each register's graph node.
pub open spec fn sim_env_ok(s: Sim, rv: Seq<u128>, env: Map<int, u128>) -> bool {
    &&& rv.len() == s.reg_sigs@.len()
    &&& forall|r: int| 0 <= r < s.reg_sigs@.len() ==> rv[r] == env[#[trigger] s.reg_sigs@[r]]
}

/// Instruction `slot` of the simulation computes the graph denotation of
/// signal `sig`, for every choice of inputs and register values.
pub open spec fn sim_slot_denotes(c: Context, s: Sim, slot: int, sig: int) -> bool {
    forall|inputs: Seq<u128>, rv: Seq<u128>, env: Map<int, u128>|
        #![trigger slot_val(s.instrs@, inputs, rv, slot), sig_den(c, inputs, env, sig)]
        sim_env_ok(s, rv, env) ==> slot_val(s.instrs@, inputs, rv, slot) == sig_den(
            c,
            inputs,
            env,
            sig,
        )
}

/// The compiled simulation means the design: each simulator register stands
/// for a distinct register node of the graph, with its width and initial
/// value, and computes that node's declared next source; and each output's
/// instruction computes the graph denotation of the signal bound to the
/// output. Together with [`Sim::prop`]'s contract this pins every simulated
/// output value to [`sig_den`] of the design, the inputs and the register
/// values.
pub open spec fn sim_denotes(c: Context, m: Module, s: Sim) -> bool {
    &&& s.reg_sigs@.len() == s.regs@.len()
    &&& (forall|r: int|
        0 <= r < s.regs@.len() ==> {
            let k = #[trigger] s.reg_sigs@[r];
            &&& 0 <= k < c.signals@.len()
            &&& c.signals@[k].width == s.regs@[r].width
            &&& (c.signals@[k].data matches SignalData::Reg { initial_value, next, .. }
                && initial_value == s.regs@[r].init && (next matches Some(nx) && sim_slot_denotes(
                c,
                s,
                s.regs@[r].next_slot as int,
                nx.id as int,
            )))
        })
    &&& (forall|r1: int, r2: int|
        #![trigger s.reg_sigs@[r1], s.reg_sigs@[r2]]
        0 <= r1 < r2 < s.reg_sigs@.len() ==> s.reg_sigs@[r1] != s.reg_sigs@[r2])
    &&& (forall|o: int|
        0 <= o < s.outputs@.len() ==> sim_slot_denotes(
            c,
            s,
            (#[trigger] s.outputs@[o]).1 as int,
            c.modules@[m.id as int].outputs@[o].1.source.id as int,
        ))
}

/// Transfers a compiler denotation fact to the finished simulation.
proof fn lemma_sim_slot_denotes_from_build(
    c: Context,
    s: Sim,
    bregs: Seq<BuildReg>,
    slot: int,
    sig: int,
)
    requires
        slot_denotes(c, s.instrs@, bregs, slot, sig),
        s.reg_sigs@.len() == bregs.len(),
        forall|r: int| 0 <= r < bregs.len() ==> s.reg_sigs@[r] == (#[trigger] bregs[r]).sig as int,
    ensures
        sim_slot_denotes(c, s, slot, sig),
{
    assert forall|inputs: Seq<u128>, rv: Seq<u128>, env: Map<int, u128>|
        #![trigger slot_val(s.instrs@, inputs, rv, slot), sig_den(c, inputs, env, sig)]
        sim_env_ok(s, rv, env) implies slot_val(s.instrs@, inputs, rv, slot) == sig_den(
        c,
        inputs,
        env,
        sig,
    ) by {
        assert(breg_env_ok(bregs, rv, env)) by {
            assert forall|r: int| 0 <= r < bregs.len() implies rv[r] == env[(
            #[trigger] bregs[r]).sig as int] by {
                assert(rv[r] == env[s.reg_sigs@[r]]);
            }
        }
        assert(slot_val(s.instrs@, inputs, rv, slot) == sig_den(c, inputs, env, sig));
    }
}

/// A denotation fact about one slot is untouched by running the simulator:
/// it depends only on the instruction list and the register identities.
proof fn lemma_sim_slot_denotes_stable(c: Context, s0: Sim, s1: Sim, slot: int, sig: int)
    requires
        sim_slot_denotes(c, s0, slot, sig),
        s1.instrs == s0.instrs,
        s1.reg_sigs == s0.reg_sigs,
    ensures
        sim_slot_denotes(c, s1, slot, sig),
{
    assert forall|inputs: Seq<u128>, rv: Seq<u128>, env: Map<int, u128>|
        #![trigger slot_val(s1.instrs@, inputs, rv, slot), sig_den(c, inputs, env, sig)]
        sim_env_ok(s1, rv, env) implies slot_val(s1.instrs@, inputs, rv, slot) == sig_den(
        c,
        inputs,
        env,
        sig,
    ) by {
        assert(sim_env_ok(s0, rv, env));
        assert(slot_val(s0.instrs@, inputs, rv, slot) == sig_den(c, inputs, env, sig));
    }
}

/// The correspondence between a simulation and its design survives
/// [`Sim::set_input`], [`Sim::prop`], [`Sim::posedge_clk`] and
/// [`Sim::reset`]: those change input, current and next values only, never
/// the instruction list, the outputs, or what each register stands for.
pub proof fn lemma_sim_denotes_preserved(c: Context, m: Module, s0: Sim, s1: Sim)
    requires
        sim_denotes(c, m, s0),
        s1.instrs == s0.instrs,
        s1.outputs == s0.outputs,
        s1.reg_sigs == s0.reg_sigs,
        s1.regs@.len() == s0.regs@.len(),
        forall|r: int|
            0 <= r < s0.regs@.len() ==> (#[trigger] s1.regs@[r]).width == s0.regs@[r].width
                && s1.regs@[r].init == s0.regs@[r].init && s1.regs@[r].next_slot
                == s0.regs@[r].next_slot,
    ensures
        sim_denotes(c, m, s1),
{
    assert forall|r: int|
        0 <= r < s1.regs@.len() implies {
            let k = #[trigger] s1.reg_sigs@[r];
            &&& 0 <= k < c.signals@.len()
            &&& c.signals@[k].width == s1.regs@[r].width
            &&& (c.signals@[k].data matches SignalData::Reg { initial_value, next, .. }
                && initial_value == s1.regs@[r].init && (next matches Some(nx) && sim_slot_denotes(
                c,
                s1,
                s1.regs@[r].next_slot as int,
                nx.id as int,
            )))
        } by {
        assert(s0.reg_sigs@[r] == s1.reg_sigs@[r]);
        let nx = c.signals@[s0.reg_sigs@[r]].data->Reg_next->0;
        lemma_sim_slot_denotes_stable(c, s0, s1, s0.regs@[r].next_slot as int, nx.id as int);
    }
    assert forall|o: int|
        0 <= o < s1.outputs@.len() implies sim_slot_denotes(
        c,
        s1,
        (#[trigger] s1.outputs@[o]).1 as int,
        c.modules@[m.id as int].outputs@[o].1.source.id as int,
    ) by {
        assert(s0.outputs@[o] == s1.outputs@[o]);
        lemma_sim_slot_denotes_stable(
            c,
            s0,
            s1,
            s0.outputs@[o].1 as int,
            c.modules@[m.id as int].outputs@[o].1.source.id as int,
        );
    }
}

/// Reads the correspondence off for one output: the value the latest `prop`
/// computed for it equals the graph denotation of the signal bound to that
/// output, at the simulator's current inputs and register values.
pub proof fn lemma_sim_output_den(c: Context, m: Module, s: Sim, o: int, env: Map<int, u128>)
    requires
        sim_denotes(c, m, s),
        0 <= o < s.outputs@.len(),
        sim_env_ok(s, s.reg_values(), env),
    ensures
        slot_val(s.instrs@, s.inputs@, s.reg_values(), s.outputs@[o].1 as int) == sig_den(
            c,
            s.inputs@,
            env,
            c.modules@[m.id as int].outputs@[o].1.source.id as int,
        ),
{
    assert(sim_slot_denotes(
        c,
        s,
        s.outputs@[o].1 as int,
        c.modules@[m.id as int].outputs@[o].1.source.id as int,
    ));
}

/// One register of a running simulation.
pub struct SimReg {
    /// Declared width in bits.
    pub width: u32,
    /// The reset value, if the register declared one.
    pub init: Option<u128>,
    /// The current value, always canonical for `width`.
    pub value: u128,
    /// The next value computed by the latest `prop`, latched by
    /// `posedge_clk`.
    pub next: u128,
    /// The instruction computing this register's next value.
    pub next_slot: usize,
}

/// A compiled design under simulation.
pub struct Sim {
    /// The instruction list, in dependency order.
    pub instrs: Vec<Instr>,
    /// Raw input values, set through [`Sim::set_input`].
    pub inputs: Vec<u128>,
    /// The root module's input names and widths, in declaration order.
    pub input_names: Vec<(String, u32)>,
    /// The registers of the flattened hierarchy.
    pub regs: Vec<SimReg>,
    /// The graph node behind each register, for stating which design each
    /// register simulates.
    pub reg_sigs: Ghost<Seq<int>>,
    /// The root module's outputs: name and computing instruction.
    pub outputs: Vec<(String, usize)>,
    /// The output values as of the latest `prop`.
    pub output_values: Vec<u128>,
}

impl Sim {
    /// The registers' declared widths.
    pub open spec fn reg_widths(self) -> Seq<u32> {
        self.regs@.map_values(|r: SimReg| r.width)
    }

    /// The registers' current values.
    pub open spec fn reg_values(self) -> Seq<u128> {
        self.regs@.map_values(|r: SimReg| r.value)
    }

    /// Well-formedness of a simulation: instructions are in dependency
    /// order with consistent widths, register and output values are
    /// canonical, and every register and output points at an instruction of
    /// its own width.
    pub open spec fn wf(self) -> bool {
        &&& self.inputs@.len() == self.input_names@.len()
        &&& crate::module::keys_unique(self.input_names@)
        &&& crate::module::keys_unique(self.outputs@)
        &&& forall|i: int|
            0 <= i < self.instrs@.len() ==> instr_wf(
                self.instrs@,
                self.inputs@.len() as int,
                self.reg_widths(),
                i,
            )
        &&& forall|r: int|
            0 <= r < self.regs@.len() ==> {
                let rg = #[trigger] self.regs@[r];
                &&& 1 <= rg.width <= 128
                &&& in_width(rg.value, rg.width)
                &&& in_width(rg.next, rg.width)
                &&& (rg.init matches Some(v) ==> in_width(v, rg.width))
                &&& rg.next_slot < self.instrs@.len()
                &&& instr_res_width(self.instrs@[rg.next_slot as int]) == rg.width
            }
        &&& self.output_values@.len() == self.outputs@.len()
        &&& forall|o: int|
            0 <= o < self.outputs@.len() ==> (#[trigger] self.outputs@[o]).1 < self.instrs@.len()
    }

    /// Sets the input called `name` to `value`; bits above the input's
    /// declared width are ignored by propagation. Returns whether the name
    /// exists; an unknown name changes nothing.
    pub fn set_input(&mut self, name: &str, value: u128) -> (r: bool)
        requires
            old(self).wf(),
        ensures
            final(self).wf(),
            final(self).instrs == old(self).instrs,
            final(self).input_names == old(self).input_names,
            final(self).regs == old(self).regs,
            final(self).reg_sigs == old(self).reg_sigs,
            final(self).outputs == old(self).outputs,
            final(self).output_values == old(self).output_values,
            match r {
                true => exists|i: int|
                    0 <= i < old(self).input_names@.len() && (
                    #[trigger] old(self).input_names@[i]).0@ == name@ && final(self).inputs@
                        == old(self).inputs@.update(i, value),
                false => {
                    &&& !crate::module::has_key(old(self).input_names@, name@)
                    &&& *final(self) == *old(self)
                },
            },
    {
        let key: String = name.to_owned();
        match crate::module::table_find(&self.input_names, &key) {
            Some(i) => {
                self.inputs[i] = value;
                proof {
                    assert forall|j: int| 0 <= j < self.instrs@.len() implies instr_wf(
                        self.instrs@,
                        self.inputs@.len() as int,
                        self.reg_widths(),
                        j,
                    ) by {
                        assert(instr_wf(
                            old(self).instrs@,
                            old(self).inputs@.len() as int,
                            old(self).reg_widths(),
                            j,
                        ));
                    }
                }
                true
            },
            None => false,
        }
    }

    /// The current value of the output called `name`, as of the latest
    /// `prop`; 0 for an unknown name.
    pub fn output(&self, name: &str) -> (r: u128)
        requires
            self.wf(),
        ensures
            (exists|o: int|
                0 <= o < self.outputs@.len() && (#[trigger] self.outputs@[o]).0@ == name@ && r
                    == self.output_values@[o]) || (!crate::module::has_key(self.outputs@, name@) && r
                == 0),
    {
        let key: String = name.to_owned();
        match crate::module::table_find(&self.outputs, &key) {
            Some(o) => self.output_values[o],
            None => 0,
        }
    }

    /// The output called `name` read as a boolean: true when nonzero.
    pub fn output_bool(&self, name: &str) -> (r: bool)
        requires
            self.wf(),
        ensures
            (exists|o: int|
                0 <= o < self.outputs@.len() && (#[trigger] self.outputs@[o]).0@ == name@ && r == (
                self.output_values@[o] != 0)) || (!crate::module::has_key(self.outputs@, name@) && r
                == false),
    {
        self.output(name) != 0
    }

    /// Recomputes every combinational value from the current inputs and
    /// register current values: afterwards each output and each register's
    /// pending next value equal the instruction semantics [`slot_val`] of
    /// exactly those inputs and register values. Register current values
    /// and inputs are untouched.
    pub fn prop(&mut self)
        requires
            old(self).wf(),
        ensures
            final(self).wf(),
            final(self).instrs == old(self).instrs,
            final(self).inputs == old(self).inputs,
            final(self).input_names == old(self).input_names,
            final(self).reg_sigs == old(self).reg_sigs,
            final(self).outputs == old(self).outputs,
            final(self).regs@.len() == old(self).regs@.len(),
            forall|r: int|
                0 <= r < old(self).regs@.len() ==> {
                    let rg0 = #[trigger] old(self).regs@[r];
                    let rg1 = final(self).regs@[r];
                    &&& rg1.width == rg0.width
                    &&& rg1.init == rg0.init
                    &&& rg1.value == rg0.value
                    &&& rg1.next_slot == rg0.next_slot
                    &&& rg1.next == slot_val(
                        old(self).instrs@,
                        old(self).inputs@,
                        old(self).reg_values(),
                        rg0.next_slot as int,
                    )
                },
            final(self).output_values@.len() == old(self).outputs@.len(),
            forall|o: int|
                0 <= o < old(self).outputs@.len() ==> final(self).output_values@[o] == slot_val(
                    old(self).instrs@,
                    old(self).inputs@,
                    old(self).reg_values(),
                    (#[trigger] old(self).outputs@[o]).1 as int,
                ),
    {
        let n = self.instrs.len();
        let mut slots: Vec<u128> = Vec::new();
        let mut i: usize = 0;
        while i < n
            invariant
                *self == *old(self),
                self.wf(),
                n == self.instrs@.len(),
                i == slots@.len(),
                i <= n,
                forall|j: int|
                    0 <= j < i ==> slots@[j] == slot_val(
                        self.instrs@,
                        self.inputs@,
                        self.reg_values(),
                        j,
                    ) && in_width(#[trigger] slots@[j], instr_res_width(self.instrs@[j])),
            decreases n - i,
        {
            proof {
                vstd::arithmetic::power2::lemma2_to64();
                assert(instr_wf(
                    self.instrs@,
                    self.inputs@.len() as int,
                    self.reg_widths(),
                    i as int,
                ));
            }
            let v: u128 = match self.instrs[i] {
                Instr::Input { index, width } => mask_to_width(self.inputs[index], width),
                Instr::RegValue { reg, width } => {
                    let rv = self.regs[reg].value;
                    proof {
                        assert(self.reg_values()[reg as int] == rv);
                        assert(self.reg_widths()[reg as int] == self.regs@[reg as int].width);
                        vstd::arithmetic::power2::lemma_pow2_pos(width as nat);
                        vstd::arithmetic::div_mod::lemma_small_mod(
                            rv as nat,
                            pow2w(width) as nat,
                        );
                        assert((rv as int) % pow2w(width) == rv as int);
                    }
                    rv
                },
                Instr::Lit { value, width } => value,
                Instr::Not { src, width } => not_of(slots[src], width),
                Instr::Binop { op, lhs, rhs, op_width } => binop_eval(
                    op,
                    slots[lhs],
                    slots[rhs],
                    op_width,
                ),
                Instr::Bit { src, index } => {
                    proof {
                        assert(instr_wf(
                            self.instrs@,
                            self.inputs@.len() as int,
                            self.reg_widths(),
                            src as int,
                        ));
                    }
                    bit_of(slots[src], index)
                },
                Instr::Bits { src, range_high, range_low } => {
                    proof {
                        assert(instr_wf(
                            self.instrs@,
                            self.inputs@.len() as int,
                            self.reg_widths(),
                            src as int,
                        ));
                    }
                    bits_of(slots[src], range_high, range_low)
                },
                Instr::Repeat { src, src_width, count, width } => {
                    proof {
                        assert(instr_wf(
                            self.instrs@,
                            self.inputs@.len() as int,
                            self.reg_widths(),
                            src as int,
                        ));
                    }
                    repeat_of(slots[src], src_width, count)
                },
                Instr::Concat { lhs, rhs, rhs_width, width } => {
                    proof {
                        assert(instr_wf(
                            self.instrs@,
                            self.inputs@.len() as int,
                            self.reg_widths(),
                            lhs as int,
                        ));
                        assert(instr_wf(
                            self.instrs@,
                            self.inputs@.len() as int,
                            self.reg_widths(),
                            rhs as int,
                        ));
                    }
                    concat_of(slots[lhs], width - rhs_width, slots[rhs], rhs_width)
                },
                Instr::Mux { a, b, sel, width } => {
                    if slots[sel] != 0 {
                        slots[a]
                    } else {
                        slots[b]
                    }
                },
            };
            slots.push(v);
            i = i + 1;
        }
        let n_regs = self.regs.len();
        let mut r: usize = 0;
        while r < n_regs
            invariant
                self.wf(),
                self.instrs == old(self).instrs,
                self.inputs == old(self).inputs,
                self.input_names == old(self).input_names,
                self.reg_sigs == old(self).reg_sigs,
                self.outputs == old(self).outputs,
                self.output_values == old(self).output_values,
                n_regs == self.regs@.len(),
                n_regs == old(self).regs@.len(),
                r <= n_regs,
                n == self.instrs@.len(),
                slots@.len() == n,
                self.reg_values() == old(self).reg_values(),
                forall|j: int|
                    0 <= j < n ==> #[trigger] slots@[j] == slot_val(
                        self.instrs@,
                        self.inputs@,
                        self.reg_values(),
                        j,
                    ) && in_width(slots@[j], instr_res_width(self.instrs@[j])),
                forall|k: int|
                    0 <= k < n_regs ==> {
                        let rg0 = #[trigger] old(self).regs@[k];
                        let rg1 = self.regs@[k];
                        &&& rg1.width == rg0.width
                        &&& rg1.init == rg0.init
                        &&& rg1.value == rg0.value
                        &&& rg1.next_slot == rg0.next_slot
                        &&& (k >= r ==> rg1.next == rg0.next)
                        &&& (k < r ==> rg1.next == slots@[rg0.next_slot as int])
                    },
            decreases n_regs - r,
        {
            let ghost rw_pre = self.reg_widths();
            let slot = self.regs[r].next_slot;
            self.regs[r].next = slots[slot];
            proof {
                assert(self.reg_values() =~= old(self).reg_values());
                assert(self.reg_widths() =~= rw_pre);
                lemma_instr_wf_stable(
                    self.instrs@,
                    self.inputs@.len() as int,
                    rw_pre,
                    self.reg_widths(),
                );
            }
            r = r + 1;
        }
        let n_out = self.outputs.len();
        let mut ovs: Vec<u128> = Vec::new();
        let mut o: usize = 0;
        while o < n_out
            invariant
                self.wf(),
                self.instrs == old(self).instrs,
                self.inputs == old(self).inputs,
                self.reg_sigs == old(self).reg_sigs,
                self.outputs == old(self).outputs,
                n == self.instrs@.len(),
                slots@.len() == n,
                self.reg_values() == old(self).reg_values(),
                n_out == self.outputs@.len(),
                o == ovs@.len(),
                o <= n_out,
                forall|j: int|
                    0 <= j < n ==> #[trigger] slots@[j] == slot_val(
                        self.instrs@,
                        self.inputs@,
                        self.reg_values(),
                        j,
                    ),
                forall|o2: int|
                    0 <= o2 < o ==> ovs@[o2] == slot_val(
                        self.instrs@,
                        self.inputs@,
                        self.reg_values(),
                        (#[trigger] self.outputs@[o2]).1 as int,
                    ),
            decreases n_out - o,
        {
            let slot = self.outputs[o].1;
            ovs.push(slots[slot]);
            o = o + 1;
        }
        let ghost rw_pre = self.reg_widths();
        self.output_values = ovs;
        proof {
            assert(self.reg_widths() =~= rw_pre);
            lemma_instr_wf_stable(
                self.instrs@,
                self.inputs@.len() as int,
                rw_pre,
                self.reg_widths(),
            );
        }
    }

    /// Latches every register: its current value becomes the next value the
    /// latest `prop` computed. Outputs are not recomputed, so they keep
    /// their pre-edge values until the following `prop`.
    pub fn posedge_clk(&mut self)
        requires
            old(self).wf(),
        ensures
            final(self).wf(),
            final(self).instrs == old(self).instrs,
            final(self).inputs == old(self).inputs,
            final(self).input_names == old(self).input_names,
            final(self).reg_sigs == old(self).reg_sigs,
            final(self).outputs == old(self).outputs,
            final(self).output_values == old(self).output_values,
            final(self).regs@.len() == old(self).regs@.len(),
            forall|r: int|
                0 <= r < old(self).regs@.len() ==> {
                    let rg0 = #[trigger] old(self).regs@[r];
                    let rg1 = final(self).regs@[r];
                    &&& rg1.width == rg0.width
                    &&& rg1.init == rg0.init
                    &&& rg1.next_slot == rg0.next_slot
                    &&& rg1.value == rg0.next
                    &&& rg1.next == rg0.next
                },
    {
        let n_regs = self.regs.len();
        let mut r: usize = 0;
        while r < n_regs
            invariant
                self.wf(),
                self.instrs == old(self).instrs,
                self.inputs == old(self).inputs,
                self.input_names == old(self).input_names,
                self.reg_sigs == old(self).reg_sigs,
                self.outputs == old(self).outputs,
                self.output_values == old(self).output_values,
                n_regs == self.regs@.len(),
                n_regs == old(self).regs@.len(),
                r <= n_regs,
                forall|k: int|
                    0 <= k < n_regs ==> {
                        let rg0 = #[trigger] old(self).regs@[k];
                        let rg1 = self.regs@[k];
                        &&& rg1.width == rg0.width
                        &&& rg1.init == rg0.init
                        &&& rg1.next_slot == rg0.next_slot
                        &&& rg1.next == rg0.next
                        &&& (k >= r ==> rg1.value == rg0.value)
                        &&& (k < r ==> rg1.value == rg0.next)
                    },
            decreases n_regs - r,
        {
            let ghost rw_pre = self.reg_widths();
            let nx = self.regs[r].next;
            self.regs[r].value = nx;
            proof {
                assert(self.reg_widths() =~= rw_pre);
                lemma_instr_wf_stable(
                    self.instrs@,
                    self.inputs@.len() as int,
                    rw_pre,
                    self.reg_widths(),
                );
            }
            r = r + 1;
        }
    }

    /// Resets the design: every register that declared an initial value
    /// returns to it; registers without one keep their current value.
    /// Outputs are not recomputed.
    pub fn reset(&mut self)
        requires
            old(self).wf(),
        ensures
            final(self).wf(),
            final(self).instrs == old(self).instrs,
            final(self).inputs == old(self).inputs,
            final(self).input_names == old(self).input_names,
            final(self).reg_sigs == old(self).reg_sigs,
            final(self).outputs == old(self).outputs,
            final(self).output_values == old(self).output_values,
            final(self).regs@.len() == old(self).regs@.len(),
            forall|r: int|
                0 <= r < old(self).regs@.len() ==> {
                    let rg0 = #[trigger] old(self).regs@[r];
                    let rg1 = final(self).regs@[r];
                    &&& rg1.width == rg0.width
                    &&& rg1.init == rg0.init
                    &&& rg1.next_slot == rg0.next_slot
                    &&& rg1.next == rg0.next
                    &&& rg1.value == (match rg0.init {
                        Some(v) => v,
                        None => rg0.value,
                    })
                },
    {
        let n_regs = self.regs.len();
        let mut r: usize = 0;
        while r < n_regs
            invariant
                self.wf(),
                self.instrs == old(self).instrs,
                self.inputs == old(self).inputs,
                self.input_names == old(self).input_names,
                self.reg_sigs == old(self).reg_sigs,
                self.outputs == old(self).outputs,
                self.output_values == old(self).output_values,
                n_regs == self.regs@.len(),
                n_regs == old(self).regs@.len(),
                r <= n_regs,
                forall|k: int|
                    0 <= k < n_regs ==> {
                        let rg0 = #[trigger] old(self).regs@[k];
                        let rg1 = self.regs@[k];
                        &&& rg1.width == rg0.width
                        &&& rg1.init == rg0.init
                        &&& rg1.next_slot == rg0.next_slot
                        &&& rg1.next == rg0.next
                        &&& (k >= r ==> rg1.value == rg0.value)
                        &&& (k < r ==> rg1.value == (match rg0.init {
                            Some(v) => v,
                            None => rg0.value,
                        }))
                    },
            decreases n_regs - r,
        {
            let ghost rw_pre = self.reg_widths();
            match self.regs[r].init {
                Some(v) => {
                    self.regs[r].value = v;
                },
                None => {},
            }
            proof {
                assert(self.reg_widths() =~= rw_pre);
                lemma_instr_wf_stable(
                    self.instrs@,
                    self.inputs@.len() as int,
                    rw_pre,
                    self.reg_widths(),
                );
            }
            r = r + 1;
        }
    }
}

/// The work bound for one compilation; lowering a design takes one unit per
/// node visit, so real designs stay far below it.
pub const COMPILE_FUEL: u64 = 10_000_000;

/// A register discovered during lowering, before its next-value slot is
/// known.
pub(crate) struct BuildReg {
    pub width: u32,
    pub init: Option<u128>,
    pub ctx: usize,
    pub sig: usize,
    pub next_slot: Option<usize>,
}

/// The compiler's working state: the context tree, the memo keyed by
/// (context, signal), the instructions emitted so far, and the registers
/// discovered so far.
pub(crate) struct Build {
    pub root: usize,
    pub arena: module_context::ContextArena,
    pub memo: Vec<(usize, usize, usize)>,
    pub instrs: Vec<Instr>,
    pub input_names: Vec<(String, u32)>,
    pub bregs: Vec<BuildReg>,
    pub active: Vec<(usize, usize)>,
}

/// The widths of a register list.
pub(crate) open spec fn breg_widths_of(bregs: Seq<BuildReg>) -> Seq<u32> {
    bregs.map_values(|r: BuildReg| r.width)
}

/// The discovered registers' widths.
pub(crate) open spec fn breg_widths(b: Build) -> Seq<u32> {
    breg_widths_of(b.bregs@)
}

/// `rv` lists one current value per discovered register, and `env` agrees
/// with it at each register's graph node.
pub(crate) open spec fn breg_env_ok(bregs: Seq<BuildReg>, rv: Seq<u128>, env: Map<int, u128>) -> bool {
    &&& rv.len() == bregs.len()
    &&& forall|r: int| 0 <= r < bregs.len() ==> rv[r] == env[(#[trigger] bregs[r]).sig as int]
}

/// Instruction `slot` computes the graph denotation of signal `sig`: for
/// every choice of inputs and register values, executing the instruction
/// list gives exactly [`sig_den`].
pub(crate) open spec fn slot_denotes(
    c: Context,
    instrs: Seq<Instr>,
    bregs: Seq<BuildReg>,
    slot: int,
    sig: int,
) -> bool {
    forall|inputs: Seq<u128>, rv: Seq<u128>, env: Map<int, u128>|
        #![trigger slot_val(instrs, inputs, rv, slot), sig_den(c, inputs, env, sig)]
        breg_env_ok(bregs, rv, env) ==> slot_val(instrs, inputs, rv, slot) == sig_den(
            c,
            inputs,
            env,
            sig,
        )
}

/// A well-formed instruction's value does not change when instructions are
/// appended after it.
proof fn lemma_slot_val_instrs_ext(
    i0: Seq<Instr>,
    i1: Seq<Instr>,
    n: int,
    rw: Seq<u32>,
    inputs: Seq<u128>,
    rv: Seq<u128>,
    i: int,
)
    requires
        forall|j: int| 0 <= j < i0.len() ==> instr_wf(i0, n, rw, j),
        crate::module::seq_ext(i0, i1),
        0 <= i < i0.len(),
    ensures
        slot_val(i1, inputs, rv, i) == slot_val(i0, inputs, rv, i),
    decreases i,
{
    assert(instr_wf(i0, n, rw, i));
    assert(i1[i] == i0[i]);
    match i0[i] {
        Instr::Not { src, width } => {
            lemma_slot_val_instrs_ext(i0, i1, n, rw, inputs, rv, src as int);
        },
        Instr::Binop { op, lhs, rhs, op_width } => {
            lemma_slot_val_instrs_ext(i0, i1, n, rw, inputs, rv, lhs as int);
            lemma_slot_val_instrs_ext(i0, i1, n, rw, inputs, rv, rhs as int);
        },
        Instr::Bit { src, index } => {
            lemma_slot_val_instrs_ext(i0, i1, n, rw, inputs, rv, src as int);
        },
        Instr::Bits { src, range_high, range_low } => {
            lemma_slot_val_instrs_ext(i0, i1, n, rw, inputs, rv, src as int);
        },
        Instr::Repeat { src, src_width, count, width } => {
            lemma_slot_val_instrs_ext(i0, i1, n, rw, inputs, rv, src as int);
        },
        Instr::Concat { lhs, rhs, rhs_width, width } => {
            lemma_slot_val_instrs_ext(i0, i1, n, rw, inputs, rv, lhs as int);
            lemma_slot_val_instrs_ext(i0, i1, n, rw, inputs, rv, rhs as int);
        },
        Instr::Mux { a, b, sel, width } => {
            lemma_slot_val_instrs_ext(i0, i1, n, rw, inputs, rv, a as int);
            lemma_slot_val_instrs_ext(i0, i1, n, rw, inputs, rv, b as int);
            lemma_slot_val_instrs_ext(i0, i1, n, rw, inputs, rv, sel as int);
        },
        _ => {},
    }
}

/// A well-formed instruction's value reads registers only below the
/// register-width list's length, so register values appended after that
/// bound do not change it.
proof fn lemma_slot_val_rv_agree(
    instrs: Seq<Instr>,
    n: int,
    rw: Seq<u32>,
    inputs: Seq<u128>,
    rv0: Seq<u128>,
    rv1: Seq<u128>,
    i: int,
)
    requires
        forall|j: int| 0 <= j < instrs.len() ==> instr_wf(instrs, n, rw, j),
        rv0.len() == rw.len(),
        rv1.len() >= rw.len(),
        forall|r: int| 0 <= r < rw.len() ==> rv1[r] == rv0[r],
        0 <= i < instrs.len(),
    ensures
        slot_val(instrs, inputs, rv1, i) == slot_val(instrs, inputs, rv0, i),
    decreases i,
{
    assert(instr_wf(instrs, n, rw, i));
    match instrs[i] {
        Instr::RegValue { reg, width } => {
            assert(rv1[reg as int] == rv0[reg as int]);
        },
        Instr::Not { src, width } => {
            lemma_slot_val_rv_agree(instrs, n, rw, inputs, rv0, rv1, src as int);
        },
        Instr::Binop { op, lhs, rhs, op_width } => {
            lemma_slot_val_rv_agree(instrs, n, rw, inputs, rv0, rv1, lhs as int);
            lemma_slot_val_rv_agree(instrs, n, rw, inputs, rv0, rv1, rhs as int);
        },
        Instr::Bit { src, index } => {
            lemma_slot_val_rv_agree(instrs, n, rw, inputs, rv0, rv1, src as int);
        },
        Instr::Bits { src, range_high, range_low } => {
            lemma_slot_val_rv_agree(instrs, n, rw, inputs, rv0, rv1, src as int);
        },
        Instr::Repeat { src, src_width, count, width } => {
            lemma_slot_val_rv_agree(instrs, n, rw, inputs, rv0, rv1, src as int);
        },
        Instr::Concat { lhs, rhs, rhs_width, width } => {
            lemma_slot_val_rv_agree(instrs, n, rw, inputs, rv0, rv1, lhs as int);
            lemma_slot_val_rv_agree(instrs, n, rw, inputs, rv0, rv1, rhs as int);
        },
        Instr::Mux { a, b, sel, width } => {
            lemma_slot_val_rv_agree(instrs, n, rw, inputs, rv0, rv1, a as int);
            lemma_slot_val_rv_agree(instrs, n, rw, inputs, rv0, rv1, b as int);
            lemma_slot_val_rv_agree(instrs, n, rw, inputs, rv0, rv1, sel as int);
        },
        _ => {},
    }
}

/// A denotation fact survives appending instructions and discovering more
/// registers.
proof fn lemma_slot_denotes_ext(
    c: Context,
    i0: Seq<Instr>,
    i1: Seq<Instr>,
    bregs0: Seq<BuildReg>,
    bregs1: Seq<BuildReg>,
    n: int,
    slot: int,
    sig: int,
)
    requires
        slot_denotes(c, i0, bregs0, slot, sig),
        crate::module::seq_ext(i0, i1),
        forall|j: int| 0 <= j < i0.len() ==> instr_wf(i0, n, breg_widths_of(bregs0), j),
        bregs0.len() <= bregs1.len(),
        forall|r: int| 0 <= r < bregs0.len() ==> (#[trigger] bregs1[r]).sig == bregs0[r].sig,
        0 <= slot < i0.len(),
    ensures
        slot_denotes(c, i1, bregs1, slot, sig),
{
    assert forall|inputs: Seq<u128>, rv: Seq<u128>, env: Map<int, u128>|
        #![trigger slot_val(i1, inputs, rv, slot), sig_den(c, inputs, env, sig)]
        breg_env_ok(bregs1, rv, env) implies slot_val(i1, inputs, rv, slot) == sig_den(
        c,
        inputs,
        env,
        sig,
    ) by {
        let rv0 = rv.take(bregs0.len() as int);
        assert(breg_env_ok(bregs0, rv0, env)) by {
            assert forall|r: int| 0 <= r < bregs0.len() implies rv0[r] == env[(
            #[trigger] bregs0[r]).sig as int] by {
                assert(rv[r] == env[bregs1[r].sig as int]);
            }
        }
        assert(slot_val(i0, inputs, rv0, slot) == sig_den(c, inputs, env, sig));
        lemma_slot_val_rv_agree(i0, n, breg_widths_of(bregs0), inputs, rv0, rv, slot);
        lemma_slot_val_instrs_ext(i0, i1, n, breg_widths_of(bregs0), inputs, rv, slot);
    }
}

/// A memo entry pairs a (context, signal) with an instruction of the
/// signal's width.
pub(crate) open spec fn memo_ok(b: Build, c: Context, e: int) -> bool {
    let (ctx, sig, slot) = b.memo@[e];
    &&& ctx < b.arena.nodes@.len()
    &&& sig < c.signals@.len()
    &&& c.sig_module(Signal { id: sig }) == b.arena.nodes@[ctx as int].module
    &&& slot < b.instrs@.len()
    &&& instr_res_width(b.instrs@[slot as int]) == c.sig_width(Signal { id: sig })
    &&& (no_instances(c) ==> slot_denotes(c, b.instrs@, b.bregs@, slot as int, sig as int))
}

/// A discovered register mirrors a register node of the design.
pub(crate) open spec fn breg_ok(b: Build, c: Context, r: int) -> bool {
    let rg = b.bregs@[r];
    &&& 1 <= rg.width <= 128
    &&& (rg.init matches Some(v) ==> in_width(v, rg.width))
    &&& rg.ctx < b.arena.nodes@.len()
    &&& rg.sig < c.signals@.len()
    &&& c.sig_module(Signal { id: rg.sig }) == b.arena.nodes@[rg.ctx as int].module
    &&& c.sig_width(Signal { id: rg.sig }) == rg.width
    &&& (c.signals@[rg.sig as int].data matches SignalData::Reg { initial_value, .. }
        && initial_value == rg.init)
    &&& (rg.next_slot matches Some(s) ==> s < b.instrs@.len() && instr_res_width(
        b.instrs@[s as int],
    ) == rg.width)
}

/// Well-formedness of the compiler state against the design `c`.
pub(crate) open spec fn build_wf(b: Build, c: Context) -> bool {
    &&& b.arena.wf(c)
    &&& b.root < c.modules@.len()
    &&& b.arena.nodes@[0].module == b.root
    &&& b.input_names@.len() == c.modules@[b.root as int].inputs@.len()
    &&& forall|j: int|
        0 <= j < b.input_names@.len() ==> (#[trigger] b.input_names@[j]).0@
            == c.modules@[b.root as int].inputs@[j].0@
    &&& forall|r1: int, r2: int|
        0 <= r1 < r2 < b.bregs@.len() ==> !((#[trigger] b.bregs@[r1]).ctx == (
        #[trigger] b.bregs@[r2]).ctx && b.bregs@[r1].sig == b.bregs@[r2].sig)
    &&& forall|e: int| 0 <= e < b.memo@.len() ==> #[trigger] memo_ok(b, c, e)
    &&& forall|i: int|
        0 <= i < b.instrs@.len() ==> instr_wf(
            b.instrs@,
            b.input_names@.len() as int,
            breg_widths(b),
            i,
        )
    &&& forall|r: int| 0 <= r < b.bregs@.len() ==> #[trigger] breg_ok(b, c, r)
}

/// `b1` is `b0` with nodes, memo entries, instructions and registers only
/// appended; existing registers may gain their next-value slot.
pub(crate) open spec fn build_extends(b0: Build, b1: Build) -> bool {
    &&& crate::module::seq_ext(b0.instrs@, b1.instrs@)
    &&& b1.input_names == b0.input_names
    &&& b0.arena.nodes@.len() <= b1.arena.nodes@.len()
    &&& forall|k: int|
        0 <= k < b0.arena.nodes@.len() ==> (#[trigger] b1.arena.nodes@[k]).module
            == b0.arena.nodes@[k].module && b1.arena.nodes@[k].instance_and_parent
            == b0.arena.nodes@[k].instance_and_parent
    &&& b0.bregs@.len() <= b1.bregs@.len()
    &&& forall|r: int|
        0 <= r < b0.bregs@.len() ==> {
            let r0 = #[trigger] b0.bregs@[r];
            let r1 = b1.bregs@[r];
            &&& r1.width == r0.width
            &&& r1.init == r0.init
            &&& r1.ctx == r0.ctx
            &&& r1.sig == r0.sig
            &&& r1.next_slot == r0.next_slot
        }
}

/// Instruction well-formedness carries over to extended instruction and
/// register-width lists.
proof fn lemma_instr_wf_ext(
    i0: Seq<Instr>,
    i1: Seq<Instr>,
    n: int,
    rw0: Seq<u32>,
    rw1: Seq<u32>,
)
    requires
        forall|i: int| 0 <= i < i0.len() ==> instr_wf(i0, n, rw0, i),
        crate::module::seq_ext(i0, i1),
        crate::module::seq_ext(rw0, rw1),
    ensures
        forall|i: int| 0 <= i < i0.len() ==> instr_wf(i1, n, rw1, i),
{
    assert forall|i: int| 0 <= i < i0.len() implies instr_wf(i1, n, rw1, i) by {
        assert(instr_wf(i0, n, rw0, i));
        assert(i1[i] == i0[i]);
        match i0[i] {
            Instr::RegValue { reg, width } => {
                assert(rw1[reg as int] == rw0[reg as int]);
            },
            Instr::Not { src, width } => {
                assert(i1[src as int] == i0[src as int]);
            },
            Instr::Binop { op, lhs, rhs, op_width } => {
                assert(i1[lhs as int] == i0[lhs as int]);
                assert(i1[rhs as int] == i0[rhs as int]);
            },
            Instr::Bit { src, index } => {
                assert(i1[src as int] == i0[src as int]);
            },
            Instr::Bits { src, range_high, range_low } => {
                assert(i1[src as int] == i0[src as int]);
            },
            Instr::Repeat { src, src_width, count, width } => {
                assert(i1[src as int] == i0[src as int]);
            },
            Instr::Concat { lhs, rhs, rhs_width, width } => {
                assert(i1[lhs as int] == i0[lhs as int]);
                assert(i1[rhs as int] == i0[rhs as int]);
            },
            Instr::Mux { a, b, sel, width } => {
                assert(i1[a as int] == i0[a as int]);
                assert(i1[b as int] == i0[b as int]);
                assert(i1[sel as int] == i0[sel as int]);
            },
            _ => {},
        }
    }
}

/// In a table with unique keys, two entries with one key are one entry.
proof fn lemma_key_index_unique<T>(s: Seq<(String, T)>, i: int, j: int)
    requires
        crate::module::keys_unique(s),
        0 <= i < s.len(),
        0 <= j < s.len(),
        s[i].0@ == s[j].0@,
    ensures
        i == j,
{
}

/// The memoized slot of `(ctx, sig)`, if any.
fn memo_find(memo: &Vec<(usize, usize, usize)>, ctx: usize, sig: usize) -> (r: Option<usize>)
    ensures
        match r {
            Some(slot) => exists|e: int|
                0 <= e < memo@.len() && #[trigger] memo@[e] == (ctx, sig, slot),
            None => true,
        },
{
    let n = memo.len();
    let mut e: usize = 0;
    while e < n
        invariant
            n == memo@.len(),
        decreases n - e,
    {
        if memo[e].0 == ctx && memo[e].1 == sig {
            return Some(memo[e].2);
        }
        e = e + 1;
    }
    None
}

/// Whether `(ctx, sig)` is on the active compilation path.
fn active_contains(active: &Vec<(usize, usize)>, ctx: usize, sig: usize) -> (r: bool)
{
    let n = active.len();
    let mut e: usize = 0;
    while e < n
        invariant
            n == active@.len(),
        decreases n - e,
    {
        if active[e].0 == ctx && active[e].1 == sig {
            return true;
        }
        e = e + 1;
    }
    false
}

/// The discovered register for `(ctx, sig)`, if any.
fn breg_find(bregs: &Vec<BuildReg>, ctx: usize, sig: usize) -> (r: Option<usize>)
    ensures
        match r {
            Some(idx) => idx < bregs@.len() && bregs@[idx as int].ctx == ctx
                && bregs@[idx as int].sig == sig,
            None => forall|idx: int|
                0 <= idx < bregs@.len() ==> !((#[trigger] bregs@[idx]).ctx == ctx
                    && bregs@[idx].sig == sig),
        },
{
    let n = bregs.len();
    let mut e: usize = 0;
    while e < n
        invariant
            n == bregs@.len(),
            forall|idx: int|
                0 <= idx < e ==> !((#[trigger] bregs@[idx]).ctx == ctx && bregs@[idx].sig == sig),
        decreases n - e,
    {
        if bregs[e].ctx == ctx && bregs[e].sig == sig {
            return Some(e);
        }
        e = e + 1;
    }
    None
}

/// After `prop`, the outputs are a pure function of the inputs and the
/// registers' current values: two simulations over one instruction list
/// that agree on those agree on every computed value.
pub proof fn lemma_prop_outputs_pure(
    instrs: Seq<Instr>,
    inputs1: Seq<u128>,
    regvals1: Seq<u128>,
    inputs2: Seq<u128>,
    regvals2: Seq<u128>,
    i: int,
)
    requires
        inputs1 == inputs2,
        regvals1 == regvals2,
    ensures
        slot_val(instrs, inputs1, regvals1, i) == slot_val(instrs, inputs2, regvals2, i),
{
}

/// The errors that lowering itself can raise, beyond what validation
/// already testifies to. A combinational-loop error names a module of the
/// design; the work bound carries no witness.
pub open spec fn lowering_error(c: Context, e: Error) -> bool {
    ||| (e matches Error::CombinationalLoop { module_name, .. } && exists|m: int|
        0 <= m < c.modules@.len() && (#[trigger] c.modules@[m]).name@ == module_name@)
    ||| e matches Error::CapacityExceeded
    ||| e matches Error::UndrivenInstanceInput { .. }
    ||| e matches Error::UnknownName { .. }
}

/// Complementing a value twice, at one width, computes the value back: a
/// double negation is numerically the identity at every input.
pub proof fn lemma_not_not_slot(
    instrs: Seq<Instr>,
    inputs: Seq<u128>,
    regvals: Seq<u128>,
    i: usize,
    j: usize,
    k: usize,
    w: u32,
)
    requires
        k < j < i < instrs.len(),
        instrs[i as int] == (Instr::Not { src: j, width: w }),
        instrs[j as int] == (Instr::Not { src: k, width: w }),
        1 <= w <= 128,
        in_width(slot_val(instrs, inputs, regvals, k as int), w),
    ensures
        slot_val(instrs, inputs, regvals, i as int) == slot_val(instrs, inputs, regvals, k as int),
{
    reveal_with_fuel(slot_val, 3);
    crate::value::lemma_pow2w_bounds(w);
    let vk = slot_val(instrs, inputs, regvals, k as int);
    crate::value::lemma_not_not(vk, w);
    let vj = slot_val(instrs, inputs, regvals, j as int);
    assert(vj == (not_val(vk, w)) as u128);
    assert(0 <= not_val(vk, w) < pow2w(w));
    assert(vj as int == not_val(vk, w));
    assert(slot_val(instrs, inputs, regvals, i as int) == (not_val(vj, w)) as u128);
    assert(not_val(vj, w) == vk as int);
}

/// Selecting bits of a constant computes the shifted, masked constant:
/// the field `hi` down to `lo` of a literal `v` evaluates to
/// `(v >> lo) & ((1 << (hi - lo + 1)) - 1)` at every input.
pub proof fn lemma_bits_of_lit_slot(
    instrs: Seq<Instr>,
    inputs: Seq<u128>,
    regvals: Seq<u128>,
    i: usize,
    j: usize,
    v: u128,
    w: u32,
    hi: u32,
    lo: u32,
)
    requires
        j < i < instrs.len(),
        instrs[i as int] == (Instr::Bits { src: j, range_high: hi, range_low: lo }),
        instrs[j as int] == (Instr::Lit { value: v, width: w }),
        lo <= hi < w <= 128,
        hi - lo + 1 < 128,
    ensures
        slot_val(instrs, inputs, regvals, i as int) == ((v >> lo) & (((1u128 << ((hi - lo
            + 1) as u32)) - 1) as u128)),
{
    reveal_with_fuel(slot_val, 2);
    assert(slot_val(instrs, inputs, regvals, j as int) == v);
    crate::value::lemma_bits_shift_mask(v, hi, lo);
    vstd::arithmetic::power2::lemma_pow2_pos((hi - lo + 1) as nat);
    vstd::arithmetic::power2::lemma_pow2_pos(lo as nat);
    assert(0 <= bits_val(v, hi, lo) < pow2w((hi - lo + 1) as u32)) by {
        vstd::arithmetic::div_mod::lemma_mod_bound(
            (v as int) / pow2w(lo),
            pow2w((hi - lo + 1) as u32),
        );
        vstd::arithmetic::div_mod::lemma_div_pos_is_pos(v as int, pow2w(lo));
    }
    crate::value::lemma_pow2w_bounds((hi - lo + 1) as u32);
}

/// A concatenation round-trips through bit selection: the upper field of
/// `{a, b}` evaluates back to `a` and the lower field back to `b`, at every
/// input.
pub proof fn lemma_concat_bits_slot(
    instrs: Seq<Instr>,
    inputs: Seq<u128>,
    regvals: Seq<u128>,
    i_hi: usize,
    i_lo: usize,
    j: usize,
    a: usize,
    b: usize,
    wa: u32,
    wb: u32,
)
    requires
        a < j && b < j,
        j < i_hi < instrs.len(),
        j < i_lo < instrs.len(),
        1 <= wa,
        1 <= wb,
        wa + wb <= 128,
        instrs[j as int] == (Instr::Concat {
            lhs: a,
            rhs: b,
            rhs_width: wb,
            width: (wa + wb) as u32,
        }),
        instrs[i_hi as int] == (Instr::Bits {
            src: j,
            range_high: (wa + wb - 1) as u32,
            range_low: wb,
        }),
        instrs[i_lo as int] == (Instr::Bits { src: j, range_high: (wb - 1) as u32, range_low: 0 }),
        in_width(slot_val(instrs, inputs, regvals, a as int), wa),
        in_width(slot_val(instrs, inputs, regvals, b as int), wb),
    ensures
        slot_val(instrs, inputs, regvals, i_hi as int) == slot_val(instrs, inputs, regvals, a as int),
        slot_val(instrs, inputs, regvals, i_lo as int) == slot_val(instrs, inputs, regvals, b as int),
{
    reveal_with_fuel(slot_val, 2);
    let va = slot_val(instrs, inputs, regvals, a as int);
    let vb = slot_val(instrs, inputs, regvals, b as int);
    assert(slot_val(instrs, inputs, regvals, j as int) == (concat_val(va, vb, wb)) as u128);
    crate::value::lemma_concat_bits(va, wa, vb, wb);
    crate::value::lemma_pow2w_bounds(wa);
    crate::value::lemma_pow2w_bounds(wb);
}

/// A bitwise operator applied to one operand twice: `and` and `or` return
/// the operand, `xor` returns zero, at every input.
pub proof fn lemma_bitwise_self_slot(
    instrs: Seq<Instr>,
    inputs: Seq<u128>,
    regvals: Seq<u128>,
    i: usize,
    j: usize,
    op: BinOp,
    w: u32,
)
    requires
        j < i < instrs.len(),
        instrs[i as int] == (Instr::Binop { op, lhs: j, rhs: j, op_width: w }),
        op == BinOp::BitAnd || op == BinOp::BitOr || op == BinOp::BitXor,
    ensures
        op != BinOp::BitXor ==> slot_val(instrs, inputs, regvals, i as int) == slot_val(
            instrs,
            inputs,
            regvals,
            j as int,
        ),
        op == BinOp::BitXor ==> slot_val(instrs, inputs, regvals, i as int) == 0,
{
    reveal_with_fuel(slot_val, 2);
    let vj = slot_val(instrs, inputs, regvals, j as int);
    crate::value::lemma_bitwise_self(vj);
    assert(slot_val(instrs, inputs, regvals, i as int) == binop_val(op, vj, vj, w));
}

/// Compiler-state well-formedness only depends on the memo, instructions,
/// input names, registers, and the arena being well-formed and large
/// enough.
proof fn lemma_build_wf_core(b0: Build, b1: Build, c: Context)
    requires
        build_wf(b0, c),
        b1.root == b0.root,
        b1.memo == b0.memo,
        b1.instrs == b0.instrs,
        b1.input_names == b0.input_names,
        b1.bregs == b0.bregs,
        b1.arena.wf(c),
        b1.arena.nodes@.len() >= b0.arena.nodes@.len(),
        forall|k: int|
            0 <= k < b0.arena.nodes@.len() ==> (#[trigger] b1.arena.nodes@[k]).module
                == b0.arena.nodes@[k].module,
    ensures
        build_wf(b1, c),
{
    assert forall|i: int| 0 <= i < b1.instrs@.len() implies instr_wf(
        b1.instrs@,
        b1.input_names@.len() as int,
        breg_widths(b1),
        i,
    ) by {
        assert(instr_wf(b0.instrs@, b0.input_names@.len() as int, breg_widths(b0), i));
        assert(breg_widths(b1) =~= breg_widths(b0));
    }
    assert forall|e: int| 0 <= e < b1.memo@.len() implies #[trigger] memo_ok(b1, c, e) by {
        assert(memo_ok(b0, c, e));
    }
    assert forall|r2: int| 0 <= r2 < b1.bregs@.len() implies #[trigger] breg_ok(b1, c, r2) by {
        assert(breg_ok(b0, c, r2));
    }
}

/// Appends one instruction computing `(ctx, sig)` and memoizes it.
fn emit(b: &mut Build, c: &Context, ctx: usize, sig: usize, ins: Instr) -> (slot: usize)
    requires
        c.wf(),
        build_wf(*old(b), *c),
        ctx < old(b).arena.nodes@.len(),
        sig < c.signals@.len(),
        c.sig_module(Signal { id: sig }) == old(b).arena.nodes@[ctx as int].module,
        instr_wf(
            old(b).instrs@.push(ins),
            old(b).input_names@.len() as int,
            breg_widths(*old(b)),
            old(b).instrs@.len() as int,
        ),
        instr_res_width(ins) == c.sig_width(Signal { id: sig }),
        no_instances(*c) ==> slot_denotes(
            *c,
            old(b).instrs@.push(ins),
            old(b).bregs@,
            old(b).instrs@.len() as int,
            sig as int,
        ),
    ensures
        build_wf(*final(b), *c),
        build_extends(*old(b), *final(b)),
        final(b).instrs@ == old(b).instrs@.push(ins),
        final(b).arena == old(b).arena,
        final(b).bregs == old(b).bregs,
        final(b).active == old(b).active,
        final(b).input_names == old(b).input_names,
        final(b).root == old(b).root,
        slot == old(b).instrs@.len(),
        no_instances(*c) ==> slot_denotes(
            *c,
            final(b).instrs@,
            final(b).bregs@,
            slot as int,
            sig as int,
        ),
{
    let slot = b.instrs.len();
    b.instrs.push(ins);
    b.memo.push((ctx, sig, slot));
    proof {
        lemma_instr_wf_ext(
            old(b).instrs@,
            b.instrs@,
            b.input_names@.len() as int,
            breg_widths(*old(b)),
            breg_widths(*b),
        );
        assert(instr_wf(b.instrs@, b.input_names@.len() as int, breg_widths(*b), slot as int));
        assert forall|e: int| 0 <= e < b.memo@.len() implies #[trigger] memo_ok(*b, *c, e) by {
            if e < old(b).memo@.len() {
                assert(memo_ok(*old(b), *c, e));
                assert(b.memo@[e] == old(b).memo@[e]);
                assert(b.instrs@[b.memo@[e].2 as int] == old(b).instrs@[b.memo@[e].2 as int]);
                if no_instances(*c) {
                    lemma_slot_denotes_ext(
                        *c,
                        old(b).instrs@,
                        b.instrs@,
                        old(b).bregs@,
                        b.bregs@,
                        b.input_names@.len() as int,
                        old(b).memo@[e].2 as int,
                        old(b).memo@[e].1 as int,
                    );
                }
            }
        }
        assert forall|r: int| 0 <= r < b.bregs@.len() implies #[trigger] breg_ok(*b, *c, r) by {
            assert(breg_ok(*old(b), *c, r));
            match old(b).bregs@[r].next_slot {
                Some(s) => {
                    assert(b.instrs@[s as int] == old(b).instrs@[s as int]);
                },
                None => {},
            }
        }
    }
    slot
}

/// The output that a combinational cycle runs through: the name of the
/// instance output (or, failing that, the input) nearest the point where the
/// active path was re-entered, taken from the cycle itself.
fn loop_output_name(c: &Context, b: &Build, sig: usize) -> (r: String)
    requires
        c.wf(),
        sig < c.signals@.len(),
{
    match &c.signals[sig].data {
        SignalData::InstanceOutput { name, .. } => {
            return name.clone();
        },
        SignalData::Input { name, .. } => {
            return name.clone();
        },
        _ => {},
    }
    let mut e: usize = b.active.len();
    while e > 0
        invariant
            c.wf(),
            e <= b.active@.len(),
        decreases e,
    {
        e = e - 1;
        let s2 = b.active[e].1;
        if s2 < c.signals.len() {
            match &c.signals[s2].data {
                SignalData::InstanceOutput { name, .. } => {
                    return name.clone();
                },
                _ => {},
            }
        }
    }
    String::new()
}

/// Lowers the signal `sig`, as seen in context `ctx`, to an instruction,
/// reusing the memoized instruction when the pair was compiled before.
/// Detects combinational cycles through the active path.
#[verifier::rlimit(100)]
#[verifier::spinoff_prover]
fn compile_signal(c: &Context, b: &mut Build, ctx: usize, sig: usize, fuel: u64) -> (r: Result<
    usize,
    Error,
>)
    requires
        c.wf(),
        build_wf(*old(b), *c),
        ctx < old(b).arena.nodes@.len(),
        sig < c.signals@.len(),
        c.sig_module(Signal { id: sig }) == old(b).arena.nodes@[ctx as int].module,
    ensures
        match r {
            Ok(slot) => {
                &&& build_wf(*final(b), *c)
                &&& build_extends(*old(b), *final(b))
                &&& slot < final(b).instrs@.len()
                &&& instr_res_width(final(b).instrs@[slot as int]) == c.sig_width(
                    Signal { id: sig },
                )
                &&& (no_instances(*c) ==> slot_denotes(
                    *c,
                    final(b).instrs@,
                    final(b).bregs@,
                    slot as int,
                    sig as int,
                ))
            },
            Err(e) => lowering_error(*c, e),
        },
    decreases fuel, 1int,
{
    if fuel == 0 {
        return Err(Error::CapacityExceeded);
    }
    match memo_find(&b.memo, ctx, sig) {
        Some(slot) => {
            proof {
                let e = choose|e: int|
                    0 <= e < b.memo@.len() && #[trigger] b.memo@[e] == (ctx, sig, slot);
                assert(memo_ok(*b, *c, e));
                if no_instances(*c) {
                    assert(slot_denotes(*c, b.instrs@, b.bregs@, slot as int, sig as int));
                }
            }
            return Ok(slot);
        },
        None => {},
    }
    proof {
        assert(c.signal_wf(sig as int));
    }
    if active_contains(&b.active, ctx, sig) {
        let module_name = c.modules[c.signals[sig].module].name.clone();
        let output_name = loop_output_name(c, b, sig);
        return Err(Error::CombinationalLoop { module_name, output_name });
    }
    b.active.push((ctx, sig));
    proof {
        lemma_build_wf_core(*old(b), *b, *c);
    }
    let ghost b0 = *b;
    let width = c.signals[sig].width;
    let result: Result<usize, Error> = match &c.signals[sig].data {
        SignalData::Lit { value, bit_width } => {
            let ins = Instr::Lit { value: *value, width: *bit_width };
            proof {
                if no_instances(*c) {
                    let i1 = b.instrs@.push(ins);
                    let slotg = b.instrs@.len() as int;
                    assert forall|inputs: Seq<u128>, rv: Seq<u128>, env: Map<int, u128>|
                        #![trigger slot_val(i1, inputs, rv, slotg), sig_den(*c, inputs, env, sig as int)]
                        breg_env_ok(b.bregs@, rv, env) implies slot_val(i1, inputs, rv, slotg)
                        == sig_den(*c, inputs, env, sig as int) by {
                        assert(i1[slotg] == ins);
                    }
                }
            }
            Ok(emit(b, c, ctx, sig, ins))
        },
        SignalData::Input { .. } => compile_input(c, b, ctx, sig, fuel),
        SignalData::Reg { initial_value, bit_width, .. } => {
            let reg_idx: usize = match breg_find(&b.bregs, ctx, sig) {
                Some(idx) => idx,
                None => {
                    let idx = b.bregs.len();
                    b.bregs.push(
                        BuildReg {
                            width: *bit_width,
                            init: *initial_value,
                            ctx,
                            sig,
                            next_slot: None,
                        },
                    );
                    proof {
                        lemma_instr_wf_ext(
                            b.instrs@,
                            b.instrs@,
                            b.input_names@.len() as int,
                            breg_widths(b0),
                            breg_widths(*b),
                        );
                        assert forall|r2: int| 0 <= r2 < b.bregs@.len() implies #[trigger] breg_ok(
                            *b,
                            *c,
                            r2,
                        ) by {
                            if r2 < b0.bregs@.len() {
                                assert(breg_ok(b0, *c, r2));
                            }
                        }
                        assert forall|e: int| 0 <= e < b.memo@.len() implies #[trigger] memo_ok(
                            *b,
                            *c,
                            e,
                        ) by {
                            assert(memo_ok(b0, *c, e));
                            if no_instances(*c) {
                                lemma_slot_denotes_ext(
                                    *c,
                                    b0.instrs@,
                                    b.instrs@,
                                    b0.bregs@,
                                    b.bregs@,
                                    b.input_names@.len() as int,
                                    b0.memo@[e].2 as int,
                                    b0.memo@[e].1 as int,
                                );
                            }
                        }
                        assert forall|r1: int, r2: int|
                            0 <= r1 < r2 < b.bregs@.len() implies !((#[trigger] b.bregs@[r1]).ctx
                            == (#[trigger] b.bregs@[r2]).ctx && b.bregs@[r1].sig
                            == b.bregs@[r2].sig) by {
                            if r2 < b0.bregs@.len() {
                                assert(b.bregs@[r1] == b0.bregs@[r1]);
                                assert(b.bregs@[r2] == b0.bregs@[r2]);
                            } else {
                                assert(b.bregs@[r1] == b0.bregs@[r1]);
                                assert(!(b0.bregs@[r1].ctx == ctx && b0.bregs@[r1].sig == sig));
                            }
                        }
                    }
                    idx
                },
            };
            proof {
                assert(breg_ok(*b, *c, reg_idx as int));
            }
            let rw = b.bregs[reg_idx].width;
            proof {
                assert(breg_widths(*b)[reg_idx as int] == b.bregs@[reg_idx as int].width);
                assert(rw == width);
            }
            let ins = Instr::RegValue { reg: reg_idx, width: rw };
            proof {
                if no_instances(*c) {
                    let i1 = b.instrs@.push(ins);
                    let slotg = b.instrs@.len() as int;
                    assert forall|inputs: Seq<u128>, rv: Seq<u128>, env: Map<int, u128>|
                        #![trigger slot_val(i1, inputs, rv, slotg), sig_den(*c, inputs, env, sig as int)]
                        breg_env_ok(b.bregs@, rv, env) implies slot_val(i1, inputs, rv, slotg)
                        == sig_den(*c, inputs, env, sig as int) by {
                        assert(i1[slotg] == ins);
                        assert(rv[reg_idx as int] == env[(b.bregs@[reg_idx as int]).sig as int]);
                        assert(b.bregs@[reg_idx as int].sig == sig);
                    }
                }
            }
            Ok(emit(b, c, ctx, sig, ins))
        },
        SignalData::UnOp { op, source } => {
            let src_id = source.id;
            match compile_signal(c, b, ctx, src_id, fuel - 1) {
                Ok(s) => {
                    let ins = Instr::Not { src: s, width };
                    proof {
                        if no_instances(*c) {
                            let i1 = b.instrs@.push(ins);
                            let slotg = b.instrs@.len() as int;
                            assert forall|inputs: Seq<u128>, rv: Seq<u128>, env: Map<int, u128>|
                                #![trigger slot_val(i1, inputs, rv, slotg), sig_den(*c, inputs, env, sig as int)]
                                breg_env_ok(b.bregs@, rv, env) implies slot_val(i1, inputs, rv, slotg)
                                == sig_den(*c, inputs, env, sig as int) by {
                                assert(i1[slotg] == ins);
                                lemma_slot_val_instrs_ext(
                                    b.instrs@,
                                    i1,
                                    b.input_names@.len() as int,
                                    breg_widths(*b),
                                    inputs,
                                    rv,
                                    s as int,
                                );
                                assert(slot_val(b.instrs@, inputs, rv, s as int) == sig_den(
                                    *c,
                                    inputs,
                                    env,
                                    src_id as int,
                                ));
                            }
                        }
                    }
                    Ok(emit(b, c, ctx, sig, ins))
                },
                Err(e) => Err(e),
            }
        },
        SignalData::BinOp { .. } => compile_binop(c, b, ctx, sig, fuel),
        SignalData::Bit { source, index } => {
            let src_id = source.id;
            let idx = *index;
            match compile_signal(c, b, ctx, src_id, fuel - 1) {
                Ok(s) => {
                    let ins = Instr::Bit { src: s, index: idx };
                    proof {
                        assert(c.signal_wf(src_id as int));
                        if no_instances(*c) {
                            let i1 = b.instrs@.push(ins);
                            let slotg = b.instrs@.len() as int;
                            assert forall|inputs: Seq<u128>, rv: Seq<u128>, env: Map<int, u128>|
                                #![trigger slot_val(i1, inputs, rv, slotg), sig_den(*c, inputs, env, sig as int)]
                                breg_env_ok(b.bregs@, rv, env) implies slot_val(i1, inputs, rv, slotg)
                                == sig_den(*c, inputs, env, sig as int) by {
                                assert(i1[slotg] == ins);
                                lemma_slot_val_instrs_ext(
                                    b.instrs@,
                                    i1,
                                    b.input_names@.len() as int,
                                    breg_widths(*b),
                                    inputs,
                                    rv,
                                    s as int,
                                );
                                assert(slot_val(b.instrs@, inputs, rv, s as int) == sig_den(
                                    *c,
                                    inputs,
                                    env,
                                    src_id as int,
                                ));
                            }
                        }
                    }
                    Ok(emit(b, c, ctx, sig, ins))
                },
                Err(e) => Err(e),
            }
        },
        SignalData::Bits { source, range_high, range_low } => {
            let src_id = source.id;
            let hi = *range_high;
            let lo = *range_low;
            match compile_signal(c, b, ctx, src_id, fuel - 1) {
                Ok(s) => {
                    let ins = Instr::Bits { src: s, range_high: hi, range_low: lo };
                    proof {
                        assert(c.signal_wf(src_id as int));
                        if no_instances(*c) {
                            let i1 = b.instrs@.push(ins);
                            let slotg = b.instrs@.len() as int;
                            assert forall|inputs: Seq<u128>, rv: Seq<u128>, env: Map<int, u128>|
                                #![trigger slot_val(i1, inputs, rv, slotg), sig_den(*c, inputs, env, sig as int)]
                                breg_env_ok(b.bregs@, rv, env) implies slot_val(i1, inputs, rv, slotg)
                                == sig_den(*c, inputs, env, sig as int) by {
                                assert(i1[slotg] == ins);
                                lemma_slot_val_instrs_ext(
                                    b.instrs@,
                                    i1,
                                    b.input_names@.len() as int,
                                    breg_widths(*b),
                                    inputs,
                                    rv,
                                    s as int,
                                );
                                assert(slot_val(b.instrs@, inputs, rv, s as int) == sig_den(
                                    *c,
                                    inputs,
                                    env,
                                    src_id as int,
                                ));
                            }
                        }
                    }
                    Ok(emit(b, c, ctx, sig, ins))
                },
                Err(e) => Err(e),
            }
        },
        SignalData::Repeat { source, count } => {
            let src_id = source.id;
            let cnt = *count;
            match compile_signal(c, b, ctx, src_id, fuel - 1) {
                Ok(s) => {
                    let sw = c.signals[src_id].width;
                    proof {
                        assert(width == c.sig_width(Signal { id: src_id as usize }) * cnt);
                        assert(cnt >= 1) by (nonlinear_arith)
                            requires
                                width == sw * cnt,
                                width >= 1,
                        ;
                    }
                    let ins = Instr::Repeat { src: s, src_width: sw, count: cnt, width };
                    proof {
                        if no_instances(*c) {
                            let i1 = b.instrs@.push(ins);
                            let slotg = b.instrs@.len() as int;
                            assert forall|inputs: Seq<u128>, rv: Seq<u128>, env: Map<int, u128>|
                                #![trigger slot_val(i1, inputs, rv, slotg), sig_den(*c, inputs, env, sig as int)]
                                breg_env_ok(b.bregs@, rv, env) implies slot_val(i1, inputs, rv, slotg)
                                == sig_den(*c, inputs, env, sig as int) by {
                                assert(i1[slotg] == ins);
                                lemma_slot_val_instrs_ext(
                                    b.instrs@,
                                    i1,
                                    b.input_names@.len() as int,
                                    breg_widths(*b),
                                    inputs,
                                    rv,
                                    s as int,
                                );
                                assert(slot_val(b.instrs@, inputs, rv, s as int) == sig_den(
                                    *c,
                                    inputs,
                                    env,
                                    src_id as int,
                                ));
                            }
                        }
                    }
                    Ok(emit(b, c, ctx, sig, ins))
                },
                Err(e) => Err(e),
            }
        },
        SignalData::Concat { .. } => compile_concat(c, b, ctx, sig, fuel),
        SignalData::Mux { .. } => compile_mux(c, b, ctx, sig, fuel),
        SignalData::InstanceOutput { .. } => compile_instance_output(c, b, ctx, sig, fuel),
    };
    match result {
        Ok(slot) => {
            let ghost b2 = *b;
            let _popped = b.active.pop();
            proof {
                lemma_build_wf_core(b2, *b, *c);
            }
            Ok(slot)
        },
        Err(e) => Err(e),
    }
}

/// Lowers an input node: at the root it reads the simulator input of that
/// name; inside an instance it forwards to the signal that drives the input
/// in the parent context.
#[verifier::rlimit(100)]
#[verifier::spinoff_prover]
fn compile_input(c: &Context, b: &mut Build, ctx: usize, sig: usize, fuel: u64) -> (r: Result<
    usize,
    Error,
>)
    requires
        c.wf(),
        build_wf(*old(b), *c),
        ctx < old(b).arena.nodes@.len(),
        sig < c.signals@.len(),
        c.sig_module(Signal { id: sig }) == old(b).arena.nodes@[ctx as int].module,
        c.signals@[sig as int].data matches SignalData::Input { .. },
        fuel >= 1,
    ensures
        match r {
            Ok(slot) => {
                &&& build_wf(*final(b), *c)
                &&& build_extends(*old(b), *final(b))
                &&& slot < final(b).instrs@.len()
                &&& instr_res_width(final(b).instrs@[slot as int]) == c.sig_width(
                    Signal { id: sig },
                )
                &&& (no_instances(*c) ==> slot_denotes(
                    *c,
                    final(b).instrs@,
                    final(b).bregs@,
                    slot as int,
                    sig as int,
                ))
            },
            Err(e) => lowering_error(*c, e),
        },
    decreases fuel, 0int,
{
    proof {
        assert(c.signal_wf(sig as int));
    }
    let (name, bit_width): (&String, u32) = match &c.signals[sig].data {
        SignalData::Input { name, bit_width } => (name, *bit_width),
        _ => {
            proof {
                assert(false);
            }
            return Err(Error::CapacityExceeded);
        },
    };
    let iap = b.arena.nodes[ctx].instance_and_parent;
    match iap {
        None => {
            match crate::module::table_find(&b.input_names, name) {
                Some(idx) => {
                    let ins = Instr::Input { index: idx, width: bit_width };
                    proof {
                        if no_instances(*c) {
                            let md = c.signals@[sig as int].module as int;
                            assert(md == b.root as int);
                            let table = c.modules@[md].inputs@;
                            assert(c.module_wf(md));
                            let jw = choose|j: int|
                                0 <= j < table.len() && table[j].0@
                                    == c.signals@[sig as int].data->Input_name@ && table[j].1 == (
                                Signal { id: sig });
                            assert(crate::module::has_key(table, name@));
                            lemma_first_key_index(table, name@);
                            assert(b.input_names@[idx as int].0@ == name@);
                            assert(table[idx as int].0@ == name@);
                            lemma_key_index_unique(
                                table,
                                idx as int,
                                first_key_index(table, name@),
                            );
                            let i1 = b.instrs@.push(ins);
                            let slotg = b.instrs@.len() as int;
                            assert forall|inputs: Seq<u128>, rv: Seq<u128>, env: Map<int, u128>|
                                #![trigger slot_val(i1, inputs, rv, slotg), sig_den(*c, inputs, env, sig as int)]
                                breg_env_ok(b.bregs@, rv, env) implies slot_val(i1, inputs, rv, slotg)
                                == sig_den(*c, inputs, env, sig as int) by {
                                assert(i1[slotg] == ins);
                            }
                        }
                    }
                    Ok(emit(b, c, ctx, sig, ins))
                },
                None => Err(Error::UnknownName { name: name.clone() }),
            }
        },
        Some((inst, parent)) => {
            match crate::module::table_find(&c.instances[inst].driven_inputs, name) {
                Some(l) => {
                    proof {
                        assert(c.instance_wf(inst as int));
                        assert(c.driven_input_ok(inst as int, l as int));
                    }
                    let driven = c.instances[inst].driven_inputs[l].1;
                    match compile_signal(c, b, parent, driven.id, fuel - 1) {
                        Ok(slot) => {
                            proof {
                                let ins0 = c.instances@[inst as int];
                                let lw = choose|lw: int|
                                    0 <= lw < c.modules@[ins0.instantiated as int].inputs@.len()
                                        && (
                                    #[trigger] c.modules@[ins0.instantiated as int].inputs@[lw]).0@
                                        == ins0.driven_inputs@[l as int].0@ && c.sig_ok(
                                        c.modules@[ins0.instantiated as int].inputs@[lw].1,
                                    ) && c.sig_width(
                                        c.modules@[ins0.instantiated as int].inputs@[lw].1,
                                    ) == c.sig_width(driven);
                                let jw = choose|jw: int|
                                    0 <= jw
                                        < c.modules@[c.signals@[sig as int].module as int].inputs@.len()
                                        && c.modules@[c.signals@[sig as int].module as int].inputs@[jw].0@
                                        == c.signals@[sig as int].data->Input_name@
                                        && c.modules@[c.signals@[sig as int].module as int].inputs@[jw].1
                                        == (Signal { id: sig });
                                assert(c.module_wf(ins0.instantiated as int));
                                lemma_key_index_unique(
                                    c.modules@[ins0.instantiated as int].inputs@,
                                    lw,
                                    jw,
                                );
                                if no_instances(*c) {
                                    assert(false);
                                }
                            }
                            Ok(slot)
                        },
                        Err(e) => Err(e),
                    }
                },
                None => {
                    let module_name = c.modules[c.instances[inst].parent].name.clone();
                    let instance_name = c.instances[inst].name.clone();
                    Err(
                        Error::UndrivenInstanceInput {
                            module_name,
                            instance_name,
                            input_name: name.clone(),
                        },
                    )
                },
            }
        },
    }
}

/// Lowers a binary-operator node: both operands in this context, then the
/// operator over their slots.
#[verifier::rlimit(100)]
#[verifier::spinoff_prover]
fn compile_binop(c: &Context, b: &mut Build, ctx: usize, sig: usize, fuel: u64) -> (r: Result<
    usize,
    Error,
>)
    requires
        c.wf(),
        build_wf(*old(b), *c),
        ctx < old(b).arena.nodes@.len(),
        sig < c.signals@.len(),
        c.sig_module(Signal { id: sig }) == old(b).arena.nodes@[ctx as int].module,
        c.signals@[sig as int].data matches SignalData::BinOp { .. },
        fuel >= 1,
    ensures
        match r {
            Ok(slot) => {
                &&& build_wf(*final(b), *c)
                &&& build_extends(*old(b), *final(b))
                &&& slot < final(b).instrs@.len()
                &&& instr_res_width(final(b).instrs@[slot as int]) == c.sig_width(
                    Signal { id: sig },
                )
                &&& (no_instances(*c) ==> slot_denotes(
                    *c,
                    final(b).instrs@,
                    final(b).bregs@,
                    slot as int,
                    sig as int,
                ))
            },
            Err(e) => lowering_error(*c, e),
        },
    decreases fuel, 0int,
{
    proof {
        assert(c.signal_wf(sig as int));
    }
    let (opc, lhs_id, rhs_id): (BinOp, usize, usize) = match &c.signals[sig].data {
        SignalData::BinOp { op, lhs, rhs } => (*op, lhs.id, rhs.id),
        _ => {
            proof {
                assert(false);
            }
            return Err(Error::CapacityExceeded);
        },
    };
    match compile_signal(c, b, ctx, lhs_id, fuel - 1) {
        Ok(sl) => {
            let ghost b_mid = *b;
            match compile_signal(c, b, ctx, rhs_id, fuel - 1) {
                Ok(sr) => {
                    proof {
                        assert(b.instrs@[sl as int] == b_mid.instrs@[sl as int]);
                        assert(c.signal_wf(lhs_id as int));
                    }
                    let op_width = c.signals[lhs_id].width;
                    let ins = Instr::Binop { op: opc, lhs: sl, rhs: sr, op_width };
                    proof {
                        if no_instances(*c) {
                            assert forall|j2: int|
                                0 <= j2 < b_mid.instrs@.len() implies instr_wf(
                                b_mid.instrs@,
                                b.input_names@.len() as int,
                                breg_widths_of(b_mid.bregs@),
                                j2,
                            ) by {
                                assert(instr_wf(
                                    b_mid.instrs@,
                                    b_mid.input_names@.len() as int,
                                    breg_widths(b_mid),
                                    j2,
                                ));
                            }
                            lemma_slot_denotes_ext(
                                *c,
                                b_mid.instrs@,
                                b.instrs@,
                                b_mid.bregs@,
                                b.bregs@,
                                b.input_names@.len() as int,
                                sl as int,
                                lhs_id as int,
                            );
                            let i1 = b.instrs@.push(ins);
                            let slotg = b.instrs@.len() as int;
                            assert forall|inputs: Seq<u128>, rv: Seq<u128>, env: Map<int, u128>|
                                #![trigger slot_val(i1, inputs, rv, slotg), sig_den(*c, inputs, env, sig as int)]
                                breg_env_ok(b.bregs@, rv, env) implies slot_val(i1, inputs, rv, slotg)
                                == sig_den(*c, inputs, env, sig as int) by {
                                assert(i1[slotg] == ins);
                                lemma_slot_val_instrs_ext(
                                    b.instrs@,
                                    i1,
                                    b.input_names@.len() as int,
                                    breg_widths(*b),
                                    inputs,
                                    rv,
                                    sl as int,
                                );
                                lemma_slot_val_instrs_ext(
                                    b.instrs@,
                                    i1,
                                    b.input_names@.len() as int,
                                    breg_widths(*b),
                                    inputs,
                                    rv,
                                    sr as int,
                                );
                                assert(slot_val(b.instrs@, inputs, rv, sl as int) == sig_den(
                                    *c,
                                    inputs,
                                    env,
                                    lhs_id as int,
                                ));
                                assert(slot_val(b.instrs@, inputs, rv, sr as int) == sig_den(
                                    *c,
                                    inputs,
                                    env,
                                    rhs_id as int,
                                ));
                            }
                        }
                    }
                    Ok(emit(b, c, ctx, sig, ins))
                },
                Err(e) => Err(e),
            }
        },
        Err(e) => Err(e),
    }
}

/// Lowers a concatenation node.
#[verifier::rlimit(100)]
#[verifier::spinoff_prover]
fn compile_concat(c: &Context, b: &mut Build, ctx: usize, sig: usize, fuel: u64) -> (r: Result<
    usize,
    Error,
>)
    requires
        c.wf(),
        build_wf(*old(b), *c),
        ctx < old(b).arena.nodes@.len(),
        sig < c.signals@.len(),
        c.sig_module(Signal { id: sig }) == old(b).arena.nodes@[ctx as int].module,
        c.signals@[sig as int].data matches SignalData::Concat { .. },
        fuel >= 1,
    ensures
        match r {
            Ok(slot) => {
                &&& build_wf(*final(b), *c)
                &&& build_extends(*old(b), *final(b))
                &&& slot < final(b).instrs@.len()
                &&& instr_res_width(final(b).instrs@[slot as int]) == c.sig_width(
                    Signal { id: sig },
                )
                &&& (no_instances(*c) ==> slot_denotes(
                    *c,
                    final(b).instrs@,
                    final(b).bregs@,
                    slot as int,
                    sig as int,
                ))
            },
            Err(e) => lowering_error(*c, e),
        },
    decreases fuel, 0int,
{
    proof {
        assert(c.signal_wf(sig as int));
    }
    let width = c.signals[sig].width;
    let (lhs_id, rhs_id): (usize, usize) = match &c.signals[sig].data {
        SignalData::Concat { lhs, rhs } => (lhs.id, rhs.id),
        _ => {
            proof {
                assert(false);
            }
            return Err(Error::CapacityExceeded);
        },
    };
    match compile_signal(c, b, ctx, lhs_id, fuel - 1) {
        Ok(sl) => {
            let ghost b_mid = *b;
            match compile_signal(c, b, ctx, rhs_id, fuel - 1) {
                Ok(sr) => {
                    proof {
                        assert(b.instrs@[sl as int] == b_mid.instrs@[sl as int]);
                        assert(c.signal_wf(rhs_id as int));
                    }
                    let rhs_width = c.signals[rhs_id].width;
                    let ins = Instr::Concat { lhs: sl, rhs: sr, rhs_width, width };
                    proof {
                        if no_instances(*c) {
                            assert forall|j2: int|
                                0 <= j2 < b_mid.instrs@.len() implies instr_wf(
                                b_mid.instrs@,
                                b.input_names@.len() as int,
                                breg_widths_of(b_mid.bregs@),
                                j2,
                            ) by {
                                assert(instr_wf(
                                    b_mid.instrs@,
                                    b_mid.input_names@.len() as int,
                                    breg_widths(b_mid),
                                    j2,
                                ));
                            }
                            lemma_slot_denotes_ext(
                                *c,
                                b_mid.instrs@,
                                b.instrs@,
                                b_mid.bregs@,
                                b.bregs@,
                                b.input_names@.len() as int,
                                sl as int,
                                lhs_id as int,
                            );
                            let i1 = b.instrs@.push(ins);
                            let slotg = b.instrs@.len() as int;
                            assert forall|inputs: Seq<u128>, rv: Seq<u128>, env: Map<int, u128>|
                                #![trigger slot_val(i1, inputs, rv, slotg), sig_den(*c, inputs, env, sig as int)]
                                breg_env_ok(b.bregs@, rv, env) implies slot_val(i1, inputs, rv, slotg)
                                == sig_den(*c, inputs, env, sig as int) by {
                                assert(i1[slotg] == ins);
                                lemma_slot_val_instrs_ext(
                                    b.instrs@,
                                    i1,
                                    b.input_names@.len() as int,
                                    breg_widths(*b),
                                    inputs,
                                    rv,
                                    sl as int,
                                );
                                lemma_slot_val_instrs_ext(
                                    b.instrs@,
                                    i1,
                                    b.input_names@.len() as int,
                                    breg_widths(*b),
                                    inputs,
                                    rv,
                                    sr as int,
                                );
                                assert(slot_val(b.instrs@, inputs, rv, sl as int) == sig_den(
                                    *c,
                                    inputs,
                                    env,
                                    lhs_id as int,
                                ));
                                assert(slot_val(b.instrs@, inputs, rv, sr as int) == sig_den(
                                    *c,
                                    inputs,
                                    env,
                                    rhs_id as int,
                                ));
                            }
                        }
                    }
                    Ok(emit(b, c, ctx, sig, ins))
                },
                Err(e) => Err(e),
            }
        },
        Err(e) => Err(e),
    }
}

/// Lowers a multiplexer node.
#[verifier::rlimit(100)]
#[verifier::spinoff_prover]
fn compile_mux(c: &Context, b: &mut Build, ctx: usize, sig: usize, fuel: u64) -> (r: Result<
    usize,
    Error,
>)
    requires
        c.wf(),
        build_wf(*old(b), *c),
        ctx < old(b).arena.nodes@.len(),
        sig < c.signals@.len(),
        c.sig_module(Signal { id: sig }) == old(b).arena.nodes@[ctx as int].module,
        c.signals@[sig as int].data matches SignalData::Mux { .. },
        fuel >= 1,
    ensures
        match r {
            Ok(slot) => {
                &&& build_wf(*final(b), *c)
                &&& build_extends(*old(b), *final(b))
                &&& slot < final(b).instrs@.len()
                &&& instr_res_width(final(b).instrs@[slot as int]) == c.sig_width(
                    Signal { id: sig },
                )
                &&& (no_instances(*c) ==> slot_denotes(
                    *c,
                    final(b).instrs@,
                    final(b).bregs@,
                    slot as int,
                    sig as int,
                ))
            },
            Err(e) => lowering_error(*c, e),
        },
    decreases fuel, 0int,
{
    proof {
        assert(c.signal_wf(sig as int));
    }
    let width = c.signals[sig].width;
    let (a_id, b_id, sel_id): (usize, usize, usize) = match &c.signals[sig].data {
        SignalData::Mux { a, b: bs, sel } => (a.id, bs.id, sel.id),
        _ => {
            proof {
                assert(false);
            }
            return Err(Error::CapacityExceeded);
        },
    };
    match compile_signal(c, b, ctx, a_id, fuel - 1) {
        Ok(sa) => {
            let ghost b_mid1 = *b;
            match compile_signal(c, b, ctx, b_id, fuel - 1) {
                Ok(sb) => {
                    let ghost b_mid2 = *b;
                    match compile_signal(c, b, ctx, sel_id, fuel - 1) {
                        Ok(ss) => {
                            proof {
                                assert(b_mid2.instrs@[sa as int] == b_mid1.instrs@[sa as int]);
                                assert(b.instrs@[sa as int] == b_mid2.instrs@[sa as int]);
                                assert(b.instrs@[sb as int] == b_mid2.instrs@[sb as int]);
                            }
                            let ins = Instr::Mux { a: sa, b: sb, sel: ss, width };
                            proof {
                                if no_instances(*c) {
                                    assert forall|j2: int|
                                        0 <= j2 < b_mid1.instrs@.len() implies instr_wf(
                                        b_mid1.instrs@,
                                        b.input_names@.len() as int,
                                        breg_widths_of(b_mid1.bregs@),
                                        j2,
                                    ) by {
                                        assert(instr_wf(
                                            b_mid1.instrs@,
                                            b_mid1.input_names@.len() as int,
                                            breg_widths(b_mid1),
                                            j2,
                                        ));
                                    }
                                    assert forall|j2: int|
                                        0 <= j2 < b_mid2.instrs@.len() implies instr_wf(
                                        b_mid2.instrs@,
                                        b.input_names@.len() as int,
                                        breg_widths_of(b_mid2.bregs@),
                                        j2,
                                    ) by {
                                        assert(instr_wf(
                                            b_mid2.instrs@,
                                            b_mid2.input_names@.len() as int,
                                            breg_widths(b_mid2),
                                            j2,
                                        ));
                                    }
                                    lemma_slot_denotes_ext(
                                        *c,
                                        b_mid1.instrs@,
                                        b_mid2.instrs@,
                                        b_mid1.bregs@,
                                        b_mid2.bregs@,
                                        b.input_names@.len() as int,
                                        sa as int,
                                        a_id as int,
                                    );
                                    lemma_slot_denotes_ext(
                                        *c,
                                        b_mid2.instrs@,
                                        b.instrs@,
                                        b_mid2.bregs@,
                                        b.bregs@,
                                        b.input_names@.len() as int,
                                        sa as int,
                                        a_id as int,
                                    );
                                    lemma_slot_denotes_ext(
                                        *c,
                                        b_mid2.instrs@,
                                        b.instrs@,
                                        b_mid2.bregs@,
                                        b.bregs@,
                                        b.input_names@.len() as int,
                                        sb as int,
                                        b_id as int,
                                    );
                                    let i1 = b.instrs@.push(ins);
                                    let slotg = b.instrs@.len() as int;
                                    assert forall|
                                        inputs: Seq<u128>,
                                        rv: Seq<u128>,
                                        env: Map<int, u128>,
                                    |
                                        #![trigger slot_val(i1, inputs, rv, slotg), sig_den(*c, inputs, env, sig as int)]
                                        breg_env_ok(b.bregs@, rv, env) implies slot_val(
                                        i1,
                                        inputs,
                                        rv,
                                        slotg,
                                    ) == sig_den(*c, inputs, env, sig as int) by {
                                        assert(i1[slotg] == ins);
                                        lemma_slot_val_instrs_ext(
                                            b.instrs@,
                                            i1,
                                            b.input_names@.len() as int,
                                            breg_widths(*b),
                                            inputs,
                                            rv,
                                            sa as int,
                                        );
                                        lemma_slot_val_instrs_ext(
                                            b.instrs@,
                                            i1,
                                            b.input_names@.len() as int,
                                            breg_widths(*b),
                                            inputs,
                                            rv,
                                            sb as int,
                                        );
                                        lemma_slot_val_instrs_ext(
                                            b.instrs@,
                                            i1,
                                            b.input_names@.len() as int,
                                            breg_widths(*b),
                                            inputs,
                                            rv,
                                            ss as int,
                                        );
                                        assert(slot_val(b.instrs@, inputs, rv, sa as int)
                                            == sig_den(*c, inputs, env, a_id as int));
                                        assert(slot_val(b.instrs@, inputs, rv, sb as int)
                                            == sig_den(*c, inputs, env, b_id as int));
                                        assert(slot_val(b.instrs@, inputs, rv, ss as int)
                                            == sig_den(*c, inputs, env, sel_id as int));
                                    }
                                }
                            }
                            Ok(emit(b, c, ctx, sig, ins))
                        },
                        Err(e) => Err(e),
                    }
                },
                Err(e) => Err(e),
            }
        },
        Err(e) => Err(e),
    }
}

/// Lowers an instance-output node: switches to the child context and lowers
/// the signal that drives the named output there.
#[verifier::rlimit(100)]
#[verifier::spinoff_prover]
fn compile_instance_output(c: &Context, b: &mut Build, ctx: usize, sig: usize, fuel: u64) -> (r:
    Result<usize, Error>)
    requires
        c.wf(),
        build_wf(*old(b), *c),
        ctx < old(b).arena.nodes@.len(),
        sig < c.signals@.len(),
        c.sig_module(Signal { id: sig }) == old(b).arena.nodes@[ctx as int].module,
        c.signals@[sig as int].data matches SignalData::InstanceOutput { .. },
        fuel >= 1,
    ensures
        match r {
            Ok(slot) => {
                &&& build_wf(*final(b), *c)
                &&& build_extends(*old(b), *final(b))
                &&& slot < final(b).instrs@.len()
                &&& instr_res_width(final(b).instrs@[slot as int]) == c.sig_width(
                    Signal { id: sig },
                )
                &&& (no_instances(*c) ==> slot_denotes(
                    *c,
                    final(b).instrs@,
                    final(b).bregs@,
                    slot as int,
                    sig as int,
                ))
            },
            Err(e) => lowering_error(*c, e),
        },
    decreases fuel, 0int,
{
    proof {
        assert(c.signal_wf(sig as int));
    }
    let ghost b0 = *old(b);
    let (inst_id, name): (usize, &String) = match &c.signals[sig].data {
        SignalData::InstanceOutput { instance, name } => (instance.id, name),
        _ => {
            proof {
                assert(false);
            }
            return Err(Error::CapacityExceeded);
        },
    };
    let child = b.arena.get_child(c, ctx, inst_id);
    proof {
        lemma_build_wf_core(b0, *b, *c);
    }
    let target = c.instances[inst_id].instantiated;
    match crate::module::table_find(&c.modules[target].outputs, name) {
        Some(l) => {
            proof {
                assert(c.module_wf(target as int));
                assert(c.output_entry_ok(target as int, l as int));
            }
            let source = c.modules[target].outputs[l].1.source;
            match compile_signal(c, b, child, source.id, fuel - 1) {
                Ok(slot) => {
                    proof {
                        let jw = choose|jw: int|
                            0 <= jw < c.modules@[target as int].outputs@.len() && (
                            #[trigger] c.modules@[target as int].outputs@[jw]).0@
                                == c.signals@[sig as int].data->InstanceOutput_name@ && c.sig_ok(
                                c.modules@[target as int].outputs@[jw].1.source,
                            ) && c.sig_width(c.modules@[target as int].outputs@[jw].1.source)
                                == c.signals@[sig as int].width;
                        lemma_key_index_unique(c.modules@[target as int].outputs@, l as int, jw);
                    }
                    Ok(slot)
                },
                Err(e) => Err(e),
            }
        },
        None => {
            proof {
                assert(false);
            }
            Err(Error::UnknownName { name: name.clone() })
        },
    }
}

impl Sim {
    /// Validates the hierarchy rooted at `m` and lowers it into a
    /// simulation. The simulator starts with all inputs at zero and every
    /// register at its initial value, or zero if it declared none.
    #[verifier::rlimit(100)]
    #[verifier::spinoff_prover]
    pub fn new(c: &Context, m: Module) -> (r: Result<Sim, Error>)
        requires
            c.wf(),
            m.id < c.modules@.len(),
        ensures
            match r {
                Ok(s) => {
                    &&& s.wf()
                    &&& (exists|v: Seq<usize>|
                        {
                            &&& #[trigger] crate::validation::in_seq(v, m.id)
                            &&& crate::validation::order_closed(*c, v)
                            &&& forall|i: int|
                                0 <= i < v.len() ==> crate::validation::module_regs_driven(
                                    *c,
                                    (#[trigger] v[i]) as int,
                                ) && crate::validation::module_instances_driven(*c, v[i] as int)
                                    && crate::validation::module_mems_ok(*c, v[i] as int)
                        })
                    &&& s.input_names@.len() == c.modules@[m.id as int].inputs@.len()
                    &&& forall|j: int|
                        0 <= j < s.input_names@.len() ==> (#[trigger] s.input_names@[j]).0@
                            == c.modules@[m.id as int].inputs@[j].0@ && s.input_names@[j].1
                            == c.sig_width(c.modules@[m.id as int].inputs@[j].1)
                    &&& forall|j: int| 0 <= j < s.inputs@.len() ==> s.inputs@[j] == 0
                    &&& s.outputs@.len() == c.modules@[m.id as int].outputs@.len()
                    &&& forall|o: int|
                        0 <= o < s.outputs@.len() ==> (#[trigger] s.outputs@[o]).0@
                            == c.modules@[m.id as int].outputs@[o].0@
                    &&& forall|r2: int|
                        0 <= r2 < s.regs@.len() ==> (#[trigger] s.regs@[r2]).value == (
                        match s.regs@[r2].init {
                            Some(v) => v,
                            None => 0u128,
                        }) && s.regs@[r2].next == s.regs@[r2].value
                    &&& (no_instances(*c) ==> sim_denotes(*c, m, s))
                },
                Err(e) => crate::validation::validation_error_witnessed(*c, e) || lowering_error(*c, e),
            },
    {
        let ghost validated: Seq<usize>;
        match crate::validation::validate_module_hierarchy(c, m) {
            Ok(v) => {
                proof {
                    validated = v@;
                }
            },
            Err(e) => {
                return Err(e);
            },
        }
        proof {
            assert(c.module_wf(m.id as int));
            assert(crate::validation::in_seq(validated, m.id));
        }
        let n_in = c.modules[m.id].inputs.len();
        let mut input_names: Vec<(String, u32)> = Vec::new();
        let mut inputs: Vec<u128> = Vec::new();
        let mut j: usize = 0;
        while j < n_in
            invariant
                c.wf(),
                m.id < c.modules@.len(),
                n_in == c.modules@[m.id as int].inputs@.len(),
                j <= n_in,
                input_names@.len() == j,
                inputs@.len() == j,
                forall|j2: int|
                    0 <= j2 < j ==> (#[trigger] input_names@[j2]).0@
                        == c.modules@[m.id as int].inputs@[j2].0@ && input_names@[j2].1
                        == c.sig_width(c.modules@[m.id as int].inputs@[j2].1),
                forall|j2: int| 0 <= j2 < j ==> inputs@[j2] == 0,
            decreases n_in - j,
        {
            proof {
                assert(c.module_wf(m.id as int));
                assert(c.input_entry_ok(m.id as int, j as int));
            }
            let nm = c.modules[m.id].inputs[j].0.clone();
            let sg = c.modules[m.id].inputs[j].1;
            let w = c.signals[sg.id].width;
            input_names.push((nm, w));
            inputs.push(0);
            j = j + 1;
        }
        let ghost in_names0 = input_names@;
        let arena = module_context::ContextArena::new(c, m.id);
        let mut b = Build {
            root: m.id,
            arena,
            memo: Vec::new(),
            instrs: Vec::new(),
            input_names,
            bregs: Vec::new(),
            active: Vec::new(),
        };
        proof {
            assert(build_wf(b, *c));
        }
        let n_out = c.modules[m.id].outputs.len();
        let mut outputs: Vec<(String, usize)> = Vec::new();
        let mut o: usize = 0;
        while o < n_out
            invariant
                c.wf(),
                m.id < c.modules@.len(),
                build_wf(b, *c),
                b.arena.nodes@.len() >= 1,
                b.arena.nodes@[0].module == m.id,
                n_out == c.modules@[m.id as int].outputs@.len(),
                o <= n_out,
                outputs@.len() == o,
                inputs@.len() == b.input_names@.len(),
                b.input_names@ == in_names0,
                forall|o2: int|
                    0 <= o2 < o ==> (#[trigger] outputs@[o2]).0@
                        == c.modules@[m.id as int].outputs@[o2].0@ && outputs@[o2].1
                        < b.instrs@.len(),
                no_instances(*c) ==> forall|o2: int|
                    0 <= o2 < o ==> slot_denotes(
                        *c,
                        b.instrs@,
                        b.bregs@,
                        (#[trigger] outputs@[o2]).1 as int,
                        c.modules@[m.id as int].outputs@[o2].1.source.id as int,
                    ),
            decreases n_out - o,
        {
            proof {
                assert(c.module_wf(m.id as int));
                assert(c.output_entry_ok(m.id as int, o as int));
            }
            let src = c.modules[m.id].outputs[o].1.source;
            let ghost b_pre = b;
            match compile_signal(c, &mut b, 0, src.id, COMPILE_FUEL) {
                Ok(slot) => {
                    outputs.push((c.modules[m.id].outputs[o].0.clone(), slot));
                    proof {
                        assert(b.arena.nodes@[0].module == b_pre.arena.nodes@[0].module);
                        assert forall|o3: int| 0 <= o3 < o implies (#[trigger] outputs@[o3]).1
                            < b.instrs@.len() by {
                            assert(b_pre.instrs@.len() <= b.instrs@.len());
                        }
                        if no_instances(*c) {
                            assert forall|j2: int|
                                0 <= j2 < b_pre.instrs@.len() implies instr_wf(
                                b_pre.instrs@,
                                b.input_names@.len() as int,
                                breg_widths_of(b_pre.bregs@),
                                j2,
                            ) by {
                                assert(instr_wf(
                                    b_pre.instrs@,
                                    b_pre.input_names@.len() as int,
                                    breg_widths(b_pre),
                                    j2,
                                ));
                            }
                            assert forall|o3: int|
                                0 <= o3 < outputs@.len() implies slot_denotes(
                                *c,
                                b.instrs@,
                                b.bregs@,
                                (#[trigger] outputs@[o3]).1 as int,
                                c.modules@[m.id as int].outputs@[o3].1.source.id as int,
                            ) by {
                                if o3 < o {
                                    lemma_slot_denotes_ext(
                                        *c,
                                        b_pre.instrs@,
                                        b.instrs@,
                                        b_pre.bregs@,
                                        b.bregs@,
                                        b.input_names@.len() as int,
                                        outputs@[o3].1 as int,
                                        c.modules@[m.id as int].outputs@[o3].1.source.id as int,
                                    );
                                }
                            }
                        }
                    }
                },
                Err(e) => {
                    return Err(e);
                },
            }
            o = o + 1;
        }
        let mut ridx: usize = 0;
        let mut steps: u64 = COMPILE_FUEL;
        while ridx < b.bregs.len()
            invariant
                c.wf(),
                m.id < c.modules@.len(),
                build_wf(b, *c),
                b.arena.nodes@.len() >= 1,
                inputs@.len() == b.input_names@.len(),
                b.input_names@ == in_names0,
                forall|k: int| 0 <= k < ridx ==> (#[trigger] b.bregs@[k]).next_slot is Some,
                forall|o2: int| 0 <= o2 < outputs@.len() ==> (#[trigger] outputs@[o2]).1 < b.instrs@.len(),
                no_instances(*c) ==> forall|o2: int|
                    0 <= o2 < outputs@.len() ==> slot_denotes(
                        *c,
                        b.instrs@,
                        b.bregs@,
                        (#[trigger] outputs@[o2]).1 as int,
                        c.modules@[m.id as int].outputs@[o2].1.source.id as int,
                    ),
                no_instances(*c) ==> forall|k: int|
                    0 <= k < ridx ==> (c.signals@[(#[trigger] b.bregs@[k]).sig as int].data matches SignalData::Reg {
                        next,
                        ..
                    } && (next matches Some(nx) && (b.bregs@[k].next_slot matches Some(s2)
                        && slot_denotes(*c, b.instrs@, b.bregs@, s2 as int, nx.id as int)))),
            decreases steps,
        {
            if steps == 0 {
                return Err(Error::CapacityExceeded);
            }
            steps = steps - 1;
            proof {
                assert(breg_ok(b, *c, ridx as int));
                assert(c.signal_wf(b.bregs@[ridx as int].sig as int));
            }
            {
                let rsig = b.bregs[ridx].sig;
                let rctx = b.bregs[ridx].ctx;
                let nxt: Signal = match &c.signals[rsig].data {
                    SignalData::Reg { next, name, .. } => match next {
                        Some(nx) => *nx,
                        None => {
                            let module_name = c.modules[c.signals[rsig].module].name.clone();
                            let register_name = name.clone();
                            proof {
                                let md = c.signals@[rsig as int].module as int;
                                let jw = choose|jw: int|
                                    0 <= jw < c.modules@[md].registers.len()
                                        && c.modules@[md].registers[jw].0@
                                        == c.signals@[rsig as int].data->Reg_name@
                                        && c.modules@[md].registers[jw].1 == (Register {
                                        value: Signal { id: rsig },
                                    });
                                assert(c.modules@[md].registers@[jw].0@ == register_name@);
                            }
                            return Err(Error::UndrivenRegister { module_name, register_name });
                        },
                    },
                    _ => {
                        proof {
                            assert(false);
                        }
                        return Err(Error::CapacityExceeded);
                    },
                };
                let ghost b_pre = b;
                match compile_signal(c, &mut b, rctx, nxt.id, COMPILE_FUEL) {
                    Ok(slot) => {
                        let ghost b_mid = b;
                        b.bregs[ridx].next_slot = Some(slot);
                        proof {
                            assert(breg_widths(b) =~= breg_widths(b_mid));
                            lemma_instr_wf_ext(
                                b.instrs@,
                                b.instrs@,
                                b.input_names@.len() as int,
                                breg_widths(b_mid),
                                breg_widths(b),
                            );
                            assert forall|e: int| 0 <= e < b.memo@.len() implies #[trigger] memo_ok(
                                b,
                                *c,
                                e,
                            ) by {
                                assert(memo_ok(b_mid, *c, e));
                                if no_instances(*c) {
                                    lemma_slot_denotes_ext(
                                        *c,
                                        b_mid.instrs@,
                                        b.instrs@,
                                        b_mid.bregs@,
                                        b.bregs@,
                                        b.input_names@.len() as int,
                                        b_mid.memo@[e].2 as int,
                                        b_mid.memo@[e].1 as int,
                                    );
                                }
                            }
                            assert forall|r2: int| 0 <= r2 < b.bregs@.len() implies
                                #[trigger] breg_ok(b, *c, r2) by {
                                assert(breg_ok(b_mid, *c, r2));
                                if r2 == ridx {
                                    assert(b.bregs@[r2].next_slot == Some(slot));
                                }
                            }
                            assert(build_wf(b, *c));
                            assert forall|k2: int| 0 <= k2 < ridx implies (
                            #[trigger] b.bregs@[k2]).next_slot is Some by {
                                assert(b_pre.bregs@[k2].next_slot is Some);
                                assert(b_mid.bregs@[k2].next_slot == b_pre.bregs@[k2].next_slot);
                            }
                            assert forall|o3: int| 0 <= o3 < outputs@.len() implies (
                            #[trigger] outputs@[o3]).1 < b.instrs@.len() by {}
                            if no_instances(*c) {
                                assert forall|j2: int|
                                    0 <= j2 < b_pre.instrs@.len() implies instr_wf(
                                    b_pre.instrs@,
                                    b.input_names@.len() as int,
                                    breg_widths_of(b_pre.bregs@),
                                    j2,
                                ) by {
                                    assert(instr_wf(
                                        b_pre.instrs@,
                                        b_pre.input_names@.len() as int,
                                        breg_widths(b_pre),
                                        j2,
                                    ));
                                }
                                assert forall|o3: int|
                                    0 <= o3 < outputs@.len() implies slot_denotes(
                                    *c,
                                    b.instrs@,
                                    b.bregs@,
                                    (#[trigger] outputs@[o3]).1 as int,
                                    c.modules@[m.id as int].outputs@[o3].1.source.id as int,
                                ) by {
                                    lemma_slot_denotes_ext(
                                        *c,
                                        b_pre.instrs@,
                                        b.instrs@,
                                        b_pre.bregs@,
                                        b.bregs@,
                                        b.input_names@.len() as int,
                                        outputs@[o3].1 as int,
                                        c.modules@[m.id as int].outputs@[o3].1.source.id as int,
                                    );
                                }
                                assert forall|k2: int|
                                    0 <= k2 < ridx + 1 implies (c.signals@[(
                                #[trigger] b.bregs@[k2]).sig as int].data matches SignalData::Reg {
                                    next,
                                    ..
                                } && (next matches Some(nx) && (b.bregs@[k2].next_slot matches Some(
                                    s2,
                                ) && slot_denotes(
                                    *c,
                                    b.instrs@,
                                    b.bregs@,
                                    s2 as int,
                                    nx.id as int,
                                )))) by {
                                    if k2 < ridx {
                                        assert(breg_ok(b_pre, *c, k2));
                                        assert(b_pre.bregs@[k2].next_slot is Some);
                                        let s2p = b_pre.bregs@[k2].next_slot->0;
                                        let nxp = c.signals@[b_pre.bregs@[k2].sig as int].data->Reg_next->0;
                                        lemma_slot_denotes_ext(
                                            *c,
                                            b_pre.instrs@,
                                            b.instrs@,
                                            b_pre.bregs@,
                                            b.bregs@,
                                            b.input_names@.len() as int,
                                            s2p as int,
                                            nxp.id as int,
                                        );
                                    } else {
                                        lemma_slot_denotes_ext(
                                            *c,
                                            b_mid.instrs@,
                                            b.instrs@,
                                            b_mid.bregs@,
                                            b.bregs@,
                                            b.input_names@.len() as int,
                                            slot as int,
                                            nxt.id as int,
                                        );
                                    }
                                }
                            }
                        }
                    },
                    Err(e) => {
                        return Err(e);
                    },
                }
            }
            ridx = ridx + 1;
        }
        let n_regs = b.bregs.len();
        let mut regs: Vec<SimReg> = Vec::new();
        let mut k: usize = 0;
        while k < n_regs
            invariant
                c.wf(),
                build_wf(b, *c),
                n_regs == b.bregs@.len(),
                k <= n_regs,
                regs@.len() == k,
                forall|k2: int| 0 <= k2 < n_regs ==> (#[trigger] b.bregs@[k2]).next_slot is Some,
                forall|k2: int|
                    0 <= k2 < k ==> {
                        let rg = #[trigger] regs@[k2];
                        let bg = b.bregs@[k2];
                        &&& rg.width == bg.width
                        &&& rg.init == bg.init
                        &&& rg.next_slot == bg.next_slot->0
                        &&& rg.value == (match bg.init {
                            Some(v) => v,
                            None => 0u128,
                        })
                        &&& rg.next == rg.value
                        &&& in_width(rg.value, rg.width)
                    },
            decreases n_regs - k,
        {
            proof {
                assert(breg_ok(b, *c, k as int));
                vstd::arithmetic::power2::lemma_pow2_pos(b.bregs@[k as int].width as nat);
            }
            let width = b.bregs[k].width;
            let init = b.bregs[k].init;
            let s: usize = match b.bregs[k].next_slot {
                Some(s) => s,
                None => {
                    proof {
                        assert(false);
                    }
                    return Err(Error::CapacityExceeded);
                },
            };
            let v: u128 = match init {
                Some(iv) => iv,
                None => 0,
            };
            regs.push(SimReg { width, init, value: v, next: v, next_slot: s });
            k = k + 1;
        }
        let mut ovs: Vec<u128> = Vec::new();
        let n_out2 = outputs.len();
        let mut o2: usize = 0;
        while o2 < n_out2
            invariant
                n_out2 == outputs@.len(),
                ovs@.len() == o2,
                o2 <= n_out2,
            decreases n_out2 - o2,
        {
            ovs.push(0);
            o2 = o2 + 1;
        }
        let ghost in_names_final = b.input_names@;
        let ghost outs_final = outputs@;
        let ghost inputs_final = inputs@;
        let ghost bregs_final = b.bregs@;
        let ghost instrs_final = b.instrs@;
        let ghost reg_sigs_g = Seq::new(b.bregs@.len(), |r: int| b.bregs@[r].sig as int);
        proof {
            if no_instances(*c) {
                assert(b.arena.nodes@.len() == 1) by {
                    if b.arena.nodes@.len() > 1 {
                        assert(match b.arena.nodes@[1].instance_and_parent {
                            Some((inst, parent)) => inst < c.instances@.len(),
                            None => 1 == 0,
                        });
                        assert(false);
                    }
                }
                assert forall|r1: int, r2: int|
                    #![trigger reg_sigs_g[r1], reg_sigs_g[r2]]
                    0 <= r1 < r2 < reg_sigs_g.len() implies reg_sigs_g[r1] != reg_sigs_g[r2] by {
                    assert(breg_ok(b, *c, r1));
                    assert(breg_ok(b, *c, r2));
                    assert(!(b.bregs@[r1].ctx == b.bregs@[r2].ctx && b.bregs@[r1].sig
                        == b.bregs@[r2].sig));
                }
            }
        }
        let sim = Sim {
            instrs: b.instrs,
            inputs,
            input_names: b.input_names,
            regs,
            reg_sigs: Ghost(reg_sigs_g),
            outputs,
            output_values: ovs,
        };
        proof {
            assert(sim.input_names@ == in_names_final);
            assert(in_names_final == in_names0);
            assert(c.module_wf(m.id as int));
            assert forall|x: int, y: int|
                0 <= x < y < sim.outputs@.len() implies sim.outputs@[x].0@ != sim.outputs@[y].0@ by {
                assert(sim.outputs@[x].0@ == c.modules@[m.id as int].outputs@[x].0@);
                assert(sim.outputs@[y].0@ == c.modules@[m.id as int].outputs@[y].0@);
            }
            assert forall|x: int, y: int|
                0 <= x < y < sim.input_names@.len() implies sim.input_names@[x].0@
                    != sim.input_names@[y].0@ by {
                assert(sim.input_names@[x] == in_names0[x]);
                assert(sim.input_names@[y] == in_names0[y]);
                assert(in_names0[x].0@ == c.modules@[m.id as int].inputs@[x].0@);
                assert(in_names0[y].0@ == c.modules@[m.id as int].inputs@[y].0@);
            }
            assert forall|j2: int|
                0 <= j2 < sim.input_names@.len() implies (#[trigger] sim.input_names@[j2]).0@
                    == c.modules@[m.id as int].inputs@[j2].0@ && sim.input_names@[j2].1
                    == c.sig_width(c.modules@[m.id as int].inputs@[j2].1) by {
                assert(sim.input_names@[j2] == in_names0[j2]);
            }
            assert(sim.outputs@ == outs_final);
            assert(sim.inputs@ == inputs_final);
            assert(sim.instrs@ == instrs_final);
            assert(sim.reg_widths() =~= breg_widths(b));
            assert forall|i: int| 0 <= i < sim.instrs@.len() implies instr_wf(
                sim.instrs@,
                sim.inputs@.len() as int,
                sim.reg_widths(),
                i,
            ) by {
                assert(instr_wf(b.instrs@, b.input_names@.len() as int, breg_widths(b), i));
            }
            assert forall|r2: int|
                0 <= r2 < sim.regs@.len() implies {
                    let rg = #[trigger] sim.regs@[r2];
                    &&& 1 <= rg.width <= 128
                    &&& in_width(rg.value, rg.width)
                    &&& in_width(rg.next, rg.width)
                    &&& (rg.init matches Some(v) ==> in_width(v, rg.width))
                    &&& rg.next_slot < sim.instrs@.len()
                    &&& instr_res_width(sim.instrs@[rg.next_slot as int]) == rg.width
                } by {
                assert(breg_ok(b, *c, r2));
            }
            assert(sim.wf());
            if no_instances(*c) {
                assert forall|r: int|
                    0 <= r < sim.regs@.len() implies {
                        let k = #[trigger] sim.reg_sigs@[r];
                        &&& 0 <= k < c.signals@.len()
                        &&& c.signals@[k].width == sim.regs@[r].width
                        &&& (c.signals@[k].data matches SignalData::Reg { initial_value, next, .. }
                            && initial_value == sim.regs@[r].init && (next matches Some(nx)
                            && sim_slot_denotes(*c, sim, sim.regs@[r].next_slot as int, nx.id as int)))
                    } by {
                    assert(breg_ok(b, *c, r));
                    let nx = c.signals@[bregs_final[r].sig as int].data->Reg_next->0;
                    let s2 = bregs_final[r].next_slot->0;
                    assert(sim.regs@[r].next_slot == s2);
                    assert(slot_denotes(*c, instrs_final, bregs_final, s2 as int, nx.id as int));
                    lemma_sim_slot_denotes_from_build(
                        *c,
                        sim,
                        bregs_final,
                        s2 as int,
                        nx.id as int,
                    );
                }
                assert forall|o: int|
                    0 <= o < sim.outputs@.len() implies sim_slot_denotes(
                    *c,
                    sim,
                    (#[trigger] sim.outputs@[o]).1 as int,
                    c.modules@[m.id as int].outputs@[o].1.source.id as int,
                ) by {
                    assert(sim.outputs@[o] == outs_final[o]);
                    assert(slot_denotes(
                        *c,
                        instrs_final,
                        bregs_final,
                        outs_final[o].1 as int,
                        c.modules@[m.id as int].outputs@[o].1.source.id as int,
                    ));
                    lemma_sim_slot_denotes_from_build(
                        *c,
                        sim,
                        bregs_final,
                        outs_final[o].1 as int,
                        c.modules@[m.id as int].outputs@[o].1.source.id as int,
                    );
                }
                assert(sim_denotes(*c, m, sim));
            }
        }
        Ok(sim)
    }
}

/// Instruction well-formedness only depends on the instruction list, the
/// number of inputs, and the register widths.
proof fn lemma_instr_wf_stable(
    instrs: Seq<Instr>,
    n_inputs: int,
    rw0: Seq<u32>,
    rw1: Seq<u32>,
)
    requires
        forall|i: int| 0 <= i < instrs.len() ==> instr_wf(instrs, n_inputs, rw0, i),
        rw1 =~= rw0,
    ensures
        forall|i: int| 0 <= i < instrs.len() ==> instr_wf(instrs, n_inputs, rw1, i),
{
}

/// Evaluates one binary operator on canonical operands.
fn binop_eval(op: BinOp, a: u128, b: u128, w: u32) -> (r: u128)
    requires
        1 <= w <= 128,
        in_width(a, w),
        in_width(b, w),
    ensures
        r == binop_val(op, a, b, w),
        in_width(
            r,
            if op.spec_is_comparison() {
                1u32
            } else {
                w
            },
        ),
{
    proof {
        vstd::arithmetic::power2::lemma2_to64();
    }
    match op {
        BinOp::BitAnd => and_of(a, b, w),
        BinOp::BitOr => or_of(a, b, w),
        BinOp::BitXor => xor_of(a, b, w),
        BinOp::Add => add_of(a, b, w),
        BinOp::Eq => if a == b {
            1
        } else {
            0
        },
        BinOp::Ne => if a != b {
            1
        } else {
            0
        },
        BinOp::Lt => if a < b {
            1
        } else {
            0
        },
        BinOp::Le => if a <= b {
            1
        } else {
            0
        },
        BinOp::Gt => if a > b {
            1
        } else {
            0
        },
        BinOp::Ge => if a >= b {
            1
        } else {
            0
        },
        BinOp::LtSigned => lt_signed_of(a, b, w),
        BinOp::LeSigned => {
            let gt = lt_signed_of(b, a, w);
            if gt == 0 {
                1
            } else {
                0
            }
        },
        BinOp::GtSigned => lt_signed_of(b, a, w),
        BinOp::GeSigned => {
            let lt = lt_signed_of(a, b, w);
            if lt == 0 {
                1
            } else {
                0
            }
        },
    }
}

} // verus!
