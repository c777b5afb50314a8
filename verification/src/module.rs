//! The module graph: contexts, modules, signals, registers, instances and
//! memories.
//!
//! A [`Context`] owns every node of a design. Handles ([`Module`], [`Signal`],
//! [`Register`], [`Instance`], [`Mem`]) are indices into the context's node
//! stores and stay valid for the context's whole lifetime; nodes are never
//! removed. Every constructor validates its arguments up front and returns an
//! [`Error`] instead of building a malformed node, so a well-formed context
//! can only grow into a well-formed context.

use crate::value::{in_width, pow2w};
use vstd::prelude::*;

verus! {

/// The minimum allowed bit width for any given signal.
pub const MIN_SIGNAL_BIT_WIDTH: u32 = 1;

/// The maximum allowed bit width for any given signal. Keeping every signal
/// at or below 128 bits lets a simulator store any value in a native integer.
pub const MAX_SIGNAL_BIT_WIDTH: u32 = 128;

/// A constant provided to [`Module::lit`] or as a register's initial value.
#[derive(Clone, Copy, Debug)]
pub enum Value {
    Bool(bool),
    U8(u8),
    U16(u16),
    U32(u32),
    U64(u64),
    U128(u128),
}

impl Value {
    /// The numeric value that this constant denotes.
    pub open spec fn spec_numeric(self) -> u128 {
        match self {
            Value::Bool(b) => if b {
                1u128
            } else {
                0u128
            },
            Value::U8(v) => v as u128,
            Value::U16(v) => v as u128,
            Value::U32(v) => v as u128,
            Value::U64(v) => v as u128,
            Value::U128(v) => v,
        }
    }

    /// The numeric value that this constant denotes.
    pub fn numeric_value(&self) -> (r: u128)
        ensures
            r == self.spec_numeric(),
    {
        match *self {
            Value::Bool(b) => if b {
                1
            } else {
                0
            },
            Value::U8(v) => v as u128,
            Value::U16(v) => v as u128,
            Value::U32(v) => v as u128,
            Value::U64(v) => v as u128,
            Value::U128(v) => v,
        }
    }
}

/// Why a construction or validation step was rejected.
#[derive(Clone, Debug)]
pub enum Error {
    /// Two modules, inputs, outputs, registers, instances or memories would
    /// share a name.
    DuplicateName { name: String },
    /// A declared or derived bit width falls outside `[1, 128]`.
    WidthOutOfRange { width: u64 },
    /// A literal or initial value does not fit in its declared width.
    ValueTooWide { value: u128, width: u32 },
    /// Operand widths disagree where equality is required.
    WidthMismatch { lhs_width: u32, rhs_width: u32 },
    /// A bit index or bit range reaches outside its source signal.
    IndexOutOfRange { index: u32, width: u32 },
    /// Signals from different modules were combined.
    CrossModule,
    /// A name was looked up that the target module does not declare.
    UnknownName { name: String },
    /// A register next-value, instance input or memory port was supplied
    /// twice.
    AlreadyDriven { name: String },
    /// The instance graph reachable from the root contains a cycle.
    RecursiveModule { module_name: String, instance_name: String, in_module_name: String },
    /// A register has no next-value source.
    UndrivenRegister { module_name: String, register_name: String },
    /// A declared input of an instantiated module is not driven.
    UndrivenInstanceInput { module_name: String, instance_name: String, input_name: String },
    /// A memory has no read port.
    MissingReadPort { module_name: String, memory_name: String },
    /// A memory has neither initial contents nor a write port.
    MissingSource { module_name: String, memory_name: String },
    /// A purely combinational dependency cycle runs through an output.
    CombinationalLoop { module_name: String, output_name: String },
    /// A traversal exceeded the library's internal work bound.
    CapacityExceeded,
}

/// A handle to a signal node owned by a [`Context`].
#[derive(Clone, Copy, PartialEq, Eq, Structural, Debug)]
pub struct Signal {
    pub id: usize,
}

/// A handle to a module owned by a [`Context`].
#[derive(Clone, Copy, PartialEq, Eq, Structural, Debug)]
pub struct Module {
    pub id: usize,
}

/// A handle to an instance node owned by a [`Context`].
#[derive(Clone, Copy, PartialEq, Eq, Structural, Debug)]
pub struct Instance {
    pub id: usize,
}

/// A handle to a memory node owned by a [`Context`].
#[derive(Clone, Copy, PartialEq, Eq, Structural, Debug)]
pub struct Mem {
    pub id: usize,
}

/// An output binding: the signal that drives a named module output.
#[derive(Clone, Copy, PartialEq, Eq, Structural, Debug)]
pub struct Output {
    pub source: Signal,
}

/// A register handle; `value` is its current-value signal node.
#[derive(Clone, Copy, PartialEq, Eq, Structural, Debug)]
pub struct Register {
    pub value: Signal,
}

/// The unary operators.
#[derive(Clone, Copy, PartialEq, Eq, Structural, Debug)]
pub enum UnOp {
    Not,
}

/// The binary operators. Bitwise and arithmetic operators keep the operand
/// width; comparisons produce a single bit.
#[derive(Clone, Copy, PartialEq, Eq, Structural, Debug)]
pub enum BinOp {
    BitAnd,
    BitOr,
    BitXor,
    Add,
    Eq,
    Ne,
    Lt,
    Le,
    Gt,
    Ge,
    LtSigned,
    LeSigned,
    GtSigned,
    GeSigned,
}

impl BinOp {
    /// Comparisons yield one bit; the other operators keep the operand width.
    pub open spec fn spec_is_comparison(self) -> bool {
        !(self == BinOp::BitAnd || self == BinOp::BitOr || self == BinOp::BitXor || self
            == BinOp::Add)
    }

    /// Comparisons yield one bit; the other operators keep the operand width.
    pub fn is_comparison(self) -> (r: bool)
        ensures
            r == self.spec_is_comparison(),
    {
        match self {
            BinOp::BitAnd | BinOp::BitOr | BinOp::BitXor | BinOp::Add => false,
            _ => true,
        }
    }
}

/// The variants of a signal node.
pub enum SignalData {
    /// A constant of `bit_width` bits; `value` always fits in them.
    Lit { value: u128, bit_width: u32 },
    /// A module input, identified by name within its module.
    Input { name: String, bit_width: u32 },
    /// A register's current value. `next` is set once, later, through
    /// [`Register::drive_next_with`].
    Reg { name: String, initial_value: Option<u128>, bit_width: u32, next: Option<Signal> },
    /// A unary operator applied to `source`.
    UnOp { op: UnOp, source: Signal },
    /// A binary operator over operands of equal width.
    BinOp { op: BinOp, lhs: Signal, rhs: Signal },
    /// The single bit of `source` at `index`.
    Bit { source: Signal, index: u32 },
    /// The bits of `source` from `range_high` down to `range_low`.
    Bits { source: Signal, range_high: u32, range_low: u32 },
    /// `source` repeated `count` times, copies stacked upward.
    Repeat { source: Signal, count: u32 },
    /// `lhs` in the most significant bits, above `rhs`.
    Concat { lhs: Signal, rhs: Signal },
    /// `a` when `sel` is high, `b` when it is low.
    Mux { a: Signal, b: Signal, sel: Signal },
    /// The named output of an instantiated module, seen from the parent.
    InstanceOutput { instance: Instance, name: String },
}

/// A signal node: its owning module, cached width, and variant.
pub struct SignalNode {
    pub module: usize,
    pub width: u32,
    pub data: SignalData,
}

/// A module: its name and its insertion-ordered, name-keyed tables.
pub struct ModuleNode {
    pub name: String,
    pub inputs: Vec<(String, Signal)>,
    pub outputs: Vec<(String, Output)>,
    pub registers: Vec<(String, Register)>,
    pub instances: Vec<(String, Instance)>,
    pub mems: Vec<(String, Mem)>,
}

/// An instance node: the use-site of `instantiated` inside `parent`.
pub struct InstanceNode {
    pub name: String,
    pub parent: usize,
    pub instantiated: usize,
    pub driven_inputs: Vec<(String, Signal)>,
}

/// A memory node. Memories take part in construction and validation only.
pub struct MemNode {
    pub name: String,
    pub module: usize,
    pub address_bit_width: u32,
    pub element_bit_width: u32,
    pub initial_contents: Option<Vec<u128>>,
    pub read_ports: Vec<(Signal, Signal)>,
    pub write_port: Option<(Signal, Signal, Signal)>,
}

/// No two entries of a name-keyed table share a name.
pub open spec fn keys_unique<T>(s: Seq<(String, T)>) -> bool {
    forall|i: int, j: int| 0 <= i < j < s.len() ==> s[i].0@ != s[j].0@
}

/// Whether a name-keyed table holds an entry for `k`.
pub open spec fn has_key<T>(s: Seq<(String, T)>, k: Seq<char>) -> bool {
    exists|i: int| 0 <= i < s.len() && s[i].0@ == k
}

/// The owner of every node of one design.
pub struct Context {
    pub modules: Vec<ModuleNode>,
    pub signals: Vec<SignalNode>,
    pub instances: Vec<InstanceNode>,
    pub mems: Vec<MemNode>,
}

impl Context {
    /// `s` is a handle into this context.
    pub open spec fn sig_ok(self, s: Signal) -> bool {
        s.id < self.signals.len()
    }

    /// The cached width of the signal behind `s`.
    pub open spec fn sig_width(self, s: Signal) -> u32 {
        self.signals[s.id as int].width
    }

    /// The module that owns the signal behind `s`.
    pub open spec fn sig_module(self, s: Signal) -> usize {
        self.signals[s.id as int].module
    }

    /// Well-formedness of the signal node at index `i`. Children of
    /// combinational nodes were created before their parent, so their
    /// indices are smaller; only a register's `next` may point anywhere.
    pub open spec fn signal_wf(self, i: int) -> bool {
        let n = self.signals[i];
        &&& n.module < self.modules.len()
        &&& 1 <= n.width <= 128
        &&& match n.data {
            SignalData::Lit { value, bit_width } => {
                &&& bit_width == n.width
                &&& in_width(value, bit_width)
            },
            SignalData::Input { name, bit_width } => {
                &&& bit_width == n.width
                &&& exists|j: int|
                    0 <= j < self.modules[n.module as int].inputs.len()
                        && self.modules[n.module as int].inputs[j].0@ == name@
                        && self.modules[n.module as int].inputs[j].1 == Signal { id: i as usize }
            },
            SignalData::Reg { name, initial_value, bit_width, next } => {
                &&& bit_width == n.width
                &&& match initial_value {
                    Some(v) => in_width(v, bit_width),
                    None => true,
                }
                &&& match next {
                    Some(s) => {
                        &&& self.sig_ok(s)
                        &&& self.sig_module(s) == n.module
                        &&& self.sig_width(s) == n.width
                    },
                    None => true,
                }
                &&& exists|j: int|
                    0 <= j < self.modules[n.module as int].registers.len()
                        && self.modules[n.module as int].registers[j].0@ == name@
                        && self.modules[n.module as int].registers[j].1 == Register {
                        value: Signal { id: i as usize },
                    }
            },
            SignalData::UnOp { op, source } => {
                &&& source.id < i
                &&& self.sig_module(source) == n.module
                &&& self.sig_width(source) == n.width
            },
            SignalData::BinOp { op, lhs, rhs } => {
                &&& lhs.id < i
                &&& rhs.id < i
                &&& self.sig_module(lhs) == n.module
                &&& self.sig_module(rhs) == n.module
                &&& self.sig_width(lhs) == self.sig_width(rhs)
                &&& n.width == if op.spec_is_comparison() {
                    1u32
                } else {
                    self.sig_width(lhs)
                }
            },
            SignalData::Bit { source, index } => {
                &&& source.id < i
                &&& self.sig_module(source) == n.module
                &&& index < self.sig_width(source)
                &&& n.width == 1
            },
            SignalData::Bits { source, range_high, range_low } => {
                &&& source.id < i
                &&& self.sig_module(source) == n.module
                &&& range_low <= range_high < self.sig_width(source)
                &&& n.width == range_high - range_low + 1
            },
            SignalData::Repeat { source, count } => {
                &&& source.id < i
                &&& self.sig_module(source) == n.module
                &&& n.width == self.sig_width(source) * count
            },
            SignalData::Concat { lhs, rhs } => {
                &&& lhs.id < i
                &&& rhs.id < i
                &&& self.sig_module(lhs) == n.module
                &&& self.sig_module(rhs) == n.module
                &&& n.width == self.sig_width(lhs) + self.sig_width(rhs)
            },
            SignalData::Mux { a, b, sel } => {
                &&& a.id < i
                &&& b.id < i
                &&& sel.id < i
                &&& self.sig_module(a) == n.module
                &&& self.sig_module(b) == n.module
                &&& self.sig_module(sel) == n.module
                &&& self.sig_width(a) == n.width
                &&& self.sig_width(b) == n.width
                &&& self.sig_width(sel) == 1
            },
            SignalData::InstanceOutput { instance, name } => {
                &&& instance.id < self.instances.len()
                &&& n.module == self.instances[instance.id as int].parent
                &&& exists|j: int|
                    0 <= j
                        < self.modules[self.instances[instance.id as int].instantiated as int].outputs.len()
                        && (#[trigger] self.modules[self.instances[instance.id as int].instantiated as int].outputs[j]).0@
                        == name@ && self.sig_ok(
                        self.modules[self.instances[instance.id as int].instantiated as int].outputs[j].1.source,
                    ) && self.sig_width(
                        self.modules[self.instances[instance.id as int].instantiated as int].outputs[j].1.source,
                    ) == n.width
            },
        }
    }

    /// The input-table entry `j` of module `m` points at an input node of
    /// this module carrying the entry's name.
    pub open spec fn input_entry_ok(self, m: int, j: int) -> bool {
        let md = self.modules[m];
        let s = md.inputs[j as int].1;
        &&& self.sig_ok(s)
        &&& self.sig_module(s) == m
        &&& self.signals[s.id as int].data matches SignalData::Input { name, .. } && name@
            == md.inputs[j as int].0@
    }

    /// The output-table entry `j` of module `m` is driven by a signal of
    /// this module.
    pub open spec fn output_entry_ok(self, m: int, j: int) -> bool {
        let o = self.modules[m].outputs[j as int].1;
        &&& self.sig_ok(o.source)
        &&& self.sig_module(o.source) == m
    }

    /// The register-table entry `j` of module `m` points at a register node
    /// of this module carrying the entry's name.
    pub open spec fn register_entry_ok(self, m: int, j: int) -> bool {
        let md = self.modules[m];
        let r = md.registers[j as int].1;
        &&& self.sig_ok(r.value)
        &&& self.sig_module(r.value) == m
        &&& self.signals[r.value.id as int].data matches SignalData::Reg { name, .. } && name@
            == md.registers[j as int].0@
    }

    /// The instance-table entry `j` of module `m` points at an instance node
    /// parented here and carrying the entry's name.
    pub open spec fn instance_entry_ok(self, m: int, j: int) -> bool {
        let md = self.modules[m];
        let k = md.instances[j as int].1;
        &&& k.id < self.instances.len()
        &&& self.instances[k.id as int].parent == m
        &&& self.instances[k.id as int].name@ == md.instances[j as int].0@
    }

    /// The memory-table entry `j` of module `m` points at a memory node of
    /// this module carrying the entry's name.
    pub open spec fn mem_entry_ok(self, m: int, j: int) -> bool {
        let md = self.modules[m];
        let k = md.mems[j as int].1;
        &&& k.id < self.mems.len()
        &&& self.mems[k.id as int].module == m
        &&& self.mems[k.id as int].name@ == md.mems[j as int].0@
    }

    /// Well-formedness of the module at index `m`: every table entry points
    /// at a node of the right kind that this module owns, and names are
    /// unique within each table.
    pub open spec fn module_wf(self, m: int) -> bool {
        let md = self.modules[m];
        &&& keys_unique(md.inputs@)
        &&& keys_unique(md.outputs@)
        &&& keys_unique(md.registers@)
        &&& keys_unique(md.instances@)
        &&& keys_unique(md.mems@)
        &&& forall|j: int| 0 <= j < md.inputs.len() ==> #[trigger] self.input_entry_ok(m, j)
        &&& forall|j: int| 0 <= j < md.outputs.len() ==> #[trigger] self.output_entry_ok(m, j)
        &&& forall|j: int| 0 <= j < md.registers.len() ==> #[trigger] self.register_entry_ok(m, j)
        &&& forall|j: int| 0 <= j < md.instances.len() ==> #[trigger] self.instance_entry_ok(m, j)
        &&& forall|j: int| 0 <= j < md.mems.len() ==> #[trigger] self.mem_entry_ok(m, j)
    }

    /// The driven-input entry `j` of instance `k` names a declared input of
    /// the instantiated module and is driven by a parent signal of the
    /// input's width.
    pub open spec fn driven_input_ok(self, k: int, j: int) -> bool {
        let ins = self.instances[k];
        let s = ins.driven_inputs[j as int].1;
        &&& self.sig_ok(s)
        &&& self.sig_module(s) == ins.parent
        &&& exists|l: int|
            0 <= l < self.modules[ins.instantiated as int].inputs.len() && (
            #[trigger] self.modules[ins.instantiated as int].inputs[l]).0@
                == ins.driven_inputs[j as int].0@ && self.sig_ok(
                self.modules[ins.instantiated as int].inputs[l].1,
            ) && self.sig_width(self.modules[ins.instantiated as int].inputs[l].1)
                == self.sig_width(s)
    }

    /// Well-formedness of the instance node at index `k`.
    pub open spec fn instance_wf(self, k: int) -> bool {
        let ins = self.instances[k];
        &&& ins.parent < self.modules.len()
        &&& ins.instantiated < self.modules.len()
        &&& keys_unique(ins.driven_inputs@)
        &&& forall|j: int|
            0 <= j < ins.driven_inputs.len() ==> #[trigger] self.driven_input_ok(k, j)
    }

    /// The read port `j` of memory `k` is addressed and enabled by signals
    /// of the memory's module with the right widths.
    pub open spec fn read_port_ok(self, k: int, j: int) -> bool {
        let mm = self.mems[k];
        let (a, e) = mm.read_ports[j as int];
        &&& self.sig_ok(a)
        &&& self.sig_ok(e)
        &&& self.sig_module(a) == mm.module
        &&& self.sig_module(e) == mm.module
        &&& self.sig_width(a) == mm.address_bit_width
        &&& self.sig_width(e) == 1
    }

    /// The write port of memory `k`, if present, is well-formed.
    pub open spec fn mem_write_port_ok(self, k: int) -> bool {
        let mm = self.mems[k];
        match mm.write_port {
            Some((a, v, e)) => {
                &&& self.sig_ok(a)
                &&& self.sig_ok(v)
                &&& self.sig_ok(e)
                &&& self.sig_module(a) == mm.module
                &&& self.sig_module(v) == mm.module
                &&& self.sig_module(e) == mm.module
                &&& self.sig_width(a) == mm.address_bit_width
                &&& self.sig_width(v) == mm.element_bit_width
                &&& self.sig_width(e) == 1
            },
            None => true,
        }
    }

    /// The initial contents of memory `k`, if present, fit its elements.
    pub open spec fn mem_initial_ok(self, k: int) -> bool {
        let mm = self.mems[k];
        match mm.initial_contents {
            Some(vs) => forall|j: int| 0 <= j < vs.len() ==> in_width(#[trigger] vs[j], mm.element_bit_width),
            None => true,
        }
    }

    /// Well-formedness of the memory node at index `k`.
    pub open spec fn mem_wf(self, k: int) -> bool {
        let mm = self.mems[k];
        &&& mm.module < self.modules.len()
        &&& 1 <= mm.address_bit_width <= 128
        &&& 1 <= mm.element_bit_width <= 128
        &&& self.mem_initial_ok(k)
        &&& self.mem_write_port_ok(k)
        &&& forall|j: int| 0 <= j < mm.read_ports.len() ==> #[trigger] self.read_port_ok(k, j)
    }

    /// Well-formedness of the whole context.
    pub open spec fn wf(self) -> bool {
        &&& forall|i: int, j: int|
            0 <= i < j < self.modules.len() ==> self.modules[i].name@ != self.modules[j].name@
        &&& forall|i: int| 0 <= i < self.signals.len() ==> self.signal_wf(i)
        &&& forall|m: int| 0 <= m < self.modules.len() ==> self.module_wf(m)
        &&& forall|k: int| 0 <= k < self.instances.len() ==> self.instance_wf(k)
        &&& forall|k: int| 0 <= k < self.mems.len() ==> self.mem_wf(k)
    }

    /// Creates a new, empty context.
    pub fn new() -> (r: Context)
        ensures
            r.wf(),
            r.modules.len() == 0,
            r.signals.len() == 0,
            r.instances.len() == 0,
            r.mems.len() == 0,
    {
        Context {
            modules: Vec::new(),
            signals: Vec::new(),
            instances: Vec::new(),
            mems: Vec::new(),
        }
    }

    /// Creates a new module called `name` in this context. Module names are
    /// unique within a context; a reused name is rejected.
    pub fn module(&mut self, name: &str) -> (r: Result<Module, Error>)
        requires
            old(self).wf(),
        ensures
            final(self).wf(),
            match r {
                Ok(m) => {
                    &&& !(exists|i: int|
                        0 <= i < old(self).modules.len() && old(self).modules[i].name@ == name@)
                    &&& m.id == old(self).modules.len()
                    &&& final(self).modules.len() == old(self).modules.len() + 1
                    &&& final(self).modules[m.id as int].name@ == name@
                    &&& final(self).modules[m.id as int].inputs.len() == 0
                    &&& final(self).modules[m.id as int].outputs.len() == 0
                    &&& final(self).modules[m.id as int].registers.len() == 0
                    &&& final(self).modules[m.id as int].instances.len() == 0
                    &&& final(self).modules[m.id as int].mems.len() == 0
                    &&& forall|i: int|
                        0 <= i < old(self).modules.len() ==> final(self).modules[i]
                            == old(self).modules[i]
                    &&& final(self).signals == old(self).signals
                    &&& final(self).instances == old(self).instances
                    &&& final(self).mems == old(self).mems
                },
                Err(Error::DuplicateName { name: ref n }) => {
                    &&& n@ == name@
                    &&& (exists|i: int|
                        0 <= i < old(self).modules.len() && old(self).modules[i].name@ == name@)
                    &&& *final(self) == *old(self)
                },
                Err(_) => false,
            },
    {
        let key: String = name.to_owned();
        let n = self.modules.len();
        let mut i: usize = 0;
        while i < n
            invariant
                *self == *old(self),
                self.wf(),
                n == self.modules.len(),
                forall|j: int| 0 <= j < i ==> self.modules[j].name@ != key@,
                key@ == name@,
            decreases n - i,
        {
            if self.modules[i].name == key {
                return Err(Error::DuplicateName { name: key });
            }
            i = i + 1;
        }
        let ghost old_c = *self;
        self.modules.push(
            ModuleNode {
                name: key,
                inputs: Vec::new(),
                outputs: Vec::new(),
                registers: Vec::new(),
                instances: Vec::new(),
                mems: Vec::new(),
            },
        );
        proof {
            lemma_ctx_ext_preserves_wf(old_c, *self);
        }
        Ok(Module { id: n })
    }
}

/// `post` is `pre` with one signal node appended and nothing else changed.
pub open spec fn added_signal(post: Context, pre: Context, node: SignalNode, s: Signal) -> bool {
    &&& post.signals@ == pre.signals@.push(node)
    &&& s.id == pre.signals@.len()
    &&& post.modules == pre.modules
    &&& post.instances == pre.instances
    &&& post.mems == pre.mems
}

/// `post` grew by exactly the one signal node handled by `s`.
pub open spec fn grew_signals_by_one(post: Context, pre: Context, s: Signal) -> bool {
    &&& post.signals@.len() == pre.signals@.len() + 1
    &&& forall|i: int| 0 <= i < pre.signals@.len() ==> post.signals@[i] == pre.signals@[i]
    &&& s.id == pre.signals@.len()
}

/// `post` is `pre` with the entry `(name, v)` appended.
pub open spec fn pushed_entry<T>(post: Seq<(String, T)>, pre: Seq<(String, T)>, name: Seq<char>, v: T) -> bool {
    &&& post.len() == pre.len() + 1
    &&& forall|i: int| 0 <= i < pre.len() ==> post[i] == pre[i]
    &&& post[pre.len() as int].0@ == name
    &&& post[pre.len() as int].1 == v
}

/// All modules except `m` are unchanged, and `m` keeps its name.
pub open spec fn modules_unchanged_except(post: Context, pre: Context, m: int) -> bool {
    &&& post.modules@.len() == pre.modules@.len()
    &&& forall|i: int| 0 <= i < pre.modules@.len() && i != m ==> post.modules@[i] == pre.modules@[i]
    &&& post.modules@[m].name == pre.modules@[m].name
}

/// Appending an entry with a fresh key keeps a table's keys unique.
proof fn lemma_keys_unique_push<T>(pre: Seq<(String, T)>, post: Seq<(String, T)>, name: Seq<char>, v: T)
    requires
        keys_unique(pre),
        !has_key(pre, name),
        pushed_entry(post, pre, name, v),
    ensures
        keys_unique(post),
{
    assert forall|i: int, j: int| 0 <= i < j < post.len() implies post[i].0@ != post[j].0@ by {
        if j < pre.len() {
            assert(pre[i].0@ != pre[j].0@);
        } else {
            assert(post[i] == pre[i]);
            assert(!(0 <= i < pre.len() && pre[i].0@ == name));
        }
    }
}

/// Whether a name-keyed table holds an entry for `key`.
pub(crate) fn table_has_key<T>(v: &Vec<(String, T)>, key: &String) -> (r: bool)
    ensures
        r == has_key(v@, key@),
{
    let n = v.len();
    let mut i: usize = 0;
    while i < n
        invariant
            n == v.len(),
            forall|j: int| 0 <= j < i ==> v@[j].0@ != key@,
        decreases n - i,
    {
        if v[i].0 == *key {
            return true;
        }
        i = i + 1;
    }
    false
}

/// The index of the entry for `key` in a name-keyed table, if any.
pub(crate) fn table_find<T>(v: &Vec<(String, T)>, key: &String) -> (r: Option<usize>)
    ensures
        match r {
            Some(i) => i < v@.len() && v@[i as int].0@ == key@,
            None => !has_key(v@, key@),
        },
{
    let n = v.len();
    let mut i: usize = 0;
    while i < n
        invariant
            n == v.len(),
            forall|j: int| 0 <= j < i ==> v@[j].0@ != key@,
        decreases n - i,
    {
        if v[i].0 == *key {
            return Some(i);
        }
        i = i + 1;
    }
    None
}

impl Module {
    /// This module's name.
    pub fn name(self, c: &Context) -> (r: &String)
        requires
            self.id < c.modules.len(),
        ensures
            r == c.modules@[self.id as int].name,
    {
        &c.modules[self.id].name
    }

    /// The insertion-ordered table of this module's inputs.
    pub fn inputs(self, c: &Context) -> (r: &Vec<(String, Signal)>)
        requires
            self.id < c.modules.len(),
        ensures
            r == c.modules@[self.id as int].inputs,
    {
        &c.modules[self.id].inputs
    }

    /// The insertion-ordered table of this module's outputs.
    pub fn outputs(self, c: &Context) -> (r: &Vec<(String, Output)>)
        requires
            self.id < c.modules.len(),
        ensures
            r == c.modules@[self.id as int].outputs,
    {
        &c.modules[self.id].outputs
    }

    /// Creates a signal carrying the constant `value` in `bit_width` bits.
    /// The width must lie in `[1, 128]` and the value must fit in it.
    pub fn lit(self, c: &mut Context, value: Value, bit_width: u32) -> (r: Result<Signal, Error>)
        requires
            old(c).wf(),
            self.id < old(c).modules.len(),
        ensures
            final(c).wf(),
            match r {
                Ok(s) => {
                    &&& 1 <= bit_width <= 128
                    &&& in_width(value.spec_numeric(), bit_width)
                    &&& added_signal(*final(c), *old(c), (SignalNode {
                        module: self.id,
                        width: bit_width,
                        data: (SignalData::Lit { value: value.spec_numeric(), bit_width }),
                    }), s)
                },
                Err(Error::WidthOutOfRange { width }) => {
                    &&& width == bit_width as u64
                    &&& !(1 <= bit_width <= 128)
                    &&& *final(c) == *old(c)
                },
                Err(Error::ValueTooWide { value: v, width }) => {
                    &&& 1 <= bit_width <= 128
                    &&& v == value.spec_numeric()
                    &&& width == bit_width
                    &&& !in_width(value.spec_numeric(), bit_width)
                    &&& *final(c) == *old(c)
                },
                Err(_) => false,
            },
    {
        if bit_width < MIN_SIGNAL_BIT_WIDTH || bit_width > MAX_SIGNAL_BIT_WIDTH {
            return Err(Error::WidthOutOfRange { width: bit_width as u64 });
        }
        let nv = value.numeric_value();
        let m = crate::value::mask_of(bit_width);
        if nv > m {
            return Err(Error::ValueTooWide { value: nv, width: bit_width });
        }
        let ghost c0 = *c;
        let s = Signal { id: c.signals.len() };
        c.signals.push(
            SignalNode {
                module: self.id,
                width: bit_width,
                data: SignalData::Lit { value: nv, bit_width },
            },
        );
        proof {
            lemma_ctx_ext_preserves_wf(c0, *c);
        }
        Ok(s)
    }

    /// A single constant `0` bit.
    pub fn low(self, c: &mut Context) -> (r: Signal)
        requires
            old(c).wf(),
            self.id < old(c).modules.len(),
        ensures
            final(c).wf(),
            added_signal(*final(c), *old(c), (SignalNode {
                module: self.id,
                width: 1,
                data: (SignalData::Lit { value: 0, bit_width: 1 }),
            }), r),
    {
        match self.lit(c, Value::Bool(false), 1) {
            Ok(s) => s,
            Err(_) => {
                proof {
                    vstd::arithmetic::power2::lemma2_to64();
                    assert(false);
                }
                Signal { id: 0 }
            },
        }
    }

    /// A single constant `1` bit.
    pub fn high(self, c: &mut Context) -> (r: Signal)
        requires
            old(c).wf(),
            self.id < old(c).modules.len(),
        ensures
            final(c).wf(),
            added_signal(*final(c), *old(c), (SignalNode {
                module: self.id,
                width: 1,
                data: (SignalData::Lit { value: 1, bit_width: 1 }),
            }), r),
    {
        match self.lit(c, Value::Bool(true), 1) {
            Ok(s) => s,
            Err(_) => {
                proof {
                    vstd::arithmetic::power2::lemma2_to64();
                    assert(false);
                }
                Signal { id: 0 }
            },
        }
    }

    /// Declares an input of this module called `name`, `bit_width` bits
    /// wide, and returns the signal that carries its value. Input names are
    /// unique within a module.
    pub fn input(self, c: &mut Context, name: &str, bit_width: u32) -> (r: Result<Signal, Error>)
        requires
            old(c).wf(),
            self.id < old(c).modules.len(),
        ensures
            final(c).wf(),
            match r {
                Ok(s) => {
                    &&& 1 <= bit_width <= 128
                    &&& !has_key(old(c).modules@[self.id as int].inputs@, name@)
                    &&& grew_signals_by_one(*final(c), *old(c), s)
                    &&& final(c).signals@[s.id as int].module == self.id
                    &&& final(c).signals@[s.id as int].width == bit_width
                    &&& final(c).signals@[s.id as int].data matches SignalData::Input { name: nm, bit_width: bw }
                        && nm@ == name@ && bw == bit_width
                    &&& modules_unchanged_except(*final(c), *old(c), self.id as int)
                    &&& pushed_entry(
                        final(c).modules@[self.id as int].inputs@,
                        old(c).modules@[self.id as int].inputs@,
                        name@,
                        s,
                    )
                    &&& final(c).modules@[self.id as int].outputs
                        == old(c).modules@[self.id as int].outputs
                    &&& final(c).modules@[self.id as int].registers
                        == old(c).modules@[self.id as int].registers
                    &&& final(c).modules@[self.id as int].instances
                        == old(c).modules@[self.id as int].instances
                    &&& final(c).modules@[self.id as int].mems
                        == old(c).modules@[self.id as int].mems
                    &&& final(c).instances == old(c).instances
                    &&& final(c).mems == old(c).mems
                },
                Err(Error::WidthOutOfRange { width }) => {
                    &&& width == bit_width as u64
                    &&& !(1 <= bit_width <= 128)
                    &&& *final(c) == *old(c)
                },
                Err(Error::DuplicateName { name: ref n }) => {
                    &&& 1 <= bit_width <= 128
                    &&& n@ == name@
                    &&& has_key(old(c).modules@[self.id as int].inputs@, name@)
                    &&& *final(c) == *old(c)
                },
                Err(_) => false,
            },
    {
        if bit_width < MIN_SIGNAL_BIT_WIDTH || bit_width > MAX_SIGNAL_BIT_WIDTH {
            return Err(Error::WidthOutOfRange { width: bit_width as u64 });
        }
        let key: String = name.to_owned();
        if table_has_key(&c.modules[self.id].inputs, &key) {
            return Err(Error::DuplicateName { name: key });
        }
        let ghost c0 = *c;
        let s = Signal { id: c.signals.len() };
        let key2 = key.clone();
        c.signals.push(
            SignalNode {
                module: self.id,
                width: bit_width,
                data: SignalData::Input { name: key, bit_width },
            },
        );
        c.modules[self.id].inputs.push((key2, s));
        proof {
            assert(c0.module_wf(self.id as int));
            let ghost jw = c0.modules@[self.id as int].inputs@.len() as int;
            assert(c.modules@[self.id as int].inputs@[jw].0@ == name@);
            assert(c.modules@[self.id as int].inputs@[jw].1 == s);
            lemma_keys_unique_push(
                c0.modules@[self.id as int].inputs@,
                c.modules@[self.id as int].inputs@,
                key2@,
                s,
            );
            assert(c.signal_wf(s.id as int));
            lemma_ctx_ext_preserves_wf(c0, *c);
        }
        Ok(s)
    }

    /// Binds `source` as an output of this module called `name`. The source
    /// must belong to this module and output names are unique within it.
    pub fn output(self, c: &mut Context, name: &str, source: Signal) -> (r: Result<(), Error>)
        requires
            old(c).wf(),
            self.id < old(c).modules.len(),
            old(c).sig_ok(source),
        ensures
            final(c).wf(),
            match r {
                Ok(()) => {
                    &&& old(c).sig_module(source) == self.id
                    &&& !has_key(old(c).modules@[self.id as int].outputs@, name@)
                    &&& final(c).signals == old(c).signals
                    &&& modules_unchanged_except(*final(c), *old(c), self.id as int)
                    &&& pushed_entry(
                        final(c).modules@[self.id as int].outputs@,
                        old(c).modules@[self.id as int].outputs@,
                        name@,
                        (Output { source }),
                    )
                    &&& final(c).modules@[self.id as int].inputs
                        == old(c).modules@[self.id as int].inputs
                    &&& final(c).modules@[self.id as int].registers
                        == old(c).modules@[self.id as int].registers
                    &&& final(c).modules@[self.id as int].instances
                        == old(c).modules@[self.id as int].instances
                    &&& final(c).modules@[self.id as int].mems
                        == old(c).modules@[self.id as int].mems
                    &&& final(c).instances == old(c).instances
                    &&& final(c).mems == old(c).mems
                },
                Err(Error::CrossModule) => {
                    &&& old(c).sig_module(source) != self.id
                    &&& *final(c) == *old(c)
                },
                Err(Error::DuplicateName { name: ref n }) => {
                    &&& old(c).sig_module(source) == self.id
                    &&& n@ == name@
                    &&& has_key(old(c).modules@[self.id as int].outputs@, name@)
                    &&& *final(c) == *old(c)
                },
                Err(_) => false,
            },
    {
        if c.signals[source.id].module != self.id {
            return Err(Error::CrossModule);
        }
        let key: String = name.to_owned();
        if table_has_key(&c.modules[self.id].outputs, &key) {
            return Err(Error::DuplicateName { name: key });
        }
        let ghost c0 = *c;
        c.modules[self.id].outputs.push((key, Output { source }));
        proof {
            assert(c0.module_wf(self.id as int));
            lemma_keys_unique_push(
                c0.modules@[self.id as int].outputs@,
                c.modules@[self.id as int].outputs@,
                name@,
                (Output { source }),
            );
            lemma_ctx_ext_preserves_wf(c0, *c);
        }
        Ok(())
    }

    /// Creates a register of this module called `name`, `bit_width` bits
    /// wide, optionally with an initial value for reset. Its next-value
    /// source starts unset and is supplied later through
    /// [`Register::drive_next_with`].
    pub fn reg(self, c: &mut Context, name: &str, bit_width: u32, initial_value: Option<Value>) -> (r:
        Result<Register, Error>)
        requires
            old(c).wf(),
            self.id < old(c).modules.len(),
        ensures
            final(c).wf(),
            match r {
                Ok(rg) => {
                    &&& 1 <= bit_width <= 128
                    &&& !has_key(old(c).modules@[self.id as int].registers@, name@)
                    &&& (initial_value matches Some(v) ==> in_width(v.spec_numeric(), bit_width))
                    &&& grew_signals_by_one(*final(c), *old(c), rg.value)
                    &&& final(c).signals@[rg.value.id as int].module == self.id
                    &&& final(c).signals@[rg.value.id as int].width == bit_width
                    &&& final(c).signals@[rg.value.id as int].data matches SignalData::Reg {
                        name: nm,
                        initial_value: iv,
                        bit_width: bw,
                        next,
                    } && nm@ == name@ && bw == bit_width && next is None && iv == (match initial_value {
                        Some(v) => Some(v.spec_numeric()),
                        None => None,
                    })
                    &&& modules_unchanged_except(*final(c), *old(c), self.id as int)
                    &&& pushed_entry(
                        final(c).modules@[self.id as int].registers@,
                        old(c).modules@[self.id as int].registers@,
                        name@,
                        rg,
                    )
                    &&& final(c).modules@[self.id as int].inputs
                        == old(c).modules@[self.id as int].inputs
                    &&& final(c).modules@[self.id as int].outputs
                        == old(c).modules@[self.id as int].outputs
                    &&& final(c).modules@[self.id as int].instances
                        == old(c).modules@[self.id as int].instances
                    &&& final(c).modules@[self.id as int].mems
                        == old(c).modules@[self.id as int].mems
                    &&& final(c).instances == old(c).instances
                    &&& final(c).mems == old(c).mems
                },
                Err(Error::WidthOutOfRange { width }) => {
                    &&& width == bit_width as u64
                    &&& !(1 <= bit_width <= 128)
                    &&& *final(c) == *old(c)
                },
                Err(Error::ValueTooWide { value: v, width }) => {
                    &&& 1 <= bit_width <= 128
                    &&& width == bit_width
                    &&& (initial_value matches Some(iv) && v == iv.spec_numeric() && !in_width(
                        iv.spec_numeric(),
                        bit_width,
                    ))
                    &&& *final(c) == *old(c)
                },
                Err(Error::DuplicateName { name: ref n }) => {
                    &&& 1 <= bit_width <= 128
                    &&& n@ == name@
                    &&& has_key(old(c).modules@[self.id as int].registers@, name@)
                    &&& *final(c) == *old(c)
                },
                Err(_) => false,
            },
    {
        if bit_width < MIN_SIGNAL_BIT_WIDTH || bit_width > MAX_SIGNAL_BIT_WIDTH {
            return Err(Error::WidthOutOfRange { width: bit_width as u64 });
        }
        let iv: Option<u128> = match initial_value {
            Some(v) => {
                let nv = v.numeric_value();
                let m = crate::value::mask_of(bit_width);
                if nv > m {
                    return Err(Error::ValueTooWide { value: nv, width: bit_width });
                }
                Some(nv)
            },
            None => None,
        };
        let key: String = name.to_owned();
        if table_has_key(&c.modules[self.id].registers, &key) {
            return Err(Error::DuplicateName { name: key });
        }
        let ghost c0 = *c;
        let rg = Register { value: Signal { id: c.signals.len() } };
        let key2 = key.clone();
        c.signals.push(
            SignalNode {
                module: self.id,
                width: bit_width,
                data: SignalData::Reg { name: key, initial_value: iv, bit_width, next: None },
            },
        );
        c.modules[self.id].registers.push((key2, rg));
        proof {
            assert(c0.module_wf(self.id as int));
            let ghost jw = c0.modules@[self.id as int].registers@.len() as int;
            assert(c.modules@[self.id as int].registers@[jw].0@ == name@);
            assert(c.modules@[self.id as int].registers@[jw].1 == rg);
            lemma_keys_unique_push(
                c0.modules@[self.id as int].registers@,
                c.modules@[self.id as int].registers@,
                key2@,
                rg,
            );
            assert(c.signal_wf(rg.value.id as int));
            lemma_ctx_ext_preserves_wf(c0, *c);
        }
        Ok(rg)
    }

    /// Creates a two-way multiplexer: `a` when `sel` is high, `b` when it is
    /// low. `a` and `b` must share a width and all three signals must belong
    /// to this module; `sel` must be a single bit.
    pub fn mux(self, c: &mut Context, a: Signal, b: Signal, sel: Signal) -> (r: Result<
        Signal,
        Error,
    >)
        requires
            old(c).wf(),
            self.id < old(c).modules.len(),
            old(c).sig_ok(a),
            old(c).sig_ok(b),
            old(c).sig_ok(sel),
        ensures
            final(c).wf(),
            match r {
                Ok(s) => {
                    &&& old(c).sig_module(a) == self.id
                    &&& old(c).sig_module(b) == self.id
                    &&& old(c).sig_module(sel) == self.id
                    &&& old(c).sig_width(a) == old(c).sig_width(b)
                    &&& old(c).sig_width(sel) == 1
                    &&& added_signal(*final(c), *old(c), (SignalNode {
                        module: self.id,
                        width: old(c).sig_width(a),
                        data: (SignalData::Mux { a, b, sel }),
                    }), s)
                },
                Err(Error::CrossModule) => {
                    &&& !(old(c).sig_module(a) == self.id && old(c).sig_module(b) == self.id
                        && old(c).sig_module(sel) == self.id)
                    &&& *final(c) == *old(c)
                },
                Err(Error::WidthMismatch { lhs_width, rhs_width }) => {
                    &&& old(c).sig_module(a) == self.id
                    &&& old(c).sig_module(b) == self.id
                    &&& old(c).sig_module(sel) == self.id
                    &&& (old(c).sig_width(a) != old(c).sig_width(b) && lhs_width == old(c).sig_width(
                        a,
                    ) && rhs_width == old(c).sig_width(b)) || (old(c).sig_width(a) == old(c).sig_width(b) && old(c).sig_width(sel) != 1 && lhs_width == old(c).sig_width(
                        sel,
                    ) && rhs_width == 1)
                    &&& *final(c) == *old(c)
                },
                Err(_) => false,
            },
    {
        if c.signals[a.id].module != self.id || c.signals[b.id].module != self.id
            || c.signals[sel.id].module != self.id {
            return Err(Error::CrossModule);
        }
        let wa = c.signals[a.id].width;
        let wb = c.signals[b.id].width;
        if wa != wb {
            return Err(Error::WidthMismatch { lhs_width: wa, rhs_width: wb });
        }
        let wsel = c.signals[sel.id].width;
        if wsel != 1 {
            return Err(Error::WidthMismatch { lhs_width: wsel, rhs_width: 1 });
        }
        let ghost c0 = *c;
        let s = Signal { id: c.signals.len() };
        proof {
            assert(c0.signal_wf(a.id as int));
        }
        c.signals.push(SignalNode { module: self.id, width: wa, data: SignalData::Mux { a, b, sel } });
        proof {
            lemma_ctx_ext_preserves_wf(c0, *c);
        }
        Ok(s)
    }
}

/// The outcome of a binary-operator constructor: on success one node was
/// appended whose width follows the operator kind; the errors say exactly
/// which check failed.
pub open spec fn binop_post(pre: Context, post: Context, lhs: Signal, rhs: Signal, op: BinOp, r:
    Result<Signal, Error>) -> bool {
    match r {
        Ok(s) => {
            &&& pre.sig_module(lhs) == pre.sig_module(rhs)
            &&& pre.sig_width(lhs) == pre.sig_width(rhs)
            &&& added_signal(post, pre, (SignalNode {
                module: pre.sig_module(lhs),
                width: if op.spec_is_comparison() {
                    1u32
                } else {
                    pre.sig_width(lhs)
                },
                data: (SignalData::BinOp { op, lhs, rhs }),
            }), s)
        },
        Err(Error::CrossModule) => {
            &&& pre.sig_module(lhs) != pre.sig_module(rhs)
            &&& post == pre
        },
        Err(Error::WidthMismatch { lhs_width, rhs_width }) => {
            &&& pre.sig_module(lhs) == pre.sig_module(rhs)
            &&& pre.sig_width(lhs) != pre.sig_width(rhs)
            &&& lhs_width == pre.sig_width(lhs)
            &&& rhs_width == pre.sig_width(rhs)
            &&& post == pre
        },
        Err(_) => false,
    }
}

impl Signal {
    /// The bit width of this signal; cached on its node, so O(1).
    pub fn bit_width(self, c: &Context) -> (r: u32)
        requires
            c.sig_ok(self),
        ensures
            r == c.sig_width(self),
    {
        c.signals[self.id].width
    }

    /// Builds the node for a binary operator over `self` and `rhs`, which
    /// must share a module and a bit width.
    pub fn binop(self, c: &mut Context, rhs: Signal, op: BinOp) -> (r: Result<Signal, Error>)
        requires
            old(c).wf(),
            old(c).sig_ok(self),
            old(c).sig_ok(rhs),
        ensures
            final(c).wf(),
            binop_post(*old(c), *final(c), self, rhs, op, r),
    {
        if c.signals[self.id].module != c.signals[rhs.id].module {
            return Err(Error::CrossModule);
        }
        let wl = c.signals[self.id].width;
        let wr = c.signals[rhs.id].width;
        if wl != wr {
            return Err(Error::WidthMismatch { lhs_width: wl, rhs_width: wr });
        }
        let ghost c0 = *c;
        let s = Signal { id: c.signals.len() };
        let width: u32 = if op.is_comparison() {
            1
        } else {
            wl
        };
        let module = c.signals[self.id].module;
        proof {
            assert(c0.signal_wf(self.id as int));
        }
        c.signals.push(SignalNode { module, width, data: SignalData::BinOp { op, lhs: self, rhs } });
        proof {
            lemma_ctx_ext_preserves_wf(c0, *c);
        }
        Ok(s)
    }

    /// Bitwise and of two signals of one module and width.
    pub fn bitand(self, c: &mut Context, rhs: Signal) -> (r: Result<Signal, Error>)
        requires
            old(c).wf(),
            old(c).sig_ok(self),
            old(c).sig_ok(rhs),
        ensures
            final(c).wf(),
            binop_post(*old(c), *final(c), self, rhs, BinOp::BitAnd, r),
    {
        self.binop(c, rhs, BinOp::BitAnd)
    }

    /// Bitwise or of two signals of one module and width.
    pub fn bitor(self, c: &mut Context, rhs: Signal) -> (r: Result<Signal, Error>)
        requires
            old(c).wf(),
            old(c).sig_ok(self),
            old(c).sig_ok(rhs),
        ensures
            final(c).wf(),
            binop_post(*old(c), *final(c), self, rhs, BinOp::BitOr, r),
    {
        self.binop(c, rhs, BinOp::BitOr)
    }

    /// Bitwise exclusive or of two signals of one module and width.
    pub fn bitxor(self, c: &mut Context, rhs: Signal) -> (r: Result<Signal, Error>)
        requires
            old(c).wf(),
            old(c).sig_ok(self),
            old(c).sig_ok(rhs),
        ensures
            final(c).wf(),
            binop_post(*old(c), *final(c), self, rhs, BinOp::BitXor, r),
    {
        self.binop(c, rhs, BinOp::BitXor)
    }

    /// Addition wrapping at the operand width.
    pub fn add(self, c: &mut Context, rhs: Signal) -> (r: Result<Signal, Error>)
        requires
            old(c).wf(),
            old(c).sig_ok(self),
            old(c).sig_ok(rhs),
        ensures
            final(c).wf(),
            binop_post(*old(c), *final(c), self, rhs, BinOp::Add, r),
    {
        self.binop(c, rhs, BinOp::Add)
    }

    /// Unsigned equality, one bit.
    pub fn eq(self, c: &mut Context, rhs: Signal) -> (r: Result<Signal, Error>)
        requires
            old(c).wf(),
            old(c).sig_ok(self),
            old(c).sig_ok(rhs),
        ensures
            final(c).wf(),
            binop_post(*old(c), *final(c), self, rhs, BinOp::Eq, r),
    {
        self.binop(c, rhs, BinOp::Eq)
    }

    /// Unsigned inequality, one bit.
    pub fn ne(self, c: &mut Context, rhs: Signal) -> (r: Result<Signal, Error>)
        requires
            old(c).wf(),
            old(c).sig_ok(self),
            old(c).sig_ok(rhs),
        ensures
            final(c).wf(),
            binop_post(*old(c), *final(c), self, rhs, BinOp::Ne, r),
    {
        self.binop(c, rhs, BinOp::Ne)
    }

    /// Unsigned less-than, one bit.
    pub fn lt(self, c: &mut Context, rhs: Signal) -> (r: Result<Signal, Error>)
        requires
            old(c).wf(),
            old(c).sig_ok(self),
            old(c).sig_ok(rhs),
        ensures
            final(c).wf(),
            binop_post(*old(c), *final(c), self, rhs, BinOp::Lt, r),
    {
        self.binop(c, rhs, BinOp::Lt)
    }

    /// Unsigned at-most, one bit.
    pub fn le(self, c: &mut Context, rhs: Signal) -> (r: Result<Signal, Error>)
        requires
            old(c).wf(),
            old(c).sig_ok(self),
            old(c).sig_ok(rhs),
        ensures
            final(c).wf(),
            binop_post(*old(c), *final(c), self, rhs, BinOp::Le, r),
    {
        self.binop(c, rhs, BinOp::Le)
    }

    /// Unsigned greater-than, one bit.
    pub fn gt(self, c: &mut Context, rhs: Signal) -> (r: Result<Signal, Error>)
        requires
            old(c).wf(),
            old(c).sig_ok(self),
            old(c).sig_ok(rhs),
        ensures
            final(c).wf(),
            binop_post(*old(c), *final(c), self, rhs, BinOp::Gt, r),
    {
        self.binop(c, rhs, BinOp::Gt)
    }

    /// Unsigned at-least, one bit.
    pub fn ge(self, c: &mut Context, rhs: Signal) -> (r: Result<Signal, Error>)
        requires
            old(c).wf(),
            old(c).sig_ok(self),
            old(c).sig_ok(rhs),
        ensures
            final(c).wf(),
            binop_post(*old(c), *final(c), self, rhs, BinOp::Ge, r),
    {
        self.binop(c, rhs, BinOp::Ge)
    }

    /// Two's-complement less-than, one bit.
    pub fn lt_signed(self, c: &mut Context, rhs: Signal) -> (r: Result<Signal, Error>)
        requires
            old(c).wf(),
            old(c).sig_ok(self),
            old(c).sig_ok(rhs),
        ensures
            final(c).wf(),
            binop_post(*old(c), *final(c), self, rhs, BinOp::LtSigned, r),
    {
        self.binop(c, rhs, BinOp::LtSigned)
    }

    /// Two's-complement at-most, one bit.
    pub fn le_signed(self, c: &mut Context, rhs: Signal) -> (r: Result<Signal, Error>)
        requires
            old(c).wf(),
            old(c).sig_ok(self),
            old(c).sig_ok(rhs),
        ensures
            final(c).wf(),
            binop_post(*old(c), *final(c), self, rhs, BinOp::LeSigned, r),
    {
        self.binop(c, rhs, BinOp::LeSigned)
    }

    /// Two's-complement greater-than, one bit.
    pub fn gt_signed(self, c: &mut Context, rhs: Signal) -> (r: Result<Signal, Error>)
        requires
            old(c).wf(),
            old(c).sig_ok(self),
            old(c).sig_ok(rhs),
        ensures
            final(c).wf(),
            binop_post(*old(c), *final(c), self, rhs, BinOp::GtSigned, r),
    {
        self.binop(c, rhs, BinOp::GtSigned)
    }

    /// Two's-complement at-least, one bit.
    pub fn ge_signed(self, c: &mut Context, rhs: Signal) -> (r: Result<Signal, Error>)
        requires
            old(c).wf(),
            old(c).sig_ok(self),
            old(c).sig_ok(rhs),
        ensures
            final(c).wf(),
            binop_post(*old(c), *final(c), self, rhs, BinOp::GeSigned, r),
    {
        self.binop(c, rhs, BinOp::GeSigned)
    }

    /// Bitwise complement of this signal's declared bits.
    pub fn not(self, c: &mut Context) -> (r: Signal)
        requires
            old(c).wf(),
            old(c).sig_ok(self),
        ensures
            final(c).wf(),
            added_signal(*final(c), *old(c), (SignalNode {
                module: old(c).sig_module(self),
                width: old(c).sig_width(self),
                data: (SignalData::UnOp { op: UnOp::Not, source: self }),
            }), r),
    {
        let ghost c0 = *c;
        let s = Signal { id: c.signals.len() };
        let module = c.signals[self.id].module;
        let width = c.signals[self.id].width;
        proof {
            assert(c0.signal_wf(self.id as int));
        }
        c.signals.push(
            SignalNode { module, width, data: SignalData::UnOp { op: UnOp::Not, source: self } },
        );
        proof {
            lemma_ctx_ext_preserves_wf(c0, *c);
        }
        s
    }

    /// The single bit of this signal at `index`, counted from the least
    /// significant end.
    pub fn bit(self, c: &mut Context, index: u32) -> (r: Result<Signal, Error>)
        requires
            old(c).wf(),
            old(c).sig_ok(self),
        ensures
            final(c).wf(),
            match r {
                Ok(s) => {
                    &&& index < old(c).sig_width(self)
                    &&& added_signal(*final(c), *old(c), (SignalNode {
                        module: old(c).sig_module(self),
                        width: 1,
                        data: (SignalData::Bit { source: self, index }),
                    }), s)
                },
                Err(Error::IndexOutOfRange { index: i, width }) => {
                    &&& i == index
                    &&& width == old(c).sig_width(self)
                    &&& index >= old(c).sig_width(self)
                    &&& *final(c) == *old(c)
                },
                Err(_) => false,
            },
    {
        let w = c.signals[self.id].width;
        if index >= w {
            return Err(Error::IndexOutOfRange { index, width: w });
        }
        let ghost c0 = *c;
        let s = Signal { id: c.signals.len() };
        let module = c.signals[self.id].module;
        proof {
            assert(c0.signal_wf(self.id as int));
        }
        c.signals.push(
            SignalNode { module, width: 1, data: SignalData::Bit { source: self, index } },
        );
        proof {
            lemma_ctx_ext_preserves_wf(c0, *c);
        }
        Ok(s)
    }

    /// The contiguous bits of this signal from `range_high` down to
    /// `range_low`, both inclusive.
    pub fn bits(self, c: &mut Context, range_high: u32, range_low: u32) -> (r: Result<
        Signal,
        Error,
    >)
        requires
            old(c).wf(),
            old(c).sig_ok(self),
        ensures
            final(c).wf(),
            match r {
                Ok(s) => {
                    &&& range_low <= range_high < old(c).sig_width(self)
                    &&& added_signal(*final(c), *old(c), (SignalNode {
                        module: old(c).sig_module(self),
                        width: (range_high - range_low + 1) as u32,
                        data: (SignalData::Bits { source: self, range_high, range_low }),
                    }), s)
                },
                Err(Error::IndexOutOfRange { index, width }) => {
                    &&& width == old(c).sig_width(self)
                    &&& (index == range_low && range_low >= old(c).sig_width(self)) || (index
                        == range_high && range_low < old(c).sig_width(self) && range_high >= old(c).sig_width(self)) || (index == range_low && range_high < old(c).sig_width(self)
                        && range_low > range_high)
                    &&& !(range_low <= range_high < old(c).sig_width(self))
                    &&& *final(c) == *old(c)
                },
                Err(_) => false,
            },
    {
        let w = c.signals[self.id].width;
        if range_low >= w {
            return Err(Error::IndexOutOfRange { index: range_low, width: w });
        }
        if range_high >= w {
            return Err(Error::IndexOutOfRange { index: range_high, width: w });
        }
        if range_low > range_high {
            return Err(Error::IndexOutOfRange { index: range_low, width: w });
        }
        let ghost c0 = *c;
        let s = Signal { id: c.signals.len() };
        let module = c.signals[self.id].module;
        proof {
            assert(c0.signal_wf(self.id as int));
        }
        c.signals.push(
            SignalNode {
                module,
                width: range_high - range_low + 1,
                data: SignalData::Bits { source: self, range_high, range_low },
            },
        );
        proof {
            lemma_ctx_ext_preserves_wf(c0, *c);
        }
        Ok(s)
    }

    /// This signal repeated `count` times, copies stacked upward. The
    /// resulting width must stay within `[1, 128]`.
    pub fn repeat(self, c: &mut Context, count: u32) -> (r: Result<Signal, Error>)
        requires
            old(c).wf(),
            old(c).sig_ok(self),
        ensures
            final(c).wf(),
            match r {
                Ok(s) => {
                    &&& 1 <= old(c).sig_width(self) * count <= 128
                    &&& added_signal(*final(c), *old(c), (SignalNode {
                        module: old(c).sig_module(self),
                        width: (old(c).sig_width(self) * count) as u32,
                        data: (SignalData::Repeat { source: self, count }),
                    }), s)
                },
                Err(Error::WidthOutOfRange { width }) => {
                    &&& width == old(c).sig_width(self) as u64 * count as u64
                    &&& !(1 <= old(c).sig_width(self) * count <= 128)
                    &&& *final(c) == *old(c)
                },
                Err(_) => false,
            },
    {
        let w = c.signals[self.id].width;
        proof {
            vstd::arithmetic::mul::lemma_mul_upper_bound(
                w as int,
                u32::MAX as int,
                count as int,
                u32::MAX as int,
            );
        }
        let target: u64 = (w as u64) * (count as u64);
        if target < MIN_SIGNAL_BIT_WIDTH as u64 || target > MAX_SIGNAL_BIT_WIDTH as u64 {
            return Err(Error::WidthOutOfRange { width: target });
        }
        let ghost c0 = *c;
        let s = Signal { id: c.signals.len() };
        let module = c.signals[self.id].module;
        proof {
            assert(c0.signal_wf(self.id as int));
            assert((w as int) * (count as int) == target as int);
        }
        c.signals.push(
            SignalNode {
                module,
                width: w * count,
                data: SignalData::Repeat { source: self, count },
            },
        );
        proof {
            lemma_ctx_ext_preserves_wf(c0, *c);
        }
        Ok(s)
    }

    /// This signal concatenated above `rhs`: `self` supplies the most
    /// significant bits. The combined width must not exceed 128.
    pub fn concat(self, c: &mut Context, rhs: Signal) -> (r: Result<Signal, Error>)
        requires
            old(c).wf(),
            old(c).sig_ok(self),
            old(c).sig_ok(rhs),
        ensures
            final(c).wf(),
            match r {
                Ok(s) => {
                    &&& old(c).sig_module(self) == old(c).sig_module(rhs)
                    &&& old(c).sig_width(self) + old(c).sig_width(rhs) <= 128
                    &&& added_signal(*final(c), *old(c), (SignalNode {
                        module: old(c).sig_module(self),
                        width: (old(c).sig_width(self) + old(c).sig_width(rhs)) as u32,
                        data: (SignalData::Concat { lhs: self, rhs }),
                    }), s)
                },
                Err(Error::CrossModule) => {
                    &&& old(c).sig_module(self) != old(c).sig_module(rhs)
                    &&& *final(c) == *old(c)
                },
                Err(Error::WidthOutOfRange { width }) => {
                    &&& old(c).sig_module(self) == old(c).sig_module(rhs)
                    &&& width == old(c).sig_width(self) as u64 + old(c).sig_width(rhs) as u64
                    &&& old(c).sig_width(self) + old(c).sig_width(rhs) > 128
                    &&& *final(c) == *old(c)
                },
                Err(_) => false,
            },
    {
        if c.signals[self.id].module != c.signals[rhs.id].module {
            return Err(Error::CrossModule);
        }
        let wl = c.signals[self.id].width;
        let wr = c.signals[rhs.id].width;
        let target: u64 = (wl as u64) + (wr as u64);
        if target > MAX_SIGNAL_BIT_WIDTH as u64 {
            return Err(Error::WidthOutOfRange { width: target });
        }
        let ghost c0 = *c;
        let s = Signal { id: c.signals.len() };
        let module = c.signals[self.id].module;
        proof {
            assert(c0.signal_wf(self.id as int));
            assert(c0.signal_wf(rhs.id as int));
        }
        c.signals.push(
            SignalNode { module, width: wl + wr, data: SignalData::Concat { lhs: self, rhs } },
        );
        proof {
            lemma_ctx_ext_preserves_wf(c0, *c);
        }
        Ok(s)
    }

    /// `self` when `sel` is high, `b` when it is low; a convenience form of
    /// [`Module::mux`].
    pub fn mux(self, c: &mut Context, b: Signal, sel: Signal) -> (r: Result<Signal, Error>)
        requires
            old(c).wf(),
            old(c).sig_ok(self),
            old(c).sig_ok(b),
            old(c).sig_ok(sel),
        ensures
            final(c).wf(),
            match r {
                Ok(s) => {
                    &&& old(c).sig_module(b) == old(c).sig_module(self)
                    &&& old(c).sig_module(sel) == old(c).sig_module(self)
                    &&& old(c).sig_width(self) == old(c).sig_width(b)
                    &&& old(c).sig_width(sel) == 1
                    &&& added_signal(*final(c), *old(c), (SignalNode {
                        module: old(c).sig_module(self),
                        width: old(c).sig_width(self),
                        data: (SignalData::Mux { a: self, b, sel }),
                    }), s)
                },
                Err(Error::CrossModule) => {
                    &&& !(old(c).sig_module(b) == old(c).sig_module(self) && old(c).sig_module(sel)
                        == old(c).sig_module(self))
                    &&& *final(c) == *old(c)
                },
                Err(Error::WidthMismatch { lhs_width, rhs_width }) => {
                    &&& old(c).sig_module(b) == old(c).sig_module(self)
                    &&& old(c).sig_module(sel) == old(c).sig_module(self)
                    &&& (old(c).sig_width(self) != old(c).sig_width(b) && lhs_width == old(
                        c,
                    ).sig_width(self) && rhs_width == old(c).sig_width(b)) || (old(c).sig_width(
                        self,
                    ) == old(c).sig_width(b) && old(c).sig_width(sel) != 1 && lhs_width == old(
                        c,
                    ).sig_width(sel) && rhs_width == 1)
                    &&& *final(c) == *old(c)
                },
                Err(_) => false,
            },
    {
        proof {
            assert(c.signal_wf(self.id as int));
        }
        let m = Module { id: c.signals[self.id].module };
        m.mux(c, self, b, sel)
    }
}

impl Register {
    /// The signal that carries this register's current value.
    pub fn value(&self) -> (r: Signal)
        ensures
            r == self.value,
    {
        self.value
    }
}

/// The index of the module named `key`, if any.
pub(crate) fn find_module(c: &Context, key: &String) -> (r: Option<usize>)
    ensures
        match r {
            Some(i) => i < c.modules@.len() && c.modules@[i as int].name@ == key@,
            None => !(exists|i: int| 0 <= i < c.modules@.len() && c.modules@[i].name@ == key@),
        },
{
    let n = c.modules.len();
    let mut i: usize = 0;
    while i < n
        invariant
            n == c.modules.len(),
            forall|j: int| 0 <= j < i ==> c.modules@[j].name@ != key@,
        decreases n - i,
    {
        if c.modules[i].name == *key {
            return Some(i);
        }
        i = i + 1;
    }
    None
}

/// Setting a register's pending `next` source keeps a context well-formed;
/// nothing else about the node or the context may change.
proof fn lemma_set_reg_next_preserves_wf(c0: Context, c1: Context, rid: int)
    requires
        c0.wf(),
        0 <= rid < c0.signals@.len(),
        c1.modules == c0.modules,
        c1.instances == c0.instances,
        c1.mems == c0.mems,
        c1.signals@.len() == c0.signals@.len(),
        forall|i: int| 0 <= i < c0.signals@.len() && i != rid ==> c1.signals@[i] == c0.signals@[i],
        c1.signals@[rid].module == c0.signals@[rid].module,
        c1.signals@[rid].width == c0.signals@[rid].width,
        match (c0.signals@[rid].data, c1.signals@[rid].data) {
            (SignalData::Reg { name: n0, .. }, SignalData::Reg { name: n1, .. }) => n1@ == n0@,
            _ => false,
        },
        c1.signal_wf(rid),
    ensures
        c1.wf(),
{
    assert forall|sid: int| 0 <= sid < c0.signals@.len() implies c1.signals@[sid].module
        == c0.signals@[sid].module && c1.signals@[sid].width == c0.signals@[sid].width by {
        if sid != rid {
            assert(c1.signals@[sid] == c0.signals@[sid]);
        }
    }
    assert forall|i: int| 0 <= i < c1.signals.len() implies c1.signal_wf(i) by {
        if i != rid {
            assert(c0.signal_wf(i));
            assert(c1.signals@[i] == c0.signals@[i]);
            let n = c0.signals[i];
            match n.data {
                SignalData::Input { name, bit_width } => {
                    let j = choose|j: int|
                        0 <= j < c0.modules[n.module as int].inputs.len()
                            && c0.modules[n.module as int].inputs[j].0@ == name@
                            && c0.modules[n.module as int].inputs[j].1 == (Signal {
                            id: i as usize,
                        });
                    assert(0 <= j < c1.modules[n.module as int].inputs.len()
                        && c1.modules[n.module as int].inputs[j].0@ == name@
                        && c1.modules[n.module as int].inputs[j].1 == (Signal { id: i as usize }));
                },
                SignalData::Reg { name, initial_value, bit_width, next } => {
                    let j = choose|j: int|
                        0 <= j < c0.modules[n.module as int].registers.len()
                            && c0.modules[n.module as int].registers[j].0@ == name@
                            && c0.modules[n.module as int].registers[j].1 == (Register {
                            value: Signal { id: i as usize },
                        });
                    assert(0 <= j < c1.modules[n.module as int].registers.len()
                        && c1.modules[n.module as int].registers[j].0@ == name@
                        && c1.modules[n.module as int].registers[j].1 == (Register {
                        value: Signal { id: i as usize },
                    }));
                },
                SignalData::InstanceOutput { instance, name } => {
                    assert(c0.instance_wf(instance.id as int));
                    let im = c0.instances[instance.id as int].instantiated as int;
                    let j = choose|j: int|
                        0 <= j < c0.modules[im].outputs.len() && (
                        #[trigger] c0.modules[im].outputs[j]).0@ == name@ && c0.sig_ok(
                            c0.modules[im].outputs[j].1.source,
                        ) && c0.sig_width(c0.modules[im].outputs[j].1.source) == n.width;
                    assert(0 <= j < c1.modules[im].outputs.len() && c1.modules[im].outputs[j].0@
                        == name@ && c1.sig_ok(c1.modules[im].outputs[j].1.source) && c1.sig_width(
                        c1.modules[im].outputs[j].1.source,
                    ) == n.width);
                },
                _ => {},
            }
        }
    }
    assert forall|m: int| 0 <= m < c1.modules.len() implies c1.module_wf(m) by {
        assert(c0.module_wf(m));
        let md = c1.modules[m];
        assert forall|j: int| 0 <= j < md.inputs.len() implies #[trigger] c1.input_entry_ok(
            m,
            j,
        ) by {
            assert(c0.input_entry_ok(m, j));
            let s = md.inputs[j].1;
            if s.id as int == rid {
                assert(false);
            }
        }
        assert forall|j: int| 0 <= j < md.outputs.len() implies #[trigger] c1.output_entry_ok(
            m,
            j,
        ) by {
            assert(c0.output_entry_ok(m, j));
        }
        assert forall|j: int| 0 <= j < md.registers.len() implies #[trigger] c1.register_entry_ok(
            m,
            j,
        ) by {
            assert(c0.register_entry_ok(m, j));
        }
        assert forall|j: int| 0 <= j < md.instances.len() implies #[trigger] c1.instance_entry_ok(
            m,
            j,
        ) by {
            assert(c0.instance_entry_ok(m, j));
        }
        assert forall|j: int| 0 <= j < md.mems.len() implies #[trigger] c1.mem_entry_ok(m, j) by {
            assert(c0.mem_entry_ok(m, j));
        }
    }
    assert forall|k: int| 0 <= k < c1.instances.len() implies c1.instance_wf(k) by {
        assert(c0.instance_wf(k));
        let ins = c0.instances[k];
        assert forall|j: int| 0 <= j < c1.instances[k].driven_inputs.len() implies
            #[trigger] c1.driven_input_ok(k, j) by {
            assert(c0.driven_input_ok(k, j));
            let s = ins.driven_inputs[j].1;
            let nm = ins.driven_inputs[j].0;
            let l = choose|l: int|
                0 <= l < c0.modules[ins.instantiated as int].inputs.len() && (
                #[trigger] c0.modules[ins.instantiated as int].inputs[l]).0@ == nm@ && c0.sig_ok(
                    c0.modules[ins.instantiated as int].inputs[l].1,
                ) && c0.sig_width(c0.modules[ins.instantiated as int].inputs[l].1) == c0.sig_width(
                    s,
                );
            assert(0 <= l < c1.modules[ins.instantiated as int].inputs.len()
                && c1.modules[ins.instantiated as int].inputs[l].0@ == nm@ && c1.sig_ok(
                c1.modules[ins.instantiated as int].inputs[l].1,
            ) && c1.sig_width(c1.modules[ins.instantiated as int].inputs[l].1) == c1.sig_width(s));
        }
    }
    assert forall|k: int| 0 <= k < c1.mems.len() implies c1.mem_wf(k) by {
        assert(c0.mem_wf(k));
        assert forall|j: int| 0 <= j < c1.mems[k].read_ports.len() implies #[trigger] c1.read_port_ok(
            k,
            j,
        ) by {
            assert(c0.read_port_ok(k, j));
        }
    }
}

impl Register {
    /// Records `n` as this register's next-cycle source. The register must
    /// not be driven yet, and `n` must belong to the register's module and
    /// share its width.
    pub fn drive_next_with(&self, c: &mut Context, n: Signal) -> (r: Result<(), Error>)
        requires
            old(c).wf(),
            old(c).sig_ok(self.value),
            old(c).sig_ok(n),
            old(c).signals@[self.value.id as int].data matches SignalData::Reg { .. },
        ensures
            final(c).wf(),
            match r {
                Ok(()) => {
                    &&& (old(c).signals@[self.value.id as int].data matches SignalData::Reg {
                        next,
                        ..
                    } && next is None)
                    &&& old(c).sig_module(n) == old(c).sig_module(self.value)
                    &&& old(c).sig_width(n) == old(c).sig_width(self.value)
                    &&& final(c).signals@.len() == old(c).signals@.len()
                    &&& (forall|i: int|
                        0 <= i < old(c).signals@.len() && i != self.value.id ==> final(c).signals@[i] == old(c).signals@[i])
                    &&& final(c).signals@[self.value.id as int].module == old(c).signals@[self.value.id as int].module
                    &&& final(c).signals@[self.value.id as int].width == old(c).signals@[self.value.id as int].width
                    &&& match (
                        old(c).signals@[self.value.id as int].data,
                        final(c).signals@[self.value.id as int].data,
                    ) {
                        (
                            SignalData::Reg { name: n0, initial_value: v0, bit_width: b0, .. },
                            SignalData::Reg {
                                name: n1,
                                initial_value: v1,
                                bit_width: b1,
                                next: nx,
                            },
                        ) => n1@ == n0@ && v1 == v0 && b1 == b0 && nx == Some(n),
                        _ => false,
                    }
                    &&& final(c).modules == old(c).modules
                    &&& final(c).instances == old(c).instances
                    &&& final(c).mems == old(c).mems
                },
                Err(Error::AlreadyDriven { name: ref nm }) => {
                    &&& (old(c).signals@[self.value.id as int].data matches SignalData::Reg {
                        next,
                        name,
                        ..
                    } && next is Some && nm@ == name@)
                    &&& *final(c) == *old(c)
                },
                Err(Error::CrossModule) => {
                    &&& old(c).sig_module(n) != old(c).sig_module(self.value)
                    &&& *final(c) == *old(c)
                },
                Err(Error::WidthMismatch { lhs_width, rhs_width }) => {
                    &&& old(c).sig_module(n) == old(c).sig_module(self.value)
                    &&& old(c).sig_width(n) != old(c).sig_width(self.value)
                    &&& lhs_width == old(c).sig_width(n)
                    &&& rhs_width == old(c).sig_width(self.value)
                    &&& *final(c) == *old(c)
                },
                Err(_) => false,
            },
    {
        let rid = self.value.id;
        let already: bool;
        let reg_name: String;
        let reg_iv: Option<u128>;
        let reg_bw: u32;
        match &c.signals[rid].data {
            SignalData::Reg { name, initial_value, bit_width, next } => {
                already = next.is_some();
                reg_name = name.clone();
                reg_iv = *initial_value;
                reg_bw = *bit_width;
            },
            _ => {
                proof {
                    assert(false);
                }
                return Err(Error::CrossModule);
            },
        }
        if already {
            return Err(Error::AlreadyDriven { name: reg_name });
        }
        if c.signals[n.id].module != c.signals[rid].module {
            return Err(Error::CrossModule);
        }
        let wn = c.signals[n.id].width;
        let wr = c.signals[rid].width;
        if wn != wr {
            return Err(Error::WidthMismatch { lhs_width: wn, rhs_width: wr });
        }
        let ghost c0 = *c;
        proof {
            assert(c0.signal_wf(rid as int));
        }
        c.signals[rid].data = SignalData::Reg {
            name: reg_name,
            initial_value: reg_iv,
            bit_width: reg_bw,
            next: Some(n),
        };
        proof {
            let md = c0.signals@[rid as int].module as int;
            let jw = choose|j: int|
                0 <= j < c0.modules[md].registers.len() && c0.modules[md].registers[j].0@
                    == c0.signals@[rid as int].data->Reg_name@ && c0.modules[md].registers[j].1
                    == (Register { value: Signal { id: rid } });
            assert(0 <= jw < c.modules[md].registers.len() && c.modules[md].registers[jw].0@
                == c.signals@[rid as int].data->Reg_name@ && c.modules[md].registers[jw].1
                == (Register { value: Signal { id: rid } }));
            assert(c.signal_wf(rid as int));
            lemma_set_reg_next_preserves_wf(c0, *c, rid as int);
        }
        Ok(())
    }
}

impl Module {
    /// Instantiates the module called `module_name` inside this module under
    /// the instance name `name`.
    pub fn instance(self, c: &mut Context, name: &str, module_name: &str) -> (r: Result<
        Instance,
        Error,
    >)
        requires
            old(c).wf(),
            self.id < old(c).modules.len(),
        ensures
            final(c).wf(),
            match r {
                Ok(ins) => {
                    &&& (exists|i: int|
                        0 <= i < old(c).modules@.len() && old(c).modules@[i].name@ == module_name@)
                    &&& !has_key(old(c).modules@[self.id as int].instances@, name@)
                    &&& ins.id == old(c).instances@.len()
                    &&& final(c).instances@.len() == old(c).instances@.len() + 1
                    &&& (forall|i: int|
                        0 <= i < old(c).instances@.len() ==> final(c).instances@[i] == old(c).instances@[i])
                    &&& final(c).instances@[ins.id as int].name@ == name@
                    &&& final(c).instances@[ins.id as int].parent == self.id
                    &&& final(c).instances@[ins.id as int].instantiated < old(c).modules@.len()
                    &&& old(c).modules@[final(c).instances@[ins.id as int].instantiated as int].name@
                        == module_name@
                    &&& final(c).instances@[ins.id as int].driven_inputs@.len() == 0
                    &&& modules_unchanged_except(*final(c), *old(c), self.id as int)
                    &&& pushed_entry(
                        final(c).modules@[self.id as int].instances@,
                        old(c).modules@[self.id as int].instances@,
                        name@,
                        ins,
                    )
                    &&& final(c).modules@[self.id as int].inputs
                        == old(c).modules@[self.id as int].inputs
                    &&& final(c).modules@[self.id as int].outputs
                        == old(c).modules@[self.id as int].outputs
                    &&& final(c).modules@[self.id as int].registers
                        == old(c).modules@[self.id as int].registers
                    &&& final(c).modules@[self.id as int].mems
                        == old(c).modules@[self.id as int].mems
                    &&& final(c).signals == old(c).signals
                    &&& final(c).mems == old(c).mems
                },
                Err(Error::UnknownName { name: ref nm }) => {
                    &&& nm@ == module_name@
                    &&& !(exists|i: int|
                        0 <= i < old(c).modules@.len() && old(c).modules@[i].name@ == module_name@)
                    &&& *final(c) == *old(c)
                },
                Err(Error::DuplicateName { name: ref nm }) => {
                    &&& nm@ == name@
                    &&& has_key(old(c).modules@[self.id as int].instances@, name@)
                    &&& *final(c) == *old(c)
                },
                Err(_) => false,
            },
    {
        let target_key: String = module_name.to_owned();
        let target: usize = match find_module(c, &target_key) {
            Some(i) => i,
            None => {
                return Err(Error::UnknownName { name: target_key });
            },
        };
        let key: String = name.to_owned();
        if table_has_key(&c.modules[self.id].instances, &key) {
            return Err(Error::DuplicateName { name: key });
        }
        let ghost c0 = *c;
        let ins = Instance { id: c.instances.len() };
        let key2 = key.clone();
        c.instances.push(
            InstanceNode {
                name: key,
                parent: self.id,
                instantiated: target,
                driven_inputs: Vec::new(),
            },
        );
        c.modules[self.id].instances.push((key2, ins));
        proof {
            assert(c0.module_wf(self.id as int));
            lemma_keys_unique_push(
                c0.modules@[self.id as int].instances@,
                c.modules@[self.id as int].instances@,
                name@,
                ins,
            );
            assert(c.instance_wf(ins.id as int));
            lemma_ctx_ext_preserves_wf(c0, *c);
        }
        Ok(ins)
    }

    /// Creates a memory of this module called `name`, with `2^address_bit_width`
    /// elements of `element_bit_width` bits each.
    pub fn mem(self, c: &mut Context, name: &str, address_bit_width: u32, element_bit_width: u32) -> (r:
        Result<Mem, Error>)
        requires
            old(c).wf(),
            self.id < old(c).modules.len(),
        ensures
            final(c).wf(),
            match r {
                Ok(mh) => {
                    &&& 1 <= address_bit_width <= 128
                    &&& 1 <= element_bit_width <= 128
                    &&& !has_key(old(c).modules@[self.id as int].mems@, name@)
                    &&& mh.id == old(c).mems@.len()
                    &&& final(c).mems@.len() == old(c).mems@.len() + 1
                    &&& (forall|i: int|
                        0 <= i < old(c).mems@.len() ==> final(c).mems@[i] == old(c).mems@[i])
                    &&& final(c).mems@[mh.id as int].name@ == name@
                    &&& final(c).mems@[mh.id as int].module == self.id
                    &&& final(c).mems@[mh.id as int].address_bit_width == address_bit_width
                    &&& final(c).mems@[mh.id as int].element_bit_width == element_bit_width
                    &&& final(c).mems@[mh.id as int].initial_contents is None
                    &&& final(c).mems@[mh.id as int].read_ports@.len() == 0
                    &&& final(c).mems@[mh.id as int].write_port is None
                    &&& modules_unchanged_except(*final(c), *old(c), self.id as int)
                    &&& pushed_entry(
                        final(c).modules@[self.id as int].mems@,
                        old(c).modules@[self.id as int].mems@,
                        name@,
                        mh,
                    )
                    &&& final(c).modules@[self.id as int].inputs
                        == old(c).modules@[self.id as int].inputs
                    &&& final(c).modules@[self.id as int].outputs
                        == old(c).modules@[self.id as int].outputs
                    &&& final(c).modules@[self.id as int].registers
                        == old(c).modules@[self.id as int].registers
                    &&& final(c).modules@[self.id as int].instances
                        == old(c).modules@[self.id as int].instances
                    &&& final(c).signals == old(c).signals
                    &&& final(c).instances == old(c).instances
                },
                Err(Error::WidthOutOfRange { width }) => {
                    &&& (width == address_bit_width as u64 && !(1 <= address_bit_width <= 128)) || (
                    width == element_bit_width as u64 && 1 <= address_bit_width <= 128 && !(1
                        <= element_bit_width <= 128))
                    &&& *final(c) == *old(c)
                },
                Err(Error::DuplicateName { name: ref nm }) => {
                    &&& nm@ == name@
                    &&& has_key(old(c).modules@[self.id as int].mems@, name@)
                    &&& *final(c) == *old(c)
                },
                Err(_) => false,
            },
    {
        if address_bit_width < MIN_SIGNAL_BIT_WIDTH || address_bit_width > MAX_SIGNAL_BIT_WIDTH {
            return Err(Error::WidthOutOfRange { width: address_bit_width as u64 });
        }
        if element_bit_width < MIN_SIGNAL_BIT_WIDTH || element_bit_width > MAX_SIGNAL_BIT_WIDTH {
            return Err(Error::WidthOutOfRange { width: element_bit_width as u64 });
        }
        let key: String = name.to_owned();
        if table_has_key(&c.modules[self.id].mems, &key) {
            return Err(Error::DuplicateName { name: key });
        }
        let ghost c0 = *c;
        let mh = Mem { id: c.mems.len() };
        let key2 = key.clone();
        c.mems.push(
            MemNode {
                name: key,
                module: self.id,
                address_bit_width,
                element_bit_width,
                initial_contents: None,
                read_ports: Vec::new(),
                write_port: None,
            },
        );
        c.modules[self.id].mems.push((key2, mh));
        proof {
            assert(c0.module_wf(self.id as int));
            lemma_keys_unique_push(
                c0.modules@[self.id as int].mems@,
                c.modules@[self.id as int].mems@,
                name@,
                mh,
            );
            assert(c.mem_wf(mh.id as int));
            lemma_ctx_ext_preserves_wf(c0, *c);
        }
        Ok(mh)
    }
}

impl Instance {
    /// Drives the declared input `name` of the instantiated module with
    /// `signal`, which must belong to the parent module and match the
    /// input's width. Each input can be driven once.
    pub fn drive_input(self, c: &mut Context, name: &str, signal: Signal) -> (r: Result<(), Error>)
        requires
            old(c).wf(),
            self.id < old(c).instances.len(),
            old(c).sig_ok(signal),
        ensures
            final(c).wf(),
            match r {
                Ok(()) => {
                    &&& old(c).sig_module(signal) == old(c).instances@[self.id as int].parent
                    &&& has_key(
                        old(c).modules@[old(c).instances@[self.id as int].instantiated as int].inputs@,
                        name@,
                    )
                    &&& !has_key(old(c).instances@[self.id as int].driven_inputs@, name@)
                    &&& final(c).instances@.len() == old(c).instances@.len()
                    &&& (forall|i: int|
                        0 <= i < old(c).instances@.len() && i != self.id ==> final(c).instances@[i]
                            == old(c).instances@[i])
                    &&& final(c).instances@[self.id as int].name == old(c).instances@[self.id as int].name
                    &&& final(c).instances@[self.id as int].parent == old(c).instances@[self.id as int].parent
                    &&& final(c).instances@[self.id as int].instantiated == old(c).instances@[self.id as int].instantiated
                    &&& pushed_entry(
                        final(c).instances@[self.id as int].driven_inputs@,
                        old(c).instances@[self.id as int].driven_inputs@,
                        name@,
                        signal,
                    )
                    &&& final(c).signals == old(c).signals
                    &&& final(c).modules == old(c).modules
                    &&& final(c).mems == old(c).mems
                },
                Err(Error::CrossModule) => {
                    &&& old(c).sig_module(signal) != old(c).instances@[self.id as int].parent
                    &&& *final(c) == *old(c)
                },
                Err(Error::UnknownName { name: ref nm }) => {
                    &&& nm@ == name@
                    &&& !has_key(
                        old(c).modules@[old(c).instances@[self.id as int].instantiated as int].inputs@,
                        name@,
                    )
                    &&& *final(c) == *old(c)
                },
                Err(Error::WidthMismatch { lhs_width, rhs_width }) => {
                    &&& old(c).sig_module(signal) == old(c).instances@[self.id as int].parent
                    &&& lhs_width == old(c).sig_width(signal)
                    &&& lhs_width != rhs_width
                    &&& (exists|l: int|
                        0 <= l
                            < old(c).modules@[old(c).instances@[self.id as int].instantiated as int].inputs@.len()
                            && (
                        #[trigger] old(c).modules@[old(c).instances@[self.id as int].instantiated as int].inputs@[l]).0@
                            == name@ && old(c).sig_width(
                            old(c).modules@[old(c).instances@[self.id as int].instantiated as int].inputs@[l].1,
                        ) == rhs_width)
                    &&& *final(c) == *old(c)
                },
                Err(Error::AlreadyDriven { name: ref nm }) => {
                    &&& nm@ == name@
                    &&& has_key(old(c).instances@[self.id as int].driven_inputs@, name@)
                    &&& *final(c) == *old(c)
                },
                Err(_) => false,
            },
    {
        proof {
            assert(c.instance_wf(self.id as int));
        }
        if c.signals[signal.id].module != c.instances[self.id].parent {
            return Err(Error::CrossModule);
        }
        let key: String = name.to_owned();
        let target = c.instances[self.id].instantiated;
        let l: usize = match table_find(&c.modules[target].inputs, &key) {
            Some(l) => l,
            None => {
                return Err(Error::UnknownName { name: key });
            },
        };
        proof {
            assert(c.module_wf(target as int));
            assert(c.input_entry_ok(target as int, l as int));
        }
        let input_sig = c.modules[target].inputs[l].1;
        let wi = c.signals[input_sig.id].width;
        let ws = c.signals[signal.id].width;
        if ws != wi {
            return Err(Error::WidthMismatch { lhs_width: ws, rhs_width: wi });
        }
        if table_has_key(&c.instances[self.id].driven_inputs, &key) {
            return Err(Error::AlreadyDriven { name: key });
        }
        let ghost c0 = *c;
        c.instances[self.id].driven_inputs.push((key, signal));
        proof {
            lemma_keys_unique_push(
                c0.instances@[self.id as int].driven_inputs@,
                c.instances@[self.id as int].driven_inputs@,
                name@,
                signal,
            );
            let lw = l as int;
            let ti = c.instances@[self.id as int].instantiated as int;
            assert(c.modules@[ti].inputs@[lw].0@ == name@);
            assert(c.sig_width(c.modules@[ti].inputs@[lw].1) == c.sig_width(signal));
            assert(c.driven_input_ok(
                self.id as int,
                c0.instances@[self.id as int].driven_inputs@.len() as int,
            ));
            lemma_ctx_ext_preserves_wf(c0, *c);
        }
        Ok(())
    }

    /// The named output of the instantiated module, as a signal of the
    /// parent module.
    pub fn output(self, c: &mut Context, name: &str) -> (r: Result<Signal, Error>)
        requires
            old(c).wf(),
            self.id < old(c).instances.len(),
        ensures
            final(c).wf(),
            match r {
                Ok(s) => {
                    &&& grew_signals_by_one(*final(c), *old(c), s)
                    &&& final(c).signals@[s.id as int].module == old(c).instances@[self.id as int].parent
                    &&& (exists|l: int|
                        0 <= l
                            < old(c).modules@[old(c).instances@[self.id as int].instantiated as int].outputs@.len()
                            && (
                        #[trigger] old(c).modules@[old(c).instances@[self.id as int].instantiated as int].outputs@[l]).0@
                            == name@ && final(c).signals@[s.id as int].width == old(c).sig_width(
                            old(c).modules@[old(c).instances@[self.id as int].instantiated as int].outputs@[l].1.source,
                        ))
                    &&& final(c).signals@[s.id as int].data matches SignalData::InstanceOutput {
                        instance,
                        name: nm,
                    } && instance == self && nm@ == name@
                    &&& final(c).modules == old(c).modules
                    &&& final(c).instances == old(c).instances
                    &&& final(c).mems == old(c).mems
                },
                Err(Error::UnknownName { name: ref nm }) => {
                    &&& nm@ == name@
                    &&& !has_key(
                        old(c).modules@[old(c).instances@[self.id as int].instantiated as int].outputs@,
                        name@,
                    )
                    &&& *final(c) == *old(c)
                },
                Err(_) => false,
            },
    {
        proof {
            assert(c.instance_wf(self.id as int));
        }
        let key: String = name.to_owned();
        let target = c.instances[self.id].instantiated;
        let l: usize = match table_find(&c.modules[target].outputs, &key) {
            Some(l) => l,
            None => {
                return Err(Error::UnknownName { name: key });
            },
        };
        proof {
            assert(c.module_wf(target as int));
            assert(c.output_entry_ok(target as int, l as int));
        }
        let src_sig = c.modules[target].outputs[l].1.source;
        let width = c.signals[src_sig.id].width;
        let parent = c.instances[self.id].parent;
        let ghost c0 = *c;
        let s = Signal { id: c.signals.len() };
        proof {
            assert(c0.signal_wf(src_sig.id as int));
        }
        c.signals.push(
            SignalNode {
                module: parent,
                width,
                data: SignalData::InstanceOutput { instance: self, name: key },
            },
        );
        proof {
            let ti = target as int;
            assert(c.modules@[ti].outputs@[l as int].0@ == name@);
            assert(c.sig_width(c.modules@[ti].outputs@[l as int].1.source) == width);
            assert(c.signal_wf(s.id as int));
            lemma_ctx_ext_preserves_wf(c0, *c);
        }
        Ok(s)
    }
}

impl Mem {
    /// Adds a read port addressed by `address` and gated by `enable`, both
    /// signals of this memory's module.
    pub fn read_port(self, c: &mut Context, address: Signal, enable: Signal) -> (r: Result<
        (),
        Error,
    >)
        requires
            old(c).wf(),
            self.id < old(c).mems.len(),
            old(c).sig_ok(address),
            old(c).sig_ok(enable),
        ensures
            final(c).wf(),
            match r {
                Ok(()) => {
                    &&& old(c).sig_module(address) == old(c).mems@[self.id as int].module
                    &&& old(c).sig_module(enable) == old(c).mems@[self.id as int].module
                    &&& old(c).sig_width(address) == old(c).mems@[self.id as int].address_bit_width
                    &&& old(c).sig_width(enable) == 1
                    &&& final(c).mems@.len() == old(c).mems@.len()
                    &&& (forall|i: int|
                        0 <= i < old(c).mems@.len() && i != self.id ==> final(c).mems@[i] == old(c).mems@[i])
                    &&& final(c).mems@[self.id as int].read_ports@ == old(c).mems@[self.id as int].read_ports@.push((address, enable))
                    &&& final(c).mems@[self.id as int].name == old(c).mems@[self.id as int].name
                    &&& final(c).mems@[self.id as int].module == old(c).mems@[self.id as int].module
                    &&& final(c).mems@[self.id as int].address_bit_width == old(c).mems@[self.id as int].address_bit_width
                    &&& final(c).mems@[self.id as int].element_bit_width == old(c).mems@[self.id as int].element_bit_width
                    &&& final(c).mems@[self.id as int].initial_contents == old(c).mems@[self.id as int].initial_contents
                    &&& final(c).mems@[self.id as int].write_port == old(c).mems@[self.id as int].write_port
                    &&& final(c).signals == old(c).signals
                    &&& final(c).modules == old(c).modules
                    &&& final(c).instances == old(c).instances
                },
                Err(Error::CrossModule) => {
                    &&& !(old(c).sig_module(address) == old(c).mems@[self.id as int].module && old(c).sig_module(enable) == old(c).mems@[self.id as int].module)
                    &&& *final(c) == *old(c)
                },
                Err(Error::WidthMismatch { lhs_width, rhs_width }) => {
                    &&& (lhs_width == old(c).sig_width(address) && rhs_width == old(c).mems@[self.id as int].address_bit_width && lhs_width != rhs_width) || (
                    lhs_width == old(c).sig_width(enable) && rhs_width == 1 && old(c).sig_width(
                        address,
                    ) == old(c).mems@[self.id as int].address_bit_width && lhs_width != 1)
                    &&& *final(c) == *old(c)
                },
                Err(_) => false,
            },
    {
        let md = c.mems[self.id].module;
        if c.signals[address.id].module != md || c.signals[enable.id].module != md {
            return Err(Error::CrossModule);
        }
        let wa = c.signals[address.id].width;
        let aw = c.mems[self.id].address_bit_width;
        if wa != aw {
            return Err(Error::WidthMismatch { lhs_width: wa, rhs_width: aw });
        }
        let we = c.signals[enable.id].width;
        if we != 1 {
            return Err(Error::WidthMismatch { lhs_width: we, rhs_width: 1 });
        }
        let ghost c0 = *c;
        c.mems[self.id].read_ports.push((address, enable));
        proof {
            assert(c.read_port_ok(
                self.id as int,
                c0.mems@[self.id as int].read_ports@.len() as int,
            ));
            lemma_ctx_ext_preserves_wf(c0, *c);
        }
        Ok(())
    }

    /// Sets the single write port: address, value to store, and enable, all
    /// signals of this memory's module. It can be set once.
    pub fn write_port(self, c: &mut Context, address: Signal, value: Signal, enable: Signal) -> (r:
        Result<(), Error>)
        requires
            old(c).wf(),
            self.id < old(c).mems.len(),
            old(c).sig_ok(address),
            old(c).sig_ok(value),
            old(c).sig_ok(enable),
        ensures
            final(c).wf(),
            match r {
                Ok(()) => {
                    &&& old(c).mems@[self.id as int].write_port is None
                    &&& old(c).sig_module(address) == old(c).mems@[self.id as int].module
                    &&& old(c).sig_module(value) == old(c).mems@[self.id as int].module
                    &&& old(c).sig_module(enable) == old(c).mems@[self.id as int].module
                    &&& old(c).sig_width(address) == old(c).mems@[self.id as int].address_bit_width
                    &&& old(c).sig_width(value) == old(c).mems@[self.id as int].element_bit_width
                    &&& old(c).sig_width(enable) == 1
                    &&& final(c).mems@.len() == old(c).mems@.len()
                    &&& (forall|i: int|
                        0 <= i < old(c).mems@.len() && i != self.id ==> final(c).mems@[i] == old(c).mems@[i])
                    &&& final(c).mems@[self.id as int].write_port == Some((address, value, enable))
                    &&& final(c).mems@[self.id as int].name == old(c).mems@[self.id as int].name
                    &&& final(c).mems@[self.id as int].module == old(c).mems@[self.id as int].module
                    &&& final(c).mems@[self.id as int].address_bit_width == old(c).mems@[self.id as int].address_bit_width
                    &&& final(c).mems@[self.id as int].element_bit_width == old(c).mems@[self.id as int].element_bit_width
                    &&& final(c).mems@[self.id as int].initial_contents == old(c).mems@[self.id as int].initial_contents
                    &&& final(c).mems@[self.id as int].read_ports == old(c).mems@[self.id as int].read_ports
                    &&& final(c).signals == old(c).signals
                    &&& final(c).modules == old(c).modules
                    &&& final(c).instances == old(c).instances
                },
                Err(Error::AlreadyDriven { name: ref nm }) => {
                    &&& old(c).mems@[self.id as int].write_port is Some
                    &&& nm@ == old(c).mems@[self.id as int].name@
                    &&& *final(c) == *old(c)
                },
                Err(Error::CrossModule) => {
                    &&& old(c).mems@[self.id as int].write_port is None
                    &&& !(old(c).sig_module(address) == old(c).mems@[self.id as int].module && old(
                        c,
                    ).sig_module(value) == old(c).mems@[self.id as int].module && old(
                        c,
                    ).sig_module(enable) == old(c).mems@[self.id as int].module)
                    &&& *final(c) == *old(c)
                },
                Err(Error::WidthMismatch { lhs_width, rhs_width }) => {
                    &&& old(c).mems@[self.id as int].write_port is None
                    &&& old(c).sig_module(address) == old(c).mems@[self.id as int].module
                    &&& old(c).sig_module(value) == old(c).mems@[self.id as int].module
                    &&& old(c).sig_module(enable) == old(c).mems@[self.id as int].module
                    &&& (old(c).sig_width(address) != old(c).mems@[self.id as int].address_bit_width
                        && lhs_width == old(c).sig_width(address) && rhs_width == old(
                        c,
                    ).mems@[self.id as int].address_bit_width) || (old(c).sig_width(address) == old(
                        c,
                    ).mems@[self.id as int].address_bit_width && old(c).sig_width(value) != old(
                        c,
                    ).mems@[self.id as int].element_bit_width && lhs_width == old(c).sig_width(
                        value,
                    ) && rhs_width == old(c).mems@[self.id as int].element_bit_width) || (old(
                        c,
                    ).sig_width(address) == old(c).mems@[self.id as int].address_bit_width && old(
                        c,
                    ).sig_width(value) == old(c).mems@[self.id as int].element_bit_width && old(
                        c,
                    ).sig_width(enable) != 1 && lhs_width == old(c).sig_width(enable) && rhs_width
                        == 1)
                    &&& *final(c) == *old(c)
                },
                Err(_) => false,
            },
    {
        if c.mems[self.id].write_port.is_some() {
            let nm = c.mems[self.id].name.clone();
            return Err(Error::AlreadyDriven { name: nm });
        }
        let md = c.mems[self.id].module;
        if c.signals[address.id].module != md || c.signals[value.id].module != md
            || c.signals[enable.id].module != md {
            return Err(Error::CrossModule);
        }
        let wa = c.signals[address.id].width;
        let aw = c.mems[self.id].address_bit_width;
        if wa != aw {
            return Err(Error::WidthMismatch { lhs_width: wa, rhs_width: aw });
        }
        let wv = c.signals[value.id].width;
        let ew = c.mems[self.id].element_bit_width;
        if wv != ew {
            return Err(Error::WidthMismatch { lhs_width: wv, rhs_width: ew });
        }
        let we = c.signals[enable.id].width;
        if we != 1 {
            return Err(Error::WidthMismatch { lhs_width: we, rhs_width: 1 });
        }
        let ghost c0 = *c;
        c.mems[self.id].write_port = Some((address, value, enable));
        proof {
            assert(c.mem_write_port_ok(self.id as int));
            lemma_ctx_ext_preserves_wf(c0, *c);
        }
        Ok(())
    }

    /// Supplies the memory's initial contents. Each element must fit the
    /// element width; the contents can be set once.
    pub fn initial_contents(self, c: &mut Context, values: &[u128]) -> (r: Result<(), Error>)
        requires
            old(c).wf(),
            self.id < old(c).mems.len(),
        ensures
            final(c).wf(),
            match r {
                Ok(()) => {
                    &&& old(c).mems@[self.id as int].initial_contents is None
                    &&& (forall|j: int|
                        0 <= j < values@.len() ==> in_width(
                            #[trigger] values@[j],
                            old(c).mems@[self.id as int].element_bit_width,
                        ))
                    &&& final(c).mems@.len() == old(c).mems@.len()
                    &&& (forall|i: int|
                        0 <= i < old(c).mems@.len() && i != self.id ==> final(c).mems@[i] == old(c).mems@[i])
                    &&& final(c).mems@[self.id as int].initial_contents matches Some(vs) && vs@
                        == values@
                    &&& final(c).mems@[self.id as int].name == old(c).mems@[self.id as int].name
                    &&& final(c).mems@[self.id as int].module == old(c).mems@[self.id as int].module
                    &&& final(c).mems@[self.id as int].address_bit_width == old(c).mems@[self.id as int].address_bit_width
                    &&& final(c).mems@[self.id as int].element_bit_width == old(c).mems@[self.id as int].element_bit_width
                    &&& final(c).mems@[self.id as int].write_port == old(c).mems@[self.id as int].write_port
                    &&& final(c).mems@[self.id as int].read_ports == old(c).mems@[self.id as int].read_ports
                    &&& final(c).signals == old(c).signals
                    &&& final(c).modules == old(c).modules
                    &&& final(c).instances == old(c).instances
                },
                Err(Error::AlreadyDriven { name: ref nm }) => {
                    &&& old(c).mems@[self.id as int].initial_contents is Some
                    &&& nm@ == old(c).mems@[self.id as int].name@
                    &&& *final(c) == *old(c)
                },
                Err(Error::ValueTooWide { value, width }) => {
                    &&& width == old(c).mems@[self.id as int].element_bit_width
                    &&& (exists|j: int| 0 <= j < values@.len() && #[trigger] values@[j] == value)
                    &&& !in_width(value, old(c).mems@[self.id as int].element_bit_width)
                    &&& *final(c) == *old(c)
                },
                Err(_) => false,
            },
    {
        if c.mems[self.id].initial_contents.is_some() {
            let nm = c.mems[self.id].name.clone();
            return Err(Error::AlreadyDriven { name: nm });
        }
        let ew = c.mems[self.id].element_bit_width;
        proof {
            assert(c.mem_wf(self.id as int));
        }
        let m = crate::value::mask_of(ew);
        let n = values.len();
        let mut copied: Vec<u128> = Vec::new();
        let mut i: usize = 0;
        while i < n
            invariant
                *c == *old(c),
                c.wf(),
                self.id < c.mems.len(),
                ew == c.mems@[self.id as int].element_bit_width,
                c.mems@[self.id as int].initial_contents is None,
                n == values@.len(),
                i <= n,
                i == copied@.len(),
                forall|j: int| 0 <= j < i ==> copied@[j] == values@[j],
                forall|j: int| 0 <= j < i ==> in_width(#[trigger] values@[j], ew),
                1 <= ew <= 128,
                m as int == pow2w(ew) - 1,
            decreases n - i,
        {
            let v = values[i];
            if v > m {
                return Err(Error::ValueTooWide { value: v, width: ew });
            }
            copied.push(v);
            i = i + 1;
        }
        let ghost c0 = *c;
        proof {
            assert(copied@ =~= values@);
        }
        c.mems[self.id].initial_contents = Some(copied);
        proof {
            assert(c.mem_initial_ok(self.id as int));
            lemma_ctx_ext_preserves_wf(c0, *c);
        }
        Ok(())
    }
}

/// One table extends another: same key order, possibly more entries.
pub open spec fn seq_ext<T>(a: Seq<T>, b: Seq<T>) -> bool {
    a.len() <= b.len() && forall|i: int| 0 <= i < a.len() ==> a[i] == b[i]
}

/// `b` is `a` with zero or more entries appended to its tables.
pub open spec fn module_ext(a: ModuleNode, b: ModuleNode) -> bool {
    &&& b.name == a.name
    &&& seq_ext(a.inputs@, b.inputs@)
    &&& seq_ext(a.outputs@, b.outputs@)
    &&& seq_ext(a.registers@, b.registers@)
    &&& seq_ext(a.instances@, b.instances@)
    &&& seq_ext(a.mems@, b.mems@)
}

/// `b` is `a` with zero or more driven inputs appended.
pub open spec fn instance_ext(a: InstanceNode, b: InstanceNode) -> bool {
    &&& b.name == a.name
    &&& b.parent == a.parent
    &&& b.instantiated == a.instantiated
    &&& seq_ext(a.driven_inputs@, b.driven_inputs@)
}

/// `b` is `a`, possibly with read ports appended and the write port or the
/// initial contents filled in.
pub open spec fn mem_ext(a: MemNode, b: MemNode) -> bool {
    &&& b.name == a.name
    &&& b.module == a.module
    &&& b.address_bit_width == a.address_bit_width
    &&& b.element_bit_width == a.element_bit_width
    &&& seq_ext(a.read_ports@, b.read_ports@)
    &&& (a.write_port matches Some(_) ==> b.write_port == a.write_port)
    &&& (a.initial_contents matches Some(_) ==> b.initial_contents == a.initial_contents)
}

/// `c1` is `c0` grown monotonically: nodes only appended, tables only
/// extended, write-once fields only filled in.
pub open spec fn ctx_ext(c0: Context, c1: Context) -> bool {
    &&& seq_ext(c0.signals@, c1.signals@)
    &&& c0.modules.len() <= c1.modules.len()
    &&& forall|m: int|
        0 <= m < c0.modules.len() ==> module_ext(#[trigger] c0.modules[m], c1.modules[m])
    &&& c0.instances.len() <= c1.instances.len()
    &&& forall|k: int|
        0 <= k < c0.instances.len() ==> instance_ext(#[trigger] c0.instances[k], c1.instances[k])
    &&& c0.mems.len() <= c1.mems.len()
    &&& forall|k: int| 0 <= k < c0.mems.len() ==> mem_ext(#[trigger] c0.mems[k], c1.mems[k])
}

/// Growing a well-formed context monotonically keeps it well-formed, as long
/// as everything new is well-formed in the grown context.
proof fn lemma_ctx_ext_preserves_wf(c0: Context, c1: Context)
    requires
        c0.wf(),
        ctx_ext(c0, c1),
        // new signal nodes
        forall|i: int| c0.signals.len() <= i < c1.signals.len() ==> c1.signal_wf(i),
        // new modules
        forall|m: int| c0.modules.len() <= m < c1.modules.len() ==> c1.module_wf(m),
        forall|i: int, j: int|
            0 <= i < j < c1.modules.len() && j >= c0.modules.len() ==> (
            #[trigger] c1.modules[i].name)@ != (#[trigger] c1.modules[j].name)@,
        // tables of old modules: unchanged, or unique with the new entries ok
        forall|m: int|
            0 <= m < c0.modules.len() ==> ((#[trigger] c1.modules[m]).inputs@
                == c0.modules[m].inputs@ || keys_unique(c1.modules[m].inputs@)),
        forall|m: int|
            0 <= m < c0.modules.len() ==> ((#[trigger] c1.modules[m]).outputs@
                == c0.modules[m].outputs@ || keys_unique(c1.modules[m].outputs@)),
        forall|m: int|
            0 <= m < c0.modules.len() ==> ((#[trigger] c1.modules[m]).registers@
                == c0.modules[m].registers@ || keys_unique(c1.modules[m].registers@)),
        forall|m: int|
            0 <= m < c0.modules.len() ==> ((#[trigger] c1.modules[m]).instances@
                == c0.modules[m].instances@ || keys_unique(c1.modules[m].instances@)),
        forall|m: int|
            0 <= m < c0.modules.len() ==> ((#[trigger] c1.modules[m]).mems@
                == c0.modules[m].mems@ || keys_unique(c1.modules[m].mems@)),
        forall|m: int, j: int|
            0 <= m < c0.modules.len() && c0.modules[m].inputs.len() <= j
                < c1.modules[m].inputs.len() ==> #[trigger] c1.input_entry_ok(m, j),
        forall|m: int, j: int|
            0 <= m < c0.modules.len() && c0.modules[m].outputs.len() <= j
                < c1.modules[m].outputs.len() ==> #[trigger] c1.output_entry_ok(m, j),
        forall|m: int, j: int|
            0 <= m < c0.modules.len() && c0.modules[m].registers.len() <= j
                < c1.modules[m].registers.len() ==> #[trigger] c1.register_entry_ok(m, j),
        forall|m: int, j: int|
            0 <= m < c0.modules.len() && c0.modules[m].instances.len() <= j
                < c1.modules[m].instances.len() ==> #[trigger] c1.instance_entry_ok(m, j),
        forall|m: int, j: int|
            0 <= m < c0.modules.len() && c0.modules[m].mems.len() <= j < c1.modules[m].mems.len()
                ==> #[trigger] c1.mem_entry_ok(m, j),
        // new instance nodes, and new driven inputs of old instances
        forall|k: int| c0.instances.len() <= k < c1.instances.len() ==> c1.instance_wf(k),
        forall|k: int|
            0 <= k < c0.instances.len() ==> ((#[trigger] c1.instances[k]).driven_inputs@
                == c0.instances[k].driven_inputs@ || keys_unique(c1.instances[k].driven_inputs@)),
        forall|k: int, j: int|
            0 <= k < c0.instances.len() && c0.instances[k].driven_inputs.len() <= j
                < c1.instances[k].driven_inputs.len() ==> #[trigger] c1.driven_input_ok(k, j),
        // new memory nodes, and growth of old ones
        forall|k: int| c0.mems.len() <= k < c1.mems.len() ==> c1.mem_wf(k),
        forall|k: int, j: int|
            0 <= k < c0.mems.len() && c0.mems[k].read_ports.len() <= j
                < c1.mems[k].read_ports.len() ==> #[trigger] c1.read_port_ok(k, j),
        forall|k: int|
            0 <= k < c0.mems.len() ==> ((#[trigger] c1.mems[k]).write_port
                == c0.mems[k].write_port || c1.mem_write_port_ok(k)),
        forall|k: int|
            0 <= k < c0.mems.len() ==> ((#[trigger] c1.mems[k]).initial_contents
                == c0.mems[k].initial_contents || c1.mem_initial_ok(k)),
    ensures
        c1.wf(),
{
    let nsig = c0.signals.len() as int;
    let nmod = c0.modules.len() as int;
    let nins = c0.instances.len() as int;
    let nmem = c0.mems.len() as int;
    assert forall|i: int, j: int| 0 <= i < j < c1.modules.len() implies c1.modules[i].name@
        != c1.modules[j].name@ by {
        if j < nmod {
            assert(c0.modules[i].name@ != c0.modules[j].name@);
        }
    }
    assert forall|i: int| 0 <= i < c1.signals.len() implies c1.signal_wf(i) by {
        if i < nsig {
            assert(c0.signal_wf(i));
            let n = c0.signals[i];
            assert(c1.signals[i] == n);
            match n.data {
                SignalData::Input { name, bit_width } => {
                    let j = choose|j: int|
                        0 <= j < c0.modules[n.module as int].inputs.len()
                            && c0.modules[n.module as int].inputs[j].0@ == name@
                            && c0.modules[n.module as int].inputs[j].1 == (Signal {
                            id: i as usize,
                        });
                    assert(c1.modules[n.module as int].inputs[j]
                        == c0.modules[n.module as int].inputs[j]);
                    assert(0 <= j < c1.modules[n.module as int].inputs.len()
                        && c1.modules[n.module as int].inputs[j].0@ == name@
                        && c1.modules[n.module as int].inputs[j].1 == (Signal { id: i as usize }));
                },
                SignalData::Reg { name, initial_value, bit_width, next } => {
                    let j = choose|j: int|
                        0 <= j < c0.modules[n.module as int].registers.len()
                            && c0.modules[n.module as int].registers[j].0@ == name@
                            && c0.modules[n.module as int].registers[j].1 == (Register {
                            value: Signal { id: i as usize },
                        });
                    assert(c1.modules[n.module as int].registers[j]
                        == c0.modules[n.module as int].registers[j]);
                    assert(0 <= j < c1.modules[n.module as int].registers.len()
                        && c1.modules[n.module as int].registers[j].0@ == name@
                        && c1.modules[n.module as int].registers[j].1 == (Register {
                        value: Signal { id: i as usize },
                    }));
                },
                SignalData::InstanceOutput { instance, name } => {
                    assert(c0.instance_wf(instance.id as int));
                    assert(instance_ext(
                        c0.instances[instance.id as int],
                        c1.instances[instance.id as int],
                    ));
                    let im = c0.instances[instance.id as int].instantiated as int;
                    assert(module_ext(c0.modules[im], c1.modules[im]));
                    let j = choose|j: int|
                        0 <= j < c0.modules[im].outputs.len() && (
                        #[trigger] c0.modules[im].outputs[j]).0@ == name@ && c0.sig_ok(
                            c0.modules[im].outputs[j].1.source,
                        ) && c0.sig_width(c0.modules[im].outputs[j].1.source) == n.width;
                    assert(c1.modules[im].outputs[j] == c0.modules[im].outputs[j]);
                    assert(c1.signals[c0.modules[im].outputs[j].1.source.id as int]
                        == c0.signals[c0.modules[im].outputs[j].1.source.id as int]);
                    assert(0 <= j < c1.modules[im].outputs.len() && c1.modules[im].outputs[j].0@
                        == name@ && c1.sig_ok(c1.modules[im].outputs[j].1.source) && c1.sig_width(
                        c1.modules[im].outputs[j].1.source,
                    ) == n.width);
                },
                _ => {},
            }
        }
    }
    assert forall|m: int| 0 <= m < c1.modules.len() implies c1.module_wf(m) by {
        if m < nmod {
            assert(c0.module_wf(m));
            assert(module_ext(c0.modules[m], c1.modules[m]));
            assert(keys_unique(c1.modules[m].inputs@));
            assert(keys_unique(c1.modules[m].outputs@));
            assert(keys_unique(c1.modules[m].registers@));
            assert(keys_unique(c1.modules[m].instances@));
            assert(keys_unique(c1.modules[m].mems@));
            assert forall|j: int| 0 <= j < c1.modules[m].inputs.len() implies
                #[trigger] c1.input_entry_ok(m, j) by {
                if j < c0.modules[m].inputs.len() {
                    assert(c0.input_entry_ok(m, j));
                    assert(c1.modules[m].inputs[j] == c0.modules[m].inputs[j]);
                }
            }
            assert forall|j: int| 0 <= j < c1.modules[m].outputs.len() implies
                #[trigger] c1.output_entry_ok(m, j) by {
                if j < c0.modules[m].outputs.len() {
                    assert(c0.output_entry_ok(m, j));
                    assert(c1.modules[m].outputs[j] == c0.modules[m].outputs[j]);
                }
            }
            assert forall|j: int| 0 <= j < c1.modules[m].registers.len() implies
                #[trigger] c1.register_entry_ok(m, j) by {
                if j < c0.modules[m].registers.len() {
                    assert(c0.register_entry_ok(m, j));
                    assert(c1.modules[m].registers[j] == c0.modules[m].registers[j]);
                }
            }
            assert forall|j: int| 0 <= j < c1.modules[m].instances.len() implies
                #[trigger] c1.instance_entry_ok(m, j) by {
                if j < c0.modules[m].instances.len() {
                    assert(c0.instance_entry_ok(m, j));
                    assert(c1.modules[m].instances[j] == c0.modules[m].instances[j]);
                    assert(instance_ext(
                        c0.instances[c0.modules[m].instances[j].1.id as int],
                        c1.instances[c0.modules[m].instances[j].1.id as int],
                    ));
                }
            }
            assert forall|j: int| 0 <= j < c1.modules[m].mems.len() implies
                #[trigger] c1.mem_entry_ok(m, j) by {
                if j < c0.modules[m].mems.len() {
                    assert(c0.mem_entry_ok(m, j));
                    assert(c1.modules[m].mems[j] == c0.modules[m].mems[j]);
                    assert(mem_ext(
                        c0.mems[c0.modules[m].mems[j].1.id as int],
                        c1.mems[c0.modules[m].mems[j].1.id as int],
                    ));
                }
            }
        }
    }
    assert forall|k: int| 0 <= k < c1.instances.len() implies c1.instance_wf(k) by {
        if k < nins {
            assert(c0.instance_wf(k));
            assert(instance_ext(c0.instances[k], c1.instances[k]));
            assert(keys_unique(c1.instances[k].driven_inputs@));
            let ins0 = c0.instances[k];
            assert(module_ext(c0.modules[ins0.instantiated as int], c1.modules[ins0.instantiated as int]));
            assert forall|j: int| 0 <= j < c1.instances[k].driven_inputs.len() implies
                #[trigger] c1.driven_input_ok(k, j) by {
                if j < ins0.driven_inputs.len() {
                    assert(c0.driven_input_ok(k, j));
                    assert(c1.instances[k].driven_inputs[j] == ins0.driven_inputs[j]);
                    let s = ins0.driven_inputs[j].1;
                    let nm = ins0.driven_inputs[j].0;
                    let l = choose|l: int|
                        0 <= l < c0.modules[ins0.instantiated as int].inputs.len() && (
                        #[trigger] c0.modules[ins0.instantiated as int].inputs[l]).0@ == nm@
                            && c0.sig_ok(c0.modules[ins0.instantiated as int].inputs[l].1)
                            && c0.sig_width(c0.modules[ins0.instantiated as int].inputs[l].1)
                            == c0.sig_width(s);
                    assert(c1.modules[ins0.instantiated as int].inputs[l]
                        == c0.modules[ins0.instantiated as int].inputs[l]);
                    assert(c1.signals[c0.modules[ins0.instantiated as int].inputs[l].1.id as int]
                        == c0.signals[c0.modules[ins0.instantiated as int].inputs[l].1.id as int]);
                    assert(0 <= l < c1.modules[ins0.instantiated as int].inputs.len()
                        && c1.modules[ins0.instantiated as int].inputs[l].0@ == nm@ && c1.sig_ok(
                        c1.modules[ins0.instantiated as int].inputs[l].1,
                    ) && c1.sig_width(c1.modules[ins0.instantiated as int].inputs[l].1)
                        == c1.sig_width(s));
                }
            }
        }
    }
    assert forall|k: int| 0 <= k < c1.mems.len() implies c1.mem_wf(k) by {
        if k < nmem {
            assert(c0.mem_wf(k));
            assert(mem_ext(c0.mems[k], c1.mems[k]));
            assert(c1.mem_initial_ok(k));
            assert(c1.mem_write_port_ok(k));
            assert forall|j: int| 0 <= j < c1.mems[k].read_ports.len() implies
                #[trigger] c1.read_port_ok(k, j) by {
                if j < c0.mems[k].read_ports.len() {
                    assert(c0.read_port_ok(k, j));
                    assert(c1.mems[k].read_ports[j] == c0.mems[k].read_ports[j]);
                }
            }
        }
    }
}

/// Every signal's width lies in `[1, 128]`.
pub proof fn lemma_signal_width_in_range(c: Context, s: Signal)
    requires
        c.wf(),
        c.sig_ok(s),
    ensures
        1 <= c.sig_width(s) <= 128,
{
    assert(c.signal_wf(s.id as int));
}

/// A binary operator node's operands share one width; the node is one bit
/// wide for a comparison and operand-wide otherwise.
pub proof fn lemma_binop_widths(c: Context, s: Signal)
    requires
        c.wf(),
        c.sig_ok(s),
        c.signals@[s.id as int].data matches SignalData::BinOp { .. },
    ensures
        c.signals@[s.id as int].data matches SignalData::BinOp { op, lhs, rhs } && {
            &&& c.sig_ok(lhs)
            &&& c.sig_ok(rhs)
            &&& c.sig_width(lhs) == c.sig_width(rhs)
            &&& c.sig_width(s) == if op.spec_is_comparison() {
                1u32
            } else {
                c.sig_width(lhs)
            }
        },
{
    assert(c.signal_wf(s.id as int));
}

/// A bit-range node's bounds lie inside its source and its width is the
/// length of the range.
pub proof fn lemma_bits_widths(c: Context, s: Signal)
    requires
        c.wf(),
        c.sig_ok(s),
        c.signals@[s.id as int].data matches SignalData::Bits { .. },
    ensures
        c.signals@[s.id as int].data matches SignalData::Bits { source, range_high, range_low } && {
            &&& c.sig_ok(source)
            &&& range_low <= range_high < c.sig_width(source)
            &&& c.sig_width(s) == range_high - range_low + 1
        },
{
    assert(c.signal_wf(s.id as int));
}

/// A concatenation is as wide as its operands together, within 128 bits.
pub proof fn lemma_concat_width(c: Context, s: Signal)
    requires
        c.wf(),
        c.sig_ok(s),
        c.signals@[s.id as int].data matches SignalData::Concat { .. },
    ensures
        c.signals@[s.id as int].data matches SignalData::Concat { lhs, rhs } && {
            &&& c.sig_ok(lhs)
            &&& c.sig_ok(rhs)
            &&& c.sig_width(s) == c.sig_width(lhs) + c.sig_width(rhs)
            &&& c.sig_width(lhs) + c.sig_width(rhs) <= 128
        },
{
    assert(c.signal_wf(s.id as int));
}

/// A repetition is `count` times as wide as its source, within `[1, 128]`.
pub proof fn lemma_repeat_width(c: Context, s: Signal)
    requires
        c.wf(),
        c.sig_ok(s),
        c.signals@[s.id as int].data matches SignalData::Repeat { .. },
    ensures
        c.signals@[s.id as int].data matches SignalData::Repeat { source, count } && {
            &&& c.sig_ok(source)
            &&& c.sig_width(s) == c.sig_width(source) * count
            &&& 1 <= c.sig_width(source) * count <= 128
        },
{
    assert(c.signal_wf(s.id as int));
}

/// A double negation is structurally transparent: each `not` node records
/// its source, so the node built over a negation leads straight back to the
/// signal that was negated first, with the same width in the same module.
pub proof fn lemma_not_not_structure(c: Context, x: Signal, y: Signal, z: Signal)
    requires
        c.wf(),
        c.sig_ok(z),
        c.sig_ok(y),
        c.signals@[z.id as int].data == (SignalData::UnOp { op: UnOp::Not, source: y }),
        c.signals@[y.id as int].data == (SignalData::UnOp { op: UnOp::Not, source: x }),
    ensures
        c.sig_ok(x),
        c.sig_width(z) == c.sig_width(x),
        c.sig_module(z) == c.sig_module(x),
{
    assert(c.signal_wf(z.id as int));
    assert(c.signal_wf(y.id as int));
}

} // verus!
