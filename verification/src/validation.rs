//! Structural validation of a module hierarchy.
//!
//! Before any emission, three checks run over the modules transitively
//! instantiated from a root: the instance graph must be free of recursion,
//! every register and every declared instance input must be driven, and every
//! memory must have a read port and either initial contents or a write port.
//! On success the validator hands back the set of reachable modules, closed
//! under instantiation, which the back ends then work through.

use crate::module::{seq_ext, Context, Error, Module, SignalData};
use vstd::prelude::*;

verus! {

/// `x` occurs in `s`.
pub open spec fn in_seq<T>(s: Seq<T>, x: T) -> bool {
    exists|i: int| 0 <= i < s.len() && s[i] == x
}

/// The module instantiated by entry `j` of module `m`'s instance table.
pub open spec fn instance_target(c: Context, m: int, j: int) -> usize {
    c.instances@[c.modules@[m].instances@[j].1.id as int].instantiated
}

/// Every module that `m` instantiates occurs in `s`.
pub open spec fn module_children_in(c: Context, m: int, s: Seq<usize>) -> bool {
    forall|j: int|
        0 <= j < c.modules@[m].instances@.len() ==> in_seq(s, #[trigger] instance_target(c, m, j))
}

/// `s` is a set of valid module indices closed under instantiation.
pub open spec fn order_closed(c: Context, s: Seq<usize>) -> bool {
    forall|i: int|
        0 <= i < s.len() ==> (#[trigger] s[i]) < c.modules@.len() && module_children_in(
            c,
            s[i] as int,
            s,
        )
}

/// Every register of module `m` has its next-value source set.
pub open spec fn module_regs_driven(c: Context, m: int) -> bool {
    forall|j: int|
        0 <= j < c.modules@[m].registers@.len() ==> (
        c.signals@[(#[trigger] c.modules@[m].registers@[j]).1.value.id as int].data matches SignalData::Reg {
            next,
            ..
        } && next is Some)
}

/// Every declared input of the module instantiated by instance `k` is
/// driven.
pub open spec fn instance_fully_driven(c: Context, k: int) -> bool {
    forall|l: int|
        0 <= l < c.modules@[c.instances@[k].instantiated as int].inputs@.len()
            ==> crate::module::has_key(
            c.instances@[k].driven_inputs@,
            (#[trigger] c.modules@[c.instances@[k].instantiated as int].inputs@[l]).0@,
        )
}

/// Every instance of module `m` has all of its inputs driven.
pub open spec fn module_instances_driven(c: Context, m: int) -> bool {
    forall|j: int|
        0 <= j < c.modules@[m].instances@.len() ==> instance_fully_driven(
            c,
            (#[trigger] c.modules@[m].instances@[j]).1.id as int,
        )
}

/// Every memory of module `m` has a read port and a source of contents.
pub open spec fn module_mems_ok(c: Context, m: int) -> bool {
    forall|j: int|
        0 <= j < c.modules@[m].mems@.len() ==> c.mems@[(#[trigger] c.modules@[m].mems@[j]).1.id as int].read_ports@.len()
            >= 1 && (c.mems@[c.modules@[m].mems@[j].1.id as int].initial_contents is Some
            || c.mems@[c.modules@[m].mems@[j].1.id as int].write_port is Some)
}

/// What each validation error testifies to.
pub open spec fn validation_error_witnessed(c: Context, e: Error) -> bool {
    match e {
        Error::RecursiveModule { module_name, instance_name, in_module_name } => exists|
            m: int,
            j: int,
        |
            0 <= m < c.modules@.len() && c.modules@[m].name@ == in_module_name@ && 0 <= j
                < c.modules@[m].instances@.len() && (#[trigger] c.modules@[m].instances@[j]).0@
                == instance_name@
                && c.modules@[c.instances@[c.modules@[m].instances@[j].1.id as int].instantiated as int].name@
                == module_name@,
        Error::CapacityExceeded => false,
        Error::UndrivenRegister { module_name, register_name } => exists|m: int, j: int|
            0 <= m < c.modules@.len() && c.modules@[m].name@ == module_name@ && 0 <= j
                < c.modules@[m].registers@.len() && (#[trigger] c.modules@[m].registers@[j]).0@
                == register_name@ && (
            c.signals@[c.modules@[m].registers@[j].1.value.id as int].data matches SignalData::Reg {
                next,
                ..
            } && next is None),
        Error::UndrivenInstanceInput { module_name, instance_name, input_name } => exists|
            m: int,
            j: int,
        |
            0 <= m < c.modules@.len() && c.modules@[m].name@ == module_name@ && 0 <= j
                < c.modules@[m].instances@.len() && (#[trigger] c.modules@[m].instances@[j]).0@
                == instance_name@ && !crate::module::has_key(
                c.instances@[c.modules@[m].instances@[j].1.id as int].driven_inputs@,
                input_name@,
            ),
        Error::MissingReadPort { module_name, memory_name } => exists|m: int, j: int|
            0 <= m < c.modules@.len() && c.modules@[m].name@ == module_name@ && 0 <= j < c.modules@[m].mems@.len() && (
            #[trigger] c.modules@[m].mems@[j]).0@ == memory_name@
                && c.mems@[c.modules@[m].mems@[j].1.id as int].read_ports@.len() == 0,
        Error::MissingSource { module_name, memory_name } => exists|m: int, j: int|
            0 <= m < c.modules@.len() && c.modules@[m].name@ == module_name@ && 0 <= j < c.modules@[m].mems@.len() && (
            #[trigger] c.modules@[m].mems@[j]).0@ == memory_name@
                && c.mems@[c.modules@[m].mems@[j].1.id as int].initial_contents is None
                && c.mems@[c.modules@[m].mems@[j].1.id as int].write_port is None,
        _ => false,
    }
}

/// Membership in a list of module indices.
fn contains_usize(v: &Vec<usize>, x: usize) -> (r: bool)
    ensures
        r == in_seq(v@, x),
{
    let n = v.len();
    let mut i: usize = 0;
    while i < n
        invariant
            n == v.len(),
            forall|j: int| 0 <= j < i ==> v@[j] != x,
        decreases n - i,
    {
        if v[i] == x {
            return true;
        }
        i = i + 1;
    }
    false
}

/// Membership survives extension of the list.
proof fn lemma_in_seq_ext<T>(s1: Seq<T>, s2: Seq<T>, x: T)
    requires
        in_seq(s1, x),
        seq_ext(s1, s2),
    ensures
        in_seq(s2, x),
{
    let i = choose|i: int| 0 <= i < s1.len() && s1[i] == x;
    assert(s2[i] == x);
}

/// Closure under instantiation survives extension of the list by a module
/// whose own children are in the extended list.
proof fn lemma_order_closed_ext(c: Context, s1: Seq<usize>, s2: Seq<usize>)
    requires
        order_closed(c, s1),
        seq_ext(s1, s2),
        forall|i: int|
            s1.len() <= i < s2.len() ==> (#[trigger] s2[i]) < c.modules@.len()
                && module_children_in(c, s2[i] as int, s2),
    ensures
        order_closed(c, s2),
{
    assert forall|i: int| 0 <= i < s2.len() implies (#[trigger] s2[i]) < c.modules@.len()
        && module_children_in(c, s2[i] as int, s2) by {
        if i < s1.len() {
            assert(s1[i] == s2[i]);
            assert(module_children_in(c, s1[i] as int, s1));
            assert forall|j: int| 0 <= j < c.modules@[s2[i] as int].instances@.len() implies in_seq(
                s2,
                #[trigger] instance_target(c, s2[i] as int, j),
            ) by {
                lemma_in_seq_ext(s1, s2, instance_target(c, s2[i] as int, j));
            }
        }
    }
}

/// The modules currently marked as on the descent path.
pub open spec fn marked(s: Seq<bool>) -> Set<int> {
    Set::new(|i: int| 0 <= i < s.len() && s[i])
}

/// The path markers name at most as many modules as exist, so the number of
/// unmarked modules is a well-founded descent measure.
proof fn lemma_marked_bound(s: Seq<bool>)
    ensures
        marked(s).finite(),
        marked(s).len() <= s.len(),
{
    vstd::set_lib::lemma_int_range(0, s.len() as int);
    assert(marked(s).subset_of(vstd::set_lib::set_int_range(0, s.len() as int)));
    vstd::set_lib::lemma_len_subset(
        marked(s),
        vstd::set_lib::set_int_range(0, s.len() as int),
    );
}

/// Depth-first walk of the instance graph below module `m`. Modules whose
/// subtree is complete go to `order`; `on_path` marks the modules on the
/// current descent, so meeting one again means the definition is recursive.
/// Each level of the descent marks one more module, so the walk always
/// terminates: the only error it can raise is a recursive definition.
fn visit(c: &Context, m: usize, on_path: &mut Vec<bool>, order: &mut Vec<usize>) -> (r: Result<
    (),
    Error,
>)
    requires
        c.wf(),
        m < c.modules@.len(),
        old(on_path)@.len() == c.modules@.len(),
        old(on_path)@[m as int] == false,
        order_closed(*c, old(order)@),
    ensures
        match r {
            Ok(()) => {
                &&& final(on_path)@ == old(on_path)@
                &&& seq_ext(old(order)@, final(order)@)
                &&& order_closed(*c, final(order)@)
                &&& in_seq(final(order)@, m)
            },
            Err(e) => validation_error_witnessed(*c, e) && e matches Error::RecursiveModule { .. },
        },
    decreases c.modules@.len() - marked(on_path@).len(),
{
    if contains_usize(order, m) {
        return Ok(());
    }
    let ghost path0 = on_path@;
    let ghost order0 = order@;
    on_path.set(m, true);
    let n_inst = c.modules[m].instances.len();
    let mut j: usize = 0;
    while j < n_inst
        invariant
            c.wf(),
            m < c.modules@.len(),
            n_inst == c.modules@[m as int].instances@.len(),
            on_path@ == path0.update(m as int, true),
            path0 == old(on_path)@,
            path0.len() == c.modules@.len(),
            path0[m as int] == false,
            seq_ext(order0, order@),
            order_closed(*c, order@),
            forall|jj: int| 0 <= jj < j ==> in_seq(order@, #[trigger] instance_target(*c, m as int, jj)),
            j <= n_inst,
        decreases n_inst - j,
    {
        proof {
            assert(c.module_wf(m as int));
            assert(c.instance_entry_ok(m as int, j as int));
            assert(c.instance_wf(c.modules@[m as int].instances@[j as int].1.id as int));
        }
        let inst = c.modules[m].instances[j].1;
        let target = c.instances[inst.id].instantiated;
        if on_path[target] {
            let module_name = c.modules[target].name.clone();
            let instance_name = c.modules[m].instances[j].0.clone();
            let in_module_name = c.modules[m].name.clone();
            proof {
                assert(c.modules@[m as int].instances@[j as int].0@ == instance_name@);
            }
            return Err(Error::RecursiveModule { module_name, instance_name, in_module_name });
        }
        let ghost order_before = order@;
        proof {
            lemma_marked_bound(path0);
            lemma_marked_bound(on_path@);
            assert(marked(on_path@) =~= marked(path0).insert(m as int));
            assert(!marked(path0).contains(m as int));
            vstd::set::axiom_set_insert_len(marked(path0), m as int);
        }
        let rec = visit(c, target, on_path, order);
        match rec {
            Ok(()) => {},
            Err(e) => {
                return Err(e);
            },
        }
        proof {
            assert forall|jj: int| 0 <= jj < j + 1 implies in_seq(
                order@,
                #[trigger] instance_target(*c, m as int, jj),
            ) by {
                if jj < j {
                    lemma_in_seq_ext(order_before, order@, instance_target(*c, m as int, jj));
                }
            }
        }
        j = j + 1;
    }
    on_path.set(m, false);
    proof {
        assert(on_path@ =~= path0);
    }
    let ghost order_pre = order@;
    order.push(m);
    proof {
        assert(seq_ext(order_pre, order@));
        assert forall|jj: int| 0 <= jj < c.modules@[m as int].instances@.len() implies in_seq(
            order@,
            #[trigger] instance_target(*c, m as int, jj),
        ) by {
            lemma_in_seq_ext(order_pre, order@, instance_target(*c, m as int, jj));
        }
        assert(order@[order_pre.len() as int] == m);
        lemma_order_closed_ext(*c, order_pre, order@);
        assert(seq_ext(order0, order@));
    }
    Ok(())
}

/// Validates the hierarchy rooted at `m`: no recursive module definitions,
/// every register and instance input driven, every memory usable. On success
/// the returned list holds the reachable modules, closed under
/// instantiation, with `m` among them.
pub fn validate_module_hierarchy(c: &Context, m: Module) -> (r: Result<Vec<usize>, Error>)
    requires
        c.wf(),
        m.id < c.modules@.len(),
    ensures
        match r {
            Ok(v) => {
                &&& in_seq(v@, m.id)
                &&& order_closed(*c, v@)
                &&& forall|i: int|
                    0 <= i < v@.len() ==> module_regs_driven(*c, (#[trigger] v@[i]) as int)
                        && module_instances_driven(*c, v@[i] as int) && module_mems_ok(
                        *c,
                        v@[i] as int,
                    )
            },
            Err(e) => validation_error_witnessed(*c, e),
        },
{
    let mut on_path: Vec<bool> = Vec::new();
    let n_mod = c.modules.len();
    let mut i: usize = 0;
    while i < n_mod
        invariant
            n_mod == c.modules@.len(),
            on_path@.len() == i,
            i <= n_mod,
            forall|j: int| 0 <= j < i ==> on_path@[j] == false,
        decreases n_mod - i,
    {
        on_path.push(false);
        i = i + 1;
    }
    let mut order: Vec<usize> = Vec::new();
    match visit(c, m.id, &mut on_path, &mut order) {
        Ok(()) => {},
        Err(e) => {
            return Err(e);
        },
    }
    let n_ord = order.len();
    let mut oi: usize = 0;
    while oi < n_ord
        invariant
            c.wf(),
            n_ord == order@.len(),
            order_closed(*c, order@),
            oi <= n_ord,
            forall|i2: int|
                0 <= i2 < oi ==> module_regs_driven(*c, (#[trigger] order@[i2]) as int)
                    && module_instances_driven(*c, order@[i2] as int) && module_mems_ok(
                    *c,
                    order@[i2] as int,
                ),
        decreases n_ord - oi,
    {
        let md = order[oi];
        proof {
            assert(order@[oi as int] < c.modules@.len());
            assert(c.module_wf(md as int));
        }
        // registers must be driven
        let n_reg = c.modules[md].registers.len();
        let mut j: usize = 0;
        while j < n_reg
            invariant
                c.wf(),
                md < c.modules@.len(),
                n_reg == c.modules@[md as int].registers@.len(),
                j <= n_reg,
                forall|j2: int|
                    0 <= j2 < j ==> (
                    c.signals@[(#[trigger] c.modules@[md as int].registers@[j2]).1.value.id as int].data matches SignalData::Reg {
                        next,
                        ..
                    } && next is Some),
            decreases n_reg - j,
        {
            proof {
                assert(c.module_wf(md as int));
                assert(c.register_entry_ok(md as int, j as int));
            }
            let rv = c.modules[md].registers[j].1.value;
            let driven: bool = match &c.signals[rv.id].data {
                SignalData::Reg { next, .. } => next.is_some(),
                _ => {
                    proof {
                        assert(false);
                    }
                    false
                },
            };
            if !driven {
                let module_name = c.modules[md].name.clone();
                let register_name = c.modules[md].registers[j].0.clone();
                return Err(Error::UndrivenRegister { module_name, register_name });
            }
            j = j + 1;
        }
        // instance inputs must be driven
        let n_inst = c.modules[md].instances.len();
        let mut j2: usize = 0;
        while j2 < n_inst
            invariant
                c.wf(),
                md < c.modules@.len(),
                n_inst == c.modules@[md as int].instances@.len(),
                j2 <= n_inst,
                forall|k2: int|
                    0 <= k2 < j2 ==> instance_fully_driven(
                        *c,
                        (#[trigger] c.modules@[md as int].instances@[k2]).1.id as int,
                    ),
            decreases n_inst - j2,
        {
            proof {
                assert(c.module_wf(md as int));
                assert(c.instance_entry_ok(md as int, j2 as int));
            }
            let inst = c.modules[md].instances[j2].1;
            proof {
                assert(c.instance_wf(inst.id as int));
            }
            let target = c.instances[inst.id].instantiated;
            let n_in = c.modules[target].inputs.len();
            let mut l: usize = 0;
            while l < n_in
                invariant
                    c.wf(),
                    md < c.modules@.len(),
                    j2 < c.modules@[md as int].instances@.len(),
                    inst == c.modules@[md as int].instances@[j2 as int].1,
                    inst.id < c.instances@.len(),
                    target == c.instances@[inst.id as int].instantiated,
                    target < c.modules@.len(),
                    n_in == c.modules@[target as int].inputs@.len(),
                    l <= n_in,
                    forall|l2: int|
                        0 <= l2 < l ==> crate::module::has_key(
                            c.instances@[inst.id as int].driven_inputs@,
                            (#[trigger] c.modules@[target as int].inputs@[l2]).0@,
                        ),
                decreases n_in - l,
            {
                let input_name = &c.modules[target].inputs[l].0;
                if !crate::module::table_has_key(&c.instances[inst.id].driven_inputs, input_name) {
                    let module_name = c.modules[md].name.clone();
                    let instance_name = c.modules[md].instances[j2].0.clone();
                    let inp = input_name.clone();
                    return Err(
                        Error::UndrivenInstanceInput {
                            module_name,
                            instance_name,
                            input_name: inp,
                        },
                    );
                }
                l = l + 1;
            }
            j2 = j2 + 1;
        }
        // memories must have a read port and a source of contents
        let n_mem = c.modules[md].mems.len();
        let mut j3: usize = 0;
        while j3 < n_mem
            invariant
                c.wf(),
                md < c.modules@.len(),
                n_mem == c.modules@[md as int].mems@.len(),
                j3 <= n_mem,
                forall|k3: int|
                    0 <= k3 < j3 ==> c.mems@[(#[trigger] c.modules@[md as int].mems@[k3]).1.id as int].read_ports@.len()
                        >= 1 && (c.mems@[c.modules@[md as int].mems@[k3].1.id as int].initial_contents is Some
                        || c.mems@[c.modules@[md as int].mems@[k3].1.id as int].write_port is Some),
            decreases n_mem - j3,
        {
            proof {
                assert(c.module_wf(md as int));
                assert(c.mem_entry_ok(md as int, j3 as int));
            }
            let mh = c.modules[md].mems[j3].1;
            if c.mems[mh.id].read_ports.len() == 0 {
                let module_name = c.modules[md].name.clone();
                let memory_name = c.modules[md].mems[j3].0.clone();
                return Err(Error::MissingReadPort { module_name, memory_name });
            }
            if c.mems[mh.id].initial_contents.is_none() && c.mems[mh.id].write_port.is_none() {
                let module_name = c.modules[md].name.clone();
                let memory_name = c.modules[md].mems[j3].0.clone();
                return Err(Error::MissingSource { module_name, memory_name });
            }
            j3 = j3 + 1;
        }
        oi = oi + 1;
    }
    Ok(order)
}

} // verus!
