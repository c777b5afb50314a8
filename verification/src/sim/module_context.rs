//! The per-traversal tree of module contexts.
//!
//! Each node stands for one path of instances from the root module down, so
//! the same module instantiated along two different paths gets two distinct
//! contexts. Lookups are memoized: asking twice for the child of one context
//! through one instance yields the same node index.

use crate::module::Context;
use vstd::prelude::*;

verus! {

/// One node of the context tree. The root has no `instance_and_parent`; a
/// child records the instance node that reached it and its parent context.
/// `module` is the module this context elaborates.
pub struct ModuleContext {
    pub instance_and_parent: Option<(usize, usize)>,
    pub module: usize,
    pub children: Vec<(usize, usize)>,
}

impl ModuleContext {
    /// A fresh root context with no parent and no children.
    pub fn new() -> (r: ModuleContext)
        ensures
            r.instance_and_parent is None,
            r.module == 0,
            r.children@.len() == 0,
    {
        ModuleContext { instance_and_parent: None, module: 0, children: Vec::new() }
    }
}

/// The arena that owns a traversal's context nodes; index 0 is the root.
pub struct ContextArena {
    pub nodes: Vec<ModuleContext>,
}

impl ContextArena {
    /// Well-formedness against the design `c`: every node elaborates a
    /// module of `c`; every child edge records a real instance whose parent
    /// module is the parent context's module and whose instantiated module
    /// is the child context's module.
    pub open spec fn wf(self, c: Context) -> bool {
        &&& self.nodes@.len() >= 1
        &&& self.nodes@[0].instance_and_parent is None
        &&& forall|k: int|
            0 <= k < self.nodes@.len() ==> (#[trigger] self.nodes@[k]).module < c.modules@.len()
        &&& forall|k: int|
            0 <= k < self.nodes@.len() ==> match (#[trigger] self.nodes@[k]).instance_and_parent {
                Some((inst, parent)) => {
                    &&& inst < c.instances@.len()
                    &&& parent < self.nodes@.len()
                    &&& c.instances@[inst as int].parent == self.nodes@[parent as int].module
                    &&& c.instances@[inst as int].instantiated == self.nodes@[k].module
                },
                None => k == 0,
            }
        &&& forall|k: int, j: int|
            0 <= k < self.nodes@.len() && 0 <= j < self.nodes@[k].children@.len() ==> {
                let (inst, ch) = (#[trigger] self.nodes@[k].children@[j]);
                &&& ch < self.nodes@.len()
                &&& self.nodes@[ch as int].instance_and_parent == Some((inst, k as usize))
            }
        &&& forall|k: int, j1: int, j2: int|
            0 <= k < self.nodes@.len() && 0 <= j1 < j2 < self.nodes@[k].children@.len() ==> (
            #[trigger] self.nodes@[k].children@[j1]).0 != (
            #[trigger] self.nodes@[k].children@[j2]).0
    }

    /// A new arena holding only the root context, which elaborates `root`.
    pub fn new(c: &Context, root: usize) -> (r: ContextArena)
        requires
            root < c.modules@.len(),
        ensures
            r.wf(*c),
            r.nodes@.len() == 1,
            r.nodes@[0].module == root,
            r.nodes@[0].instance_and_parent is None,
    {
        let mut node = ModuleContext::new();
        node.module = root;
        let mut nodes: Vec<ModuleContext> = Vec::new();
        nodes.push(node);
        ContextArena { nodes }
    }

    /// The child of context `ctx` through `instance`, creating and memoizing
    /// it on first use: repeated lookups return the same node.
    pub fn get_child(&mut self, c: &Context, ctx: usize, instance: usize) -> (r: usize)
        requires
            old(self).wf(*c),
            c.wf(),
            ctx < old(self).nodes@.len(),
            instance < c.instances@.len(),
            c.instances@[instance as int].parent == old(self).nodes@[ctx as int].module,
        ensures
            final(self).wf(*c),
            r < final(self).nodes@.len(),
            final(self).nodes@[r as int].instance_and_parent == Some((instance, ctx)),
            final(self).nodes@[r as int].module == c.instances@[instance as int].instantiated,
            final(self).nodes@.len() >= old(self).nodes@.len(),
            forall|k: int|
                0 <= k < old(self).nodes@.len() ==> final(self).nodes@[k].module == old(
                    self,
                ).nodes@[k].module && final(self).nodes@[k].instance_and_parent == old(
                    self,
                ).nodes@[k].instance_and_parent,
            forall|j: int|
                0 <= j < old(self).nodes@[ctx as int].children@.len() && (#[trigger] old(
                    self,
                ).nodes@[ctx as int].children@[j]).0 == instance ==> old(
                    self,
                ).nodes@[ctx as int].children@[j].1 == r && *final(self) == *old(self),
            !(exists|j: int|
                0 <= j < old(self).nodes@[ctx as int].children@.len() && (#[trigger] old(
                    self,
                ).nodes@[ctx as int].children@[j]).0 == instance) ==> {
                &&& r == old(self).nodes@.len()
                &&& final(self).nodes@.len() == old(self).nodes@.len() + 1
                &&& final(self).nodes@[ctx as int].children@ == old(
                    self,
                ).nodes@[ctx as int].children@.push((instance, r))
            },
    {
        let n_ch = self.nodes[ctx].children.len();
        let mut j: usize = 0;
        while j < n_ch
            invariant
                *self == *old(self),
                self.wf(*c),
                ctx < self.nodes@.len(),
                n_ch == self.nodes@[ctx as int].children@.len(),
                forall|jj: int| 0 <= jj < j ==> self.nodes@[ctx as int].children@[jj].0 != instance,
            decreases n_ch - j,
        {
            if self.nodes[ctx].children[j].0 == instance {
                proof {
                    assert forall|j2: int|
                        0 <= j2 < self.nodes@[ctx as int].children@.len() && (
                        #[trigger] self.nodes@[ctx as int].children@[j2]).0 == instance implies j2
                        == j by {}
                }
                return self.nodes[ctx].children[j].1;
            }
            j = j + 1;
        }
        let ghost a0 = *self;
        let ch = self.nodes.len();
        proof {
            assert(c.instance_wf(instance as int));
        }
        let target = c.instances[instance].instantiated;
        self.nodes.push(
            ModuleContext {
                instance_and_parent: Some((instance, ctx)),
                module: target,
                children: Vec::new(),
            },
        );
        self.nodes[ctx].children.push((instance, ch));
        proof {
            assert forall|k: int, j2: int|
                0 <= k < self.nodes@.len() && 0 <= j2 < self.nodes@[k].children@.len() implies {
                let (inst2, ch2) = (#[trigger] self.nodes@[k].children@[j2]);
                ch2 < self.nodes@.len() && self.nodes@[ch2 as int].instance_and_parent == Some(
                    (inst2, k as usize),
                )
            } by {
                if k == ctx && j2 == a0.nodes@[ctx as int].children@.len() {
                } else {
                    assert(a0.nodes@[k].children@[j2] == self.nodes@[k].children@[j2]);
                }
            }
        }
        ch
    }
}

} // verus!
