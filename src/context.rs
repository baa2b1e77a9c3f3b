//! Tree-scoped ambient values: a binding made at one node of the component
//! tree is seen by that node and its descendants, the nearest one winning.
use vstd::prelude::*;

verus! {

/// Why a context lookup failed.
#[derive(Debug, Clone, Copy, PartialEq, Eq, Structural)]
pub enum ContextError {
    /// No node from the caller up to the root binds the tag.
    ContextNotFound,
    /// The node named does not exist in the tree.
    UnknownNode,
}

/// One binding of a value to a tag at a node; never changed once made.
#[derive(Debug, Clone, Copy, PartialEq, Eq, Structural)]
pub struct ContextSlot {
    pub node: usize,
    pub tag: u64,
    pub value: u64,
}

/// The component tree with the bindings made on it. Node 0 is the root; every
/// other node has a parent that was created before it.
pub struct ContextRegistry {
    pub parents: Vec<usize>,
    pub slots: Vec<ContextSlot>,
}

/// The value that the latest of the first `n` slots binds at `node` for `tag`.
pub open spec fn binding_in(slots: Seq<ContextSlot>, node: int, tag: u64, n: int) -> Option<u64>
    decreases n,
{
    if n <= 0 {
        None
    } else if slots[n - 1].node == node && slots[n - 1].tag == tag {
        Some(slots[n - 1].value)
    } else {
        binding_in(slots, node, tag, n - 1)
    }
}

/// The value bound for `tag` at `node` itself, if any.
pub open spec fn binding_at(slots: Seq<ContextSlot>, node: int, tag: u64) -> Option<u64> {
    binding_in(slots, node, tag, slots.len() as int)
}

/// The nearest binding for `tag` from `node` up to the root. Node 0 is the
/// root; the parent of any other node has a smaller index.
pub open spec fn lookup(parents: Seq<usize>, slots: Seq<ContextSlot>, node: int, tag: u64) -> Option<u64>
    decreases node,
{
    if node <= 0 || node >= parents.len() {
        binding_at(slots, node, tag)
    } else if binding_at(slots, node, tag).is_some() {
        binding_at(slots, node, tag)
    } else if parents[node] < node {
        lookup(parents, slots, parents[node] as int, tag)
    } else {
        None
    }
}

/// `a` is `d` or one of its ancestors.
pub open spec fn is_ancestor(parents: Seq<usize>, a: int, d: int) -> bool
    decreases d,
{
    if a == d {
        true
    } else if d <= 0 || d >= parents.len() || parents[d] >= d {
        false
    } else {
        is_ancestor(parents, a, parents[d] as int)
    }
}

/// No node from `d` up to, and not including, its ancestor `a` binds `tag`.
pub open spec fn unshadowed(parents: Seq<usize>, slots: Seq<ContextSlot>, a: int, d: int, tag: u64) -> bool
    decreases d,
{
    if a == d {
        true
    } else if d <= 0 || d >= parents.len() || parents[d] >= d {
        false
    } else {
        binding_at(slots, d, tag).is_none() && unshadowed(parents, slots, a, parents[d] as int, tag)
    }
}

/// No node from `d` up to the root binds `tag`.
pub open spec fn unbound_above(parents: Seq<usize>, slots: Seq<ContextSlot>, d: int, tag: u64) -> bool
    decreases d,
{
    binding_at(slots, d, tag).is_none() && (d <= 0 || d >= parents.len() || parents[d] >= d
        || unbound_above(parents, slots, parents[d] as int, tag))
}

impl ContextRegistry {
    pub open spec fn wf(&self) -> bool {
        &&& self.parents.len() >= 1
        &&& forall|i: int| 0 < i < self.parents.len() ==> #[trigger] self.parents[i] < i
        &&& forall|i: int| 0 <= i < self.slots.len() ==> #[trigger] self.slots[i].node < self.parents.len()
    }

    /// A tree with a root and no bindings.
    pub fn new() -> (r: Self)
        ensures
            r.wf(),
            r.parents@ == seq![0usize],
            r.slots@.len() == 0,
    {
        ContextRegistry { parents: vec![0usize], slots: Vec::new() }
    }

    /// Adds a child of `parent` and returns its index.
    pub fn add_child(&mut self, parent: usize) -> (r: Result<usize, ContextError>)
        requires
            old(self).wf(),
        ensures
            final(self).wf(),
            parent < old(self).parents.len() ==> r == Ok::<usize, ContextError>(old(self).parents.len())
                && final(self).parents@ == old(self).parents@.push(parent)
                && final(self).slots@ == old(self).slots@,
            parent >= old(self).parents.len() ==> r == Err::<usize, ContextError>(ContextError::UnknownNode)
                && *final(self) == *old(self),
    {
        if parent >= self.parents.len() {
            return Err(ContextError::UnknownNode);
        }
        let n = self.parents.len();
        self.parents.push(parent);
        Ok(n)
    }

    /// Binds `value` to `tag` at `node`, shadowing for its descendants any
    /// binding of the same tag further up.
    pub fn provide_context(&mut self, node: usize, tag: u64, value: u64) -> (r: Result<(), ContextError>)
        requires
            old(self).wf(),
        ensures
            final(self).wf(),
            node < old(self).parents.len() ==> r is Ok
                && final(self).parents@ == old(self).parents@
                && final(self).slots@ == old(self).slots@.push(ContextSlot { node, tag, value }),
            node >= old(self).parents.len() ==> r == Err::<(), ContextError>(ContextError::UnknownNode)
                && *final(self) == *old(self),
    {
        if node >= self.parents.len() {
            return Err(ContextError::UnknownNode);
        }
        self.slots.push(ContextSlot { node, tag, value });
        Ok(())
    }

    fn find_binding(&self, node: usize, tag: u64) -> (r: Option<u64>)
        ensures
            r == binding_at(self.slots@, node as int, tag),
    {
        let mut n: usize = self.slots.len();
        while n > 0
            invariant
                n <= self.slots.len(),
                binding_at(self.slots@, node as int, tag) == binding_in(self.slots@, node as int, tag, n as int),
            decreases n,
        {
            let s = self.slots[n - 1];
            if s.node == node && s.tag == tag {
                return Some(s.value);
            }
            n = n - 1;
        }
        None
    }

    /// The value of the nearest binding for `tag` from `node` up to the root.
    pub fn use_context(&self, node: usize, tag: u64) -> (r: Result<u64, ContextError>)
        requires
            self.wf(),
        ensures
            node >= self.parents.len() ==> r == Err::<u64, ContextError>(ContextError::UnknownNode),
            node < self.parents.len() ==> match lookup(self.parents@, self.slots@, node as int, tag) {
                Some(v) => r == Ok::<u64, ContextError>(v),
                None => r == Err::<u64, ContextError>(ContextError::ContextNotFound),
            },
    {
        if node >= self.parents.len() {
            return Err(ContextError::UnknownNode);
        }
        let mut cur: usize = node;
        loop
            invariant
                self.wf(),
                cur < self.parents.len(),
                node < self.parents.len(),
                lookup(self.parents@, self.slots@, node as int, tag)
                    == lookup(self.parents@, self.slots@, cur as int, tag),
            decreases cur,
        {
            match self.find_binding(cur, tag) {
                Some(v) => return Ok(v),
                None => {
                    if cur == 0 {
                        return Err(ContextError::ContextNotFound);
                    }
                    cur = self.parents[cur];
                },
            }
        }
    }
}

/// A value provided at a node is what its descendants read for that tag, as
/// long as no node in between binds the tag again.
pub proof fn lemma_descendant_sees_provided(
    parents: Seq<usize>,
    slots: Seq<ContextSlot>,
    a: int,
    d: int,
    tag: u64,
    v: u64,
)
    requires
        is_ancestor(parents, a, d),
        binding_at(slots, a, tag) == Some(v),
        unshadowed(parents, slots, a, d, tag),
    ensures
        lookup(parents, slots, d, tag) == Some(v),
    decreases d,
{
    if a != d {
        lemma_descendant_sees_provided(parents, slots, a, parents[d] as int, tag, v);
    }
}

/// Where no node from `d` up to the root binds the tag, the lookup finds nothing.
pub proof fn lemma_unbound_not_found(parents: Seq<usize>, slots: Seq<ContextSlot>, d: int, tag: u64)
    requires
        unbound_above(parents, slots, d, tag),
    ensures
        lookup(parents, slots, d, tag).is_none(),
    decreases d,
{
    if 0 < d < parents.len() && parents[d] < d {
        lemma_unbound_not_found(parents, slots, parents[d] as int, tag);
    }
}

} // verus!
