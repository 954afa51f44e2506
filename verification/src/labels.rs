//! The cache of the collection of elements that label a control.
//!
//! Finding the labels is the document tree's work. The cache keeps the
//! collection that was found first and hands that one out to every request
//! until it is invalidated.
use vstd::prelude::*;

verus! {

/// The identity of a collection of nodes.
#[derive(Clone, Copy, Debug, PartialEq, Eq, Structural)]
pub struct NodeListId(pub u64);

/// What a request for the labels hands out: the cached collection where
/// there is one, else the one that was discovered.
pub open spec fn labels_lookup(cached: Option<NodeListId>, discovered: NodeListId) -> NodeListId {
    match cached {
        Some(list) => list,
        None => discovered,
    }
}

/// A request for the labels that finds the cache in state `before`, leaves
/// it in state `after` and hands out `returned`: the cache then holds what
/// was handed out, and what it held before, if anything, is what it hands
/// out.
pub open spec fn labels_step(
    before: Option<NodeListId>,
    after: Option<NodeListId>,
    returned: NodeListId,
) -> bool {
    &&& after == Some(returned)
    &&& before matches Some(list) ==> returned == list
}

/// Two requests in a row, with no invalidation between them, hand out the
/// same collection, and the second leaves the cache as it found it.
pub proof fn lemma_labels_stable(
    before: Option<NodeListId>,
    between: Option<NodeListId>,
    after: Option<NodeListId>,
    first: NodeListId,
    second: NodeListId,
)
    requires
        labels_step(before, between, first),
        labels_step(between, after, second),
    ensures
        second == first,
        after == between,
{
}

/// A slot for the collection of labels: empty, or populated.
pub struct LabelsCache {
    slot: Option<NodeListId>,
}

impl View for LabelsCache {
    type V = Option<NodeListId>;

    closed spec fn view(&self) -> Option<NodeListId> {
        self.slot
    }
}

impl LabelsCache {
    /// An empty cache.
    pub fn new() -> (cache: LabelsCache)
        ensures
            cache@ is None,
    {
        LabelsCache { slot: None }
    }

    /// The cached collection, if there is one.
    pub fn get(&self) -> (cached: Option<NodeListId>)
        ensures
            cached == self@,
    {
        self.slot
    }

    /// Offers a freshly discovered collection to the cache, which keeps it
    /// only if it holds none, and hands out the one it holds.
    pub fn populate(&mut self, discovered: NodeListId) -> (list: NodeListId)
        ensures
            list == labels_lookup(old(self)@, discovered),
            labels_step(old(self)@, final(self)@, list),
        no_unwind
    {
        match self.slot {
            Some(list) => list,
            None => {
                self.slot = Some(discovered);
                discovered
            },
        }
    }

    /// Empties the cache: the next request discovers the labels anew.
    pub fn invalidate(&mut self)
        ensures
            final(self)@ is None,
        no_unwind
    {
        self.slot = None;
    }
}

} // verus!
