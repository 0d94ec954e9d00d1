//! A context tree over a binary history: for every context of up to `depth`
//! preceding bits, how often each bit has followed it.

use crate::bitstring::{Bit, Bitstring};
use vstd::arithmetic::power2::{lemma2_to64, lemma_pow2_pos, lemma_pow2_unfold, pow2};
use vstd::prelude::*;

verus! {

/// Whether `path` is the context at the end of `history`: its symbols are
/// the latest symbols of `history`, the latest one first.
pub open spec fn context_matches(history: Seq<Bit>, path: Seq<Bit>) -> bool {
    &&& path.len() <= history.len()
    &&& forall|k: int| 0 <= k < path.len() ==> history[history.len() - 1 - k] == #[trigger] path[k]
}

/// The latest `length` symbols of `history`, the latest one first.
pub open spec fn context_path(history: Seq<Bit>, length: nat) -> Seq<Bit> {
    Seq::new(length, |k: int| history[history.len() - 1 - k])
}

/// How often `bit` has followed the context `path` in `history`. The first
/// `depth` symbols of a history have no full context before them and are
/// not counted.
pub open spec fn occurrences(history: Seq<Bit>, depth: nat, path: Seq<Bit>, bit: Bit) -> nat
    decreases history.len(),
{
    if history.len() <= depth {
        0
    } else {
        let earlier = history.drop_last();
        let here: nat = if history.last() == bit && context_matches(earlier, path) {
            1
        } else {
            0
        };
        occurrences(earlier, depth, path, bit) + here
    }
}

/// What a traversal does at each node of a context: count a bit, or take
/// the count of a bit back.
#[derive(Copy, Clone, Debug, PartialEq, Eq, Structural)]
pub enum Operation {
    Apply(Bit),
    Undo(Bit),
}

impl Operation {
    /// The bit that the operation counts or takes back.
    pub open spec fn bit(self) -> Bit {
        match self {
            Operation::Apply(bit) => bit,
            Operation::Undo(bit) => bit,
        }
    }

    /// The history that the tree records before the operation, where
    /// `context` is the history without the operation's bit.
    pub open spec fn before(self, context: Seq<Bit>) -> Seq<Bit> {
        match self {
            Operation::Apply(_) => context,
            Operation::Undo(bit) => context.push(bit),
        }
    }

    /// The history that the tree records after the operation.
    pub open spec fn after(self, context: Seq<Bit>) -> Seq<Bit> {
        match self {
            Operation::Apply(bit) => context.push(bit),
            Operation::Undo(_) => context,
        }
    }
}

/// One node of a context tree: how often each bit has been seen in the
/// node's context. A node has two children, one per bit, or none.
pub struct Node {
    zero_child: Option<Box<Node>>,
    one_child: Option<Box<Node>>,
    zeroes: u64,
    ones: u64,
}

impl Node {
    /// How often `bit` has been counted at this node.
    pub closed spec fn frequency(&self, bit: Bit) -> nat {
        match bit {
            Bit::Zero => self.zeroes as nat,
            Bit::One => self.ones as nat,
        }
    }

    /// Whether the node has no children.
    pub closed spec fn spec_is_leaf(&self) -> bool {
        self.zero_child is None
    }

    /// Whether the node has both children or none.
    pub closed spec fn is_paired(&self) -> bool {
        (self.zero_child is None) == (self.one_child is None)
    }

    /// The child that `bit` selects, on a node that has children.
    pub closed spec fn child(&self, bit: Bit) -> Node {
        match bit {
            Bit::Zero => *self.zero_child->0,
            Bit::One => *self.one_child->0,
        }
    }

    /// The distance from this node down to the leaves on the side of the
    /// zero children.
    pub closed spec fn height(&self) -> nat
        decreases self,
    {
        match self.zero_child {
            None => 0,
            Some(child) => 1 + child.height(),
        }
    }

    /// The number of nodes in the subtree below and including this node.
    pub closed spec fn node_count(&self) -> nat
        decreases self,
    {
        1 + match self.zero_child {
            None => 0,
            Some(child) => child.node_count(),
        } + match self.one_child {
            None => 0,
            Some(child) => child.node_count(),
        }
    }

    /// Whether the subtree at this node, which stands for the context
    /// `path` in a tree of the given depth, is complete down to that depth
    /// and holds at every node the counts that `history` gives for the
    /// node's context.
    pub open spec fn records(&self, history: Seq<Bit>, depth: nat, path: Seq<Bit>) -> bool
        decreases depth - path.len(),
    {
        &&& self.frequency(Bit::Zero) == occurrences(history, depth, path, Bit::Zero)
        &&& self.frequency(Bit::One) == occurrences(history, depth, path, Bit::One)
        &&& self.is_paired()
        &&& if path.len() >= depth {
            self.spec_is_leaf()
        } else {
            &&& !self.spec_is_leaf()
            &&& self.child(Bit::Zero).records(history, depth, path.push(Bit::Zero))
            &&& self.child(Bit::One).records(history, depth, path.push(Bit::One))
        }
    }

    /// A node with the given children and no counts.
    fn new(zero_child: Option<Box<Node>>, one_child: Option<Box<Node>>) -> (node: Node)
        requires
            (zero_child is None) == (one_child is None),
        ensures
            node.frequency(Bit::Zero) == 0,
            node.frequency(Bit::One) == 0,
            node.is_paired(),
            node.spec_is_leaf() == (zero_child is None),
            !node.spec_is_leaf() ==> node.child(Bit::Zero) == *zero_child->0 && node.child(Bit::One)
                == *one_child->0,
            node.height() == (match zero_child {
                None => 0,
                Some(child) => 1 + child.height(),
            }),
    {
        Node { zero_child, one_child, zeroes: 0, ones: 0 }
    }

    /// A complete tree without counts that reaches from `current_depth`
    /// down to `target_depth`.
    pub fn create_root(target_depth: usize, current_depth: usize) -> (node: Node)
        requires
            current_depth <= target_depth,
        ensures
            forall|path: Seq<Bit>|
                path.len() == current_depth ==> #[trigger] node.records(
                    Seq::empty(),
                    target_depth as nat,
                    path,
                ),
        decreases target_depth - current_depth,
    {
        if target_depth == current_depth {
            let node = Node::new(None, None);
            node
        } else {
            let zero_child = Node::create_root(target_depth, current_depth + 1);
            let one_child = Node::create_root(target_depth, current_depth + 1);
            let node = Node::new(Some(Box::new(zero_child)), Some(Box::new(one_child)));
            assert forall|path: Seq<Bit>| path.len() == current_depth implies #[trigger] node.records(
                Seq::empty(),
                target_depth as nat,
                path,
            ) by {
                assert(zero_child.records(Seq::empty(), target_depth as nat, path.push(Bit::Zero)));
                assert(one_child.records(Seq::empty(), target_depth as nat, path.push(Bit::One)));
            }
            node
        }
    }

    /// Whether the node has no children.
    pub fn is_leaf(&self) -> (leaf: bool)
        ensures
            leaf == self.spec_is_leaf(),
    {
        self.zero_child.is_none()
    }

    /// The child that a zero selects, if the node has children.
    pub fn zero_child(&self) -> (child: Option<&Node>)
        ensures
            child is None == self.spec_is_leaf(),
            child is Some ==> *child->0 == self.child(Bit::Zero),
    {
        match &self.zero_child {
            None => None,
            Some(node) => Some(&**node),
        }
    }

    /// The child that a one selects, if the node has children.
    pub fn one_child(&self) -> (child: Option<&Node>)
        ensures
            self.is_paired() ==> child is None == self.spec_is_leaf(),
            child is Some ==> *child->0 == self.child(Bit::One),
    {
        match &self.one_child {
            None => None,
            Some(node) => Some(&**node),
        }
    }

    /// How often a zero has been counted at this node.
    pub fn zeroes(&self) -> (count: u64)
        ensures
            count == self.frequency(Bit::Zero),
    {
        self.zeroes
    }

    /// How often a one has been counted at this node.
    pub fn ones(&self) -> (count: u64)
        ensures
            count == self.frequency(Bit::One),
    {
        self.ones
    }

    /// The child that `bit` selects, to work on.
    fn mut_child(&mut self, bit: Bit) -> (child: &mut Node)
        requires
            !old(self).spec_is_leaf(),
            old(self).is_paired(),
        ensures
            *child == old(self).child(bit),
            final(self).child(bit) == *final(child),
            final(self).child(other_bit(bit)) == old(self).child(other_bit(bit)),
            final(self).frequency(Bit::Zero) == old(self).frequency(Bit::Zero),
            final(self).frequency(Bit::One) == old(self).frequency(Bit::One),
            !final(self).spec_is_leaf(),
            final(self).is_paired(),
    {
        match bit {
            Bit::Zero => self.zero_child.as_mut().unwrap(),
            Bit::One => self.one_child.as_mut().unwrap(),
        }
    }

    /// The count of `bit`, to work on.
    fn mut_frequency(&mut self, bit: Bit) -> (count: &mut u64)
        ensures
            *count == old(self).frequency(bit),
            final(self).frequency(bit) == *final(count),
            final(self).frequency(other_bit(bit)) == old(self).frequency(other_bit(bit)),
            final(self).spec_is_leaf() == old(self).spec_is_leaf(),
            final(self).is_paired() == old(self).is_paired(),
            !old(self).spec_is_leaf() ==> final(self).child(Bit::Zero) == old(self).child(Bit::Zero)
                && final(self).child(Bit::One) == old(self).child(Bit::One),
    {
        match bit {
            Bit::Zero => &mut self.zeroes,
            Bit::One => &mut self.ones,
        }
    }

    /// Counts one more `bit` at this node.
    pub fn update(&mut self, bit: Bit)
        requires
            old(self).frequency(bit) < u64::MAX,
        ensures
            final(self).frequency(bit) == old(self).frequency(bit) + 1,
            final(self).frequency(other_bit(bit)) == old(self).frequency(other_bit(bit)),
            final(self).spec_is_leaf() == old(self).spec_is_leaf(),
            final(self).is_paired() == old(self).is_paired(),
            !old(self).spec_is_leaf() ==> final(self).child(Bit::Zero) == old(self).child(Bit::Zero)
                && final(self).child(Bit::One) == old(self).child(Bit::One),
    {
        let count = self.mut_frequency(bit);
        *count = *count + 1;
    }

    /// Takes the count of one `bit` back at this node.
    pub fn revert(&mut self, bit: Bit)
        requires
            old(self).frequency(bit) > 0,
        ensures
            final(self).frequency(bit) == old(self).frequency(bit) - 1,
            final(self).frequency(other_bit(bit)) == old(self).frequency(other_bit(bit)),
            final(self).spec_is_leaf() == old(self).spec_is_leaf(),
            final(self).is_paired() == old(self).is_paired(),
            !old(self).spec_is_leaf() ==> final(self).child(Bit::Zero) == old(self).child(Bit::Zero)
                && final(self).child(Bit::One) == old(self).child(Bit::One),
    {
        let count = self.mut_frequency(bit);
        *count = *count - 1;
    }

    /// Carries `operation` out on the context of `history` below this node:
    /// first on the child that the history selects, down to a leaf, then on
    /// the node itself. `depth` is the distance of this node from the root.
    pub fn execute(&mut self, operation: Operation, history: &Bitstring, depth: usize)
        requires
            depth + old(self).height() <= history@.len(),
            operation is Apply ==> history@.len() < u64::MAX,
            old(self).records(
                operation.before(history@),
                (depth + old(self).height()) as nat,
                context_path(history@, depth as nat),
            ),
        ensures
            final(self).height() == old(self).height(),
            final(self).records(
                operation.after(history@),
                (depth + old(self).height()) as nat,
                context_path(history@, depth as nat),
            ),
        decreases old(self).height(),
    {
        let ghost context = history@;
        let ghost total = (depth + self.height()) as nat;
        let ghost path = context_path(context, depth as nat);
        let ghost before = operation.before(context);
        let ghost after = operation.after(context);
        proof {
            lemma_records_height(*self, before, total, path);
            lemma_context_path_matches(context, depth as nat);
            assert(context.push(operation.bit()).drop_last() == context);
        }
        if !self.is_leaf() {
            let bit = history.bit(history.len() - 1 - depth);
            let ghost other = other_bit(bit);
            let ghost sibling = self.child(other);
            proof {
                assert(path.push(bit) == context_path(context, (depth + 1) as nat));
                assert(!context_matches(context, path.push(other))) by {
                    if context_matches(context, path.push(other)) {
                        assert(path.push(other)[depth as int] == other);
                    }
                }
                lemma_records_height(self.child(bit), before, total, path.push(bit));
                lemma_off_context_unchanged(sibling, context, operation.bit(), total, path.push(other));
            }
            let child = self.mut_child(bit);
            child.execute(operation, history, depth + 1);
            proof {
                assert(self.child(bit).records(after, total, path.push(bit)));
                assert(self.child(other).records(after, total, path.push(other)));
                assert(self.child(Bit::Zero).records(after, total, path.push(Bit::Zero)));
                assert(self.child(Bit::One).records(after, total, path.push(Bit::One)));
            }
        }
        match operation {
            Operation::Apply(bit) => {
                proof {
                    lemma_occurrences_bounded(context, total, path, bit);
                }
                self.update(bit);
            },
            Operation::Undo(bit) => {
                self.revert(bit);
            },
        }
    }

    /// The number of nodes in the subtree below and including this node.
    pub fn size(&self) -> (count: usize)
        requires
            self.node_count() <= usize::MAX,
        ensures
            count == self.node_count(),
        decreases self,
    {
        let below_zero: usize = match &self.zero_child {
            None => 0,
            Some(node) => node.size(),
        };
        let below_one: usize = match &self.one_child {
            None => 0,
            Some(node) => node.size(),
        };
        1 + below_zero + below_one
    }
}

/// The bit that `bit` is not.
pub open spec fn other_bit(bit: Bit) -> Bit {
    match bit {
        Bit::Zero => Bit::One,
        Bit::One => Bit::Zero,
    }
}

/// A context that matches with one symbol more matches without it.
proof fn lemma_context_prefix(history: Seq<Bit>, path: Seq<Bit>, bit: Bit)
    requires
        context_matches(history, path.push(bit)),
    ensures
        context_matches(history, path),
{
    assert forall|k: int| 0 <= k < path.len() implies history[history.len() - 1 - k]
        == #[trigger] path[k] by {
        assert(path.push(bit)[k] == path[k]);
    }
}

/// The latest symbols of a history are its context.
proof fn lemma_context_path_matches(history: Seq<Bit>, length: nat)
    requires
        length <= history.len(),
    ensures
        context_matches(history, context_path(history, length)),
{
}

/// A bit cannot have followed a context more often than the history is long.
pub proof fn lemma_occurrences_bounded(history: Seq<Bit>, depth: nat, path: Seq<Bit>, bit: Bit)
    ensures
        occurrences(history, depth, path, bit) <= history.len(),
    decreases history.len(),
{
    if history.len() > depth {
        lemma_occurrences_bounded(history.drop_last(), depth, path, bit);
    }
}

/// A subtree that records a history is as high as the tree's depth leaves
/// room below its context.
pub proof fn lemma_records_height(node: Node, history: Seq<Bit>, depth: nat, path: Seq<Bit>)
    requires
        node.records(history, depth, path),
        path.len() <= depth,
    ensures
        node.height() == depth - path.len(),
    decreases depth - path.len(),
{
    if path.len() < depth {
        lemma_records_height(node.child(Bit::Zero), history, depth, path.push(Bit::Zero));
    }
}

/// One more symbol of history leaves a subtree's counts as they are while
/// the history is still too short for a full context, and afterwards
/// wherever the subtree's context is not the one the symbol follows.
pub proof fn lemma_off_context_unchanged(
    node: Node,
    history: Seq<Bit>,
    bit: Bit,
    depth: nat,
    path: Seq<Bit>,
)
    requires
        history.len() < depth || !context_matches(history, path),
    ensures
        node.records(history, depth, path) == node.records(history.push(bit), depth, path),
    decreases depth - path.len(),
{
    let longer = history.push(bit);
    assert(longer.drop_last() == history);
    if path.len() < depth {
        assert(history.len() < depth || !context_matches(history, path.push(Bit::Zero))) by {
            if context_matches(history, path.push(Bit::Zero)) {
                lemma_context_prefix(history, path, Bit::Zero);
            }
        }
        assert(history.len() < depth || !context_matches(history, path.push(Bit::One))) by {
            if context_matches(history, path.push(Bit::One)) {
                lemma_context_prefix(history, path, Bit::One);
            }
        }
        lemma_off_context_unchanged(node.child(Bit::Zero), history, bit, depth, path.push(Bit::Zero));
        lemma_off_context_unchanged(node.child(Bit::One), history, bit, depth, path.push(Bit::One));
    }
}

/// The number of nodes of a complete binary tree of the given depth.
pub open spec fn tree_size(depth: nat) -> nat {
    (pow2(depth + 1) - 1) as nat
}

/// Why a predictor turned a request down.
#[derive(Copy, Clone, Debug, PartialEq, Eq, Structural)]
pub enum PredictorError {
    /// The history was to be cut back to more symbols than it holds.
    InvalidRevertTarget,
}

/// A model that learns from a history of bits. The history grows by
/// updates and can be cut back to an earlier length.
pub trait Predictor {
    /// Whether the model is in a state that its operations keep up.
    spec fn well_formed(&self) -> bool;

    /// The bits that the model has absorbed, oldest first.
    spec fn history(&self) -> Seq<Bit>;

    /// The number of bits absorbed.
    fn history_size(&self) -> (size: usize)
        ensures
            size == self.history().len(),
    ;

    /// Absorbs `bitstring`, one symbol at a time, in order.
    fn update(&mut self, bitstring: &Bitstring)
        requires
            old(self).well_formed(),
            old(self).history().len() + bitstring@.len() <= usize::MAX,
        ensures
            final(self).well_formed(),
            final(self).history() == old(self).history() + bitstring@,
    ;

    /// Undoes the latest updates until `target_size` symbols are left. A
    /// target beyond the history is turned down and changes nothing.
    fn revert_to_history_size(&mut self, target_size: usize) -> (result: Result<
        (),
        PredictorError,
    >)
        requires
            old(self).well_formed(),
        ensures
            final(self).well_formed(),
            target_size <= old(self).history().len() ==> result == Ok::<(), PredictorError>(())
                && final(self).history() == old(self).history().take(target_size as int),
            target_size > old(self).history().len() ==> result == Err::<(), PredictorError>(
                PredictorError::InvalidRevertTarget,
            ) && final(self).history() == old(self).history(),
    ;
}

/// A context tree: a complete binary tree of a fixed depth whose nodes
/// count, for every context of at most that many preceding bits, how often
/// each bit has followed it in the history absorbed so far. The counts are
/// what a mixture over all Markov models of up to that order is worked out
/// from.
pub struct ContextTree {
    root: Node,
    history: Bitstring,
    depth: usize,
}

impl ContextTree {
    /// The distance between the root and the leaves.
    pub closed spec fn spec_depth(&self) -> nat {
        self.depth as nat
    }

    /// The node of the empty context.
    pub closed spec fn spec_root(&self) -> Node {
        self.root
    }

    /// A tree of the given depth that has absorbed nothing.
    pub fn create(depth: usize) -> (tree: Self)
        requires
            tree_size(depth as nat) <= usize::MAX,
        ensures
            tree.well_formed(),
            tree.spec_depth() == depth,
            tree.history() == Seq::<Bit>::empty(),
    {
        let root = Node::create_root(depth, 0);
        assert(root.records(Seq::empty(), depth as nat, Seq::empty()));
        ContextTree { root, history: Bitstring::new(), depth }
    }

    /// The total number of nodes in the tree.
    pub fn size(&self) -> (count: usize)
        requires
            self.well_formed(),
        ensures
            count == tree_size(self.spec_depth()),
    {
        proof {
            lemma_records_node_count(self.root, self.history@, self.depth as nat, Seq::empty());
        }
        self.root.size()
    }

    /// The distance between the root and the leaves.
    pub fn depth(&self) -> (depth: usize)
        ensures
            depth == self.spec_depth(),
    {
        self.depth
    }

    /// The node of the empty context.
    pub fn root(&self) -> (root: &Node)
        ensures
            *root == self.spec_root(),
    {
        &self.root
    }

    /// How many of the next `length` bits come without a full context before
    /// them, as the history is now: such bits are learned nothing from.
    pub fn warm_up_bits(&self, length: usize) -> (count: usize)
        ensures
            count == if self.history().len() >= self.spec_depth() {
                0
            } else if self.spec_depth() - self.history().len() <= length {
                self.spec_depth() - self.history().len()
            } else {
                length as int
            },
    {
        let size = self.history.len();
        if size >= self.depth {
            0
        } else if self.depth - size <= length {
            self.depth - size
        } else {
            length
        }
    }

    /// Lets `read` look at the tree as it is once `bits` are absorbed on top
    /// of the history, and leaves the tree as it was: the bits are absorbed,
    /// `read` is given the node of the empty context, and the bits are taken
    /// back. Returns what `read` returned.
    pub fn with_continuation<T, F: FnOnce(&Node) -> T>(&mut self, bits: &Bitstring, read: F) -> (result:
        T)
        requires
            old(self).well_formed(),
            old(self).history().len() + bits@.len() <= usize::MAX,
            forall|node: Node| call_requires(read, (&node,)),
        ensures
            final(self).well_formed(),
            final(self).history() == old(self).history(),
            final(self).spec_depth() == old(self).spec_depth(),
            final(self).spec_root() == old(self).spec_root(),
            exists|node: Node|
                node.records(old(self).history() + bits@, old(self).spec_depth(), Seq::empty())
                    && call_ensures(read, (&node,), result),
    {
        let size = self.history_size();
        self.update(bits);
        let ghost absorbed = self.root;
        let result = read(&self.root);
        let _ = self.revert_to_history_size(size);
        proof {
            assert(self.history() =~= old(self).history());
            lemma_tree_determined(*self, *old(self));
            assert(absorbed.records(
                old(self).history() + bits@,
                old(self).spec_depth(),
                Seq::empty(),
            ));
        }
        result
    }

    /// Carries `operation` out on every node of the current context, from
    /// the leaf up to the root. A history that is shorter than the tree is
    /// deep selects no leaf, and nothing is done.
    fn for_node_in_context(&mut self, operation: Operation)
        requires
            old(self).spec_root().records(
                operation.before(old(self).history()),
                old(self).spec_depth(),
                Seq::empty(),
            ),
            operation is Apply ==> old(self).history().len() < u64::MAX,
        ensures
            final(self).spec_root().records(
                operation.after(old(self).history()),
                old(self).spec_depth(),
                Seq::empty(),
            ),
            final(self).history() == old(self).history(),
            final(self).spec_depth() == old(self).spec_depth(),
    {
        let ghost context = self.history@;
        proof {
            assert(context.push(operation.bit()).drop_last() == context);
        }
        if self.history_size() < self.depth {
            proof {
                lemma_off_context_unchanged(
                    self.root,
                    context,
                    operation.bit(),
                    self.depth as nat,
                    Seq::empty(),
                );
            }
            return ;
        }
        proof {
            lemma_records_height(
                self.root,
                operation.before(context),
                self.depth as nat,
                Seq::empty(),
            );
            assert(context_path(context, 0) == Seq::<Bit>::empty());
        }
        self.root.execute(operation, &self.history, 0);
    }

    /// Absorbs one bit: counts it on the current context, then appends it
    /// to the history.
    fn update_bit(&mut self, bit: Bit)
        requires
            old(self).well_formed(),
            old(self).history().len() < usize::MAX,
        ensures
            final(self).well_formed(),
            final(self).history() == old(self).history().push(bit),
            final(self).spec_depth() == old(self).spec_depth(),
    {
        self.for_node_in_context(Operation::Apply(bit));
        self.history.push(bit);
    }

    /// Gives the latest bit up: removes it from the history, then takes its
    /// count back on the context it had followed.
    fn revert_last(&mut self)
        requires
            old(self).well_formed(),
            old(self).history().len() > 0,
        ensures
            final(self).well_formed(),
            final(self).history() == old(self).history().drop_last(),
            final(self).spec_depth() == old(self).spec_depth(),
    {
        let ghost before = self.history@;
        match self.history.pop() {
            Ok(bit) => {
                assert(before == self.history@.push(bit));
                self.for_node_in_context(Operation::Undo(bit));
            },
            Err(_) => {},
        }
    }
}

impl Predictor for ContextTree {
    open spec fn well_formed(&self) -> bool {
        &&& self.spec_root().records(self.history(), self.spec_depth(), Seq::empty())
        &&& tree_size(self.spec_depth()) <= usize::MAX
    }

    closed spec fn history(&self) -> Seq<Bit> {
        self.history@
    }

    fn history_size(&self) -> (size: usize) {
        self.history.len()
    }

    fn update(&mut self, bitstring: &Bitstring)
        ensures
            final(self).spec_depth() == old(self).spec_depth(),
    {
        let length = bitstring.len();
        let mut i: usize = 0;
        while i < length
            invariant
                length == bitstring@.len(),
                i <= length,
                self.well_formed(),
                self.spec_depth() == old(self).spec_depth(),
                self.history() == old(self).history() + bitstring@.take(i as int),
                old(self).history().len() + bitstring@.len() <= usize::MAX,
            decreases length - i,
        {
            let bit = bitstring.bit(i);
            self.update_bit(bit);
            i += 1;
            assert(bitstring@.take(i as int) == bitstring@.take(i - 1).push(bit));
            assert(self.history() == old(self).history() + bitstring@.take(i as int));
        }
        assert(bitstring@.take(length as int) == bitstring@);
    }

    fn revert_to_history_size(&mut self, target_size: usize) -> (result: Result<
        (),
        PredictorError,
    >)
        ensures
            final(self).spec_depth() == old(self).spec_depth(),
            result is Err ==> final(self).spec_root() == old(self).spec_root(),
    {
        if target_size > self.history_size() {
            return Err(PredictorError::InvalidRevertTarget);
        }
        assert(self.history() == old(self).history().take(self.history().len() as int));
        while self.history_size() > target_size
            invariant
                self.well_formed(),
                self.spec_depth() == old(self).spec_depth(),
                target_size <= self.history().len() <= old(self).history().len(),
                self.history() == old(self).history().take(self.history().len() as int),
            decreases self.history().len(),
        {
            let ghost longer = self.history();
            self.revert_last();
            assert(self.history() == old(self).history().take(self.history().len() as int)) by {
                assert(longer.drop_last() == old(self).history().take(longer.len() - 1));
            }
        }
        Ok(())
    }
}

/// A subtree that records a history is complete: it has as many nodes as a
/// complete binary tree of the height that is left below its context.
pub proof fn lemma_records_node_count(node: Node, history: Seq<Bit>, depth: nat, path: Seq<Bit>)
    requires
        node.records(history, depth, path),
        path.len() <= depth,
    ensures
        node.node_count() == tree_size((depth - path.len()) as nat),
    decreases depth - path.len(),
{
    let below = (depth - path.len()) as nat;
    if path.len() < depth {
        let zero = node.child(Bit::Zero);
        let one = node.child(Bit::One);
        lemma_records_node_count(zero, history, depth, path.push(Bit::Zero));
        lemma_records_node_count(one, history, depth, path.push(Bit::One));
        assert(node.node_count() == 1 + zero.node_count() + one.node_count());
        lemma_pow2_unfold(below + 1);
        lemma_pow2_pos(below);
        assert(zero.node_count() == tree_size((below - 1) as nat));
        assert(one.node_count() == tree_size((below - 1) as nat));
        assert(((below - 1) as nat) + 1 == below);
    } else {
        assert(node.node_count() == 1);
        lemma2_to64();
    }
}

/// The counts of a subtree are set by the history alone: two subtrees that
/// record the same history for the same context are the same.
pub proof fn lemma_records_unique(
    first: Node,
    second: Node,
    history: Seq<Bit>,
    depth: nat,
    path: Seq<Bit>,
)
    requires
        first.records(history, depth, path),
        second.records(history, depth, path),
    ensures
        first == second,
    decreases depth - path.len(),
{
    if path.len() < depth {
        lemma_records_unique(
            first.child(Bit::Zero),
            second.child(Bit::Zero),
            history,
            depth,
            path.push(Bit::Zero),
        );
        lemma_records_unique(
            first.child(Bit::One),
            second.child(Bit::One),
            history,
            depth,
            path.push(Bit::One),
        );
        assert(first.zero_child == second.zero_child);
        assert(first.one_child == second.one_child);
    }
}

/// A well-formed tree is set by its depth and its history.
pub proof fn lemma_tree_determined(first: ContextTree, second: ContextTree)
    requires
        first.well_formed(),
        second.well_formed(),
        first.spec_depth() == second.spec_depth(),
        first.history() == second.history(),
    ensures
        first.spec_root() == second.spec_root(),
{
    lemma_records_unique(
        first.spec_root(),
        second.spec_root(),
        first.history(),
        first.spec_depth(),
        Seq::empty(),
    );
}

/// Cutting the history back undoes the updates since: where `updated` has
/// absorbed `bits` on top of `before`, and `reverted` is `updated` cut back
/// to the length that `before` had, `reverted` has the history and every
/// count of `before`.
pub proof fn lemma_revert_undoes_update(
    before: ContextTree,
    updated: ContextTree,
    reverted: ContextTree,
    bits: Seq<Bit>,
)
    requires
        before.well_formed(),
        updated.well_formed(),
        reverted.well_formed(),
        updated.spec_depth() == before.spec_depth(),
        reverted.spec_depth() == updated.spec_depth(),
        updated.history() == before.history() + bits,
        reverted.history() == updated.history().take(before.history().len() as int),
    ensures
        reverted.history() == before.history(),
        reverted.spec_root() == before.spec_root(),
{
    assert(reverted.history() =~= before.history());
    lemma_tree_determined(reverted, before);
}

/// A tree of a depth of up to 31 has no more nodes than can be counted.
pub proof fn lemma_tree_size_fits(depth: nat)
    ensures
        depth <= 31 ==> tree_size(depth) <= usize::MAX,
{
    if depth <= 31 {
        lemma2_to64();
        if depth < 31 {
            vstd::arithmetic::power2::lemma_pow2_strictly_increases(depth + 1, 32);
        }
    }
}

/// A tree of depth zero is a single node.
pub proof fn lemma_tree_size_of_leaf()
    ensures
        tree_size(0) == 1,
{
    lemma2_to64();
}

} // verus!
