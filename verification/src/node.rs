//! The nodes of the trie: leaves that hold payload, and branches that hold
//! one child for each marked symbol of a bitmap.

use vstd::prelude::*;
use std::collections::HashMap;
use crate::bitmap::{
    bitmap_index_of, compact_offset, is_set, lemma_empty_bitmap, lemma_offset_in_range,
    lemma_offsets_enumerate, lemma_present_below_bounds, lemma_present_below_monotone,
    lemma_same_symbols_same_bitmap, lemma_with_symbol, popcnt, popcount, present_below,
    present_symbols, symbol_present, with_symbol, ALPHABET_SIZE,
};
use crate::error::IndexError;

verus! {

/// A branch: a presence bitmap and, for each marked symbol in ascending
/// order, one child.
#[derive(PartialEq, Eq, PartialOrd, Ord, Debug)]
pub struct Tree<T> {
    bitmap: u64,
    children: Vec<Node<T>>,
}

/// A leaf: the payload reached once a key is used up.
#[derive(PartialEq, Eq, PartialOrd, Ord, Debug)]
pub struct Leaf<T> {
    data: Vec<T>,
}

/// A node of the trie.
#[derive(PartialEq, Eq, PartialOrd, Ord, Debug)]
pub enum Node<T> {
    Leaf(Leaf<T>),
    Tree(Tree<T>),
}

impl<T> View for Leaf<T> {
    type V = Seq<T>;

    /// The payload, in order.
    closed spec fn view(&self) -> Seq<T> {
        self.data@
    }
}

impl<T> Leaf<T> {
    /// A leaf that holds `data`.
    pub fn new(data: Vec<T>) -> (leaf: Self)
        ensures
            leaf@ == data@,
    {
        Self { data }
    }

    /// The payload of the leaf.
    pub fn values(&self) -> (data: &Vec<T>)
        ensures
            data@ == self@,
    {
        &self.data
    }
}

impl<T> Tree<T> {
    /// Every branch that exists has one child for each marked symbol.
    #[verifier::type_invariant]
    spec fn inv(&self) -> bool {
        self.children@.len() == popcount(self.bitmap)
    }

    /// The presence bitmap of the branch.
    pub closed spec fn bitmap(&self) -> u64 {
        self.bitmap
    }

    /// The children of the branch, in the order in which they are stored.
    pub closed spec fn children(&self) -> Seq<Node<T>> {
        self.children@
    }

    /// The invariant of a branch: it has one child for each marked symbol.
    pub open spec fn consistent(&self) -> bool {
        self.children().len() == popcount(self.bitmap())
    }

    /// What the branch holds for `key`: an error for a key outside the
    /// alphabet, nothing for a symbol that is not marked, an error for a
    /// marked symbol in a branch that is not consistent, and else the child
    /// at the symbol's offset.
    pub open spec fn entry_spec(&self, key: u64) -> Result<Option<&Node<T>>, IndexError> {
        if key >= ALPHABET_SIZE {
            Err(IndexError::InvalidSymbol)
        } else if !symbol_present(self.bitmap(), key as int) {
            Ok(None)
        } else if !self.consistent() {
            Err(IndexError::CorruptIndex)
        } else {
            Ok(Some(&self.children()[compact_offset(self.bitmap(), key as int) as int]))
        }
    }

    /// Whether the branch holds exactly what `entries` maps symbols to: a
    /// symbol is marked where `entries` has it, and its child is the node
    /// that `entries` gives it.
    pub open spec fn holds(&self, entries: Map<u64, Node<T>>) -> bool {
        &&& self.consistent()
        &&& forall|symbol: u64| #[trigger]
            entries.contains_key(symbol) <==> symbol_present(self.bitmap(), symbol as int)
        &&& forall|symbol: u64| #[trigger]
            entries.contains_key(symbol) ==> self.children()[compact_offset(
                self.bitmap(),
                symbol as int,
            ) as int] == entries[symbol]
    }

    /// A branch made of the given parts, provided that there is one child
    /// for each marked symbol; with any other number of children no branch
    /// is made. The children are taken in the order given, which is to be
    /// the ascending order of their symbols.
    pub fn new(bitmap: u64, children: Vec<Node<T>>) -> (built: Result<Self, IndexError>)
        ensures
            children@.len() == popcount(bitmap) ==> {
                &&& built matches Ok(tree)
                &&& tree.bitmap() == bitmap
                &&& tree.children() == children@
                &&& tree.consistent()
            },
            children@.len() != popcount(bitmap) ==> built == Err::<Self, IndexError>(
                IndexError::StructuralMismatch,
            ),
    {
        if children.len() != popcnt(bitmap) as usize {
            Err(IndexError::StructuralMismatch)
        } else {
            Ok(Self { bitmap, children })
        }
    }

    /// The same as `new`, under the name that says what it does: a branch
    /// is built only where the children match the bitmap.
    pub fn build(bitmap: u64, children: Vec<Node<T>>) -> (built: Result<Self, IndexError>)
        ensures
            children@.len() == popcount(bitmap) ==> {
                &&& built matches Ok(tree)
                &&& tree.bitmap() == bitmap
                &&& tree.children() == children@
                &&& tree.consistent()
            },
            children@.len() != popcount(bitmap) ==> built == Err::<Self, IndexError>(
                IndexError::StructuralMismatch,
            ),
    {
        Self::new(bitmap, children)
    }

    /// The branch that holds the nodes of `entries`, each under its symbol.
    /// A key outside the alphabet is an error.
    pub fn from_mapping(entries: HashMap<u64, Node<T>>) -> (built: Result<Self, IndexError>)
        ensures
            built is Ok <==> forall|symbol: u64| #[trigger]
                entries@.contains_key(symbol) ==> symbol < ALPHABET_SIZE,
            built matches Ok(tree) ==> tree.holds(entries@),
            built matches Err(e) ==> e == IndexError::InvalidSymbol,
    {
        broadcast use vstd::std_specs::hash::group_hash_axioms;

        let mut rest = entries;
        let mut bitmap: u64 = 0;
        let mut children: Vec<Node<T>> = Vec::new();
        let mut symbol: u64 = 0;
        proof {
            lemma_empty_bitmap();
        }
        while symbol < ALPHABET_SIZE
            invariant
                symbol <= ALPHABET_SIZE,
                holds_below(bitmap, children@, entries@, symbol as int),
                forall|k: u64| #[trigger]
                    rest@.contains_key(k) <==> entries@.contains_key(k) && k >= symbol,
                forall|k: u64| #[trigger] rest@.contains_key(k) ==> rest@[k] == entries@[k],
            decreases ALPHABET_SIZE - symbol,
        {
            let ghost before = bitmap;
            match rest.remove(&symbol) {
                Some(node) => {
                    bitmap = bitmap | (1u64 << (ALPHABET_SIZE - 1 - symbol));
                    children.push(node);
                    proof {
                        assert(bitmap == with_symbol(before, symbol as int));
                        lemma_with_symbol(before, symbol as int);
                        assert forall|k: u64|
                            k <= symbol && #[trigger] entries@.contains_key(k) implies
                            children@[present_below(bitmap, k as int) as int] == entries@[k] by {
                            assert(present_below(bitmap, k as int) == present_below(
                                before,
                                k as int,
                            ));
                            if k < symbol {
                                lemma_present_below_monotone(before, k as int, symbol as int);
                            }
                        }
                    }
                },
                None => {},
            }
            symbol += 1;
        }
        if rest.is_empty() {
            proof {
                lemma_present_below_bounds(bitmap, 64);
                assert forall|k: u64| #[trigger] entries@.contains_key(k) implies k
                    < ALPHABET_SIZE by {
                    assert(!rest@.contains_key(k));
                }
            }
            Ok(Self { bitmap, children })
        } else {
            Err(IndexError::InvalidSymbol)
        }
    }

    /// The child for symbol `key`, if the symbol is marked. A symbol that is
    /// not marked has no child, whatever the children are; the children
    /// are counted before one of them is handed out.
    pub fn entry_for(&self, key: u64) -> (entry: Result<Option<&Node<T>>, IndexError>)
        ensures
            entry == self.entry_spec(key),
            entry != Err::<Option<&Node<T>>, IndexError>(IndexError::CorruptIndex),
    {
        proof {
            use_type_invariant(self);
        }
        match is_set(self.bitmap, key) {
            Err(e) => Err(e),
            Ok(marked) => {
                if !marked {
                    Ok(None)
                } else if self.children.len() != popcnt(self.bitmap) as usize {
                    // Ruled out by the invariant of the type, and tested all
                    // the same before a child is handed out.
                    Err(IndexError::CorruptIndex)
                } else {
                    let index = bitmap_index_of(self.bitmap, key);
                    proof {
                        lemma_offset_in_range(self.bitmap, key as int);
                    }
                    Ok(Some(&self.children[index]))
                }
            },
        }
    }
}

impl<T> Node<T> {
    /// Whether every branch in the node is consistent.
    pub open spec fn well_formed(&self) -> bool
        decreases self,
    {
        match self {
            Node::Leaf(_) => true,
            Node::Tree(tree) => tree.consistent() && forall|i: int|
                0 <= i < tree.children().len() ==> (#[trigger] tree.children()[i]).well_formed(),
        }
    }
}

/// Whether `bitmap` and `children` hold what `entries` has for the symbols
/// below `upto`, and nothing else.
spec fn holds_below<T>(
    bitmap: u64,
    children: Seq<Node<T>>,
    entries: Map<u64, Node<T>>,
    upto: int,
) -> bool {
    &&& children.len() == present_below(bitmap, upto)
    &&& forall|symbol: int| upto <= symbol ==> !symbol_present(bitmap, symbol)
    &&& forall|symbol: u64|
        symbol < upto ==> (#[trigger] entries.contains_key(symbol) <==> symbol_present(
            bitmap,
            symbol as int,
        ))
    &&& forall|symbol: u64|
        symbol < upto && #[trigger] entries.contains_key(symbol) ==> children[present_below(
            bitmap,
            symbol as int,
        ) as int] == entries[symbol]
}

/// A consistent branch, which is what every constructor makes, never
/// answers that it is corrupt.
pub proof fn lemma_consistent_is_not_corrupt<T>(tree: Tree<T>, key: u64)
    requires
        tree.consistent(),
    ensures
        tree.entry_spec(key) != Err::<Option<&Node<T>>, IndexError>(IndexError::CorruptIndex),
{
}

/// In a consistent branch the children stand in ascending order of their
/// symbols, with none left out: child `i` is the entry for the `i`-th
/// marked symbol.
pub proof fn lemma_children_in_symbol_order<T>(tree: Tree<T>)
    requires
        tree.consistent(),
    ensures
        present_symbols(tree.bitmap()).len() == tree.children().len(),
        forall|i: int|
            0 <= i < tree.children().len() ==> {
                let symbol = #[trigger] present_symbols(tree.bitmap())[i];
                &&& 0 <= symbol < ALPHABET_SIZE
                &&& tree.entry_spec(symbol as u64) == Ok::<Option<&Node<T>>, IndexError>(
                    Some(&tree.children()[i]),
                )
            },
{
    lemma_offsets_enumerate(tree.bitmap());
}

/// A branch that holds a mapping answers each symbol as the mapping does:
/// with the node under the symbol, or with nothing where the mapping has
/// none.
pub proof fn lemma_holds_gives_back<T>(tree: Tree<T>, entries: Map<u64, Node<T>>, key: u64)
    requires
        tree.holds(entries),
    ensures
        key >= ALPHABET_SIZE ==> tree.entry_spec(key) == Err::<Option<&Node<T>>, IndexError>(
            IndexError::InvalidSymbol,
        ),
        key < ALPHABET_SIZE && !entries.contains_key(key) ==> tree.entry_spec(key) == Ok::<
            Option<&Node<T>>,
            IndexError,
        >(None),
        key < ALPHABET_SIZE && entries.contains_key(key) ==> tree.entry_spec(key) == Ok::<
            Option<&Node<T>>,
            IndexError,
        >(Some(&entries[key])),
{
}

/// A branch that holds a mapping has its children in ascending order of
/// their symbols: child `i` is the node under the `i`-th marked symbol.
pub proof fn lemma_holds_in_symbol_order<T>(tree: Tree<T>, entries: Map<u64, Node<T>>)
    requires
        tree.holds(entries),
    ensures
        tree.children().len() == present_symbols(tree.bitmap()).len(),
        forall|i: int|
            0 <= i < tree.children().len() ==> {
                let symbol = present_symbols(tree.bitmap())[i] as u64;
                &&& entries.contains_key(symbol)
                &&& #[trigger] tree.children()[i] == entries[symbol]
            },
{
    lemma_offsets_enumerate(tree.bitmap());
}

/// A mapping is held by one branch only: its bitmap and its children are
/// decided by the mapping.
pub proof fn lemma_holds_decides<T>(one: Tree<T>, other: Tree<T>, entries: Map<u64, Node<T>>)
    requires
        one.holds(entries),
        other.holds(entries),
    ensures
        one.bitmap() == other.bitmap(),
        one.children() == other.children(),
{
    assert forall|symbol: int| 0 <= symbol < 64 implies symbol_present(one.bitmap(), symbol)
        == symbol_present(other.bitmap(), symbol) by {
        assert(entries.contains_key(symbol as u64) <==> symbol_present(one.bitmap(), symbol));
        assert(entries.contains_key(symbol as u64) <==> symbol_present(other.bitmap(), symbol));
    }
    lemma_same_symbols_same_bitmap(one.bitmap(), other.bitmap());
    lemma_holds_in_symbol_order(one, entries);
    lemma_holds_in_symbol_order(other, entries);
    assert(one.children() =~= other.children());
}

/// A branch that holds a mapping of well-formed nodes is a well-formed
/// node.
pub proof fn lemma_holds_well_formed<T>(tree: Tree<T>, entries: Map<u64, Node<T>>)
    requires
        tree.holds(entries),
        forall|symbol: u64| #[trigger]
            entries.contains_key(symbol) ==> entries[symbol].well_formed(),
    ensures
        Node::Tree(tree).well_formed(),
{
    lemma_holds_in_symbol_order(tree, entries);
}

impl<T: Clone> Leaf<T> {
    /// Whether `copy` holds a clone of each payload item, in order.
    pub open spec fn cloned_as(&self, copy: &Leaf<T>) -> bool {
        &&& self@.len() == copy@.len()
        &&& forall|i: int| 0 <= i < self@.len() ==> cloned::<T>(#[trigger] self@[i], copy@[i])
    }
}

impl<T: Clone> Tree<T> {
    /// Whether `copy` has the bitmap of this branch and, child by child, the
    /// shape of its children.
    pub open spec fn cloned_as(&self, copy: &Tree<T>) -> bool {
        &&& self.bitmap() == copy.bitmap()
        &&& self.children().len() == copy.children().len()
        &&& forall|i: int|
            0 <= i < self.children().len() ==> (#[trigger] self.children()[i]).cloned_as(
                &copy.children()[i],
            )
    }
}

impl<T: Clone> Node<T> {
    /// Whether `copy` has the shape of this node, with a clone in the place
    /// of each payload item.
    pub open spec fn cloned_as(&self, copy: &Node<T>) -> bool
        decreases self,
    {
        match (self, copy) {
            (Node::Leaf(leaf), Node::Leaf(other)) => leaf.cloned_as(other),
            (Node::Tree(tree), Node::Tree(other)) => {
                &&& tree.bitmap() == other.bitmap()
                &&& tree.children().len() == other.children().len()
                &&& forall|i: int|
                    0 <= i < tree.children().len() ==> (#[trigger] tree.children()[i]).cloned_as(
                        &other.children()[i],
                    )
            },
            _ => false,
        }
    }
}

impl<T: Clone> Clone for Leaf<T> {
    fn clone(&self) -> (copy: Self)
        ensures
            self.cloned_as(&copy),
    {
        Leaf { data: self.data.clone() }
    }
}

impl<T: Clone> Clone for Tree<T> {
    fn clone(&self) -> (copy: Self)
        ensures
            self.cloned_as(&copy),
    {
        copy_tree(self)
    }
}

impl<T: Clone> Clone for Node<T> {
    fn clone(&self) -> (copy: Self)
        ensures
            self.cloned_as(&copy),
    {
        copy_node(self)
    }
}

/// A copy of `node`, made of copies of all that it holds.
fn copy_node<T: Clone>(node: &Node<T>) -> (copy: Node<T>)
    ensures
        node.cloned_as(&copy),
    decreases node, 0int,
{
    match node {
        Node::Leaf(leaf) => Node::Leaf(leaf.clone()),
        Node::Tree(tree) => Node::Tree(copy_tree(tree)),
    }
}

/// A copy of `tree`, made of copies of all that it holds.
fn copy_tree<T: Clone>(tree: &Tree<T>) -> (copy: Tree<T>)
    ensures
        tree.cloned_as(&copy),
    decreases tree, 1int,
{
    proof {
        use_type_invariant(tree);
    }
    let mut children: Vec<Node<T>> = Vec::new();
    let mut i: usize = 0;
    while i < tree.children.len()
        invariant
            i <= tree.children.len(),
            tree.children@.len() == popcount(tree.bitmap),
            children@.len() == i,
            forall|j: int| 0 <= j < i ==> (#[trigger] tree.children@[j]).cloned_as(&children@[j]),
        decreases tree.children.len() - i,
    {
        children.push(copy_node(&tree.children[i]));
        i += 1;
    }
    Tree { bitmap: tree.bitmap, children }
}

} // verus!
