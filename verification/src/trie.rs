//! Lookup of whole keys: the descent from a root node, one symbol of the key
//! at each branch.

use vstd::prelude::*;
use crate::bitmap::{lemma_offset_in_range, ALPHABET_SIZE};
use crate::error::IndexError;
use crate::node::{lemma_holds_gives_back, Leaf, Node, Tree};

verus! {

impl<T> Node<T> {
    /// What the trie below this node holds for `key`. A leaf answers the
    /// empty key with its payload and any longer key with nothing. A branch
    /// answers the empty key with nothing; a longer key it hands, less its
    /// first symbol, to the child for that symbol, if there is one.
    pub open spec fn lookup_spec(&self, key: Seq<u64>) -> Result<Option<Seq<T>>, IndexError>
        decreases key.len(),
    {
        match self {
            Node::Leaf(leaf) => if key.len() == 0 {
                Ok(Some(leaf@))
            } else {
                Ok(None)
            },
            Node::Tree(tree) => if key.len() == 0 {
                Ok(None)
            } else {
                match tree.entry_spec(key[0]) {
                    Err(e) => Err(e),
                    Ok(None) => Ok(None),
                    Ok(Some(child)) => child.lookup_spec(key.skip(1)),
                }
            },
        }
    }
}

/// The result of a lookup, with the payload taken as a sequence.
pub open spec fn outcome<T>(found: Result<Option<&Vec<T>>, IndexError>) -> Result<
    Option<Seq<T>>,
    IndexError,
> {
    match found {
        Ok(Some(values)) => Ok(Some(values@)),
        Ok(None) => Ok(None),
        Err(e) => Err(e),
    }
}

/// The payload that the trie below `root` holds for `key`, if any.
pub fn lookup<'a, T>(root: &'a Node<T>, key: &[u64]) -> (found: Result<
    Option<&'a Vec<T>>,
    IndexError,
>)
    ensures
        outcome(found) == root.lookup_spec(key@),
        found != Err::<Option<&Vec<T>>, IndexError>(IndexError::CorruptIndex),
{
    let mut current: &Node<T> = root;
    let mut used: usize = 0;
    assert(key@.skip(0) =~= key@);
    loop
        invariant
            used <= key.len(),
            root.lookup_spec(key@) == current.lookup_spec(key@.skip(used as int)),
        decreases key.len() - used,
    {
        match current {
            Node::Leaf(leaf) => {
                if used == key.len() {
                    return Ok(Some(leaf.values()));
                } else {
                    return Ok(None);
                }
            },
            Node::Tree(tree) => {
                if used == key.len() {
                    return Ok(None);
                }
                match tree.entry_for(key[used]) {
                    Err(e) => {
                        return Err(e);
                    },
                    Ok(None) => {
                        return Ok(None);
                    },
                    Ok(Some(child)) => {
                        assert(key@.skip(used as int).skip(1) =~= key@.skip(used + 1));
                        current = child;
                        used += 1;
                    },
                }
            },
        }
    }
}

/// A trie: a root node and all that lies below it.
#[derive(PartialEq, Eq, PartialOrd, Ord, Debug)]
pub struct Trie<T> {
    root: Node<T>,
}

impl<T> Trie<T> {
    /// The root node.
    pub closed spec fn root_node(&self) -> Node<T> {
        self.root
    }

    /// The trie below `root`.
    pub fn new(root: Node<T>) -> (trie: Self)
        ensures
            trie.root_node() == root,
    {
        Self { root }
    }

    /// The root node.
    pub fn root(&self) -> (root: &Node<T>)
        ensures
            *root == self.root_node(),
    {
        &self.root
    }

    /// The payload that the trie holds for `key`, if any.
    pub fn lookup(&self, key: &[u64]) -> (found: Result<Option<&Vec<T>>, IndexError>)
        ensures
            outcome(found) == self.root_node().lookup_spec(key@),
            found != Err::<Option<&Vec<T>>, IndexError>(IndexError::CorruptIndex),
    {
        lookup(&self.root, key)
    }
}

impl<T: Clone> Clone for Trie<T> {
    fn clone(&self) -> (copy: Self)
        ensures
            self.root_node().cloned_as(&copy.root_node()),
    {
        Self { root: self.root.clone() }
    }
}

/// A leaf answers only the empty key: with symbols left over, the lookup
/// finds nothing, whatever the symbols are.
pub proof fn lemma_leaf_ends_the_key<T>(leaf: Leaf<T>, key: Seq<u64>)
    ensures
        key.len() == 0 ==> Node::Leaf(leaf).lookup_spec(key) == Ok::<Option<Seq<T>>, IndexError>(
            Some(leaf@),
        ),
        key.len() > 0 ==> Node::Leaf(leaf).lookup_spec(key) == Ok::<Option<Seq<T>>, IndexError>(
            None,
        ),
{
}

/// There is no matching by prefix: where a key leads to a leaf, every
/// longer key that starts with it finds nothing.
pub proof fn lemma_no_prefix_match<T>(root: Node<T>, key: Seq<u64>, more: Seq<u64>)
    requires
        root.lookup_spec(key) matches Ok(Some(_)),
        more.len() > 0,
    ensures
        root.lookup_spec(key + more) == Ok::<Option<Seq<T>>, IndexError>(None),
    decreases key.len(),
{
    match root {
        Node::Leaf(_) => {},
        Node::Tree(tree) => {
            let child = tree.entry_spec(key[0])->Ok_0->0;
            assert((key + more).skip(1) =~= key.skip(1) + more);
            lemma_no_prefix_match(*child, key.skip(1), more);
        },
    }
}

/// A branch is never itself an answer: where a key leads to a leaf, every
/// shorter key that it starts with finds nothing.
pub proof fn lemma_branch_is_no_answer<T>(root: Node<T>, key: Seq<u64>, more: Seq<u64>)
    requires
        root.lookup_spec(key + more) matches Ok(Some(_)),
        more.len() > 0,
    ensures
        root.lookup_spec(key) == Ok::<Option<Seq<T>>, IndexError>(None),
    decreases key.len(),
{
    match root {
        Node::Leaf(_) => {},
        Node::Tree(tree) => {
            if key.len() > 0 {
                let child = tree.entry_spec(key[0])->Ok_0->0;
                assert((key + more).skip(1) =~= key.skip(1) + more);
                lemma_branch_is_no_answer(*child, key.skip(1), more);
            }
        },
    }
}

/// Below a branch that holds a mapping, a key is looked up under its first
/// symbol: in the node that the mapping has for that symbol, with the rest
/// of the key, or nowhere if the mapping has none.
pub proof fn lemma_lookup_through_mapping<T>(
    tree: Tree<T>,
    entries: Map<u64, Node<T>>,
    key: Seq<u64>,
)
    requires
        tree.holds(entries),
        key.len() > 0,
    ensures
        Node::Tree(tree).lookup_spec(key) == if key[0] >= ALPHABET_SIZE {
            Err::<Option<Seq<T>>, IndexError>(IndexError::InvalidSymbol)
        } else if entries.contains_key(key[0]) {
            entries[key[0]].lookup_spec(key.skip(1))
        } else {
            Ok::<Option<Seq<T>>, IndexError>(None)
        },
{
    lemma_holds_gives_back(tree, entries, key[0]);
}

/// Lookup is total on sound input: in a well-formed trie, a key made of
/// symbols of the alphabet is never answered with an error.
pub proof fn lemma_lookup_total<T>(root: Node<T>, key: Seq<u64>)
    requires
        root.well_formed(),
        forall|i: int| 0 <= i < key.len() ==> key[i] < ALPHABET_SIZE,
    ensures
        root.lookup_spec(key) is Ok,
    decreases key.len(),
{
    match root {
        Node::Leaf(_) => {},
        Node::Tree(tree) => {
            if key.len() > 0 {
                match tree.entry_spec(key[0]) {
                    Ok(Some(child)) => {
                        lemma_offset_in_range(tree.bitmap(), key[0] as int);
                        assert forall|i: int| 0 <= i < key.skip(1).len() implies key.skip(1)[i]
                            < ALPHABET_SIZE by {
                            assert(key.skip(1)[i] == key[i + 1]);
                        }
                        lemma_lookup_total(*child, key.skip(1));
                    },
                    _ => {},
                }
            }
        },
    }
}

} // verus!
