//! The authenticated dictionary itself: a binary tree with one level for
//! each bit of a key, in which a subtree that holds nothing takes no room.

use vstd::prelude::*;
use crate::commitment::{
    agree_under, combine, commitment, leaf_digest, lemma_commitment_is_local,
    lemma_unoccupied_is_vacant, lemma_write_moves_commitment, occupant, subtree_commitment,
    witness_of, Contents,
};
use crate::digest::{sha256, vacant_bytes, Digest};
use crate::error::TreeError;
use crate::hashing::{bit_at, combine_digests, hash_entry};
use crate::path::{
    key_bit, lemma_full_prefix_names_one_key, lemma_own_path, lemma_under_child, lies_under,
    path_prefix, sibling_prefix, Key,
};
use crate::transition::{
    insert_outcome, update_outcome, InsertProof, InsertProofView, UpdateProof, UpdateProofView,
    WitnessLeaf,
};

verus! {

/// One subtree.
enum Node {
    /// Nothing is stored below this point.
    Vacant,
    /// The end of a path: one key with its value.
    Leaf { key: Key, value: Vec<u8>, digest: Digest },
    /// A fork with at least one key below it.
    Inner { left: Box<Node>, right: Box<Node>, digest: Digest },
}

impl Node {
    /// The digest that stands for this subtree.
    spec fn digest_view(self) -> Seq<u8> {
        match self {
            Node::Vacant => vacant_bytes(),
            Node::Leaf { key, value, digest } => digest@,
            Node::Inner { left, right, digest } => digest@,
        }
    }

    /// What the subtree holds.
    spec fn contents(self) -> Contents
        decreases self,
    {
        match self {
            Node::Vacant => Map::empty(),
            Node::Leaf { key, value, digest } => Map::empty().insert(key@, value@),
            Node::Inner { left, right, digest } => (*left).contents().union_prefer_right(
                (*right).contents(),
            ),
        }
    }

    /// Whether the subtree is a sound subtree for the place `prefix`: leaves
    /// stand at the end of their own key's path, every stored digest is the
    /// digest of what is below it, and no fork is empty.
    spec fn wf(self, prefix: Seq<bool>) -> bool
        decreases self,
    {
        match self {
            Node::Vacant => true,
            Node::Leaf { key, value, digest } => {
                &&& prefix.len() == 256
                &&& lies_under(key@, prefix)
                &&& digest@ == leaf_digest(key@, value@)
            },
            Node::Inner { left, right, digest } => {
                &&& prefix.len() < 256
                &&& (*left).wf(prefix.push(false))
                &&& (*right).wf(prefix.push(true))
                &&& digest@ == combine((*left).digest_view(), (*right).digest_view())
                &&& exists|key: Seq<u8>| #[trigger] self.contents().dom().contains(key)
            },
        }
    }

    /// Every key of a sound subtree lies under the subtree's prefix.
    proof fn lemma_keys_under(self, prefix: Seq<bool>)
        requires
            self.wf(prefix),
        ensures
            forall|key: Seq<u8>| #[trigger]
                self.contents().dom().contains(key) ==> lies_under(key, prefix),
        decreases self,
    {
        match self {
            Node::Vacant => {},
            Node::Leaf { key, value, digest } => {},
            Node::Inner { left, right, digest } => {
                (*left).lemma_keys_under(prefix.push(false));
                (*right).lemma_keys_under(prefix.push(true));
                assert forall|key: Seq<u8>| #[trigger]
                    self.contents().dom().contains(key) implies lies_under(key, prefix) by {
                    if (*right).contents().dom().contains(key) {
                        lemma_under_child(key, prefix, true);
                    } else {
                        assert((*left).contents().dom().contains(key));
                        lemma_under_child(key, prefix, false);
                    }
                }
            },
        }
    }

    /// Under the prefix of one half, a fork holds what that half holds.
    proof fn lemma_half_agrees(self, prefix: Seq<bool>, turn: bool)
        requires
            self.wf(prefix),
            self is Inner,
        ensures
            turn ==> agree_under(self.contents(), (*self->right).contents(), prefix.push(true)),
            !turn ==> agree_under(self.contents(), (*self->left).contents(), prefix.push(false)),
    {
        let left = *self->left;
        let right = *self->right;
        left.lemma_keys_under(prefix.push(false));
        right.lemma_keys_under(prefix.push(true));
        if turn {
            assert forall|key: Seq<u8>| #[trigger]
                lies_under(key, prefix.push(true)) implies {
                &&& self.contents().dom().contains(key) == right.contents().dom().contains(key)
                &&& self.contents().dom().contains(key) ==> self.contents()[key]
                    == right.contents()[key]
            } by {
                lemma_under_child(key, prefix, true);
                if left.contents().dom().contains(key) {
                    lemma_under_child(key, prefix, false);
                }
            }
        } else {
            assert forall|key: Seq<u8>| #[trigger]
                lies_under(key, prefix.push(false)) implies {
                &&& self.contents().dom().contains(key) == left.contents().dom().contains(key)
                &&& self.contents().dom().contains(key) ==> self.contents()[key]
                    == left.contents()[key]
            } by {
                lemma_under_child(key, prefix, false);
                if right.contents().dom().contains(key) {
                    lemma_under_child(key, prefix, true);
                }
            }
        }
    }

    /// The digest of a sound subtree is the commitment to what it holds.
    proof fn lemma_digest_commits(self, prefix: Seq<bool>)
        requires
            self.wf(prefix),
            prefix.len() <= 256,
        ensures
            self.digest_view() == subtree_commitment(self.contents(), prefix),
        decreases self,
    {
        match self {
            Node::Vacant => {
                lemma_unoccupied_is_vacant(self.contents(), prefix);
            },
            Node::Leaf { key, value, digest } => {
                assert(self.contents().dom().contains(key@));
                lemma_full_prefix_names_one_key(occupant(self.contents(), prefix), key@, prefix);
            },
            Node::Inner { left, right, digest } => {
                (*left).lemma_digest_commits(prefix.push(false));
                (*right).lemma_digest_commits(prefix.push(true));
                self.lemma_half_agrees(prefix, false);
                self.lemma_half_agrees(prefix, true);
                lemma_commitment_is_local(self.contents(), (*left).contents(), prefix.push(false));
                lemma_commitment_is_local(self.contents(), (*right).contents(), prefix.push(true));
            },
        }
    }

    /// A sound subtree that takes room holds a key.
    proof fn lemma_holds_something(self, prefix: Seq<bool>)
        requires
            self.wf(prefix),
            !(self is Vacant),
        ensures
            exists|key: Seq<u8>| #[trigger] self.contents().dom().contains(key),
    {
        match self {
            Node::Vacant => {},
            Node::Leaf { key, value, digest } => {
                assert(self.contents().dom().contains(key@));
            },
            Node::Inner { left, right, digest } => {},
        }
    }

    /// The digest that stands for this subtree.
    fn digest(&self) -> (digest: Digest)
        ensures
            digest@ == self.digest_view(),
    {
        match self {
            Node::Vacant => Digest::vacant(),
            Node::Leaf { key: _, value: _, digest } => *digest,
            Node::Inner { left: _, right: _, digest } => *digest,
        }
    }
}

/// A copy of a byte string.
fn copy_bytes(bytes: &Vec<u8>) -> (copy: Vec<u8>)
    ensures
        copy@ == bytes@,
{
    bytes.clone()
}

/// What lies under a subtree beside the path to `key`, deeper than `depth`,
/// lies under the path itself down to `depth`.
proof fn lemma_beside_is_under_path(other: Seq<u8>, key: Seq<u8>, depth: int, deeper: int)
    requires
        0 <= depth <= deeper < 256,
        lies_under(other, sibling_prefix(key, deeper)),
    ensures
        lies_under(other, path_prefix(key, depth)),
{
    let beside = sibling_prefix(key, deeper);
    let path = path_prefix(key, depth);
    assert forall|i: int| 0 <= i < path.len() implies key_bit(other, i) == #[trigger] path[i] by {
        assert(beside[i] == key_bit(key, i));
    }
}

impl Node {
    /// Walks down the path to `key` from a subtree at `depth` on that path
    /// and appends, for each level passed, the digest of the subtree beside
    /// the path; returns the value found at the end, if there is one.
    fn collect(node: &Node, key: &Key, depth: usize, siblings: &mut Vec<Digest>) -> (found: Option<
        Vec<u8>,
    >)
        requires
            depth <= 256,
            node.wf(path_prefix(key@, depth as int)),
            old(siblings)@.len() == depth,
        ensures
            final(siblings)@.len() == 256,
            forall|i: int| 0 <= i < depth ==> final(siblings)@[i] == old(siblings)@[i],
            forall|i: int|
                depth <= i < 256 ==> (#[trigger] final(siblings)@[i])@ == subtree_commitment(
                    node.contents(),
                    sibling_prefix(key@, i),
                ),
            found is Some == node.contents().dom().contains(key@),
            found is Some ==> found->Some_0@ == node.contents()[key@],
        decreases 256 - depth,
    {
        let ghost prefix = path_prefix(key@, depth as int);
        let ghost before = siblings@;
        match node {
            Node::Vacant => {
                while siblings.len() < 256
                    invariant
                        depth <= siblings@.len() <= 256,
                        forall|i: int| 0 <= i < depth ==> siblings@[i] == before[i],
                        forall|i: int|
                            depth <= i < siblings@.len() ==> (#[trigger] siblings@[i])@
                                == vacant_bytes(),
                    decreases 256 - siblings@.len(),
                {
                    siblings.push(Digest::vacant());
                }
                proof {
                    assert forall|i: int| depth <= i < 256 implies (#[trigger] siblings@[i])@
                        == subtree_commitment(node.contents(), sibling_prefix(key@, i)) by {
                        lemma_unoccupied_is_vacant(node.contents(), sibling_prefix(key@, i));
                    }
                }
                None
            },
            Node::Leaf { key: held, value, digest: _ } => {
                proof {
                    lemma_own_path(key@, 256);
                    lemma_full_prefix_names_one_key(held@, key@, prefix);
                }
                Some(copy_bytes(value))
            },
            Node::Inner { left, right, digest: _ } => {
                let turn = bit_at(key, depth);
                proof {
                    lemma_own_path(key@, depth as int);
                    node.lemma_half_agrees(prefix, turn);
                    node.lemma_half_agrees(prefix, !turn);
                    (**left).lemma_digest_commits(prefix.push(false));
                    (**right).lemma_digest_commits(prefix.push(true));
                    lemma_commitment_is_local(
                        node.contents(),
                        (**left).contents(),
                        prefix.push(false),
                    );
                    lemma_commitment_is_local(
                        node.contents(),
                        (**right).contents(),
                        prefix.push(true),
                    );
                }
                let (beside, below) = if turn {
                    (left, right)
                } else {
                    (right, left)
                };
                siblings.push(beside.digest());
                let found = Node::collect(below, key, depth + 1, siblings);
                proof {
                    assert(lies_under(key@, prefix.push(turn)));
                    assert forall|i: int| depth <= i < 256 implies (#[trigger] siblings@[i])@
                        == subtree_commitment(node.contents(), sibling_prefix(key@, i)) by {
                        if i != depth {
                            let place = sibling_prefix(key@, i);
                            assert forall|other: Seq<u8>| #[trigger]
                                lies_under(other, place) implies {
                                &&& node.contents().dom().contains(other) == (
                                **below).contents().dom().contains(other)
                                &&& node.contents().dom().contains(other) ==> node.contents()[other]
                                    == (**below).contents()[other]
                            } by {
                                lemma_beside_is_under_path(other, key@, depth + 1, i);
                            }
                            lemma_commitment_is_local(node.contents(), (**below).contents(), place);
                        }
                    }
                }
                found
            },
        }
    }

    /// Writes `value` for `key` into the subtree at `depth` on the path to
    /// `key`, whether or not the key was there, and brings the digests on
    /// the path up to date.
    fn put(node: &mut Node, key: &Key, value: Vec<u8>, depth: usize)
        requires
            depth <= 256,
            old(node).wf(path_prefix(key@, depth as int)),
        ensures
            final(node).wf(path_prefix(key@, depth as int)),
            final(node).contents() == old(node).contents().insert(key@, value@),
        decreases 256 - depth,
    {
        let ghost prefix = path_prefix(key@, depth as int);
        let ghost before = *node;
        proof {
            lemma_own_path(key@, depth as int);
            before.lemma_keys_under(prefix);
        }
        let mut taken = Node::Vacant;
        core::mem::swap(node, &mut taken);
        match taken {
            Node::Leaf { key: held, value: _, digest: _ } => {
                proof {
                    lemma_full_prefix_names_one_key(held@, key@, prefix);
                }
                let digest = hash_entry(key, value.as_slice());
                *node = Node::Leaf { key: *key, value, digest };
            },
            Node::Vacant => {
                if depth == 256 {
                    let digest = hash_entry(key, value.as_slice());
                    *node = Node::Leaf { key: *key, value, digest };
                } else {
                    let mut left = Node::Vacant;
                    let mut right = Node::Vacant;
                    if bit_at(key, depth) {
                        Node::put(&mut right, key, value, depth + 1);
                    } else {
                        Node::put(&mut left, key, value, depth + 1);
                    }
                    let digest = combine_digests(&left.digest(), &right.digest());
                    *node = Node::Inner { left: Box::new(left), right: Box::new(right), digest };
                    assert(node.contents().dom().contains(key@));
                    assert(left.wf(prefix.push(false)));
                    assert(right.wf(prefix.push(true)));
                }
            },
            Node::Inner { left, right, digest: _ } => {
                let mut left = left;
                let mut right = right;
                proof {
                    (*left).lemma_keys_under(prefix.push(false));
                    (*right).lemma_keys_under(prefix.push(true));
                }
                if bit_at(key, depth) {
                    Node::put(&mut *right, key, value, depth + 1);
                } else {
                    proof {
                        if (*right).contents().dom().contains(key@) {
                            lemma_under_child(key@, prefix, true);
                        }
                    }
                    Node::put(&mut *left, key, value, depth + 1);
                }
                let digest = combine_digests(&left.digest(), &right.digest());
                *node = Node::Inner { left, right, digest };
                assert(node.contents().dom().contains(key@));
            },
        }
    }
}

/// The proof that an insertion of `key` with `value` into a tree that holds
/// `contents` returns.
pub open spec fn insert_proof_of(
    contents: Contents,
    key: Seq<u8>,
    value: Seq<u8>,
) -> InsertProofView {
    InsertProofView {
        key,
        value,
        prior_root: commitment(contents),
        new_root: commitment(contents.insert(key, value)),
        siblings: witness_of(contents, key),
    }
}

/// The proof that an update of `key` to `value` in a tree that holds
/// `contents` returns.
pub open spec fn update_proof_of(
    contents: Contents,
    key: Seq<u8>,
    value: Seq<u8>,
) -> UpdateProofView {
    UpdateProofView {
        key,
        old_value: contents[key],
        new_value: value,
        prior_root: commitment(contents),
        new_root: commitment(contents.insert(key, value)),
        leaf_key: key,
        leaf_value_digest: sha256(contents[key]),
        siblings: witness_of(contents, key),
    }
}

/// What an insertion of `key` with `value` returns from a tree that holds
/// `contents`: an error if the key is there, else the proof.
pub open spec fn insert_result(contents: Contents, key: Seq<u8>, value: Seq<u8>) -> Result<
    InsertProofView,
    TreeError,
> {
    if contents.dom().contains(key) {
        Err(TreeError::KeyAlreadyExists)
    } else {
        Ok(insert_proof_of(contents, key, value))
    }
}

/// What a tree that held `contents` holds after an insertion of `key` with
/// `value`: the same if the key was there, else one entry more.
pub open spec fn after_insert(contents: Contents, key: Seq<u8>, value: Seq<u8>) -> Contents {
    if contents.dom().contains(key) {
        contents
    } else {
        contents.insert(key, value)
    }
}

/// What an update of `key` to `value` returns from a tree that holds
/// `contents`: an error if the key is not there, else the proof.
pub open spec fn update_result(contents: Contents, key: Seq<u8>, value: Seq<u8>) -> Result<
    UpdateProofView,
    TreeError,
> {
    if contents.dom().contains(key) {
        Ok(update_proof_of(contents, key, value))
    } else {
        Err(TreeError::KeyNotFound)
    }
}

/// What a tree that held `contents` holds after an update of `key` to
/// `value`: the same if the key was not there, else the new value for it.
pub open spec fn after_update(contents: Contents, key: Seq<u8>, value: Seq<u8>) -> Contents {
    if contents.dom().contains(key) {
        contents.insert(key, value)
    } else {
        contents
    }
}

/// The proof of an insertion verifies against the commitment before it and
/// gives the commitment after it.
pub proof fn lemma_insert_proof_verifies(contents: Contents, key: Seq<u8>, value: Seq<u8>)
    requires
        key.len() == 32,
        !contents.dom().contains(key),
    ensures
        insert_proof_of(contents, key, value).verify(commitment(contents)) == Ok::<
            Seq<u8>,
            TreeError,
        >(commitment(contents.insert(key, value))),
{
    lemma_write_moves_commitment(contents, key, value);
}

/// The proof of an update verifies against the commitment before it and
/// gives the commitment after it.
pub proof fn lemma_update_proof_verifies(contents: Contents, key: Seq<u8>, value: Seq<u8>)
    requires
        key.len() == 32,
        contents.dom().contains(key),
    ensures
        update_proof_of(contents, key, value).verify(commitment(contents)) == Ok::<
            Seq<u8>,
            TreeError,
        >(commitment(contents.insert(key, value))),
{
    lemma_write_moves_commitment(contents, key, value);
}

/// The authenticated dictionary: a mapping from keys to values with one
/// current root digest, which commits to exactly that mapping.
pub struct TreeState {
    root: Node,
}

impl View for TreeState {
    type V = Contents;

    closed spec fn view(&self) -> Contents {
        self.root.contents()
    }
}

impl TreeState {
    /// Whether the tree is sound inside. Every tree made by `new` is, and
    /// every operation keeps it so.
    pub closed spec fn wf(&self) -> bool {
        self.root.wf(Seq::<bool>::empty())
    }

    /// The digest at the root: the commitment to what the tree holds.
    pub open spec fn root(&self) -> Seq<u8> {
        commitment(self@)
    }

    /// Every key of a sound tree is 32 bytes long.
    pub proof fn lemma_keys_are_keys(&self)
        requires
            self.wf(),
        ensures
            forall|key: Seq<u8>| #[trigger] self@.dom().contains(key) ==> key.len() == 32,
    {
        self.root.lemma_keys_under(Seq::<bool>::empty());
    }

    /// A tree that holds nothing.
    pub fn new() -> (tree: TreeState)
        ensures
            tree.wf(),
            tree@ == Map::<Seq<u8>, Seq<u8>>::empty(),
    {
        TreeState { root: Node::Vacant }
    }

    /// The commitment to what the tree holds now; for a tree that holds
    /// nothing, the vacant digest.
    pub fn commitment(&self) -> (digest: Digest)
        requires
            self.wf(),
        ensures
            digest@ == self.root(),
    {
        proof {
            self.root.lemma_digest_commits(Seq::<bool>::empty());
        }
        self.root.digest()
    }

    /// The current root. A tree into which nothing was ever inserted has none.
    pub fn current_root(&self) -> (outcome: Result<Digest, TreeError>)
        requires
            self.wf(),
        ensures
            self@.dom() =~= Set::<Seq<u8>>::empty() ==> outcome == Err::<Digest, TreeError>(
                TreeError::EmptyTree,
            ),
            !(self@.dom() =~= Set::<Seq<u8>>::empty()) ==> outcome is Ok && outcome->Ok_0@
                == self.root(),
    {
        match &self.root {
            Node::Vacant => Err(TreeError::EmptyTree),
            _ => {
                proof {
                    self.root.lemma_digest_commits(Seq::<bool>::empty());
                    self.root.lemma_holds_something(Seq::<bool>::empty());
                }
                Ok(self.root.digest())
            },
        }
    }

    /// The value stored for `key`, if there is one.
    pub fn get(&self, key: &Key) -> (found: Option<Vec<u8>>)
        requires
            self.wf(),
        ensures
            found is Some == self@.dom().contains(key@),
            found is Some ==> found->Some_0@ == self@[key@],
    {
        let mut siblings: Vec<Digest> = Vec::with_capacity(256);
        assert(path_prefix(key@, 0) =~= Seq::<bool>::empty());
        Node::collect(&self.root, key, 0, &mut siblings)
    }

    /// Adds `key` with `value`. Fails, and changes nothing, if the key is
    /// already there. The proof returned carries the root before the call,
    /// the root after it, and the witness that leads from one to the other.
    pub fn insert(&mut self, key: Key, value: Vec<u8>) -> (outcome: Result<InsertProof, TreeError>)
        requires
            old(self).wf(),
        ensures
            final(self).wf(),
            insert_outcome(outcome) == insert_result(old(self)@, key@, value@),
            final(self)@ == after_insert(old(self)@, key@, value@),
            outcome is Ok ==> outcome->Ok_0@.verify(old(self).root()) == Ok::<Seq<u8>, TreeError>(
                final(self).root(),
            ),
    {
        let ghost held = self@;
        let mut siblings: Vec<Digest> = Vec::with_capacity(256);
        assert(path_prefix(key@, 0) =~= Seq::<bool>::empty());
        let found = Node::collect(&self.root, &key, 0, &mut siblings);
        if found.is_some() {
            return Err(TreeError::KeyAlreadyExists);
        }
        let prior_root = self.commitment();
        let kept = copy_bytes(&value);
        Node::put(&mut self.root, &key, value, 0);
        let new_root = self.commitment();
        let made = InsertProof { key, value: kept, prior_root, new_root, siblings };
        proof {
            assert(made@.siblings =~= witness_of(held, key@));
            lemma_insert_proof_verifies(held, key@, value@);
        }
        Ok(made)
    }

    /// Replaces the value of `key` by `new_value`. Fails, and changes
    /// nothing, if the key is not there. The proof returned carries the root
    /// before the call, the root after it, the leaf that was found and the
    /// witness that leads from one root to the other.
    pub fn update(&mut self, key: Key, new_value: Vec<u8>) -> (outcome: Result<
        UpdateProof,
        TreeError,
    >)
        requires
            old(self).wf(),
        ensures
            final(self).wf(),
            update_outcome(outcome) == update_result(old(self)@, key@, new_value@),
            final(self)@ == after_update(old(self)@, key@, new_value@),
            outcome is Ok ==> outcome->Ok_0@.verify(old(self).root()) == Ok::<Seq<u8>, TreeError>(
                final(self).root(),
            ),
    {
        let ghost held = self@;
        let mut siblings: Vec<Digest> = Vec::with_capacity(256);
        assert(path_prefix(key@, 0) =~= Seq::<bool>::empty());
        let found = Node::collect(&self.root, &key, 0, &mut siblings);
        let old_value = match found {
            None => {
                return Err(TreeError::KeyNotFound);
            },
            Some(old_value) => old_value,
        };
        let prior_root = self.commitment();
        let kept = copy_bytes(&new_value);
        Node::put(&mut self.root, &key, new_value, 0);
        let new_root = self.commitment();
        let leaf = WitnessLeaf { key, value_digest: Digest::hash(old_value.as_slice()) };
        let made = UpdateProof {
            key,
            old_value,
            new_value: kept,
            prior_root,
            new_root,
            leaf,
            siblings,
        };
        proof {
            assert(made@.siblings =~= witness_of(held, key@));
            lemma_update_proof_verifies(held, key@, new_value@);
        }
        Ok(made)
    }
}

} // verus!
