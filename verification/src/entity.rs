//! The tree that a layout works on: the tree of files and folders again, with
//! a body at every node that holds where and how large the node is drawn.
//! The tree does not look into the bodies: it keeps them, hands them out and
//! finds the one that a reference names.

use crate::structure::Item;
use crate::text::str_eq;
use vstd::prelude::*;

verus! {

/// A node of the layout: a file with its body and the item it stands for, or
/// a folder with its body, its name and its children in their order.
#[derive(Debug)]
pub enum EntityNode<'a, E> {
    File(E, &'a Item),
    Folder(E, String, Vec<EntityNode<'a, E>>),
}

/// A file of the layout as a reference sees it: its name and its body.
pub struct Leaf<E> {
    pub name: Seq<char>,
    pub body: E,
}

/// The files below a run of sibling nodes, from the first sibling to the last.
pub open spec fn leaves_of<E>(nodes: Seq<EntityNode<'_, E>>) -> Seq<Leaf<E>>
    decreases nodes, 0nat,
{
    if nodes.len() == 0 {
        Seq::empty()
    } else {
        leaves_of(nodes.drop_last()) + nodes.last().leaves()
    }
}

/// Whether every node of a run of siblings is well formed.
pub open spec fn all_wf<E>(nodes: Seq<EntityNode<'_, E>>) -> bool
    decreases nodes, 0nat,
{
    nodes.len() == 0 || (all_wf(nodes.drop_last()) && nodes.last().wf())
}

/// The body of the first file in `leaves` that is called `name`.
pub open spec fn first_named<E>(leaves: Seq<Leaf<E>>, name: Seq<char>) -> Option<E>
    decreases leaves.len(),
{
    if leaves.len() == 0 {
        None
    } else if leaves[0].name == name {
        Some(leaves[0].body)
    } else {
        first_named(leaves.drop_first(), name)
    }
}

/// Whether `found` is what a search for `name` in `leaves` comes to: the body
/// of a file called `name` before which no file is called so, or nothing
/// where no file is called so.
pub open spec fn is_resolution<E>(leaves: Seq<Leaf<E>>, name: Seq<char>, found: Option<E>) -> bool {
    match found {
        Some(body) => exists|i: int|
            0 <= i < leaves.len() && (#[trigger] leaves[i]).name == name && leaves[i].body == body
                && forall|j: int| 0 <= j < i ==> (#[trigger] leaves[j]).name != name,
        None => forall|i: int| 0 <= i < leaves.len() ==> (#[trigger] leaves[i]).name != name,
    }
}

/// In a well-formed run of siblings each sibling is well formed.
pub proof fn lemma_all_wf_each<E>(nodes: Seq<EntityNode<'_, E>>, i: int)
    requires
        all_wf(nodes),
        0 <= i < nodes.len(),
    ensures
        nodes[i].wf(),
    decreases nodes.len(),
{
    if i < nodes.len() - 1 {
        lemma_all_wf_each(nodes.drop_last(), i);
    }
}

impl<'a, E> EntityNode<'a, E> {
    /// The body of the node.
    pub open spec fn body(self) -> E {
        match self {
            EntityNode::File(e, _) => e,
            EntityNode::Folder(e, _, _) => e,
        }
    }

    /// The node with `body` in place of its own.
    pub open spec fn with_body(self, body: E) -> Self {
        match self {
            EntityNode::File(_, item) => EntityNode::File(body, item),
            EntityNode::Folder(_, name, nodes) => EntityNode::Folder(body, name, nodes),
        }
    }

    /// A tree is well formed when each of its files stands for a file.
    pub open spec fn wf(self) -> bool
        decreases self, 1nat,
    {
        match self {
            EntityNode::File(_, item) => item is File,
            EntityNode::Folder(_, _, nodes) => all_wf(nodes@),
        }
    }

    /// The files of the tree in the order of a walk that takes a folder's
    /// children one after the other, each with all that is below it.
    pub open spec fn leaves(self) -> Seq<Leaf<E>>
        decreases self, 1nat,
    {
        match self {
            EntityNode::File(e, item) => seq![Leaf { name: item.label(), body: e }],
            EntityNode::Folder(_, _, nodes) => leaves_of(nodes@),
        }
    }

    /// The names that the node refers to: those of the file it stands for, and
    /// none for a folder.
    pub open spec fn references(self) -> Seq<Seq<char>> {
        match self {
            EntityNode::File(_, item) => match *item {
                Item::File { refs, .. } => refs.deep_view(),
                Item::Folder { .. } => Seq::empty(),
            },
            EntityNode::Folder(_, _, _) => Seq::empty(),
        }
    }

    /// The body of the first file of the tree that is called `name`.
    pub open spec fn resolve(self, name: Seq<char>) -> Option<E> {
        first_named(self.leaves(), name)
    }

    /// The body of the node.
    pub fn entity(&self) -> (r: &E)
        ensures
            *r == self.body(),
    {
        match self {
            EntityNode::File(e, _) => e,
            EntityNode::Folder(e, _, _) => e,
        }
    }

    /// The body of the node, to be changed in place; all else stays.
    pub fn entity_mut(&mut self) -> (r: &mut E)
        ensures
            *r == old(self).body(),
            *final(self) == old(self).with_body(*final(r)),
    {
        match self {
            EntityNode::File(e, _) => e,
            EntityNode::Folder(e, _, _) => e,
        }
    }

    /// Whether the tree is well formed.
    pub fn is_well_formed(&self) -> (r: bool)
        ensures
            r == self.wf(),
        decreases self,
    {
        match self {
            EntityNode::File(_, item) => match item {
                Item::File { .. } => true,
                Item::Folder { .. } => false,
            },
            EntityNode::Folder(_, _, nodes) => {
                let mut i: usize = 0;
                while i < nodes.len()
                    invariant
                        i <= nodes.len(),
                        all_wf(nodes@.take(i as int)),
                        *self is Folder,
                        self->Folder_2 == *nodes,
                    decreases nodes.len() - i,
                {
                    proof {
                        assert(nodes@.take(i + 1).drop_last() =~= nodes@.take(i as int));
                    }
                    if !nodes[i].is_well_formed() {
                        proof {
                            if all_wf(nodes@) {
                                lemma_all_wf_each(nodes@, i as int);
                            }
                        }
                        return false;
                    }
                    i = i + 1;
                }
                proof {
                    assert(nodes@.take(i as int) =~= nodes@);
                }
                true
            },
        }
    }

    /// The node with `entity` as its body; all else stays.
    pub fn set_entity(self, entity: E) -> (r: Self)
        ensures
            r == self.with_body(entity),
    {
        match self {
            EntityNode::File(_, i) => EntityNode::File(entity, i),
            EntityNode::Folder(_, n, i) => EntityNode::Folder(entity, n, i),
        }
    }
}

/// A search through two runs of files finds what it finds in the first, and
/// goes on to the second only where the first has no file of that name.
pub proof fn lemma_first_named_concat<E>(a: Seq<Leaf<E>>, b: Seq<Leaf<E>>, name: Seq<char>)
    ensures
        first_named(a + b, name) == if first_named(a, name) is Some {
            first_named(a, name)
        } else {
            first_named(b, name)
        },
    decreases a.len(),
{
    if a.len() == 0 {
        assert(a + b =~= b);
    } else {
        assert((a + b).drop_first() =~= a.drop_first() + b);
        lemma_first_named_concat(a.drop_first(), b, name);
    }
}

/// What `first_named` gives is the body of the first file of that name, and
/// nothing only where no file has that name.
pub proof fn lemma_first_named_is_resolution<E>(leaves: Seq<Leaf<E>>, name: Seq<char>)
    ensures
        is_resolution(leaves, name, first_named(leaves, name)),
    decreases leaves.len(),
{
    if leaves.len() == 0 {
    } else if leaves[0].name == name {
        assert(leaves[0].name == name && leaves[0].body == first_named(leaves, name)->0);
    } else {
        let rest = leaves.drop_first();
        lemma_first_named_is_resolution(rest, name);
        match first_named(rest, name) {
            Some(body) => {
                let i = choose|i: int|
                    0 <= i < rest.len() && (#[trigger] rest[i]).name == name && rest[i].body == body
                        && forall|j: int| 0 <= j < i ==> (#[trigger] rest[j]).name != name;
                assert(leaves[i + 1] == rest[i]);
                assert forall|j: int| 0 <= j < i + 1 implies (#[trigger] leaves[j]).name
                    != name by {
                    if j > 0 {
                        assert(leaves[j] == rest[j - 1]);
                    }
                }
            },
            None => {
                assert forall|i: int| 0 <= i < leaves.len() implies (#[trigger] leaves[i]).name
                    != name by {
                    if i > 0 {
                        assert(leaves[i] == rest[i - 1]);
                    }
                }
            },
        }
    }
}

/// A search has one outcome: whatever two searches of the same files for the
/// same name come to, they come to the same body, or both to nothing.
pub proof fn lemma_resolution_determined<E>(
    leaves: Seq<Leaf<E>>,
    name: Seq<char>,
    first: Option<E>,
    second: Option<E>,
)
    requires
        is_resolution(leaves, name, first),
        is_resolution(leaves, name, second),
    ensures
        first == second,
{
    if first is Some && second is Some {
        let i = choose|i: int|
            0 <= i < leaves.len() && (#[trigger] leaves[i]).name == name && leaves[i].body
                == first->0 && forall|j: int| 0 <= j < i ==> (#[trigger] leaves[j]).name != name;
        let k = choose|k: int|
            0 <= k < leaves.len() && (#[trigger] leaves[k]).name == name && leaves[k].body
                == second->0 && forall|j: int| 0 <= j < k ==> (#[trigger] leaves[j]).name != name;
        assert(i == k);
    }
}

/// The body of the first file of the tree that is called `reference`, in the
/// order of a walk that takes a folder's children one after the other; `None`
/// where no file of the tree is called so.
pub fn find_ref<'b, E>(reference: &str, entity: &'b EntityNode<'_, E>) -> (r: Option<&'b E>)
    requires
        entity.wf(),
    ensures
        match r {
            Some(body) => entity.resolve(reference@) == Some(*body),
            None => entity.resolve(reference@) is None,
        },
        is_resolution(
            entity.leaves(),
            reference@,
            match r {
                Some(body) => Some(*body),
                None => None,
            },
        ),
    decreases entity,
{
    proof {
        lemma_first_named_is_resolution(entity.leaves(), reference@);
    }
    match entity {
        EntityNode::File(place, item) => {
            if str_eq(item.name(), reference) {
                Some(place)
            } else {
                None
            }
        },
        EntityNode::Folder(_, _, nodes) => {
            let mut i: usize = 0;
            while i < nodes.len()
                invariant
                    i <= nodes.len(),
                    all_wf(nodes@),
                    first_named(leaves_of(nodes@.take(i as int)), reference@) is None,
                    *entity is Folder,
                    entity->Folder_2 == *nodes,
                decreases nodes.len() - i,
            {
                proof {
                    lemma_all_wf_each(nodes@, i as int);
                    assert(nodes@.take(i + 1).drop_last() =~= nodes@.take(i as int));
                    lemma_first_named_concat(
                        leaves_of(nodes@.take(i as int)),
                        nodes@[i as int].leaves(),
                        reference@,
                    );
                }
                if let Some(p) = find_ref(reference, &nodes[i]) {
                    proof {
                        lemma_leaves_split(nodes@, i + 1);
                        lemma_first_named_concat(
                            leaves_of(nodes@.take(i + 1)),
                            leaves_of(nodes@.skip(i + 1)),
                            reference@,
                        );
                        lemma_first_named_is_resolution(entity.leaves(), reference@);
                    }
                    return Some(p);
                }
                i = i + 1;
            }
            proof {
                assert(nodes@.take(i as int) =~= nodes@);
            }
            None
        },
    }
}

/// The bodies that a list of names resolves to, in the order of the names; a
/// name that no file is called adds nothing.
pub open spec fn resolved_all<E>(leaves: Seq<Leaf<E>>, names: Seq<Seq<char>>) -> Seq<E>
    decreases names.len(),
{
    if names.len() == 0 {
        Seq::empty()
    } else {
        let before = resolved_all(leaves, names.drop_last());
        match first_named(leaves, names.last()) {
            Some(body) => before.push(body),
            None => before,
        }
    }
}

/// The bodies of the files that the references of `leaf` name in the tree
/// `root`, in the order of the references; a reference that names no file of
/// the tree is left out.
pub fn resolve_references<'b, E>(leaf: &EntityNode<'_, E>, root: &'b EntityNode<'_, E>) -> (r: Vec<
    &'b E,
>)
    requires
        leaf is File,
        leaf.wf(),
        root.wf(),
    ensures
        r@.len() == resolved_all(root.leaves(), leaf.references()).len(),
        forall|i: int|
            0 <= i < r@.len() ==> *#[trigger] r@[i] == resolved_all(
                root.leaves(),
                leaf.references(),
            )[i],
{
    let mut found: Vec<&'b E> = Vec::new();
    match leaf {
        EntityNode::File(_, item) => match item {
            Item::File { refs, .. } => {
                let mut i: usize = 0;
                while i < refs.len()
                    invariant
                        i <= refs.len(),
                        root.wf(),
                        found@.len() == resolved_all(
                            root.leaves(),
                            refs.deep_view().take(i as int),
                        ).len(),
                        forall|k: int|
                            0 <= k < found@.len() ==> *#[trigger] found@[k] == resolved_all(
                                root.leaves(),
                                refs.deep_view().take(i as int),
                            )[k],
                    decreases refs.len() - i,
                {
                    proof {
                        assert(refs.deep_view().take(i + 1).drop_last() =~= refs.deep_view().take(
                            i as int,
                        ));
                        assert(refs.deep_view().take(i + 1).last() == refs@[i as int]@);
                    }
                    if let Some(body) = find_ref(refs[i].as_str(), root) {
                        found.push(body);
                    }
                    i = i + 1;
                }
                proof {
                    assert(refs.deep_view().take(i as int) =~= refs.deep_view());
                }
            },
            Item::Folder { .. } => {},
        },
        EntityNode::Folder(_, _, _) => {},
    }
    found
}

/// The files below a run of siblings are those below its first `n` siblings,
/// followed by those below the others.
pub proof fn lemma_leaves_split<E>(nodes: Seq<EntityNode<'_, E>>, n: int)
    requires
        0 <= n <= nodes.len(),
    ensures
        leaves_of(nodes) == leaves_of(nodes.take(n)) + leaves_of(nodes.skip(n)),
    decreases nodes.len(),
{
    if n == nodes.len() {
        assert(nodes.take(n) =~= nodes);
        assert(nodes.skip(n) =~= Seq::empty());
        assert(leaves_of(nodes) + Seq::empty() =~= leaves_of(nodes));
    } else {
        lemma_leaves_split(nodes.drop_last(), n);
        assert(nodes.drop_last().take(n) =~= nodes.take(n));
        assert(nodes.drop_last().skip(n) =~= nodes.skip(n).drop_last());
        assert(nodes.skip(n).last() == nodes.last());
        assert(leaves_of(nodes.take(n)) + (leaves_of(nodes.skip(n).drop_last())
            + nodes.last().leaves()) =~= (leaves_of(nodes.take(n)) + leaves_of(
            nodes.skip(n).drop_last(),
        )) + nodes.last().leaves());
    }
}

} // verus!
