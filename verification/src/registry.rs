//! The registry of canonical vertex buffer layouts, keyed by name.

use crate::vertex::{VertexBufferDescriptor, VertexBufferView};
use vstd::prelude::*;

verus! {

/// The canonical vertex buffer layouts, at most one for each name.
#[derive(Debug)]
pub struct VertexBufferDescriptors {
    descriptors: Vec<VertexBufferDescriptor>,
}

/// Whether some descriptor of the sequence has the name.
spec fn has_name(descriptors: Seq<VertexBufferDescriptor>, name: Seq<char>) -> bool {
    exists|i: int| 0 <= i < descriptors.len() && #[trigger] descriptors[i].name@ == name
}

/// Whether no two descriptors of the sequence have the same name.
spec fn names_distinct(descriptors: Seq<VertexBufferDescriptor>) -> bool {
    forall|i: int, j: int|
        0 <= i < j < descriptors.len() ==> #[trigger] descriptors[i].name@
            != #[trigger] descriptors[j].name@
}

/// The map from each name in the sequence to a descriptor that has it.
spec fn by_name(descriptors: Seq<VertexBufferDescriptor>) -> Map<
    Seq<char>,
    VertexBufferView,
> {
    Map::new(
        |name: Seq<char>| has_name(descriptors, name),
        |name: Seq<char>|
            descriptors[choose|i: int|
                0 <= i < descriptors.len() && #[trigger] descriptors[i].name@ == name]@,
    )
}

/// With distinct names, the map holds each descriptor under its own name.
proof fn lemma_by_name_at(descriptors: Seq<VertexBufferDescriptor>, i: int)
    requires
        names_distinct(descriptors),
        0 <= i < descriptors.len(),
    ensures
        by_name(descriptors).contains_key(descriptors[i].name@),
        by_name(descriptors)[descriptors[i].name@] == descriptors[i]@,
{
    let name = descriptors[i].name@;
    let chosen = choose|k: int|
        0 <= k < descriptors.len() && #[trigger] descriptors[k].name@ == name;
    assert(chosen == i);
}

impl VertexBufferDescriptors {
    #[verifier::type_invariant]
    spec fn names_are_distinct(self) -> bool {
        names_distinct(self.descriptors@)
    }

    /// An empty registry.
    pub fn new() -> (registry: Self)
        ensures
            registry@ == Map::<Seq<char>, VertexBufferView>::empty(),
    {
        let registry = VertexBufferDescriptors { descriptors: Vec::new() };
        assert(registry@ =~= Map::<Seq<char>, VertexBufferView>::empty());
        registry
    }

    /// The position of the descriptor called `name`.
    fn position(&self, name: &String) -> (found: Option<usize>)
        ensures
            match found {
                Some(i) => i < self.descriptors@.len() && self.descriptors@[i as int].name@
                    == name@,
                None => !has_name(self.descriptors@, name@),
            },
    {
        let mut i: usize = 0;
        while i < self.descriptors.len()
            invariant
                i <= self.descriptors.len(),
                forall|j: int| 0 <= j < i ==> self.descriptors@[j].name@ != name@,
            decreases self.descriptors.len() - i,
        {
            if self.descriptors[i].name == *name {
                return Some(i);
            }
            i = i + 1;
        }
        None
    }

    /// Registers `descriptor` under its name, in place of an earlier one of
    /// that name.
    pub fn set(&mut self, descriptor: VertexBufferDescriptor)
        ensures
            final(self)@ == old(self)@.insert(descriptor@.name, descriptor@),
    {
        proof {
            use_type_invariant(&*self);
        }
        let ghost before = self.descriptors@;
        let found = self.position(&descriptor.name);
        let mut descriptors: Vec<VertexBufferDescriptor> = Vec::new();
        std::mem::swap(&mut descriptors, &mut self.descriptors);
        match found {
            Some(i) => {
                descriptors[i] = descriptor;
                proof {
                    let after = descriptors@;
                    assert(names_distinct(after));
                    assert forall|name: Seq<char>| has_name(after, name) <==> has_name(
                        before,
                        name,
                    ) by {
                        if has_name(after, name) {
                            let k = choose|k: int|
                                0 <= k < after.len() && #[trigger] after[k].name@ == name;
                            assert(before[k].name@ == name);
                        }
                        if has_name(before, name) {
                            let k = choose|k: int|
                                0 <= k < before.len() && #[trigger] before[k].name@ == name;
                            assert(after[k].name@ == name);
                        }
                    }
                    assert forall|name: Seq<char>| has_name(after, name) implies by_name(
                        after,
                    )[name] == by_name(before).insert(descriptor@.name, descriptor@)[name] by {
                        let k = choose|k: int|
                            0 <= k < after.len() && #[trigger] after[k].name@ == name;
                        lemma_by_name_at(after, k);
                        lemma_by_name_at(before, k);
                    }
                    assert(by_name(after) =~= by_name(before).insert(
                        descriptor@.name,
                        descriptor@,
                    ));
                }
            },
            None => {
                descriptors.push(descriptor);
                proof {
                    let after = descriptors@;
                    let last = after.len() - 1;
                    assert(names_distinct(after));
                    assert(after[last].name@ == descriptor@.name);
                    assert forall|name: Seq<char>| has_name(after, name) <==> (has_name(
                        before,
                        name,
                    ) || name == descriptor@.name) by {
                        if has_name(after, name) {
                            let k = choose|k: int|
                                0 <= k < after.len() && #[trigger] after[k].name@ == name;
                            if k < last {
                                assert(before[k].name@ == name);
                            }
                        }
                        if has_name(before, name) {
                            let k = choose|k: int|
                                0 <= k < before.len() && #[trigger] before[k].name@ == name;
                            assert(after[k].name@ == name);
                        }
                    }
                    assert forall|name: Seq<char>| has_name(after, name) implies by_name(
                        after,
                    )[name] == by_name(before).insert(descriptor@.name, descriptor@)[name] by {
                        let k = choose|k: int|
                            0 <= k < after.len() && #[trigger] after[k].name@ == name;
                        lemma_by_name_at(after, k);
                        if k < last {
                            lemma_by_name_at(before, k);
                        }
                    }
                    assert(by_name(after) =~= by_name(before).insert(
                        descriptor@.name,
                        descriptor@,
                    ));
                }
            },
        }
        self.descriptors = descriptors;
    }

    /// The canonical layout registered under `name`, if there is one.
    pub fn get(&self, name: &String) -> (found: Option<&VertexBufferDescriptor>)
        ensures
            match found {
                Some(descriptor) => self@.contains_key(name@) && descriptor@ == self@[name@],
                None => !self@.contains_key(name@),
            },
    {
        proof {
            use_type_invariant(self);
        }
        match self.position(name) {
            Some(i) => {
                proof {
                    lemma_by_name_at(self.descriptors@, i as int);
                }
                Some(&self.descriptors[i])
            },
            None => None,
        }
    }
}

impl View for VertexBufferDescriptors {
    type V = Map<Seq<char>, VertexBufferView>;

    closed spec fn view(&self) -> Map<Seq<char>, VertexBufferView> {
        by_name(self.descriptors@)
    }
}

/// How many descriptors, from the first on, have their name in the registry:
/// the position of the first that has not, or the length where all have.
pub open spec fn supported_prefix(
    descriptors: Seq<VertexBufferView>,
    canonical: Map<Seq<char>, VertexBufferView>,
) -> nat
    decreases descriptors.len(),
{
    if descriptors.len() == 0 || !canonical.contains_key(descriptors.first().name) {
        0
    } else {
        1 + supported_prefix(descriptors.drop_first(), canonical)
    }
}

/// The name of the first descriptor that the registry does not have.
pub open spec fn first_unsupported(
    descriptors: Seq<VertexBufferView>,
    canonical: Map<Seq<char>, VertexBufferView>,
) -> Option<Seq<char>> {
    let n = supported_prefix(descriptors, canonical);
    if n < descriptors.len() {
        Some(descriptors[n as int].name)
    } else {
        None
    }
}

/// The descriptors after synchronization: each one before the first that the
/// registry does not have is reconciled with the canonical descriptor of its
/// name, and the others are as they were.
pub open spec fn synchronized(
    descriptors: Seq<VertexBufferView>,
    canonical: Map<Seq<char>, VertexBufferView>,
) -> Seq<VertexBufferView> {
    Seq::new(
        descriptors.len(),
        |i: int|
            if i < supported_prefix(descriptors, canonical) {
                descriptors[i].synced_with(canonical[descriptors[i].name])
            } else {
                descriptors[i]
            },
    )
}

/// Where the first `n` descriptors have their names in the registry and the
/// next one, if there is one, has not, the supported prefix is `n` long.
pub proof fn lemma_supported_prefix_is(
    descriptors: Seq<VertexBufferView>,
    canonical: Map<Seq<char>, VertexBufferView>,
    n: int,
)
    requires
        0 <= n <= descriptors.len(),
        forall|j: int| 0 <= j < n ==> canonical.contains_key(#[trigger] descriptors[j].name),
        n < descriptors.len() ==> !canonical.contains_key(descriptors[n].name),
    ensures
        supported_prefix(descriptors, canonical) == n,
    decreases n,
{
    if n > 0 {
        assert(canonical.contains_key(descriptors[0].name));
        lemma_supported_prefix_is(descriptors.drop_first(), canonical, n - 1);
    }
}

/// The supported prefix ends at the first descriptor whose name the
/// registry does not have: every descriptor before that has its name in the
/// registry.
pub proof fn lemma_supported_prefix(
    descriptors: Seq<VertexBufferView>,
    canonical: Map<Seq<char>, VertexBufferView>,
)
    ensures
        supported_prefix(descriptors, canonical) <= descriptors.len(),
        forall|j: int|
            0 <= j < supported_prefix(descriptors, canonical) ==> canonical.contains_key(
                #[trigger] descriptors[j].name,
            ),
        supported_prefix(descriptors, canonical) < descriptors.len() ==> !canonical.contains_key(
            descriptors[supported_prefix(descriptors, canonical) as int].name,
        ),
    decreases descriptors.len(),
{
    if descriptors.len() > 0 && canonical.contains_key(descriptors.first().name) {
        let rest = descriptors.drop_first();
        lemma_supported_prefix(rest, canonical);
        assert forall|j: int|
            0 <= j < supported_prefix(descriptors, canonical) implies canonical.contains_key(
            #[trigger] descriptors[j].name,
        ) by {
            if j > 0 {
                assert(rest[j - 1] == descriptors[j]);
            }
        }
    }
}

/// Synchronization neither drops nor invents a descriptor: there are as many
/// afterwards as before, under the same names and in the same order.
pub proof fn lemma_synchronized_keeps_names(
    descriptors: Seq<VertexBufferView>,
    canonical: Map<Seq<char>, VertexBufferView>,
)
    ensures
        synchronized(descriptors, canonical).len() == descriptors.len(),
        forall|i: int|
            0 <= i < descriptors.len() ==> (#[trigger] synchronized(descriptors, canonical)[i]).name
                == descriptors[i].name,
{
}

} // verus!
