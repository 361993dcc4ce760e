//! The object catalog: decoration names resolved to their definitions.
//!
//! A definition carries what placement needs — the horizontal footprint and
//! scale range — plus the asset path and an opaque handle slot that the
//! loading layer fills in. The catalog behaves as a map keyed by name:
//! inserting a second definition under the same name replaces the first.

use vstd::prelude::*;
use crate::fixed::Fx;

verus! {

/// Marker naming the startup step that installs the object catalog in the
/// embedding application's wiring.
#[derive(Clone, Copy, PartialEq, Eq, Structural, Debug, Default)]
pub struct ObjectManagerPlugin;

/// How a decoration may be oriented when instantiated.
#[derive(Clone, Copy, PartialEq, Eq, Structural, Debug)]
pub enum OrientationType {
    /// Free rotation about the vertical axis.
    HorizontalFree,
    /// Keeps its authored forward direction upright.
    VerticalForward,
    /// Rotated in quarter turns only.
    Quarter,
}

/// Static description of one decoration object.
#[derive(Clone, Debug)]
pub struct ObjectDefinition {
    /// The name decorations are picked by.
    pub name: String,
    /// Asset path of the model.
    pub path: String,
    /// Orientation rule at instantiation.
    pub orientation_type: OrientationType,
    /// Half footprint along the object's right axis.
    pub size_x: Fx,
    /// Half footprint along the object's forward axis.
    pub size_y: Fx,
    /// Smallest uniform scale to instantiate with.
    pub scale_min: Fx,
    /// Largest uniform scale to instantiate with.
    pub scale_max: Fx,
}

/// A definition together with the handle of its loaded model.
#[derive(Clone, Debug)]
pub struct ObjectData {
    /// The static definition.
    pub object_definition: ObjectDefinition,
    /// Opaque handle of the loaded model; zero until loading fills it.
    pub model_handle: u64,
}

/// After appending `def` to a catalog none of whose entries carried its
/// name, the appended entry is the only one carrying it.
proof fn lemma_only_last_carries_name(mid: ObjectManager, post: ObjectManager, def: ObjectDefinition)
    requires
        forall|i: int|
            0 <= i < mid.objects@.len() ==> (#[trigger] mid.objects@[i]).object_definition.name@
                != def.name@,
        post.objects@.len() == mid.objects@.len() + 1,
        forall|i: int|
            0 <= i < mid.objects@.len() ==> #[trigger] post.objects@[i] == mid.objects@[i],
        post.objects@[post.objects@.len() - 1].object_definition == def,
        post.objects@[post.objects@.len() - 1].model_handle == 0,
    ensures
        forall|i: int|
            0 <= i < post.objects@.len() && (#[trigger] post.objects@[i]).object_definition.name@
                == def.name@ ==> post.objects@[i].object_definition == def && post.objects@[i]
                .model_handle == 0,
{
    assert forall|i: int|
        0 <= i < post.objects@.len() && (#[trigger] post.objects@[i]).object_definition.name@
            == def.name@ implies post.objects@[i].object_definition == def && post.objects@[i]
        .model_handle == 0 by {
        if i < post.objects@.len() - 1 {
            assert(post.objects@[i] == mid.objects@[i]);
        }
    }
}

/// `defs[j]` is the last definition carrying its name.
pub open spec fn is_last_def(defs: Seq<ObjectDefinition>, j: int) -> bool {
    forall|j2: int| j < j2 < defs.len() ==> (#[trigger] defs[j2]).name@ != defs[j].name@
}

/// The catalog of decoration objects, keyed by name.
pub struct ObjectManager {
    /// The entries; names are unique.
    pub objects: Vec<ObjectData>,
    /// Opaque handle of the shared floor texture.
    pub floor_texture: u64,
}

impl ObjectManager {
    /// Entry names are unique.
    pub open spec fn wf(self) -> bool {
        forall|i: int, j: int|
            0 <= i < j < self.objects@.len()
                ==> (#[trigger] self.objects@[i]).object_definition.name@ != (
            #[trigger] self.objects@[j]).object_definition.name@
    }

    /// `name` is in the catalog.
    pub open spec fn has_name(self, name: Seq<char>) -> bool {
        exists|i: int|
            0 <= i < self.objects@.len() && (#[trigger] self.objects@[i]).object_definition.name@
                == name
    }

    /// Build a catalog from definitions, with unloaded handles.
    ///
    /// A later definition under an already-present name replaces the earlier
    /// one, as in a map insert.
    pub fn new(object_definitions: Vec<ObjectDefinition>) -> (r: ObjectManager)
        ensures
            r.wf(),
            forall|j: int|
                0 <= j < object_definitions@.len() ==> r.has_name(
                    (#[trigger] object_definitions@[j]).name@,
                ),
            forall|i: int|
                0 <= i < r.objects@.len() ==> exists|j: int|
                    0 <= j < object_definitions@.len() && (#[trigger] r.objects@[i]).object_definition
                        == object_definitions@[j] && is_last_def(object_definitions@, j)
                        && r.objects@[i].model_handle == 0,
            r.floor_texture == 0,
    {
        let ghost all = object_definitions@;
        let mut defs: Vec<ObjectDefinition> = object_definitions;
        let mut m = ObjectManager { objects: Vec::new(), floor_texture: 0 };
        let n0: usize = defs.len();
        proof {
            assert(all.len() == n0);
        }
        let mut t: usize = 0;
        while defs.len() > 0
            invariant
                0 <= t,
                t + defs@.len() == all.len(),
                all.len() <= usize::MAX,
                defs@ =~= all.subrange(t as int, all.len() as int),
                m.wf(),
                m.floor_texture == 0,
                forall|j: int| 0 <= j < t ==> m.has_name((#[trigger] all[j]).name@),
                forall|i: int|
                    0 <= i < m.objects@.len() ==> exists|j: int|
                        0 <= j < t && (#[trigger] m.objects@[i]).object_definition == all[j]
                            && is_last_def(all.take(t as int), j) && m.objects@[i].model_handle
                            == 0,
            decreases defs@.len(),
        {
            proof {
                assert(defs@.len() > 0);
                assert(defs@[0] == all[t as int]);
            }
            let def: ObjectDefinition = defs.remove(0);
            let ghost pre = m;
            m.insert(def);
            proof {
                assert forall|j: int| 0 <= j < t + 1 implies m.has_name(
                    (#[trigger] all[j]).name@,
                ) by {
                    if j < t {
                        assert(pre.has_name(all[j].name@));
                    }
                }
                assert forall|i: int| 0 <= i < m.objects@.len() implies exists|j: int|
                    0 <= j < t + 1 && (#[trigger] m.objects@[i]).object_definition == all[j]
                        && is_last_def(all.take(t as int + 1), j) && m.objects@[i].model_handle
                        == 0 by {
                    let e = m.objects@[i];
                    if e.object_definition == def && e.model_handle == 0 {
                        assert(0 <= t < t + 1 && e.object_definition == all[t as int]
                            && is_last_def(all.take(t as int + 1), t as int) && e.model_handle
                            == 0);
                    } else {
                        assert(pre.objects@.contains(e));
                        let n = choose|n: int|
                            0 <= n < pre.objects@.len() && pre.objects@[n] == e;
                        let j = choose|j: int|
                            0 <= j < t && (#[trigger] pre.objects@[n]).object_definition
                                == all[j] && is_last_def(all.take(t as int), j)
                                && pre.objects@[n].model_handle == 0;
                        assert(e.object_definition.name@ != def.name@);
                        assert(is_last_def(all.take(t as int + 1), j)) by {
                            assert forall|j2: int|
                                j < j2 < t + 1 implies (#[trigger] all.take(t as int + 1)[j2])
                                .name@ != all.take(t as int + 1)[j].name@ by {
                                if j2 < t {
                                    assert(all.take(t as int)[j2].name@ != all.take(
                                        t as int,
                                    )[j].name@);
                                } else {
                                    assert(all[j2] == def);
                                }
                            }
                        }
                        assert(0 <= j < t + 1 && e.object_definition == all[j] && is_last_def(
                            all.take(t as int + 1),
                            j,
                        ) && e.model_handle == 0);
                    }
                }
            }
            t = t + 1;
        }
        proof {
            assert(all.take(all.len() as int) =~= all);
        }
        m
    }

    /// Insert one definition, replacing any entry of the same name.
    fn insert(&mut self, def: ObjectDefinition)
        requires
            old(self).wf(),
        ensures
            final(self).wf(),
            final(self).floor_texture == old(self).floor_texture,
            final(self).has_name(def.name@),
            forall|nm: Seq<char>|
                old(self).has_name(nm) ==> #[trigger] final(self).has_name(nm),
            forall|i: int|
                0 <= i < final(self).objects@.len() ==> (#[trigger] final(self).objects@[i])
                    .object_definition == def && final(self).objects@[i].model_handle == 0
                    || old(self).objects@.contains(final(self).objects@[i]),
            forall|i: int|
                0 <= i < final(self).objects@.len() && (#[trigger] final(self).objects@[i])
                    .object_definition.name@ == def.name@ ==> final(self).objects@[i]
                    .object_definition == def && final(self).objects@[i].model_handle == 0,
    {
        let ghost m0 = *self;
        let found: Option<usize> = self.find_name(&def.name);
        match found {
            Some(idx) => {
                let _old_entry = self.objects.remove(idx);
                proof {
                    assert forall|i: int, j: int|
                        0 <= i < j < self.objects@.len() implies (#[trigger] self.objects@[i])
                        .object_definition.name@ != (#[trigger] self.objects@[j])
                        .object_definition.name@ by {
                        if j < idx {
                        } else if i < idx {
                            assert(self.objects@[j] == m0.objects@[j + 1]);
                        } else {
                            assert(self.objects@[i] == m0.objects@[i + 1]);
                            assert(self.objects@[j] == m0.objects@[j + 1]);
                        }
                    }
                    assert forall|i: int|
                        0 <= i < self.objects@.len() implies m0.objects@.contains(
                        #[trigger] self.objects@[i],
                    ) by {
                        if i < idx {
                            assert(self.objects@[i] == m0.objects@[i]);
                        } else {
                            assert(self.objects@[i] == m0.objects@[i + 1]);
                        }
                    }
                    assert forall|i: int|
                        0 <= i < self.objects@.len() implies (#[trigger] self.objects@[i])
                        .object_definition.name@ != def.name@ by {
                        if i < idx {
                            assert(self.objects@[i] == m0.objects@[i]);
                            assert(m0.objects@[i].object_definition.name@
                                != m0.objects@[idx as int].object_definition.name@);
                        } else {
                            assert(self.objects@[i] == m0.objects@[i + 1]);
                            assert(m0.objects@[i + 1].object_definition.name@
                                != m0.objects@[idx as int].object_definition.name@);
                        }
                    }
                    assert forall|nm: Seq<char>|
                        m0.has_name(nm) && nm != def.name@ implies (exists|i: int|
                            0 <= i < self.objects@.len() && (#[trigger] self.objects@[i])
                                .object_definition.name@ == nm) by {
                        let i = choose|i: int|
                            0 <= i < m0.objects@.len() && (#[trigger] m0.objects@[i])
                                .object_definition.name@ == nm;
                        assert(i != idx);
                        if i < idx {
                            assert(self.objects@[i].object_definition.name@ == nm);
                        } else {
                            assert(self.objects@[i - 1] == m0.objects@[i]);
                            assert(self.objects@[i - 1].object_definition.name@ == nm);
                        }
                    }
                }
                let ghost mid = *self;
                self.push_new(def);
                proof {
                    lemma_only_last_carries_name(mid, *self, def);
                }
            },
            None => {
                let ghost mid = *self;
                proof {
                    assert forall|i: int|
                        0 <= i < mid.objects@.len() implies (#[trigger] mid.objects@[i])
                        .object_definition.name@ != def.name@ by {}
                }
                self.push_new(def);
                proof {
                    lemma_only_last_carries_name(mid, *self, def);
                }
            },
        }
    }

    /// Append a definitely-absent definition.
    fn push_new(&mut self, def: ObjectDefinition)
        requires
            old(self).wf(),
            forall|i: int|
                0 <= i < old(self).objects@.len() ==> (#[trigger] old(self).objects@[i])
                    .object_definition.name@ != def.name@,
        ensures
            final(self).wf(),
            final(self).floor_texture == old(self).floor_texture,
            final(self).has_name(def.name@),
            forall|nm: Seq<char>|
                old(self).has_name(nm) ==> #[trigger] final(self).has_name(nm),
            final(self).objects@.len() == old(self).objects@.len() + 1,
            forall|i: int|
                0 <= i < old(self).objects@.len() ==> #[trigger] final(self).objects@[i] == old(
                    self,
                ).objects@[i],
            final(self).objects@[final(self).objects@.len() - 1].object_definition == def,
            final(self).objects@[final(self).objects@.len() - 1].model_handle == 0,
    {
        let ghost m0 = *self;
        self.objects.push(ObjectData { object_definition: def, model_handle: 0 });
        proof {
            assert(self.objects@[self.objects@.len() - 1].object_definition.name@ == def.name@);
            assert forall|nm: Seq<char>| m0.has_name(nm) implies #[trigger] self.has_name(nm) by {
                let i = choose|i: int|
                    0 <= i < m0.objects@.len() && (#[trigger] m0.objects@[i]).object_definition
                        .name@ == nm;
                assert(self.objects@[i] == m0.objects@[i]);
            }

            assert forall|i: int, j: int|
                0 <= i < j < self.objects@.len() implies (#[trigger] self.objects@[i])
                .object_definition.name@ != (#[trigger] self.objects@[j]).object_definition.name@
                by {
                if j < self.objects@.len() - 1 {
                    assert(self.objects@[i] == m0.objects@[i]);
                    assert(self.objects@[j] == m0.objects@[j]);
                } else {
                    assert(self.objects@[i] == m0.objects@[i]);
                }
            }
        }
    }

    /// Index of the entry named `name`, if any.
    fn find_name(&self, name: &String) -> (r: Option<usize>)
        ensures
            match r {
                Some(i) => i < self.objects@.len() && self.objects@[i as int].object_definition
                    .name@ == name@,
                None => !self.has_name(name@),
            },
    {
        let mut i: usize = 0;
        while i < self.objects.len()
            invariant
                0 <= i <= self.objects@.len(),
                forall|j: int|
                    0 <= j < i ==> (#[trigger] self.objects@[j]).object_definition.name@ != name@,
            decreases self.objects@.len() - i,
        {
            if self.objects[i].object_definition.name == *name {
                return Some(i);
            }
            i = i + 1;
        }
        None
    }

    /// Look up an object by name.
    pub fn get(&self, name: &String) -> (r: Option<&ObjectData>)
        ensures
            match r {
                Some(d) => self.objects@.contains(*d) && d.object_definition.name@ == name@,
                None => !self.has_name(name@),
            },
    {
        let found: Option<usize> = self.find_name(name);
        match found {
            Some(i) => {
                let d: &ObjectData = &self.objects[i];
                proof {
                    assert(self.objects@.contains(self.objects@[i as int]));
                }
                Some(d)
            },
            None => None,
        }
    }
}

} // verus!
