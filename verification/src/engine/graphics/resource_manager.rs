//! GPU resources kept by name: bind group layouts, bind groups (several per
//! name, by index) and buffers.
use std::collections::HashMap;
use std::sync::Arc;
use vstd::prelude::*;

use crate::engine::graphics::name_map::{str_views, NameMap};

verus! {

broadcast use vstd::std_specs::hash::group_hash_axioms;

/// Named bind group layouts (`L`), bind groups (`G`) and buffers (`B`).
pub struct GPUResourceManager<L, G, B> {
    pub bind_group_layouts: NameMap<Arc<L>>,
    pub bind_groups: NameMap<HashMap<u32, Arc<G>>>,
    pub buffers: NameMap<Arc<B>>,
}

impl<L, G, B> GPUResourceManager<L, G, B> {
    /// No resources yet; the device is not needed for that.
    pub fn init<D>(_device: D) -> (m: Self)
        ensures
            m.bind_group_layouts.view() == Map::<Seq<char>, Arc<L>>::empty(),
            m.bind_groups.view() == Map::<Seq<char>, HashMap<u32, Arc<G>>>::empty(),
            m.buffers.view() == Map::<Seq<char>, Arc<B>>::empty(),
    {
        GPUResourceManager {
            bind_group_layouts: NameMap::new(),
            bind_groups: NameMap::new(),
            buffers: NameMap::new(),
        }
    }

    /// Stores a bind group layout under a name that is not taken yet.
    pub fn add_bind_group_layout(&mut self, name: String, bind_group_layout: L)
        requires
            !old(self).bind_group_layouts.view().contains_key(name@),
        ensures
            final(self).bind_group_layouts.view().dom() == old(self).bind_group_layouts.view().dom().insert(name@),
            *final(self).bind_group_layouts.view()[name@] == bind_group_layout,
            forall|k: Seq<char>|
                k != name@ ==> #[trigger] final(self).bind_group_layouts.view().get(k) == old(self).bind_group_layouts.view().get(k),
            final(self).bind_groups == old(self).bind_groups,
            final(self).buffers == old(self).buffers,
    {
        let layout = Arc::new(bind_group_layout);
        self.bind_group_layouts.insert(name, layout);
    }

    /// Stores a bind group under index `id` of the name `key`, next to the
    /// bind groups already stored under that name.
    pub fn add_bind_group(&mut self, key: String, bind_group: G, id: u32)
        ensures
            final(self).bind_groups.view().dom() == old(self).bind_groups.view().dom().insert(key@),
            final(self).bind_groups.view()[key@]@.dom() == (if old(self).bind_groups.view().contains_key(key@) {
                old(self).bind_groups.view()[key@]@.dom()
            } else {
                Set::<u32>::empty()
            }).insert(id),
            *final(self).bind_groups.view()[key@]@[id] == bind_group,
            forall|i: u32|
                i != id && old(self).bind_groups.view().contains_key(key@) ==> #[trigger] final(self).bind_groups.view()[key@]@.get(i) == old(self).bind_groups.view()[key@]@.get(i),
            forall|k: Seq<char>|
                k != key@ ==> #[trigger] final(self).bind_groups.view().get(k) == old(self).bind_groups.view().get(k),
            final(self).bind_group_layouts == old(self).bind_group_layouts,
            final(self).buffers == old(self).buffers,
    {
        let group = Arc::new(bind_group);
        match self.bind_groups.remove(&key) {
            Some(mut groups) => {
                groups.insert(id, group);
                self.bind_groups.insert(key, groups);
            },
            None => {
                let mut groups: HashMap<u32, Arc<G>> = HashMap::new();
                groups.insert(id, group);
                self.bind_groups.insert(key, groups);
            },
        }
    }

    /// The layouts stored under each of `names`, in that order, or `None`
    /// when one of the names has none.
    pub fn layouts_for(&self, names: &Vec<String>) -> (r: Option<Vec<&Arc<L>>>)
        ensures
            match r {
                Some(v) => {
                    &&& v@.len() == names@.len()
                    &&& forall|i: int|
                        0 <= i < names@.len() ==> self.bind_group_layouts.view().contains_key(
                            #[trigger] str_views(names@)[i],
                        ) && *v@[i] == self.bind_group_layouts.view()[str_views(names@)[i]]
                },
                None => exists|i: int|
                    0 <= i < names@.len() && !self.bind_group_layouts.view().contains_key(
                        #[trigger] str_views(names@)[i],
                    ),
            },
    {
        let mut out: Vec<&Arc<L>> = Vec::new();
        let mut i: usize = 0;
        while i < names.len()
            invariant
                0 <= i <= names@.len(),
                out@.len() == i,
                forall|j: int|
                    0 <= j < i ==> self.bind_group_layouts.view().contains_key(
                        #[trigger] str_views(names@)[j],
                    ) && *out@[j] == self.bind_group_layouts.view()[str_views(names@)[j]],
            decreases names@.len() - i,
        {
            assert(str_views(names@)[i as int] == names@[i as int]@);
            match self.bind_group_layouts.get(&names[i]) {
                Some(layout) => {
                    out.push(layout);
                },
                None => {
                    return None;
                },
            }
            i = i + 1;
        }
        Some(out)
    }
}

} // verus!
