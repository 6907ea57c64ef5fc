//! The engine: it numbers the identifiers that it is given, records the
//! links between them, and hands the graph out to the power iteration.
use crate::errors::{capacity_error_message, capacity_message, PagerankError};
use crate::graph::{
    lemma_links_from_absent, lemma_links_from_connect, lemma_links_from_push_empty, Graph,
};
use std::collections::HashMap;
use vstd::prelude::*;

verus! {

broadcast use vstd::std_specs::hash::group_hash_axioms;

/// A graph under construction, with room for a fixed number of nodes.
///
/// Identifiers are arbitrary; each gets the next free index when it is first
/// seen. `in_links` and `number_out_links` are sized for the whole capacity
/// from the start, and only the slots below `current_available_index` are in
/// use.
pub struct Pagerank {
    in_links: Vec<Vec<usize>>,
    number_out_links: Vec<usize>,
    current_available_index: usize,
    key_to_index: HashMap<usize, usize>,
    index_to_key: HashMap<usize, usize>,
    capacity: usize,
}

impl View for Pagerank {
    type V = Graph;

    closed spec fn view(&self) -> Graph {
        Graph {
            capacity: self.capacity as nat,
            keys: Seq::new(
                self.current_available_index as nat,
                |i: int| self.index_to_key@[i as usize],
            ),
            in_links: Seq::new(self.current_available_index as nat, |i: int| self.in_links@[i]@),
        }
    }
}

impl Pagerank {
    /// The storage has one slot for each node that the engine may hold, and
    /// the slots that are not in use are blank.
    spec fn storage_wf(&self) -> bool {
        &&& self.in_links@.len() == self.capacity
        &&& self.number_out_links@.len() == self.capacity
        &&& self.current_available_index <= self.capacity
        &&& forall|i: int|
            self.current_available_index <= i < self.capacity ==> (#[trigger] self.in_links@[i])@.len()
                == 0
        &&& forall|i: int|
            self.current_available_index <= i < self.capacity
                ==> #[trigger] self.number_out_links@[i] == 0
    }

    /// The two maps are inverse to each other, and the indices in use are
    /// exactly those below the cursor.
    spec fn maps_wf(&self) -> bool {
        &&& forall|i: usize| #[trigger]
            self.index_to_key@.contains_key(i) <==> i < self.current_available_index
        &&& forall|key: usize| #[trigger]
            self.key_to_index@.contains_key(key) ==> {
                &&& self.key_to_index@[key] < self.current_available_index
                &&& self.index_to_key@[self.key_to_index@[key]] == key
            }
        &&& forall|i: usize|
            i < self.current_available_index ==> {
                &&& self.key_to_index@.contains_key(#[trigger] self.index_to_key@[i])
                &&& self.key_to_index@[self.index_to_key@[i]] == i
            }
    }

    /// Each counter holds the number of links that leave its node.
    spec fn counts_wf(&self) -> bool {
        forall|i: int|
            0 <= i < self.current_available_index ==> #[trigger] self.number_out_links@[i]
                == self@.out_degree(i)
    }

    /// The invariant of the engine: its storage is consistent, and the graph
    /// that it holds is well formed.
    pub closed spec fn wf(&self) -> bool {
        &&& self.storage_wf()
        &&& self.maps_wf()
        &&& self.counts_wf()
        &&& self@.wf()
    }

    /// A well-formed engine holds a well-formed graph.
    pub proof fn lemma_view_wf(&self)
        requires
            self.wf(),
        ensures
            self@.wf(),
    {
    }

    /// An identifier names a node exactly if the map knows it, and the map
    /// gives the node's index.
    proof fn lemma_lookup(&self, key: usize)
        requires
            self.wf(),
        ensures
            self@.contains(key) == self.key_to_index@.contains_key(key),
            self@.contains(key) ==> self@.index_of(key) == self.key_to_index@[key],
    {
        let keys = self@.keys;
        if self.key_to_index@.contains_key(key) {
            let index = self.key_to_index@[key];
            assert(keys[index as int] == key);
            let found = keys.index_of(key);
            assert(keys[found] == key);
        }
        if keys.contains(key) {
            let found = keys.index_of(key);
            assert(keys[found] == key);
            assert(self.index_to_key@[found as usize] == key);
        }
    }

    /// Creates an engine for a graph of up to `capacity` nodes, without
    /// nodes so far.
    pub fn new(capacity: usize) -> (engine: Pagerank)
        ensures
            engine.wf(),
            engine@ == Graph::empty(capacity as nat),
    {
        let mut in_links: Vec<Vec<usize>> = Vec::with_capacity(capacity);
        let mut number_out_links: Vec<usize> = Vec::with_capacity(capacity);
        let mut i: usize = 0;
        while i < capacity
            invariant
                i <= capacity,
                in_links@.len() == i,
                number_out_links@.len() == i,
                forall|j: int| 0 <= j < i ==> (#[trigger] in_links@[j])@.len() == 0,
                forall|j: int| 0 <= j < i ==> #[trigger] number_out_links@[j] == 0,
            decreases capacity - i,
        {
            in_links.push(Vec::new());
            number_out_links.push(0);
            i += 1;
        }
        let engine = Pagerank {
            in_links,
            number_out_links,
            current_available_index: 0,
            key_to_index: HashMap::with_capacity(capacity),
            index_to_key: HashMap::with_capacity(capacity),
            capacity,
        };
        assert(engine@.keys =~= Seq::empty());
        assert(engine@.in_links =~= Seq::empty());
        engine
    }

    /// Looks `key` up, and gives it the next free index if it is new. Fails
    /// where a new identifier finds every slot taken.
    fn key_as_array_index(&mut self, key: usize) -> (result: Result<usize, PagerankError>)
        requires
            old(self).wf(),
        ensures
            final(self).wf(),
            final(self)@ == old(self)@.register(key),
            match result {
                Ok(index) => {
                    &&& old(self)@.accepts(key)
                    &&& final(self)@.contains(key)
                    &&& index == final(self)@.index_of(key)
                    &&& index < final(self)@.len()
                },
                Err(error) => {
                    &&& !old(self)@.accepts(key)
                    &&& error.text() == capacity_message(
                        old(self)@.capacity,
                        old(self)@.capacity,
                    )
                },
            },
    {
        proof {
            self.lemma_lookup(key);
        }
        match self.key_to_index.get(&key) {
            Some(index) => Ok(*index),
            None => {
                if self.current_available_index >= self.capacity {
                    let message = capacity_error_message(
                        self.current_available_index,
                        self.capacity,
                    );
                    Err(PagerankError::CapacityError(message))
                } else {
                    let new_index = self.current_available_index;
                    self.key_to_index.insert(key, new_index);
                    self.index_to_key.insert(new_index, key);
                    self.current_available_index = new_index + 1;
                    proof {
                        let before = old(self)@;
                        let after = self@;
                        assert(after.keys =~= before.keys.push(key));
                        assert(self.in_links@[new_index as int]@ =~= Seq::empty());
                        assert(after.in_links =~= before.in_links.push(Seq::empty()));
                        before.lemma_register_wf(key);
                        assert forall|i: int| 0 <= i < self.current_available_index implies (
                        #[trigger] self.number_out_links@[i]) == after.out_degree(i) by {
                            lemma_links_from_push_empty(before.in_links, i);
                            if i == new_index {
                                lemma_links_from_absent(before.in_links, i);
                            }
                        }
                        assert(after.keys[new_index as int] == key);
                        self.lemma_lookup(key);
                    }
                    Ok(new_index)
                }
            },
        }
    }

    /// Records node `from_as_index` among the origins of the links that
    /// point to node `to_as_index`.
    fn update_in_links(&mut self, from_as_index: usize, to_as_index: usize)
        requires
            to_as_index < old(self).in_links@.len(),
        ensures
            final(self).in_links@ == old(self).in_links@.update(
                to_as_index as int,
                final(self).in_links@[to_as_index as int],
            ),
            final(self).in_links@[to_as_index as int]@ == old(self).in_links@[to_as_index as int]@.push(
                from_as_index,
            ),
            final(self).number_out_links == old(self).number_out_links,
            final(self).current_available_index == old(self).current_available_index,
            final(self).key_to_index == old(self).key_to_index,
            final(self).index_to_key == old(self).index_to_key,
            final(self).capacity == old(self).capacity,
    {
        self.in_links[to_as_index].push(from_as_index);
    }

    /// Counts one more link that leaves node `from_as_index`.
    fn update_number_out_links(&mut self, from_as_index: usize)
        requires
            from_as_index < old(self).number_out_links@.len(),
            old(self).number_out_links@[from_as_index as int] < usize::MAX,
        ensures
            final(self).number_out_links@ == old(self).number_out_links@.update(
                from_as_index as int,
                (old(self).number_out_links@[from_as_index as int] + 1) as usize,
            ),
            final(self).in_links == old(self).in_links,
            final(self).current_available_index == old(self).current_available_index,
            final(self).key_to_index == old(self).key_to_index,
            final(self).index_to_key == old(self).index_to_key,
            final(self).capacity == old(self).capacity,
    {
        let count = self.number_out_links[from_as_index];
        self.number_out_links[from_as_index] = count + 1;
    }

    /// Records a link between two nodes.
    fn link_with_indices(&mut self, from_as_index: usize, to_as_index: usize)
        requires
            old(self).wf(),
            from_as_index < old(self)@.len(),
            to_as_index < old(self)@.len(),
            old(self)@.out_degree(from_as_index as int) < usize::MAX,
        ensures
            final(self).wf(),
            final(self)@ == old(self)@.connect(from_as_index as int, to_as_index as int),
    {
        self.update_in_links(from_as_index, to_as_index);
        self.update_number_out_links(from_as_index);
        proof {
            let before = old(self)@;
            let after = self@;
            assert(after.keys =~= before.keys);
            assert(after.in_links =~= before.connect(
                from_as_index as int,
                to_as_index as int,
            ).in_links);
            before.lemma_connect_wf(from_as_index as int, to_as_index as int);
            assert forall|i: int| 0 <= i < self.current_available_index implies (
            #[trigger] self.number_out_links@[i]) == after.out_degree(i) by {
                lemma_links_from_connect(before.in_links, to_as_index as int, from_as_index, i);
            }
        }
    }

    /// Records a link from the node named `from` to the node named `to`.
    ///
    /// An identifier that was not seen before becomes a node first. The two
    /// are looked up in turn, `from` before `to`: where `to` is new and no
    /// slot is left, the call fails, and a `from` that was new stays a
    /// node. The same link may be recorded many times, and counts each time.
    ///
    /// The count of the links that leave `from` must still fit its counter.
    pub fn link(&mut self, from: usize, to: usize) -> (result: Result<(), PagerankError>)
        requires
            old(self).wf(),
            old(self)@.out_degree_of(from) < usize::MAX,
        ensures
            final(self).wf(),
            final(self)@ == old(self)@.with_link(from, to),
            result.is_ok() == old(self)@.link_accepted(from, to),
            result matches Err(error) ==> error.text() == capacity_message(
                old(self)@.capacity,
                old(self)@.capacity,
            ),
    {
        let from_as_index = match self.key_as_array_index(from) {
            Ok(index) => index,
            Err(error) => {
                return Err(error);
            },
        };
        let ghost first = self@;
        let to_as_index = match self.key_as_array_index(to) {
            Ok(index) => index,
            Err(error) => {
                return Err(error);
            },
        };
        proof {
            old(self)@.lemma_register_wf(from);
            first.lemma_register_wf(to);
        }
        self.link_with_indices(from_as_index, to_as_index);
        Ok(())
    }

    /// Forgets every node and every link. The capacity stays.
    pub fn clear(&mut self)
        requires
            old(self).wf(),
        ensures
            final(self).wf(),
            final(self)@ == Graph::empty(old(self)@.capacity),
    {
        let slots = self.in_links.len();
        let mut i: usize = 0;
        while i < slots
            invariant
                i <= slots,
                slots == self.capacity,
                self.capacity == old(self).capacity,
                self.in_links@.len() == slots,
                self.number_out_links@.len() == slots,
                forall|j: int| 0 <= j < i ==> (#[trigger] self.in_links@[j])@.len() == 0,
                forall|j: int| 0 <= j < i ==> #[trigger] self.number_out_links@[j] == 0,
            decreases slots - i,
        {
            self.in_links[i].clear();
            self.number_out_links[i] = 0;
            i += 1;
        }
        self.current_available_index = 0;
        self.key_to_index.clear();
        self.index_to_key.clear();
        assert(self@.keys =~= Seq::empty());
        assert(self@.in_links =~= Seq::empty());
    }

    /// The nodes that no link leaves, in ascending order.
    pub fn calculate_dangling_nodes(&self) -> (nodes: Vec<usize>)
        requires
            self.wf(),
        ensures
            nodes@ == self@.dangling(),
            forall|k: int|
                0 <= k < nodes@.len() ==> (#[trigger] nodes@[k]) < self@.len() && self@.out_degree(
                    nodes@[k] as int,
                ) == 0,
    {
        let mut nodes: Vec<usize> = Vec::new();
        let mut index: usize = 0;
        proof {
            self@.lemma_dangling_among_step(0);
        }
        while index < self.current_available_index
            invariant
                self.wf(),
                index <= self.current_available_index,
                nodes@ == self@.dangling_among(index as nat),
                forall|k: int|
                    0 <= k < nodes@.len() ==> (#[trigger] nodes@[k]) < self@.len()
                        && self@.out_degree(nodes@[k] as int) == 0,
            decreases self.current_available_index - index,
        {
            proof {
                self@.lemma_dangling_among_step(index as nat);
            }
            if self.number_out_links[index] == 0 {
                nodes.push(index);
            }
            index += 1;
        }
        nodes
    }

    /// The number of nodes that the engine may hold.
    pub fn capacity(&self) -> (capacity: usize)
        ensures
            capacity == self@.capacity,
    {
        self.capacity
    }

    /// The number of nodes: of identifiers seen so far.
    pub fn len(&self) -> (len: usize)
        requires
            self.wf(),
        ensures
            len == self@.len(),
            len <= self@.capacity,
    {
        self.current_available_index
    }

    /// The identifier of node `index`, where there is such a node.
    pub fn key_at(&self, index: usize) -> (key: Option<usize>)
        requires
            self.wf(),
        ensures
            key == if index < self@.len() {
                Some(self@.keys[index as int])
            } else {
                None
            },
    {
        match self.index_to_key.get(&index) {
            Some(key) => Some(*key),
            None => None,
        }
    }

    /// The node that `key` names, where it names one.
    pub fn index_of(&self, key: usize) -> (index: Option<usize>)
        requires
            self.wf(),
        ensures
            index == if self@.contains(key) {
                Some(self@.index_of(key) as usize)
            } else {
                None
            },
            index matches Some(i) ==> i < self@.len() && self@.keys[i as int] == key,
    {
        proof {
            self.lemma_lookup(key);
        }
        match self.key_to_index.get(&key) {
            Some(index) => Some(*index),
            None => None,
        }
    }

    /// The origins of the links that point to node `index`, in the order in
    /// which the links were recorded. Each of them is a node of the graph
    /// with at least one link leaving it.
    pub fn in_links(&self, index: usize) -> (sources: &Vec<usize>)
        requires
            self.wf(),
            index < self@.len(),
        ensures
            sources@ == self@.in_links[index as int],
            forall|k: int|
                0 <= k < sources@.len() ==> (#[trigger] sources@[k]) < self@.len()
                    && self@.out_degree(sources@[k] as int) >= 1,
    {
        proof {
            assert forall|k: int| 0 <= k < self@.in_links[index as int].len() implies (
            #[trigger] self@.in_links[index as int][k]) < self@.len() && self@.out_degree(
                self@.in_links[index as int][k] as int,
            ) >= 1 by {
                self@.lemma_sources_have_out_links(index as int, k);
            }
        }
        &self.in_links[index]
    }

    /// The number of links that leave node `index`.
    pub fn number_out_links(&self, index: usize) -> (count: usize)
        requires
            self.wf(),
            index < self@.len(),
        ensures
            count == self@.out_degree(index as int),
    {
        self.number_out_links[index]
    }
}

} // verus!
