//! The mathematical model of the engine: a directed multigraph whose nodes
//! are numbered in the order in which their identifiers were first seen.
use vstd::prelude::*;

verus! {

/// How often `node` occurs in `sources`.
pub open spec fn occurrences(sources: Seq<usize>, node: int) -> nat
    decreases sources.len(),
{
    if sources.len() == 0 {
        0
    } else {
        occurrences(sources.drop_last(), node) + if sources.last() == node {
            1nat
        } else {
            0nat
        }
    }
}

/// How many links leave `node`: how often it occurs in all the lists of
/// sources together.
pub open spec fn links_from(in_links: Seq<Seq<usize>>, node: int) -> nat
    decreases in_links.len(),
{
    if in_links.len() == 0 {
        0
    } else {
        links_from(in_links.drop_last(), node) + occurrences(in_links.last(), node)
    }
}

/// A graph under construction.
///
/// Node `i` is the one whose identifier is `keys[i]`. `in_links[i]` lists,
/// in the order in which the links were recorded, the node at the origin of
/// each link that points to node `i`; a link recorded twice stands twice.
pub ghost struct Graph {
    /// How many nodes the graph may hold.
    pub capacity: nat,
    /// The identifiers, in the order in which they were first seen.
    pub keys: Seq<usize>,
    /// For each node, the origins of the links that point to it.
    pub in_links: Seq<Seq<usize>>,
}

impl Graph {
    /// The graph without nodes that may hold `capacity` of them.
    pub open spec fn empty(capacity: nat) -> Graph {
        Graph { capacity, keys: Seq::empty(), in_links: Seq::empty() }
    }

    /// The number of nodes.
    pub open spec fn len(self) -> nat {
        self.keys.len()
    }

    /// Every node has one identifier and one list of sources, no identifier
    /// names two nodes, and every source is a node of the graph.
    pub open spec fn wf(self) -> bool {
        &&& self.keys.len() <= self.capacity
        &&& self.in_links.len() == self.keys.len()
        &&& self.keys.no_duplicates()
        &&& forall|i: int, k: int|
            0 <= i < self.in_links.len() && 0 <= k < self.in_links[i].len()
                ==> (#[trigger] self.in_links[i][k]) < self.keys.len()
    }

    /// Whether `key` names a node.
    pub open spec fn contains(self, key: usize) -> bool {
        self.keys.contains(key)
    }

    /// The node that `key` names.
    pub open spec fn index_of(self, key: usize) -> int
        recommends
            self.contains(key),
    {
        self.keys.index_of(key)
    }

    /// The number of links that leave node `index`.
    pub open spec fn out_degree(self, index: int) -> nat {
        links_from(self.in_links, index)
    }

    /// The number of links that leave the node named `key`: none where no
    /// node has that name.
    pub open spec fn out_degree_of(self, key: usize) -> nat {
        if self.contains(key) {
            self.out_degree(self.index_of(key))
        } else {
            0
        }
    }

    /// Among the first `count` nodes, those that no link leaves, in
    /// ascending order.
    pub open spec fn dangling_among(self, count: nat) -> Seq<usize> {
        Seq::new(count, |i: int| i as usize).filter(|i: usize| self.out_degree(i as int) == 0)
    }

    /// The nodes that no link leaves, in ascending order.
    pub open spec fn dangling(self) -> Seq<usize> {
        self.dangling_among(self.len())
    }

    /// Whether `key` names a node already, or a slot is left for it.
    pub open spec fn accepts(self, key: usize) -> bool {
        self.contains(key) || self.keys.len() < self.capacity
    }

    /// The graph after `key` was looked up: a new identifier becomes the
    /// last node, without links, where a slot is left for it.
    pub open spec fn register(self, key: usize) -> Graph {
        if self.contains(key) || self.keys.len() >= self.capacity {
            self
        } else {
            Graph {
                capacity: self.capacity,
                keys: self.keys.push(key),
                in_links: self.in_links.push(Seq::empty()),
            }
        }
    }

    /// The graph with one more link, from node `from` to node `to`.
    pub open spec fn connect(self, from: int, to: int) -> Graph
        recommends
            0 <= from < self.len(),
            0 <= to < self.len(),
    {
        Graph {
            capacity: self.capacity,
            keys: self.keys,
            in_links: self.in_links.update(to, self.in_links[to].push(from as usize)),
        }
    }

    /// Whether a link between these two identifiers is recorded: each of
    /// them, in turn, names a node or finds a slot.
    pub open spec fn link_accepted(self, from: usize, to: usize) -> bool {
        self.accepts(from) && self.register(from).accepts(to)
    }

    /// The graph after a link from `from` to `to` was asked for. The two
    /// identifiers are looked up one after the other, so an origin that was
    /// new stays a node even where the target no longer finds a slot.
    pub open spec fn with_link(self, from: usize, to: usize) -> Graph {
        let first = self.register(from);
        let second = first.register(to);
        if self.link_accepted(from, to) {
            second.connect(second.index_of(from), second.index_of(to))
        } else if self.accepts(from) {
            first
        } else {
            self
        }
    }
}

/// One more source at the end of a list counts once for that node, and
/// for no other.
pub proof fn lemma_occurrences_push(sources: Seq<usize>, source: usize, node: int)
    ensures
        occurrences(sources.push(source), node) == occurrences(sources, node) + if source == node {
            1nat
        } else {
            0nat
        },
{
    assert(sources.push(source).drop_last() =~= sources);
}

/// A node that is not among the sources occurs no time.
pub proof fn lemma_occurrences_absent(sources: Seq<usize>, node: int)
    requires
        forall|k: int| 0 <= k < sources.len() ==> sources[k] != node,
    ensures
        occurrences(sources, node) == 0,
    decreases sources.len(),
{
    if sources.len() > 0 {
        lemma_occurrences_absent(sources.drop_last(), node);
    }
}

/// A node that is among the sources occurs at least once.
pub proof fn lemma_occurrences_present(sources: Seq<usize>, k: int)
    requires
        0 <= k < sources.len(),
    ensures
        occurrences(sources, sources[k] as int) >= 1,
    decreases sources.len(),
{
    if k < sources.len() - 1 {
        lemma_occurrences_present(sources.drop_last(), k);
    }
}

/// A node without links adds no link to any node.
pub proof fn lemma_links_from_push_empty(in_links: Seq<Seq<usize>>, node: int)
    ensures
        links_from(in_links.push(Seq::empty()), node) == links_from(in_links, node),
{
    assert(in_links.push(Seq::empty()).drop_last() =~= in_links);
}

/// A node that is no source of any link has no link leaving it.
pub proof fn lemma_links_from_absent(in_links: Seq<Seq<usize>>, node: int)
    requires
        forall|i: int, k: int|
            0 <= i < in_links.len() && 0 <= k < in_links[i].len() ==> (#[trigger] in_links[i][k])
                != node,
    ensures
        links_from(in_links, node) == 0,
    decreases in_links.len(),
{
    if in_links.len() > 0 {
        let rest = in_links.drop_last();
        assert forall|i: int, k: int| 0 <= i < rest.len() && 0 <= k < rest[i].len() implies (
        #[trigger] rest[i][k]) != node by {
            assert(rest[i][k] == in_links[i][k]);
        }
        lemma_links_from_absent(rest, node);
        let last = in_links.last();
        assert forall|k: int| 0 <= k < last.len() implies last[k] != node by {
            assert(last[k] == in_links[in_links.len() - 1][k]);
        }
        lemma_occurrences_absent(last, node);
    }
}

/// The source of a link has at least that link leaving it.
pub proof fn lemma_links_from_present(in_links: Seq<Seq<usize>>, i: int, k: int)
    requires
        0 <= i < in_links.len(),
        0 <= k < in_links[i].len(),
    ensures
        links_from(in_links, in_links[i][k] as int) >= 1,
    decreases in_links.len(),
{
    if i < in_links.len() - 1 {
        lemma_links_from_present(in_links.drop_last(), i, k);
    } else {
        lemma_occurrences_present(in_links.last(), k);
    }
}

/// One more link into node `to` is one more link out of its source, and
/// changes no other count.
pub proof fn lemma_links_from_connect(in_links: Seq<Seq<usize>>, to: int, source: usize, node: int)
    requires
        0 <= to < in_links.len(),
    ensures
        links_from(in_links.update(to, in_links[to].push(source)), node) == links_from(
            in_links,
            node,
        ) + if source == node {
            1nat
        } else {
            0nat
        },
    decreases in_links.len(),
{
    let after = in_links.update(to, in_links[to].push(source));
    if to == in_links.len() - 1 {
        assert(after.drop_last() =~= in_links.drop_last());
        lemma_occurrences_push(in_links[to], source, node);
    } else {
        let rest = in_links.drop_last();
        assert(after.drop_last() =~= rest.update(to, rest[to].push(source)));
        assert(after.last() == in_links.last());
        lemma_links_from_connect(rest, to, source, node);
    }
}

impl Graph {
    /// Looking an identifier up keeps a graph well formed.
    pub proof fn lemma_register_wf(self, key: usize)
        requires
            self.wf(),
        ensures
            self.register(key).wf(),
            self.register(key).capacity == self.capacity,
            self.accepts(key) ==> self.register(key).contains(key),
            forall|other: usize| self.contains(other) ==> self.register(key).contains(other),
            forall|other: usize|
                self.contains(other) ==> self.register(key).index_of(other) == self.index_of(other),
            forall|index: int| self.register(key).out_degree(index) == self.out_degree(index),
            forall|other: usize|
                self.register(key).out_degree_of(other) == self.out_degree_of(other),
    {
        let after = self.register(key);
        if !self.contains(key) && self.keys.len() < self.capacity {
            assert forall|index: int| after.out_degree(index) == self.out_degree(index) by {
                lemma_links_from_push_empty(self.in_links, index);
            }
            lemma_links_from_absent(self.in_links, self.keys.len() as int);
            assert forall|other: usize| after.contains(other) implies self.contains(other) || (
            other == key && after.index_of(other) == self.keys.len()) by {
                let found = after.keys.index_of(other);
                assert(after.keys[found] == other);
                if found < self.keys.len() {
                    assert(self.keys[found] == other);
                }
            }
            assert(after.keys[self.keys.len() as int] == key);
            assert forall|i: int, k: int|
                0 <= i < after.in_links.len() && 0 <= k < after.in_links[i].len() implies (
            #[trigger] after.in_links[i][k]) < after.keys.len() by {
                assert(after.in_links[i] == self.in_links[i]);
                assert(self.in_links[i][k] < self.keys.len());
            }
            assert forall|other: usize| self.contains(other) implies after.contains(other)
                && after.index_of(other) == self.index_of(other) by {
                let at = self.keys.index_of(other);
                assert(after.keys[at] == other);
                let found = after.keys.index_of(other);
                assert(after.keys[found] == other);
                assert(found == at);
            }
        }
    }

    /// Recording a link between two nodes keeps a graph well formed.
    pub proof fn lemma_connect_wf(self, from: int, to: int)
        requires
            self.wf(),
            0 <= from < self.len(),
            0 <= to < self.len(),
        ensures
            self.connect(from, to).wf(),
    {
        let after = self.connect(from, to);
        assert forall|i: int, k: int|
            0 <= i < after.in_links.len() && 0 <= k < after.in_links[i].len() implies (
        #[trigger] after.in_links[i][k]) < after.keys.len() by {
            if i == to {
                if k < self.in_links[to].len() {
                    assert(after.in_links[i][k] == self.in_links[to][k]);
                }
            } else {
                assert(after.in_links[i][k] == self.in_links[i][k]);
            }
        }
    }

    /// Asking for a link keeps a graph well formed and its capacity as it
    /// was, whether the link is recorded or not.
    pub proof fn lemma_with_link_wf(self, from: usize, to: usize)
        requires
            self.wf(),
        ensures
            self.with_link(from, to).wf(),
            self.with_link(from, to).capacity == self.capacity,
    {
        let first = self.register(from);
        self.lemma_register_wf(from);
        let second = first.register(to);
        first.lemma_register_wf(to);
        if self.link_accepted(from, to) {
            assert(second.contains(from));
            assert(second.contains(to));
            second.lemma_connect_wf(second.index_of(from), second.index_of(to));
        }
    }

    /// Among no nodes none is dangling; one more node comes last among the
    /// dangling ones if no link leaves it, and changes nothing otherwise.
    pub proof fn lemma_dangling_among_step(self, count: nat)
        requires
            count < usize::MAX,
        ensures
            self.dangling_among(0) == Seq::<usize>::empty(),
            self.dangling_among(count + 1) == if self.out_degree(count as int) == 0 {
                self.dangling_among(count).push(count as usize)
            } else {
                self.dangling_among(count)
            },
    {
        reveal(Seq::filter);
        let nodes = Seq::new(count + 1, |i: int| i as usize);
        assert(nodes.drop_last() =~= Seq::new(count, |i: int| i as usize));
        assert(nodes.last() == count as usize);
    }

    /// The source of every link has at least one link leaving it: no node
    /// that is listed among the sources is dangling.
    pub proof fn lemma_sources_have_out_links(self, index: int, k: int)
        requires
            0 <= index < self.in_links.len(),
            0 <= k < self.in_links[index].len(),
        ensures
            self.out_degree(self.in_links[index][k] as int) >= 1,
    {
        lemma_links_from_present(self.in_links, index, k);
    }
}

} // verus!
