//! What holds of a graph after a whole sequence of links was asked for.
use crate::graph::Graph;
use vstd::prelude::*;
use vstd::set_lib::lemma_len_subset;

verus! {

/// The identifiers that a sequence of links names, as origin or as target.
pub open spec fn identifiers(links: Seq<(usize, usize)>) -> Set<usize>
    decreases links.len(),
{
    if links.len() == 0 {
        Set::empty()
    } else {
        identifiers(links.drop_first()).insert(links[0].0).insert(links[0].1)
    }
}

impl Graph {
    /// The graph after each of `links` was asked for, in order.
    pub open spec fn with_links(self, links: Seq<(usize, usize)>) -> Graph
        decreases links.len(),
    {
        if links.len() == 0 {
            self
        } else {
            self.with_link(links[0].0, links[0].1).with_links(links.drop_first())
        }
    }

    /// Whether each of `links`, asked for in order, is recorded.
    pub open spec fn accepts_links(self, links: Seq<(usize, usize)>) -> bool
        decreases links.len(),
    {
        links.len() == 0 || {
            &&& self.link_accepted(links[0].0, links[0].1)
            &&& self.with_link(links[0].0, links[0].1).accepts_links(links.drop_first())
        }
    }

    /// The identifiers of the nodes.
    pub open spec fn key_set(self) -> Set<usize> {
        self.keys.to_set()
    }

    /// A well-formed graph has as many identifiers as nodes.
    pub proof fn lemma_key_set_len(self)
        requires
            self.wf(),
        ensures
            self.key_set().finite(),
            self.key_set().len() == self.len(),
    {
        broadcast use vstd::seq_lib::seq_to_set_is_finite;

        self.keys.unique_seq_to_set();
    }

    /// Looking an identifier up adds it to the identifiers where it is
    /// accepted, and changes nothing where it is not.
    pub proof fn lemma_register_key_set(self, key: usize)
        ensures
            self.register(key).key_set() == if self.accepts(key) {
                self.key_set().insert(key)
            } else {
                self.key_set()
            },
    {
        if self.contains(key) {
            assert(self.key_set().insert(key) =~= self.key_set());
        } else if self.keys.len() < self.capacity {
            self.keys.lemma_push_to_set_commute(key);
        }
    }

    /// A link changes the identifiers as the two lookups before it do.
    pub proof fn lemma_with_link_key_set(self, from: usize, to: usize)
        ensures
            self.with_link(from, to).key_set() == if self.link_accepted(from, to) {
                self.key_set().insert(from).insert(to)
            } else if self.accepts(from) {
                self.key_set().insert(from)
            } else {
                self.key_set()
            },
    {
        self.lemma_register_key_set(from);
        self.register(from).lemma_register_key_set(to);
    }

    /// A sequence of links keeps a graph well formed and its capacity as it
    /// was.
    pub proof fn lemma_with_links_wf(self, links: Seq<(usize, usize)>)
        requires
            self.wf(),
        ensures
            self.with_links(links).wf(),
            self.with_links(links).capacity == self.capacity,
        decreases links.len(),
    {
        if links.len() > 0 {
            self.lemma_with_link_wf(links[0].0, links[0].1);
            self.with_link(links[0].0, links[0].1).lemma_with_links_wf(links.drop_first());
        }
    }

    /// Every link of a sequence is recorded exactly if the identifiers of
    /// the graph and those that the links name are, together, no more than
    /// the capacity.
    pub proof fn lemma_accepts_links(self, links: Seq<(usize, usize)>)
        requires
            self.wf(),
        ensures
            self.accepts_links(links) <==> (self.key_set() + identifiers(links)).len()
                <= self.capacity,
        decreases links.len(),
    {
        lemma_identifiers_finite(links);
        self.lemma_key_set_len();
        let all = self.key_set() + identifiers(links);
        if links.len() == 0 {
            assert(all =~= self.key_set());
        } else {
            let from = links[0].0;
            let to = links[0].1;
            let rest = links.drop_first();
            let first = self.register(from);
            let next = self.with_link(from, to);
            self.lemma_register_wf(from);
            self.lemma_register_key_set(from);
            self.lemma_with_link_wf(from, to);
            self.lemma_with_link_key_set(from, to);
            first.lemma_key_set_len();
            if self.link_accepted(from, to) {
                next.lemma_accepts_links(rest);
                assert(next.key_set() + identifiers(rest) =~= all);
            } else if self.accepts(from) {
                let more = first.key_set().insert(to);
                assert(!first.key_set().contains(to));
                assert(more.subset_of(all));
                lemma_len_subset(more, all);
            } else {
                let more = self.key_set().insert(from);
                assert(!self.key_set().contains(from));
                assert(more.subset_of(all));
                lemma_len_subset(more, all);
            }
        }
    }
}

/// A sequence of links names finitely many identifiers.
pub proof fn lemma_identifiers_finite(links: Seq<(usize, usize)>)
    ensures
        identifiers(links).finite(),
    decreases links.len(),
{
    if links.len() > 0 {
        lemma_identifiers_finite(links.drop_first());
    }
}

/// Starting from an empty engine, every link of a sequence is recorded
/// exactly if the sequence names no more identifiers than the engine has
/// slots: up to the capacity no link fails, and beyond it one does.
pub proof fn lemma_capacity(capacity: nat, links: Seq<(usize, usize)>)
    ensures
        Graph::empty(capacity).accepts_links(links) <==> identifiers(links).len() <= capacity,
{
    let start = Graph::empty(capacity);
    start.lemma_accepts_links(links);
    assert(start.key_set() + identifiers(links) =~= identifiers(links));
}

/// Clearing a graph that a sequence of links has built, and asking for the
/// same links again, gives the same graph, and the same links are recorded.
pub proof fn lemma_clear_and_repeat(capacity: nat, links: Seq<(usize, usize)>)
    ensures
        ({
            let built = Graph::empty(capacity).with_links(links);
            let cleared = Graph::empty(built.capacity);
            &&& cleared.with_links(links) == built
            &&& cleared.accepts_links(links) == Graph::empty(capacity).accepts_links(links)
        }),
{
    Graph::empty(capacity).lemma_with_links_wf(links);
}

} // verus!
