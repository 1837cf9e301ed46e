//! A tower of programs: a weighted tree assembled from out-of-order facts.
//!
//! Each fact names a program, gives its own weight, and lists the programs
//! standing directly on it.  The tower ingests the facts one at a time
//! ([`Tower::add`]), keeps a best-effort root, resolves the true root by
//! walking parent links ([`Tower::find_root_from`]), aggregates subtree
//! weights ([`Tower::visit_from`], [`Tower::finalize`]), and locates the one
//! program whose children are out of balance
//! ([`Tower::find_unstable_children`], [`Tower::search_unstable`]).

use vstd::prelude::*;

verus! {

/// Why a tower computation gave up: a reachable program was never given a
/// weight, or following links revisited a program (the input was not a tree).
#[derive(Clone, Copy, PartialEq, Eq, Structural, Debug)]
pub enum TowerError {
    MissingWeight,
    CycleDetected,
}

/// The mathematical image of one program: what the registry records about it.
#[verifier::ext_equal]
pub ghost struct NodeV {
    pub weight: Option<u32>,
    pub parent: Option<Seq<char>>,
    pub children: Seq<Seq<char>>,
    pub total: u32,
}

/// The mathematical image of the whole registry: program name to record.
pub type GraphV = Map<Seq<char>, NodeV>;

/// One program of the tower.
pub struct Program {
    pub name: String,
    pub weight: Option<u32>,
    pub parent: Option<String>,
    pub children: Vec<String>,
    pub total_weight: u32,
}

impl View for Program {
    type V = NodeV;

    open spec fn view(&self) -> NodeV {
        NodeV {
            weight: self.weight,
            parent: match self.parent {
                Some(p) => Some(p@),
                None => None,
            },
            children: self.children@.map_values(|c: String| c@),
            total: self.total_weight,
        }
    }
}

impl Program {
    /// A fresh program record with no children and no aggregate yet.
    pub fn new(name: &str, weight: Option<u32>, parent: Option<String>) -> (p: Program)
        ensures
            p.name@ == name@,
            p@ == (NodeV {
                weight,
                parent: match parent {
                    Some(q) => Some(q@),
                    None => None,
                },
                children: Seq::<Seq<char>>::empty(),
                total: 0,
            }),
    {
        let p = Program {
            name: name.to_owned(),
            weight,
            parent,
            children: Vec::new(),
            total_weight: 0,
        };
        proof {
            assert(p.children@.map_values(|c: String| c@) =~= Seq::<Seq<char>>::empty());
            assert(p@ =~= (NodeV {
                weight,
                parent: match p.parent {
                    Some(q) => Some(q@),
                    None => None,
                },
                children: Seq::<Seq<char>>::empty(),
                total: 0,
            }));
        }
        p
    }
}

/// A name-to-weight table, the exec mirror of a `Map<Seq<char>, int>`.
/// Later entries override earlier ones, as repeated inserts would.
pub struct Weights {
    pub entries: Vec<(String, u32)>,
}

/// The map described by an entry list: each entry overrides the ones before.
pub open spec fn map_of(s: Seq<(Seq<char>, u32)>) -> Map<Seq<char>, int>
    decreases s.len(),
{
    if s.len() == 0 {
        Map::empty()
    } else {
        map_of(s.drop_last()).insert(s.last().0, s.last().1 as int)
    }
}

/// The entry list with each name replaced by its character sequence.
pub open spec fn entries_view(s: Seq<(String, u32)>) -> Seq<(Seq<char>, u32)> {
    s.map_values(|e: (String, u32)| (e.0@, e.1))
}

impl View for Weights {
    type V = Map<Seq<char>, int>;

    open spec fn view(&self) -> Map<Seq<char>, int> {
        map_of(entries_view(self.entries@))
    }
}

impl Weights {
    pub fn new() -> (w: Weights)
        ensures
            w@ =~= Map::<Seq<char>, int>::empty(),
    {
        let w = Weights { entries: Vec::new() };
        proof {
            assert(entries_view(w.entries@) =~= Seq::<(Seq<char>, u32)>::empty());
        }
        w
    }

    /// Record `value` for `name`, overriding any earlier entry.
    pub fn set(&mut self, name: String, value: u32)
        ensures
            final(self)@ =~= old(self)@.insert(name@, value as int),
    {
        let ghost nv = name@;
        self.entries.push((name, value));
        proof {
            assert(entries_view(self.entries@) =~= entries_view(old(self).entries@).push(
                (nv, value),
            ));
            assert(entries_view(self.entries@).drop_last() =~= entries_view(old(self).entries@));
        }
    }

    /// The value recorded for `name`, if any.
    pub fn get(&self, name: &String) -> (r: Option<u32>)
        ensures
            match r {
                Some(v) => self@.contains_key(name@) && self@[name@] == v as int,
                None => !self@.contains_key(name@),
            },
    {
        let ghost s = entries_view(self.entries@);
        let mut j: usize = self.entries.len();
        proof {
            assert(s.take(s.len() as int) =~= s);
        }
        while j > 0
            invariant
                j <= self.entries@.len(),
                s == entries_view(self.entries@),
                map_of(s.take(j as int)).contains_key(name@) == self@.contains_key(name@),
                map_of(s.take(j as int)).contains_key(name@) ==> map_of(s.take(j as int))[name@]
                    == self@[name@],
            decreases j,
        {
            j = j - 1;
            proof {
                assert(s.take(j + 1).drop_last() =~= s.take(j as int));
                assert(s.take(j + 1).last() == s[j as int]);
                assert(s[j as int] == (self.entries@[j as int].0@, self.entries@[j as int].1));
            }
            if self.entries[j].0 == *name {
                return Some(self.entries[j].1);
            }
        }
        proof {
            assert(s.take(0) =~= Seq::<(Seq<char>, u32)>::empty());
        }
        None
    }

    /// Take over every entry of `other`, overriding entries already present.
    pub fn extend(&mut self, other: &Weights)
        ensures
            final(self)@ =~= old(self)@.union_prefer_right(other@),
    {
        let ghost t = entries_view(other.entries@);
        let mut j: usize = 0;
        while j < other.entries.len()
            invariant
                j <= other.entries@.len(),
                t == entries_view(other.entries@),
                self@ =~= old(self)@.union_prefer_right(map_of(t.take(j as int))),
            decreases other.entries@.len() - j,
        {
            let e = (other.entries[j].0.clone(), other.entries[j].1);
            let ghost ev = (e.0@, e.1);
            let ghost before_entries = self.entries@;
            let ghost before = self@;
            self.entries.push(e);
            proof {
                let s = entries_view(self.entries@);
                assert(s =~= entries_view(before_entries).push(ev));
                assert(s.drop_last() =~= entries_view(before_entries));
                assert(self@ =~= before.insert(ev.0, ev.1 as int));
                assert(t.take(j + 1).drop_last() =~= t.take(j as int));
                assert(t.take(j + 1).last() == t[j as int]);
                assert(t[j as int] == (other.entries@[j as int].0@, other.entries@[j as int].1));
                assert(ev == t[j as int]);
                assert(old(self)@.union_prefer_right(map_of(t.take(j as int))).insert(
                    ev.0,
                    ev.1 as int,
                ) =~= old(self)@.union_prefer_right(map_of(t.take(j + 1))));
            }
            j = j + 1;
        }
        proof {
            assert(t.take(t.len() as int) =~= t);
        }
    }
}

/// The names of the registered programs, in registration order.
pub open spec fn names_of(s: Seq<Program>) -> Seq<Seq<char>> {
    s.map_values(|p: Program| p.name@)
}

/// A program may stand on another, or have no parent recorded: a node's
/// links always point at registered programs.
pub open spec fn node_closed(g: GraphV, node: NodeV) -> bool {
    &&& (node.parent is Some ==> g.contains_key(node.parent->0))
    &&& forall|j: int| 0 <= j < node.children.len() ==> g.contains_key(#[trigger] node.children[j])
}

/// Every link of every node stays inside the registry.
pub open spec fn graph_closed(g: GraphV) -> bool {
    forall|n: Seq<char>| #[trigger] g.contains_key(n) ==> node_closed(g, g[n])
}

/// The tower: the registry of all known programs, and the name currently
/// believed to be the bottom of the tower.
pub struct Tower {
    pub root: Option<String>,
    pub programs: Vec<Program>,
}

impl Tower {
    /// Some program with this name is registered.
    pub open spec fn has_name(self, n: Seq<char>) -> bool {
        exists|i: int|
            0 <= i < self.programs@.len() && (#[trigger] self.programs@[i]).name@ == n
    }

    /// The position of the program with this name (meaningful only when
    /// names are unique and the name is registered).
    pub open spec fn index_of(self, n: Seq<char>) -> int {
        choose|i: int| 0 <= i < self.programs@.len() && (#[trigger] self.programs@[i]).name@ == n
    }

    /// The registry seen as a map from name to record.
    pub open spec fn graph(self) -> GraphV {
        Map::new(
            |n: Seq<char>| self.has_name(n),
            |n: Seq<char>| self.programs@[self.index_of(n)]@,
        )
    }

    /// No two registered programs share a name.
    pub open spec fn names_unique(self) -> bool {
        forall|i: int, j: int|
            0 <= i < j < self.programs@.len() ==> (#[trigger] self.programs@[i]).name@ != (
            #[trigger] self.programs@[j]).name@
    }

    /// The tracked root, as a character sequence.
    pub open spec fn root_v(self) -> Option<Seq<char>> {
        match self.root {
            Some(r) => Some(r@),
            None => None,
        }
    }

    /// The registry is sound: names unique, all links registered.
    pub open spec fn wf(self) -> bool {
        self.names_unique() && graph_closed(self.graph())
    }

    /// A fresh, empty tower.
    pub fn new() -> (t: Tower)
        ensures
            t.wf(),
            t.graph() =~~= Map::<Seq<char>, NodeV>::empty(),
            t.root_v() is None,
            t.programs@.len() == 0,
    {
        let t = Tower { root: None, programs: Vec::new() };
        proof {
            assert forall|n: Seq<char>| !t.has_name(n) by {}
            assert(t.graph() =~~= Map::<Seq<char>, NodeV>::empty());
        }
        t
    }

    /// The currently tracked root, if any fact has been ingested yet.
    /// Only after ingestion is complete is it guaranteed to be the true
    /// bottom of the tower.
    pub fn root_name(&self) -> (r: Option<&str>)
        ensures
            match r {
                Some(s) => self.root_v() == Some(s@),
                None => self.root_v() is None,
            },
    {
        match &self.root {
            Some(root) => Some(root.as_str()),
            None => None,
        }
    }
}

/// With unique names, the registry entry at position `i` is exactly what the
/// graph records under that program's name.
pub proof fn lemma_graph_index(t: Tower, i: int)
    requires
        t.names_unique(),
        0 <= i < t.programs@.len(),
    ensures
        t.graph().contains_key(t.programs@[i].name@),
        t.graph()[t.programs@[i].name@] == t.programs@[i]@,
{
    let n = t.programs@[i].name@;
    assert(t.has_name(n));
    let j = t.index_of(n);
    assert(0 <= j < t.programs@.len() && t.programs@[j].name@ == n);
    if i != j {
        assert(t.programs@[i].name@ != t.programs@[j].name@);
    }
}

impl Tower {
    /// Where the program with this name sits in the registry.
    fn find_index(&self, name: &String) -> (r: Option<usize>)
        ensures
            match r {
                Some(i) => i < self.programs@.len() && self.programs@[i as int].name@ == name@,
                None => !self.has_name(name@),
            },
    {
        let mut i: usize = 0;
        while i < self.programs.len()
            invariant
                i <= self.programs@.len(),
                forall|k: int| 0 <= k < i ==> (#[trigger] self.programs@[k]).name@ != name@,
            decreases self.programs@.len() - i,
        {
            if self.programs[i].name == *name {
                return Some(i);
            }
            i = i + 1;
        }
        None
    }

    /// A view of the registered program with this name.
    pub fn get_program(&self, name: &String) -> (r: Option<&Program>)
        requires
            self.names_unique(),
        ensures
            match r {
                Some(p) => self.graph().contains_key(name@) && self.graph()[name@] == p@,
                None => !self.graph().contains_key(name@),
            },
    {
        match self.find_index(name) {
            Some(i) => {
                proof {
                    lemma_graph_index(*self, i as int);
                }
                Some(&self.programs[i])
            },
            None => None,
        }
    }
}

/// An exact copy of a list of names.
fn clone_names(v: &Vec<String>) -> (r: Vec<String>)
    ensures
        r@ == v@,
{
    let mut r: Vec<String> = Vec::new();
    let mut i: usize = 0;
    while i < v.len()
        invariant
            i <= v@.len(),
            r@ =~= v@.take(i as int),
        decreases v@.len() - i,
    {
        r.push(v[i].clone());
        proof {
            assert(r@ =~= v@.take(i + 1));
        }
        i = i + 1;
    }
    proof {
        assert(v@.take(v@.len() as int) =~= v@);
    }
    r
}

/// An exact copy of an optional name.
fn clone_opt_name(v: &Option<String>) -> (r: Option<String>)
    ensures
        r == *v,
{
    match v {
        Some(s) => Some(s.clone()),
        None => None,
    }
}

/// A list of names as character sequences.
pub open spec fn name_seq(v: Seq<String>) -> Seq<Seq<char>> {
    v.map_values(|s: String| s@)
}

/// Ingesting a fact first records the subject: a known program keeps its
/// parent and aggregate but takes the fact's weight and children (the last
/// fact about a program wins); an unknown one is created from the fact.
pub open spec fn upsert_subject(g: GraphV, n: Seq<char>, w: u32, cs: Seq<Seq<char>>) -> GraphV {
    if g.contains_key(n) {
        g.insert(n, NodeV { weight: Some(w), parent: g[n].parent, children: cs, total: g[n].total })
    } else {
        g.insert(n, NodeV { weight: Some(w), parent: None, children: cs, total: 0 })
    }
}

/// Naming a program as a child records `p` as its parent, creating the
/// child if it was never seen before.
pub open spec fn attach_child(g: GraphV, p: Seq<char>, c: Seq<char>) -> GraphV {
    if g.contains_key(c) {
        g.insert(c, NodeV { weight: g[c].weight, parent: Some(p), children: g[c].children, total: g[c].total })
    } else {
        g.insert(c, NodeV { weight: None, parent: Some(p), children: Seq::empty(), total: 0 })
    }
}

/// The children of a fact are attached in the order the fact lists them.
pub open spec fn attach_children(g: GraphV, p: Seq<char>, cs: Seq<Seq<char>>) -> GraphV
    decreases cs.len(),
{
    if cs.len() == 0 {
        g
    } else {
        attach_children(attach_child(g, p, cs[0]), p, cs.drop_first())
    }
}

/// The full effect of ingesting one fact on the registry.
pub open spec fn spec_add(g: GraphV, n: Seq<char>, w: u32, cs: Seq<Seq<char>>) -> GraphV {
    attach_children(upsert_subject(g, n, w, cs), n, cs)
}

/// Attaching children only touches the children themselves.
pub proof fn lemma_attach_children_untouched(g: GraphV, p: Seq<char>, cs: Seq<Seq<char>>, k: Seq<char>)
    requires
        !cs.contains(k),
    ensures
        attach_children(g, p, cs).contains_key(k) == g.contains_key(k),
        g.contains_key(k) ==> attach_children(g, p, cs)[k] == g[k],
    decreases cs.len(),
{
    if cs.len() > 0 {
        assert(cs[0] != k);
        assert forall|x: Seq<char>| cs.drop_first().contains(x) implies cs.contains(x) by {
            let i = choose|i: int| 0 <= i < cs.drop_first().len() && cs.drop_first()[i] == x;
            assert(cs[i + 1] == x);
        }
        lemma_attach_children_untouched(attach_child(g, p, cs[0]), p, cs.drop_first(), k);
    }
}

/// What attaching records for a child: its parent becomes `p`; its weight,
/// children and aggregate stay what the registry had, or start empty.
pub proof fn lemma_attach_children_hit(g: GraphV, p: Seq<char>, cs: Seq<Seq<char>>, k: Seq<char>)
    requires
        cs.contains(k),
    ensures
        attach_children(g, p, cs).contains_key(k),
        attach_children(g, p, cs)[k] == (NodeV {
            weight: if g.contains_key(k) { g[k].weight } else { None },
            parent: Some(p),
            children: if g.contains_key(k) { g[k].children } else { Seq::empty() },
            total: if g.contains_key(k) { g[k].total } else { 0 },
        }),
    decreases cs.len(),
{
    let g1 = attach_child(g, p, cs[0]);
    if cs.drop_first().contains(k) {
        lemma_attach_children_hit(g1, p, cs.drop_first(), k);
        if cs[0] == k {
            assert(g1.contains_key(k));
        }
    } else {
        let i = choose|i: int| 0 <= i < cs.len() && cs[i] == k;
        if i > 0 {
            assert(cs.drop_first()[i - 1] == k);
            assert(false);
        }
        assert(cs[0] == k);
        lemma_attach_children_untouched(g1, p, cs.drop_first(), k);
    }
}

/// Ingesting a fact keeps every link inside the registry.
pub proof fn lemma_spec_add_closed(g: GraphV, n: Seq<char>, w: u32, cs: Seq<Seq<char>>)
    requires
        graph_closed(g),
    ensures
        graph_closed(spec_add(g, n, w, cs)),
{
    let g1 = upsert_subject(g, n, w, cs);
    let g2 = spec_add(g, n, w, cs);
    assert forall|k: Seq<char>| #[trigger] g2.contains_key(k) implies node_closed(g2, g2[k]) by {
        if cs.contains(k) {
            lemma_attach_children_hit(g1, n, cs, k);
            assert(g2[k].parent == Some(n));
            child_in_dom(g1, n, cs, n);
            if g1.contains_key(k) {
                assert forall|j: int| 0 <= j < g2[k].children.len() implies g2.contains_key(
                    #[trigger] g2[k].children[j],
                ) by {
                    assert(g2[k].children == g1[k].children);
                    if k == n {
                        child_in_dom(g1, n, cs, g2[k].children[j]);
                    } else {
                        assert(g.contains_key(k) && g[k] == g1[k]);
                        assert(node_closed(g, g[k]));
                        child_in_dom(g1, n, cs, g2[k].children[j]);
                    }
                }
            }
        } else {
            lemma_attach_children_untouched(g1, n, cs, k);
            assert(g1.contains_key(k) && g2[k] == g1[k]);
            if k == n {
                assert forall|j: int| 0 <= j < g2[k].children.len() implies g2.contains_key(
                    #[trigger] g2[k].children[j],
                ) by {
                    assert(g2[k].children == cs);
                    lemma_attach_children_hit(g1, n, cs, cs[j]);
                }
                if g1[k].parent is Some {
                    assert(g.contains_key(k));
                    assert(node_closed(g, g[k]));
                    child_in_dom(g1, n, cs, g1[k].parent->0);
                }
            } else {
                assert(g.contains_key(k) && g[k] == g1[k]);
                assert(node_closed(g, g[k]));
                assert forall|j: int| 0 <= j < g2[k].children.len() implies g2.contains_key(
                    #[trigger] g2[k].children[j],
                ) by {
                    child_in_dom(g1, n, cs, g2[k].children[j]);
                }
                if g2[k].parent is Some {
                    child_in_dom(g1, n, cs, g2[k].parent->0);
                }
            }
        }
    }
}

/// Membership in the registry only grows while children are attached.
proof fn child_in_dom(g1: GraphV, p: Seq<char>, cs: Seq<Seq<char>>, k: Seq<char>)
    requires
        g1.contains_key(k) || cs.contains(k),
    ensures
        attach_children(g1, p, cs).contains_key(k),
{
    if cs.contains(k) {
        lemma_attach_children_hit(g1, p, cs, k);
    } else {
        lemma_attach_children_untouched(g1, p, cs, k);
    }
}

/// The graph and the registry predicates read only the program list: the
/// tracked root does not enter them.
pub proof fn lemma_graph_depends_on_programs(t1: Tower, t2: Tower)
    requires
        t1.programs@ == t2.programs@,
        t1.names_unique(),
    ensures
        t2.names_unique(),
        t1.graph() =~~= t2.graph(),
        t1.wf() == t2.wf(),
        forall|n: Seq<char>| t1.has_name(n) == t2.has_name(n),
{
    assert forall|n: Seq<char>| t1.has_name(n) == t2.has_name(n) by {
        if t1.has_name(n) {
            let i = choose|i: int| 0 <= i < t1.programs@.len() && t1.programs@[i].name@ == n;
            assert(t2.programs@[i].name@ == n);
        }
        if t2.has_name(n) {
            let i = choose|i: int| 0 <= i < t2.programs@.len() && t2.programs@[i].name@ == n;
            assert(t1.programs@[i].name@ == n);
        }
    }
    assert forall|a: int, b: int| 0 <= a < b < t2.programs@.len() implies (
    #[trigger] t2.programs@[a]).name@ != (#[trigger] t2.programs@[b]).name@ by {
        assert(t2.programs@[a] == t1.programs@[a]);
        assert(t2.programs@[b] == t1.programs@[b]);
    }
    assert forall|k: Seq<char>| #[trigger] t2.graph().contains_key(k) implies t2.graph()[k]
        == t1.graph()[k] by {
        let i = choose|i: int| 0 <= i < t2.programs@.len() && t2.programs@[i].name@ == k;
        lemma_graph_index(t1, i);
        lemma_graph_index(t2, i);
    }
    assert(t1.graph() =~~= t2.graph());
}

/// Replacing the registry entry at `i` by a program of the same name is an
/// insert on the graph.
pub proof fn lemma_update_graph(t1: Tower, t2: Tower, i: int, p: Program)
    requires
        t1.names_unique(),
        0 <= i < t1.programs@.len(),
        t2.programs@ == t1.programs@.update(i, p),
        p.name@ == t1.programs@[i].name@,
    ensures
        t2.names_unique(),
        t2.graph() =~~= t1.graph().insert(p.name@, p@),
{
    assert forall|a: int, b: int| 0 <= a < b < t2.programs@.len() implies (
    #[trigger] t2.programs@[a]).name@ != (#[trigger] t2.programs@[b]).name@ by {
        assert(t2.programs@[a].name@ == t1.programs@[a].name@);
        assert(t2.programs@[b].name@ == t1.programs@[b].name@);
    }
    assert forall|k: Seq<char>| true implies t2.has_name(k) == t1.has_name(k) by {
        if t1.has_name(k) {
            let j = choose|j: int| 0 <= j < t1.programs@.len() && t1.programs@[j].name@ == k;
            assert(t2.programs@[j].name@ == k);
        }
        if t2.has_name(k) {
            let j = choose|j: int| 0 <= j < t2.programs@.len() && t2.programs@[j].name@ == k;
            assert(t1.programs@[j].name@ == k);
        }
    }
    assert forall|k: Seq<char>| #[trigger] t2.graph().contains_key(k) implies t2.graph()[k]
        == t1.graph().insert(p.name@, p@)[k] by {
        if k == p.name@ {
            lemma_graph_index(t2, i);
        } else {
            let j = choose|j: int| 0 <= j < t1.programs@.len() && t1.programs@[j].name@ == k;
            assert(t2.programs@[j].name@ == k);
            assert(j != i);
            lemma_graph_index(t1, j);
            lemma_graph_index(t2, j);
        }
    }
}

/// Pushing a program under a fresh name is an insert on the graph.
pub proof fn lemma_push_graph(t1: Tower, t2: Tower, p: Program)
    requires
        t1.names_unique(),
        !t1.has_name(p.name@),
        t2.programs@ == t1.programs@.push(p),
    ensures
        t2.names_unique(),
        t2.graph() =~~= t1.graph().insert(p.name@, p@),
{
    let n = t1.programs@.len() as int;
    assert forall|a: int, b: int| 0 <= a < b < t2.programs@.len() implies (
    #[trigger] t2.programs@[a]).name@ != (#[trigger] t2.programs@[b]).name@ by {
        if b < n {
            assert(t2.programs@[a] == t1.programs@[a]);
            assert(t2.programs@[b] == t1.programs@[b]);
        } else {
            assert(t2.programs@[b] == p);
            assert(t2.programs@[a] == t1.programs@[a]);
            assert(t1.has_name(t1.programs@[a].name@));
        }
    }
    assert forall|k: Seq<char>| #[trigger] t2.graph().contains_key(k) || t1.graph().insert(
        p.name@,
        p@,
    ).contains_key(k) implies t2.graph().contains_key(k) && t1.graph().insert(p.name@, p@).contains_key(
        k,
    ) && t2.graph()[k] == t1.graph().insert(p.name@, p@)[k] by {
        if k == p.name@ {
            assert(t2.programs@[n] == p);
            lemma_graph_index(t2, n);
        } else {
            if t1.has_name(k) {
                let j = choose|j: int| 0 <= j < t1.programs@.len() && t1.programs@[j].name@ == k;
                assert(t2.programs@[j] == t1.programs@[j]);
                lemma_graph_index(t1, j);
                lemma_graph_index(t2, j);
            } else {
                if t2.has_name(k) {
                    let j = choose|j: int|
                        0 <= j < t2.programs@.len() && t2.programs@[j].name@ == k;
                    assert(j != n);
                    assert(t1.programs@[j].name@ == k);
                    assert(false);
                }
            }
        }
    }
    assert(t2.graph() =~~= t1.graph().insert(p.name@, p@));
}

impl Tower {
    /// Record the subject of a fact: set (or overwrite) its weight and its
    /// children, keeping its parent and aggregate.
    fn set_subject(&mut self, name: &String, weight: u32, children: &Vec<String>)
        requires
            old(self).names_unique(),
        ensures
            final(self).names_unique(),
            final(self).graph() =~~= upsert_subject(
                old(self).graph(),
                name@,
                weight,
                name_seq(children@),
            ),
            final(self).root == old(self).root,
            final(self).has_name(name@),
    {
        let kids = clone_names(children);
        proof {
            assert(name_seq(kids@) =~= name_seq(children@));
        }
        match self.find_index(name) {
            Some(i) => {
                proof {
                    lemma_graph_index(*old(self), i as int);
                }
                let parent = clone_opt_name(&self.programs[i].parent);
                let total = self.programs[i].total_weight;
                let p = Program {
                    name: name.clone(),
                    weight: Some(weight),
                    parent,
                    children: kids,
                    total_weight: total,
                };
                let ghost t1 = *self;
                self.programs[i] = p;
                proof {
                    lemma_update_graph(t1, *self, i as int, self.programs@[i as int]);
                    assert(self.programs@[i as int].name@ == name@);
                    assert(self.has_name(name@)) by {
                        assert(self.programs@[i as int].name@ == name@);
                    }
                    assert(self.graph() =~~= upsert_subject(
                        t1.graph(),
                        name@,
                        weight,
                        name_seq(children@),
                    ));
                }
            },
            None => {
                let p = Program {
                    name: name.clone(),
                    weight: Some(weight),
                    parent: None,
                    children: kids,
                    total_weight: 0,
                };
                let ghost t1 = *self;
                self.programs.push(p);
                proof {
                    let n = t1.programs@.len() as int;
                    lemma_push_graph(t1, *self, self.programs@[n]);
                    assert(self.programs@[n].name@ == name@);
                    assert(self.graph() =~~= upsert_subject(
                        t1.graph(),
                        name@,
                        weight,
                        name_seq(children@),
                    ));
                }
            },
        }
    }

    /// Record that `child` stands on `parent`, creating the child if it is
    /// new to the registry.
    fn attach_one(&mut self, parent: &String, child: &String)
        requires
            old(self).names_unique(),
        ensures
            final(self).names_unique(),
            final(self).graph() =~~= attach_child(old(self).graph(), parent@, child@),
            final(self).root == old(self).root,
    {
        match self.find_index(child) {
            Some(i) => {
                proof {
                    lemma_graph_index(*old(self), i as int);
                }
                let name = self.programs[i].name.clone();
                let weight = self.programs[i].weight;
                let kids = clone_names(&self.programs[i].children);
                let total = self.programs[i].total_weight;
                let p = Program {
                    name,
                    weight,
                    parent: Some(parent.clone()),
                    children: kids,
                    total_weight: total,
                };
                let ghost t1 = *self;
                self.programs[i] = p;
                proof {
                    lemma_update_graph(t1, *self, i as int, self.programs@[i as int]);
                    assert(self.programs@[i as int]@ =~~= (NodeV {
                        weight: t1.graph()[child@].weight,
                        parent: Some(parent@),
                        children: t1.graph()[child@].children,
                        total: t1.graph()[child@].total,
                    }));
                    assert(self.graph() =~~= attach_child(t1.graph(), parent@, child@));
                }
            },
            None => {
                let p = Program::new(child.as_str(), None, Some(parent.clone()));
                let ghost t1 = *self;
                self.programs.push(p);
                proof {
                    let n = t1.programs@.len() as int;
                    lemma_push_graph(t1, *self, self.programs@[n]);
                    assert(self.graph() =~~= attach_child(t1.graph(), parent@, child@));
                }
            },
        }
    }
}

/// The name reached by walking parent links from `n`, if a parentless
/// program is reached within `fuel` steps.
pub open spec fn chain_root(g: GraphV, n: Seq<char>, fuel: nat) -> Option<Seq<char>>
    decreases fuel,
{
    if fuel == 0 {
        None
    } else if !g.contains_key(n) {
        None
    } else {
        match g[n].parent {
            None => Some(n),
            Some(p) => chain_root(g, p, (fuel - 1) as nat),
        }
    }
}

/// A walk that resolves keeps resolving, to the same root, with more fuel.
pub proof fn lemma_chain_mono(g: GraphV, n: Seq<char>, f1: nat, f2: nat)
    requires
        chain_root(g, n, f1) is Some,
        f1 <= f2,
    ensures
        chain_root(g, n, f2) == chain_root(g, n, f1),
    decreases f1,
{
    if g[n].parent is Some {
        lemma_chain_mono(g, g[n].parent->0, (f1 - 1) as nat, (f2 - 1) as nat);
    }
}

/// A resolved root is a registered, parentless program.
pub proof fn lemma_chain_root_props(g: GraphV, n: Seq<char>, fuel: nat)
    requires
        chain_root(g, n, fuel) is Some,
    ensures
        g.contains_key(chain_root(g, n, fuel)->0),
        g[chain_root(g, n, fuel)->0].parent is None,
    decreases fuel,
{
    if g[n].parent is Some {
        lemma_chain_root_props(g, g[n].parent->0, (fuel - 1) as nat);
    }
}

/// From inside a set of programs whose parents all stay inside the set, no
/// walk ever reaches a parentless program.
pub proof fn lemma_cycle_no_root(g: GraphV, cyc: Seq<Seq<char>>, k: int, fuel: nat)
    requires
        0 <= k < cyc.len(),
        forall|i: int| 0 <= i < cyc.len() ==> g.contains_key(#[trigger] cyc[i]),
        forall|i: int| 0 <= i < cyc.len() ==> (#[trigger] g[cyc[i]].parent) is Some,
        forall|i: int| 0 <= i < cyc.len() ==> cyc.contains(#[trigger] g[cyc[i]].parent->0),
    ensures
        chain_root(g, cyc[k], fuel) is None,
    decreases fuel,
{
    if fuel > 0 {
        let p = g[cyc[k]].parent->0;
        assert(cyc.contains(p));
        let j = choose|j: int| 0 <= j < cyc.len() && cyc[j] == p;
        lemma_cycle_no_root(g, cyc, j, (fuel - 1) as nat);
    }
}

/// Distinct registered names are no more numerous than the registry.
pub proof fn lemma_distinct_names_bound(t: Tower, v: Seq<Seq<char>>)
    requires
        t.names_unique(),
        v.no_duplicates(),
        forall|k: int| 0 <= k < v.len() ==> t.has_name(#[trigger] v[k]),
    ensures
        v.len() <= t.programs@.len(),
{
    broadcast use vstd::seq_lib::group_seq_properties;

    let names = names_of(t.programs@);
    assert(names.no_duplicates()) by {
        assert forall|a: int, b: int|
            0 <= a < names.len() && 0 <= b < names.len() && a != b implies names[a] != names[b] by {
            assert(names[a] == t.programs@[a].name@);
            assert(names[b] == t.programs@[b].name@);
        }
    }
    names.unique_seq_to_set();
    v.unique_seq_to_set();
    assert(v.to_set().subset_of(names.to_set())) by {
        assert forall|x: Seq<char>| v.to_set().contains(x) implies names.to_set().contains(x) by {
            assert(v.contains(x));
            let k = choose|k: int| 0 <= k < v.len() && v[k] == x;
            assert(t.has_name(x));
            let i = choose|i: int| 0 <= i < t.programs@.len() && t.programs@[i].name@ == x;
            assert(names[i] == x);
            assert(names.contains(x));
        }
    }
    vstd::set_lib::lemma_len_subset(v.to_set(), names.to_set());
}

/// Whether `x` occurs in the list of names.
fn contains_name(v: &Vec<String>, x: &String) -> (r: bool)
    ensures
        r == name_seq(v@).contains(x@),
{
    let mut i: usize = 0;
    while i < v.len()
        invariant
            i <= v@.len(),
            forall|k: int| 0 <= k < i ==> name_seq(v@)[k] != x@,
        decreases v@.len() - i,
    {
        proof {
            assert(name_seq(v@)[i as int] == v@[i as int]@);
        }
        if v[i] == *x {
            proof {
                assert(name_seq(v@)[i as int] == x@);
            }
            return true;
        }
        i = i + 1;
    }
    proof {
        if name_seq(v@).contains(x@) {
            let k = choose|k: int| 0 <= k < name_seq(v@).len() && name_seq(v@)[k] == x@;
        }
    }
    false
}

impl Tower {
    /// Walk parent links from `name` until a parentless program is found;
    /// report a cycle if a program is revisited on the way.
    pub fn find_root_from(&self, name: &str) -> (r: Result<String, TowerError>)
        requires
            self.wf(),
            self.has_name(name@),
        ensures
            match r {
                Ok(root) => chain_root(
                    self.graph(),
                    name@,
                    (self.programs@.len() + 1) as nat,
                ) == Some(root@),
                Err(e) => e == TowerError::CycleDetected && chain_root(
                    self.graph(),
                    name@,
                    (self.programs@.len() + 1) as nat,
                ) is None,
            },
    {
        let ghost g = self.graph();
        let ghost fuel = (self.programs@.len() + 1) as nat;
        let mut current: String = name.to_owned();
        let mut visited: Vec<String> = Vec::new();
        loop
            invariant
                self.wf(),
                g == self.graph(),
                fuel == self.programs@.len() + 1,
                self.has_name(current@),
                name_seq(visited@).no_duplicates(),
                forall|k: int|
                    0 <= k < visited@.len() ==> self.has_name(#[trigger] name_seq(visited@)[k]),
                visited@.len() <= self.programs@.len(),
                forall|k: int|
                    0 <= k < visited@.len() - 1 ==> g[#[trigger] name_seq(visited@)[k]].parent
                        == Some(name_seq(visited@)[k + 1]),
                visited@.len() > 0 ==> g[name_seq(visited@).last()].parent == Some(current@),
                visited@.len() == 0 ==> current@ == name@,
                visited@.len() > 0 ==> name_seq(visited@)[0] == name@,
                chain_root(g, name@, fuel) == chain_root(
                    g,
                    current@,
                    (fuel - visited@.len()) as nat,
                ),
            decreases self.programs@.len() - visited@.len(),
        {
            if contains_name(&visited, &current) {
                proof {
                    let vs = name_seq(visited@);
                    let j = choose|j: int| 0 <= j < vs.len() && vs[j] == current@;
                    let cyc = vs.subrange(j, vs.len() as int);
                    assert forall|i: int| 0 <= i < cyc.len() implies g.contains_key(
                        #[trigger] cyc[i],
                    ) && g[cyc[i]].parent is Some && cyc.contains(g[cyc[i]].parent->0) by {
                        assert(cyc[i] == vs[j + i]);
                        assert(self.has_name(vs[j + i]));
                        if j + i < vs.len() - 1 {
                            assert(g[vs[j + i]].parent == Some(vs[j + i + 1]));
                            if i < cyc.len() - 1 {
                                assert(cyc[i + 1] == vs[j + i + 1]);
                            }
                        } else {
                            assert(g[vs.last()].parent == Some(current@));
                            assert(cyc[0] == current@);
                        }
                    }
                    lemma_cycle_no_root(g, cyc, 0, (fuel - visited@.len()) as nat);
                    assert(cyc[0] == current@);
                }
                return Err(TowerError::CycleDetected);
            }
            let i = match self.find_index(&current) {
                Some(i) => i,
                None => {
                    proof {
                        assert(false);
                    }
                    return Err(TowerError::CycleDetected);
                },
            };
            proof {
                lemma_graph_index(*self, i as int);
            }
            match &self.programs[i].parent {
                None => {
                    proof {
                        assert(g[current@].parent is None);
                        assert((fuel - visited@.len()) as nat >= 1);
                        assert(chain_root(g, current@, (fuel - visited@.len()) as nat) == Some(
                            current@,
                        ));
                    }
                    return Ok(current.clone());
                },
                Some(p) => {
                    let pc = p.clone();
                    let ghost old_visited = visited@;
                    let ghost old_current = current@;
                    proof {
                        assert(!name_seq(old_visited).contains(old_current));
                        assert(name_seq(old_visited.push(current)) =~= name_seq(
                            old_visited,
                        ).push(old_current));
                        assert(name_seq(old_visited).push(old_current).no_duplicates());
                        lemma_distinct_names_bound(
                            *self,
                            name_seq(old_visited).push(old_current),
                        );
                        assert(g[old_current].parent == Some(pc@));
                        assert(graph_closed(g));
                        assert(g.contains_key(old_current));
                        assert(node_closed(g, g[old_current]));
                        assert(g.contains_key(pc@));
                    }
                    visited.push(current);
                    current = pc;
                    proof {
                        let vs = name_seq(visited@);
                        assert(vs =~= name_seq(old_visited).push(old_current));
                        assert(vs.last() == old_current);
                        assert(g[vs.last()].parent == Some(current@));
                        assert(self.has_name(current@));
                        assert(chain_root(g, old_current, (fuel - old_visited.len()) as nat)
                            == chain_root(g, current@, (fuel - vs.len()) as nat));
                    }
                },
            }
        }
    }

    /// Ingest one fact: `name` weighs `weight` and carries `children`, in
    /// that order.  The registry is updated in place; the tracked root is
    /// re-resolved only when the old root turns out to stand on someone.
    /// A cycle met while re-resolving is reported and leaves the tracked
    /// root as it was; the registry keeps the fact either way.
    pub fn add(&mut self, name: &str, weight: u32, children: &Vec<String>) -> (r: Result<
        (),
        TowerError,
    >)
        requires
            old(self).wf(),
        ensures
            final(self).wf(),
            final(self).graph() =~~= spec_add(
                old(self).graph(),
                name@,
                weight,
                name_seq(children@),
            ),
            match old(self).root_v() {
                None => final(self).root_v() == Some(name@) && r is Ok,
                Some(r0) => {
                    if !name_seq(children@).contains(r0) {
                        final(self).root_v() == Some(r0) && r is Ok
                    } else {
                        match chain_root(
                            final(self).graph(),
                            name@,
                            (final(self).programs@.len() + 1) as nat,
                        ) {
                            Some(rt) => final(self).root_v() == Some(rt) && r is Ok,
                            None => final(self).root_v() == Some(r0) && r == Err::<
                                (),
                                TowerError,
                            >(TowerError::CycleDetected),
                        }
                    }
                },
            },
    {
        let key: String = name.to_owned();
        let ghost nv = name@;
        let ghost g0 = self.graph();
        let ghost cs = name_seq(children@);
        self.set_subject(&key, weight, children);
        let ghost g1 = self.graph();
        proof {
            assert(g1 == upsert_subject(g0, nv, weight, cs));
            assert(cs.skip(0) =~= cs);
        }
        let mut j: usize = 0;
        while j < children.len()
            invariant
                self.names_unique(),
                self.root == old(self).root,
                cs == name_seq(children@),
                nv == key@,
                j <= children@.len(),
                self.has_name(nv),
                attach_children(self.graph(), nv, cs.skip(j as int)) == attach_children(
                    g1,
                    nv,
                    cs,
                ),
            decreases children@.len() - j,
        {
            let ghost g_pre = self.graph();
            proof {
                assert(cs.skip(j as int)[0] == cs[j as int]);
                assert(cs[j as int] == children@[j as int]@);
            }
            self.attach_one(&key, &children[j]);
            proof {
                assert(self.graph() == attach_child(g_pre, nv, children@[j as int]@));
                assert(cs.skip(j as int).drop_first() =~= cs.skip(j + 1));
                assert(attach_children(g_pre, nv, cs.skip(j as int)) == attach_children(
                    self.graph(),
                    nv,
                    cs.skip(j + 1),
                ));
                assert(g_pre.contains_key(nv));
                assert(self.graph().contains_key(nv));
                assert(self.has_name(nv)) by {
                    if !self.has_name(nv) {
                        assert(!self.graph().contains_key(nv));
                    }
                }
            }
            j = j + 1;
        }
        proof {
            assert(cs.skip(cs.len() as int) =~= Seq::<Seq<char>>::empty());
            assert(self.graph() == attach_children(g1, nv, cs));
            assert(self.graph() == spec_add(g0, nv, weight, cs));
            lemma_spec_add_closed(g0, nv, weight, cs);
        }
        if self.root.is_none() {
            let ghost t_before = *self;
            self.root = Some(key);
            proof {
                lemma_graph_depends_on_programs(t_before, *self);
            }
            return Ok(());
        }
        let r0 = match &self.root {
            Some(r) => r.clone(),
            None => {
                proof {
                    assert(false);
                }
                return Ok(());
            },
        };
        if contains_name(children, &r0) {
            match self.find_root_from(key.as_str()) {
                Ok(rt) => {
                    let ghost t_before = *self;
                    self.root = Some(rt);
                    proof {
                        lemma_graph_depends_on_programs(t_before, *self);
                    }
                    Ok(())
                },
                Err(e) => Err(e),
            }
        } else {
            Ok(())
        }
    }
}

/// The aggregate table computed below `n`: every program of the subtree
/// mapped to its own weight plus the aggregates of its children, in the
/// order a depth-first left-to-right walk meets them.  The walk gives up
/// with `MissingWeight` on a program never defined by a fact, and with
/// `CycleDetected` when `fuel` steps of depth did not suffice.
pub open spec fn cum_map(g: GraphV, n: Seq<char>, fuel: nat) -> Result<
    Map<Seq<char>, int>,
    TowerError,
>
    decreases fuel, 0int,
{
    if fuel == 0 {
        Err(TowerError::CycleDetected)
    } else if !g.contains_key(n) {
        Err(TowerError::MissingWeight)
    } else {
        match g[n].weight {
            None => Err(TowerError::MissingWeight),
            Some(w) => match cum_children(g, g[n].children, (fuel - 1) as nat) {
                Err(e) => Err(e),
                Ok(p) => Ok(p.0.insert(n, w + p.1)),
            },
        }
    }
}

/// The merged aggregate tables of a list of children, and the sum of the
/// children's aggregates.
pub open spec fn cum_children(g: GraphV, cs: Seq<Seq<char>>, fuel: nat) -> Result<
    (Map<Seq<char>, int>, int),
    TowerError,
>
    decreases fuel, cs.len() + 1,
{
    if cs.len() == 0 {
        Ok((Map::empty(), 0))
    } else {
        match cum_map(g, cs[0], fuel) {
            Err(e) => Err(e),
            Ok(m0) => match cum_children(g, cs.drop_first(), fuel) {
                Err(e) => Err(e),
                Ok(p) => Ok((m0.union_prefer_right(p.0), m0[cs[0]] + p.1)),
            },
        }
    }
}

/// Every partial sum the aggregation forms stays within `u32`: the machine
/// limit under which the aggregation is run.
pub open spec fn cum_fits(g: GraphV, n: Seq<char>, fuel: nat) -> bool
    decreases fuel, 0int,
{
    if fuel == 0 {
        true
    } else if !g.contains_key(n) {
        true
    } else {
        match g[n].weight {
            None => true,
            Some(w) => children_fit(g, g[n].children, w as int, (fuel - 1) as nat),
        }
    }
}

/// The running sums formed while children are added, starting from `acc`,
/// stay within `u32`.
pub open spec fn children_fit(g: GraphV, cs: Seq<Seq<char>>, acc: int, fuel: nat) -> bool
    decreases fuel, cs.len() + 1,
{
    if cs.len() == 0 {
        true
    } else {
        cum_fits(g, cs[0], fuel) && match cum_map(g, cs[0], fuel) {
            Err(_) => true,
            Ok(m0) => acc + m0[cs[0]] <= u32::MAX && children_fit(
                g,
                cs.drop_first(),
                acc + m0[cs[0]],
                fuel,
            ),
        }
    }
}

impl Tower {
    /// Compute the aggregate of `name` and of every program below it.
    fn visit_rec(&self, name: &String, fuel: usize) -> (r: Result<Weights, TowerError>)
        requires
            self.wf(),
            cum_fits(self.graph(), name@, fuel as nat),
        ensures
            match r {
                Ok(w) => cum_map(self.graph(), name@, fuel as nat) == Ok::<
                    Map<Seq<char>, int>,
                    TowerError,
                >(w@),
                Err(e) => cum_map(self.graph(), name@, fuel as nat) == Err::<
                    Map<Seq<char>, int>,
                    TowerError,
                >(e),
            },
        decreases fuel,
    {
        let ghost g = self.graph();
        if fuel == 0 {
            return Err(TowerError::CycleDetected);
        }
        let i = match self.find_index(name) {
            Some(i) => i,
            None => {
                return Err(TowerError::MissingWeight);
            },
        };
        proof {
            lemma_graph_index(*self, i as int);
        }
        let w = match self.programs[i].weight {
            Some(w) => w,
            None => {
                return Err(TowerError::MissingWeight);
            },
        };
        let mut rv = Weights::new();
        let mut sum: u32 = w;
        let ghost cs = g[name@].children;
        let ghost f1 = (fuel - 1) as nat;
        let nchildren = self.programs[i].children.len();
        proof {
            assert(cs == name_seq(self.programs@[i as int].children@));
            assert(cs.skip(0) =~= cs);
            match cum_children(g, cs, f1) {
                Err(_) => {},
                Ok(p) => {
                    assert(rv@.union_prefer_right(p.0) =~= p.0);
                },
            }
        }
        let mut j: usize = 0;
        while j < nchildren
            invariant
                self.wf(),
                g == self.graph(),
                0 <= i < self.programs@.len(),
                fuel >= 1,
                f1 == (fuel - 1) as nat,
                nchildren == self.programs@[i as int].children@.len(),
                cs == name_seq(self.programs@[i as int].children@),
                g.contains_key(name@),
                g[name@].children == cs,
                g[name@].weight == Some(w),
                j <= nchildren,
                sum >= w,
                children_fit(g, cs.skip(j as int), sum as int, f1),
                match cum_children(g, cs.skip(j as int), f1) {
                    Err(e) => cum_children(g, cs, f1) == Err::<
                        (Map<Seq<char>, int>, int),
                        TowerError,
                    >(e),
                    Ok(p) => cum_children(g, cs, f1) == Ok::<
                        (Map<Seq<char>, int>, int),
                        TowerError,
                    >((rv@.union_prefer_right(p.0), (sum - w) + p.1)),
                },
            decreases nchildren - j,
        {
            let child = &self.programs[i].children[j];
            proof {
                assert(cs.skip(j as int)[0] == cs[j as int]);
                assert(cs[j as int] == self.programs@[i as int].children@[j as int]@);
            }
            match self.visit_rec(child, fuel - 1) {
                Err(e) => {
                    proof {
                        assert(cum_children(g, cs.skip(j as int), f1) == Err::<
                            (Map<Seq<char>, int>, int),
                            TowerError,
                        >(e));
                    }
                    return Err(e);
                },
                Ok(cw) => {
                    proof {
                        assert(cum_map(g, child@, f1) == Ok::<Map<Seq<char>, int>, TowerError>(
                            cw@,
                        ));
                        assert(cw@.contains_key(child@));
                        assert(sum + cw@[child@] <= u32::MAX);
                    }
                    let v = match cw.get(child) {
                        Some(v) => v,
                        None => {
                            proof {
                                assert(false);
                            }
                            return Err(TowerError::MissingWeight);
                        },
                    };
                    let ghost rv_old = rv@;
                    let ghost sum_old = sum as int;
                    sum = sum + v;
                    rv.extend(&cw);
                    proof {
                        assert(cs.skip(j as int).drop_first() =~= cs.skip(j + 1));
                        assert(rv@ =~= rv_old.union_prefer_right(cw@));
                        match cum_children(g, cs.skip(j + 1), f1) {
                            Err(e) => {},
                            Ok(p) => {
                                assert(rv_old.union_prefer_right(
                                    cw@.union_prefer_right(p.0),
                                ) =~= rv@.union_prefer_right(p.0));
                            },
                        }
                    }
                },
            }
            j = j + 1;
        }
        proof {
            assert(cs.skip(nchildren as int) =~= Seq::<Seq<char>>::empty());
            assert(rv@.union_prefer_right(Map::<Seq<char>, int>::empty()) =~= rv@);
        }
        let ghost rv_before = rv@;
        rv.set(name.clone(), sum);
        proof {
            assert(rv@ =~= rv_before.insert(name@, sum as int));
            assert(cum_children(g, cs, f1) == Ok::<(Map<Seq<char>, int>, int), TowerError>(
                (rv_before, (sum - w) as int),
            ));
            assert(cum_map(g, name@, fuel as nat) == Ok::<Map<Seq<char>, int>, TowerError>(
                rv_before.insert(name@, w + (sum - w)),
            ));
            assert(rv_before.insert(name@, w + (sum - w)) =~= rv@);
        }
        Ok(rv)
    }

    /// The aggregate table of the subtree standing on `name`: each program
    /// below `name` (and `name` itself) mapped to the total weight it
    /// carries.
    pub fn visit_from(&self, name: &str) -> (r: Result<Weights, TowerError>)
        requires
            self.wf(),
            self.programs@.len() < usize::MAX,
            cum_fits(self.graph(), name@, (self.programs@.len() + 1) as nat),
        ensures
            match r {
                Ok(w) => cum_map(self.graph(), name@, (self.programs@.len() + 1) as nat) == Ok::<
                    Map<Seq<char>, int>,
                    TowerError,
                >(w@),
                Err(e) => cum_map(self.graph(), name@, (self.programs@.len() + 1) as nat) == Err::<
                    Map<Seq<char>, int>,
                    TowerError,
                >(e),
            },
    {
        let key: String = name.to_owned();
        let fuel = self.programs.len() + 1;
        self.visit_rec(&key, fuel)
    }
}

/// The registry with every program's stored aggregate overwritten by the
/// table `m`, where the table has an entry.
pub open spec fn with_totals(g: GraphV, m: Map<Seq<char>, int>) -> GraphV {
    Map::new(
        |k: Seq<char>| g.contains_key(k),
        |k: Seq<char>|
            NodeV {
                weight: g[k].weight,
                parent: g[k].parent,
                children: g[k].children,
                total: if m.contains_key(k) {
                    m[k] as u32
                } else {
                    g[k].total
                },
            },
    )
}

impl Tower {
    /// Write an aggregate table back into the registry.
    fn apply_totals(&mut self, w: &Weights)
        requires
            old(self).wf(),
        ensures
            final(self).wf(),
            final(self).graph() =~~= with_totals(old(self).graph(), w@),
            final(self).root == old(self).root,
            final(self).programs@.len() == old(self).programs@.len(),
    {
        let ghost g0 = self.graph();
        let ghost ev = entries_view(w.entries@);
        let mut j: usize = 0;
        proof {
            assert(ev.take(0) =~= Seq::<(Seq<char>, u32)>::empty());
            assert(self.graph() =~~= with_totals(g0, map_of(ev.take(0))));
        }
        while j < w.entries.len()
            invariant
                self.names_unique(),
                graph_closed(g0),
                j <= w.entries@.len(),
                ev == entries_view(w.entries@),
                self.root == old(self).root,
                self.programs@.len() == old(self).programs@.len(),
                g0 == old(self).graph(),
                self.graph() =~~= with_totals(g0, map_of(ev.take(j as int))),
            decreases w.entries@.len() - j,
        {
            let ghost m_pre = map_of(ev.take(j as int));
            let ghost m_post = map_of(ev.take(j + 1));
            proof {
                assert(ev.take(j + 1).drop_last() =~= ev.take(j as int));
                assert(ev.take(j + 1).last() == ev[j as int]);
                assert(ev[j as int] == (w.entries@[j as int].0@, w.entries@[j as int].1));
                assert(m_post == m_pre.insert(w.entries@[j as int].0@, w.entries@[j as int].1 as int));
            }
            let key = &w.entries[j].0;
            let v = w.entries[j].1;
            match self.find_index(key) {
                Some(i) => {
                    proof {
                        lemma_graph_index(*self, i as int);
                    }
                    let p = Program {
                        name: self.programs[i].name.clone(),
                        weight: self.programs[i].weight,
                        parent: clone_opt_name(&self.programs[i].parent),
                        children: clone_names(&self.programs[i].children),
                        total_weight: v,
                    };
                    let ghost t1 = *self;
                    self.programs[i] = p;
                    proof {
                        lemma_update_graph(t1, *self, i as int, self.programs@[i as int]);
                        assert(self.graph() =~~= with_totals(g0, m_post));
                    }
                },
                None => {
                    proof {
                        assert(!self.graph().contains_key(key@));
                        assert(!g0.contains_key(key@));
                        assert(with_totals(g0, m_pre) =~~= with_totals(g0, m_post));
                    }
                },
            }
            j = j + 1;
        }
        proof {
            assert(ev.take(ev.len() as int) =~= ev);
            assert(graph_closed(self.graph())) by {
                assert forall|k: Seq<char>| #[trigger] self.graph().contains_key(k) implies node_closed(
                    self.graph(),
                    self.graph()[k],
                ) by {
                    assert(g0.contains_key(k));
                    assert(node_closed(g0, g0[k]));
                    assert(self.graph()[k].parent == g0[k].parent);
                    assert(self.graph()[k].children == g0[k].children);
                    assert forall|jj: int|
                        0 <= jj < self.graph()[k].children.len() implies self.graph().contains_key(
                        #[trigger] self.graph()[k].children[jj],
                    ) by {
                        assert(g0.contains_key(g0[k].children[jj]));
                    }
                }
            }
        }
    }

    /// Resolve the true root from the tracked one, aggregate the whole
    /// tower, and store each program's total weight in the registry.  After
    /// a successful call the tower is finalized: the root is a parentless
    /// program and every stored aggregate obeys the subtree equation.
    pub fn finalize(&mut self) -> (r: Result<(), TowerError>)
        requires
            old(self).wf(),
            old(self).programs@.len() < usize::MAX,
            match old(self).root_v() {
                Some(r0) => old(self).has_name(r0) && finalize_fits(
                    old(self).graph(),
                    r0,
                    (old(self).programs@.len() + 1) as nat,
                ),
                None => true,
            },
        ensures
            final(self).wf(),
            finalize_post(
                old(self).graph(),
                old(self).root_v(),
                (old(self).programs@.len() + 1) as nat,
                final(self).graph(),
                final(self).root_v(),
                r,
            ),
    {
        let r0 = match &self.root {
            Some(r) => r.clone(),
            None => {
                return Ok(());
            },
        };
        let rt = match self.find_root_from(r0.as_str()) {
            Ok(rt) => rt,
            Err(e) => {
                return Err(e);
            },
        };
        let ghost t_b = *self;
        self.root = Some(rt.clone());
        proof {
            lemma_graph_depends_on_programs(t_b, *self);
        }
        let w = match self.visit_from(rt.as_str()) {
            Ok(w) => w,
            Err(e) => {
                return Err(e);
            },
        };
        self.apply_totals(&w);
        Ok(())
    }
}

/// The aggregation below the resolved root stays within the `u32` machine
/// limit (trivially so when the root does not resolve: nothing is summed).
pub open spec fn finalize_fits(g0: GraphV, r0: Seq<char>, fuel: nat) -> bool {
    match chain_root(g0, r0, fuel) {
        Some(rt) => cum_fits(g0, rt, fuel),
        None => true,
    }
}

/// What finalization does: nothing on an empty tower; otherwise the root is
/// re-resolved and, when the aggregation succeeds, its table is written into
/// the registry.  Any failure leaves the registry's aggregates untouched.
pub open spec fn finalize_post(
    g0: GraphV,
    root0: Option<Seq<char>>,
    fuel: nat,
    g1: GraphV,
    root1: Option<Seq<char>>,
    r: Result<(), TowerError>,
) -> bool {
    match root0 {
        None => r is Ok && g1 == g0 && root1 is None,
        Some(r0) => match chain_root(g0, r0, fuel) {
            None => r == Err::<(), TowerError>(TowerError::CycleDetected) && g1 == g0 && root1
                == Some(r0),
            Some(rt) => root1 == Some(rt) && (match cum_map(g0, rt, fuel) {
                Err(e) => r == Err::<(), TowerError>(e) && g1 == g0,
                Ok(m) => r is Ok && g1 == with_totals(g0, m),
            }),
        },
    }
}

/// The sum of the table's values over a list of names.
pub open spec fn map_sum(m: Map<Seq<char>, int>, cs: Seq<Seq<char>>) -> int
    decreases cs.len(),
{
    if cs.len() == 0 {
        0
    } else {
        m[cs[0]] + map_sum(m, cs.drop_first())
    }
}

/// More fuel never changes a successful aggregation.
pub proof fn lemma_cum_mono(g: GraphV, n: Seq<char>, f1: nat, f2: nat)
    requires
        cum_map(g, n, f1) is Ok,
        f1 <= f2,
    ensures
        cum_map(g, n, f2) == cum_map(g, n, f1),
    decreases f1, 0int,
{
    lemma_cum_children_mono(g, g[n].children, (f1 - 1) as nat, (f2 - 1) as nat);
}

proof fn lemma_cum_children_mono(g: GraphV, cs: Seq<Seq<char>>, f1: nat, f2: nat)
    requires
        cum_children(g, cs, f1) is Ok,
        f1 <= f2,
    ensures
        cum_children(g, cs, f2) == cum_children(g, cs, f1),
    decreases f1, cs.len() + 1,
{
    if cs.len() > 0 {
        lemma_cum_mono(g, cs[0], f1, f2);
        lemma_cum_children_mono(g, cs.drop_first(), f1, f2);
    }
}

/// Every name in a successful aggregate table has its own successful
/// aggregation, agreeing on that name's value, and its children in the
/// table as well.
pub proof fn lemma_cum_member(g: GraphV, n: Seq<char>, fuel: nat, k: Seq<char>)
    requires
        cum_map(g, n, fuel) is Ok,
        cum_map(g, n, fuel)->Ok_0.contains_key(k),
    ensures
        cum_map(g, k, fuel) is Ok,
        cum_map(g, k, fuel)->Ok_0[k] == cum_map(g, n, fuel)->Ok_0[k],
        forall|j: int|
            0 <= j < g[k].children.len() ==> cum_map(g, n, fuel)->Ok_0.contains_key(
                #[trigger] g[k].children[j],
            ),
    decreases fuel, 0int,
{
    let m = cum_map(g, n, fuel)->Ok_0;
    let f1 = (fuel - 1) as nat;
    let p = cum_children(g, g[n].children, f1)->Ok_0;
    if k == n {
        lemma_cum_children_members(g, g[n].children, f1, k);
        assert forall|j: int|
            0 <= j < g[k].children.len() implies m.contains_key(
            #[trigger] g[k].children[j],
        ) by {
            lemma_cum_children_roots(g, g[n].children, f1, j);
        }
    } else {
        assert(p.0.contains_key(k));
        lemma_cum_children_members(g, g[n].children, f1, k);
        lemma_cum_mono(g, k, f1, fuel);
        assert forall|j: int|
            0 <= j < g[k].children.len() implies m.contains_key(
            #[trigger] g[k].children[j],
        ) by {}
    }
}

/// Each child of a successfully aggregated list appears in the merged
/// table, and the merged table is consistent with each child's own
/// aggregation.
proof fn lemma_cum_children_members(g: GraphV, cs: Seq<Seq<char>>, fuel: nat, k: Seq<char>)
    requires
        cum_children(g, cs, fuel) is Ok,
    ensures
        cum_children(g, cs, fuel)->Ok_0.0.contains_key(k) ==> cum_map(g, k, fuel) is Ok
            && cum_map(g, k, fuel)->Ok_0[k] == cum_children(g, cs, fuel)->Ok_0.0[k] && (
        forall|j: int|
            0 <= j < g[k].children.len() ==> cum_children(g, cs, fuel)->Ok_0.0.contains_key(
                #[trigger] g[k].children[j],
            )),
    decreases fuel, cs.len() + 1,
{
    if cs.len() > 0 {
        let m0 = cum_map(g, cs[0], fuel)->Ok_0;
        let rest = cum_children(g, cs.drop_first(), fuel)->Ok_0;
        lemma_cum_children_members(g, cs.drop_first(), fuel, k);
        if m0.contains_key(k) && !rest.0.contains_key(k) {
            lemma_cum_member(g, cs[0], fuel, k);
            assert forall|j: int|
                0 <= j < g[k].children.len() implies cum_children(
                g,
                cs,
                fuel,
            )->Ok_0.0.contains_key(#[trigger] g[k].children[j]) by {
                assert(m0.contains_key(g[k].children[j]));
            }
        }
    }
}

/// Each listed child itself appears in the merged table.
proof fn lemma_cum_children_roots(g: GraphV, cs: Seq<Seq<char>>, fuel: nat, j: int)
    requires
        cum_children(g, cs, fuel) is Ok,
        0 <= j < cs.len(),
    ensures
        cum_children(g, cs, fuel)->Ok_0.0.contains_key(cs[j]),
    decreases cs.len(),
{
    let m0 = cum_map(g, cs[0], fuel)->Ok_0;
    let rest = cum_children(g, cs.drop_first(), fuel)->Ok_0;
    if j > 0 {
        lemma_cum_children_roots(g, cs.drop_first(), fuel, j - 1);
        assert(cs.drop_first()[j - 1] == cs[j]);
        assert(rest.0.contains_key(cs[j]));
        assert(m0.union_prefer_right(rest.0).contains_key(cs[j]));
    } else {
        assert(m0.contains_key(cs[0]));
        assert(m0.union_prefer_right(rest.0).contains_key(cs[0]));
    }
}

/// The children's contribution recorded while aggregating equals the sum
/// of the final table's values over the children.
proof fn lemma_cum_children_sum(g: GraphV, cs: Seq<Seq<char>>, fuel: nat, m: Map<Seq<char>, int>)
    requires
        cum_children(g, cs, fuel) is Ok,
        forall|j: int|
            0 <= j < cs.len() ==> cum_map(g, #[trigger] cs[j], fuel) is Ok && cum_map(
                g,
                cs[j],
                fuel,
            )->Ok_0[cs[j]] == m[cs[j]],
    ensures
        map_sum(m, cs) == cum_children(g, cs, fuel)->Ok_0.1,
    decreases cs.len(),
{
    if cs.len() > 0 {
        let m0 = cum_map(g, cs[0], fuel)->Ok_0;
        assert(m0[cs[0]] == m[cs[0]]);
        assert forall|j: int|
            0 <= j < cs.drop_first().len() implies cum_map(
            g,
            #[trigger] cs.drop_first()[j],
            fuel,
        ) is Ok && cum_map(g, cs.drop_first()[j], fuel)->Ok_0[cs.drop_first()[j]]
            == m[cs.drop_first()[j]] by {
            assert(cs.drop_first()[j] == cs[j + 1]);
        }
        lemma_cum_children_sum(g, cs.drop_first(), fuel, m);
    }
}

/// The subtree equation: in a successful aggregate table, every program's
/// entry is its own weight plus the sum of its children's entries.  A
/// childless program's entry is therefore exactly its own weight.
pub proof fn lemma_cum_equation(g: GraphV, n: Seq<char>, fuel: nat, k: Seq<char>)
    requires
        cum_map(g, n, fuel) is Ok,
        cum_map(g, n, fuel)->Ok_0.contains_key(k),
    ensures
        g.contains_key(k),
        g[k].weight is Some,
        forall|j: int|
            0 <= j < g[k].children.len() ==> cum_map(g, n, fuel)->Ok_0.contains_key(
                #[trigger] g[k].children[j],
            ),
        cum_map(g, n, fuel)->Ok_0[k] == g[k].weight->0 + map_sum(
            cum_map(g, n, fuel)->Ok_0,
            g[k].children,
        ),
        g[k].children.len() == 0 ==> cum_map(g, n, fuel)->Ok_0[k] == g[k].weight->0,
{
    let m = cum_map(g, n, fuel)->Ok_0;
    lemma_cum_member(g, n, fuel, k);
    let fk = (fuel - 1) as nat;
    let q = cum_children(g, g[k].children, fk)->Ok_0;
    assert(m[k] == cum_map(g, k, fuel)->Ok_0[k]);
    assert(cum_map(g, k, fuel)->Ok_0[k] == g[k].weight->0 + q.1);
    assert forall|j: int|
        0 <= j < g[k].children.len() implies cum_map(g, #[trigger] g[k].children[j], fk) is Ok
        && cum_map(g, g[k].children[j], fk)->Ok_0[g[k].children[j]] == m[g[k].children[j]] by {
        lemma_cum_children_roots(g, g[k].children, fk, j);
        lemma_cum_children_members(g, g[k].children, fk, g[k].children[j]);
        lemma_cum_member(g, n, fuel, g[k].children[j]);
        lemma_cum_mono(g, g[k].children[j], fk, fuel);
    }
    lemma_cum_children_sum(g, g[k].children, fk, m);
}

/// A decimal digit.
pub open spec fn is_digit(c: char) -> bool {
    '0' <= c && c <= '9'
}

/// The number written by a digit string, most significant digit first.
pub open spec fn digits_val(s: Seq<char>) -> int
    decreases s.len(),
{
    if s.len() == 0 {
        0
    } else {
        digits_val(s.drop_last()) * 10 + (s.last() as int - '0' as int)
    }
}

/// All characters are digits.
pub open spec fn all_digits(s: Seq<char>) -> bool {
    forall|i: int| 0 <= i < s.len() ==> is_digit(#[trigger] s[i])
}

/// The position of the first `c` at or after `from`, if any.
pub open spec fn find_char(s: Seq<char>, from: int, c: char) -> Option<int>
    decreases s.len() - from,
{
    if from < 0 || from >= s.len() {
        None
    } else if s[from] == c {
        Some(from)
    } else {
        find_char(s, from + 1, c)
    }
}

/// The children written after the arrow: spaces dropped, split on commas.
/// An empty stretch between commas (or an empty tail) is an empty name, as
/// splitting has it.
pub open spec fn children_of(s: Seq<char>) -> Seq<Seq<char>>
    decreases s.len(),
{
    if s.len() == 0 {
        seq![Seq::<char>::empty()]
    } else if s.last() == ' ' {
        children_of(s.drop_last())
    } else if s.last() == ',' {
        children_of(s.drop_last()).push(Seq::<char>::empty())
    } else {
        let p = children_of(s.drop_last());
        p.update(p.len() - 1, p.last().push(s.last()))
    }
}

proof fn lemma_children_of_len(s: Seq<char>)
    ensures
        children_of(s).len() >= 1,
    decreases s.len(),
{
    if s.len() > 0 {
        lemma_children_of_len(s.drop_last());
    }
}

/// What a line of input states: `NAME (WEIGHT)`, optionally followed by
/// ` -> ` and a comma-separated list of children.  `None` when the line is
/// not of that shape or the weight does not fit in `u32`.
pub open spec fn parse_line(s: Seq<char>) -> Option<(Seq<char>, u32, Seq<Seq<char>>)> {
    match find_char(s, 0, ' ') {
        None => None,
        Some(sp) => {
            if sp == 0 {
                None
            } else {
                let name = s.take(sp);
                let rest = s.skip(sp + 1);
                if rest.len() == 0 || rest[0] != '(' {
                    None
                } else {
                    match find_char(rest, 1, ')') {
                        None => None,
                        Some(cp) => {
                            let digits = rest.subrange(1, cp);
                            if digits.len() == 0 || !all_digits(digits) || digits_val(digits)
                                > u32::MAX {
                                None
                            } else {
                                let after = rest.skip(cp + 1);
                                if after.len() == 0 {
                                    Some((name, digits_val(digits) as u32, Seq::empty()))
                                } else if after.len() >= 4 && after[0] == ' ' && after[1] == '-'
                                    && after[2] == '>' && after[3] == ' ' {
                                    Some(
                                        (
                                            name,
                                            digits_val(digits) as u32,
                                            children_of(after.skip(4)),
                                        ),
                                    )
                                } else {
                                    None
                                }
                            }
                        },
                    }
                }
            }
        },
    }
}

/// A digit string's value is never negative.
proof fn lemma_digits_val_nonneg(s: Seq<char>)
    requires
        all_digits(s),
    ensures
        digits_val(s) >= 0,
    decreases s.len(),
{
    if s.len() > 0 {
        assert(all_digits(s.drop_last())) by {
            assert forall|i: int| 0 <= i < s.drop_last().len() implies is_digit(
                #[trigger] s.drop_last()[i],
            ) by {
                assert(s.drop_last()[i] == s[i]);
            }
        }
        lemma_digits_val_nonneg(s.drop_last());
        assert(digits_val(s.drop_last()) * 10 >= 0) by (nonlinear_arith)
            requires
                digits_val(s.drop_last()) >= 0,
        ;
    }
}

/// Growing a digit string can only grow its value.
proof fn lemma_digits_val_mono(s: Seq<char>, k: int)
    requires
        0 <= k <= s.len(),
        all_digits(s),
    ensures
        digits_val(s.take(k)) <= digits_val(s),
    decreases s.len() - k,
{
    if k < s.len() {
        lemma_digits_val_mono(s, k + 1);
        assert(s.take(k + 1).drop_last() =~= s.take(k));
        assert(all_digits(s.take(k))) by {
            assert forall|i: int| 0 <= i < s.take(k).len() implies is_digit(
                #[trigger] s.take(k)[i],
            ) by {
                assert(s.take(k)[i] == s[i]);
            }
        }
        lemma_digits_val_nonneg(s.take(k));
        assert(digits_val(s.take(k)) * 10 >= digits_val(s.take(k))) by (nonlinear_arith)
            requires
                digits_val(s.take(k)) >= 0,
        ;
        assert(is_digit(s[k]));
        assert(digits_val(s.take(k)) <= digits_val(s.take(k + 1)));
    } else {
        assert(s.take(k) =~= s);
    }
}

/// Where a found character stands: in range, matching, first of its kind.
proof fn lemma_find_char_props(s: Seq<char>, from: int, c: char)
    requires
        find_char(s, from, c) is Some,
    ensures
        from <= find_char(s, from, c)->0 < s.len(),
        s[find_char(s, from, c)->0] == c,
    decreases s.len() - from,
{
    if from < s.len() && s[from] != c {
        lemma_find_char_props(s, from + 1, c);
    }
}

/// Locate the first occurrence of `c` in `s` at or after `from`.
fn find_char_at(s: &str, from: usize, c: char) -> (r: Option<usize>)
    requires
        from <= s@.len(),
    ensures
        match r {
            Some(i) => find_char(s@, from as int, c) == Some(i as int),
            None => find_char(s@, from as int, c) is None,
        },
{
    let n = s.unicode_len();
    let mut i: usize = from;
    while i < n
        invariant
            from <= i <= n,
            n == s@.len(),
            find_char(s@, from as int, c) == find_char(s@, i as int, c),
        decreases n - i,
    {
        if s.get_char(i) == c {
            return Some(i);
        }
        i = i + 1;
    }
    None
}

impl Tower {
    /// Read one fact from a line of text: the program's name, its weight in
    /// parentheses, and the comma-separated children after an arrow, if
    /// any.  `None` when the line is not of that shape.
    #[verifier::loop_isolation(false)]
    pub fn data_from_line(line: &str) -> (r: Option<(String, u32, Vec<String>)>)
        ensures
            match r {
                Some(t) => parse_line(line@) == Some((t.0@, t.1, name_seq(t.2@))),
                None => parse_line(line@) is None,
            },
    {
        let n = line.unicode_len();
        let sp = match find_char_at(line, 0, ' ') {
            Some(sp) => sp,
            None => {
                return None;
            },
        };
        proof {
            lemma_find_char_props(line@, 0, ' ');
        }
        if sp == 0 {
            return None;
        }
        let name: String = line.substring_char(0, sp).to_owned();
        proof {
            assert(name@ =~= line@.take(sp as int));
        }
        let ghost rest = line@.skip(sp + 1);
        if sp + 1 >= n || line.get_char(sp + 1) != '(' {
            proof {
                if sp + 1 < n {
                    assert(rest[0] == line@[sp + 1]);
                }
            }
            return None;
        }
        proof {
            assert(rest[0] == line@[sp + 1]);
            assert(rest.len() > 0);
        }
        let cp = match find_char_at(line, sp + 2, ')') {
            Some(cp) => cp,
            None => {
                proof {
                    lemma_find_skip(line@, sp + 1, 1, ')');
                }
                return None;
            },
        };
        proof {
            lemma_find_char_props(line@, sp + 2, ')');
            lemma_find_skip(line@, sp + 1, 1, ')');
        }
        let ghost digits = rest.subrange(1, cp - sp - 1);
        proof {
            assert forall|i: int| 0 <= i < digits.len() implies digits[i] == line@[sp + 2 + i] by {}
        }
        if cp == sp + 2 {
            return None;
        }
        // Parse the digits, watching for overflow.
        let mut val: u32 = 0;
        let mut i: usize = sp + 2;
        while i < cp
            invariant
                sp + 2 <= i <= cp,
                cp < n,
                n == line@.len(),
                cp > sp + 2,
                digits == line@.skip(sp + 1).subrange(1, cp - sp - 1),
                digits.len() == cp - sp - 2,
                forall|k: int| 0 <= k < digits.len() ==> digits[k] == line@[sp + 2 + k],
                all_digits(digits.take(i - sp - 2)),
                val == digits_val(digits.take(i - sp - 2)),
                val <= u32::MAX,
            decreases cp - i,
        {
            let c = line.get_char(i);
            let cu = c as u32;
            proof {
                assert(digits[i - sp - 2] == line@[i as int]);
            }
            if cu < '0' as u32 || cu > '9' as u32 {
                proof {
                    assert(!is_digit(c));
                    assert(!is_digit(digits[i - sp - 2]));
                }
                return None;
            }
            let d = cu - ('0' as u32);
            proof {
                assert(d <= 9);
            }
            if val > (u32::MAX - d) / 10 {
                proof {
                    if all_digits(digits) {
                        assert(digits_val(digits.take(i - sp - 2)) * 10 + d > u32::MAX)
                            by (nonlinear_arith)
                            requires
                                val == digits_val(digits.take(i - sp - 2)),
                                val > (u32::MAX - d) / 10,
                                d <= 9,
                                val <= u32::MAX,
                        ;
                        assert(digits.take(i - sp - 1).drop_last() =~= digits.take(i - sp - 2));
                        assert(digits.take(i - sp - 1).last() == digits[i - sp - 2]);
                        assert(digits[i - sp - 2] == c);
                        assert(c as int - '0' as int == d);
                        assert(digits_val(digits.take(i - sp - 1)) > u32::MAX);
                        lemma_digits_val_mono(digits, i - sp - 1);
                    }
                }
                return None;
            }
            proof {
                assert(val * 10 + d <= u32::MAX) by (nonlinear_arith)
                    requires
                        val <= (u32::MAX - d) / 10,
                        d <= 9,
                ;
                assert(digits.take(i - sp - 1).drop_last() =~= digits.take(i - sp - 2));
                assert(digits.take(i - sp - 1).last() == digits[i - sp - 2]);
                assert(digits[i - sp - 2] == c);
                assert(is_digit(c));
                assert(c as int - '0' as int == d);
            }
            val = val * 10 + d;
            i = i + 1;
            proof {
                assert(all_digits(digits.take(i - sp - 2)));
                assert(val == digits_val(digits.take(i - sp - 2)));
            }
        }
        proof {
            assert(digits.take(cp - sp - 2) =~= digits);
        }
        // What follows the closing parenthesis: nothing, or the arrow and
        // the children.
        let ghost after = rest.skip(cp - sp);
        proof {
            assert forall|k: int| 0 <= k < after.len() implies after[k] == line@[cp + 1 + k] by {}
        }
        if cp + 1 == n {
            proof {
                assert(after.len() == 0);
            }
            return Some((name, val, Vec::new()));
        }
        if n - cp < 5 || line.get_char(cp + 1) != ' ' || line.get_char(cp + 2) != '-'
            || line.get_char(cp + 3) != '>' || line.get_char(cp + 4) != ' ' {
            return None;
        }
        let ghost tail = after.skip(4);
        proof {
            assert forall|k: int| 0 <= k < tail.len() implies tail[k] == line@[cp + 5 + k] by {}
        }
        // Collect the children: spaces dropped, split on commas.
        let mut kids: Vec<String> = Vec::new();
        let mut cur = String::new();
        let mut j: usize = cp + 5;
        proof {
            assert(tail.take(0) =~= Seq::<char>::empty());
            assert(children_of(tail.take(0)) =~= seq![Seq::<char>::empty()]);
            assert(name_seq(kids@).push(cur@) =~= children_of(tail.take(0)));
        }
        while j < n
            invariant
                cp + 5 <= j <= n,
                n == line@.len(),
                tail == line@.skip(cp + 1).skip(4),
                tail.len() == n - cp - 5,
                forall|k: int| 0 <= k < tail.len() ==> tail[k] == line@[cp + 5 + k],
                name_seq(kids@).push(cur@) == children_of(tail.take(j - cp - 5)),
            decreases n - j,
        {
            let c = line.get_char(j);
            let ghost t1 = tail.take(j - cp - 4);
            proof {
                assert(t1.drop_last() =~= tail.take(j - cp - 5));
                assert(t1.last() == tail[j - cp - 5]);
                assert(tail[j - cp - 5] == c);
                lemma_children_of_len(tail.take(j - cp - 5));
            }
            if c == ',' {
                kids.push(cur);
                cur = String::new();
                proof {
                    assert(name_seq(kids@).push(cur@) =~= children_of(t1));
                }
            } else if c != ' ' {
                cur.append(line.substring_char(j, j + 1));
                proof {
                    assert(line@.subrange(j as int, j + 1) =~= seq![c]);
                    assert(cur@ =~= children_of(tail.take(j - cp - 5)).last().push(c));
                    assert(name_seq(kids@).push(cur@) =~= children_of(t1));
                }
            } else {
                proof {
                    assert(children_of(t1) == children_of(tail.take(j - cp - 5)));
                }
            }
            j = j + 1;
        }
        proof {
            assert(tail.take(n - cp - 5) =~= tail);
        }
        kids.push(cur);
        proof {
            assert(name_seq(kids@) =~= children_of(tail));
        }
        Some((name, val, kids))
    }
}

/// Searching from inside a suffix finds the same character.
proof fn lemma_find_skip(s: Seq<char>, off: int, from: int, c: char)
    requires
        0 <= off,
        0 <= from,
        off + from <= s.len(),
    ensures
        match find_char(s, off + from, c) {
            Some(i) => find_char(s.skip(off), from, c) == Some(i - off),
            None => find_char(s.skip(off), from, c) is None,
        },
    decreases s.len() - off - from,
{
    if off + from < s.len() {
        assert(s.skip(off)[from] == s[off + from]);
        if s[off + from] != c {
            lemma_find_skip(s, off, from + 1, c);
        }
    }
}

/// Whether the programs standing directly on `n` all carry the same stored
/// total weight.
pub open spec fn balanced_at(g: GraphV, n: Seq<char>) -> bool {
    forall|a: int, b: int|
        0 <= a < g[n].children.len() && 0 <= b < g[n].children.len() ==> g[#[trigger] g[n].children[a]].total
            == g[#[trigger] g[n].children[b]].total
}

/// Each child of the list mapped to its stored total weight.
pub open spec fn child_totals(g: GraphV, cs: Seq<Seq<char>>) -> Map<Seq<char>, int>
    decreases cs.len(),
{
    if cs.len() == 0 {
        Map::empty()
    } else {
        child_totals(g, cs.drop_last()).insert(cs.last(), g[cs.last()].total as int)
    }
}

/// The anomaly found by a depth-first, children-first search from `n`: the
/// first program met in post-order whose children's stored totals disagree,
/// together with its children's totals.  Children are examined before the
/// program itself, so the deepest anomaly wins.
pub open spec fn unstable_spec(g: GraphV, n: Seq<char>, fuel: nat) -> Result<
    Option<(Seq<char>, Map<Seq<char>, int>)>,
    TowerError,
>
    decreases fuel, 0int,
{
    if fuel == 0 {
        Err(TowerError::CycleDetected)
    } else if !g.contains_key(n) {
        Ok(None)
    } else {
        match unstable_children(g, g[n].children, (fuel - 1) as nat) {
            Err(e) => Err(e),
            Ok(Some(a)) => Ok(Some(a)),
            Ok(None) => if balanced_at(g, n) {
                Ok(None)
            } else {
                Ok(Some((n, child_totals(g, g[n].children))))
            },
        }
    }
}

/// The first anomaly found below any of the listed children, in list order.
pub open spec fn unstable_children(g: GraphV, cs: Seq<Seq<char>>, fuel: nat) -> Result<
    Option<(Seq<char>, Map<Seq<char>, int>)>,
    TowerError,
>
    decreases fuel, cs.len() + 1,
{
    if cs.len() == 0 {
        Ok(None)
    } else {
        match unstable_spec(g, cs[0], fuel) {
            Err(e) => Err(e),
            Ok(Some(a)) => Ok(Some(a)),
            Ok(None) => unstable_children(g, cs.drop_first(), fuel),
        }
    }
}

/// Re-ingesting a fact the registry already reflects changes nothing: the
/// registry is left as it was, and the tracked root — being parentless —
/// can never be among the fact's children, so it is not re-resolved.
/// Aggregates and the balance verdict, being functions of the registry,
/// are unchanged as well.
pub proof fn lemma_reingest_idempotent(
    g: GraphV,
    root: Option<Seq<char>>,
    n: Seq<char>,
    w: u32,
    cs: Seq<Seq<char>>,
)
    requires
        g.contains_key(n),
        g[n].weight == Some(w),
        g[n].children == cs,
        forall|j: int|
            0 <= j < cs.len() ==> g.contains_key(#[trigger] cs[j]) && g[cs[j]].parent == Some(n),
        root is Some ==> g.contains_key(root->0) && g[root->0].parent is None,
    ensures
        spec_add(g, n, w, cs) =~~= g,
        root is Some ==> !cs.contains(root->0),
{
    let g1 = upsert_subject(g, n, w, cs);
    assert(g1 =~~= g);
    let g2 = attach_children(g1, n, cs);
    assert forall|k: Seq<char>| #[trigger] g2.contains_key(k) || g.contains_key(k) implies g2.contains_key(
        k,
    ) && g.contains_key(k) && g2[k] == g[k] by {
        if cs.contains(k) {
            lemma_attach_children_hit(g1, n, cs, k);
            assert(g1.contains_key(k) && g1[k] == g[k]);
            assert(g2[k] =~~= g[k]);
        } else {
            lemma_attach_children_untouched(g1, n, cs, k);
        }
    }
    assert(g2 =~~= g);
    if root is Some && cs.contains(root->0) {
        let j = choose|j: int| 0 <= j < cs.len() && cs[j] == root->0;
        assert(g[cs[j]].parent == Some(n));
    }
}

/// Whether `to` lies in the subtree standing on `from` (reached through
/// child links within `fuel` steps of depth).
pub open spec fn reaches(g: GraphV, from: Seq<char>, to: Seq<char>, fuel: nat) -> bool
    decreases fuel, 0int,
{
    if !g.contains_key(from) {
        false
    } else if from == to {
        true
    } else if fuel == 0 {
        false
    } else {
        reaches_children(g, g[from].children, to, (fuel - 1) as nat)
    }
}

/// Whether `to` lies in a subtree standing on one of the listed children.
pub open spec fn reaches_children(g: GraphV, cs: Seq<Seq<char>>, to: Seq<char>, fuel: nat) -> bool
    decreases fuel, cs.len() + 1,
{
    if cs.len() == 0 {
        false
    } else {
        reaches(g, cs[0], to, fuel) || reaches_children(g, cs.drop_first(), to, fuel)
    }
}

/// Reaching through any one listed child reaches through the list.
proof fn lemma_reaches_children_witness(
    g: GraphV,
    cs: Seq<Seq<char>>,
    to: Seq<char>,
    fuel: nat,
    j: int,
)
    requires
        0 <= j < cs.len(),
        reaches(g, cs[j], to, fuel),
    ensures
        reaches_children(g, cs, to, fuel),
    decreases cs.len(),
{
    if j > 0 {
        assert(cs.drop_first()[j - 1] == cs[j]);
        lemma_reaches_children_witness(g, cs.drop_first(), to, fuel, j - 1);
    }
}

/// Reaching through the list is reaching through one listed child.
proof fn lemma_reaches_children_choose(g: GraphV, cs: Seq<Seq<char>>, to: Seq<char>, fuel: nat) -> (j: int)
    requires
        reaches_children(g, cs, to, fuel),
    ensures
        0 <= j < cs.len(),
        reaches(g, cs[j], to, fuel),
    decreases cs.len(),
{
    if reaches(g, cs[0], to, fuel) {
        0
    } else {
        let j = lemma_reaches_children_choose(g, cs.drop_first(), to, fuel);
        assert(cs.drop_first()[j] == cs[j + 1]);
        j + 1
    }
}

/// A clean search verdict below every listed child.
proof fn lemma_unstable_children_all_none(g: GraphV, cs: Seq<Seq<char>>, fuel: nat, j: int)
    requires
        unstable_children(g, cs, fuel) == Ok::<
            Option<(Seq<char>, Map<Seq<char>, int>)>,
            TowerError,
        >(None),
        0 <= j < cs.len(),
    ensures
        unstable_spec(g, cs[j], fuel) == Ok::<
            Option<(Seq<char>, Map<Seq<char>, int>)>,
            TowerError,
        >(None),
    decreases cs.len(),
{
    if j > 0 {
        assert(cs.drop_first()[j - 1] == cs[j]);
        lemma_unstable_children_all_none(g, cs.drop_first(), fuel, j - 1);
    }
}

/// A subtree whose search came back clean was fully explored: whatever is
/// reachable with any amount of fuel was already reachable with the
/// search's own fuel.
proof fn lemma_clean_reach_bound(g: GraphV, n: Seq<char>, fuel: nat, d: Seq<char>, df: nat)
    requires
        unstable_spec(g, n, fuel) == Ok::<
            Option<(Seq<char>, Map<Seq<char>, int>)>,
            TowerError,
        >(None),
        reaches(g, n, d, df),
    ensures
        reaches(g, n, d, fuel),
    decreases df,
{
    if n != d {
        let cs = g[n].children;
        let j = lemma_reaches_children_choose(g, cs, d, (df - 1) as nat);
        lemma_unstable_children_all_none(g, cs, (fuel - 1) as nat, j);
        lemma_clean_reach_bound(g, cs[j], (fuel - 1) as nat, d, (df - 1) as nat);
        lemma_reaches_children_witness(g, cs, d, (fuel - 1) as nat, j);
    }
}

/// The search from `n` comes back clean exactly when every program of the
/// subtree standing on `n` has children of equal stored totals.
pub proof fn lemma_unstable_none_iff(g: GraphV, n: Seq<char>, fuel: nat)
    requires
        unstable_spec(g, n, fuel) is Ok,
    ensures
        (unstable_spec(g, n, fuel) == Ok::<
            Option<(Seq<char>, Map<Seq<char>, int>)>,
            TowerError,
        >(None)) <==> (forall|m: Seq<char>| reaches(g, n, m, fuel) ==> balanced_at(g, m)),
    decreases fuel, 0int,
{
    if g.contains_key(n) {
        let cs = g[n].children;
        let f1 = (fuel - 1) as nat;
        lemma_unstable_children_iff(g, cs, f1);
        if unstable_children(g, cs, f1) == Ok::<
            Option<(Seq<char>, Map<Seq<char>, int>)>,
            TowerError,
        >(None) && balanced_at(g, n) {
            assert forall|m: Seq<char>| reaches(g, n, m, fuel) implies balanced_at(g, m) by {
                if m != n {
                    assert(reaches_children(g, cs, m, f1));
                }
            }
        } else {
            if unstable_children(g, cs, f1) is Ok && unstable_children(g, cs, f1)->Ok_0 is Some {
                let m = choose|m: Seq<char>|
                    reaches_children(g, cs, m, f1) && !balanced_at(g, m);
                assert(reaches(g, n, m, fuel));
            } else {
                assert(!balanced_at(g, n));
                assert(reaches(g, n, n, fuel));
            }
        }
    }
}

/// The list version of the clean-search characterization.
proof fn lemma_unstable_children_iff(g: GraphV, cs: Seq<Seq<char>>, fuel: nat)
    requires
        unstable_children(g, cs, fuel) is Ok,
    ensures
        (unstable_children(g, cs, fuel) == Ok::<
            Option<(Seq<char>, Map<Seq<char>, int>)>,
            TowerError,
        >(None)) <==> (forall|m: Seq<char>| reaches_children(g, cs, m, fuel) ==> balanced_at(g, m)),
    decreases fuel, cs.len() + 1,
{
    if cs.len() > 0 {
        lemma_unstable_none_iff(g, cs[0], fuel);
        if unstable_spec(g, cs[0], fuel)->Ok_0 is Some {
            let m = choose|m: Seq<char>| reaches(g, cs[0], m, fuel) && !balanced_at(g, m);
            assert(reaches_children(g, cs, m, fuel));
        } else {
            lemma_unstable_children_iff(g, cs.drop_first(), fuel);
            if unstable_children(g, cs.drop_first(), fuel)->Ok_0 is Some {
                let m = choose|m: Seq<char>|
                    reaches_children(g, cs.drop_first(), m, fuel) && !balanced_at(g, m);
                assert(reaches_children(g, cs, m, fuel));
            } else {
                assert forall|m: Seq<char>|
                    reaches_children(g, cs, m, fuel) implies balanced_at(g, m) by {}
            }
        }
    }
}

/// The anomaly the search reports is the deepest one: it is a reachable,
/// truly unbalanced program, it comes with its children's stored totals,
/// and nothing below it — at any depth — is unbalanced.
pub proof fn lemma_unstable_deepest(g: GraphV, n: Seq<char>, fuel: nat, d: Seq<char>, df: nat)
    requires
        unstable_spec(g, n, fuel) is Ok,
        unstable_spec(g, n, fuel)->Ok_0 is Some,
    ensures
        ({
            let a = unstable_spec(g, n, fuel)->Ok_0->0;
            &&& g.contains_key(a.0)
            &&& !balanced_at(g, a.0)
            &&& a.1 == child_totals(g, g[a.0].children)
            &&& reaches(g, n, a.0, fuel)
            &&& (reaches(g, a.0, d, df) && d != a.0 ==> balanced_at(g, d))
        }),
    decreases fuel, 0int,
{
    let a = unstable_spec(g, n, fuel)->Ok_0->0;
    let cs = g[n].children;
    let f1 = (fuel - 1) as nat;
    if unstable_children(g, cs, f1)->Ok_0 is Some {
        lemma_unstable_children_deepest(g, cs, f1, d, df);
        let j = choose|j: int|
            0 <= j < cs.len() && reaches(g, cs[j], a.0, f1);
        lemma_reaches_children_witness(g, cs, a.0, f1, j);
    } else {
        assert(a.0 == n && a.1 == child_totals(g, cs));
        assert(reaches(g, n, n, fuel));
        if reaches(g, a.0, d, df) && d != a.0 {
            let j = lemma_reaches_children_choose(g, cs, d, (df - 1) as nat);
            lemma_unstable_children_all_none(g, cs, f1, j);
            lemma_clean_reach_bound(g, cs[j], f1, d, (df - 1) as nat);
            lemma_unstable_none_iff(g, cs[j], f1);
        }
    }
}

/// The list version of the deepest-anomaly property.
proof fn lemma_unstable_children_deepest(
    g: GraphV,
    cs: Seq<Seq<char>>,
    fuel: nat,
    d: Seq<char>,
    df: nat,
)
    requires
        unstable_children(g, cs, fuel) is Ok,
        unstable_children(g, cs, fuel)->Ok_0 is Some,
    ensures
        ({
            let a = unstable_children(g, cs, fuel)->Ok_0->0;
            &&& g.contains_key(a.0)
            &&& !balanced_at(g, a.0)
            &&& a.1 == child_totals(g, g[a.0].children)
            &&& exists|j: int| 0 <= j < cs.len() && reaches(g, #[trigger] cs[j], a.0, fuel)
            &&& (reaches(g, a.0, d, df) && d != a.0 ==> balanced_at(g, d))
        }),
    decreases fuel, cs.len() + 1,
{
    let a = unstable_children(g, cs, fuel)->Ok_0->0;
    if unstable_spec(g, cs[0], fuel)->Ok_0 is Some {
        lemma_unstable_deepest(g, cs[0], fuel, d, df);
        assert(reaches(g, cs[0], a.0, fuel));
    } else {
        lemma_unstable_children_deepest(g, cs.drop_first(), fuel, d, df);
        let j = choose|j: int|
            0 <= j < cs.drop_first().len() && reaches(g, #[trigger] cs.drop_first()[j], a.0, fuel);
        assert(cs.drop_first()[j] == cs[j + 1]);
        assert(reaches(g, cs[j + 1], a.0, fuel));
    }
}

impl Tower {
    /// Depth-first search for the deepest unbalanced program below `name`.
    fn unstable_rec(&self, name: &String, fuel: usize) -> (r: Result<
        Option<(String, Weights)>,
        TowerError,
    >)
        requires
            self.wf(),
        ensures
            match r {
                Ok(None) => unstable_spec(self.graph(), name@, fuel as nat) == Ok::<
                    Option<(Seq<char>, Map<Seq<char>, int>)>,
                    TowerError,
                >(None),
                Ok(Some(a)) => unstable_spec(self.graph(), name@, fuel as nat) == Ok::<
                    Option<(Seq<char>, Map<Seq<char>, int>)>,
                    TowerError,
                >(Some((a.0@, a.1@))),
                Err(e) => unstable_spec(self.graph(), name@, fuel as nat) == Err::<
                    Option<(Seq<char>, Map<Seq<char>, int>)>,
                    TowerError,
                >(e),
            },
        decreases fuel,
    {
        let ghost g = self.graph();
        if fuel == 0 {
            return Err(TowerError::CycleDetected);
        }
        let i = match self.find_index(name) {
            Some(i) => i,
            None => {
                return Ok(None);
            },
        };
        proof {
            lemma_graph_index(*self, i as int);
        }
        let ghost cs = g[name@].children;
        let ghost f1 = (fuel - 1) as nat;
        let nchildren = self.programs[i].children.len();
        let mut rv = Weights::new();
        let mut first: u32 = 0;
        let mut unbalanced = false;
        proof {
            assert(cs == name_seq(self.programs@[i as int].children@));
            assert(cs.skip(0) =~= cs);
            assert(cs.take(0) =~= Seq::<Seq<char>>::empty());
        }
        let mut j: usize = 0;
        while j < nchildren
            invariant
                self.wf(),
                g == self.graph(),
                0 <= i < self.programs@.len(),
                fuel >= 1,
                f1 == (fuel - 1) as nat,
                nchildren == self.programs@[i as int].children@.len(),
                cs == name_seq(self.programs@[i as int].children@),
                g.contains_key(name@),
                g[name@].children == cs,
                j <= nchildren,
                unstable_children(g, cs, f1) == unstable_children(g, cs.skip(j as int), f1),
                rv@ == child_totals(g, cs.take(j as int)),
                j > 0 ==> g.contains_key(cs[0]) && first == g[cs[0]].total,
                unbalanced == exists|k: int|
                    0 < k < j && g[#[trigger] cs[k]].total != g[cs[0]].total,
            decreases nchildren - j,
        {
            let child = &self.programs[i].children[j];
            proof {
                assert(cs.skip(j as int)[0] == cs[j as int]);
                assert(cs[j as int] == self.programs@[i as int].children@[j as int]@);
                assert(node_closed(g, g[name@]));
                assert(g.contains_key(cs[j as int]));
            }
            match self.unstable_rec(child, fuel - 1) {
                Err(e) => {
                    return Err(e);
                },
                Ok(Some(a)) => {
                    return Ok(Some(a));
                },
                Ok(None) => {
                    let ci = match self.find_index(child) {
                        Some(ci) => ci,
                        None => {
                            proof {
                                assert(false);
                            }
                            return Err(TowerError::CycleDetected);
                        },
                    };
                    proof {
                        lemma_graph_index(*self, ci as int);
                    }
                    let v = self.programs[ci].total_weight;
                    let ghost rv_old = rv@;
                    rv.set(child.clone(), v);
                    if j == 0 {
                        first = v;
                    } else if v != first {
                        unbalanced = true;
                    }
                    proof {
                        assert(cs.skip(j as int).drop_first() =~= cs.skip(j + 1));
                        assert(cs.take(j + 1).drop_last() =~= cs.take(j as int));
                        assert(cs.take(j + 1).last() == cs[j as int]);
                        assert(rv@ == child_totals(g, cs.take(j + 1)));
                    }
                },
            }
            j = j + 1;
        }
        proof {
            assert(cs.skip(nchildren as int) =~= Seq::<Seq<char>>::empty());
            assert(cs.take(nchildren as int) =~= cs);
            assert(unbalanced == !balanced_at(g, name@)) by {
                if unbalanced {
                    let k = choose|k: int| 0 < k < nchildren && g[#[trigger] cs[k]].total != g[cs[0]].total;
                    assert(!balanced_at(g, name@));
                } else {
                    if nchildren > 0 {
                        assert forall|a: int, b: int|
                            0 <= a < cs.len() && 0 <= b < cs.len() implies g[#[trigger] cs[a]].total
                            == g[#[trigger] cs[b]].total by {
                            if a > 0 {
                                assert(!(g[cs[a]].total != g[cs[0]].total));
                            }
                            if b > 0 {
                                assert(!(g[cs[b]].total != g[cs[0]].total));
                            }
                        }
                    }
                }
            }
        }
        if unbalanced {
            return Ok(Some((name.clone(), rv)));
        }
        Ok(None)
    }

    /// The deepest program below `name` whose children carry unequal total
    /// weights, with those children's totals; `None` when every program of
    /// the subtree is balanced.  Call only after [`Tower::finalize`] has
    /// stored the totals.
    pub fn find_unstable_children(&self, name: &str) -> (r: Result<
        Option<(String, Weights)>,
        TowerError,
    >)
        requires
            self.wf(),
            self.programs@.len() < usize::MAX,
        ensures
            match r {
                Ok(None) => unstable_spec(
                    self.graph(),
                    name@,
                    (self.programs@.len() + 1) as nat,
                ) == Ok::<Option<(Seq<char>, Map<Seq<char>, int>)>, TowerError>(None),
                Ok(Some(a)) => unstable_spec(
                    self.graph(),
                    name@,
                    (self.programs@.len() + 1) as nat,
                ) == Ok::<Option<(Seq<char>, Map<Seq<char>, int>)>, TowerError>(
                    Some((a.0@, a.1@)),
                ),
                Err(e) => unstable_spec(
                    self.graph(),
                    name@,
                    (self.programs@.len() + 1) as nat,
                ) == Err::<Option<(Seq<char>, Map<Seq<char>, int>)>, TowerError>(e),
            },
    {
        let key: String = name.to_owned();
        let fuel = self.programs.len() + 1;
        self.unstable_rec(&key, fuel)
    }

    /// Search the whole tower, from the tracked root, for the deepest
    /// unbalanced program.
    pub fn search_unstable(&self) -> (r: Result<Option<(String, Weights)>, TowerError>)
        requires
            self.wf(),
            self.programs@.len() < usize::MAX,
        ensures
            match self.root_v() {
                None => r == Ok::<Option<(String, Weights)>, TowerError>(None),
                Some(rt) => match r {
                    Ok(None) => unstable_spec(
                        self.graph(),
                        rt,
                        (self.programs@.len() + 1) as nat,
                    ) == Ok::<Option<(Seq<char>, Map<Seq<char>, int>)>, TowerError>(None),
                    Ok(Some(a)) => unstable_spec(
                        self.graph(),
                        rt,
                        (self.programs@.len() + 1) as nat,
                    ) == Ok::<Option<(Seq<char>, Map<Seq<char>, int>)>, TowerError>(
                        Some((a.0@, a.1@)),
                    ),
                    Err(e) => unstable_spec(
                        self.graph(),
                        rt,
                        (self.programs@.len() + 1) as nat,
                    ) == Err::<Option<(Seq<char>, Map<Seq<char>, int>)>, TowerError>(e),
                },
            },
    {
        let rt = match &self.root {
            Some(r) => r.clone(),
            None => {
                return Ok(None);
            },
        };
        self.find_unstable_children(rt.as_str())
    }
}

} // verus!
