//! Order-independence of fact ingestion.
//!
//! A fact states a program's name, weight and children.  This module gives
//! the mathematical account of ingesting a whole collection of facts —
//! [`run`] folds [`crate::tower::spec_add`] and the root-tracking rule over
//! a sequence of facts, exactly as [`crate::tower::Tower::add`] promises to
//! — and proves that for a well-formed fact set the outcome does not depend
//! on the order the facts arrive in: the registry is the same map, and the
//! tracked root is the same name.

use vstd::prelude::*;

use crate::tower::GraphV;
use crate::tower::NodeV;
use crate::tower::upsert_subject;
use crate::tower::spec_add;
use crate::tower::chain_root;
use crate::tower::lemma_chain_mono;
use crate::tower::lemma_attach_children_hit;
use crate::tower::lemma_attach_children_untouched;
use crate::tower::lemma_chain_root_props;

verus! {

/// One input record: a program's name, its own weight, and the ordered
/// names of the programs standing directly on it.
pub ghost struct FactV {
    pub name: Seq<char>,
    pub weight: u32,
    pub children: Seq<Seq<char>>,
}

/// Some fact defines `n`.
pub open spec fn is_subject(facts: Seq<FactV>, n: Seq<char>) -> bool {
    exists|i: int| 0 <= i < facts.len() && (#[trigger] facts[i]).name == n
}

/// The index of the fact defining `n` (meaningful when subjects are unique).
pub open spec fn subject_at(facts: Seq<FactV>, n: Seq<char>) -> int {
    choose|i: int| 0 <= i < facts.len() && (#[trigger] facts[i]).name == n
}

/// Some fact lists `n` among its children.
pub open spec fn is_listed(facts: Seq<FactV>, n: Seq<char>) -> bool {
    exists|i: int, j: int|
        0 <= i < facts.len() && 0 <= j < facts[i].children.len() && #[trigger] facts[i].children[j]
            == n
}

/// The index of the fact listing `n` (meaningful when no name is listed
/// twice).
pub open spec fn lister_at(facts: Seq<FactV>, n: Seq<char>) -> int {
    choose|i: int|
        0 <= i < facts.len() && exists|j: int|
            0 <= j < (#[trigger] facts[i]).children.len() && facts[i].children[j] == n
}

/// `n` occurs in the fact set, as a subject or as a child.
pub open spec fn mentioned(facts: Seq<FactV>, n: Seq<char>) -> bool {
    is_subject(facts, n) || is_listed(facts, n)
}

/// The registry that a fact set describes, independent of any order: each
/// mentioned name carries the weight and children of its defining fact (if
/// any) and points at the fact that lists it (if any).
pub open spec fn graph_of(facts: Seq<FactV>) -> GraphV {
    Map::new(
        |n: Seq<char>| mentioned(facts, n),
        |n: Seq<char>|
            NodeV {
                weight: if is_subject(facts, n) {
                    Some(facts[subject_at(facts, n)].weight)
                } else {
                    None
                },
                parent: if is_listed(facts, n) {
                    Some(facts[lister_at(facts, n)].name)
                } else {
                    None
                },
                children: if is_subject(facts, n) {
                    facts[subject_at(facts, n)].children
                } else {
                    Seq::empty()
                },
                total: 0,
            },
    )
}

/// No two facts define the same name.
pub open spec fn subjects_unique(facts: Seq<FactV>) -> bool {
    forall|i: int, j: int|
        0 <= i < j < facts.len() ==> (#[trigger] facts[i]).name != (#[trigger] facts[j]).name
}

/// No name is listed as a child twice, across the whole fact set.
pub open spec fn children_once(facts: Seq<FactV>) -> bool {
    forall|i1: int, j1: int, i2: int, j2: int|
        0 <= i1 < facts.len() && 0 <= j1 < facts[i1].children.len() && 0 <= i2 < facts.len() && 0
            <= j2 < facts[i2].children.len() && (i1 != i2 || j1 != j2) ==> #[trigger] facts[i1].children[j1]
            != #[trigger] facts[i2].children[j2]
}

/// Every mentioned name resolves to a root by walking parents: the
/// described structure has no parent cycle.
pub open spec fn resolvable(facts: Seq<FactV>) -> bool {
    forall|n: Seq<char>| #[trigger]
        graph_of(facts).contains_key(n) ==> exists|fl: nat|
            chain_root(graph_of(facts), n, fl) is Some
}

/// Exactly one mentioned name is never listed as a child: the set
/// describes a single tree, not a forest.
pub open spec fn single_root(facts: Seq<FactV>) -> bool {
    exists|r: Seq<char>| #[trigger]
        mentioned(facts, r) && !is_listed(facts, r) && forall|n: Seq<char>|
            mentioned(facts, n) && !is_listed(facts, n) ==> n == r
}

/// A well-formed fact set describing one tree.
pub open spec fn wf_facts(facts: Seq<FactV>) -> bool {
    &&& facts.len() > 0
    &&& subjects_unique(facts)
    &&& children_once(facts)
    &&& resolvable(facts)
    &&& single_root(facts)
}

/// The root-tracking rule that ingestion follows, stated over the registry
/// after the fact was recorded: the first fact's subject seeds the root; a
/// fact that captures the tracked root as a child forces a re-resolution
/// from the fact's subject (which, on well-formed input, always succeeds —
/// on a cycle the old root is kept, as ingestion reports an error there).
pub open spec fn step_root(g1: GraphV, root: Option<Seq<char>>, f: FactV) -> Option<Seq<char>> {
    match root {
        None => Some(f.name),
        Some(r0) => if !f.children.contains(r0) {
            Some(r0)
        } else {
            if exists|fl: nat| chain_root(g1, f.name, fl) is Some {
                chain_root(g1, f.name, choose|fl: nat| chain_root(g1, f.name, fl) is Some)
            } else {
                Some(r0)
            }
        },
    }
}

/// Which fuel resolves a walk does not matter: any fuel that succeeds
/// gives the same root.  This ties [`crate::tower::Tower::add`], which
/// re-resolves at one registry-length of fuel, to the rule [`step_root`],
/// which resolves at any sufficient fuel.
pub proof fn lemma_resolution_fuel_irrelevant(g: GraphV, n: Seq<char>, f1: nat)
    requires
        chain_root(g, n, f1) is Some,
    ensures
        exists|fl: nat| chain_root(g, n, fl) is Some,
        chain_root(g, n, choose|fl: nat| chain_root(g, n, fl) is Some) == chain_root(g, n, f1),
{
    assert(chain_root(g, n, f1) is Some);
    let fc = choose|fl: nat| chain_root(g, n, fl) is Some;
    if fc <= f1 {
        lemma_chain_mono(g, n, fc, f1);
    } else {
        lemma_chain_mono(g, n, f1, fc);
    }
}

/// The registry and tracked root after ingesting the first `k` facts, in
/// the order given.
pub open spec fn run(facts: Seq<FactV>, k: int) -> (GraphV, Option<Seq<char>>)
    decreases k,
{
    if k <= 0 {
        (Map::empty(), None)
    } else {
        let prev = run(facts, k - 1);
        let f = facts[k - 1];
        let g1 = spec_add(prev.0, f.name, f.weight, f.children);
        (g1, step_root(g1, prev.1, f))
    }
}

/// No fact of a resolvable set lists its own subject as a child.
proof fn lemma_no_self_listing(facts: Seq<FactV>, i: int)
    requires
        children_once(facts),
        resolvable(facts),
        0 <= i < facts.len(),
    ensures
        !facts[i].children.contains(facts[i].name),
{
    let g = graph_of(facts);
    let n = facts[i].name;
    if facts[i].children.contains(n) {
        assert(is_subject(facts, n));
        assert(is_listed(facts, n));
        assert(g.contains_key(n));
        let li = lister_at(facts, n);
        let j = choose|j: int| 0 <= j < facts[i].children.len() && facts[i].children[j] == n;
        let lj = choose|j: int|
            0 <= j < (#[trigger] facts[li]).children.len() && facts[li].children[j] == n;
        assert(facts[li].children[lj] == n && facts[i].children[j] == n);
        assert(li == i && lj == j);
        assert(g[n].parent == Some(n));
        let fl = choose|fl: nat| chain_root(g, n, fl) is Some;
        crate::tower::lemma_cycle_no_root(g, seq![n], 0, fl);
        assert(false);
    }
}

/// Ingesting one more fact turns the registry described by a fact set into
/// the registry described by the larger set.
proof fn lemma_graph_of_push(s: Seq<FactV>, f: FactV)
    requires
        subjects_unique(s.push(f)),
        children_once(s.push(f)),
    ensures
        graph_of(s.push(f)) =~~= spec_add(graph_of(s), f.name, f.weight, f.children),
{
    let sf = s.push(f);
    let g = graph_of(s);
    let g1 = upsert_subject(g, f.name, f.weight, f.children);
    let g2 = spec_add(g, f.name, f.weight, f.children);
    let n = s.len() as int;
    assert(sf[n] == f);
    assert forall|i: int| 0 <= i < n implies sf[i] == s[i] by {}
    assert forall|k: Seq<char>| #[trigger] graph_of(sf).contains_key(k) || g2.contains_key(k)
        implies graph_of(sf).contains_key(k) && g2.contains_key(k) && graph_of(sf)[k] == g2[k] by {
        lemma_graph_of_push_key(s, f, k);
    }
}

/// The pointwise case analysis behind `lemma_graph_of_push`.
proof fn lemma_graph_of_push_key(s: Seq<FactV>, f: FactV, k: Seq<char>)
    requires
        subjects_unique(s.push(f)),
        children_once(s.push(f)),
    ensures
        graph_of(s.push(f)).contains_key(k) == spec_add(
            graph_of(s),
            f.name,
            f.weight,
            f.children,
        ).contains_key(k),
        graph_of(s.push(f)).contains_key(k) ==> graph_of(s.push(f))[k] == spec_add(
            graph_of(s),
            f.name,
            f.weight,
            f.children,
        )[k],
{
    let sf = s.push(f);
    let g = graph_of(s);
    let g1 = upsert_subject(g, f.name, f.weight, f.children);
    let g2 = spec_add(g, f.name, f.weight, f.children);
    let n = s.len() as int;
    assert(sf[n] == f);

    // Membership and choices transfer between `s` and `s.push(f)`.
    assert(is_subject(sf, f.name));
    if is_subject(s, k) {
        let i = subject_at(s, k);
        assert(sf[i].name == k);
        assert(is_subject(sf, k));
    }
    if is_listed(s, k) {
        let i = lister_at(s, k);
        let j = choose|j: int| 0 <= j < (#[trigger] s[i]).children.len() && s[i].children[j] == k;
        assert(sf[i].children[j] == k);
        assert(is_listed(sf, k));
    }
    if f.children.contains(k) {
        let j = choose|j: int| 0 <= j < f.children.len() && f.children[j] == k;
        assert(sf[n].children[j] == k);
        assert(is_listed(sf, k));
    }

    if !graph_of(sf).contains_key(k) && !g2.contains_key(k) {
        return ;
    }

    // Membership equivalence.
    assert(mentioned(sf, k) == (mentioned(s, k) || k == f.name || f.children.contains(k))) by {
        if mentioned(sf, k) {
            if is_subject(sf, k) {
                let i = subject_at(sf, k);
                if i < n {
                    assert(s[i].name == k);
                    assert(is_subject(s, k));
                } else {
                    assert(k == f.name);
                }
            }
            if is_listed(sf, k) {
                let i = choose|i: int|
                    0 <= i < sf.len() && exists|j: int|
                        0 <= j < (#[trigger] sf[i]).children.len() && sf[i].children[j] == k;
                let j = choose|j: int|
                    0 <= j < (#[trigger] sf[i]).children.len() && sf[i].children[j] == k;
                if i < n {
                    assert(s[i].children[j] == k);
                    assert(is_listed(s, k));
                } else {
                    assert(f.children[j] == k);
                    assert(f.children.contains(k));
                }
            }
        }
    }
    assert(g2.contains_key(k) == (g.contains_key(k) || k == f.name || f.children.contains(k))) by {
        if f.children.contains(k) {
            lemma_attach_children_hit(g1, f.name, f.children, k);
        } else {
            lemma_attach_children_untouched(g1, f.name, f.children, k);
        }
    }

    if !graph_of(sf).contains_key(k) {
        return ;
    }

    // Value equivalence, by where `k` stands relative to the new fact.
    let vf = graph_of(sf)[k];

    // The weight and children components: they come from the defining fact.
    assert(is_subject(sf, k) == (is_subject(s, k) || k == f.name));
    if k == f.name {
        let i = subject_at(sf, k);
        assert(sf[i].name == k && sf[n].name == k);
        assert(i == n);
        assert(vf.weight == Some(f.weight) && vf.children == f.children);
    } else if is_subject(s, k) {
        let i = subject_at(s, k);
        let i2 = subject_at(sf, k);
        assert(sf[i].name == k);
        assert(i2 < n || sf[i2].name == f.name);
        assert(sf[i2] == s[i2] && s[i2].name == k);
        assert(i2 == i);
        assert(vf.weight == Some(s[i].weight) && vf.children == s[i].children);
        assert(g.contains_key(k) && g[k].weight == Some(s[i].weight) && g[k].children
            == s[i].children);
    } else {
        assert(vf.weight is None && vf.children == Seq::<Seq<char>>::empty());
    }

    // The parent component: it comes from the listing fact.
    if f.children.contains(k) {
        let j = choose|j: int| 0 <= j < f.children.len() && f.children[j] == k;
        let li = lister_at(sf, k);
        let lj = choose|lj: int|
            0 <= lj < (#[trigger] sf[li]).children.len() && sf[li].children[lj] == k;
        assert(sf[li].children[lj] == k && sf[n].children[j] == k);
        assert(li == n && lj == j);
        assert(vf.parent == Some(f.name));
    } else if is_listed(s, k) {
        let li = lister_at(s, k);
        let lj = choose|lj: int|
            0 <= lj < (#[trigger] s[li]).children.len() && s[li].children[lj] == k;
        let mi = lister_at(sf, k);
        let mj = choose|mj: int|
            0 <= mj < (#[trigger] sf[mi]).children.len() && sf[mi].children[mj] == k;
        assert(sf[li].children[lj] == k);
        assert(is_listed(sf, k));
        if mi == n {
            assert(f.children[mj] == k);
            assert(f.children.contains(k));
            assert(false);
        }
        assert(sf[mi] == s[mi] && s[mi].children[mj] == k);
        assert(mi == li && mj == lj);
        assert(vf.parent == Some(s[li].name));
        assert(g.contains_key(k) && g[k].parent == Some(s[li].name));
    } else {
        assert(!is_listed(sf, k)) by {
            if is_listed(sf, k) {
                let mi = choose|mi: int|
                    0 <= mi < sf.len() && exists|mj: int|
                        0 <= mj < (#[trigger] sf[mi]).children.len() && sf[mi].children[mj] == k;
                let mj = choose|mj: int|
                    0 <= mj < (#[trigger] sf[mi]).children.len() && sf[mi].children[mj] == k;
                if mi == n {
                    assert(f.children[mj] == k);
                } else {
                    assert(s[mi].children[mj] == k);
                    assert(is_listed(s, k));
                }
            }
        }
        assert(vf.parent is None);
    }

    // Assemble: the graph update records exactly the same node.
    if f.children.contains(k) {
        lemma_attach_children_hit(g1, f.name, f.children, k);
        if k == f.name {
            assert(g1.contains_key(k) && g1[k].weight == Some(f.weight) && g1[k].children
                == f.children);
            assert(g2[k] == (NodeV {
                weight: Some(f.weight),
                parent: Some(f.name),
                children: f.children,
                total: g1[k].total,
            }));
            assert(g1[k].total == (if g.contains_key(k) {
                g[k].total
            } else {
                0
            }));
            assert(vf.total == 0 && g2[k].total == 0) by {
                if g.contains_key(k) {
                    assert(g[k].total == 0);
                }
            }
            assert(vf == g2[k]);
        } else {
            assert(g2[k].parent == Some(f.name));
            if g.contains_key(k) {
                assert(g1[k] == g[k]);
                assert(g2[k].weight == g[k].weight && g2[k].children == g[k].children);
                assert(g[k].total == 0 && g2[k].total == 0);
            } else {
                assert(g2[k].weight is None && g2[k].children == Seq::<Seq<char>>::empty()
                    && g2[k].total == 0);
            }
            assert(vf == g2[k]);
        }
    } else {
        lemma_attach_children_untouched(g1, f.name, f.children, k);
        if k == f.name {
            assert(g2[k] == g1[k]);
            assert(g1[k].weight == Some(f.weight) && g1[k].children == f.children);
            assert(g1[k].parent == (if g.contains_key(k) {
                g[k].parent
            } else {
                None
            }));
            assert(g1[k].total == (if g.contains_key(k) {
                g[k].total
            } else {
                0
            }));
            assert(vf.total == 0 && g2[k].total == 0) by {
                if g.contains_key(k) {
                    assert(g[k].total == 0);
                }
            }
            assert(vf == g2[k]);
        } else {
            assert(g2[k] == g[k]);
            assert(vf == g[k]);
        }
    }
}

/// Folding ingestion over the first `k` facts yields exactly the registry
/// those `k` facts describe.
pub proof fn lemma_run_graph(facts: Seq<FactV>, k: int)
    requires
        subjects_unique(facts),
        children_once(facts),
        0 <= k <= facts.len(),
    ensures
        run(facts, k).0 =~~= graph_of(facts.take(k)),
    decreases k,
{
    if k == 0 {
        assert forall|n: Seq<char>| !mentioned(facts.take(0), n) by {}
        assert(run(facts, 0).0 =~~= graph_of(facts.take(0)));
    } else {
        lemma_run_graph(facts, k - 1);
        let s = facts.take(k - 1);
        let f = facts[k - 1];
        assert(facts.take(k) =~= s.push(f));
        assert(subjects_unique(s.push(f))) by {
            assert forall|a: int, b: int|
                0 <= a < b < s.push(f).len() implies (#[trigger] s.push(f)[a]).name != (
            #[trigger] s.push(f)[b]).name by {
                assert(s.push(f)[a] == facts[a] && s.push(f)[b] == facts[b]);
            }
        }
        assert(children_once(s.push(f))) by {
            assert forall|i1: int, j1: int, i2: int, j2: int|
                0 <= i1 < s.push(f).len() && 0 <= j1 < s.push(f)[i1].children.len() && 0 <= i2 < s.push(
                    f,
                ).len() && 0 <= j2 < s.push(f)[i2].children.len() && (i1 != i2 || j1 != j2) implies #[trigger] s.push(
                f,
            )[i1].children[j1] != #[trigger] s.push(f)[i2].children[j2] by {
                assert(s.push(f)[i1] == facts[i1] && s.push(f)[i2] == facts[i2]);
            }
        }
        lemma_graph_of_push(s, f);
    }
}

/// Every link of a described registry points at a mentioned name, and a
/// prefix of a fact set describes a sub-registry of the whole: same
/// parents, fewer names.
proof fn lemma_prefix_subgraph(facts: Seq<FactV>, k: int, n: Seq<char>)
    requires
        subjects_unique(facts),
        children_once(facts),
        0 <= k <= facts.len(),
        graph_of(facts.take(k)).contains_key(n),
    ensures
        graph_of(facts).contains_key(n),
        graph_of(facts.take(k))[n].parent is Some ==> graph_of(facts)[n].parent == graph_of(
            facts.take(k),
        )[n].parent && graph_of(facts.take(k)).contains_key(
            graph_of(facts.take(k))[n].parent->0,
        ),
{
    let s = facts.take(k);
    assert(mentioned(facts, n)) by {
        if is_subject(s, n) {
            let i = subject_at(s, n);
            assert(facts[i].name == n);
            assert(is_subject(facts, n));
        }
        if is_listed(s, n) {
            let i = lister_at(s, n);
            let j = choose|j: int|
                0 <= j < (#[trigger] s[i]).children.len() && s[i].children[j] == n;
            assert(facts[i].children[j] == n);
            assert(is_listed(facts, n));
        }
    }
    if graph_of(s)[n].parent is Some {
        assert(is_listed(s, n));
        let i = lister_at(s, n);
        let j = choose|j: int| 0 <= j < (#[trigger] s[i]).children.len() && s[i].children[j] == n;
        assert(facts[i].children[j] == n);
        assert(is_listed(facts, n));
        let mi = lister_at(facts, n);
        let mj = choose|mj: int|
            0 <= mj < (#[trigger] facts[mi]).children.len() && facts[mi].children[mj] == n;
        assert(mi == i && mj == j);
        assert(graph_of(facts)[n].parent == Some(facts[i].name));
        assert(graph_of(s)[n].parent == Some(s[i].name));
        assert(is_subject(s, s[i].name));
        assert(mentioned(s, s[i].name));
    }
}

/// A walk that resolves in the whole registry resolves in any sub-registry
/// that keeps the same parents.
proof fn lemma_sub_resolve(facts: Seq<FactV>, k: int, n: Seq<char>, fl: nat)
    requires
        subjects_unique(facts),
        children_once(facts),
        0 <= k <= facts.len(),
        graph_of(facts.take(k)).contains_key(n),
        chain_root(graph_of(facts), n, fl) is Some,
    ensures
        chain_root(graph_of(facts.take(k)), n, fl) is Some,
    decreases fl,
{
    let gs = graph_of(facts.take(k));
    let gf = graph_of(facts);
    lemma_prefix_subgraph(facts, k, n);
    match gs[n].parent {
        None => {},
        Some(p) => {
            assert(gf[n].parent == Some(p));
            lemma_sub_resolve(facts, k, p, (fl - 1) as nat);
        },
    }
}

/// After any non-empty prefix of a well-formed fact set, the tracked root
/// is a registered, parentless program.
pub proof fn lemma_run_root_inv(facts: Seq<FactV>, k: int)
    requires
        wf_facts(facts),
        1 <= k <= facts.len(),
    ensures
        run(facts, k).1 is Some,
        run(facts, k).0.contains_key(run(facts, k).1->0),
        run(facts, k).0[run(facts, k).1->0].parent is None,
    decreases k,
{
    lemma_run_graph(facts, k);
    let gk = run(facts, k).0;
    let f = facts[k - 1];
    let s = facts.take(k);
    assert(s[k - 1] == f);
    assert(is_subject(s, f.name));
    assert(gk.contains_key(f.name));
    if k == 1 {
        lemma_no_self_listing(facts, 0);
        assert(run(facts, 1).1 == Some(f.name));
        assert(!is_listed(s, f.name)) by {
            if is_listed(s, f.name) {
                let i = choose|i: int|
                    0 <= i < s.len() && exists|j: int|
                        0 <= j < (#[trigger] s[i]).children.len() && s[i].children[j] == f.name;
                let j = choose|j: int|
                    0 <= j < (#[trigger] s[i]).children.len() && s[i].children[j] == f.name;
                assert(i == 0);
                assert(facts[0].children.contains(f.name));
            }
        }
        assert(gk[f.name].parent is None);
    } else {
        lemma_run_root_inv(facts, k - 1);
        lemma_run_graph(facts, k - 1);
        let r = run(facts, k - 1).1->0;
        let gp = run(facts, k - 1).0;
        if !f.children.contains(r) {
            assert(run(facts, k).1 == Some(r));
            assert(mentioned(facts.take(k - 1), r));
            assert(mentioned(s, r)) by {
                if is_subject(facts.take(k - 1), r) {
                    let i = subject_at(facts.take(k - 1), r);
                    assert(s[i].name == r);
                    assert(is_subject(s, r));
                } else {
                    let sp = facts.take(k - 1);
                    let i = lister_at(sp, r);
                    let j = choose|j: int|
                        0 <= j < (#[trigger] sp[i]).children.len() && sp[i].children[j] == r;
                    assert(s[i].children[j] == r);
                    assert(is_listed(s, r));
                }
            }
            assert(!is_listed(s, r)) by {
                if is_listed(s, r) {
                    let i = choose|i: int|
                        0 <= i < s.len() && exists|j: int|
                            0 <= j < (#[trigger] s[i]).children.len() && s[i].children[j] == r;
                    let j = choose|j: int|
                        0 <= j < (#[trigger] s[i]).children.len() && s[i].children[j] == r;
                    if i == k - 1 {
                        assert(f.children.contains(r));
                    } else {
                        assert(facts.take(k - 1)[i].children[j] == r);
                        assert(is_listed(facts.take(k - 1), r));
                        assert(gp[r].parent is Some);
                    }
                }
            }
            assert(gk[r].parent is None);
        } else {
            assert(mentioned(facts, f.name));
            assert(graph_of(facts).contains_key(f.name));
            let fl = choose|fl: nat| chain_root(graph_of(facts), f.name, fl) is Some;
            lemma_sub_resolve(facts, k, f.name, fl);
            assert(exists|fl2: nat| chain_root(gk, f.name, fl2) is Some);
            let fl2 = choose|fl2: nat| chain_root(gk, f.name, fl2) is Some;
            assert(run(facts, k).1 == chain_root(gk, f.name, fl2));
            lemma_chain_root_props(gk, f.name, fl2);
        }
    }
}

/// Two enumerations of one fact set describe the same registry.
proof fn lemma_graph_of_perm(f1: Seq<FactV>, f2: Seq<FactV>)
    requires
        f1.to_multiset() == f2.to_multiset(),
        subjects_unique(f1),
        children_once(f1),
        subjects_unique(f2),
        children_once(f2),
    ensures
        graph_of(f1) =~~= graph_of(f2),
{
    broadcast use vstd::seq_lib::group_to_multiset_ensures;

    assert forall|n: Seq<char>| #[trigger] graph_of(f1).contains_key(n) || graph_of(
        f2,
    ).contains_key(n) implies graph_of(f1).contains_key(n) && graph_of(f2).contains_key(n)
        && graph_of(f1)[n] == graph_of(f2)[n] by {
        lemma_graph_of_perm_key(f1, f2, n);
        lemma_graph_of_perm_key(f2, f1, n);
    }
}

/// One direction of the pointwise argument behind `lemma_graph_of_perm`.
proof fn lemma_graph_of_perm_key(f1: Seq<FactV>, f2: Seq<FactV>, n: Seq<char>)
    requires
        f1.to_multiset() == f2.to_multiset(),
        subjects_unique(f1),
        children_once(f1),
        subjects_unique(f2),
        children_once(f2),
    ensures
        mentioned(f1, n) ==> mentioned(f2, n) && graph_of(f1)[n] == graph_of(f2)[n],
{
    broadcast use vstd::seq_lib::group_to_multiset_ensures;

    if is_subject(f1, n) {
        let i = subject_at(f1, n);
        assert(f1.contains(f1[i]));
        assert(f1.to_multiset().count(f1[i]) > 0);
        assert(f2.to_multiset().count(f1[i]) > 0);
        assert(f2.contains(f1[i]));
        let i2 = choose|i2: int| 0 <= i2 < f2.len() && f2[i2] == f1[i];
        assert(is_subject(f2, n));
        let i3 = subject_at(f2, n);
        assert(f2[i3].name == n && f2[i2].name == n);
        assert(i3 == i2);
        assert(f2[i3] == f1[i]);
    }
    if is_listed(f1, n) {
        let i = lister_at(f1, n);
        let j = choose|j: int| 0 <= j < (#[trigger] f1[i]).children.len() && f1[i].children[j] == n;
        assert(f1.contains(f1[i]));
        assert(f1.to_multiset().count(f1[i]) > 0);
        assert(f2.to_multiset().count(f1[i]) > 0);
        assert(f2.contains(f1[i]));
        let i2 = choose|i2: int| 0 <= i2 < f2.len() && f2[i2] == f1[i];
        assert(f2[i2].children[j] == n);
        assert(is_listed(f2, n));
        let i3 = lister_at(f2, n);
        let j3 = choose|j3: int|
            0 <= j3 < (#[trigger] f2[i3]).children.len() && f2[i3].children[j3] == n;
        assert(i3 == i2 && j3 == j);
        assert(f2[i3].name == f1[i].name);
    }
    if mentioned(f1, n) {
        if !is_subject(f1, n) && is_subject(f2, n) {
            let i3 = subject_at(f2, n);
            assert(f2.contains(f2[i3]));
            assert(f2.to_multiset().count(f2[i3]) > 0);
            assert(f1.to_multiset().count(f2[i3]) > 0);
            assert(f1.contains(f2[i3]));
            let i = choose|i: int| 0 <= i < f1.len() && f1[i] == f2[i3];
            assert(f1[i].name == n);
            assert(false);
        }
        if !is_listed(f1, n) && is_listed(f2, n) {
            let i3 = lister_at(f2, n);
            let j3 = choose|j3: int|
                0 <= j3 < (#[trigger] f2[i3]).children.len() && f2[i3].children[j3] == n;
            assert(f2.contains(f2[i3]));
            assert(f2.to_multiset().count(f2[i3]) > 0);
            assert(f1.to_multiset().count(f2[i3]) > 0);
            assert(f1.contains(f2[i3]));
            let i = choose|i: int| 0 <= i < f1.len() && f1[i] == f2[i3];
            assert(f1[i].children[j3] == n);
            assert(false);
        }
    }
}

/// Ingesting a well-formed fact set gives the same registry and the same
/// root whatever the order the facts arrive in.
pub proof fn theorem_ingestion_order_irrelevant(f1: Seq<FactV>, f2: Seq<FactV>)
    requires
        f1.to_multiset() == f2.to_multiset(),
        wf_facts(f1),
        wf_facts(f2),
    ensures
        run(f1, f1.len() as int).0 == run(f2, f2.len() as int).0,
        run(f1, f1.len() as int).1 == run(f2, f2.len() as int).1,
{
    broadcast use vstd::seq_lib::group_to_multiset_ensures;

    let n1 = f1.len() as int;
    let n2 = f2.len() as int;
    lemma_run_graph(f1, n1);
    lemma_run_graph(f2, n2);
    assert(f1.take(n1) =~= f1);
    assert(f2.take(n2) =~= f2);
    lemma_graph_of_perm(f1, f2);
    assert(run(f1, n1).0 == run(f2, n2).0);

    assert(f2.len() > 0) by {
        assert(f1.to_multiset().len() == f2.to_multiset().len());
    }
    lemma_run_root_inv(f1, n1);
    lemma_run_root_inv(f2, n2);
    let r1 = run(f1, n1).1->0;
    let r2 = run(f2, n2).1->0;
    let r = choose|r: Seq<char>|
        #[trigger] mentioned(f1, r) && !is_listed(f1, r) && forall|n: Seq<char>|
            mentioned(f1, n) && !is_listed(f1, n) ==> n == r;
    assert(graph_of(f1).contains_key(r1) && graph_of(f1)[r1].parent is None);
    assert(graph_of(f1).contains_key(r2) && graph_of(f1)[r2].parent is None);
    assert(r1 == r) by {
        assert(mentioned(f1, r1) && !is_listed(f1, r1));
    }
    assert(r2 == r) by {
        assert(mentioned(f1, r2) && !is_listed(f1, r2));
    }
}

} // verus!
