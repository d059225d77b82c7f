use vstd::prelude::*;

use crate::key_part::{exact_key, lemma_wildcard_count_all_exact, wildcard_count, KeyPart};
use crate::prefix_tree_map::{distinct_key_parts, insert_sorted, sorted_desc, Node, PrefixTreeMap};

verus! {

/// One trie node during construction: the key part is absent exactly at the
/// root, the value slot is filled each time an insertion's path ends here,
/// and the children carry pairwise distinct key parts in no fixed order.
struct NodeBuilder<V> {
    key_part: Option<KeyPart>,
    value: Option<V>,
    children: Vec<NodeBuilder<V>>,
}

impl<V> NodeBuilder<V> {
    /// Structural invariant during construction: every child is keyed, the
    /// siblings' key parts are pairwise distinct, and each child is itself
    /// well-formed. Sibling order stays open until finalization.
    spec fn wf(self) -> bool
        decreases self,
    {
        &&& forall|t1: int, t2: int|
            0 <= t1 < t2 < self.children@.len() ==> (#[trigger] self.children@[t1]).key_part != (
            #[trigger] self.children@[t2]).key_part
        &&& forall|t: int|
            0 <= t < self.children@.len() ==> (#[trigger] self.children@[t]).key_part is Some
                && self.children@[t].wf()
    }

    /// The path `k` leads from this node to some node of the subtree.
    spec fn has_path(self, k: Seq<KeyPart>) -> bool
        decreases k.len(),
    {
        k.len() == 0 || exists|t: int|
            0 <= t < self.children@.len() && (#[trigger] self.children@[t]).key_part == Some(k[0])
                && self.children@[t].has_path(k.drop_first())
    }

    /// The path `k` leads from this node to a node whose value slot holds `v`.
    spec fn maps_to(self, k: Seq<KeyPart>, v: V) -> bool
        decreases k.len(),
    {
        if k.len() == 0 {
            self.value == Some(v)
        } else {
            exists|t: int|
                0 <= t < self.children@.len() && (#[trigger] self.children@[t]).key_part == Some(
                k[0]) && self.children@[t].maps_to(k.drop_first(), v)
        }
    }

    /// Create a fresh node holding one key part.
    fn new(key_part: KeyPart) -> (r: Self)
        ensures
            r.key_part == Some(key_part),
            r.value is None,
            r.children@.len() == 0,
            r.wf(),
    {
        Self { key_part: Some(key_part), value: None, children: Vec::new() }
    }
}

/// The prefix tree map builder: owns the construction tree and tracks the
/// largest number of wildcard parts seen in any single inserted key.
pub struct PrefixTreeMapBuilder<V> {
    root: NodeBuilder<V>,
    max_wildcard_depth: usize,
}

/// Splitting a key at its first part turns prefix testing into prefix
/// testing of the tails.
proof fn lemma_prefix_step(k: Seq<KeyPart>, s: Seq<KeyPart>)
    requires
        k.len() > 0,
        s.len() > 0,
        k[0] == s[0],
    ensures
        k.is_prefix_of(s) <==> k.drop_first().is_prefix_of(s.drop_first()),
{
    if k.is_prefix_of(s) {
        assert(k.drop_first() =~= s.drop_first().subrange(0, k.drop_first().len() as int));
    }
    if k.drop_first().is_prefix_of(s.drop_first()) {
        assert forall|t: int| 0 <= t < k.len() implies k[t] == s.subrange(0, k.len() as int)[t] by {
            if t > 0 {
                assert(k.drop_first()[t - 1] == s.drop_first().subrange(
                    0,
                    k.drop_first().len() as int,
                )[t - 1]);
            }
        }
        assert(k =~= s.subrange(0, k.len() as int));
    }
}

/// The finished siblings `done` stand in one-to-one correspondence with the
/// construction children of `full` from position `lo` on: every finished
/// sibling matches some construction child there, and every such child has
/// a finished counterpart.
#[verifier::opaque]
spec fn covered<V>(full: Seq<NodeBuilder<V>>, lo: int, done: Seq<Node<V>>) -> bool {
    &&& forall|u: int|
        0 <= u < done.len() ==> exists|t: int|
            lo <= t < full.len() && matches_builder(#[trigger] done[u], full[t])
    &&& forall|t: int|
        lo <= t < full.len() ==> exists|u: int|
            0 <= u < done.len() && matches_builder(done[u], #[trigger] full[t])
}

/// Index bookkeeping around taking the last child of a remaining prefix of
/// the construction children.
proof fn lemma_take_step<V>(full: Seq<NodeBuilder<V>>, m: int)
    requires
        0 <= m < full.len(),
    ensures
        full.take(m + 1).len() == m + 1,
        full.take(m + 1)[m] == full[m],
        full.take(m + 1).drop_last() =~= full.take(m),
        forall|t: int| 0 <= t < m ==> #[trigger] full.take(m)[t] == full[t],
{
    assert forall|t: int| 0 <= t < m implies #[trigger] full.take(m)[t] == full[t] by {
        assert(full.take(m)[t] == full[t]);
    }
    assert forall|t: int| 0 <= t < m implies full.take(m + 1).drop_last()[t] == full.take(m)[t] by {
        assert(full.take(m + 1)[t] == full[t]);
    }
}

/// One finished child enters the sorted sibling sequence: the
/// correspondence between finished and construction children, so far
/// covering the construction children past `m`, extends to cover `m`.
#[verifier::rlimit(100)]
proof fn lemma_finish_step<V>(
    full: Seq<NodeBuilder<V>>,
    m: int,
    fin: Node<V>,
    done_pre: Seq<Node<V>>,
    done_post: Seq<Node<V>>,
    j: int,
)
    requires
        0 <= m < full.len(),
        forall|t1: int, t2: int|
            0 <= t1 < t2 < full.len() ==> (#[trigger] full[t1]).key_part != (
            #[trigger] full[t2]).key_part,
        matches_builder(fin, full[m]),
        0 <= j <= done_pre.len(),
        done_post == done_pre.insert(j, fin),
        distinct_key_parts(done_pre),
        covered(full, m + 1, done_pre),
    ensures
        distinct_key_parts(done_post),
        covered(full, m, done_post),
{
    reveal(covered);
    done_pre.insert_ensures(j, fin);
    assert(done_post.len() == done_pre.len() + 1);
    // the new child's key part is new among the finished siblings
    assert forall|u: int| 0 <= u < done_pre.len() implies (#[trigger] done_pre[u]).key_part
        != fin.key_part by {
        reveal(matches_builder);
        let t = choose|t: int| m + 1 <= t < full.len() && matches_builder(done_pre[u], full[t]);
        assert(full[m].key_part != full[t].key_part);
    }
    assert forall|u1: int, u2: int| 0 <= u1 < u2 < done_post.len() implies (
    #[trigger] done_post[u1]).key_part != (#[trigger] done_post[u2]).key_part by {
        if u1 < j {
            assert(done_post[u1] == done_pre[u1]);
        } else if u1 == j {
            assert(done_post[u1] == fin);
        } else {
            assert(done_post[(u1 - 1) + 1] == done_pre[u1 - 1]);
        }
        if u2 < j {
            assert(done_post[u2] == done_pre[u2]);
        } else if u2 == j {
            assert(done_post[u2] == fin);
        } else {
            assert(done_post[(u2 - 1) + 1] == done_pre[u2 - 1]);
        }
    }
    assert forall|u: int| 0 <= u < done_post.len() implies exists|t: int|
        m <= t < full.len() && matches_builder(#[trigger] done_post[u], full[t]) by {
        if u == j {
            assert(done_post[u] == fin);
            assert(matches_builder(done_post[u], full[m]));
        } else {
            let u0 = if u < j { u } else { u - 1 };
            assert(done_post[u] == done_pre[u0]) by {
                if u > j {
                    assert(done_post[(u - 1) + 1] == done_pre[u - 1]);
                }
            }
            let t = choose|t: int|
                m + 1 <= t < full.len() && matches_builder(#[trigger] done_pre[u0], full[t]);
            assert(matches_builder(done_post[u], full[t]));
        }
    }
    assert forall|t: int| m <= t < full.len() implies exists|u: int|
        0 <= u < done_post.len() && matches_builder(done_post[u], #[trigger] full[t]) by {
        if t == m {
            assert(done_post[j] == fin);
            assert(matches_builder(done_post[j], full[t]));
        } else {
            let u = choose|u: int|
                0 <= u < done_pre.len() && matches_builder(done_pre[u], #[trigger] full[t]);
            let u2 = if u < j { u } else { u + 1 };
            assert(done_post[u2] == done_pre[u]) by {
                if u >= j {
                    assert(done_post[u + 1] == done_pre[u]);
                }
            }
            assert(matches_builder(done_post[u2], full[t]));
        }
    }
}

/// A correspondence that starts at the first construction child and has no
/// finished sibling covers no construction child at all.
proof fn lemma_covered_empty<V>(full: Seq<NodeBuilder<V>>, done: Seq<Node<V>>)
    requires
        covered(full, 0, done),
        done.len() == 0,
    ensures
        full.len() == 0,
{
    reveal(covered);
    if full.len() > 0 {
        let u = choose|u: int| 0 <= u < done.len() && matches_builder(done[u], full[0]);
    }
}

/// A childless finished node stands for a childless construction node.
proof fn lemma_assemble_none<V>(r: Node<V>, nb: NodeBuilder<V>)
    requires
        r.key_part == nb.key_part,
        r.value == nb.value,
        r.children is None,
        nb.children@.len() == 0,
    ensures
        matches_builder(r, nb),
{
    reveal(matches_builder);
    assert forall|k: Seq<KeyPart>|
        #![trigger r.has_path(k)]
        #![trigger nb.has_path(k)]
        r.has_path(k) <==> nb.has_path(k) by {}
    assert forall|k: Seq<KeyPart>, v: V|
        #![trigger r.maps_to(k, v)]
        #![trigger nb.maps_to(k, v)]
        r.maps_to(k, v) <==> nb.maps_to(k, v) by {}
}

/// A finished node whose sorted children each match one construction child,
/// and cover them all, carries exactly the construction node's paths and
/// bindings.
#[verifier::rlimit(100)]
proof fn lemma_assemble_some<V>(r: Node<V>, nb: NodeBuilder<V>, done: Seq<Node<V>>)
    requires
        r.key_part == nb.key_part,
        r.value == nb.value,
        r.children is Some,
        r.children->0@ == done,
        done.len() > 0,
        sorted_desc(done),
        distinct_key_parts(done),
        forall|u: int| 0 <= u < done.len() ==> (#[trigger] done[u]).key_part is Some,
        covered(nb.children@, 0, done),
    ensures
        matches_builder(r, nb),
{
    reveal(covered);
    reveal(matches_builder);
    let full = nb.children@;
    assert forall|u: int| 0 <= u < done.len() implies (#[trigger] done[u]).wf() by {
        let t = choose|t: int| 0 <= t < full.len() && matches_builder(done[u], full[t]);
    }
    assert(r.wf());
    assert forall|k: Seq<KeyPart>|
        #![trigger r.has_path(k)]
        #![trigger nb.has_path(k)]
        r.has_path(k) <==> nb.has_path(k) by {
        if k.len() > 0 {
            let rest = k.drop_first();
            if r.has_path(k) {
                let u = choose|u: int|
                    0 <= u < done.len() && (#[trigger] done[u]).key_part == Some(k[0])
                        && done[u].has_path(rest);
                let t = choose|t: int| 0 <= t < full.len() && matches_builder(done[u], full[t]);
                assert(full[t].key_part == Some(k[0]) && full[t].has_path(rest));
            }
            if nb.has_path(k) {
                let t = choose|t: int|
                    0 <= t < full.len() && (#[trigger] full[t]).key_part == Some(k[0])
                        && full[t].has_path(rest);
                let u = choose|u: int|
                    0 <= u < done.len() && matches_builder(done[u], #[trigger] full[t]);
                assert(done[u].key_part == Some(k[0]) && done[u].has_path(rest));
            }
        }
    }
    assert forall|k: Seq<KeyPart>, v: V|
        #![trigger r.maps_to(k, v)]
        #![trigger nb.maps_to(k, v)]
        r.maps_to(k, v) <==> nb.maps_to(k, v) by {
        if k.len() > 0 {
            let rest = k.drop_first();
            if r.maps_to(k, v) {
                let u = choose|u: int|
                    0 <= u < done.len() && (#[trigger] done[u]).key_part == Some(k[0])
                        && done[u].maps_to(rest, v);
                let t = choose|t: int| 0 <= t < full.len() && matches_builder(done[u], full[t]);
                assert(full[t].key_part == Some(k[0]) && full[t].maps_to(rest, v));
            }
            if nb.maps_to(k, v) {
                let t = choose|t: int|
                    0 <= t < full.len() && (#[trigger] full[t]).key_part == Some(k[0])
                        && full[t].maps_to(rest, v);
                let u = choose|u: int|
                    0 <= u < done.len() && matches_builder(done[u], #[trigger] full[t]);
                assert(done[u].key_part == Some(k[0]) && done[u].maps_to(rest, v));
            }
        }
    }
}

impl<V> PrefixTreeMapBuilder<V> {
    /// The construction tree is well-formed: the root carries no key part
    /// and sibling key parts are pairwise distinct everywhere.
    pub closed spec fn wf(self) -> bool {
        self.root.key_part is None && self.root.wf()
    }

    /// The path `k` is present in the construction tree.
    pub closed spec fn has_path(self, k: Seq<KeyPart>) -> bool {
        self.root.has_path(k)
    }

    /// The construction tree associates the value `v` with the path `k`.
    pub closed spec fn maps_to(self, k: Seq<KeyPart>, v: V) -> bool {
        self.root.maps_to(k, v)
    }

    /// The wildcard high-water mark, as a mathematical integer.
    pub closed spec fn depth(self) -> nat {
        self.max_wildcard_depth as nat
    }

    /// What one insertion does to the builder's abstraction: the prefixes of
    /// the key become present paths, the key itself now maps to exactly the
    /// given value, every other path keeps its bindings, and the wildcard
    /// high-water mark absorbs the key's wildcard count.
    pub open spec fn inserted(pre: Self, key: Seq<KeyPart>, value: V, post: Self) -> bool {
        &&& forall|k: Seq<KeyPart>|
            #![trigger post.has_path(k)]
            #![trigger pre.has_path(k)]
            post.has_path(k) <==> pre.has_path(k) || k.is_prefix_of(key)
        &&& forall|v2: V| #![trigger post.maps_to(key, v2)] post.maps_to(key, v2) <==> v2 == value
        &&& forall|k: Seq<KeyPart>, v2: V|
            #![trigger post.maps_to(k, v2)]
            #![trigger pre.maps_to(k, v2)]
            k != key ==> (post.maps_to(k, v2) <==> pre.maps_to(k, v2))
        &&& post.depth() == if wildcard_count(key) > pre.depth() {
            wildcard_count(key)
        } else {
            pre.depth()
        }
    }

    /// Create a new `PrefixTreeMapBuilder`: an empty tree whose only path is
    /// the empty one, with no value anywhere and a zero wildcard mark.
    pub fn new() -> (r: Self)
        ensures
            r.wf(),
            forall|k: Seq<KeyPart>| #![trigger r.has_path(k)] r.has_path(k) <==> k.len() == 0,
            forall|k: Seq<KeyPart>, v: V| !(#[trigger] r.maps_to(k, v)),
            r.depth() == 0,
    {
        let r = Self {
            root: NodeBuilder { key_part: None, value: None, children: Vec::new() },
            max_wildcard_depth: 0,
        };
        proof {
            assert forall|k: Seq<KeyPart>| #![trigger r.has_path(k)] r.has_path(k) <==> k.len()
                == 0 by {}
            assert forall|k: Seq<KeyPart>, v: V| !(#[trigger] r.maps_to(k, v)) by {}
        }
        r
    }

    /// Walks the key from position `i`, finding or creating one child per
    /// part, and sets the value slot where the key ends. Returns the rebuilt
    /// subtree; everything off the key's path is left as it was.
    fn insert_rec(node: NodeBuilder<V>, key: &Vec<KeyPart>, i: usize, value: V) -> (r: NodeBuilder<
        V,
    >)
        requires
            i <= key@.len(),
            node.wf(),
        ensures
            r.wf(),
            r.key_part == node.key_part,
            forall|k: Seq<KeyPart>|
                #![trigger r.has_path(k)]
                #![trigger node.has_path(k)]
                r.has_path(k) <==> node.has_path(k) || k.is_prefix_of(key@.skip(i as int)),
            forall|v2: V|
                #![trigger r.maps_to(key@.skip(i as int), v2)]
                r.maps_to(key@.skip(i as int), v2) <==> v2 == value,
            forall|k: Seq<KeyPart>, v2: V|
                #![trigger r.maps_to(k, v2)]
                #![trigger node.maps_to(k, v2)]
                k != key@.skip(i as int) ==> (r.maps_to(k, v2) <==> node.maps_to(k, v2)),
        decreases key@.len() - i,
    {
        let ghost suffix = key@.skip(i as int);
        if i == key.len() {
            let mut node = node;
            let ghost node0 = node;
            node.value = Some(value);
            proof {
                assert(suffix =~= Seq::<KeyPart>::empty());
                assert forall|k: Seq<KeyPart>|
                    #![trigger node.has_path(k)]
                    #![trigger node0.has_path(k)]
                    node.has_path(k) <==> node0.has_path(k) || k.is_prefix_of(suffix) by {
                    if k.is_prefix_of(suffix) {
                        assert(k.len() == 0);
                    }
                }
                assert forall|k: Seq<KeyPart>, v2: V|
                    #![trigger node.maps_to(k, v2)]
                    #![trigger node0.maps_to(k, v2)]
                    k != suffix implies (node.maps_to(k, v2) <==> node0.maps_to(k, v2)) by {
                    if k.len() == 0 {
                        assert(k =~= suffix);
                    }
                }
            }
            node
        } else {
            let kp = key[i];
            let mut node = node;
            let ghost node0 = node;
            let ghost cs = node.children@;
            proof {
                assert(suffix.len() > 0);
                assert(suffix[0] == kp);
                assert(suffix.drop_first() =~= key@.skip(i as int + 1));
            }
            let ghost tail = key@.skip(i as int + 1);
            let n = node.children.len();
            let mut j: usize = 0;
            let mut found = false;
            while j < n && !found
                invariant
                    node == node0,
                    cs == node0.children@,
                    n == cs.len(),
                    0 <= j <= n,
                    forall|t: int| 0 <= t < j ==> (#[trigger] cs[t]).key_part != Some(kp),
                    found ==> j < n && cs[j as int].key_part == Some(kp),
                decreases n - j + if found { 0int } else { 1int },
            {
                let hit = match node.children[j].key_part {
                    Some(ck) => ck == kp,
                    None => false,
                };
                if hit {
                    found = true;
                } else {
                    j += 1;
                }
            }
            let ghost jj = j as int;
            if found {
                let child = node.children.remove(j);
                let child2 = Self::insert_rec(child, key, i + 1, value);
                node.children.insert(j, child2);
                proof {
                    let csn = node.children@;
                    assert(csn =~= cs.update(jj, child2));
                    assert(cs[jj].key_part == Some(kp));
                    assert(child2.key_part == Some(kp));
                    // well-formedness: same keys, one child rebuilt
                    assert forall|t1: int, t2: int| 0 <= t1 < t2 < csn.len() implies (
                    #[trigger] csn[t1]).key_part != (#[trigger] csn[t2]).key_part by {
                        assert(csn[t1].key_part == cs[t1].key_part);
                        assert(csn[t2].key_part == cs[t2].key_part);
                    }
                    assert forall|t: int| 0 <= t < csn.len() implies (
                    #[trigger] csn[t]).key_part is Some && csn[t].wf() by {
                        if t != jj {
                            assert(cs[t].key_part is Some && cs[t].wf());
                        }
                    }
                    assert(node.wf());
                    // paths
                    assert forall|k: Seq<KeyPart>|
                        #![trigger node.has_path(k)]
                        #![trigger node0.has_path(k)]
                        node.has_path(k) <==> node0.has_path(k) || k.is_prefix_of(suffix) by {
                        if k.len() > 0 {
                            let rest = k.drop_first();
                            if k[0] == kp {
                                lemma_prefix_step(k, suffix);
                                // the one matching child is at jj on both sides
                                assert forall|t: int|
                                    0 <= t < cs.len() && (#[trigger] cs[t]).key_part == Some(kp)
                                        implies t == jj by {}
                                if node.has_path(k) {
                                    let t = choose|t: int|
                                        0 <= t < csn.len() && (#[trigger] csn[t]).key_part == Some(
                                        k[0]) && csn[t].has_path(rest);
                                    assert(t == jj);
                                    assert(child2.has_path(rest));
                                }
                                if node0.has_path(k) {
                                    let t = choose|t: int|
                                        0 <= t < cs.len() && (#[trigger] cs[t]).key_part == Some(
                                        k[0]) && cs[t].has_path(rest);
                                    assert(t == jj);
                                    assert(cs[jj].has_path(rest));
                                    assert(child2.has_path(rest));
                                    assert(csn[jj].key_part == Some(k[0]) && csn[jj].has_path(
                                    rest));
                                }
                                if rest.is_prefix_of(tail) {
                                    assert(child2.has_path(rest));
                                    assert(csn[jj].key_part == Some(k[0]) && csn[jj].has_path(
                                    rest));
                                }
                                if child2.has_path(rest) {
                                    assert(cs[jj].has_path(rest) || rest.is_prefix_of(tail));
                                    if cs[jj].has_path(rest) {
                                        assert(cs[jj].key_part == Some(k[0]) && cs[jj].has_path(
                                        rest));
                                        assert(node0.has_path(k));
                                    }
                                }
                            } else {
                                assert(!k.is_prefix_of(suffix)) by {
                                    if k.is_prefix_of(suffix) {
                                        assert(k[0] == suffix.subrange(0, k.len() as int)[0]);
                                    }
                                }
                                if node.has_path(k) {
                                    let t = choose|t: int|
                                        0 <= t < csn.len() && (#[trigger] csn[t]).key_part == Some(
                                        k[0]) && csn[t].has_path(rest);
                                    assert(t != jj);
                                    assert(cs[t].key_part == Some(k[0]) && cs[t].has_path(rest));
                                }
                                if node0.has_path(k) {
                                    let t = choose|t: int|
                                        0 <= t < cs.len() && (#[trigger] cs[t]).key_part == Some(
                                        k[0]) && cs[t].has_path(rest);
                                    assert(t != jj);
                                    assert(csn[t].key_part == Some(k[0]) && csn[t].has_path(rest));
                                }
                            }
                        }
                    }
                    // the key's own binding
                    assert forall|v2: V|
                        #![trigger node.maps_to(suffix, v2)]
                        node.maps_to(suffix, v2) <==> v2 == value by {
                        let rest = suffix.drop_first();
                        assert(rest == tail);
                        if node.maps_to(suffix, v2) {
                            let t = choose|t: int|
                                0 <= t < csn.len() && (#[trigger] csn[t]).key_part == Some(
                                suffix[0]) && csn[t].maps_to(rest, v2);
                            assert(csn[t].key_part == cs[t].key_part);
                            assert(t == jj);
                            assert(child2.maps_to(tail, v2));
                        }
                        if v2 == value {
                            assert(child2.maps_to(tail, v2));
                            assert(csn[jj].key_part == Some(suffix[0]) && csn[jj].maps_to(
                            rest, v2));
                        }
                    }
                    // all other bindings are kept
                    assert forall|k: Seq<KeyPart>, v2: V|
                        #![trigger node.maps_to(k, v2)]
                        #![trigger node0.maps_to(k, v2)]
                        k != suffix implies (node.maps_to(k, v2) <==> node0.maps_to(k, v2)) by {
                        if k.len() > 0 {
                            let rest = k.drop_first();
                            if k[0] == kp {
                                assert(rest != tail) by {
                                    if rest == tail {
                                        assert forall|t: int| 0 <= t < k.len() implies k[t]
                                            == suffix[t] by {
                                            if t > 0 {
                                                assert(k.drop_first()[t - 1]
                                                    == suffix.drop_first()[t - 1]);
                                            }
                                        }
                                        assert(k =~= suffix);
                                    }
                                }
                                if node.maps_to(k, v2) {
                                    let t = choose|t: int|
                                        0 <= t < csn.len() && (#[trigger] csn[t]).key_part == Some(
                                        k[0]) && csn[t].maps_to(rest, v2);
                                    assert(csn[t].key_part == cs[t].key_part);
                                    assert(t == jj);
                                    assert(child2.maps_to(rest, v2));
                                    assert(cs[jj].maps_to(rest, v2));
                                    assert(node0.maps_to(k, v2));
                                }
                                if node0.maps_to(k, v2) {
                                    let t = choose|t: int|
                                        0 <= t < cs.len() && (#[trigger] cs[t]).key_part == Some(
                                        k[0]) && cs[t].maps_to(rest, v2);
                                    assert(t == jj);
                                    assert(child2.maps_to(rest, v2));
                                    assert(csn[jj].key_part == Some(k[0]) && csn[jj].maps_to(
                                    rest, v2));
                                }
                            } else {
                                if node.maps_to(k, v2) {
                                    let t = choose|t: int|
                                        0 <= t < csn.len() && (#[trigger] csn[t]).key_part == Some(
                                        k[0]) && csn[t].maps_to(rest, v2);
                                    assert(t != jj);
                                    assert(cs[t].key_part == Some(k[0]) && cs[t].maps_to(rest, v2));
                                }
                                if node0.maps_to(k, v2) {
                                    let t = choose|t: int|
                                        0 <= t < cs.len() && (#[trigger] cs[t]).key_part == Some(
                                        k[0]) && cs[t].maps_to(rest, v2);
                                    assert(t != jj);
                                    assert(csn[t].key_part == Some(k[0]) && csn[t].maps_to(
                                    rest, v2));
                                }
                            }
                        }
                    }
                }
                node
            } else {
                let fresh = NodeBuilder::new(kp);
                let child2 = Self::insert_rec(fresh, key, i + 1, value);
                node.children.push(child2);
                proof {
                    let csn = node.children@;
                    assert(csn =~= cs.push(child2));
                    assert(forall|t: int| 0 <= t < cs.len() ==> (#[trigger] cs[t]).key_part != Some(
                    kp));
                    assert(child2.key_part == Some(kp));
                    assert forall|t1: int, t2: int| 0 <= t1 < t2 < csn.len() implies (
                    #[trigger] csn[t1]).key_part != (#[trigger] csn[t2]).key_part by {
                        if t2 == cs.len() {
                            assert(csn[t1] == cs[t1]);
                        } else {
                            assert(csn[t1] == cs[t1] && csn[t2] == cs[t2]);
                        }
                    }
                    assert forall|t: int| 0 <= t < csn.len() implies (
                    #[trigger] csn[t]).key_part is Some && csn[t].wf() by {
                        if t < cs.len() {
                            assert(cs[t].key_part is Some && cs[t].wf());
                        }
                    }
                    assert(node.wf());
                    // a fresh, empty child: its only old path is the empty one
                    assert forall|k2: Seq<KeyPart>| #[trigger] fresh.has_path(k2) implies k2.len()
                        == 0 by {}
                    assert forall|k2: Seq<KeyPart>, v2: V| !(#[trigger] fresh.maps_to(k2, v2)) by {}
                    // paths
                    assert forall|k: Seq<KeyPart>|
                        #![trigger node.has_path(k)]
                        #![trigger node0.has_path(k)]
                        node.has_path(k) <==> node0.has_path(k) || k.is_prefix_of(suffix) by {
                        if k.len() > 0 {
                            let rest = k.drop_first();
                            if k[0] == kp {
                                lemma_prefix_step(k, suffix);
                                assert(!node0.has_path(k)) by {
                                    if node0.has_path(k) {
                                        let t = choose|t: int|
                                            0 <= t < cs.len() && (#[trigger] cs[t]).key_part
                                                == Some(k[0]) && cs[t].has_path(rest);
                                        assert(cs[t].key_part != Some(kp));
                                    }
                                }
                                if node.has_path(k) {
                                    let t = choose|t: int|
                                        0 <= t < csn.len() && (#[trigger] csn[t]).key_part == Some(
                                        k[0]) && csn[t].has_path(rest);
                                    assert(t == cs.len());
                                    assert(child2.has_path(rest));
                                    assert(fresh.has_path(rest) || rest.is_prefix_of(tail));
                                    if fresh.has_path(rest) {
                                        assert(rest.len() == 0);
                                        assert(rest.is_prefix_of(tail));
                                    }
                                }
                                if rest.is_prefix_of(tail) {
                                    assert(child2.has_path(rest));
                                    assert(csn[cs.len() as int].key_part == Some(k[0])
                                        && csn[cs.len() as int].has_path(rest));
                                }
                            } else {
                                assert(!k.is_prefix_of(suffix)) by {
                                    if k.is_prefix_of(suffix) {
                                        assert(k[0] == suffix.subrange(0, k.len() as int)[0]);
                                    }
                                }
                                if node.has_path(k) {
                                    let t = choose|t: int|
                                        0 <= t < csn.len() && (#[trigger] csn[t]).key_part == Some(
                                        k[0]) && csn[t].has_path(rest);
                                    assert(t != cs.len());
                                    assert(cs[t].key_part == Some(k[0]) && cs[t].has_path(rest));
                                }
                                if node0.has_path(k) {
                                    let t = choose|t: int|
                                        0 <= t < cs.len() && (#[trigger] cs[t]).key_part == Some(
                                        k[0]) && cs[t].has_path(rest);
                                    assert(csn[t].key_part == Some(k[0]) && csn[t].has_path(rest));
                                }
                            }
                        }
                    }
                    // the key's own binding
                    assert forall|v2: V|
                        #![trigger node.maps_to(suffix, v2)]
                        node.maps_to(suffix, v2) <==> v2 == value by {
                        let rest = suffix.drop_first();
                        assert(rest == tail);
                        if node.maps_to(suffix, v2) {
                            let t = choose|t: int|
                                0 <= t < csn.len() && (#[trigger] csn[t]).key_part == Some(
                                suffix[0]) && csn[t].maps_to(rest, v2);
                            assert(t == cs.len());
                            assert(child2.maps_to(tail, v2));
                        }
                        if v2 == value {
                            assert(child2.maps_to(tail, v2));
                            assert(csn[cs.len() as int].key_part == Some(suffix[0])
                                && csn[cs.len() as int].maps_to(rest, v2));
                        }
                    }
                    // all other bindings are kept
                    assert forall|k: Seq<KeyPart>, v2: V|
                        #![trigger node.maps_to(k, v2)]
                        #![trigger node0.maps_to(k, v2)]
                        k != suffix implies (node.maps_to(k, v2) <==> node0.maps_to(k, v2)) by {
                        if k.len() > 0 {
                            let rest = k.drop_first();
                            if k[0] == kp {
                                assert(rest != tail) by {
                                    if rest == tail {
                                        assert forall|t: int| 0 <= t < k.len() implies k[t]
                                            == suffix[t] by {
                                            if t > 0 {
                                                assert(k.drop_first()[t - 1]
                                                    == suffix.drop_first()[t - 1]);
                                            }
                                        }
                                        assert(k =~= suffix);
                                    }
                                }
                                assert(!node0.maps_to(k, v2)) by {
                                    if node0.maps_to(k, v2) {
                                        let t = choose|t: int|
                                            0 <= t < cs.len() && (#[trigger] cs[t]).key_part
                                                == Some(k[0]) && cs[t].maps_to(rest, v2);
                                        assert(cs[t].key_part != Some(kp));
                                    }
                                }
                                if node.maps_to(k, v2) {
                                    let t = choose|t: int|
                                        0 <= t < csn.len() && (#[trigger] csn[t]).key_part == Some(
                                        k[0]) && csn[t].maps_to(rest, v2);
                                    assert(t == cs.len());
                                    assert(child2.maps_to(rest, v2));
                                    assert(fresh.maps_to(rest, v2) || rest == tail);
                                }
                            } else {
                                if node.maps_to(k, v2) {
                                    let t = choose|t: int|
                                        0 <= t < csn.len() && (#[trigger] csn[t]).key_part == Some(
                                        k[0]) && csn[t].maps_to(rest, v2);
                                    assert(t != cs.len());
                                    assert(cs[t].key_part == Some(k[0]) && cs[t].maps_to(rest, v2));
                                }
                                if node0.maps_to(k, v2) {
                                    let t = choose|t: int|
                                        0 <= t < cs.len() && (#[trigger] cs[t]).key_part == Some(
                                        k[0]) && cs[t].maps_to(rest, v2);
                                    assert(csn[t].key_part == Some(k[0]) && csn[t].maps_to(
                                    rest, v2));
                                }
                            }
                        }
                    }
                }
                node
            }
        }
    }

    /// Insert a new value into the prefix tree map.
    ///
    /// Key parts are marked by [`KeyPart`]. Inserting into an existing key
    /// path overwrites the value held there.
    pub fn insert(&mut self, key: &Vec<KeyPart>, value: V)
        requires
            old(self).wf(),
        ensures
            final(self).wf(),
            Self::inserted(*old(self), key@, value, *final(self)),
    {
        let mut wd: usize = 0;
        let mut j: usize = 0;
        let n = key.len();
        while j < n
            invariant
                0 <= j <= n,
                n == key@.len(),
                wd <= j,
                wd == wildcard_count(key@.take(j as int)),
            decreases n - j,
        {
            proof {
                assert(key@.take(j as int + 1).drop_last() =~= key@.take(j as int));
                assert(key@.take(j as int + 1).last() == key@[j as int]);
            }
            if key[j].is_wildcard() {
                wd += 1;
            }
            j += 1;
        }
        proof {
            assert(key@.take(n as int) =~= key@);
        }
        let mut root = NodeBuilder { key_part: None, value: None, children: Vec::new() };
        core::mem::swap(&mut self.root, &mut root);
        let root = Self::insert_rec(root, key, 0, value);
        self.root = root;
        if wd > self.max_wildcard_depth {
            self.max_wildcard_depth = wd;
        }
        proof {
            assert(key@.skip(0) =~= key@);
        }
    }

    /// Insert a new value in an exact key path: every element is wrapped as
    /// an exact key part, so the wildcard high-water mark is left unchanged.
    pub fn insert_exact(&mut self, key: &Vec<u64>, value: V)
        requires
            old(self).wf(),
        ensures
            final(self).wf(),
            Self::inserted(*old(self), exact_key(key@), value, *final(self)),
            final(self).depth() == old(self).depth(),
    {
        let mut kv: Vec<KeyPart> = Vec::new();
        let n = key.len();
        let mut j: usize = 0;
        while j < n
            invariant
                0 <= j <= n,
                n == key@.len(),
                kv@ == exact_key(key@.take(j as int)),
            decreases n - j,
        {
            kv.push(KeyPart::Exact(key[j]));
            proof {
                assert(kv@ =~= exact_key(key@.take(j as int + 1)));
            }
            j += 1;
        }
        proof {
            assert(key@.take(n as int) =~= key@);
            assert forall|t: int| 0 <= t < kv@.len() implies !(
            #[trigger] kv@[t]).spec_is_wildcard() by {}
            lemma_wildcard_count_all_exact(kv@);
        }
        self.insert(&kv, value);
    }

    /// Consumes one construction node: the children are finished
    /// recursively, then arranged in non-increasing priority order.
    #[verifier::rlimit(100)]
    fn node_builder_to_node(node_builder: NodeBuilder<V>) -> (r: Node<V>)
        requires
            node_builder.wf(),
        ensures
            matches_builder(r, node_builder),
            r.value == node_builder.value,
        decreases node_builder,
    {
        let ghost nb0 = node_builder;
        let NodeBuilder { key_part, value, mut children } = node_builder;
        let ghost n = nb0.children@.len() as int;
        let mut done: Vec<Node<V>> = Vec::new();
        proof {
            assert(children@ =~= nb0.children@.take(children@.len() as int));
            assert(covered(nb0.children@, n, done@)) by {
                reveal(covered);
            }
        }
        #[verifier::loop_isolation(false)]
        while children.len() > 0
            invariant
                children@ == nb0.children@.take(children@.len() as int),
                children@.len() <= n,
                sorted_desc(done@),
                forall|u: int| 0 <= u < done@.len() ==> (#[trigger] done@[u]).key_part is Some,
                distinct_key_parts(done@),
                covered(nb0.children@, children@.len() as int, done@),
            decreases children@.len(),
        {
            let ghost pre_children = children@;
            let child = children.pop().unwrap();
            let ghost m = children@.len() as int;
            proof {
                lemma_take_step(nb0.children@, m);
                assert(child == pre_children[m]);
                assert(child == nb0.children@[m]);
                assert(children@ =~= nb0.children@.take(m)) by {
                    assert(children@ =~= pre_children.drop_last());
                }
                assert(decreases_to!(nb0 => nb0.children));
                assert(decreases_to!(nb0.children => nb0.children@));
                assert(decreases_to!(nb0.children@ => nb0.children@[m]));
                assert(decreases_to!(nb0 => child));
                assert(child.wf());
            }
            let fin = Self::node_builder_to_node(child);
            proof {
                assert(fin.key_part is Some) by {
                    reveal(matches_builder);
                    assert(nb0.children@[m].key_part is Some);
                }
            }
            let ghost done_pre = done@;
            insert_sorted(&mut done, fin);
            proof {
                let j = choose|j: int| 0 <= j <= done_pre.len() && done@ == done_pre.insert(j, fin);
                lemma_finish_step(nb0.children@, m, fin, done_pre, done@, j);
            }
        }

        if done.len() == 0 {
            proof {
                assert(covered(nb0.children@, 0, done@));
                lemma_covered_empty(nb0.children@, done@);
            }
            let r = Node { key_part, value, children: None };
            proof {
                lemma_assemble_none(r, nb0);
            }
            r
        } else {
            let r = Node { key_part, value, children: Some(done) };
            proof {
                assert(r.children->0@ == done@);
                assert(covered(nb0.children@, 0, done@));
                lemma_assemble_some(r, nb0, done@);
            }
            r
        }
    }

    /// Build the prefix tree map: consumes the builder and yields the
    /// finished, immutable tree carrying the same paths and bindings, with
    /// every node's children sorted in non-increasing priority order, and
    /// the builder's wildcard high-water mark. The builder is gone after
    /// this call, so no later insertion or second build can exist.
    pub fn build(self) -> (r: PrefixTreeMap<V>)
        requires
            self.wf(),
        ensures
            r.wf(),
            forall|k: Seq<KeyPart>|
                #![trigger r.has_path(k)]
                #![trigger self.has_path(k)]
                r.has_path(k) <==> self.has_path(k),
            forall|k: Seq<KeyPart>, v: V|
                #![trigger r.maps_to(k, v)]
                #![trigger self.maps_to(k, v)]
                r.maps_to(k, v) <==> self.maps_to(k, v),
            r.depth() == self.depth(),
    {
        let PrefixTreeMapBuilder { root, max_wildcard_depth } = self;
        let root = Self::node_builder_to_node(root);
        proof {
            reveal(matches_builder);
        }
        PrefixTreeMap { root, max_wildcard_depth }
    }
}

/// The finished node `f` is well-formed and carries the same key part and
/// exactly the paths and bindings of the construction node `b`.
#[verifier::opaque]
spec fn matches_builder<V>(f: Node<V>, b: NodeBuilder<V>) -> bool {
    &&& f.key_part == b.key_part
    &&& f.value == b.value
    &&& f.wf()
    &&& forall|k: Seq<KeyPart>|
        #![trigger f.has_path(k)]
        #![trigger b.has_path(k)]
        f.has_path(k) <==> b.has_path(k)
    &&& forall|k: Seq<KeyPart>, v: V|
        #![trigger f.maps_to(k, v)]
        #![trigger b.maps_to(k, v)]
        f.maps_to(k, v) <==> b.maps_to(k, v)
}

impl<V> Default for PrefixTreeMapBuilder<V> {
    /// Same as [`PrefixTreeMapBuilder::new`].
    fn default() -> (r: Self)
        ensures
            r.wf(),
            forall|k: Seq<KeyPart>| #![trigger r.has_path(k)] r.has_path(k) <==> k.len() == 0,
            forall|k: Seq<KeyPart>, v: V| !(#[trigger] r.maps_to(k, v)),
            r.depth() == 0,
    {
        Self::new()
    }
}

} // verus!
