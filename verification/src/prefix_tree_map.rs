use vstd::prelude::*;

use crate::key_part::{below, is_below, KeyPart};

verus! {

/// One node of the finished tree. The key part is absent exactly at the
/// root; the children, when present, form a non-empty sequence sorted in
/// non-increasing priority order with pairwise distinct key parts.
pub struct Node<V> {
    pub key_part: Option<KeyPart>,
    pub value: Option<V>,
    pub children: Option<Vec<Node<V>>>,
}

/// The finished, immutable prefix tree: the root node plus the largest
/// number of wildcard parts seen in any one inserted key.
pub struct PrefixTreeMap<V> {
    pub root: Node<V>,
    pub max_wildcard_depth: usize,
}

/// No two nodes of the sequence carry the same key part.
pub open spec fn distinct_key_parts<V>(cs: Seq<Node<V>>) -> bool {
    forall|t1: int, t2: int|
        0 <= t1 < t2 < cs.len() ==> (#[trigger] cs[t1]).key_part != (#[trigger] cs[t2]).key_part
}

/// The sequence is sorted in non-increasing priority order: no node
/// outranks a node that stands before it.
pub open spec fn sorted_desc<V>(cs: Seq<Node<V>>) -> bool {
    forall|t1: int, t2: int|
        0 <= t1 < t2 < cs.len() ==> !below(
            (#[trigger] cs[t1]).key_part->0,
            (#[trigger] cs[t2]).key_part->0,
        )
}

impl<V> Node<V> {
    /// Structural invariant of a finished node: children, when present, are
    /// non-empty, all keyed, pairwise distinct, sorted in non-increasing
    /// priority order, and themselves well-formed.
    pub open spec fn wf(self) -> bool
        decreases self,
    {
        match self.children {
            Option::None => true,
            Option::Some(cs) => {
                &&& cs@.len() > 0
                &&& distinct_key_parts(cs@)
                &&& sorted_desc(cs@)
                &&& forall|t: int|
                    0 <= t < cs@.len() ==> (#[trigger] cs@[t]).key_part is Some && cs@[t].wf()
            },
        }
    }

    /// The path `k` leads from this node to some node of the tree.
    pub open spec fn has_path(self, k: Seq<KeyPart>) -> bool
        decreases k.len(),
    {
        k.len() == 0 || match self.children {
            Option::None => false,
            Option::Some(cs) => exists|t: int|
                0 <= t < cs@.len() && (#[trigger] cs@[t]).key_part == Some(k[0])
                    && cs@[t].has_path(k.drop_first()),
        }
    }

    /// The path `k` leads from this node to a node whose value slot holds `v`.
    pub open spec fn maps_to(self, k: Seq<KeyPart>, v: V) -> bool
        decreases k.len(),
    {
        if k.len() == 0 {
            self.value == Some(v)
        } else {
            match self.children {
                Option::None => false,
                Option::Some(cs) => exists|t: int|
                    0 <= t < cs@.len() && (#[trigger] cs@[t]).key_part == Some(k[0])
                        && cs@[t].maps_to(k.drop_first(), v),
            }
        }
    }
}

impl<V> PrefixTreeMap<V> {
    /// The tree is well-formed: the root carries no key part and every
    /// node's children are sorted and distinct.
    pub open spec fn wf(self) -> bool {
        self.root.key_part is None && self.root.wf()
    }

    /// The path `k` is present in the tree.
    pub open spec fn has_path(self, k: Seq<KeyPart>) -> bool {
        self.root.has_path(k)
    }

    /// The tree associates the value `v` with the path `k`.
    pub open spec fn maps_to(self, k: Seq<KeyPart>, v: V) -> bool {
        self.root.maps_to(k, v)
    }

    /// The recorded maximum wildcard depth, as a mathematical integer.
    pub open spec fn depth(self) -> nat {
        self.max_wildcard_depth as nat
    }
}

/// Places `x` into the sorted sequence of finished siblings, keeping the
/// non-increasing priority order. The result is the old sequence with `x`
/// inserted at one position.
pub(crate) fn insert_sorted<V>(out: &mut Vec<Node<V>>, x: Node<V>)
    requires
        sorted_desc(old(out)@),
        x.key_part is Some,
        forall|t: int| 0 <= t < old(out)@.len() ==> (#[trigger] old(out)@[t]).key_part is Some,
    ensures
        exists|j: int| 0 <= j <= old(out)@.len() && final(out)@ == old(out)@.insert(j, x),
        sorted_desc(final(out)@),
        forall|t: int| 0 <= t < final(out)@.len() ==> (#[trigger] final(out)@[t]).key_part is Some,
{
    let xk = x.key_part.unwrap();
    let ghost x0 = x;
    let n = out.len();
    let mut j: usize = 0;
    let mut stop = false;
    while j < n && !stop
        invariant
            n == out@.len(),
            0 <= j <= n,
            x == x0,
            sorted_desc(out@),
            forall|t: int| 0 <= t < n ==> (#[trigger] out@[t]).key_part is Some,
            xk == x0.key_part->0,
            forall|t: int| 0 <= t < j ==> !below((#[trigger] out@[t]).key_part->0, xk),
            stop ==> j < n && below(out@[j as int].key_part->0, xk),
        decreases n - j + if stop { 0int } else { 1int },
    {
        let ck = out[j].key_part.unwrap();
        if is_below(ck, xk) {
            stop = true;
        } else {
            j += 1;
        }
    }
    let ghost pre = out@;
    let ghost jj = j as int;
    out.insert(j, x);
    proof {
        assert(out@ == pre.insert(jj, x0));
        assert forall|t1: int, t2: int| 0 <= t1 < t2 < out@.len() implies !below(
            (#[trigger] out@[t1]).key_part->0,
            (#[trigger] out@[t2]).key_part->0,
        ) by {
            // Relate positions in the new sequence to the old one around jj.
            assert(out@.len() == pre.len() + 1);
            if t1 < jj {
                assert(out@[t1] == pre[t1]);
            } else if t1 == jj {
                assert(out@[t1] == x0);
            } else {
                assert(out@[t1] == pre[t1 - 1]);
            }
            if t2 < jj {
                assert(out@[t2] == pre[t2]);
            } else if t2 == jj {
                assert(out@[t2] == x0);
            } else {
                assert(out@[t2] == pre[t2 - 1]);
            }
            if t2 == jj {
                // t1 < jj: the scan passed t1 without finding a lower-ranked part.
                assert(!below(pre[t1].key_part->0, xk));
            } else if t1 == jj {
                // t2 > jj: the element now at t2 sat at t2 - 1 >= jj in the old
                // sequence; jj stopped the scan, so pre[jj] is below x, and
                // sortedness pushes every later element below x as well.
                if jj < pre.len() {
                    assert(below(pre[jj].key_part->0, xk));
                    if t2 - 1 > jj {
                        assert(!below(pre[jj].key_part->0, pre[t2 - 1].key_part->0));
                    }
                }
            }
        }
        assert(forall|t: int| 0 <= t < out@.len() ==> (#[trigger] out@[t]).key_part is Some);
    }
}

} // verus!
