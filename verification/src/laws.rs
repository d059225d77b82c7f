use vstd::prelude::*;

use crate::builder::PrefixTreeMapBuilder;
use crate::key_part::KeyPart;

verus! {

/// Overwrite idempotence: inserting the same key twice, first with `v1` and
/// then with `v2`, leaves the tree's set of paths exactly as the first
/// insertion left it — the second insertion creates no node — and the key
/// maps to `v2` alone, while every other path keeps its bindings.
pub proof fn lemma_overwrite_idempotent<V>(
    b0: PrefixTreeMapBuilder<V>,
    key: Seq<KeyPart>,
    v1: V,
    v2: V,
    b1: PrefixTreeMapBuilder<V>,
    b2: PrefixTreeMapBuilder<V>,
)
    requires
        PrefixTreeMapBuilder::inserted(b0, key, v1, b1),
        PrefixTreeMapBuilder::inserted(b1, key, v2, b2),
    ensures
        forall|k: Seq<KeyPart>| #[trigger] b2.has_path(k) <==> b1.has_path(k),
        forall|v: V| #[trigger] b2.maps_to(key, v) <==> v == v2,
        forall|k: Seq<KeyPart>, v: V|
            k != key ==> (#[trigger] b2.maps_to(k, v) <==> b1.maps_to(k, v)),
        b2.depth() == b1.depth(),
{
}

/// Shape order-independence: inserting two keys in either order yields the
/// same set of paths and the same wildcard mark; when the keys differ, every
/// binding agrees as well, so the two trees carry the same map.
pub proof fn lemma_insert_order_independent<V>(
    b0: PrefixTreeMapBuilder<V>,
    k1: Seq<KeyPart>,
    v1: V,
    k2: Seq<KeyPart>,
    v2: V,
    b12a: PrefixTreeMapBuilder<V>,
    b12: PrefixTreeMapBuilder<V>,
    b21a: PrefixTreeMapBuilder<V>,
    b21: PrefixTreeMapBuilder<V>,
)
    requires
        PrefixTreeMapBuilder::inserted(b0, k1, v1, b12a),
        PrefixTreeMapBuilder::inserted(b12a, k2, v2, b12),
        PrefixTreeMapBuilder::inserted(b0, k2, v2, b21a),
        PrefixTreeMapBuilder::inserted(b21a, k1, v1, b21),
    ensures
        forall|k: Seq<KeyPart>| #[trigger] b12.has_path(k) <==> b21.has_path(k),
        b12.depth() == b21.depth(),
        k1 != k2 ==> forall|k: Seq<KeyPart>, v: V|
            #[trigger] b12.maps_to(k, v) <==> b21.maps_to(k, v),
{
    assert forall|k: Seq<KeyPart>| #[trigger] b12.has_path(k) <==> b21.has_path(k) by {
        assert(b12.has_path(k) <==> b0.has_path(k) || k.is_prefix_of(k1) || k.is_prefix_of(k2));
        assert(b21.has_path(k) <==> b0.has_path(k) || k.is_prefix_of(k2) || k.is_prefix_of(k1));
    }
    if k1 != k2 {
        assert forall|k: Seq<KeyPart>, v: V| #[trigger] b12.maps_to(k, v) <==> b21.maps_to(
            k,
            v,
        ) by {
            if k == k1 {
                assert(b12.maps_to(k, v) <==> b12a.maps_to(k1, v));
                assert(b21.maps_to(k1, v) <==> v == v1);
            } else if k == k2 {
                assert(b12.maps_to(k2, v) <==> v == v2);
                assert(b21.maps_to(k, v) <==> b21a.maps_to(k2, v));
            } else {
                assert(b12.maps_to(k, v) <==> b12a.maps_to(k, v));
                assert(b12a.maps_to(k, v) <==> b0.maps_to(k, v));
                assert(b21.maps_to(k, v) <==> b21a.maps_to(k, v));
                assert(b21a.maps_to(k, v) <==> b0.maps_to(k, v));
            }
        }
    }
}

} // verus!
