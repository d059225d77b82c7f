use vstd::prelude::*;

verus! {

/// One atomic segment of a composite key: either an exact token or a
/// weighted wildcard.
///
/// The fixed priority policy: every `Exact` part outranks every `Wildcard`
/// part, and within a category parts rank by their payload's numeric order
/// (a larger payload outranks a smaller one). This single order drives
/// sibling uniqueness during insertion, sibling order at finalization, and
/// the traversal order of any matcher that consumes the finished tree.
#[derive(Clone, Copy, Debug, PartialEq, Eq, Structural)]
pub enum KeyPart {
    Exact(u64),
    Wildcard(u64),
}

impl KeyPart {
    /// True exactly on the wildcard category.
    pub open spec fn spec_is_wildcard(&self) -> bool {
        match *self {
            KeyPart::Wildcard(_) => true,
            KeyPart::Exact(_) => false,
        }
    }

    /// Reports whether this part is a wildcard.
    #[verifier::when_used_as_spec(spec_is_wildcard)]
    pub fn is_wildcard(&self) -> (r: bool)
        ensures
            r == self.spec_is_wildcard(),
    {
        match *self {
            KeyPart::Wildcard(_) => true,
            KeyPart::Exact(_) => false,
        }
    }
}

/// `a` ranks strictly below `b` in the priority order: wildcards rank below
/// exact parts, and within one category the smaller payload ranks below the
/// larger. This is a strict total order on key parts.
pub open spec fn below(a: KeyPart, b: KeyPart) -> bool {
    match (a, b) {
        (KeyPart::Wildcard(wa), KeyPart::Wildcard(wb)) => wa < wb,
        (KeyPart::Wildcard(_), KeyPart::Exact(_)) => true,
        (KeyPart::Exact(_), KeyPart::Wildcard(_)) => false,
        (KeyPart::Exact(ea), KeyPart::Exact(eb)) => ea < eb,
    }
}

/// Decides the priority order between two key parts.
pub fn is_below(a: KeyPart, b: KeyPart) -> (r: bool)
    ensures
        r == below(a, b),
{
    match (a, b) {
        (KeyPart::Wildcard(wa), KeyPart::Wildcard(wb)) => wa < wb,
        (KeyPart::Wildcard(_), KeyPart::Exact(_)) => true,
        (KeyPart::Exact(_), KeyPart::Wildcard(_)) => false,
        (KeyPart::Exact(ea), KeyPart::Exact(eb)) => ea < eb,
    }
}

/// Number of wildcard-category parts in a key.
pub open spec fn wildcard_count(k: Seq<KeyPart>) -> nat
    decreases k.len(),
{
    if k.len() == 0 {
        0
    } else {
        wildcard_count(k.drop_last()) + if k.last().spec_is_wildcard() {
            1nat
        } else {
            0nat
        }
    }
}

/// The key whose parts wrap each element of `s` as an exact token.
pub open spec fn exact_key(s: Seq<u64>) -> Seq<KeyPart> {
    s.map_values(|e: u64| KeyPart::Exact(e))
}

/// A key made of exact parts alone contains no wildcard.
pub proof fn lemma_wildcard_count_all_exact(k: Seq<KeyPart>)
    requires
        forall|i: int| 0 <= i < k.len() ==> !(#[trigger] k[i]).spec_is_wildcard(),
    ensures
        wildcard_count(k) == 0,
    decreases k.len(),
{
    if k.len() > 0 {
        lemma_wildcard_count_all_exact(k.drop_last());
    }
}

} // verus!
