use vstd::prelude::*;

verus! {

/// The rank of a binary64 bit pattern on the number line: patterns with the
/// sign bit clear rank by their magnitude, those with it set by its negative,
/// so that the two zeros rank alike and every finite number ranks as it
/// compares. Patterns that are not numbers rank beyond the infinities.
pub open spec fn order_key(bits: u64) -> int {
    if bits < 0x8000_0000_0000_0000 {
        bits as int
    } else {
        0x8000_0000_0000_0000 - bits
    }
}

/// Of two patterns the one that ranks lower, the first where they rank alike.
pub open spec fn lower_of(a: u64, b: u64) -> u64 {
    if order_key(a) <= order_key(b) {
        a
    } else {
        b
    }
}

/// Of two patterns the one that ranks higher, the first where they rank alike.
pub open spec fn upper_of(a: u64, b: u64) -> u64 {
    if order_key(a) >= order_key(b) {
        a
    } else {
        b
    }
}

/// The rank of a bit pattern on the number line.
pub fn key_of(bits: u64) -> (k: i64)
    ensures
        k == order_key(bits),
{
    if bits < 0x8000_0000_0000_0000 {
        bits as i64
    } else {
        let magnitude: u64 = bits - 0x8000_0000_0000_0000;
        0 - (magnitude as i64)
    }
}

/// Of two patterns the one that ranks lower, the first where they rank alike.
pub fn lower(a: u64, b: u64) -> (r: u64)
    ensures
        r == lower_of(a, b),
{
    if key_of(a) <= key_of(b) {
        a
    } else {
        b
    }
}

/// Of two patterns the one that ranks higher, the first where they rank alike.
pub fn upper(a: u64, b: u64) -> (r: u64)
    ensures
        r == upper_of(a, b),
{
    if key_of(a) >= key_of(b) {
        a
    } else {
        b
    }
}

/// An axis-aligned rectangle, its four bounds held as binary64 bit patterns.
#[derive(Clone, Copy, Debug, PartialEq, Eq, Structural)]
pub struct BoundingBox {
    pub min_x: u64,
    pub min_y: u64,
    pub max_x: u64,
    pub max_y: u64,
}

impl BoundingBox {
    /// The rectangle that holds the one point `(x, y)`.
    pub open spec fn spec_point(x: u64, y: u64) -> BoundingBox {
        BoundingBox { min_x: x, min_y: y, max_x: x, max_y: y }
    }

    /// `other` lies within `self`, bounds included.
    pub open spec fn spec_contains(self, other: BoundingBox) -> bool {
        &&& order_key(self.min_x) <= order_key(other.min_x)
        &&& order_key(self.min_y) <= order_key(other.min_y)
        &&& order_key(other.max_x) <= order_key(self.max_x)
        &&& order_key(other.max_y) <= order_key(self.max_y)
    }

    /// The two rectangles share a point, bounds included.
    pub open spec fn spec_intersects(self, other: BoundingBox) -> bool {
        &&& order_key(self.min_x) <= order_key(other.max_x)
        &&& order_key(self.min_y) <= order_key(other.max_y)
        &&& order_key(other.min_x) <= order_key(self.max_x)
        &&& order_key(other.min_y) <= order_key(self.max_y)
    }

    /// The least rectangle that holds both.
    pub open spec fn spec_union(self, other: BoundingBox) -> BoundingBox {
        BoundingBox {
            min_x: lower_of(self.min_x, other.min_x),
            min_y: lower_of(self.min_y, other.min_y),
            max_x: upper_of(self.max_x, other.max_x),
            max_y: upper_of(self.max_y, other.max_y),
        }
    }

    /// The box that holds the one point `(x, y)`.
    #[verifier::when_used_as_spec(spec_point)]
    pub fn point(x: u64, y: u64) -> (r: BoundingBox)
        ensures
            r == Self::spec_point(x, y),
    {
        BoundingBox { min_x: x, min_y: y, max_x: x, max_y: y }
    }

    /// Whether `other` lies within `self`, bounds included.
    #[verifier::when_used_as_spec(spec_contains)]
    pub fn contains(self, other: BoundingBox) -> (r: bool)
        ensures
            r == self.spec_contains(other),
    {
        key_of(self.min_x) <= key_of(other.min_x) && key_of(self.min_y) <= key_of(other.min_y)
            && key_of(other.max_x) <= key_of(self.max_x) && key_of(other.max_y) <= key_of(
            self.max_y,
        )
    }

    /// Whether the two boxes share a point, bounds included.
    #[verifier::when_used_as_spec(spec_intersects)]
    pub fn intersects(self, other: BoundingBox) -> (r: bool)
        ensures
            r == self.spec_intersects(other),
    {
        key_of(self.min_x) <= key_of(other.max_x) && key_of(self.min_y) <= key_of(other.max_y)
            && key_of(other.min_x) <= key_of(self.max_x) && key_of(other.min_y) <= key_of(
            self.max_y,
        )
    }

    /// The least box that holds both.
    #[verifier::when_used_as_spec(spec_union)]
    pub fn union(self, other: BoundingBox) -> (r: BoundingBox)
        ensures
            r == self.spec_union(other),
    {
        BoundingBox {
            min_x: lower(self.min_x, other.min_x),
            min_y: lower(self.min_y, other.min_y),
            max_x: upper(self.max_x, other.max_x),
            max_y: upper(self.max_y, other.max_y),
        }
    }
}

/// The union of two rectangles holds each of them.
pub proof fn lemma_union_contains(a: BoundingBox, b: BoundingBox)
    ensures
        a.union(b).contains(a),
        a.union(b).contains(b),
{
}

/// Containment is reflexive and transitive.
pub proof fn lemma_contains_transitive(a: BoundingBox, b: BoundingBox, c: BoundingBox)
    requires
        a.contains(b),
        b.contains(c),
    ensures
        a.contains(c),
        a.contains(a),
{
}

/// What meets a rectangle meets every rectangle that holds it.
pub proof fn lemma_intersects_grows(outer: BoundingBox, inner: BoundingBox, q: BoundingBox)
    requires
        outer.contains(inner),
        inner.intersects(q),
    ensures
        outer.intersects(q),
{
}

} // verus!
