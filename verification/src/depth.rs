use vstd::prelude::*;

verus! {

/// The mathematical content of a depth: `base + rank / count`.
pub struct DepthValue {
    /// The start of the band.
    pub base: int,
    /// The numerator of the fraction of the band.
    pub rank: nat,
    /// The denominator of the fraction of the band.
    pub count: nat,
}

impl DepthValue {
    /// The fraction lies in `[0, 1)`.
    pub open spec fn well_formed(self) -> bool {
        self.rank < self.count
    }

    /// The depth times `count`.
    pub open spec fn numerator(self) -> int {
        self.base * self.count + self.rank
    }

    /// `self < other` as rational numbers.
    pub open spec fn below(self, other: DepthValue) -> bool {
        self.numerator() * other.count < other.numerator() * self.count
    }

    /// `self == other` as rational numbers.
    pub open spec fn same_depth(self, other: DepthValue) -> bool {
        self.numerator() * other.count == other.numerator() * self.count
    }

    /// The depth lies in the band `[band, band + 1)`.
    pub open spec fn in_band(self, band: int) -> bool {
        band * self.count <= self.numerator() < (band + 1) * self.count
    }
}

/// A well-formed depth lies in the band of its base, and in no other.
pub proof fn lemma_band_is_base(d: DepthValue, band: int)
    requires
        d.well_formed(),
    ensures
        d.in_band(band) <==> band == d.base,
{
    let c = d.count as int;
    let r = d.rank as int;
    assert(d.in_band(d.base)) by (nonlinear_arith)
        requires
            d.numerator() == d.base * c + r,
            0 <= r < c,
            d.in_band(d.base) == (d.base * c <= d.numerator() < (d.base + 1) * c),
    ;
    if band < d.base {
        assert((band + 1) * c <= d.base * c) by (nonlinear_arith)
            requires
                band + 1 <= d.base,
                0 < c,
        ;
    }
    if band > d.base {
        assert((d.base + 1) * c <= band * c) by (nonlinear_arith)
            requires
                d.base + 1 <= band,
                0 < c,
        ;
        assert((d.base + 1) * c == d.base * c + c) by (nonlinear_arith);
    }
}

/// Depths are ordered first by base, then by fraction.
pub proof fn lemma_below_by_parts(a: DepthValue, b: DepthValue)
    requires
        a.well_formed(),
        b.well_formed(),
    ensures
        a.below(b) <==> (a.base < b.base || (a.base == b.base && a.rank * b.count < b.rank
            * a.count)),
        a.same_depth(b) <==> (a.base == b.base && a.rank * b.count == b.rank * a.count),
{
    let ca = a.count as int;
    let cb = b.count as int;
    let ra = a.rank as int;
    let rb = b.rank as int;
    let lhs = a.numerator() * cb;
    let rhs = b.numerator() * ca;
    assert(lhs == a.base * (ca * cb) + ra * cb) by (nonlinear_arith)
        requires
            lhs == (a.base * ca + ra) * cb,
    ;
    assert(rhs == b.base * (ca * cb) + rb * ca) by (nonlinear_arith)
        requires
            rhs == (b.base * cb + rb) * ca,
    ;
    assert(0 <= ra * cb < ca * cb) by (nonlinear_arith)
        requires
            0 <= ra < ca,
            0 < cb,
    ;
    assert(0 <= rb * ca < ca * cb) by (nonlinear_arith)
        requires
            0 <= rb < cb,
            0 < ca,
    ;
    if a.base < b.base {
        assert(a.base * (ca * cb) + ca * cb <= b.base * (ca * cb)) by (nonlinear_arith)
            requires
                a.base + 1 <= b.base,
                0 < ca * cb,
        ;
    }
    if b.base < a.base {
        assert(b.base * (ca * cb) + ca * cb <= a.base * (ca * cb)) by (nonlinear_arith)
            requires
                b.base + 1 <= a.base,
                0 < ca * cb,
        ;
    }
}

/// Depths are strictly and totally ordered as numbers: no depth is below
/// itself, of two depths one is below the other or they are the same
/// number, and the order carries over a depth in between.
pub proof fn lemma_depths_are_ordered(a: DepthValue, b: DepthValue, c: DepthValue)
    requires
        a.well_formed(),
        b.well_formed(),
        c.well_formed(),
    ensures
        !a.below(a),
        a.below(b) || b.below(a) || a.same_depth(b),
        !(a.below(b) && b.below(a)),
        a.below(b) ==> !a.same_depth(b),
        a.below(b) && b.below(c) ==> a.below(c),
        a.same_depth(b) && b.same_depth(c) ==> a.same_depth(c),
        a.same_depth(b) && b.below(c) ==> a.below(c),
        a.below(b) && b.same_depth(c) ==> a.below(c),
{
    let na = a.numerator();
    let nb = b.numerator();
    let nc = c.numerator();
    let ca = a.count as int;
    let cb = b.count as int;
    let cc = c.count as int;
    if na * cb <= nb * ca && nb * cc <= nc * cb {
        assert(na * cb * cc <= nb * ca * cc) by (nonlinear_arith)
            requires
                na * cb <= nb * ca,
                0 < cc,
        ;
        assert(nb * ca * cc <= nc * cb * ca) by (nonlinear_arith)
            requires
                nb * cc <= nc * cb,
                0 < ca,
        ;
        assert(na * cc <= nc * ca) by (nonlinear_arith)
            requires
                na * cb * cc <= nc * cb * ca,
                0 < cb,
        ;
        if na * cb < nb * ca {
            assert(na * cb * cc < nb * ca * cc) by (nonlinear_arith)
                requires
                    na * cb < nb * ca,
                    0 < cc,
            ;
            assert(na * cc < nc * ca) by (nonlinear_arith)
                requires
                    na * cb * cc < nc * cb * ca,
                    0 < cb,
            ;
        }
        if nb * cc < nc * cb {
            assert(nb * ca * cc < nc * cb * ca) by (nonlinear_arith)
                requires
                    nb * cc < nc * cb,
                    0 < ca,
            ;
            assert(na * cc < nc * ca) by (nonlinear_arith)
                requires
                    na * cb * cc < nc * cb * ca,
                    0 < cb,
            ;
        }
    }
    if na * cb == nb * ca && nb * cc == nc * cb {
        assert(na * cb * cc == nc * cb * ca) by (nonlinear_arith)
            requires
                na * cb == nb * ca,
                nb * cc == nc * cb,
        ;
        assert(na * cc == nc * ca) by (nonlinear_arith)
            requires
                na * cb * cc == nc * cb * ca,
                0 < cb,
        ;
    }
}

/// The depth at which an entity is drawn.
///
/// It is kept exactly, as the start of a layer's band and a fraction of one
/// band: `base + rank / count`, with `rank < count`.
#[derive(Clone, Copy, Debug)]
pub struct RenderZCoordinate {
    base: i32,
    rank: usize,
    count: usize,
}

impl View for RenderZCoordinate {
    type V = DepthValue;

    closed spec fn view(&self) -> DepthValue {
        DepthValue { base: self.base as int, rank: self.rank as nat, count: self.count as nat }
    }
}

impl RenderZCoordinate {
    #[verifier::type_invariant]
    spec fn fraction_below_one(self) -> bool {
        self.rank < self.count
    }

    /// The depth `base + rank / count`.
    pub fn new(base: i32, rank: usize, count: usize) -> (z: Self)
        requires
            rank < count,
        ensures
            z@ == (DepthValue { base: base as int, rank: rank as nat, count: count as nat }),
    {
        RenderZCoordinate { base, rank, count }
    }

    /// The depth at the very start of the band that begins at `base`.
    pub fn at_base(base: i32) -> (z: Self)
        ensures
            z@ == (DepthValue { base: base as int, rank: 0, count: 1 }),
    {
        RenderZCoordinate { base, rank: 0, count: 1 }
    }

    /// The start of the band in which the depth lies.
    pub fn base(&self) -> (base: i32)
        ensures
            base == self@.base,
    {
        self.base
    }

    /// The numerator of the fraction.
    pub fn rank(&self) -> (rank: usize)
        ensures
            rank == self@.rank,
            rank < self@.count,
    {
        proof {
            use_type_invariant(self);
        }
        self.rank
    }

    /// The denominator of the fraction.
    pub fn count(&self) -> (count: usize)
        ensures
            count == self@.count,
            count > 0,
    {
        proof {
            use_type_invariant(self);
        }
        self.count
    }

    /// Whether this depth is strictly smaller than `other`.
    pub fn is_below(&self, other: &RenderZCoordinate) -> (below: bool)
        ensures
            below == self@.below(other@),
    {
        proof {
            use_type_invariant(self);
            use_type_invariant(other);
            lemma_below_by_parts(self@, other@);
        }
        if self.base != other.base {
            self.base < other.base
        } else {
            cross_product(self.rank, other.count) < cross_product(other.rank, self.count)
        }
    }

    /// Whether this depth and `other` are the same number.
    pub fn is_same_depth(&self, other: &RenderZCoordinate) -> (same: bool)
        ensures
            same == self@.same_depth(other@),
    {
        proof {
            use_type_invariant(self);
            use_type_invariant(other);
            lemma_below_by_parts(self@, other@);
        }
        self.base == other.base && cross_product(self.rank, other.count) == cross_product(
            other.rank,
            self.count,
        )
    }
}

/// The product of two sizes, which always fits.
fn cross_product(a: usize, b: usize) -> (p: u128)
    ensures
        p == a * b,
{
    assert(a * b <= 0xffff_ffff_ffff_ffff * 0xffff_ffff_ffff_ffff) by (nonlinear_arith)
        requires
            0 <= a <= 0xffff_ffff_ffff_ffff,
            0 <= b <= 0xffff_ffff_ffff_ffff,
    ;
    (a as u128) * (b as u128)
}

/// The key by which entities are ordered inside a band: a higher vertical
/// position gives a smaller key.
#[derive(Clone, Copy, Debug, PartialEq, Eq, PartialOrd, Ord)]
pub struct ZIndexSortKey(i64);

impl View for ZIndexSortKey {
    type V = int;

    closed spec fn view(&self) -> int {
        self.0 as int
    }
}

/// The key of the vertical position `y`.
pub open spec fn sort_key_of(y: int) -> int {
    -1 - y
}

/// Keys run against positions.
pub proof fn lemma_sort_key_reverses(y1: int, y2: int)
    ensures
        sort_key_of(y1) < sort_key_of(y2) <==> y1 > y2,
        sort_key_of(y1) == sort_key_of(y2) <==> y1 == y2,
{
}

impl ZIndexSortKey {
    /// The key of the vertical position `y`.
    pub fn new(y: i64) -> (key: Self)
        ensures
            key@ == sort_key_of(y as int),
    {
        ZIndexSortKey(-1 - y)
    }

    /// The key as a number: smaller sorts first.
    pub fn value(&self) -> (value: i64)
        ensures
            value == self@,
    {
        self.0
    }
}

} // verus!
