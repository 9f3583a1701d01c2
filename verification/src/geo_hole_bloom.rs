//! A Bloom filter over the pairs of lattice points of a hole's field that
//! holds every pair whose segment leaves the hole.

use crate::bits::{bits, bits_from_elem, bits_get, bits_len, bits_set};
use crate::geometry::{
    field, field_area, field_bounds, field_height, field_width, lattice_point, lattice_position,
    lemma_lattice_point_within, lemma_lattice_position, within,
};
use crate::problem::{earlier, InvalidEdge, Point, Problem};
use vstd::prelude::*;

verus! {

/// Why a filter could not be built.
#[derive(Clone, Copy, PartialEq, Eq, Debug, Structural)]
pub enum CreateError {
    NoPointsInHole,
}

/// What `seahash`'s hasher, started with its default seeds, makes of a
/// number followed by the four coordinates of two points.
pub uninterp spec fn sea_hash(seed: u64, edge_min: Point, edge_max: Point) -> u64;

/// Calls `seahash::SeaHasher::default`, writes the seed and then the four
/// coordinates of the key to the hasher with `write_u64` and `write_i64`,
/// and calls `finish`. The hasher has fixed seeds and takes numbers as
/// little-endian bytes, so the result depends on the arguments alone; it is
/// named `sea_hash`.
#[verifier::external_body]
fn seeded_hash(seed: u64, key: &BloomKey) -> (hash: u64)
    ensures
        hash == sea_hash(seed, key.edge_min, key.edge_max),
{
    let mut hasher = seahash::SeaHasher::default();
    std::hash::Hasher::write_u64(&mut hasher, seed);
    std::hash::Hasher::write_i64(&mut hasher, key.edge_min.0);
    std::hash::Hasher::write_i64(&mut hasher, key.edge_min.1);
    std::hash::Hasher::write_i64(&mut hasher, key.edge_max.0);
    std::hash::Hasher::write_i64(&mut hasher, key.edge_max.1);
    std::hash::Hasher::finish(&hasher)
}

/// Calls `rand::thread_rng` and draws one number from it. Nothing is known
/// of the number.
#[verifier::external_body]
fn random_seed() -> u64 {
    rand::Rng::gen(&mut rand::thread_rng())
}

/// The two ends of a segment, the earlier first where points are ordered by
/// `x`, then by `y`: the same key for both directions of the segment.
#[derive(Clone, Copy, PartialEq, Eq, Hash, Debug, Structural)]
pub struct BloomKey {
    pub edge_min: Point,
    pub edge_max: Point,
}

/// The key of the segment between `a` and `b`.
pub open spec fn key_of(a: Point, b: Point) -> BloomKey {
    if earlier(a, b) {
        BloomKey { edge_min: a, edge_max: b }
    } else {
        BloomKey { edge_min: b, edge_max: a }
    }
}

impl BloomKey {
    /// The key of the segment between `edge_a` and `edge_b`.
    pub fn new(edge_a: Point, edge_b: Point) -> (key: BloomKey)
        ensures
            key == key_of(edge_a, edge_b),
    {
        if edge_a.is_before(&edge_b) {
            BloomKey { edge_min: edge_a, edge_max: edge_b }
        } else {
            BloomKey { edge_min: edge_b, edge_max: edge_a }
        }
    }
}

/// A segment has the same key in both directions.
pub proof fn lemma_key_undirected(a: Point, b: Point)
    ensures
        key_of(a, b) == key_of(b, a),
{
}

/// The index of the bit that the hash function with this seed gives to the
/// segment between `a` and `b`, in a filter of `len` bits.
pub open spec fn slot(seed: u64, a: Point, b: Point, len: int) -> int {
    sea_hash(seed, key_of(a, b).edge_min, key_of(a, b).edge_max) as int % len
}

/// The index of the bit that the hash function with this seed gives to the
/// key, in a filter of `len` bits.
pub fn probe_index(seed: u64, key: &BloomKey, len: usize) -> (index: usize)
    requires
        len > 0,
    ensures
        index == sea_hash(seed, key.edge_min, key.edge_max) as int % (len as int),
        index < len,
{
    let hash = seeded_hash(seed, key);
    (hash % (len as u64)) as usize
}

/// The filter has the bit set that the hash function with this seed gives
/// to the segment.
pub open spec fn probe_hit(filter: Seq<bool>, seed: u64, a: Point, b: Point) -> bool {
    filter.len() > 0 && filter[slot(seed, a, b, filter.len() as int)]
}

/// The filter has the bits set that all the hash functions give to the
/// segment: it may hold the segment.
pub open spec fn may_hold(filter: Seq<bool>, seeds: Seq<u64>, a: Point, b: Point) -> bool {
    forall|k: int| 0 <= k < seeds.len() ==> probe_hit(filter, #[trigger] seeds[k], a, b)
}

/// The second filter has every bit set that the first has.
pub open spec fn grows(before: Seq<bool>, after: Seq<bool>) -> bool {
    &&& before.len() == after.len()
    &&& forall|i: int| 0 <= i < before.len() && before[i] ==> after[i]
}

/// What a filter may hold it may still hold after it has grown.
pub proof fn lemma_grown_still_holds(
    before: Seq<bool>,
    after: Seq<bool>,
    seeds: Seq<u64>,
    a: Point,
    b: Point,
)
    requires
        grows(before, after),
        may_hold(before, seeds, a, b),
    ensures
        may_hold(after, seeds, a, b),
{
    assert forall|k: int| 0 <= k < seeds.len() implies probe_hit(after, #[trigger] seeds[k], a, b) by {
        assert(probe_hit(before, seeds[k], a, b));
        let i = slot(seeds[k], a, b, before.len() as int);
        assert(0 <= i < before.len()) by (nonlinear_arith)
            requires
                i == sea_hash(seeds[k], key_of(a, b).edge_min, key_of(a, b).edge_max) as int % (
                before.len() as int),
                before.len() > 0,
        ;
    }
}

/// The bit at index `i` is one that some hash function gives to the segment
/// between `a` and `b`.
pub open spec fn probed_by(seeds: Seq<u64>, a: Point, b: Point, len: int, i: int) -> bool {
    exists|k: int| 0 <= k < seeds.len() && slot(#[trigger] seeds[k], a, b, len) == i
}

/// Sets the bits that the hash functions give to the segment between `a`
/// and `b`.
fn mark_pair(filter: &mut bit_vec::BitVec, seeds: &Vec<u64>, a: Point, b: Point)
    requires
        seeds@.len() > 0 ==> bits(*old(filter)).len() > 0,
    ensures
        grows(bits(*old(filter)), bits(*final(filter))),
        may_hold(bits(*final(filter)), seeds@, a, b),
        forall|i: int|
            0 <= i < bits(*final(filter)).len() && bits(*final(filter))[i] ==> bits(*old(filter))[i]
                || probed_by(seeds@, a, b, bits(*final(filter)).len() as int, i),
{
    let key = BloomKey::new(a, b);
    let len = bits_len(filter);
    let ghost start = bits(*filter);
    let mut k: usize = 0;
    while k < seeds.len()
        invariant
            0 <= k <= seeds@.len(),
            key == key_of(a, b),
            len == bits(*filter).len(),
            seeds@.len() > 0 ==> len > 0,
            grows(start, bits(*filter)),
            forall|j: int| 0 <= j < k ==> probe_hit(bits(*filter), #[trigger] seeds@[j], a, b),
            forall|i: int|
                0 <= i < len && bits(*filter)[i] ==> start[i] || probed_by(seeds@, a, b, len as int, i),
        decreases seeds@.len() - k,
    {
        let index = probe_index(seeds[k], &key, len);
        let ghost before = bits(*filter);
        bits_set(filter, index, true);
        proof {
            assert(grows(before, bits(*filter)));
            assert(bits(*filter)[slot(seeds@[k as int], a, b, len as int)]);
            assert(probed_by(seeds@, a, b, len as int, index as int));
            assert forall|j: int| 0 <= j < k implies probe_hit(
                bits(*filter),
                #[trigger] seeds@[j],
                a,
                b,
            ) by {
                assert(probe_hit(before, seeds@[j], a, b));
                let i = slot(seeds@[j], a, b, len as int);
                assert(0 <= i < len) by (nonlinear_arith)
                    requires
                        i == sea_hash(seeds@[j], key_of(a, b).edge_min, key_of(a, b).edge_max) as int
                            % (len as int),
                        len > 0,
                ;
            }
        }
        k = k + 1;
    }
}

/// The filter may hold every segment between two points of the field that
/// the oracle calls invalid.
pub open spec fn complete<E: InvalidEdge>(
    filter: Seq<bool>,
    seeds: Seq<u64>,
    geo_hole: E,
    min: Point,
    max: Point,
) -> bool {
    forall|a: Point, b: Point|
        within(a, min, max) && within(b, min, max) && #[trigger] geo_hole.edge_invalid(a, b)
            ==> may_hold(filter, seeds, a, b)
}

/// Every bit that is set in the filter is one that some hash function gives
/// to a segment between two points of the field that the oracle calls
/// invalid.
pub open spec fn sparse<E: InvalidEdge>(
    filter: Seq<bool>,
    seeds: Seq<u64>,
    geo_hole: E,
    min: Point,
    max: Point,
) -> bool {
    forall|i: int|
        0 <= i < filter.len() && #[trigger] filter[i] ==> exists|a: Point, b: Point|
            within(a, min, max) && within(b, min, max) && geo_hole.edge_invalid(a, b)
                && #[trigger] probed_by(seeds, a, b, filter.len() as int, i)
}

/// The filter can be laid out for this field: the square of the field's
/// area fits a signed 64-bit number, and the number of bits fits `usize`.
pub open spec fn filter_fits(min: Point, max: Point) -> bool {
    &&& field_area(min, max) * field_area(min, max) <= i64::MAX
    &&& field_area(min, max) * field_area(min, max) / 10 <= usize::MAX
}

/// The Bloom filter of a hole, with the exact oracle that it was filled
/// from and that it falls back on.
pub struct GeoHoleBloom<E: InvalidEdge> {
    bits: bit_vec::BitVec,
    field_min: Point,
    field_max: Point,
    hash_fns_seeds: Vec<u64>,
    geo_hole: E,
}

impl<E: InvalidEdge> GeoHoleBloom<E> {
    #[verifier::type_invariant]
    spec fn filled(&self) -> bool {
        &&& self.hash_fns_seeds@.len() > 0 ==> bits(self.bits).len() > 0
        &&& complete(
            bits(self.bits),
            self.hash_fns_seeds@,
            self.geo_hole,
            self.field_min,
            self.field_max,
        )
        &&& sparse(
            bits(self.bits),
            self.hash_fns_seeds@,
            self.geo_hole,
            self.field_min,
            self.field_max,
        )
    }

    /// The bits of the filter.
    pub closed spec fn filter(&self) -> Seq<bool> {
        bits(self.bits)
    }

    /// The seeds of the hash functions of the filter.
    pub closed spec fn seeds(&self) -> Seq<u64> {
        self.hash_fns_seeds@
    }

    /// The corner of the field with the smallest coordinates.
    pub closed spec fn field_min(&self) -> Point {
        self.field_min
    }

    /// The corner of the field with the largest coordinates.
    pub closed spec fn field_max(&self) -> Point {
        self.field_max
    }

    /// The oracle that decides where the filter may hold a segment.
    pub closed spec fn fallback(&self) -> E {
        self.geo_hole
    }


    /// Builds the filter over the field of the problem's hole: asks
    /// `geo_hole` of the segment between each two lattice points of the
    /// field, and enters those that it calls invalid, and no others.
    pub fn new(problem: &Problem, geo_hole: E) -> (r: Result<GeoHoleBloom<E>, CreateError>)
        requires
            problem.hole@.len() > 0 ==> filter_fits(field(problem.hole@).0, field(problem.hole@).1),
        ensures
            problem.hole@.len() == 0 <==> r is Err,
            r matches Ok(bloom) ==> {
                let min = field(problem.hole@).0;
                let max = field(problem.hole@).1;
                &&& bloom.field_min() == min
                &&& bloom.field_max() == max
                &&& bloom.fallback() == geo_hole
                &&& bloom.filter().len() == field_area(min, max) * field_area(min, max) / 10
                &&& bloom.seeds().len() == if bloom.filter().len() > 0 {
                    1nat
                } else {
                    0nat
                }
                &&& complete(bloom.filter(), bloom.seeds(), geo_hole, min, max)
                &&& sparse(bloom.filter(), bloom.seeds(), geo_hole, min, max)
            },
    {
        if problem.hole.len() == 0 {
            return Err(CreateError::NoPointsInHole);
        }
        let none: Vec<Point> = Vec::new();
        assert(problem.hole@ + none@ =~= problem.hole@);
        let (field_min, field_max) = field_bounds(problem.hole.as_slice(), none.as_slice());
        proof {
            let hole = problem.hole@;
            let i0 = choose|i: int| 0 <= i < hole.len() && (#[trigger] hole[i]).0 == field_min.0;
            let i1 = choose|i: int| 0 <= i < hole.len() && (#[trigger] hole[i]).1 == field_min.1;
            lemma_sizes(field_min, field_max);
        }
        let field_width: i64 = field_max.0 - field_min.0 + 1;
        let field_height: i64 = field_max.1 - field_min.1 + 1;
        let field_area: i64 = field_width * field_height;
        let sq_field_area: i64 = field_area * field_area;
        let bits_count: usize = (sq_field_area / 10) as usize;
        // A tenth of a bit for each pair of points leaves room for no more
        // than one hash function, and an empty filter for none.
        let hash_fns_count: usize = if bits_count > 0 {
            1
        } else {
            0
        };
        let mut hash_fns_seeds: Vec<u64> = Vec::new();
        while hash_fns_seeds.len() < hash_fns_count
            invariant
                hash_fns_seeds@.len() <= hash_fns_count <= 1,
            decreases hash_fns_count - hash_fns_seeds@.len(),
        {
            hash_fns_seeds.push(random_seed());
        }
        let mut filter = bits_from_elem(bits_count, false);
        let mut position_a: i64 = 0;
        while position_a < field_area
            invariant
                0 <= position_a <= field_area,
                field_min.0 <= field_max.0,
                field_min.1 <= field_max.1,
                field_width == crate::geometry::field_width(field_min, field_max),
                field_area == crate::geometry::field_area(field_min, field_max),
                filter_fits(field_min, field_max),
                bits(filter).len() == bits_count,
                hash_fns_seeds@.len() > 0 ==> bits_count > 0,
                sparse(bits(filter), hash_fns_seeds@, geo_hole, field_min, field_max),
                forall|qa: int, qb: int|
                    0 <= qa < position_a && 0 <= qb < field_area && geo_hole.edge_invalid(
                        #[trigger] lattice_point(field_min, field_max, qa),
                        #[trigger] lattice_point(field_min, field_max, qb),
                    ) ==> may_hold(
                        bits(filter),
                        hash_fns_seeds@,
                        lattice_point(field_min, field_max, qa),
                        lattice_point(field_min, field_max, qb),
                    ),
            decreases field_area - position_a,
        {
            proof {
                lemma_lattice_point_within(field_min, field_max, position_a as int);
            }
            let point_a = Point(
                field_min.0 + position_a % field_width,
                field_min.1 + position_a / field_width,
            );
            let mut position_b: i64 = 0;
            while position_b < field_area
                invariant
                    0 <= position_a < field_area,
                    0 <= position_b <= field_area,
                    field_min.0 <= field_max.0,
                    field_min.1 <= field_max.1,
                    field_width == crate::geometry::field_width(field_min, field_max),
                    field_area == crate::geometry::field_area(field_min, field_max),
                    filter_fits(field_min, field_max),
                    point_a == lattice_point(field_min, field_max, position_a as int),
                    bits(filter).len() == bits_count,
                    hash_fns_seeds@.len() > 0 ==> bits_count > 0,
                    within(point_a, field_min, field_max),
                    sparse(bits(filter), hash_fns_seeds@, geo_hole, field_min, field_max),
                    forall|qa: int, qb: int|
                        0 <= qa < position_a && 0 <= qb < field_area && geo_hole.edge_invalid(
                            #[trigger] lattice_point(field_min, field_max, qa),
                            #[trigger] lattice_point(field_min, field_max, qb),
                        ) ==> may_hold(
                            bits(filter),
                            hash_fns_seeds@,
                            lattice_point(field_min, field_max, qa),
                            lattice_point(field_min, field_max, qb),
                        ),
                    forall|qb: int|
                        0 <= qb < position_b && geo_hole.edge_invalid(
                            point_a,
                            #[trigger] lattice_point(field_min, field_max, qb),
                        ) ==> may_hold(
                            bits(filter),
                            hash_fns_seeds@,
                            point_a,
                            lattice_point(field_min, field_max, qb),
                        ),
                decreases field_area - position_b,
            {
                proof {
                    lemma_lattice_point_within(field_min, field_max, position_b as int);
                }
                let point_b = Point(
                    field_min.0 + position_b % field_width,
                    field_min.1 + position_b / field_width,
                );
                if geo_hole.is_edge_invalid(point_a, point_b) {
                    let ghost before = bits(filter);
                    mark_pair(&mut filter, &hash_fns_seeds, point_a, point_b);
                    proof {
                        let after = bits(filter);
                        assert forall|i: int| 0 <= i < after.len() && #[trigger] after[i] implies exists|
                            a: Point,
                            b: Point,
                        |
                            within(a, field_min, field_max) && within(b, field_min, field_max)
                                && geo_hole.edge_invalid(a, b) && #[trigger] probed_by(
                                hash_fns_seeds@,
                                a,
                                b,
                                after.len() as int,
                                i,
                            ) by {
                            if before[i] {
                            } else {
                                assert(probed_by(
                                    hash_fns_seeds@,
                                    point_a,
                                    point_b,
                                    after.len() as int,
                                    i,
                                ));
                            }
                        }
                        assert forall|qa: int, qb: int|
                            0 <= qa < position_a && 0 <= qb < field_area && geo_hole.edge_invalid(
                                #[trigger] lattice_point(field_min, field_max, qa),
                                #[trigger] lattice_point(field_min, field_max, qb),
                            ) implies may_hold(
                            after,
                            hash_fns_seeds@,
                            lattice_point(field_min, field_max, qa),
                            lattice_point(field_min, field_max, qb),
                        ) by {
                            lemma_grown_still_holds(
                                before,
                                after,
                                hash_fns_seeds@,
                                lattice_point(field_min, field_max, qa),
                                lattice_point(field_min, field_max, qb),
                            );
                        }
                        assert forall|qb: int|
                            0 <= qb < position_b && geo_hole.edge_invalid(
                                point_a,
                                #[trigger] lattice_point(field_min, field_max, qb),
                            ) implies may_hold(
                            after,
                            hash_fns_seeds@,
                            point_a,
                            lattice_point(field_min, field_max, qb),
                        ) by {
                            lemma_grown_still_holds(
                                before,
                                after,
                                hash_fns_seeds@,
                                point_a,
                                lattice_point(field_min, field_max, qb),
                            );
                        }
                    }
                }
                position_b = position_b + 1;
            }
            position_a = position_a + 1;
        }
        proof {
            assert forall|a: Point, b: Point|
                within(a, field_min, field_max) && within(b, field_min, field_max)
                    && #[trigger] geo_hole.edge_invalid(a, b) implies may_hold(
                bits(filter),
                hash_fns_seeds@,
                a,
                b,
            ) by {
                lemma_lattice_position(field_min, field_max, a);
                lemma_lattice_position(field_min, field_max, b);
                let qa = lattice_position(field_min, field_max, a);
                let qb = lattice_position(field_min, field_max, b);
                assert(lattice_point(field_min, field_max, qa) == a);
                assert(lattice_point(field_min, field_max, qb) == b);
            }
        }
        Ok(GeoHoleBloom { bits: filter, field_min, field_max, hash_fns_seeds, geo_hole })
    }
}

/// Where the square of the field's area fits 64 bits, so do the field's
/// width, height and area.
proof fn lemma_sizes(min: Point, max: Point)
    requires
        min.0 <= max.0,
        min.1 <= max.1,
        filter_fits(min, max),
    ensures
        1 <= field_width(min, max) <= field_area(min, max) <= i64::MAX,
        1 <= field_height(min, max) <= field_area(min, max),
        field_area(min, max) <= field_area(min, max) * field_area(min, max),
{
    let w = field_width(min, max);
    let h = field_height(min, max);
    assert(w <= w * h && h <= w * h && w * h <= (w * h) * (w * h)) by (nonlinear_arith)
        requires
            1 <= w,
            1 <= h,
    ;
}

impl<E: InvalidEdge> InvalidEdge for GeoHoleBloom<E> {
    /// A segment with an end outside the field is invalid; of any other the
    /// filter says what the oracle says that it was filled from.
    open spec fn edge_invalid(&self, edge_from: Point, edge_to: Point) -> bool {
        !within(edge_from, self.field_min(), self.field_max()) || !within(
            edge_to,
            self.field_min(),
            self.field_max(),
        ) || self.fallback().edge_invalid(edge_from, edge_to)
    }

    fn is_edge_invalid(&self, edge_from: Point, edge_to: Point) -> (invalid: bool) {
        proof {
            use_type_invariant(self);
        }
        if edge_from.0 < self.field_min.0 || edge_from.0 > self.field_max.0 || edge_from.1
            < self.field_min.1 || edge_from.1 > self.field_max.1 {
            return true;
        }
        if edge_to.0 < self.field_min.0 || edge_to.0 > self.field_max.0 || edge_to.1
            < self.field_min.1 || edge_to.1 > self.field_max.1 {
            return true;
        }
        let key = BloomKey::new(edge_from, edge_to);
        let len = bits_len(&self.bits);
        let mut k: usize = 0;
        while k < self.hash_fns_seeds.len()
            invariant
                0 <= k <= self.hash_fns_seeds@.len(),
                key == key_of(edge_from, edge_to),
                len == bits(self.bits).len(),
                self.hash_fns_seeds@.len() > 0 ==> len > 0,
                within(edge_from, self.field_min, self.field_max),
                within(edge_to, self.field_min, self.field_max),
                complete(
                    bits(self.bits),
                    self.hash_fns_seeds@,
                    self.geo_hole,
                    self.field_min,
                    self.field_max,
                ),
            decreases self.hash_fns_seeds@.len() - k,
        {
            let index = probe_index(self.hash_fns_seeds[k], &key, len);
            match bits_get(&self.bits, index) {
                Some(true) => {},
                _ => {
                    proof {
                        if self.geo_hole.edge_invalid(edge_from, edge_to) {
                            assert(probe_hit(
                                bits(self.bits),
                                self.hash_fns_seeds@[k as int],
                                edge_from,
                                edge_to,
                            ));
                        }
                    }
                    return false;
                },
            }
            k = k + 1;
        }
        self.geo_hole.is_edge_invalid(edge_from, edge_to)
    }
}

/// Between two points of its field the filter says of a segment what the
/// oracle says that it was filled from.
pub proof fn lemma_filter_agrees_with_oracle<E: InvalidEdge>(
    bloom: &GeoHoleBloom<E>,
    a: Point,
    b: Point,
)
    requires
        within(a, bloom.field_min(), bloom.field_max()),
        within(b, bloom.field_min(), bloom.field_max()),
    ensures
        bloom.edge_invalid(a, b) == bloom.fallback().edge_invalid(a, b),
{
}

/// Where the oracle says the same of a segment in both directions, so does
/// the filter.
pub proof fn lemma_filter_undirected<E: InvalidEdge>(bloom: &GeoHoleBloom<E>, a: Point, b: Point)
    requires
        bloom.fallback().edge_invalid(a, b) == bloom.fallback().edge_invalid(b, a),
    ensures
        bloom.edge_invalid(a, b) == bloom.edge_invalid(b, a),
{
}

/// Two filters over the same field say the same of a segment of which their
/// oracles say the same, whatever seeds each of them drew.
pub proof fn lemma_filter_rebuilt_agrees<E: InvalidEdge>(
    first: &GeoHoleBloom<E>,
    second: &GeoHoleBloom<E>,
    a: Point,
    b: Point,
)
    requires
        first.field_min() == second.field_min(),
        first.field_max() == second.field_max(),
        first.fallback().edge_invalid(a, b) == second.fallback().edge_invalid(a, b),
    ensures
        first.edge_invalid(a, b) == second.edge_invalid(a, b),
{
}

} // verus!
