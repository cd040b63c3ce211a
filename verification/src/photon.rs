//! Decisions of the photon-mapping scene that rest on counts and
//! comparisons alone: where a traced photon is stored and whether its trace
//! goes on, and the shadow estimate.
//!
//! Whether a point is in shadow is first estimated from the photons stored
//! near it: when enough of them are found and all are shadow photons the
//! point is in shadow, when none is a shadow photon it is lit, and otherwise
//! a shadow ray decides.  The share of shadow photons is computed in `f32`
//! (`shadow as f32 / total as f32`), so the counts are compared as the
//! `f32` values they convert to.
use vstd::prelude::*;
use crate::csg::HitRecord;
use crate::float_bits::{ONE_BITS, ZERO_BITS, bits_le, le, lt};
use crate::trace::{nearest, nearest_hit};

verus! {

/// Photons emitted per light.
pub const NUM_PHOTONS: u32 = 90_000;

/// Bounces a photon is traced through.
pub const PHOTON_RECURSE: u8 = 3;

/// Photons that must be found near a point before they may decide its
/// shadow.
pub const PHOTON_SEARCH_COUNT: u32 = 300;

/// Recursion depth up to which direct light is estimated from the photon
/// maps instead of traced.
pub const RECURSE_APPROXIMATE_THRESHOLD: u8 = 0;

/// What a stored photon records.
#[derive(Clone, Copy, PartialEq, Eq, Structural, Debug, Hash)]
pub enum PhotonType {
    /// Light arriving straight from a light source.
    DirectionIllumination,
    /// Light arriving after at least one bounce.
    IndirectIllumination,
    /// Marks a surface behind the first hit of a light's photon.
    ShadowPhoton,
}

/// What the Russian roulette decides for a photon at a surface.
#[derive(Clone, Copy, PartialEq, Eq, Structural, Debug)]
pub enum PhotonOutcome {
    Reflect,
    Transmit,
    Absorb,
}

/// The kind of photon that continues after `outcome`, if one does: a
/// reflected photon carries indirect light, an absorbed one continues
/// through the surface as a shadow photon, and a transmitted one carries
/// indirect light only through a material with an index of refraction.
pub open spec fn continuation(outcome: PhotonOutcome, has_refraction_index: bool) -> Option<
    PhotonType,
> {
    match outcome {
        PhotonOutcome::Reflect => Some(PhotonType::IndirectIllumination),
        PhotonOutcome::Absorb => Some(PhotonType::ShadowPhoton),
        PhotonOutcome::Transmit => if has_refraction_index {
            Some(PhotonType::IndirectIllumination)
        } else {
            None
        },
    }
}

/// The photon that a trace continues with after the roulette's `outcome`.
pub fn photon_continuation(outcome: PhotonOutcome, has_refraction_index: bool) -> (r: Option<
    PhotonType,
>)
    ensures
        r == continuation(outcome, has_refraction_index),
{
    match outcome {
        PhotonOutcome::Reflect => Some(PhotonType::IndirectIllumination),
        PhotonOutcome::Absorb => Some(PhotonType::ShadowPhoton),
        PhotonOutcome::Transmit => if has_refraction_index {
            Some(PhotonType::IndirectIllumination)
        } else {
            None
        },
    }
}

/// Whether a photon may land on a hit where it leaves an object: only after
/// it was transmitted into that object.
pub fn accepts_exiting_hits(previous: Option<PhotonOutcome>) -> (r: bool)
    ensures
        r == (previous == Some(PhotonOutcome::Transmit)),
{
    match previous {
        Some(PhotonOutcome::Transmit) => true,
        _ => false,
    }
}

/// Encoding of `0.05_f32`.
pub const P_0_05: u32 = 0x3d4c_cccd;

/// Encoding of `0.2_f32`.
pub const P_0_2: u32 = 0x3e4c_cccd;

/// Encoding of `0.25_f32`.
pub const P_0_25: u32 = 0x3e80_0000;

/// Encoding of `0.65_f32`.
pub const P_0_65: u32 = 0x3f26_6666;

/// Encoding of `0.05_f32 + 0.65_f32` (which rounds to `0.7_f32`).
pub const P_0_7: u32 = 0x3f33_3333;

/// Encoding of `0.8_f32`.
pub const P_0_8: u32 = 0x3f4c_cccd;

/// Encoding of `0.95_f32`.
pub const P_0_95: u32 = 0x3f73_3333;

/// The probabilities of reflection, transmission and absorption at a
/// surface of the given kind, and the `f32` sum of the first two.
pub open spec fn roulette_odds(is_specular: bool, is_transparent: bool) -> (u32, u32, u32, u32) {
    if is_transparent {
        (P_0_05, P_0_65, P_0_25, P_0_7)
    } else if is_specular {
        (P_0_95, ZERO_BITS, P_0_05, P_0_95)
    } else {
        (P_0_2, ZERO_BITS, P_0_8, P_0_2)
    }
}

/// The Russian roulette's outcome for a random `chance` in `[0, 1)`: reflect
/// when `chance <= r`, transmit when `chance <= r + t`, absorb otherwise;
/// with the probability of the outcome.
pub open spec fn roulette(chance: u32, is_specular: bool, is_transparent: bool) -> (PhotonOutcome, u32) {
    let (r, t, a, r_plus_t) = roulette_odds(is_specular, is_transparent);
    if le(chance, r) {
        (PhotonOutcome::Reflect, r)
    } else if le(chance, r_plus_t) {
        (PhotonOutcome::Transmit, t)
    } else {
        (PhotonOutcome::Absorb, a)
    }
}

/// The roulette's outcome for the drawn `chance` (an encoded `f32`).
pub fn roulette_outcome(chance: u32, is_specular: bool, is_transparent: bool) -> (r: (PhotonOutcome, u32))
    ensures
        r == roulette(chance, is_specular, is_transparent),
{
    let (r, t, a, r_plus_t) = if is_transparent {
        (P_0_05, P_0_65, P_0_25, P_0_7)
    } else if is_specular {
        (P_0_95, ZERO_BITS, P_0_05, P_0_95)
    } else {
        (P_0_2, ZERO_BITS, P_0_8, P_0_2)
    };
    if bits_le(chance, r) {
        (PhotonOutcome::Reflect, r)
    } else if bits_le(chance, r_plus_t) {
        (PhotonOutcome::Transmit, t)
    } else {
        (PhotonOutcome::Absorb, a)
    }
}

/// Only transparent surfaces transmit photons, and the probability that
/// comes with an outcome is never zero (a photon's power is divided by it).
pub proof fn lemma_roulette_outcomes(chance: u32, is_specular: bool, is_transparent: bool)
    requires
        chance < ONE_BITS,
    ensures
        roulette(chance, is_specular, is_transparent).0 is Transmit ==> is_transparent,
        lt(ZERO_BITS, roulette(chance, is_specular, is_transparent).1),
{
}

/// Whether a photon that arrived by `previous` may land where it leaves an
/// object: only after it was transmitted into it.
pub open spec fn accepts_exiting(previous: Option<PhotonOutcome>) -> bool {
    previous == Some(PhotonOutcome::Transmit)
}

/// One step of a photon's trace.  The photon lands on the nearest of the
/// objects' first hits that it may land on (see [`accepts_exiting`]), and a
/// photon is stored there; the result's first part is that object's index,
/// `None` when nothing is hit (the trace ends).  At depth zero, or on an
/// object without a material, the trace ends after storing.  Otherwise the
/// roulette decides with `chance`; the photon goes on, one level deeper,
/// unless it is transmitted through a material without an index of
/// refraction.  The second part is the outcome, its probability and the
/// depth left, when the trace goes on.
pub open spec fn bounce(
    first_hits: Seq<Option<HitRecord>>,
    previous: Option<PhotonOutcome>,
    depth: u8,
    chance: u32,
    has_material: bool,
    is_specular: bool,
    is_transparent: bool,
    has_refraction_index: bool,
) -> (Option<int>, Option<(PhotonOutcome, u32, u8)>) {
    match nearest(first_hits, accepts_exiting(previous)) {
        None => (None, None),
        Some((_, i)) => (
            Some(i),
            if depth == 0 || !has_material {
                None
            } else {
                let (outcome, probability) = roulette(chance, is_specular, is_transparent);
                if continuation(outcome, has_refraction_index) is Some {
                    Some((outcome, probability, (depth - 1) as u8))
                } else {
                    None
                }
            },
        ),
    }
}

/// Decides one step of a photon's trace (see [`bounce`]): where the photon
/// is stored, and whether and how the trace goes on.  The kind of the
/// photon that goes on is [`photon_continuation`] of the outcome.
pub fn photon_bounce(
    first_hits: &Vec<Option<HitRecord>>,
    previous: Option<PhotonOutcome>,
    depth: u8,
    chance: u32,
    has_material: bool,
    is_specular: bool,
    is_transparent: bool,
    has_refraction_index: bool,
) -> (r: (Option<usize>, Option<(PhotonOutcome, u32, u8)>))
    ensures
        r.0 matches Some(i) ==> bounce(
            first_hits@,
            previous,
            depth,
            chance,
            has_material,
            is_specular,
            is_transparent,
            has_refraction_index,
        ).0 == Some(i as int),
        r.0 is None ==> bounce(
            first_hits@,
            previous,
            depth,
            chance,
            has_material,
            is_specular,
            is_transparent,
            has_refraction_index,
        ).0 is None,
        r.1 == bounce(
            first_hits@,
            previous,
            depth,
            chance,
            has_material,
            is_specular,
            is_transparent,
            has_refraction_index,
        ).1,
        r.0 matches Some(i) ==> nearest(first_hits@, accepts_exiting(previous)) matches Some((_, k))
            && k == i,
        r.0 is None ==> r.1 is None,
        depth == 0 ==> r.1 is None,
        r.1 matches Some((o, p, d)) ==> d + 1 == depth && (o, p) == roulette(
            chance,
            is_specular,
            is_transparent,
        ),
{
    let landed = nearest_hit(first_hits, accepts_exiting_hits(previous));
    match landed {
        None => (None, None),
        Some((_, i)) => {
            if depth == 0 || !has_material {
                return (Some(i), None);
            }
            let (outcome, probability) = roulette_outcome(chance, is_specular, is_transparent);
            match photon_continuation(outcome, has_refraction_index) {
                Some(_) => (Some(i), Some((outcome, probability, depth - 1))),
                None => (Some(i), None),
            }
        },
    }
}

/// What a trace step is handed: the objects' first hits along the photon's
/// ray, the roulette's chance, and the facts about the material of the
/// object that the photon lands on.
pub struct BounceEvent {
    pub first_hits: Seq<Option<HitRecord>>,
    pub chance: u32,
    pub has_material: bool,
    pub is_specular: bool,
    pub is_transparent: bool,
    pub has_refraction_index: bool,
}

/// The photons that a trace stores, one per step until a step ends it:
/// the object each lands on and its kind.  The trace starts with a photon of
/// kind `kind` at `depth` after `previous`; each photon that goes on has the
/// kind [`continuation`] gives for the roulette's outcome.
pub open spec fn landings(
    events: Seq<BounceEvent>,
    previous: Option<PhotonOutcome>,
    kind: PhotonType,
    depth: u8,
) -> Seq<(int, PhotonType)>
    decreases events.len(),
{
    if events.len() == 0 {
        Seq::empty()
    } else {
        let e = events[0];
        let step = bounce(
            e.first_hits,
            previous,
            depth,
            e.chance,
            e.has_material,
            e.is_specular,
            e.is_transparent,
            e.has_refraction_index,
        );
        match step.0 {
            None => Seq::empty(),
            Some(i) => seq![(i, kind)] + match step.1 {
                None => Seq::empty(),
                Some((outcome, _, d)) => landings(
                    events.drop_first(),
                    Some(outcome),
                    continuation(outcome, e.has_refraction_index).unwrap(),
                    d,
                ),
            },
        }
    }
}

/// A trace of depth `depth` appends at most `depth + 1` photons to the
/// photon map and keeps the photons that were there before; the first
/// photon it stores has the kind the trace started with, and every later
/// one carries indirect light or marks a shadow.
pub proof fn lemma_trace_depth_bounds_photons(
    map: Seq<(int, PhotonType)>,
    events: Seq<BounceEvent>,
    previous: Option<PhotonOutcome>,
    kind: PhotonType,
    depth: u8,
)
    ensures
        landings(events, previous, kind, depth).len() <= depth + 1,
        (map + landings(events, previous, kind, depth)).len() <= map.len() + depth + 1,
        (map + landings(events, previous, kind, depth)).subrange(0, map.len() as int) == map,
        landings(events, previous, kind, depth).len() > 0 ==> landings(
            events,
            previous,
            kind,
            depth,
        )[0].1 == kind,
        forall|k: int|
            1 <= k < landings(events, previous, kind, depth).len() ==> (#[trigger] landings(
                events,
                previous,
                kind,
                depth,
            )[k]).1 != PhotonType::DirectionIllumination,
    decreases events.len(),
{
    let l = landings(events, previous, kind, depth);
    if events.len() > 0 {
        let e = events[0];
        let step = bounce(
            e.first_hits,
            previous,
            depth,
            e.chance,
            e.has_material,
            e.is_specular,
            e.is_transparent,
            e.has_refraction_index,
        );
        if let Some(i) = step.0 {
            if let Some((outcome, _, d)) = step.1 {
                let next = continuation(outcome, e.has_refraction_index).unwrap();
                lemma_trace_depth_bounds_photons(map, events.drop_first(), Some(outcome), next, d);
                let rest = landings(events.drop_first(), Some(outcome), next, d);
                assert(l == seq![(i, kind)] + rest);
                assert(next != PhotonType::DirectionIllumination);
                assert forall|k: int| 1 <= k < l.len() implies (#[trigger] l[k]).1
                    != PhotonType::DirectionIllumination by {
                    assert(l[k] == rest[k - 1]);
                    if k - 1 >= 1 {
                        assert(rest[k - 1].1 != PhotonType::DirectionIllumination);
                    }
                }
            }
        }
    }
    assert((map + l).subrange(0, map.len() as int) =~= map);
}

/// How many entries of `types` are `kind`.
pub open spec fn count_of(types: Seq<PhotonType>, kind: PhotonType) -> nat
    decreases types.len(),
{
    if types.len() == 0 {
        0
    } else {
        count_of(types.drop_last(), kind) + if types.last() == kind {
            1nat
        } else {
            0nat
        }
    }
}

/// Distance between neighbouring `f32` values around `v` (for `v < 2^32`):
/// `f32` has 24 significant bits.
pub open spec fn f32_spacing(v: int) -> int {
    if v < 0x100_0000 {
        1
    } else if v < 0x200_0000 {
        2
    } else if v < 0x400_0000 {
        4
    } else if v < 0x800_0000 {
        8
    } else if v < 0x1000_0000 {
        16
    } else if v < 0x2000_0000 {
        32
    } else if v < 0x4000_0000 {
        64
    } else if v < 0x8000_0000 {
        128
    } else {
        256
    }
}

/// The value of `v as f32` for a `u32` value `v`: `v` rounded to the
/// nearest multiple of the spacing, ties to an even multiple.
pub open spec fn u32_as_f32(v: int) -> int {
    let unit = f32_spacing(v);
    let q = v / unit;
    let r = v % unit;
    if unit > 1 && (r > unit / 2 || (r == unit / 2 && q % 2 == 1)) {
        (q + 1) * unit
    } else {
        q * unit
    }
}

/// Converting a count below `2^24` to `f32` is exact.
pub proof fn lemma_small_u32_as_f32_exact(v: int)
    requires
        0 <= v < 0x100_0000,
    ensures
        u32_as_f32(v) == v,
{
}

/// The value that `v as f32` takes, as an integer.
pub fn u32_as_f32_value(v: u32) -> (r: u64)
    ensures
        r == u32_as_f32(v as int),
{
    let unit: u32 = if v < 0x100_0000 {
        1
    } else if v < 0x200_0000 {
        2
    } else if v < 0x400_0000 {
        4
    } else if v < 0x800_0000 {
        8
    } else if v < 0x1000_0000 {
        16
    } else if v < 0x2000_0000 {
        32
    } else if v < 0x4000_0000 {
        64
    } else if v < 0x8000_0000 {
        128
    } else {
        256
    };
    let q = v / unit;
    let r = v % unit;
    let up = unit > 1 && (r > unit / 2 || (r == unit / 2 && q % 2 == 1));
    assert(q * unit <= v) by (nonlinear_arith)
        requires
            q == v / unit,
            unit > 0,
            v >= 0,
    ;
    let q64 = q as u64;
    let unit64 = unit as u64;
    if up {
        assert((q64 + 1) * unit64 <= 0x2_0000_0000) by (nonlinear_arith)
            requires
                q64 * unit64 <= v,
                v < 0x1_0000_0000,
                unit64 <= 256,
        ;
        (q64 + 1) * unit64
    } else {
        q64 * unit64
    }
}

/// The shadow estimate from `shadow` shadow photons and `direct` direct
/// photons near a point: `Some(true)` in shadow, `Some(false)` lit, `None`
/// undecided.  It decides only when at least `search_count` (and at least
/// one) photons were counted; the share `shadow / total` is then compared,
/// in `f32`, with `1.0` and `0.0`.
pub open spec fn shadow_estimate(shadow: int, direct: int, search_count: int) -> Option<bool> {
    let total = shadow + direct;
    if total >= search_count && total > 0 {
        if u32_as_f32(shadow) == u32_as_f32(total) {
            Some(true)
        } else if shadow == 0 {
            Some(false)
        } else {
            None
        }
    } else {
        None
    }
}

/// Counts the shadow and direct-illumination photons among `types` (the
/// photons found near a point) and estimates whether the point is in
/// shadow.
pub fn shadow_from_photons(types: &Vec<PhotonType>, search_count: u32) -> (r: Option<bool>)
    requires
        count_of(types@, PhotonType::ShadowPhoton) + count_of(
            types@,
            PhotonType::DirectionIllumination,
        ) <= u32::MAX,
    ensures
        r == shadow_estimate(
            count_of(types@, PhotonType::ShadowPhoton) as int,
            count_of(types@, PhotonType::DirectionIllumination) as int,
            search_count as int,
        ),
        count_of(types@, PhotonType::ShadowPhoton) + count_of(
            types@,
            PhotonType::DirectionIllumination,
        ) < search_count ==> r is None,
        r == Some(false) ==> count_of(types@, PhotonType::ShadowPhoton) == 0,
{
    proof {
        lemma_shadow_estimate_needs_enough_photons(
            count_of(types@, PhotonType::ShadowPhoton) as int,
            count_of(types@, PhotonType::DirectionIllumination) as int,
            search_count as int,
        );
    }
    let mut num_direct_photons: u32 = 0;
    let mut num_shadow_photons: u32 = 0;
    let mut i: usize = 0;
    while i < types.len()
        invariant
            i <= types.len(),
            num_shadow_photons == count_of(types@.take(i as int), PhotonType::ShadowPhoton),
            num_direct_photons == count_of(
                types@.take(i as int),
                PhotonType::DirectionIllumination,
            ),
            count_of(types@, PhotonType::ShadowPhoton) + count_of(
                types@,
                PhotonType::DirectionIllumination,
            ) <= u32::MAX,
        decreases types.len() - i,
    {
        proof {
            assert(types@.take(i + 1).drop_last() =~= types@.take(i as int));
            lemma_count_prefix(types@, i as int + 1, PhotonType::ShadowPhoton);
            lemma_count_prefix(types@, i as int + 1, PhotonType::DirectionIllumination);
        }
        match types[i] {
            PhotonType::ShadowPhoton => {
                num_shadow_photons = num_shadow_photons + 1;
            },
            PhotonType::DirectionIllumination => {
                num_direct_photons = num_direct_photons + 1;
            },
            _ => {},
        }
        i = i + 1;
    }
    assert(types@.take(types.len() as int) =~= types@);
    let total = num_direct_photons + num_shadow_photons;
    if total >= search_count && total > 0 {
        if u32_as_f32_value(num_shadow_photons) == u32_as_f32_value(total) {
            return Some(true);
        } else if num_shadow_photons == 0 {
            return Some(false);
        }
    }
    None
}

/// A prefix never holds more of a kind than the whole sequence.
proof fn lemma_count_prefix(s: Seq<PhotonType>, n: int, kind: PhotonType)
    requires
        0 <= n <= s.len(),
    ensures
        count_of(s.take(n), kind) <= count_of(s, kind),
    decreases s.len() - n,
{
    if n < s.len() {
        lemma_count_prefix(s, n + 1, kind);
        assert(s.take(n + 1).drop_last() =~= s.take(n));
    } else {
        assert(s.take(n) =~= s);
    }
}

/// A positive count converts to a positive `f32`.
proof fn lemma_u32_as_f32_positive(v: int)
    requires
        v > 0,
    ensures
        u32_as_f32(v) > 0,
{
    let unit = f32_spacing(v);
    assert(1 <= unit <= 256);
    assert(v >= unit);
    let q = v / unit;
    assert(q >= 1) by (nonlinear_arith)
        requires
            v >= unit,
            unit >= 1,
            q == v / unit,
    ;
    assert(q * unit >= unit) by (nonlinear_arith)
        requires
            q >= 1,
            unit >= 1,
    ;
    assert((q + 1) * unit >= unit) by (nonlinear_arith)
        requires
            q >= 1,
            unit >= 1,
    ;
}

/// The photons decide only when enough of them were found: with fewer
/// than `search_count` shadow and direct photons (or none at all) the
/// estimate is undecided and a shadow ray decides.  When it decides, "lit"
/// needs there to be no shadow photon, and "in shadow" at least one.
pub proof fn lemma_shadow_estimate_needs_enough_photons(shadow: int, direct: int, search_count: int)
    requires
        0 <= shadow,
        0 <= direct,
    ensures
        shadow + direct < search_count ==> shadow_estimate(shadow, direct, search_count) is None,
        shadow + direct == 0 ==> shadow_estimate(shadow, direct, search_count) is None,
        shadow_estimate(shadow, direct, search_count) is Some ==> shadow + direct >= search_count
            && shadow + direct > 0,
        shadow_estimate(shadow, direct, search_count) == Some(false) ==> shadow == 0,
        shadow_estimate(shadow, direct, search_count) == Some(true) ==> shadow > 0,
{
    if shadow_estimate(shadow, direct, search_count) == Some(true) && shadow == 0 {
        lemma_small_u32_as_f32_exact(0);
        lemma_u32_as_f32_positive(shadow + direct);
    }
}

/// With at most `2^24` photons counted, the `f32` share is exact: once
/// enough photons are found, the point is in shadow exactly when none is a
/// direct photon and lit exactly when none is a shadow photon.
pub proof fn lemma_shadow_estimate_exact(shadow: int, direct: int, search_count: int)
    requires
        0 <= shadow,
        0 <= direct,
        shadow + direct <= 0x100_0000,
        shadow + direct >= search_count,
        shadow + direct > 0,
    ensures
        shadow_estimate(shadow, direct, search_count) == Some(true) <==> direct == 0,
        shadow_estimate(shadow, direct, search_count) == Some(false) <==> shadow == 0,
        shadow_estimate(shadow, direct, search_count) is None <==> (shadow > 0 && direct > 0),
{
    if shadow + direct < 0x100_0000 {
        lemma_small_u32_as_f32_exact(shadow);
        lemma_small_u32_as_f32_exact(shadow + direct);
    } else {
        if shadow < 0x100_0000 {
            lemma_small_u32_as_f32_exact(shadow);
        }
        assert(f32_spacing(0x100_0000) == 2);
        assert(0x100_0000int / 2 == 0x80_0000);
        assert(0x100_0000int % 2 == 0);
        assert(u32_as_f32(0x100_0000) == 0x100_0000);
    }
}

/// How many caustic photons each object receives from one light: the
/// light's photons are shared evenly (rounding down) among the specular
/// objects, and only specular objects with a bounding sphere to aim at get
/// their share.
pub open spec fn caustic_share(num_photons: int, specular: Seq<bool>, bounded: Seq<bool>, i: int) -> int {
    if specular[i] && bounded[i] {
        num_photons / count_true(specular) as int
    } else {
        0
    }
}

/// How many entries of `flags` are `true`.
pub open spec fn count_true(flags: Seq<bool>) -> nat
    decreases flags.len(),
{
    if flags.len() == 0 {
        0
    } else {
        count_true(flags.drop_last()) + if flags.last() {
            1nat
        } else {
            0nat
        }
    }
}

/// Splits a light's `num_photons` caustic photons among the objects: entry
/// `i` of the result is what object `i` (specular? has a bounding sphere?)
/// receives.
pub fn caustic_photon_counts(num_photons: u32, specular: &Vec<bool>, bounded: &Vec<bool>) -> (counts:
    Vec<u32>)
    requires
        specular.len() == bounded.len(),
        count_true(specular@) <= u32::MAX,
    ensures
        counts.len() == specular.len(),
        forall|i: int|
            0 <= i < counts.len() ==> #[trigger] counts[i] == caustic_share(
                num_photons as int,
                specular@,
                bounded@,
                i,
            ),
{
    let mut num_specular_objects: u32 = 0;
    let mut i: usize = 0;
    while i < specular.len()
        invariant
            i <= specular.len(),
            num_specular_objects == count_true(specular@.take(i as int)),
            count_true(specular@) <= u32::MAX,
        decreases specular.len() - i,
    {
        proof {
            assert(specular@.take(i + 1).drop_last() =~= specular@.take(i as int));
            lemma_count_true_prefix(specular@, i as int + 1);
        }
        if specular[i] {
            num_specular_objects = num_specular_objects + 1;
        }
        i = i + 1;
    }
    assert(specular@.take(specular.len() as int) =~= specular@);
    let mut counts: Vec<u32> = Vec::new();
    let mut k: usize = 0;
    while k < specular.len()
        invariant
            k <= specular.len(),
            specular.len() == bounded.len(),
            num_specular_objects == count_true(specular@),
            counts.len() == k,
            forall|j: int|
                0 <= j < k ==> #[trigger] counts[j] == caustic_share(
                    num_photons as int,
                    specular@,
                    bounded@,
                    j,
                ),
        decreases specular.len() - k,
    {
        if specular[k] && bounded[k] {
            proof {
                lemma_count_true_positive(specular@, k as int);
            }
            counts.push(num_photons / num_specular_objects);
        } else {
            counts.push(0);
        }
        k = k + 1;
    }
    counts
}

proof fn lemma_count_true_prefix(s: Seq<bool>, n: int)
    requires
        0 <= n <= s.len(),
    ensures
        count_true(s.take(n)) <= count_true(s),
    decreases s.len() - n,
{
    if n < s.len() {
        lemma_count_true_prefix(s, n + 1);
        assert(s.take(n + 1).drop_last() =~= s.take(n));
    } else {
        assert(s.take(n) =~= s);
    }
}

proof fn lemma_count_true_positive(s: Seq<bool>, i: int)
    requires
        0 <= i < s.len(),
        s[i],
    ensures
        count_true(s) > 0,
    decreases s.len(),
{
    if i < s.len() - 1 {
        lemma_count_true_positive(s.drop_last(), i);
    }
}

/// No light sends more caustic photons than it has: the shares of all
/// objects add up to at most `num_photons`.
pub proof fn lemma_caustic_shares_within_budget(
    num_photons: int,
    specular: Seq<bool>,
    bounded: Seq<bool>,
)
    requires
        0 <= num_photons,
        specular.len() == bounded.len(),
    ensures
        sum_shares(num_photons, specular, bounded, specular.len() as int) <= num_photons,
{
    let c = count_true(specular) as int;
    if c == 0 {
        lemma_shares_zero(num_photons, specular, bounded, specular.len() as int);
    } else {
        lemma_shares_bound(num_photons, specular, bounded, specular.len() as int);
        assert(count_true(specular.take(specular.len() as int)) == c) by {
            assert(specular.take(specular.len() as int) =~= specular);
        }
        assert(c * (num_photons / c) <= num_photons) by (nonlinear_arith)
            requires
                c > 0,
                0 <= num_photons,
        ;
    }
}

/// The shares of the first `n` objects.
pub open spec fn sum_shares(num_photons: int, specular: Seq<bool>, bounded: Seq<bool>, n: int) -> int
    decreases n,
{
    if n <= 0 {
        0
    } else {
        sum_shares(num_photons, specular, bounded, n - 1) + caustic_share(
            num_photons,
            specular,
            bounded,
            n - 1,
        )
    }
}

proof fn lemma_shares_bound(num_photons: int, specular: Seq<bool>, bounded: Seq<bool>, n: int)
    requires
        0 <= num_photons,
        specular.len() == bounded.len(),
        0 <= n <= specular.len(),
        count_true(specular) > 0,
    ensures
        0 <= sum_shares(num_photons, specular, bounded, n) <= count_true(specular.take(n)) * (
        num_photons / count_true(specular) as int),
    decreases n,
{
    let q = num_photons / count_true(specular) as int;
    assert(0 <= q) by (nonlinear_arith)
        requires
            0 <= num_photons,
            count_true(specular) > 0,
            q == num_photons / count_true(specular) as int,
    ;
    if n > 0 {
        lemma_shares_bound(num_photons, specular, bounded, n - 1);
        assert(specular.take(n).drop_last() =~= specular.take(n - 1));
        assert(specular.take(n).last() == specular[n - 1]);
        let before = count_true(specular.take(n - 1)) as int;
        assert((before + 1) * q == before * q + q) by (nonlinear_arith);
        assert(0 <= before * q) by (nonlinear_arith)
            requires
                0 <= before,
                0 <= q,
        ;
    }
}

proof fn lemma_shares_zero(num_photons: int, specular: Seq<bool>, bounded: Seq<bool>, n: int)
    requires
        specular.len() == bounded.len(),
        0 <= n <= specular.len(),
        count_true(specular) == 0,
    ensures
        sum_shares(num_photons, specular, bounded, n) == 0,
    decreases n,
{
    if n > 0 {
        lemma_shares_zero(num_photons, specular, bounded, n - 1);
        if specular[n - 1] {
            lemma_count_true_positive(specular, n - 1);
        }
    }
}

} // verus!
