use raytracer::csg::HitRecord;
use raytracer::photon::{
    roulette_outcome, accepts_exiting_hits, photon_bounce, caustic_photon_counts, photon_continuation, shadow_from_photons,
    u32_as_f32_value, PhotonOutcome, PhotonType, NUM_PHOTONS, PHOTON_SEARCH_COUNT,
};

fn photons(shadow: usize, direct: usize, indirect: usize) -> Vec<PhotonType> {
    let mut v = Vec::new();
    v.extend(std::iter::repeat(PhotonType::ShadowPhoton).take(shadow));
    v.extend(std::iter::repeat(PhotonType::DirectionIllumination).take(direct));
    v.extend(std::iter::repeat(PhotonType::IndirectIllumination).take(indirect));
    v
}

#[test]
fn all_shadow_photons_mean_shadow() {
    assert_eq!(shadow_from_photons(&photons(300, 0, 50), PHOTON_SEARCH_COUNT), Some(true));
}

#[test]
fn no_shadow_photons_mean_light() {
    assert_eq!(shadow_from_photons(&photons(0, 400, 0), PHOTON_SEARCH_COUNT), Some(false));
}

#[test]
fn mixed_or_too_few_photons_leave_it_open() {
    assert_eq!(shadow_from_photons(&photons(200, 200, 0), PHOTON_SEARCH_COUNT), None);
    assert_eq!(shadow_from_photons(&photons(299, 0, 1000), PHOTON_SEARCH_COUNT), None);
    assert_eq!(shadow_from_photons(&photons(0, 0, 0), 0), None);
}

#[test]
fn conversion_matches_as_f32() {
    for v in [0u32, 1, 16_777_215, 16_777_216, 16_777_217, 16_777_218, 16_777_219, 33_554_435,
              2_147_483_647, 4_294_967_295, 123_456_789] {
        assert_eq!(u32_as_f32_value(v), v as f32 as u64, "{}", v);
    }
}

#[test]
fn roulette_continuations() {
    assert_eq!(photon_continuation(PhotonOutcome::Reflect, false), Some(PhotonType::IndirectIllumination));
    assert_eq!(photon_continuation(PhotonOutcome::Absorb, true), Some(PhotonType::ShadowPhoton));
    assert_eq!(photon_continuation(PhotonOutcome::Transmit, true), Some(PhotonType::IndirectIllumination));
    assert_eq!(photon_continuation(PhotonOutcome::Transmit, false), None);
    assert!(accepts_exiting_hits(Some(PhotonOutcome::Transmit)));
    assert!(!accepts_exiting_hits(Some(PhotonOutcome::Reflect)));
    assert!(!accepts_exiting_hits(None));
}

#[test]
fn caustic_photons_are_shared_among_specular_objects() {
    let specular = vec![true, false, true, true];
    let bounded = vec![true, true, false, true];
    let counts = caustic_photon_counts(NUM_PHOTONS, &specular, &bounded);
    assert_eq!(counts, vec![30_000, 0, 0, 30_000]);
    assert!(counts.iter().sum::<u32>() <= NUM_PHOTONS);
    assert_eq!(caustic_photon_counts(10, &vec![false], &vec![true]), vec![0]);
}

#[test]
fn roulette_thresholds() {
    let b = |x: f32| x.to_bits();
    // Diffuse surfaces: reflect up to 0.2, absorb above, never transmit.
    assert_eq!(roulette_outcome(b(0.0), false, false), (PhotonOutcome::Reflect, b(0.2)));
    assert_eq!(roulette_outcome(b(0.2), false, false), (PhotonOutcome::Reflect, b(0.2)));
    assert_eq!(roulette_outcome(b(0.21), false, false), (PhotonOutcome::Absorb, b(0.8)));
    // Specular surfaces reflect up to 0.95.
    assert_eq!(roulette_outcome(b(0.9), true, false), (PhotonOutcome::Reflect, b(0.95)));
    assert_eq!(roulette_outcome(b(0.96), true, false), (PhotonOutcome::Absorb, b(0.05)));
    // Transparent surfaces transmit between 0.05 and 0.05 + 0.65.
    assert_eq!(roulette_outcome(b(0.5), false, true), (PhotonOutcome::Transmit, b(0.65)));
    assert_eq!(roulette_outcome(b(0.05f32 + 0.65f32), true, true), (PhotonOutcome::Transmit, b(0.65)));
    assert_eq!(roulette_outcome(b(0.71), false, true), (PhotonOutcome::Absorb, b(0.25)));
    assert_eq!(roulette_outcome(b(0.01), false, true), (PhotonOutcome::Reflect, b(0.05)));
}

fn first(d: f32, entering: bool) -> Option<HitRecord> {
    Some(HitRecord { distance: d.to_bits(), entering, tag: 0 })
}

#[test]
fn photon_lands_on_nearest_entered_object() {
    // Object 1 is nearer but the photon would leave it there; a photon that
    // was not transmitted lands on object 2.
    let hits = vec![None, first(1.0, false), first(3.0, true), first(5.0, true)];
    let chance = 0.1f32.to_bits();
    let (landed, next) = photon_bounce(&hits, Some(PhotonOutcome::Reflect), 2, chance, true, false, false, false);
    assert_eq!(landed, Some(2));
    assert_eq!(next, Some((PhotonOutcome::Reflect, 0.2f32.to_bits(), 1)));
    // After a transmission it may land where it leaves.
    let (landed, _) = photon_bounce(&hits, Some(PhotonOutcome::Transmit), 2, chance, true, false, false, false);
    assert_eq!(landed, Some(1));
}

#[test]
fn photon_trace_ends() {
    let hits = vec![first(2.0, true)];
    let chance = 0.5f32.to_bits();
    // Nothing hit: nothing stored, nothing follows.
    assert_eq!(photon_bounce(&vec![None], None, 3, chance, true, false, false, false), (None, None));
    // Depth zero: stored, then the trace ends.
    assert_eq!(photon_bounce(&hits, None, 0, chance, true, false, false, false), (Some(0), None));
    // No material: stored, then the trace ends.
    assert_eq!(photon_bounce(&hits, None, 3, chance, false, false, false, false), (Some(0), None));
    // Transmitted through a material without an index of refraction: ends.
    assert_eq!(photon_bounce(&hits, None, 3, chance, true, false, true, false), (Some(0), None));
    // With one, the photon goes on.
    assert_eq!(
        photon_bounce(&hits, None, 3, chance, true, false, true, true),
        (Some(0), Some((PhotonOutcome::Transmit, 0.65f32.to_bits(), 2)))
    );
    // Absorbed photons go on as shadow photons.
    assert_eq!(
        photon_bounce(&hits, None, 1, 0.9f32.to_bits(), true, false, false, false),
        (Some(0), Some((PhotonOutcome::Absorb, 0.8f32.to_bits(), 0)))
    );
}
