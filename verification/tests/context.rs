use xgboost_rs::context::{round_seed, Context};
use xgboost_rs::parameters::{GeneralParameters, LearningTaskParameters, Verbosity};
use xgboost_rs::rng::Mt19937;

#[test]
fn the_seed_parameter_drives_the_engine() {
    let learning = LearningTaskParameters { seed: 7, ..Default::default() };
    let mut a = Context::new(&GeneralParameters::default(), &learning);
    let mut b = Context::new(&GeneralParameters::default(), &learning);
    assert_eq!(a.rng().next_u32(), b.rng().next_u32());

    let other = LearningTaskParameters { seed: 8, ..Default::default() };
    let mut c = Context::new(&GeneralParameters::default(), &other);
    assert_ne!(
        Context::new(&GeneralParameters::default(), &learning).rng().next_u32(),
        c.rng().next_u32()
    );
}

#[test]
fn seed_per_iteration_reseeds_only_when_asked() {
    let learning = LearningTaskParameters { seed: 3, ..Default::default() };
    let mut fixed = Context::new(&GeneralParameters::default(), &learning);
    let first = fixed.rng().next_u32();
    fixed.seed_for_iteration(1);
    assert_ne!(fixed.rng().next_u32(), first, "an unseeded engine keeps advancing");

    let learning =
        LearningTaskParameters { seed: 3, seed_per_iteration: true, ..Default::default() };
    let mut per_iter = Context::new(&GeneralParameters::default(), &learning);
    per_iter.seed_for_iteration(1);
    let round_one = per_iter.rng().next_u32();
    let mut again = Context::new(&GeneralParameters::default(), &learning);
    again.seed_for_iteration(1);
    assert_eq!(again.rng().next_u32(), round_one, "round 1 is reproducible");

    again.seed_for_iteration(2);
    assert_ne!(again.rng().next_u32(), round_one, "round 2 differs from round 1");
}

#[test]
fn verbosity_gates_messages_by_level() {
    let quiet = Context { verbosity: Verbosity::Silent, ..Context::default() };
    assert!(!quiet.logs(Verbosity::Warning));

    let normal = Context::default();
    assert!(normal.logs(Verbosity::Warning));
    assert!(!normal.logs(Verbosity::Info));

    let loud = Context { verbosity: Verbosity::Debug, ..Context::default() };
    assert!(loud.logs(Verbosity::Info));
    assert!(loud.logs(Verbosity::Debug));
}

#[test]
fn the_engine_is_the_mersenne_twister() {
    let mut rng = Mt19937::new(5489);
    assert_eq!(rng.next_u32(), 3499211612);
    assert_eq!(rng.next_u32(), 581869302);
    assert_eq!(rng.next_u32(), 3890346734);
    for _ in 3..9999 {
        rng.next_u32();
    }
    // The ten thousandth draw of the default seed.
    assert_eq!(rng.next_u32(), 4123659995);
}

#[test]
fn a_round_seed_keeps_the_low_word() {
    assert_eq!(round_seed(3, 1), 382);
    assert_eq!(round_seed(-1, 0), 0u32.wrapping_sub(127));
    assert_eq!(round_seed(i64::MAX, 5), (i64::MAX.wrapping_mul(127).wrapping_add(5)) as u32);
    assert_eq!(round_seed(i64::MIN, 7), 7);
}

#[test]
fn a_negative_seed_is_narrowed() {
    let learning = LearningTaskParameters { seed: -2, ..Default::default() };
    let mut a = Context::new(&GeneralParameters::default(), &learning);
    assert_eq!(a.rng().next_u32(), Mt19937::new(u32::MAX - 1).next_u32());
}

#[test]
fn zero_threads_means_all_there_are() {
    let general = GeneralParameters { nthread: 3, ..Default::default() };
    let ctx = Context::new(&general, &LearningTaskParameters::default());
    assert_eq!(ctx.threads(16), 3);
    assert_eq!(Context::default().threads(16), 16);
}
