use sim::appearance::{generate, resolve_uniform, AppearanceContent, UniformOverride};
use sim::defs::{BalanceSeed, Family, PartDef, Pool, UniformDef};

fn part(id: u32, key: &'static str, family: Family, pool: Pool, rare: bool) -> PartDef {
    PartDef { id, key, family, pool, rare }
}

fn bodies() -> &'static [PartDef] {
    leak(vec![
        part(1, "body_adult_a", Family::Adult, Pool::Civilian, false),
        part(2, "body_adult_b", Family::Adult, Pool::Civilian, false),
        part(3, "body_kid_a", Family::Kid, Pool::Civilian, false),
        part(4, "body_kid_b", Family::Kid, Pool::Civilian, false),
    ])
}

fn eyes() -> &'static [PartDef] {
    leak(vec![
        part(1, "eyes_adult_a", Family::Adult, Pool::Civilian, false),
        part(2, "eyes_adult_b", Family::Adult, Pool::Civilian, false),
        part(3, "eyes_kid", Family::Kid, Pool::Civilian, false),
    ])
}

fn outfits() -> &'static [PartDef] {
    leak(vec![
        part(1, "outfit_adult_casual", Family::Adult, Pool::Civilian, false),
        part(2, "outfit_adult_smart", Family::Adult, Pool::Civilian, false),
        part(3, "outfit_kid", Family::Kid, Pool::Civilian, false),
        part(4, "outfit_sanitation", Family::Adult, Pool::RoleOnly, false),
        part(5, "outfit_medic", Family::Adult, Pool::RoleOnly, false),
    ])
}

fn hairstyles() -> &'static [PartDef] {
    leak(vec![
        part(1, "hair_adult_short", Family::Adult, Pool::Civilian, false),
        part(2, "hair_adult_long", Family::Adult, Pool::Civilian, false),
        part(3, "hair_adult_pink", Family::Adult, Pool::Civilian, true),
        part(4, "hair_kid", Family::Kid, Pool::Civilian, false),
    ])
}

fn accessories() -> &'static [PartDef] {
    leak(vec![
        part(1, "acc_glasses", Family::Adult, Pool::Civilian, false),
        part(2, "acc_hat", Family::Adult, Pool::Civilian, false),
        part(3, "acc_hi_vis_cap", Family::Adult, Pool::RoleOnly, false),
    ])
}

fn uniforms() -> &'static [UniformDef] {
    leak(vec![
        UniformDef {
            profession: "sanitation_worker",
            outfit: Some("outfit_sanitation"),
            accessory: Some("acc_hi_vis_cap"),
        },
        UniformDef { profession: "medic", outfit: Some("outfit_medic"), accessory: None },
        UniformDef { profession: "medic", outfit: Some("outfit_adult_smart"), accessory: None },
    ])
}

fn seed(key: &'static str, value: i64) -> BalanceSeed {
    BalanceSeed { key, value, min: 0, max: 100 }
}

fn balance() -> &'static [BalanceSeed] {
    leak(vec![
        seed("citizen.appearance.hair_rare_chance", 10),
        seed("citizen.appearance.accessory_none_chance", 40),
    ])
}

fn always_rare_never_accessory() -> &'static [BalanceSeed] {
    leak(vec![
        seed("citizen.appearance.hair_rare_chance", 100),
        seed("citizen.appearance.accessory_none_chance", 100),
    ])
}

fn never_rare_always_accessory() -> &'static [BalanceSeed] {
    leak(vec![
        seed("citizen.appearance.hair_rare_chance", 0),
        seed("citizen.appearance.accessory_none_chance", 0),
    ])
}

fn leak<T>(v: Vec<T>) -> &'static [T] {
    Box::leak(v.into_boxed_slice())
}

fn content() -> AppearanceContent {
    content_with(balance())
}

fn content_with(balance: &'static [BalanceSeed]) -> AppearanceContent {
    AppearanceContent {
        bodies: bodies(),
        eyes: eyes(),
        outfits: outfits(),
        hairstyles: hairstyles(),
        accessories: accessories(),
        uniforms: uniforms(),
        balance,
    }
}

fn find(parts: &[PartDef], id: u16) -> PartDef {
    *parts.iter().find(|p| p.id as u16 == id).unwrap()
}

#[test]
fn generate_is_deterministic_for_the_same_id() {
    let c = content();
    let a = generate(42, Family::Adult, &c);
    let b = generate(42, Family::Adult, &c);
    assert_eq!(a, b);
}

#[test]
fn generate_never_returns_a_zero_body_eyes_or_outfit() {
    let c = content();
    for id in [0u64, 1, 42, u64::MAX] {
        let a = generate(id, Family::Adult, &c);
        assert_ne!(a.body, 0);
        assert_ne!(a.eyes, 0);
        assert_ne!(a.outfit, 0);
    }
}

#[test]
fn generate_never_gives_a_kid_an_accessory() {
    let c = content();
    for id in [0u64, 1, 42, 1234, u64::MAX] {
        let a = generate(id, Family::Kid, &c);
        assert_eq!(a.accessory, 0);
    }
}

#[test]
fn generate_only_uses_the_requested_familys_parts() {
    let c = content();
    for id in 0u64..200 {
        let adult = generate(id, Family::Adult, &c);
        let body = find(bodies(), adult.body);
        assert_eq!(body.family, Family::Adult);
        let outfit = find(outfits(), adult.outfit);
        assert_eq!(outfit.family, Family::Adult);
        assert_eq!(outfit.pool, Pool::Civilian);

        let kid = generate(id, Family::Kid, &c);
        let kid_body = find(bodies(), kid.body);
        assert_eq!(kid_body.family, Family::Kid);
    }
}

#[test]
fn resolve_uniform_finds_the_sanitation_worker_mapping() {
    let c = content();
    let uniform =
        resolve_uniform("sanitation_worker", &c).expect("sanitation_worker must have a uniform");
    assert!(uniform.accessory.is_some());
}

#[test]
fn resolve_uniform_is_none_for_a_profession_with_no_uniform_entry() {
    let c = content();
    assert_eq!(resolve_uniform("no_such_profession_at_all", &c), None);
}

#[test]
fn resolve_uniform_gives_the_named_parts_ids() {
    let c = content();
    assert_eq!(
        resolve_uniform("sanitation_worker", &c),
        Some(UniformOverride { outfit: Some(4), accessory: Some(3) })
    );
}

#[test]
fn resolve_uniform_takes_the_first_entry_and_leaves_unnamed_layers_empty() {
    let c = content();
    assert_eq!(
        resolve_uniform("medic", &c),
        Some(UniformOverride { outfit: Some(5), accessory: None })
    );
}

#[test]
fn generate_picks_the_only_part_of_a_single_part_family() {
    let c = content();
    for id in [0u64, 7, 99, u64::MAX] {
        let kid = generate(id, Family::Kid, &c);
        assert_eq!(kid.eyes, 3);
        assert_eq!(kid.outfit, 3);
        assert_eq!(kid.hairstyle, 4);
    }
}

#[test]
fn generate_draws_a_rare_hairstyle_when_the_roll_always_wants_one() {
    let c = content_with(always_rare_never_accessory());
    for id in 0u64..50 {
        let a = generate(id, Family::Adult, &c);
        assert_eq!(a.hairstyle, 3);
        assert_eq!(a.accessory, 0);
    }
}

#[test]
fn generate_never_draws_a_rare_hairstyle_at_zero_chance() {
    let c = content_with(never_rare_always_accessory());
    for id in 0u64..50 {
        let a = generate(id, Family::Adult, &c);
        assert!(a.hairstyle == 1 || a.hairstyle == 2);
        assert!(a.accessory == 1 || a.accessory == 2);
    }
}

#[test]
fn generate_falls_back_to_the_rare_pool_when_no_common_hairstyle_exists() {
    let mut c = content_with(never_rare_always_accessory());
    c.hairstyles = leak(vec![part(9, "hair_rare_only", Family::Adult, Pool::Civilian, true)]);
    assert_eq!(generate(5, Family::Adult, &c).hairstyle, 9);
}

#[test]
fn generate_gives_zero_for_a_family_with_no_parts_of_a_kind() {
    let mut c = content();
    c.accessories = &[];
    c.hairstyles = &[];
    let a = generate(11, Family::Adult, &c);
    assert_eq!(a.hairstyle, 0);
    assert_eq!(a.accessory, 0);
}
