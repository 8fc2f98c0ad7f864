//! A citizen's appearance is a stable, five-integer tuple -- `body`,
//! `eyes`, `outfit`, `hairstyle`, `accessory` -- generated once from the
//! citizen id, and stored (never re-derived). Determinism uses
//! [`crate::rng`], seeded from the citizen id and this module's own stream
//! salt.
//!
//! `0` is the "no layer" sentinel for `hairstyle` and `accessory` -- never
//! a declared part id, only a value this generator can produce.
//!
//! The stored tuple is a citizen's own civilian look, drawn only from the
//! civilian pool. Occupation drives a separate, fixed uniform override for
//! the outfit and/or accessory layer ([`resolve_uniform`]), applied only at
//! render time while on shift, and never written back into the stored
//! tuple.

use vstd::prelude::*;
use crate::balance::{has_key, spec_value, value};
use crate::defs::{BalanceSeed, Family, PartDef, Pool, UniformDef, str_eq};
use crate::rng::{Rng, seed_from_ids, spec_seed_from_ids, seeded_state, xoshiro_advance, xoshiro_output};

verus! {

/// Bumped whenever this generator's algorithm, its seeding, or its table
/// order changes in a way that could move its output for an id already in
/// play.
pub const APPEARANCE_VERSION: u32 = 1;

/// This module's own salt for [`seed_from_ids`], distinct from any other
/// system that also seeds off a citizen id.
pub const APPEARANCE_STREAM: u64 = 0x4150_5031_4152_5030;

/// The five stored layer indices. `0` on `hairstyle`/`accessory` means "no
/// layer"; `body`/`eyes`/`outfit` are non-zero whenever the family has a
/// part of that kind.
#[derive(Debug, Clone, Copy, PartialEq, Eq, Structural)]
pub struct Appearance {
    pub body: u16,
    pub eyes: u16,
    pub outfit: u16,
    pub hairstyle: u16,
    pub accessory: u16,
}

/// A profession's fixed uniform. `None` on either field means that layer
/// is left at the citizen's own civilian look while on shift.
#[derive(Debug, Clone, Copy, PartialEq, Eq, Structural)]
pub struct UniformOverride {
    pub outfit: Option<u16>,
    pub accessory: Option<u16>,
}

/// The appearance content tables the generator draws from, and the
/// balance table holding its two chance keys.
#[derive(Clone, Copy, Debug)]
pub struct AppearanceContent {
    pub bodies: &'static [PartDef],
    pub eyes: &'static [PartDef],
    pub outfits: &'static [PartDef],
    pub hairstyles: &'static [PartDef],
    pub accessories: &'static [PartDef],
    pub uniforms: &'static [UniformDef],
    pub balance: &'static [BalanceSeed],
}

/// Which parts a draw considers: those of the family, optionally only the
/// civilian pool, optionally only those of a given rarity.
pub open spec fn part_wanted(p: PartDef, family: Family, civilian_only: bool, rare: Option<bool>) -> bool {
    &&& p.family == family
    &&& (civilian_only ==> p.pool == Pool::Civilian)
    &&& (rare matches Some(r) ==> p.rare == r)
}

/// The ids (narrowed to `u16`) of the wanted parts among the first `n`, in
/// table order.
pub open spec fn wanted_ids(parts: Seq<PartDef>, family: Family, civilian_only: bool, rare: Option<bool>, n: int) -> Seq<u16>
    decreases n,
{
    if n <= 0 {
        Seq::empty()
    } else if part_wanted(parts[n - 1], family, civilian_only, rare) {
        wanted_ids(parts, family, civilian_only, rare, n - 1).push(parts[n - 1].id as u16)
    } else {
        wanted_ids(parts, family, civilian_only, rare, n - 1)
    }
}

/// The ids of every wanted part in `parts`.
pub open spec fn ids_of(parts: Seq<PartDef>, family: Family, civilian_only: bool, rare: Option<bool>) -> Seq<u16> {
    wanted_ids(parts, family, civilian_only, rare, parts.len() as int)
}

/// A uniform pick from `items` with state `w` (`0` and no draw for an
/// empty list), and the state after.
pub open spec fn spec_pick(w: Seq<u64>, items: Seq<u16>) -> (u16, Seq<u64>) {
    if items.len() == 0 {
        (0, w)
    } else {
        (items[(xoshiro_output(w) % (items.len() as u64)) as int], xoshiro_advance(w))
    }
}

/// The hairstyle drawn with state `w`: a percent roll against
/// `rare_chance` picks the rare pool when it is wanted and non-empty, else
/// the common pool when non-empty, else the rare pool.
pub open spec fn spec_hairstyle(w: Seq<u64>, family: Family, c: AppearanceContent, rare_chance: u64) -> (u16, Seq<u64>) {
    let rare_ids = ids_of(c.hairstyles@, family, false, Some(true));
    let common_ids = ids_of(c.hairstyles@, family, false, Some(false));
    let want_rare = xoshiro_output(w) % 100 < rare_chance;
    let pool = if want_rare && rare_ids.len() > 0 {
        rare_ids
    } else if common_ids.len() > 0 {
        common_ids
    } else {
        rare_ids
    };
    spec_pick(xoshiro_advance(w), pool)
}

/// The accessory drawn with state `w`: none for a kid (and no draw); else
/// a percent roll against `none_chance` leaves it empty, or a civilian
/// accessory of the family is picked.
pub open spec fn spec_accessory(w: Seq<u64>, family: Family, c: AppearanceContent, none_chance: u64) -> (u16, Seq<u64>) {
    if family == Family::Kid {
        (0, w)
    } else if xoshiro_output(w) % 100 < none_chance {
        (0, xoshiro_advance(w))
    } else {
        spec_pick(xoshiro_advance(w), ids_of(c.accessories@, family, true, None))
    }
}

/// The appearance generated for `citizen_id` and `family`.
pub open spec fn spec_generate(citizen_id: u64, family: Family, c: AppearanceContent) -> Appearance {
    let w0 = seeded_state(spec_seed_from_ids(citizen_id, APPEARANCE_STREAM));
    let (body, w1) = spec_pick(w0, ids_of(c.bodies@, family, false, None));
    let (eyes, w2) = spec_pick(w1, ids_of(c.eyes@, family, false, None));
    let (outfit, w3) = spec_pick(w2, ids_of(c.outfits@, family, true, None));
    let (hairstyle, w4) = spec_hairstyle(w3, family, c, spec_value(c.balance@, "citizen.appearance.hair_rare_chance"@) as u64);
    let (accessory, w5) = spec_accessory(w4, family, c, spec_value(c.balance@, "citizen.appearance.accessory_none_chance"@) as u64);
    Appearance { body, eyes, outfit, hairstyle, accessory }
}

/// The ids of the wanted parts in `parts`, in table order.
fn family_ids(parts: &[PartDef], family: Family, civilian_only: bool, rare: Option<bool>) -> (ids: Vec<u16>)
    ensures
        ids@ == ids_of(parts@, family, civilian_only, rare),
{
    let mut ids: Vec<u16> = Vec::new();
    let mut i: usize = 0;
    while i < parts.len()
        invariant
            i <= parts.len(),
            ids@ == wanted_ids(parts@, family, civilian_only, rare, i as int),
        decreases parts.len() - i,
    {
        let p = parts[i];
        let wanted = p.family == family && (!civilian_only || p.pool == Pool::Civilian) && match rare {
            Some(r) => p.rare == r,
            None => true,
        };
        if wanted {
            ids.push(p.id as u16);
        }
        i += 1;
    }
    ids
}

/// Uniformly picks one of `items` using `rng`, or `None` for an empty
/// list.
fn pick_uniform(rng: &mut Rng, items: &Vec<u16>) -> (r: Option<u16>)
    requires
        old(rng).words().len() == 4,
    ensures
        final(rng).words().len() == 4,
        items.len() == 0 ==> r is None,
        items.len() > 0 ==> r == Some(spec_pick(old(rng).words(), items@).0),
        final(rng).words() == spec_pick(old(rng).words(), items@).1,
{
    if items.len() == 0 {
        return None;
    }
    let idx = (rng.next_u64() % items.len() as u64) as usize;
    Some(items[idx])
}

fn pick_or_zero(rng: &mut Rng, items: &Vec<u16>) -> (r: u16)
    requires
        old(rng).words().len() == 4,
    ensures
        final(rng).words().len() == 4,
        (r, final(rng).words()) == spec_pick(old(rng).words(), items@),
{
    match pick_uniform(rng, items) {
        Some(v) => v,
        None => 0,
    }
}

/// The two balance keys the generator reads are present.
pub open spec fn has_appearance_keys(c: AppearanceContent) -> bool {
    &&& has_key(c.balance@, "citizen.appearance.hair_rare_chance"@)
    &&& has_key(c.balance@, "citizen.appearance.accessory_none_chance"@)
}

/// Draws the hairstyle: see [`spec_hairstyle`].
fn pick_hairstyle(rng: &mut Rng, family: Family, content: &AppearanceContent) -> (h: u16)
    requires
        old(rng).words().len() == 4,
        has_appearance_keys(*content),
    ensures
        final(rng).words().len() == 4,
        (h, final(rng).words()) == spec_hairstyle(old(rng).words(), family, *content,
            spec_value(content.balance@, "citizen.appearance.hair_rare_chance"@) as u64),
{
    let rare_ids = family_ids(content.hairstyles, family, false, Some(true));
    let common_ids = family_ids(content.hairstyles, family, false, Some(false));
    let rare_chance = value(content.balance, "citizen.appearance.hair_rare_chance") as u64;
    let roll = rng.next_u64() % 100;
    let want_rare = roll < rare_chance;
    if want_rare && rare_ids.len() > 0 {
        pick_or_zero(rng, &rare_ids)
    } else if common_ids.len() > 0 {
        pick_or_zero(rng, &common_ids)
    } else {
        pick_or_zero(rng, &rare_ids)
    }
}

/// Draws the accessory: see [`spec_accessory`].
fn pick_accessory(rng: &mut Rng, family: Family, content: &AppearanceContent) -> (x: u16)
    requires
        old(rng).words().len() == 4,
        has_appearance_keys(*content),
    ensures
        final(rng).words().len() == 4,
        (x, final(rng).words()) == spec_accessory(old(rng).words(), family, *content,
            spec_value(content.balance@, "citizen.appearance.accessory_none_chance"@) as u64),
{
    if family == Family::Kid {
        return 0;
    }
    let none_chance = value(content.balance, "citizen.appearance.accessory_none_chance") as u64;
    let roll = rng.next_u64() % 100;
    if roll < none_chance {
        0
    } else {
        let candidates = family_ids(content.accessories, family, true, None);
        pick_or_zero(rng, &candidates)
    }
}

/// Generates one citizen's appearance tuple, deterministic from
/// `citizen_id` alone: a body, eyes and a civilian outfit of the family,
/// then a hairstyle (rare colours drawn only `hair_rare_chance` percent of
/// the time) and an accessory (none `accessory_none_chance` percent of the
/// time, and never for a kid).
pub fn generate(citizen_id: u64, family: Family, content: &AppearanceContent) -> (a: Appearance)
    requires
        has_appearance_keys(*content),
    ensures
        a == spec_generate(citizen_id, family, *content),
        family == Family::Kid ==> a.accessory == 0,
{
    let mut rng = Rng::new(seed_from_ids(citizen_id, APPEARANCE_STREAM));
    let bodies = family_ids(content.bodies, family, false, None);
    let body = pick_or_zero(&mut rng, &bodies);
    let eyes_ids = family_ids(content.eyes, family, false, None);
    let eyes = pick_or_zero(&mut rng, &eyes_ids);
    let outfits = family_ids(content.outfits, family, true, None);
    let outfit = pick_or_zero(&mut rng, &outfits);

    let hairstyle = pick_hairstyle(&mut rng, family, content);
    let accessory = pick_accessory(&mut rng, family, content);
    Appearance { body, eyes, outfit, hairstyle, accessory }
}

/// The first entry of `parts` with key `key`, if any.
pub open spec fn first_part(parts: Seq<PartDef>, key: Seq<char>, n: int) -> Option<PartDef>
    decreases n,
{
    if n <= 0 {
        None
    } else {
        match first_part(parts, key, n - 1) {
            Some(p) => Some(p),
            None => if parts[n - 1].key@ == key { Some(parts[n - 1]) } else { None },
        }
    }
}

/// The first uniform declared for `profession`, if any.
pub open spec fn first_uniform(us: Seq<UniformDef>, profession: Seq<char>, n: int) -> Option<UniformDef>
    decreases n,
{
    if n <= 0 {
        None
    } else {
        match first_uniform(us, profession, n - 1) {
            Some(u) => Some(u),
            None => if us[n - 1].profession@ == profession { Some(us[n - 1]) } else { None },
        }
    }
}

/// Every part a uniform names exists.
pub open spec fn uniform_parts_resolve(c: AppearanceContent, u: UniformDef) -> bool {
    &&& (u.outfit matches Some(k) ==> first_part(c.outfits@, k@, c.outfits@.len() as int) is Some)
    &&& (u.accessory matches Some(k) ==> first_part(c.accessories@, k@, c.accessories@.len() as int) is Some)
}

/// The uniform override `resolve_uniform` returns: the profession's first
/// uniform with each named part's id (narrowed to `u16`).
pub open spec fn spec_uniform(c: AppearanceContent, profession: Seq<char>) -> Option<UniformOverride> {
    match first_uniform(c.uniforms@, profession, c.uniforms@.len() as int) {
        None => None,
        Some(u) => Some(UniformOverride {
            outfit: match u.outfit {
                Some(k) => Some(first_part(c.outfits@, k@, c.outfits@.len() as int).unwrap().id as u16),
                None => None,
            },
            accessory: match u.accessory {
                Some(k) => Some(first_part(c.accessories@, k@, c.accessories@.len() as int).unwrap().id as u16),
                None => None,
            },
        }),
    }
}

fn find_part(parts: &[PartDef], key: &str) -> (r: Option<PartDef>)
    ensures
        r == first_part(parts@, key@, parts@.len() as int),
{
    let mut i: usize = 0;
    while i < parts.len()
        invariant
            i <= parts.len(),
            first_part(parts@, key@, i as int) is None,
        decreases parts.len() - i,
    {
        if str_eq(parts[i].key, key) {
            proof {
                lemma_first_part_stays(parts@, key@, i as int + 1, parts@.len() as int);
            }
            return Some(parts[i]);
        }
        i += 1;
    }
    None
}

proof fn lemma_first_part_stays(parts: Seq<PartDef>, key: Seq<char>, n: int, m: int)
    requires
        0 <= n <= m,
        first_part(parts, key, n) is Some,
    ensures
        first_part(parts, key, m) == first_part(parts, key, n),
    decreases m - n,
{
    if m > n {
        lemma_first_part_stays(parts, key, n, m - 1);
    }
}

proof fn lemma_first_uniform_stays(us: Seq<UniformDef>, profession: Seq<char>, n: int, m: int)
    requires
        0 <= n <= m,
        first_uniform(us, profession, n) is Some,
    ensures
        first_uniform(us, profession, m) == first_uniform(us, profession, n),
    decreases m - n,
{
    if m > n {
        lemma_first_uniform_stays(us, profession, n, m - 1);
    }
}

/// The fixed uniform override for `profession_key`, or `None` when that
/// profession declares no uniform. Every part a declared uniform names must
/// exist (content validation guarantees it).
pub fn resolve_uniform(profession_key: &str, content: &AppearanceContent) -> (r: Option<UniformOverride>)
    requires
        first_uniform(content.uniforms@, profession_key@, content.uniforms@.len() as int) matches Some(u)
            ==> uniform_parts_resolve(*content, u),
    ensures
        r == spec_uniform(*content, profession_key@),
{
    let us = content.uniforms;
    let mut i: usize = 0;
    while i < us.len()
        invariant
            i <= us.len(),
            us@ == content.uniforms@,
            first_uniform(us@, profession_key@, i as int) is None,
            first_uniform(content.uniforms@, profession_key@, content.uniforms@.len() as int) matches Some(u)
                ==> uniform_parts_resolve(*content, u),
        decreases us.len() - i,
    {
        if str_eq(us[i].profession, profession_key) {
            let u = us[i];
            proof {
                assert(first_uniform(us@, profession_key@, i as int + 1) == Some(u));
                lemma_first_uniform_stays(us@, profession_key@, i as int + 1, us@.len() as int);
                assert(uniform_parts_resolve(*content, u));
            }
            let outfit = match u.outfit {
                Some(k) => match find_part(content.outfits, k) {
                    Some(p) => Some(p.id as u16),
                    None => None,
                },
                None => None,
            };
            let accessory = match u.accessory {
                Some(k) => match find_part(content.accessories, k) {
                    Some(p) => Some(p.id as u16),
                    None => None,
                },
                None => None,
            };
            let r = Some(UniformOverride { outfit, accessory });
            assert(r == spec_uniform(*content, profession_key@));
            return r;
        }
        i += 1;
    }
    None
}

} // verus!
