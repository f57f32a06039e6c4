//! The game's counting rules: fuel and rocket cooldown, the time-to-live of
//! rockets, explosions, tooltips and status icons, and the choice of the
//! update rate. Positions and velocities are no concern of these rules.
use arrayvec::ArrayVec;
use vstd::prelude::*;

verus! {

/// The most fuel the penguin can hold.
pub const FUEL_MAX: u16 = 240;

/// The fuel that a rocket costs.
pub const FUEL_ROCKET_COST: u16 = 100;

/// The updates between two shots.
pub const ROCKET_SHOOT_COOLDOWN: u16 = 40;

/// The longest a tooltip stays.
pub const TOOLTIP_TTL_MAX: u16 = 300;

/// How much longer a tooltip stays for each update the penguin spends in its
/// trigger.
pub const TOOLTIP_TTL_GROW_RATE: u16 = 9;

/// How long a status icon stays after a teleport.
pub const STATUS_TTL_MAX: u16 = 360;

/// How long an explosion lasts.
pub const EXPLOSION_TTL: u16 = 8;

/// How many update rates there are to choose from.
pub const UPS_PRESET_COUNT: usize = 12;

/// The update rate the game starts with, unless it skips ahead.
pub const DEFAULT_UPS_PRESET: usize = 6;

/// A counter one update later: one less, but never below zero.
pub open spec fn tick(ttl: u16) -> u16 {
    if ttl == 0 {
        0
    } else {
        (ttl - 1) as u16
    }
}

/// The penguin's fuel and rocket cooldown after an update, and whether it
/// fires a rocket. The cooldown counts down first; a rocket is fired when the
/// shoot input is down, the fuel covers its cost, the cooldown is over, and
/// the penguin wears no eyepatch or has no rocket in the air. Firing costs
/// fuel and restarts the cooldown. Then the fuel grows by one, up to its most.
pub open spec fn spec_shooting_step(
    fuel: u16,
    cooldown: u16,
    shoot_down: bool,
    has_eyepatch: bool,
    no_rockets: bool,
) -> (u16, u16, bool) {
    let cooldown = tick(cooldown);
    let fires = fuel >= FUEL_ROCKET_COST && cooldown == 0 && shoot_down && (!has_eyepatch
        || no_rockets);
    let fuel = if fires {
        (fuel - FUEL_ROCKET_COST) as u16
    } else {
        fuel
    };
    let cooldown = if fires {
        ROCKET_SHOOT_COOLDOWN
    } else {
        cooldown
    };
    let fuel = if fuel < FUEL_MAX {
        (fuel + 1) as u16
    } else {
        fuel
    };
    (fuel, cooldown, fires)
}

/// The penguin's fuel and rocket cooldown after an update, and whether it
/// fires a rocket.
pub fn shooting_step(
    fuel: u16,
    cooldown: u16,
    shoot_down: bool,
    has_eyepatch: bool,
    no_rockets: bool,
) -> (r: (u16, u16, bool))
    ensures
        r == spec_shooting_step(fuel, cooldown, shoot_down, has_eyepatch, no_rockets),
{
    let mut cooldown = cooldown.saturating_sub(1);
    let mut fuel = fuel;
    let fires = fuel >= FUEL_ROCKET_COST && cooldown == 0 && shoot_down && (!has_eyepatch
        || no_rockets);
    if fires {
        cooldown = ROCKET_SHOOT_COOLDOWN;
        fuel -= FUEL_ROCKET_COST;
    }
    if fuel < FUEL_MAX {
        fuel += 1;
    }
    (fuel, cooldown, fires)
}

/// The tooltip's and the status icon's time to live after an update.
pub fn ui_step(tooltip_ttl: u16, status_ttl: u16) -> (r: (u16, u16))
    ensures
        r == (tick(tooltip_ttl), tick(status_ttl)),
{
    (tooltip_ttl.saturating_sub(1), status_ttl.saturating_sub(1))
}

/// The tooltip's time to live after an update in its trigger: it grows, up to
/// its most.
pub fn tooltip_ttl_after_show(ttl: u16) -> (r: u16)
    requires
        ttl + TOOLTIP_TTL_GROW_RATE <= u16::MAX,
    ensures
        r == if ttl + TOOLTIP_TTL_GROW_RATE <= TOOLTIP_TTL_MAX {
            ttl + TOOLTIP_TTL_GROW_RATE
        } else {
            TOOLTIP_TTL_MAX as int
        },
{
    let grown = ttl + TOOLTIP_TTL_GROW_RATE;
    if grown <= TOOLTIP_TTL_MAX {
        grown
    } else {
        TOOLTIP_TTL_MAX
    }
}

/// The update rate to start with: the slowest when the game skips ahead to an
/// update, so that what follows can be watched, else the default one.
pub fn initial_ups_index(skip_until_update: u64) -> (r: usize)
    ensures
        r == if skip_until_update == 0 {
            DEFAULT_UPS_PRESET
        } else {
            0
        },
        r < UPS_PRESET_COUNT,
{
    if skip_until_update == 0 {
        DEFAULT_UPS_PRESET
    } else {
        0
    }
}

/// The update rate after a frame: one slower when that key was pressed and
/// there is a slower one, else one faster when that key was pressed and there
/// is a faster one.
pub fn ups_index_step(index: usize, slower_pressed: bool, faster_pressed: bool) -> (r: usize)
    requires
        index < UPS_PRESET_COUNT,
    ensures
        r < UPS_PRESET_COUNT,
        r == if slower_pressed && index > 0 {
            index - 1
        } else if faster_pressed && index < UPS_PRESET_COUNT - 1 {
            index + 1
        } else {
            index as int
        },
{
    if slower_pressed && index > 0 {
        index - 1
    } else if faster_pressed && index < UPS_PRESET_COUNT - 1 {
        index + 1
    } else {
        index
    }
}

/// How many times faster the game runs while the speed-up key (`R`) is held.
pub const SPEED_UP_FACTOR: u32 = 5;

/// The number of updates to run for each update that is due: five while the
/// speed-up key is held, one otherwise.
pub fn speed_multiplier(speed_up_held: bool) -> (m: u32)
    ensures
        m == if speed_up_held {
            SPEED_UP_FACTOR
        } else {
            1
        },
{
    if speed_up_held {
        SPEED_UP_FACTOR
    } else {
        1
    }
}

/// Whether the level is reloaded from disk: only in the native build, when
/// Control is held and `R` is pressed, and not while the game is still
/// waiting at the update it skipped ahead to (which would reload forever).
pub fn should_reload(
    native: bool,
    ctrl_down: bool,
    r_pressed: bool,
    update_number: u64,
    skip_until_update: u64,
) -> (r: bool)
    ensures
        r == (native && ctrl_down && r_pressed && update_number != skip_until_update),
{
    native && ctrl_down && r_pressed && update_number != skip_until_update
}

/// The fuel never goes above its most, and a rocket is fired only with the
/// fuel to pay for it.
pub proof fn lemma_fuel_bounded(
    fuel: u16,
    cooldown: u16,
    shoot_down: bool,
    has_eyepatch: bool,
    no_rockets: bool,
)
    requires
        fuel <= FUEL_MAX,
    ensures
        spec_shooting_step(fuel, cooldown, shoot_down, has_eyepatch, no_rockets).0 <= FUEL_MAX,
        spec_shooting_step(fuel, cooldown, shoot_down, has_eyepatch, no_rockets).2 ==> fuel
            >= FUEL_ROCKET_COST,
{
}

/// Two rockets are at least the cooldown apart: right after a shot, none can
/// be fired for the next `ROCKET_SHOOT_COOLDOWN - 1` updates.
pub proof fn lemma_cooldown_after_shot(
    fuel: u16,
    cooldown: u16,
    shoot_down: bool,
    has_eyepatch: bool,
    no_rockets: bool,
)
    ensures
        spec_shooting_step(fuel, cooldown, shoot_down, has_eyepatch, no_rockets).2
            ==> spec_shooting_step(fuel, cooldown, shoot_down, has_eyepatch, no_rockets).1
            == ROCKET_SHOOT_COOLDOWN,
        cooldown > 1 ==> !spec_shooting_step(fuel, cooldown, shoot_down, has_eyepatch, no_rockets).2,
{
}

/// When a rocket is fired: exactly when the shoot input is down, the fuel is
/// at least `FUEL_ROCKET_COST`, the cooldown is at most one (so it has run
/// out after this update's count-down), and either the penguin wears no
/// eyepatch or no rocket is in the air. A shot leaves the cooldown at
/// `ROCKET_SHOOT_COOLDOWN` and the fuel `FUEL_ROCKET_COST` lower, then grown
/// by one unless that is still at its most; otherwise the cooldown counts
/// down by one (not below zero) and the fuel grows by one up to its most.
pub proof fn lemma_shooting_rules(
    fuel: u16,
    cooldown: u16,
    shoot_down: bool,
    has_eyepatch: bool,
    no_rockets: bool,
)
    ensures
        ({
            let r = spec_shooting_step(fuel, cooldown, shoot_down, has_eyepatch, no_rockets);
            &&& r.2 <==> (shoot_down && fuel >= 100 && cooldown <= 1 && (!has_eyepatch
                || no_rockets))
            &&& r.2 ==> r.1 == 40 && r.0 == (if fuel - 100 < 240 {
                fuel - 99
            } else {
                fuel - 100
            })
            &&& !r.2 ==> r.1 == (if cooldown == 0 {
                0
            } else {
                cooldown - 1
            }) && r.0 == (if fuel < 240 {
                fuel + 1
            } else {
                fuel as int
            })
        }),
{
}

// ---------------------------------------------------------------------------
// Rockets and explosions expire

/// The most explosions that expiring rockets make in one update.
pub const SPAWN_LIMIT: usize = 16;

/// The fixed-capacity vector of the `arrayvec` crate.
#[verifier::external_type_specification]
#[verifier::external_body]
#[verifier::reject_recursive_types(T)]
pub struct ExArrayVec<T, const CAP: usize>(ArrayVec<T, CAP>);

/// What a buffer of rocket indices holds, in order.
pub uninterp spec fn spawn_buffer_items(buffer: ArrayVec<usize, 16>) -> Seq<usize>;

/// Calls `ArrayVec::new`, which makes an empty vector.
#[verifier::external_body]
fn spawn_buffer_new() -> (buffer: ArrayVec<usize, 16>)
    ensures
        spawn_buffer_items(buffer) == Seq::<usize>::empty(),
{
    ArrayVec::new()
}

/// Calls `ArrayVec::try_push`, which appends the item where the vector is not
/// full and otherwise leaves it as it was and returns an error.
#[verifier::external_body]
fn spawn_buffer_try_push(buffer: &mut ArrayVec<usize, 16>, index: usize) -> (pushed: bool)
    ensures
        spawn_buffer_items(*old(buffer)).len() < 16 ==> pushed && spawn_buffer_items(
            *final(buffer),
        ) == spawn_buffer_items(*old(buffer)).push(index),
        spawn_buffer_items(*old(buffer)).len() >= 16 ==> !pushed && spawn_buffer_items(
            *final(buffer),
        ) == spawn_buffer_items(*old(buffer)),
{
    buffer.try_push(index).is_ok()
}

/// Calls `ArrayVec::as_slice`, which gives the items in order.
#[verifier::external_body]
fn spawn_buffer_as_slice(buffer: &ArrayVec<usize, 16>) -> (items: &[usize])
    ensures
        items@ == spawn_buffer_items(*buffer),
{
    buffer.as_slice()
}

/// Something that lasts a number of updates.
#[derive(Clone, Copy, Debug, PartialEq)]
pub struct Timed<T> {
    pub ttl: u16,
    pub body: T,
}

/// What is left of `things` one update later: each counts down, and those
/// whose time is up are gone.
pub open spec fn survivors<T>(things: Seq<Timed<T>>) -> Seq<Timed<T>>
    decreases things.len(),
{
    if things.len() == 0 {
        Seq::empty()
    } else {
        let init = survivors(things.drop_last());
        let t = things.last();
        if tick(t.ttl) != 0 {
            init.push(Timed { ttl: tick(t.ttl), body: t.body })
        } else {
            init
        }
    }
}

/// The indices of the counters whose time is up in this update, in order.
pub open spec fn expiring(ttls: Seq<u16>) -> Seq<int>
    decreases ttls.len(),
{
    if ttls.len() == 0 {
        Seq::empty()
    } else {
        let init = expiring(ttls.drop_last());
        if tick(ttls.last()) == 0 {
            init.push(ttls.len() - 1)
        } else {
            init
        }
    }
}

/// The indices of expiring things are indices of things.
proof fn lemma_expiring_bounds(things: Seq<u16>)
    ensures
        forall|m: int|
            0 <= m < expiring(things).len() ==> 0 <= #[trigger] expiring(things)[m] < things.len(),
    decreases things.len(),
{
    if things.len() > 0 {
        let init = things.drop_last();
        lemma_expiring_bounds(init);
        assert forall|m: int| 0 <= m < expiring(things).len() implies 0 <= #[trigger] expiring(
            things,
        )[m] < things.len() by {
            if m < expiring(init).len() {
                assert(expiring(things)[m] == expiring(init)[m]);
            }
        }
    }
}

/// The indices of the rockets whose time is up in this update, in order.
pub open spec fn expiring_rockets<R>(rockets: Seq<Timed<R>>) -> Seq<int> {
    expiring(rockets.map_values(|t: Timed<R>| t.ttl))
}

/// The rockets that make an explosion: the first ones whose time is up, at
/// most `SPAWN_LIMIT` of them.
pub open spec fn spawning_rockets<R>(rockets: Seq<Timed<R>>) -> Seq<int> {
    let e = expiring_rockets(rockets);
    if e.len() <= SPAWN_LIMIT {
        e
    } else {
        e.take(SPAWN_LIMIT as int)
    }
}

/// What is left of `things` one update later, and the indices of those whose
/// time is up.
fn count_down<T: Copy>(things: &Vec<Timed<T>>) -> (r: (Vec<Timed<T>>, Vec<usize>))
    ensures
        r.0@ == survivors(things@),
        r.1@.map_values(|i: usize| i as int) == expiring_rockets(things@),
{
    let ghost idx = things@.map_values(|t: Timed<T>| t.ttl);
    let mut left: Vec<Timed<T>> = Vec::new();
    let mut gone: Vec<usize> = Vec::new();
    let mut i: usize = 0;
    assert(things@.take(0) =~= Seq::<Timed<T>>::empty());
    assert(idx.take(0) =~= Seq::<u16>::empty());
    assert(gone@.map_values(|i: usize| i as int) =~= Seq::<int>::empty());
    while i < things.len()
        invariant
            idx == things@.map_values(|t: Timed<T>| t.ttl),
            0 <= i <= things@.len(),
            left@ == survivors(things@.take(i as int)),
            gone@.map_values(|i: usize| i as int) == expiring(idx.take(i as int)),
        decreases things@.len() - i,
    {
        let t = things[i];
        let ttl = t.ttl.saturating_sub(1);
        assert(things@.take(i + 1).drop_last() =~= things@.take(i as int));
        assert(idx.take(i + 1).drop_last() =~= idx.take(i as int));
        if ttl != 0 {
            left.push(Timed { ttl, body: t.body });
        } else {
            let ghost before = gone@;
            gone.push(i);
            assert(gone@.map_values(|i: usize| i as int) =~= before.map_values(
                |i: usize| i as int,
            ).push(i as int));
        }
        i += 1;
    }
    assert(things@.take(i as int) =~= things@);
    assert(idx.take(i as int) =~= idx);
    (left, gone)
}

/// Counts rockets and explosions down by one update. Rockets and explosions
/// whose time is up are gone; each of the first `SPAWN_LIMIT` rockets whose
/// time is up leaves an explosion, made by `explode` from the rocket and
/// lasting `EXPLOSION_TTL` updates, after the explosions that are left.
pub fn update_ttl<R: Copy, E: Copy, F: Fn(&R) -> E>(
    rockets: &mut Vec<Timed<R>>,
    explosions: &mut Vec<Timed<E>>,
    explode: F,
)
    requires
        forall|r: &R| #[trigger] call_requires(explode, (r,)),
    ensures
        final(rockets)@ == survivors(old(rockets)@),
        final(explosions)@.len() == survivors(old(explosions)@).len() + spawning_rockets(
            old(rockets)@,
        ).len(),
        final(explosions)@.take(survivors(old(explosions)@).len() as int) == survivors(
            old(explosions)@,
        ),
        forall|k: int|
            0 <= k < spawning_rockets(old(rockets)@).len() ==> {
                let e = #[trigger] final(explosions)@[survivors(old(explosions)@).len() + k];
                &&& e.ttl == EXPLOSION_TTL
                &&& call_ensures(
                    explode,
                    (&old(rockets)@[spawning_rockets(old(rockets)@)[k]].body,),
                    e.body,
                )
            },
{
    let (left_rockets, gone) = count_down(rockets);
    let mut spawn = spawn_buffer_new();
    let mut j: usize = 0;
    let ghost all_gone = expiring_rockets(rockets@);
    while j < gone.len()
        invariant
            gone@.map_values(|i: usize| i as int) == all_gone,
            0 <= j <= gone@.len(),
            spawn_buffer_items(spawn).map_values(|i: usize| i as int) == if j <= SPAWN_LIMIT {
                all_gone.take(j as int)
            } else {
                all_gone.take(SPAWN_LIMIT as int)
            },
            spawn_buffer_items(spawn).len() <= SPAWN_LIMIT,
        decreases gone@.len() - j,
    {
        let ghost before = spawn_buffer_items(spawn);
        let pushed = spawn_buffer_try_push(&mut spawn, gone[j]);
        proof {
            assert(all_gone[j as int] == gone@[j as int] as int);
            assert(before.map_values(|i: usize| i as int).len() == before.len());
            if j < SPAWN_LIMIT {
                assert(before.len() == j);
                assert(spawn_buffer_items(spawn) == before.push(gone@[j as int]));
                assert(before.push(gone@[j as int]).map_values(|i: usize| i as int) =~= before.map_values(
                    |i: usize| i as int,
                ).push(gone@[j as int] as int));
                assert(all_gone.take(j as int).push(all_gone[j as int]) =~= all_gone.take(j + 1));
            }
        }
        j += 1;
    }
    let ghost spawning = spawning_rockets(rockets@);
    proof {
        assert(all_gone.take(j as int) =~= all_gone);
        lemma_expiring_bounds(rockets@.map_values(|t: Timed<R>| t.ttl));
    }
    let (left_explosions, _) = count_down(explosions);
    let ghost kept = left_explosions@;
    let mut new_explosions = left_explosions;
    let indices = spawn_buffer_as_slice(&spawn);
    let mut k: usize = 0;
    while k < indices.len()
        invariant
            indices@.map_values(|i: usize| i as int) == spawning,
            spawning == spawning_rockets(rockets@),
            forall|m: int| 0 <= m < spawning.len() ==> 0 <= #[trigger] spawning[m] < rockets@.len(),
            forall|r: &R| #[trigger] call_requires(explode, (r,)),
            0 <= k <= indices@.len(),
            new_explosions@.len() == kept.len() + k,
            new_explosions@.take(kept.len() as int) == kept,
            forall|m: int|
                0 <= m < k ==> {
                    let e = #[trigger] new_explosions@[kept.len() + m];
                    &&& e.ttl == EXPLOSION_TTL
                    &&& call_ensures(explode, (&rockets@[spawning[m]].body,), e.body)
                },
        decreases indices@.len() - k,
    {
        let index = indices[k];
        assert(spawning[k as int] == index as int);
        let body = explode(&rockets[index].body);
        let ghost before = new_explosions@;
        new_explosions.push(Timed { ttl: EXPLOSION_TTL, body });
        assert(new_explosions@.take(kept.len() as int) =~= before.take(kept.len() as int));
        k += 1;
    }
    *rockets = left_rockets;
    *explosions = new_explosions;
}

} // verus!
