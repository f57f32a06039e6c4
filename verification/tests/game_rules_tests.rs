use penguin_game::game_rules::{
    initial_ups_index, should_reload, shooting_step, speed_multiplier, tooltip_ttl_after_show, ui_step, update_ttl, ups_index_step,
    Timed, DEFAULT_UPS_PRESET, EXPLOSION_TTL, FUEL_MAX, ROCKET_SHOOT_COOLDOWN,
};

#[test]
fn shooting_costs_fuel_and_starts_the_cooldown() {
    assert_eq!(shooting_step(150, 0, true, false, false), (51, ROCKET_SHOOT_COOLDOWN, true));
    assert_eq!(shooting_step(150, 2, true, false, false), (151, 1, false));
    assert_eq!(shooting_step(150, 1, true, false, false), (51, ROCKET_SHOOT_COOLDOWN, true));
    assert_eq!(shooting_step(99, 0, true, false, false), (100, 0, false));
    assert_eq!(shooting_step(FUEL_MAX, 0, false, false, false), (FUEL_MAX, 0, false));
}

#[test]
fn eyepatch_allows_one_rocket_at_a_time() {
    assert_eq!(shooting_step(200, 0, true, true, false).2, false);
    assert_eq!(shooting_step(200, 0, true, true, true).2, true);
}

#[test]
fn counters_count_down_to_zero() {
    assert_eq!(ui_step(3, 0), (2, 0));
    assert_eq!(tooltip_ttl_after_show(0), 9);
    assert_eq!(tooltip_ttl_after_show(295), 300);
}

#[test]
fn update_rate_choice() {
    assert_eq!(initial_ups_index(0), DEFAULT_UPS_PRESET);
    assert_eq!(initial_ups_index(10), 0);
    assert_eq!(ups_index_step(0, true, false), 0);
    assert_eq!(ups_index_step(5, true, true), 4);
    assert_eq!(ups_index_step(11, false, true), 11);
    assert_eq!(ups_index_step(3, false, true), 4);
}

#[test]
fn expired_rockets_explode_at_most_sixteen_at_a_time() {
    let mut rockets: Vec<Timed<i32>> = (0..20).map(|i| Timed { ttl: 1, body: i }).collect();
    rockets.insert(3, Timed { ttl: 5, body: 100 });
    let mut explosions = vec![Timed { ttl: 1, body: -1 }, Timed { ttl: 3, body: -2 }];
    update_ttl(&mut rockets, &mut explosions, |r: &i32| *r * 10);
    assert_eq!(rockets, vec![Timed { ttl: 4, body: 100 }]);
    assert_eq!(explosions.len(), 1 + 16);
    assert_eq!(explosions[0], Timed { ttl: 2, body: -2 });
    for (k, e) in explosions[1..].iter().enumerate() {
        assert_eq!(*e, Timed { ttl: EXPLOSION_TTL, body: k as i32 * 10 });
    }
}

#[test]
fn counters_at_zero_expire() {
    let mut rockets = vec![Timed { ttl: 0, body: 'a' }, Timed { ttl: 2, body: 'b' }];
    let mut explosions: Vec<Timed<char>> = Vec::new();
    update_ttl(&mut rockets, &mut explosions, |c: &char| c.to_ascii_uppercase());
    assert_eq!(rockets, vec![Timed { ttl: 1, body: 'b' }]);
    assert_eq!(explosions, vec![Timed { ttl: 8, body: 'A' }]);
}

#[test]
fn speed_up_and_reload_choices() {
    assert_eq!(speed_multiplier(true), 5);
    assert_eq!(speed_multiplier(false), 1);
    assert!(should_reload(true, true, true, 10, 0));
    assert!(!should_reload(false, true, true, 10, 0));
    assert!(!should_reload(true, true, true, 7, 7));
    assert!(!should_reload(true, false, true, 10, 0));
}
