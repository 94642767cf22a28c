use gameplay::player::Player;

fn with_health(h: f32) -> Player {
    Player { health: h.to_bits(), hallucination_severity: 0 }
}

#[test]
fn default_player_is_at_full_health() {
    let p = Player::default();
    assert_eq!(f32::from_bits(p.health), 1.0);
    assert_eq!(f32::from_bits(p.hallucination_severity), 0.0);
    assert!(p.is_alive());
}

#[test]
fn alive_means_health_above_zero() {
    for h in [1.0f32, 0.5, 0.001, f32::MIN_POSITIVE, f32::from_bits(1), f32::MAX, f32::INFINITY] {
        assert!(with_health(h).is_alive(), "{h}");
        assert_eq!(with_health(h).is_alive(), h > 0.0);
    }
}

#[test]
fn zero_and_below_is_dead() {
    for h in [0.0f32, -0.0, -0.25, -1.0, f32::NEG_INFINITY, f32::MIN] {
        assert!(!with_health(h).is_alive(), "{h}");
        assert_eq!(with_health(h).is_alive(), h > 0.0);
    }
}

#[test]
fn nan_health_is_dead() {
    assert!(!with_health(f32::NAN).is_alive());
    assert!(!with_health(-f32::NAN).is_alive());
    assert!(!Player { health: 0x7F80_0001, hallucination_severity: 0 }.is_alive());
    assert!(!Player { health: 0xFFFF_FFFF, hallucination_severity: 0 }.is_alive());
}

#[test]
fn is_alive_agrees_with_float_comparison_on_a_sweep() {
    let mut bits: u32 = 0;
    loop {
        let h = f32::from_bits(bits);
        assert_eq!(Player { health: bits, hallucination_severity: 0 }.is_alive(), h > 0.0);
        match bits.checked_add(0x0001_2345) {
            Some(b) => bits = b,
            None => break,
        }
    }
}
