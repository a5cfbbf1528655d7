use salvage::Error;
use salvage::session::finite;
use salvage::session::validate_name;
use salvage::session::SessionState;
use salvage::session::Ship;
use salvage::session::User;
use salvage::session::MAX_NAME_CHARS;
use salvage::session::SHIP_SPAWN_POS_X_BITS;

fn with_user(who: u64) -> SessionState {
    let mut s = SessionState::new();
    s.client_connected(who, 100);
    s
}

#[test]
fn spawn_position_bits_encode_a_hundredth() {
    assert_eq!(SHIP_SPAWN_POS_X_BITS, (0.01f64).to_bits());
    assert_eq!(0u64, (0.0f64).to_bits());
}

#[test]
fn finiteness_follows_the_bit_pattern() {
    assert!(finite((1.5f64).to_bits()));
    assert!(finite((0.0f64).to_bits()));
    assert!(finite((-3.25e300f64).to_bits()));
    assert!(finite(5e-324f64.to_bits()));
    assert!(!finite(f64::NAN.to_bits()));
    assert!(!finite(f64::INFINITY.to_bits()));
    assert!(!finite(f64::NEG_INFINITY.to_bits()));
}

#[test]
fn validate_name_trims_and_bounds_length() {
    assert_eq!(validate_name(String::from(" Bob ")), Ok(String::from("Bob")));
    assert_eq!(validate_name(String::from("")), Err(Error::InvalidInput));
    assert_eq!(validate_name(String::from(" ")), Err(Error::InvalidInput));
    assert_eq!(validate_name("a".repeat(33)), Err(Error::InvalidInput));
    assert_eq!(validate_name("a".repeat(32)), Ok("a".repeat(32)));
    assert_eq!(MAX_NAME_CHARS, 32);
}

#[test]
fn validate_name_counts_characters_not_bytes() {
    // 32 two-byte characters are within the limit; 33 are not
    assert_eq!(validate_name("ä".repeat(32)), Ok("ä".repeat(32)));
    assert_eq!(validate_name("ä".repeat(33)), Err(Error::InvalidInput));
    // unicode whitespace is trimmed like ASCII whitespace
    assert_eq!(validate_name(String::from("\u{3000}Bob\u{2003}")), Ok(String::from("Bob")));
}

#[test]
fn set_name_stores_the_trimmed_name() {
    let mut s = with_user(1);
    assert_eq!(s.set_name(1, String::from(" Bob ")), Ok(()));
    assert_eq!(s.users[0].name, Some(String::from("Bob")));
    assert_eq!(s.users[0].identity, 1);
    assert!(s.users[0].online);
}

#[test]
fn set_name_rejects_bad_input() {
    let mut s = with_user(1);
    assert_eq!(s.set_name(1, String::from("")), Err(Error::InvalidInput));
    assert_eq!(s.set_name(1, String::from(" ")), Err(Error::InvalidInput));
    assert_eq!(s.set_name(1, "a".repeat(33)), Err(Error::InvalidInput));
    assert_eq!(s.users[0].name, None);
}

#[test]
fn set_name_for_unknown_user_fails() {
    let mut s = SessionState::new();
    assert_eq!(s.set_name(1, String::from("Bob")), Err(Error::NotFound));
    assert!(s.users.is_empty());
}

#[test]
fn connect_spawns_ship_near_origin_once() {
    let mut s = SessionState::new();
    s.client_connected(1, 100);
    assert_eq!(s.users.len(), 1);
    assert_eq!(
        s.ships,
        vec![Ship {
            owner: 1,
            px_bits: (0.01f64).to_bits(),
            py_bits: 0,
            pz_bits: 0,
            vx_bits: 0,
            vy_bits: 0,
            vz_bits: 0,
            updated_at: 100,
        }]
    );
    // a reconnect keeps the existing ship and user row
    s.client_connected(1, 200);
    assert_eq!(s.users.len(), 1);
    assert_eq!(s.ships.len(), 1);
    assert_eq!(s.ships[0].updated_at, 100);
}

#[test]
fn disconnect_marks_offline_and_keeps_the_name() {
    let mut s = with_user(1);
    assert_eq!(s.set_name(1, String::from("Ada")), Ok(()));
    s.client_disconnected(1);
    assert_eq!(
        s.users[0],
        User { identity: 1, name: Some(String::from("Ada")), online: false }
    );
    // the name survives a reconnect
    s.client_connected(1, 300);
    assert_eq!(s.users[0], User { identity: 1, name: Some(String::from("Ada")), online: true });
    // disconnecting an unknown identity is a no-op
    s.client_disconnected(9);
    assert_eq!(s.users.len(), 1);
}

#[test]
fn set_ship_state_updates_all_components() {
    let mut s = with_user(1);
    let r = s.set_ship_state(
        1,
        (1.0f64).to_bits(),
        (2.0f64).to_bits(),
        (3.0f64).to_bits(),
        (4.0f64).to_bits(),
        (5.0f64).to_bits(),
        (6.0f64).to_bits(),
        777,
    );
    assert_eq!(r, Ok(()));
    assert_eq!(
        s.ships[0],
        Ship {
            owner: 1,
            px_bits: (1.0f64).to_bits(),
            py_bits: (2.0f64).to_bits(),
            pz_bits: (3.0f64).to_bits(),
            vx_bits: (4.0f64).to_bits(),
            vy_bits: (5.0f64).to_bits(),
            vz_bits: (6.0f64).to_bits(),
            updated_at: 777,
        }
    );
}

#[test]
fn non_finite_components_are_rejected_and_change_nothing() {
    let mut s = with_user(1);
    let before = s.ships[0];
    let ok = (1.0f64).to_bits();
    let bad = [f64::NAN.to_bits(), f64::INFINITY.to_bits(), f64::NEG_INFINITY.to_bits()];
    for b in bad {
        assert_eq!(s.set_ship_state(1, b, ok, ok, ok, ok, ok, 5), Err(Error::InvalidInput));
        assert_eq!(s.set_ship_state(1, ok, b, ok, ok, ok, ok, 5), Err(Error::InvalidInput));
        assert_eq!(s.set_ship_state(1, ok, ok, b, ok, ok, ok, 5), Err(Error::InvalidInput));
        assert_eq!(s.set_ship_state(1, ok, ok, ok, b, ok, ok, 5), Err(Error::InvalidInput));
        assert_eq!(s.set_ship_state(1, ok, ok, ok, ok, b, ok, 5), Err(Error::InvalidInput));
        assert_eq!(s.set_ship_state(1, ok, ok, ok, ok, ok, b, 5), Err(Error::InvalidInput));
        assert_eq!(s.warp_to(1, b, ok, ok, 5), Err(Error::InvalidInput));
    }
    assert_eq!(s.ships[0], before);
}

#[test]
fn ship_updates_for_unknown_owner_fail() {
    let mut s = SessionState::new();
    let ok = (1.0f64).to_bits();
    assert_eq!(s.set_ship_state(1, ok, ok, ok, ok, ok, ok, 5), Err(Error::NotFound));
    assert_eq!(s.warp_to(1, ok, ok, ok, 5), Err(Error::NotFound));
}

#[test]
fn warp_zeroes_the_velocity() {
    let mut s = with_user(1);
    let ok = (9.5f64).to_bits();
    assert_eq!(
        s.set_ship_state(1, ok, ok, ok, (4.0f64).to_bits(), (4.0f64).to_bits(), (4.0f64).to_bits(), 7),
        Ok(())
    );
    assert_eq!(s.warp_to(1, (8.0f64).to_bits(), ok, ok, 9), Ok(()));
    assert_eq!(
        s.ships[0],
        Ship {
            owner: 1,
            px_bits: (8.0f64).to_bits(),
            py_bits: ok,
            pz_bits: ok,
            vx_bits: 0,
            vy_bits: 0,
            vz_bits: 0,
            updated_at: 9,
        }
    );
}
