use salvage::Error;
use salvage::world::Player;
use salvage::world::PlayerItem;
use salvage::world::Wreck;
use salvage::world::WreckItem;
use salvage::world::WorldState;
use salvage::world::DEFAULT_CARGO_CAPACITY_M3;
use salvage::world::ITEM_SALVAGED_SCRAP;
use salvage::world::ITEM_SALVAGED_SCRAP_VOLUME_M3;

fn used_of(w: &WorldState, owner: u64) -> u64 {
    w.player_items
        .iter()
        .filter(|r| r.owner == owner)
        .map(|r| r.quantity as u64 * r.volume_m3 as u64)
        .sum()
}

fn capacity_invariant_holds(w: &WorldState) -> bool {
    w.players
        .iter()
        .all(|p| used_of(w, p.identity) <= p.cargo_capacity_m3 as u64)
}

fn wreck_pairing_holds(w: &WorldState) -> bool {
    w.wrecks
        .iter()
        .all(|wr| w.wreck_items.iter().any(|it| it.wreck_id == wr.id && it.quantity > 0))
        && w.wreck_items
            .iter()
            .all(|it| it.quantity > 0 && w.wrecks.iter().any(|wr| wr.id == it.wreck_id))
}

#[test]
fn init_is_empty() {
    let w = WorldState::init();
    assert!(w.players.is_empty());
    assert!(w.player_items.is_empty());
    assert!(w.wrecks.is_empty());
    assert!(w.wreck_items.is_empty());
}

#[test]
fn connect_provisions_default_player() {
    let mut w = WorldState::init();
    w.client_connected(42);
    assert_eq!(w.players.len(), 1);
    assert_eq!(w.players[0].identity, 42);
    assert_eq!(w.players[0].cargo_capacity_m3, DEFAULT_CARGO_CAPACITY_M3);
}

#[test]
fn connect_never_overwrites_capacity() {
    let mut w = WorldState::init();
    w.client_connected(42);
    w.players[0].cargo_capacity_m3 = 500;
    w.client_connected(42);
    assert_eq!(w.players.len(), 1);
    assert_eq!(w.players[0].cargo_capacity_m3, 500);
}

#[test]
fn spawn_wreck_creates_placeholder_stack() {
    let mut w = WorldState::init();
    w.spawn_wreck(9, 3, 1, 2, 3);
    assert_eq!(w.wrecks.len(), 1);
    assert_eq!(w.wrecks[0].id, 9);
    assert_eq!(w.wrecks[0].site_id, 3);
    assert_eq!(w.wrecks[0].pos_x_bits, 1);
    assert_eq!(w.wreck_items.len(), 1);
    assert_eq!(w.wreck_items[0].wreck_id, 9);
    assert_eq!(w.wreck_items[0].item_type, ITEM_SALVAGED_SCRAP);
    assert_eq!(w.wreck_items[0].quantity, 1);
    assert_eq!(w.wreck_items[0].volume_m3, ITEM_SALVAGED_SCRAP_VOLUME_M3);
    assert!(wreck_pairing_holds(&w));
}

#[test]
fn spawn_wreck_twice_is_noop() {
    let mut w = WorldState::init();
    w.spawn_wreck(9, 3, 1, 2, 3);
    let wrecks_before = w.wrecks.clone();
    let items_before = w.wreck_items.clone();
    w.spawn_wreck(9, 77, 8, 8, 8);
    assert_eq!(w.wrecks, wrecks_before);
    assert_eq!(w.wreck_items, items_before);
    assert_eq!(w.wrecks.iter().filter(|x| x.id == 9).count(), 1);
}

#[test]
fn loot_unknown_wreck_fails() {
    let mut w = WorldState::init();
    w.client_connected(1);
    assert_eq!(w.loot_all(5, 1), Err(Error::NotFound));
}

#[test]
fn loot_without_player_fails() {
    let mut w = WorldState::init();
    w.spawn_wreck(5, 1, 0, 0, 0);
    assert_eq!(w.loot_all(5, 1), Err(Error::NotFound));
    assert_eq!(w.wrecks.len(), 1);
    assert_eq!(w.wreck_items.len(), 1);
}

#[test]
fn full_loot_deletes_wreck() {
    let mut w = WorldState::init();
    w.client_connected(1);
    w.spawn_wreck(5, 1, 0, 0, 0);
    assert_eq!(w.loot_all(5, 1), Ok(()));
    assert!(w.wreck_items.is_empty());
    assert!(w.wrecks.is_empty());
    assert_eq!(w.player_items.len(), 1);
    assert_eq!(w.player_items[0].owner, 1);
    assert_eq!(w.player_items[0].item_type, ITEM_SALVAGED_SCRAP);
    assert_eq!(w.player_items[0].quantity, 1);
    assert_eq!(w.player_items[0].volume_m3, ITEM_SALVAGED_SCRAP_VOLUME_M3);
    assert!(capacity_invariant_holds(&w));
    assert!(wreck_pairing_holds(&w));
}

#[test]
fn partial_loot_is_deterministic() {
    // a looter with 12 m3 free, a wreck holding 5 units of volume 10
    // (row id 1) and 3 units of volume 1 (row id 2), processed in
    // ascending row-id order
    let mut w = WorldState {
        players: vec![Player { identity: 7, cargo_capacity_m3: 12 }],
        player_items: vec![],
        next_player_item_id: 1,
        wrecks: vec![Wreck { id: 1, site_id: 0, pos_x_bits: 0, pos_y_bits: 0, pos_z_bits: 0 }],
        wreck_items: vec![
            WreckItem { id: 1, wreck_id: 1, item_type: 10, quantity: 5, volume_m3: 10 },
            WreckItem { id: 2, wreck_id: 1, item_type: 11, quantity: 3, volume_m3: 1 },
        ],
        next_wreck_item_id: 3,
    };
    assert_eq!(w.loot_all(1, 7), Ok(()));
    // item 1 contributes min(5, 12/10) = 1 unit, leaving 2 m3 free;
    // item 2 contributes min(3, 2/1) = 2 units, leaving 0
    assert_eq!(
        w.player_items,
        vec![
            PlayerItem { id: 1, owner: 7, item_type: 10, quantity: 1, volume_m3: 10 },
            PlayerItem { id: 2, owner: 7, item_type: 11, quantity: 2, volume_m3: 1 },
        ]
    );
    // the wreck keeps 4 units of item 1 and 1 unit of item 2, and stays
    assert_eq!(
        w.wreck_items,
        vec![
            WreckItem { id: 1, wreck_id: 1, item_type: 10, quantity: 4, volume_m3: 10 },
            WreckItem { id: 2, wreck_id: 1, item_type: 11, quantity: 1, volume_m3: 1 },
        ]
    );
    assert_eq!(w.wrecks.len(), 1);
    assert!(capacity_invariant_holds(&w));
    assert!(wreck_pairing_holds(&w));
}

#[test]
fn too_big_item_is_skipped_not_fatal() {
    // the first item does not fit at all; the loop must continue to
    // the lighter one instead of stopping
    let mut w = WorldState {
        players: vec![Player { identity: 7, cargo_capacity_m3: 5 }],
        player_items: vec![],
        next_player_item_id: 1,
        wrecks: vec![Wreck { id: 1, site_id: 0, pos_x_bits: 0, pos_y_bits: 0, pos_z_bits: 0 }],
        wreck_items: vec![
            WreckItem { id: 1, wreck_id: 1, item_type: 10, quantity: 1, volume_m3: 10 },
            WreckItem { id: 2, wreck_id: 1, item_type: 11, quantity: 2, volume_m3: 2 },
        ],
        next_wreck_item_id: 3,
    };
    assert_eq!(w.loot_all(1, 7), Ok(()));
    assert_eq!(
        w.player_items,
        vec![PlayerItem { id: 1, owner: 7, item_type: 11, quantity: 2, volume_m3: 2 }]
    );
    assert_eq!(
        w.wreck_items,
        vec![WreckItem { id: 1, wreck_id: 1, item_type: 10, quantity: 1, volume_m3: 10 }]
    );
    assert_eq!(w.wrecks.len(), 1);
}

#[test]
fn zero_volume_items_count_as_one() {
    let mut w = WorldState {
        players: vec![Player { identity: 7, cargo_capacity_m3: 2 }],
        player_items: vec![],
        next_player_item_id: 1,
        wrecks: vec![Wreck { id: 1, site_id: 0, pos_x_bits: 0, pos_y_bits: 0, pos_z_bits: 0 }],
        wreck_items: vec![WreckItem { id: 1, wreck_id: 1, item_type: 4, quantity: 3, volume_m3: 0 }],
        next_wreck_item_id: 2,
    };
    assert_eq!(w.loot_all(1, 7), Ok(()));
    // two units fit into 2 m3 of free volume at one m3 each
    assert_eq!(
        w.player_items,
        vec![PlayerItem { id: 1, owner: 7, item_type: 4, quantity: 2, volume_m3: 0 }]
    );
    assert_eq!(
        w.wreck_items,
        vec![WreckItem { id: 1, wreck_id: 1, item_type: 4, quantity: 1, volume_m3: 0 }]
    );
    assert_eq!(w.wrecks.len(), 1);
}

#[test]
fn zero_volume_full_take_deletes_wreck() {
    let mut w = WorldState {
        players: vec![Player { identity: 7, cargo_capacity_m3: 5 }],
        player_items: vec![],
        next_player_item_id: 1,
        wrecks: vec![Wreck { id: 1, site_id: 0, pos_x_bits: 0, pos_y_bits: 0, pos_z_bits: 0 }],
        wreck_items: vec![WreckItem { id: 1, wreck_id: 1, item_type: 4, quantity: 3, volume_m3: 0 }],
        next_wreck_item_id: 2,
    };
    assert_eq!(w.loot_all(1, 7), Ok(()));
    assert_eq!(w.player_items[0].quantity, 3);
    assert!(w.wreck_items.is_empty());
    assert!(w.wrecks.is_empty());
}

#[test]
fn looting_same_kind_twice_merges_into_one_stack() {
    let mut w = WorldState {
        players: vec![Player { identity: 7, cargo_capacity_m3: 160 }],
        player_items: vec![],
        next_player_item_id: 1,
        wrecks: vec![
            Wreck { id: 1, site_id: 0, pos_x_bits: 0, pos_y_bits: 0, pos_z_bits: 0 },
            Wreck { id: 2, site_id: 0, pos_x_bits: 0, pos_y_bits: 0, pos_z_bits: 0 },
        ],
        wreck_items: vec![
            WreckItem { id: 1, wreck_id: 1, item_type: 9, quantity: 1, volume_m3: 2 },
            WreckItem { id: 2, wreck_id: 2, item_type: 9, quantity: 1, volume_m3: 2 },
        ],
        next_wreck_item_id: 3,
    };
    assert_eq!(w.loot_all(1, 7), Ok(()));
    assert_eq!(w.loot_all(2, 7), Ok(()));
    assert_eq!(
        w.player_items,
        vec![PlayerItem { id: 1, owner: 7, item_type: 9, quantity: 2, volume_m3: 2 }]
    );
    assert!(w.wrecks.is_empty());
}

#[test]
fn stacks_with_different_volume_do_not_merge() {
    let mut w = WorldState {
        players: vec![Player { identity: 7, cargo_capacity_m3: 160 }],
        player_items: vec![],
        next_player_item_id: 1,
        wrecks: vec![Wreck { id: 1, site_id: 0, pos_x_bits: 0, pos_y_bits: 0, pos_z_bits: 0 }],
        wreck_items: vec![
            WreckItem { id: 1, wreck_id: 1, item_type: 9, quantity: 1, volume_m3: 2 },
            WreckItem { id: 2, wreck_id: 1, item_type: 9, quantity: 1, volume_m3: 3 },
        ],
        next_wreck_item_id: 3,
    };
    assert_eq!(w.loot_all(1, 7), Ok(()));
    assert_eq!(w.player_items.len(), 2);
}

#[test]
fn cargo_used_is_the_exact_sum() {
    let w = WorldState {
        players: vec![Player { identity: 7, cargo_capacity_m3: 160 }],
        player_items: vec![
            PlayerItem { id: 1, owner: 7, item_type: 1, quantity: 3, volume_m3: 5 },
            PlayerItem { id: 2, owner: 7, item_type: 2, quantity: 2, volume_m3: 7 },
            PlayerItem { id: 3, owner: 8, item_type: 1, quantity: 9, volume_m3: 9 },
        ],
        next_player_item_id: 4,
        wrecks: vec![],
        wreck_items: vec![],
        next_wreck_item_id: 1,
    };
    assert_eq!(w.cargo_used_m3(7), 29);
    assert_eq!(w.cargo_used_m3(8), 81);
    assert_eq!(w.cargo_used_m3(99), 0);
}

#[test]
fn add_to_inventory_zero_is_noop() {
    let mut w = WorldState::init();
    w.client_connected(7);
    w.add_to_inventory(7, 1, 5, 0);
    assert!(w.player_items.is_empty());
}

#[test]
fn add_to_inventory_merges_saturating() {
    let mut w = WorldState {
        players: vec![Player { identity: 7, cargo_capacity_m3: 160 }],
        player_items: vec![
            PlayerItem { id: 1, owner: 7, item_type: 4, quantity: u32::MAX - 1, volume_m3: 0 },
        ],
        next_player_item_id: 2,
        wrecks: vec![],
        wreck_items: vec![],
        next_wreck_item_id: 1,
    };
    w.add_to_inventory(7, 4, 0, 5);
    assert_eq!(
        w.player_items,
        vec![PlayerItem { id: 1, owner: 7, item_type: 4, quantity: u32::MAX, volume_m3: 0 }]
    );
}

#[test]
fn add_to_inventory_matches_all_three_key_fields() {
    let mut w = WorldState {
        players: vec![Player { identity: 7, cargo_capacity_m3: 160 }, Player {
            identity: 8,
            cargo_capacity_m3: 160,
        }],
        player_items: vec![PlayerItem { id: 1, owner: 8, item_type: 4, quantity: 1, volume_m3: 2 }],
        next_player_item_id: 2,
        wrecks: vec![],
        wreck_items: vec![],
        next_wreck_item_id: 1,
    };
    // same item type and volume, different owner: a fresh stack
    w.add_to_inventory(7, 4, 2, 1);
    assert_eq!(w.player_items.len(), 2);
    assert_eq!(w.player_items[1], PlayerItem {
        id: 2,
        owner: 7,
        item_type: 4,
        quantity: 1,
        volume_m3: 2,
    });
}

#[test]
fn invariants_hold_after_a_busy_sequence() {
    let mut w = WorldState::init();
    w.client_connected(1);
    w.client_connected(2);
    for id in 0..6u64 {
        w.spawn_wreck(id, id / 2, 0, 0, 0);
    }
    assert_eq!(w.loot_all(0, 1), Ok(()));
    assert_eq!(w.loot_all(1, 1), Ok(()));
    assert_eq!(w.loot_all(2, 2), Ok(()));
    w.spawn_wreck(0, 9, 0, 0, 0);
    assert_eq!(w.loot_all(3, 1), Ok(()));
    assert_eq!(w.loot_all(9, 1), Err(Error::NotFound));
    assert!(capacity_invariant_holds(&w));
    assert!(wreck_pairing_holds(&w));
    // 160 m3 of capacity holds 16 scrap units of 10 m3 each
    assert_eq!(w.cargo_used_m3(1), 30);
    assert_eq!(w.cargo_used_m3(2), 10);
}
