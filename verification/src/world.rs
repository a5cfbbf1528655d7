//! The inventory/loot core: players, item stacks, wrecks, and the
//! atomic operations that move items from wrecks into player cargo
//! holds under the cargo-volume constraint.

use vstd::prelude::*;
use vstd::pervasive::VecAdditionalExecFns;

use crate::Error;
use crate::Identity;

verus! {

/// Cargo capacity every newly provisioned player starts with.
pub const DEFAULT_CARGO_CAPACITY_M3: u32 = 160;

/// Item type code of the placeholder loot every fresh wreck carries.
pub const ITEM_SALVAGED_SCRAP: u16 = 1;

/// Per-unit volume of the placeholder loot.
pub const ITEM_SALVAGED_SCRAP_VOLUME_M3: u32 = 10;

/// A player: an externally issued identity and a cargo-volume budget.
#[derive(Clone, Copy, PartialEq, Eq, Structural, Debug)]
pub struct Player {
    pub identity: Identity,
    pub cargo_capacity_m3: u32,
}

/// One inventory stack: `quantity` identical items of per-unit volume
/// `volume_m3`, owned by `owner`. At most one stack exists per
/// `(owner, item_type, volume_m3)` triple.
#[derive(Clone, Copy, PartialEq, Eq, Structural, Debug)]
pub struct PlayerItem {
    pub id: u64,
    pub owner: Identity,
    pub item_type: u16,
    pub quantity: u32,
    pub volume_m3: u32,
}

/// A lootable container at a fixed position. The coordinates are raw
/// IEEE 754 bit patterns chosen by the caller; the core stores them
/// untouched and never interprets them as numbers.
#[derive(Clone, Copy, PartialEq, Eq, Structural, Debug)]
pub struct Wreck {
    pub id: u64,
    pub site_id: u64,
    pub pos_x_bits: u64,
    pub pos_y_bits: u64,
    pub pos_z_bits: u64,
}

/// One item stack inside a wreck; mutated or deleted by looting.
#[derive(Clone, Copy, PartialEq, Eq, Structural, Debug)]
pub struct WreckItem {
    pub id: u64,
    pub wreck_id: u64,
    pub item_type: u16,
    pub quantity: u32,
    pub volume_m3: u32,
}

/// The record store of the core: every row of every relation, plus the
/// monotonic counters that allocate server-generated row ids.
pub struct WorldState {
    pub players: Vec<Player>,
    pub player_items: Vec<PlayerItem>,
    pub next_player_item_id: u64,
    pub wrecks: Vec<Wreck>,
    pub wreck_items: Vec<WreckItem>,
    pub next_wreck_item_id: u64,
}

pub open spec fn has_player(s: Seq<Player>, who: Identity) -> bool {
    exists|i: int| 0 <= i < s.len() && s[i].identity == who
}

pub open spec fn player_index(s: Seq<Player>, who: Identity) -> int {
    choose|i: int| 0 <= i < s.len() && s[i].identity == who
}

/// Cargo capacity of the player `who`; meaningful only when
/// `has_player(s, who)` holds.
pub open spec fn player_capacity(s: Seq<Player>, who: Identity) -> int {
    s[player_index(s, who)].cargo_capacity_m3 as int
}

pub open spec fn has_wreck(s: Seq<Wreck>, id: u64) -> bool {
    exists|i: int| 0 <= i < s.len() && s[i].id == id
}

pub open spec fn wreck_index(s: Seq<Wreck>, id: u64) -> int {
    choose|i: int| 0 <= i < s.len() && s[i].id == id
}

/// Does the stack `it` sit in the inventory slot keyed by
/// `(owner, item_type, volume_m3)`?
pub open spec fn is_stack(it: PlayerItem, owner: Identity, item_type: u16, volume_m3: u32) -> bool {
    it.owner == owner && it.item_type == item_type && it.volume_m3 == volume_m3
}

pub open spec fn has_stack(s: Seq<PlayerItem>, owner: Identity, item_type: u16, volume_m3: u32) -> bool {
    exists|i: int| 0 <= i < s.len() && is_stack(s[i], owner, item_type, volume_m3)
}

pub open spec fn stack_index(s: Seq<PlayerItem>, owner: Identity, item_type: u16, volume_m3: u32) -> int {
    choose|i: int| 0 <= i < s.len() && is_stack(s[i], owner, item_type, volume_m3)
}

pub open spec fn has_wreck_item(s: Seq<WreckItem>, wreck_id: u64) -> bool {
    exists|i: int| 0 <= i < s.len() && s[i].wreck_id == wreck_id
}

/// Volume the stack `it` contributes to the cargo hold of `owner`.
pub open spec fn stack_volume(it: PlayerItem, owner: Identity) -> int {
    if it.owner == owner {
        it.quantity as int * it.volume_m3 as int
    } else {
        0
    }
}

/// Total cargo volume used by `owner`: the sum of `quantity * volume_m3`
/// over that owner's stacks.
pub open spec fn used_volume_of(s: Seq<PlayerItem>, owner: Identity) -> int
    decreases s.len(),
{
    if s.len() == 0 {
        0
    } else {
        used_volume_of(s.drop_last(), owner) + stack_volume(s.last(), owner)
    }
}

/// Player identities are unique.
pub open spec fn players_wf(s: Seq<Player>) -> bool {
    forall|i: int, j: int| 0 <= i < j < s.len() ==> s[i].identity != s[j].identity
}

/// Inventory rows have positive quantity, ids below the allocation
/// counter, unique ids, and unique `(owner, item_type, volume_m3)` keys.
pub open spec fn player_items_wf(s: Seq<PlayerItem>, next_id: u64) -> bool {
    &&& forall|i: int| 0 <= i < s.len() ==> (#[trigger] s[i]).quantity > 0
    &&& forall|i: int| 0 <= i < s.len() ==> (#[trigger] s[i]).id < next_id
    &&& forall|i: int, j: int| 0 <= i < j < s.len() ==> s[i].id != s[j].id
    &&& forall|i: int, j: int|
        0 <= i < j < s.len() ==> !(s[i].owner == s[j].owner && s[i].item_type == s[j].item_type
            && s[i].volume_m3 == s[j].volume_m3)
}

/// Every inventory row belongs to a provisioned player.
pub open spec fn owners_are_players(players: Seq<Player>, items: Seq<PlayerItem>) -> bool {
    forall|i: int| 0 <= i < items.len() ==> has_player(players, (#[trigger] items[i]).owner)
}

/// No player holds more volume than their cargo capacity.
pub open spec fn capacities_wf(players: Seq<Player>, items: Seq<PlayerItem>) -> bool {
    forall|i: int|
        0 <= i < players.len() ==> used_volume_of(items, (#[trigger] players[i]).identity)
            <= players[i].cargo_capacity_m3 as int
}

/// Wreck ids are unique.
pub open spec fn wrecks_wf(s: Seq<Wreck>) -> bool {
    forall|i: int, j: int| 0 <= i < j < s.len() ==> s[i].id != s[j].id
}

/// Wreck item rows have positive quantity, ids below the allocation
/// counter and strictly increasing along the relation (so the rows are
/// already in ascending id order), and each row's wreck exists.
pub open spec fn wreck_items_wf(items: Seq<WreckItem>, wrecks: Seq<Wreck>, next_id: u64) -> bool {
    &&& forall|i: int| 0 <= i < items.len() ==> (#[trigger] items[i]).quantity > 0
    &&& forall|i: int| 0 <= i < items.len() ==> (#[trigger] items[i]).id < next_id
    &&& forall|i: int, j: int| 0 <= i < j < items.len() ==> items[i].id < items[j].id
    &&& forall|i: int| 0 <= i < items.len() ==> has_wreck(wrecks, (#[trigger] items[i]).wreck_id)
}

/// Every wreck still holds at least one item stack.
pub open spec fn wrecks_nonempty(wrecks: Seq<Wreck>, items: Seq<WreckItem>) -> bool {
    forall|i: int| 0 <= i < wrecks.len() ==> has_wreck_item(items, (#[trigger] wrecks[i]).id)
}

impl WorldState {
    /// Well-formedness of the whole store. This carries the two global
    /// invariants of the core: no player's cargo hold exceeds their
    /// capacity, and a wreck row exists if and only if it has at least
    /// one item row (all item rows have positive quantity).
    pub open spec fn wf(self) -> bool {
        &&& players_wf(self.players@)
        &&& player_items_wf(self.player_items@, self.next_player_item_id)
        &&& owners_are_players(self.players@, self.player_items@)
        &&& capacities_wf(self.players@, self.player_items@)
        &&& wrecks_wf(self.wrecks@)
        &&& wreck_items_wf(self.wreck_items@, self.wrecks@, self.next_wreck_item_id)
        &&& wrecks_nonempty(self.wrecks@, self.wreck_items@)
    }

    /// A fresh, empty store.
    pub fn init() -> (w: WorldState)
        ensures
            w.wf(),
            w.players@ =~= Seq::<Player>::empty(),
            w.player_items@ =~= Seq::<PlayerItem>::empty(),
            w.wrecks@ =~= Seq::<Wreck>::empty(),
            w.wreck_items@ =~= Seq::<WreckItem>::empty(),
            w.next_player_item_id == 1,
            w.next_wreck_item_id == 1,
    {
        WorldState {
            players: Vec::new(),
            player_items: Vec::new(),
            next_player_item_id: 1,
            wrecks: Vec::new(),
            wreck_items: Vec::new(),
            next_wreck_item_id: 1,
        }
    }

    /// Index of the player row for `who`, if any.
    fn find_player(&self, who: Identity) -> (r: Option<usize>)
        ensures
            match r {
                Some(i) => i < self.players@.len() && self.players@[i as int].identity == who,
                None => !has_player(self.players@, who),
            },
    {
        let mut i: usize = 0;
        while i < self.players.len()
            invariant
                i <= self.players@.len(),
                forall|j: int| 0 <= j < i ==> (#[trigger] self.players@[j]).identity != who,
            decreases self.players@.len() - i,
        {
            if self.players[i].identity == who {
                return Some(i);
            }
            i += 1;
        }
        None
    }

    /// Provision a player on first contact: if `who` has no player row,
    /// create one with the default cargo capacity. Idempotent; never
    /// overwrites an existing player's capacity.
    pub fn client_connected(&mut self, who: Identity)
        requires
            old(self).wf(),
        ensures
            final(self).wf(),
            has_player(old(self).players@, who) ==> *final(self) == *old(self),
            !has_player(old(self).players@, who) ==> final(self).players@ == old(self).players@.push(
                (Player { identity: who, cargo_capacity_m3: DEFAULT_CARGO_CAPACITY_M3 }),
            ),
            final(self).player_items@ == old(self).player_items@,
            final(self).next_player_item_id == old(self).next_player_item_id,
            final(self).wrecks@ == old(self).wrecks@,
            final(self).wreck_items@ == old(self).wreck_items@,
            final(self).next_wreck_item_id == old(self).next_wreck_item_id,
            has_player(final(self).players@, who),
    {
        match self.find_player(who) {
            Some(_) => {},
            None => {
                self.players.push(Player { identity: who, cargo_capacity_m3: DEFAULT_CARGO_CAPACITY_M3 });
                proof {
                    let olds = old(self).players@;
                    let news = self.players@;
                    let items = self.player_items@;
                    assert(news[news.len() - 1].identity == who);
                    assert forall|i: int|
                        0 <= i < items.len() implies (#[trigger] items[i]).owner != who by {
                        assert(has_player(olds, items[i].owner));
                    }
                    lemma_used_volume_no_rows(items, who);
                    assert forall|i: int|
                        0 <= i < items.len() implies has_player(news, (#[trigger] items[i]).owner) by {
                        let k = choose|k: int| 0 <= k < olds.len() && olds[k].identity == items[i].owner;
                        assert(news[k].identity == items[i].owner);
                    }
                    assert forall|i: int|
                        0 <= i < news.len() implies used_volume_of(items, (#[trigger] news[i]).identity)
                        <= news[i].cargo_capacity_m3 as int by {
                        if i < olds.len() {
                            assert(news[i] == olds[i]);
                            assert(used_volume_of(items, olds[i].identity)
                                <= olds[i].cargo_capacity_m3 as int);
                        }
                    }
                }
            },
        }
    }

    /// Index of the wreck row with id `id`, if any.
    fn find_wreck(&self, id: u64) -> (r: Option<usize>)
        ensures
            match r {
                Some(i) => i < self.wrecks@.len() && self.wrecks@[i as int].id == id,
                None => !has_wreck(self.wrecks@, id),
            },
    {
        let mut i: usize = 0;
        while i < self.wrecks.len()
            invariant
                i <= self.wrecks@.len(),
                forall|j: int| 0 <= j < i ==> (#[trigger] self.wrecks@[j]).id != id,
            decreases self.wrecks@.len() - i,
        {
            if self.wrecks[i].id == id {
                return Some(i);
            }
            i += 1;
        }
        None
    }

    /// Spawn a wreck by explicit request: insert the wreck row and
    /// exactly one placeholder loot stack. A silent no-op when a wreck
    /// with this id already exists, so the operation is idempotent by
    /// id.
    pub fn spawn_wreck(
        &mut self,
        wreck_id: u64,
        site_id: u64,
        pos_x_bits: u64,
        pos_y_bits: u64,
        pos_z_bits: u64,
    )
        requires
            old(self).wf(),
            old(self).next_wreck_item_id < u64::MAX,
        ensures
            final(self).wf(),
            final(self).wrecks@ == spawned_wrecks(
                old(self).wrecks@,
                wreck_id,
                site_id,
                pos_x_bits,
                pos_y_bits,
                pos_z_bits,
            ),
            final(self).wreck_items@ == spawned_wreck_items(
                old(self).wrecks@,
                old(self).wreck_items@,
                wreck_id,
                old(self).next_wreck_item_id,
            ),
            final(self).next_wreck_item_id == (
            if has_wreck(old(self).wrecks@, wreck_id) {
                old(self).next_wreck_item_id
            } else {
                (old(self).next_wreck_item_id + 1) as u64
            }),
            final(self).players@ == old(self).players@,
            final(self).player_items@ == old(self).player_items@,
            final(self).next_player_item_id == old(self).next_player_item_id,
            has_wreck(old(self).wrecks@, wreck_id) ==> *final(self) == *old(self),
            has_wreck(final(self).wrecks@, wreck_id),
    {
        match self.find_wreck(wreck_id) {
            Some(i) => {
                proof {
                    assert(self.wrecks@[i as int].id == wreck_id);
                }
            },
            None => {
                self.wrecks.push(Wreck { id: wreck_id, site_id, pos_x_bits, pos_y_bits, pos_z_bits });
                let iid = self.next_wreck_item_id;
                self.wreck_items.push(
                    WreckItem {
                        id: iid,
                        wreck_id,
                        item_type: ITEM_SALVAGED_SCRAP,
                        quantity: 1,
                        volume_m3: ITEM_SALVAGED_SCRAP_VOLUME_M3,
                    },
                );
                self.next_wreck_item_id = iid + 1;
                proof {
                    lemma_spawn_push_ok(*old(self), *self, wreck_id, site_id, pos_x_bits, pos_y_bits,
                        pos_z_bits);
                }
            },
        }
    }

    /// Cargo volume currently used by `owner`: the sum of
    /// `quantity * volume_m3` over that owner's stacks, clamped to
    /// `u32::MAX` as a defensive bound. Absence of rows yields 0.
    pub fn cargo_used_m3(&self, owner: Identity) -> (used: u32)
        ensures
            used as int == clamp_u32(used_volume_of(self.player_items@, owner)),
    {
        let ghost sq = self.player_items@;
        let mut acc: u32 = 0;
        let mut i: usize = 0;
        while i < self.player_items.len()
            invariant
                i <= sq.len(),
                sq == self.player_items@,
                acc as int == clamp_u32(used_volume_of(sq.take(i as int), owner)),
            decreases sq.len() - i,
        {
            let it = self.player_items[i];
            proof {
                assert(sq.take(i as int + 1).drop_last() =~= sq.take(i as int));
                assert(sq.take(i as int + 1).last() == sq[i as int]);
                lemma_used_volume_nonneg(sq.take(i as int), owner);
            }
            if it.owner == owner {
                proof {
                    assert((it.quantity as int) * (it.volume_m3 as int) <= (u32::MAX as int) * (
                    u32::MAX as int)) by (nonlinear_arith)
                        requires
                            0 <= it.quantity as int <= u32::MAX as int,
                            0 <= it.volume_m3 as int <= u32::MAX as int,
                    ;
                }
                let prod: u64 = (it.quantity as u64) * (it.volume_m3 as u64);
                let m: u32 = if prod > u32::MAX as u64 {
                    u32::MAX
                } else {
                    prod as u32
                };
                acc = acc.saturating_add(m);
            }
            i += 1;
        }
        proof {
            assert(sq.take(sq.len() as int) =~= sq);
        }
        acc
    }

    /// Insert or merge `quantity` units of `(item_type, volume_m3)`
    /// into the inventory of `owner`. A no-op for `quantity == 0`;
    /// otherwise an existing stack with the same key grows by
    /// saturating addition, and a fresh row is created when none
    /// exists. Callers have already checked capacity, which the
    /// precondition records.
    pub fn add_to_inventory(&mut self, owner: Identity, item_type: u16, volume_m3: u32, quantity: u32)
        requires
            old(self).wf(),
            quantity > 0 ==> has_player(old(self).players@, owner),
            quantity > 0 ==> used_volume_of(old(self).player_items@, owner) + quantity as int
                * volume_m3 as int <= player_capacity(old(self).players@, owner),
            quantity > 0 && !has_stack(old(self).player_items@, owner, item_type, volume_m3)
                ==> old(self).next_player_item_id < u64::MAX,
        ensures
            final(self).wf(),
            final(self).players@ == old(self).players@,
            final(self).wrecks@ == old(self).wrecks@,
            final(self).wreck_items@ == old(self).wreck_items@,
            final(self).next_wreck_item_id == old(self).next_wreck_item_id,
            quantity == 0 ==> *final(self) == *old(self),
            quantity > 0 ==> final(self).player_items@ == merged_stacks(
                old(self).player_items@,
                owner,
                item_type,
                volume_m3,
                quantity,
                old(self).next_player_item_id,
            ),
            quantity > 0 ==> final(self).next_player_item_id == (
            if has_stack(old(self).player_items@, owner, item_type, volume_m3) {
                old(self).next_player_item_id
            } else {
                (old(self).next_player_item_id + 1) as u64
            }),
            used_volume_of(final(self).player_items@, owner) <= used_volume_of(
                old(self).player_items@,
                owner,
            ) + quantity as int * volume_m3 as int,
            forall|o2: Identity|
                o2 != owner ==> used_volume_of(final(self).player_items@, o2) == used_volume_of(
                    old(self).player_items@,
                    o2,
                ),
    {
        if quantity == 0 {
            return ;
        }
        let ghost s = self.player_items@;
        let mut i: usize = 0;
        while i < self.player_items.len()
            invariant
                i <= s.len(),
                s == self.player_items@,
                *self == *old(self),
                old(self).wf(),
                quantity > 0,
                quantity > 0 ==> has_player(old(self).players@, owner),
                used_volume_of(old(self).player_items@, owner) + quantity as int * volume_m3 as int
                    <= player_capacity(old(self).players@, owner),
                !has_stack(old(self).player_items@, owner, item_type, volume_m3) ==> old(
                    self,
                ).next_player_item_id < u64::MAX,
                forall|j: int| 0 <= j < i ==> !is_stack(#[trigger] s[j], owner, item_type, volume_m3),
            decreases s.len() - i,
        {
            let it = self.player_items[i];
            if it.owner == owner && it.item_type == item_type && it.volume_m3 == volume_m3 {
                let newq = it.quantity.saturating_add(quantity);
                self.player_items.set(i, PlayerItem { quantity: newq, ..it });
                proof {
                    assert(newq == sat_add_u32(s[i as int].quantity, quantity));
                    lemma_add_update_ok(*old(self), *self, i as int, owner, item_type, volume_m3, quantity);
                }
                return ;
            }
            i += 1;
        }
        let id = self.next_player_item_id;
        proof {
            assert(!has_stack(s, owner, item_type, volume_m3)) by {
                if has_stack(s, owner, item_type, volume_m3) {
                    let w = stack_index(s, owner, item_type, volume_m3);
                    assert(is_stack(s[w], owner, item_type, volume_m3));
                }
            }
        }
        self.player_items.push(PlayerItem { id, owner, item_type, quantity, volume_m3 });
        self.next_player_item_id = id + 1;
        proof {
            lemma_add_push_ok(*old(self), *self, owner, item_type, volume_m3, quantity);
        }
    }

    /// Does any wreck-item row reference the wreck `wreck_id`?
    fn has_item_for(&self, wreck_id: u64) -> (b: bool)
        ensures
            b == has_wreck_item(self.wreck_items@, wreck_id),
    {
        let mut j: usize = 0;
        while j < self.wreck_items.len()
            invariant
                j <= self.wreck_items@.len(),
                forall|k: int| 0 <= k < j ==> (#[trigger] self.wreck_items@[k]).wreck_id != wreck_id,
            decreases self.wreck_items@.len() - j,
        {
            if self.wreck_items[j].wreck_id == wreck_id {
                return true;
            }
            j += 1;
        }
        proof {
            if has_wreck_item(self.wreck_items@, wreck_id) {
                let k = choose|k: int|
                    0 <= k < self.wreck_items@.len() && self.wreck_items@[k].wreck_id == wreck_id;
                assert(self.wreck_items@[k].wreck_id != wreck_id);
            }
        }
        false
    }

    /// Loot as much of the wreck as fits into the looter's free cargo
    /// volume, processing the wreck's item stacks in ascending row-id
    /// order; if everything is looted, the wreck row is removed.
    /// Capacity exhaustion is not an error: partial loot still reports
    /// success. Fails with `NotFound`, changing nothing, exactly when
    /// the wreck or the looter's player record does not exist.
    #[verifier::rlimit(100)]
    pub fn loot_all(&mut self, wreck_id: u64, looter: Identity) -> (r: Result<(), Error>)
        requires
            old(self).wf(),
            old(self).next_player_item_id as int + old(self).wreck_items@.len() <= u64::MAX as int,
        ensures
            final(self).wf(),
            r == Ok::<(), Error>(()) <==> has_wreck(old(self).wrecks@, wreck_id) && has_player(
                old(self).players@,
                looter,
            ),
            r is Err ==> r == Err::<(), Error>(Error::NotFound) && *final(self) == *old(self),
            r is Ok ==> loot_all_post(*old(self), *final(self), wreck_id, looter),
    {
        let widx = match self.find_wreck(wreck_id) {
            Some(i) => i,
            None => {
                return Err(Error::NotFound);
            },
        };
        let pidx = match self.find_player(looter) {
            Some(i) => i,
            None => {
                return Err(Error::NotFound);
            },
        };
        proof {
            assert(has_wreck(self.wrecks@, wreck_id));
            assert(has_player(self.players@, looter));
            let pi = player_index(self.players@, looter);
            assert(0 <= pi < self.players@.len() && self.players@[pi].identity == looter);
            assert(pi == pidx as int);
            lemma_used_volume_nonneg(self.player_items@, looter);
            assert(used_volume_of(self.player_items@, looter)
                <= self.players@[pidx as int].cargo_capacity_m3 as int);
        }
        let cap = self.players[pidx].cargo_capacity_m3;
        let used = self.cargo_used_m3(looter);
        let mut free: u32 = cap - used;
        let ghost pre = *self;
        let ghost items = pre.wreck_items@;
        let ghost target = loot_items(items, wreck_id, looter, pre.player_items@,
            pre.next_player_item_id, free as int);
        proof {
            assert(free as int == free_capacity(pre, looter));
            assert(items.skip(0) =~= items);
        }
        let mut kept: Vec<WreckItem> = Vec::new();
        let mut i: usize = 0;
        while i < self.wreck_items.len()
            invariant
                i <= items.len(),
                self.wf(),
                self.wreck_items@ == items,
                self.players@ == pre.players@,
                self.wrecks@ == pre.wrecks@,
                self.next_wreck_item_id == pre.next_wreck_item_id,
                pre.wf(),
                has_player(pre.players@, looter),
                widx < pre.wrecks@.len() && pre.wrecks@[widx as int].id == wreck_id,
                pre.next_player_item_id as int + items.len() <= u64::MAX as int,
                self.next_player_item_id as int <= pre.next_player_item_id as int + i as int,
                used_volume_of(self.player_items@, looter) + free as int <= player_capacity(
                    pre.players@,
                    looter,
                ),
                target == loot_items(items, wreck_id, looter, pre.player_items@,
                    pre.next_player_item_id, free_capacity(pre, looter)),
                loot_items(items.skip(i as int), wreck_id, looter, self.player_items@,
                    self.next_player_item_id, free as int).player_items == target.player_items,
                loot_items(items.skip(i as int), wreck_id, looter, self.player_items@,
                    self.next_player_item_id, free as int).next_player_item_id
                    == target.next_player_item_id,
                loot_items(items.skip(i as int), wreck_id, looter, self.player_items@,
                    self.next_player_item_id, free as int).free == target.free,
                kept@ + loot_items(items.skip(i as int), wreck_id, looter, self.player_items@,
                    self.next_player_item_id, free as int).wreck_items == target.wreck_items,
                forall|a: int, b: int| 0 <= a < b < kept@.len() ==> kept@[a].id < kept@[b].id,
                forall|k: int|
                    0 <= k < kept@.len() ==> exists|j: int|
                        0 <= j < i as int && (#[trigger] kept@[k]).id == items[j].id && kept@[k].wreck_id
                            == items[j].wreck_id && kept@[k].item_type == items[j].item_type
                            && kept@[k].volume_m3 == items[j].volume_m3 && 0 < kept@[k].quantity
                            <= items[j].quantity,
                forall|j: int|
                    0 <= j < i as int && (#[trigger] items[j]).wreck_id != wreck_id ==> exists|k: int|
                        0 <= k < kept@.len() && kept@[k] == items[j],
            decreases items.len() - i,
        {
            let ghost inv0 = self.player_items@;
            let ghost next0 = self.next_player_item_id;
            let ghost free0 = free as int;
            let ghost kept0 = kept@;
            let it = self.wreck_items[i];
            proof {
                assert(items.skip(i as int)[0] == items[i as int]);
                assert(items.skip(i as int).drop_first() =~= items.skip(i as int + 1));
                lemma_used_volume_nonneg(self.player_items@, looter);
                lemma_take_amount_fits(free as int, it);
            }
            if it.wreck_id == wreck_id && free > 0 {
                let per_unit: u32 = if it.volume_m3 == 0 {
                    1
                } else {
                    it.volume_m3
                };
                let max_take: u32 = free / per_unit;
                if max_take == 0 {
                    proof {
                        assert(take_amount(free0, it) == 0);
                    }
                    kept.push(it);
                    proof {
                        let rest = loot_items(items.skip(i as int + 1), wreck_id, looter, inv0, next0,
                            free0);
                        assert(kept@ =~= kept0 + seq![it]);
                        assert((kept0 + seq![it]) + rest.wreck_items =~= kept0 + (seq![it]
                            + rest.wreck_items));
                    }
                } else {
                    let take: u32 = if it.quantity < max_take {
                        it.quantity
                    } else {
                        max_take
                    };
                    proof {
                        assert(take as int == take_amount(free0, it));
                        assert(take as int * per_unit as int <= free0);
                        assert(take as int * it.volume_m3 as int <= take as int * per_unit as int);
                    }
                    self.add_to_inventory(looter, it.item_type, it.volume_m3, take);
                    free = free - take * per_unit;
                    if take < it.quantity {
                        kept.push(WreckItem { quantity: it.quantity - take, ..it });
                    }
                    proof {
                        let rest = loot_items(items.skip(i as int + 1), wreck_id, looter,
                            self.player_items@, self.next_player_item_id, free as int);
                        if take < it.quantity {
                            let y = WreckItem { quantity: (it.quantity - take) as u32, ..it };
                            assert(kept@ =~= kept0 + seq![y]);
                            assert((kept0 + seq![y]) + rest.wreck_items =~= kept0 + (seq![y]
                                + rest.wreck_items));
                        }
                    }
                }
            } else {
                proof {
                    if it.wreck_id == wreck_id {
                        assert(free0 == 0);
                        assert(take_amount(free0, it) == 0);
                    }
                }
                kept.push(it);
                proof {
                    let rest = loot_items(items.skip(i as int + 1), wreck_id, looter, inv0, next0,
                        free0);
                    assert(kept@ =~= kept0 + seq![it]);
                    assert((kept0 + seq![it]) + rest.wreck_items =~= kept0 + (seq![it]
                        + rest.wreck_items));
                }
            }
            proof {
                assert forall|k: int|
                    0 <= k < kept@.len() implies exists|j: int|
                        0 <= j < i as int + 1 && (#[trigger] kept@[k]).id == items[j].id
                            && kept@[k].wreck_id == items[j].wreck_id && kept@[k].item_type
                            == items[j].item_type && kept@[k].volume_m3 == items[j].volume_m3 && 0
                            < kept@[k].quantity <= items[j].quantity by {
                    if k < kept0.len() {
                        assert(kept@[k] == kept0[k]);
                        let j = choose|j: int|
                            0 <= j < i as int && kept0[k].id == items[j].id && kept0[k].wreck_id
                                == items[j].wreck_id && kept0[k].item_type == items[j].item_type
                                && kept0[k].volume_m3 == items[j].volume_m3 && 0 < kept0[k].quantity
                                <= items[j].quantity;
                        assert(0 <= j < i as int + 1 && kept@[k].id == items[j].id && kept@[k].wreck_id
                            == items[j].wreck_id && kept@[k].item_type == items[j].item_type
                            && kept@[k].volume_m3 == items[j].volume_m3 && 0 < kept@[k].quantity
                            <= items[j].quantity);
                    } else {
                        assert(kept@[k].id == items[i as int].id && kept@[k].wreck_id == items[i as int].wreck_id
                            && kept@[k].item_type == items[i as int].item_type && kept@[k].volume_m3
                            == items[i as int].volume_m3 && 0 < kept@[k].quantity <= items[i as int].quantity);
                    }
                }
                assert forall|a: int, b: int| 0 <= a < b < kept@.len() implies kept@[a].id
                    < kept@[b].id by {
                    if b < kept0.len() {
                        assert(kept@[a] == kept0[a] && kept@[b] == kept0[b]);
                    } else if a < kept0.len() {
                        assert(kept@[a] == kept0[a]);
                        let j = choose|j: int|
                            0 <= j < i as int && kept0[a].id == items[j].id && kept0[a].wreck_id
                                == items[j].wreck_id && kept0[a].item_type == items[j].item_type
                                && kept0[a].volume_m3 == items[j].volume_m3 && 0 < kept0[a].quantity
                                <= items[j].quantity;
                        assert(items[j].id < items[i as int].id);
                        assert(kept@[b].id == items[i as int].id);
                    }
                }
                assert forall|j: int|
                    0 <= j < i as int + 1 && (#[trigger] items[j]).wreck_id != wreck_id implies exists|k: int|
                        0 <= k < kept@.len() && kept@[k] == items[j] by {
                    if j < i as int {
                        let k = choose|k: int| 0 <= k < kept0.len() && kept0[k] == items[j];
                        assert(kept@[k] == items[j]);
                    } else {
                        assert(kept@[kept@.len() - 1] == items[j]);
                    }
                }
            }
            i += 1;
        }
        proof {
            assert(items.skip(items.len() as int) =~= Seq::<WreckItem>::empty());
            assert(kept@ + Seq::<WreckItem>::empty() =~= kept@);
            assert(target.wreck_items == kept@);
            assert(target.player_items == self.player_items@);
            assert(target.next_player_item_id == self.next_player_item_id);
        }
        let ghost mid = *self;
        self.wreck_items = kept;
        let any_left = self.has_item_for(wreck_id);
        if !any_left {
            self.wrecks.remove(widx);
        }
        proof {
            lemma_loot_finalize(pre, mid, *self, target, wreck_id, looter, widx as int, any_left);
        }
        Ok(())
    }
}

/// After the allocation loop, writing back the surviving wreck items
/// and deleting the wreck row exactly when none of its items survived
/// preserves well-formedness and establishes the loot contract.
/// Deleting one wreck row keeps wreck ids unique.
proof fn lemma_remove_keeps_unique(ws: Seq<Wreck>, widx: int)
    requires
        wrecks_wf(ws),
        0 <= widx < ws.len(),
    ensures
        wrecks_wf(ws.remove(widx)),
{
    let rem = ws.remove(widx);
    assert forall|a: int, b: int| 0 <= a < b < rem.len() implies rem[a].id != rem[b].id by {
        assert(rem[a] == (if a < widx {
            ws[a]
        } else {
            ws[a + 1]
        }));
        assert(rem[b] == (if b < widx {
            ws[b]
        } else {
            ws[b + 1]
        }));
    }
}

/// Each surviving item was derived from the original row with the
/// same id by possibly shrinking a positive quantity.
spec fn derived_item(kept: Seq<WreckItem>, its: Seq<WreckItem>, k: int) -> bool {
    exists|j: int|
        0 <= j < its.len() && kept[k].id == its[j].id && kept[k].wreck_id == its[j].wreck_id
            && kept[k].item_type == its[j].item_type && kept[k].volume_m3 == its[j].volume_m3 && 0
            < kept[k].quantity <= its[j].quantity
}

/// The surviving wreck items are well-formed against the remaining
/// wrecks: positive quantities, ids below the counter and ascending,
/// and every row's wreck still exists.
#[verifier::rlimit(50)]
proof fn lemma_loot_kept_items_wf(
    ws: Seq<Wreck>,
    ws2: Seq<Wreck>,
    its: Seq<WreckItem>,
    kept: Seq<WreckItem>,
    next_id: u64,
    wreck_id: u64,
    widx: int,
    any_left: bool,
)
    requires
        wrecks_wf(ws),
        wreck_items_wf(its, ws, next_id),
        0 <= widx < ws.len(),
        ws[widx].id == wreck_id,
        any_left == has_wreck_item(kept, wreck_id),
        ws2 == (if any_left {
            ws
        } else {
            ws.remove(widx)
        }),
        forall|a: int, b: int| 0 <= a < b < kept.len() ==> kept[a].id < kept[b].id,
        forall|k: int| 0 <= k < kept.len() ==> #[trigger] derived_item(kept, its, k),
    ensures
        wreck_items_wf(kept, ws2, next_id),
{
    if !any_left {
        assert forall|k: int|
            0 <= k < kept.len() implies (#[trigger] kept[k]).wreck_id != wreck_id by {
            if kept[k].wreck_id == wreck_id {
                assert(has_wreck_item(kept, wreck_id));
            }
        }
    }
    assert forall|k: int| 0 <= k < kept.len() implies (#[trigger] kept[k]).quantity > 0 && kept[k].id
        < next_id by {
        assert(derived_item(kept, its, k));
        let j = choose|j: int|
            0 <= j < its.len() && kept[k].id == its[j].id && kept[k].wreck_id == its[j].wreck_id
                && kept[k].item_type == its[j].item_type && kept[k].volume_m3 == its[j].volume_m3 && 0
                < kept[k].quantity <= its[j].quantity;
        assert(its[j].id < next_id);
    }
    assert forall|k: int|
        0 <= k < kept.len() implies has_wreck(ws2, (#[trigger] kept[k]).wreck_id) by {
        assert(derived_item(kept, its, k));
        let j = choose|j: int|
            0 <= j < its.len() && kept[k].id == its[j].id && kept[k].wreck_id == its[j].wreck_id
                && kept[k].item_type == its[j].item_type && kept[k].volume_m3 == its[j].volume_m3 && 0
                < kept[k].quantity <= its[j].quantity;
        assert(has_wreck(ws, its[j].wreck_id));
        let x = wreck_index(ws, its[j].wreck_id);
        assert(0 <= x < ws.len() && ws[x].id == its[j].wreck_id);
        if any_left {
            assert(ws2[x].id == kept[k].wreck_id);
        } else {
            assert(kept[k].wreck_id != wreck_id);
            assert(x != widx);
            let rem = ws.remove(widx);
            if x < widx {
                assert(rem[x] == ws[x]);
                assert(rem[x].id == kept[k].wreck_id);
            } else {
                assert(rem[x - 1] == ws[x]);
                assert(rem[x - 1].id == kept[k].wreck_id);
            }
        }
    }
}

/// Every remaining wreck still holds at least one item stack: the
/// looted wreck only remains while it has one, and no other wreck's
/// items were touched.
#[verifier::rlimit(50)]
proof fn lemma_loot_wrecks_nonempty(
    ws: Seq<Wreck>,
    ws2: Seq<Wreck>,
    its: Seq<WreckItem>,
    kept: Seq<WreckItem>,
    wreck_id: u64,
    widx: int,
    any_left: bool,
)
    requires
        wrecks_wf(ws),
        wrecks_nonempty(ws, its),
        0 <= widx < ws.len(),
        ws[widx].id == wreck_id,
        any_left == has_wreck_item(kept, wreck_id),
        ws2 == (if any_left {
            ws
        } else {
            ws.remove(widx)
        }),
        forall|j: int|
            0 <= j < its.len() && (#[trigger] its[j]).wreck_id != wreck_id ==> exists|k: int|
                0 <= k < kept.len() && kept[k] == its[j],
    ensures
        wrecks_nonempty(ws2, kept),
{
    assert forall|a: int|
        0 <= a < ws2.len() implies has_wreck_item(kept, (#[trigger] ws2[a]).id) by {
        let w = ws2[a];
        let orig: int = if any_left {
            a
        } else if a < widx {
            a
        } else {
            a + 1
        };
        assert(w == ws[orig]);
        if any_left && orig == widx {
            assert(has_wreck_item(kept, wreck_id));
        } else {
            assert(w.id != wreck_id) by {
                if orig != widx {
                    if orig < widx {
                        assert(ws[orig].id != ws[widx].id);
                    } else {
                        assert(ws[widx].id != ws[orig].id);
                    }
                }
            }
            assert(has_wreck_item(its, w.id));
            let j = choose|j: int| 0 <= j < its.len() && its[j].wreck_id == w.id;
            assert(its[j].wreck_id != wreck_id);
            let k = choose|k: int| 0 <= k < kept.len() && kept[k] == its[j];
            assert(kept[k].wreck_id == w.id);
        }
    }
}

/// After the allocation loop, writing back the surviving wreck items
/// and deleting the wreck row exactly when none of its items survived
/// preserves well-formedness and establishes the loot contract.
proof fn lemma_loot_finalize(
    pre: WorldState,
    mid: WorldState,
    post: WorldState,
    target: LootOutcome,
    wreck_id: u64,
    looter: Identity,
    widx: int,
    any_left: bool,
)
    requires
        pre.wf(),
        mid.wf(),
        mid.players@ == pre.players@,
        mid.wrecks@ == pre.wrecks@,
        mid.wreck_items@ == pre.wreck_items@,
        mid.next_wreck_item_id == pre.next_wreck_item_id,
        0 <= widx < pre.wrecks@.len(),
        pre.wrecks@[widx].id == wreck_id,
        target == loot_items(
            pre.wreck_items@,
            wreck_id,
            looter,
            pre.player_items@,
            pre.next_player_item_id,
            free_capacity(pre, looter),
        ),
        target.player_items == mid.player_items@,
        target.next_player_item_id == mid.next_player_item_id,
        post.players@ == pre.players@,
        post.player_items@ == mid.player_items@,
        post.next_player_item_id == mid.next_player_item_id,
        post.wreck_items@ == target.wreck_items,
        post.next_wreck_item_id == pre.next_wreck_item_id,
        any_left == has_wreck_item(target.wreck_items, wreck_id),
        post.wrecks@ == (if any_left {
            pre.wrecks@
        } else {
            pre.wrecks@.remove(widx)
        }),
        forall|a: int, b: int|
            0 <= a < b < target.wreck_items.len() ==> target.wreck_items[a].id
                < target.wreck_items[b].id,
        forall|k: int|
            0 <= k < target.wreck_items.len() ==> exists|j: int|
                0 <= j < pre.wreck_items@.len() && (#[trigger] target.wreck_items[k]).id
                    == pre.wreck_items@[j].id && target.wreck_items[k].wreck_id
                    == pre.wreck_items@[j].wreck_id && target.wreck_items[k].item_type
                    == pre.wreck_items@[j].item_type && target.wreck_items[k].volume_m3
                    == pre.wreck_items@[j].volume_m3 && 0 < target.wreck_items[k].quantity
                    <= pre.wreck_items@[j].quantity,
        forall|j: int|
            0 <= j < pre.wreck_items@.len() && (#[trigger] pre.wreck_items@[j]).wreck_id != wreck_id
                ==> exists|k: int|
                0 <= k < target.wreck_items.len() && target.wreck_items[k] == pre.wreck_items@[j],
    ensures
        post.wf(),
        loot_all_post(pre, post, wreck_id, looter),
{
    let ws = pre.wrecks@;
    let its = pre.wreck_items@;
    let kept = target.wreck_items;
    assert forall|k: int| 0 <= k < kept.len() implies #[trigger] derived_item(kept, its, k) by {
        let j = choose|j: int|
            0 <= j < its.len() && kept[k].id == its[j].id && kept[k].wreck_id == its[j].wreck_id
                && kept[k].item_type == its[j].item_type && kept[k].volume_m3 == its[j].volume_m3 && 0
                < kept[k].quantity <= its[j].quantity;
        assert(0 <= j < its.len() && kept[k].id == its[j].id && kept[k].wreck_id == its[j].wreck_id
            && kept[k].item_type == its[j].item_type && kept[k].volume_m3 == its[j].volume_m3 && 0
            < kept[k].quantity <= its[j].quantity);
    }
    if !any_left {
        lemma_remove_keeps_unique(ws, widx);
    }
    lemma_loot_kept_items_wf(ws, post.wrecks@, its, kept, pre.next_wreck_item_id, wreck_id, widx,
        any_left);
    lemma_loot_wrecks_nonempty(ws, post.wrecks@, its, kept, wreck_id, widx, any_left);
    assert(has_wreck(ws, wreck_id));
    let wi = wreck_index(ws, wreck_id);
    assert(0 <= wi < ws.len() && ws[wi].id == wreck_id);
    assert(wi == widx) by {
        if wi < widx {
            assert(ws[wi].id != ws[widx].id);
        } else if widx < wi {
            assert(ws[widx].id != ws[wi].id);
        }
    }
}

/// Merging into an existing stack preserves well-formedness and grows
/// the owner's used volume by at most the merged volume.
proof fn lemma_add_update_ok(
    pre: WorldState,
    post: WorldState,
    i: int,
    owner: Identity,
    item_type: u16,
    volume_m3: u32,
    quantity: u32,
)
    requires
        pre.wf(),
        has_player(pre.players@, owner),
        used_volume_of(pre.player_items@, owner) + quantity as int * volume_m3 as int
            <= player_capacity(pre.players@, owner),
        quantity > 0,
        0 <= i < pre.player_items@.len(),
        is_stack(pre.player_items@[i], owner, item_type, volume_m3),
        post.player_items@ == pre.player_items@.update(
            i,
            (PlayerItem {
                quantity: sat_add_u32(pre.player_items@[i].quantity, quantity),
                ..pre.player_items@[i]
            }),
        ),
        post.players@ == pre.players@,
        post.next_player_item_id == pre.next_player_item_id,
        post.wrecks@ == pre.wrecks@,
        post.wreck_items@ == pre.wreck_items@,
        post.next_wreck_item_id == pre.next_wreck_item_id,
    ensures
        post.wf(),
        has_stack(pre.player_items@, owner, item_type, volume_m3),
        post.player_items@ == merged_stacks(
            pre.player_items@,
            owner,
            item_type,
            volume_m3,
            quantity,
            pre.next_player_item_id,
        ),
        used_volume_of(post.player_items@, owner) <= used_volume_of(pre.player_items@, owner)
            + quantity as int * volume_m3 as int,
        forall|o2: Identity|
            o2 != owner ==> used_volume_of(post.player_items@, o2) == used_volume_of(
                pre.player_items@,
                o2,
            ),
{
    let s = pre.player_items@;
    let oldq = s[i].quantity;
    let x = PlayerItem { quantity: sat_add_u32(oldq, quantity), ..s[i] };
    let t = s.update(i, x);
    assert(has_stack(s, owner, item_type, volume_m3));
    let k = stack_index(s, owner, item_type, volume_m3);
    assert(is_stack(s[k], owner, item_type, volume_m3));
    assert(k == i) by {
        if k < i {
            assert(!(s[k].owner == s[i].owner && s[k].item_type == s[i].item_type && s[k].volume_m3
                == s[i].volume_m3));
        } else if i < k {
            assert(!(s[i].owner == s[k].owner && s[i].item_type == s[k].item_type && s[i].volume_m3
                == s[k].volume_m3));
        }
    }
    assert(post.player_items@ == merged_stacks(s, owner, item_type, volume_m3, quantity,
        pre.next_player_item_id));
    // the relation stays well-formed: only the quantity at `i` changed
    assert forall|a: int| 0 <= a < t.len() implies (#[trigger] t[a]).quantity > 0 by {
        if a != i {
            assert(t[a] == s[a]);
        }
    }
    assert forall|a: int| 0 <= a < t.len() implies (#[trigger] t[a]).id < post.next_player_item_id by {
        assert(t[a].id == s[a].id);
    }
    assert forall|a: int, b: int| 0 <= a < b < t.len() implies t[a].id != t[b].id by {
        assert(t[a].id == s[a].id && t[b].id == s[b].id);
    }
    assert forall|a: int, b: int|
        0 <= a < b < t.len() implies !(t[a].owner == t[b].owner && t[a].item_type == t[b].item_type
        && t[a].volume_m3 == t[b].volume_m3) by {
        assert(t[a].owner == s[a].owner && t[a].item_type == s[a].item_type && t[a].volume_m3
            == s[a].volume_m3);
        assert(t[b].owner == s[b].owner && t[b].item_type == s[b].item_type && t[b].volume_m3
            == s[b].volume_m3);
    }
    assert forall|a: int| 0 <= a < t.len() implies has_player(post.players@, (#[trigger] t[a]).owner) by {
        assert(t[a].owner == s[a].owner);
        assert(has_player(pre.players@, s[a].owner));
    }
    // capacity accounting
    assert(x.quantity as int - oldq as int <= quantity as int);
    assert(x.quantity as int >= oldq as int);
    assert((x.quantity as int - oldq as int) * volume_m3 as int <= quantity as int * volume_m3 as int)
        by (nonlinear_arith)
        requires
            0 <= x.quantity as int - oldq as int <= quantity as int,
            0 <= volume_m3 as int,
    ;
    assert(stack_volume(x, owner) - stack_volume(s[i], owner) == (x.quantity as int - oldq as int)
        * volume_m3 as int) by (nonlinear_arith)
        requires
            x.owner == owner,
            s[i].owner == owner,
            x.volume_m3 == volume_m3,
            s[i].volume_m3 == volume_m3,
            x.quantity == x.quantity,
            stack_volume(x, owner) == x.quantity as int * volume_m3 as int,
            stack_volume(s[i], owner) == oldq as int * volume_m3 as int,
    ;
    lemma_used_volume_update(s, i, x, owner);
    assert forall|o2: Identity|
        o2 != owner implies used_volume_of(t, o2) == used_volume_of(s, o2) by {
        lemma_used_volume_update(s, i, x, o2);
        assert(stack_volume(s[i], o2) == 0);
        assert(stack_volume(x, o2) == 0);
    }
    assert forall|a: int|
        0 <= a < post.players@.len() implies used_volume_of(t, (#[trigger] post.players@[a]).identity)
        <= post.players@[a].cargo_capacity_m3 as int by {
        let p = pre.players@[a];
        assert(used_volume_of(s, p.identity) <= p.cargo_capacity_m3 as int);
        if p.identity == owner {
            let pi = player_index(pre.players@, owner);
            assert(0 <= pi < pre.players@.len() && pre.players@[pi].identity == owner);
            assert(pi == a);
        }
    }
}

/// Creating a fresh stack preserves well-formedness and grows the
/// owner's used volume by exactly the inserted volume.
proof fn lemma_add_push_ok(
    pre: WorldState,
    post: WorldState,
    owner: Identity,
    item_type: u16,
    volume_m3: u32,
    quantity: u32,
)
    requires
        pre.wf(),
        has_player(pre.players@, owner),
        used_volume_of(pre.player_items@, owner) + quantity as int * volume_m3 as int
            <= player_capacity(pre.players@, owner),
        quantity > 0,
        !has_stack(pre.player_items@, owner, item_type, volume_m3),
        pre.next_player_item_id < u64::MAX,
        post.player_items@ == pre.player_items@.push(
            (PlayerItem { id: pre.next_player_item_id, owner, item_type, quantity, volume_m3 }),
        ),
        post.next_player_item_id == pre.next_player_item_id + 1,
        post.players@ == pre.players@,
        post.wrecks@ == pre.wrecks@,
        post.wreck_items@ == pre.wreck_items@,
        post.next_wreck_item_id == pre.next_wreck_item_id,
    ensures
        post.wf(),
        post.player_items@ == merged_stacks(
            pre.player_items@,
            owner,
            item_type,
            volume_m3,
            quantity,
            pre.next_player_item_id,
        ),
        used_volume_of(post.player_items@, owner) <= used_volume_of(pre.player_items@, owner)
            + quantity as int * volume_m3 as int,
        forall|o2: Identity|
            o2 != owner ==> used_volume_of(post.player_items@, o2) == used_volume_of(
                pre.player_items@,
                o2,
            ),
{
    let s = pre.player_items@;
    let x = PlayerItem { id: pre.next_player_item_id, owner, item_type, quantity, volume_m3 };
    let t = s.push(x);
    assert(post.player_items@ == merged_stacks(s, owner, item_type, volume_m3, quantity,
        pre.next_player_item_id));
    assert forall|a: int| 0 <= a < s.len() implies !is_stack(#[trigger] s[a], owner, item_type,
        volume_m3) by {
        if is_stack(s[a], owner, item_type, volume_m3) {
            assert(has_stack(s, owner, item_type, volume_m3));
        }
    }
    assert forall|a: int| 0 <= a < t.len() implies (#[trigger] t[a]).quantity > 0 by {
        if a < s.len() {
            assert(t[a] == s[a]);
        }
    }
    assert forall|a: int| 0 <= a < t.len() implies (#[trigger] t[a]).id < post.next_player_item_id by {
        if a < s.len() {
            assert(t[a] == s[a]);
        }
    }
    assert forall|a: int, b: int| 0 <= a < b < t.len() implies t[a].id != t[b].id by {
        if b < s.len() {
            assert(t[a] == s[a] && t[b] == s[b]);
        } else {
            assert(t[a] == s[a] && t[b] == x);
            assert(s[a].id < pre.next_player_item_id);
        }
    }
    assert forall|a: int, b: int|
        0 <= a < b < t.len() implies !(t[a].owner == t[b].owner && t[a].item_type == t[b].item_type
        && t[a].volume_m3 == t[b].volume_m3) by {
        if b < s.len() {
            assert(t[a] == s[a] && t[b] == s[b]);
        } else {
            assert(t[a] == s[a] && t[b] == x);
            assert(!is_stack(s[a], owner, item_type, volume_m3));
        }
    }
    assert forall|a: int| 0 <= a < t.len() implies has_player(post.players@, (#[trigger] t[a]).owner) by {
        if a < s.len() {
            assert(t[a] == s[a]);
            assert(has_player(pre.players@, s[a].owner));
        }
    }
    lemma_used_volume_push(s, x, owner);
    assert forall|o2: Identity|
        o2 != owner implies used_volume_of(t, o2) == used_volume_of(s, o2) by {
        lemma_used_volume_push(s, x, o2);
        assert(stack_volume(x, o2) == 0);
    }
    assert forall|a: int|
        0 <= a < post.players@.len() implies used_volume_of(t, (#[trigger] post.players@[a]).identity)
        <= post.players@[a].cargo_capacity_m3 as int by {
        let p = pre.players@[a];
        assert(used_volume_of(s, p.identity) <= p.cargo_capacity_m3 as int);
        if p.identity == owner {
            let pi = player_index(pre.players@, owner);
            assert(0 <= pi < pre.players@.len() && pre.players@[pi].identity == owner);
            assert(pi == a);
        }
    }
}

/// `v` clamped to the `u32` range from above.
pub open spec fn clamp_u32(v: int) -> int {
    if v > u32::MAX as int {
        u32::MAX as int
    } else {
        v
    }
}

/// Saturating `u32` addition.
pub open spec fn sat_add_u32(a: u32, b: u32) -> u32 {
    clamp_u32(a as int + b as int) as u32
}

/// The inventory relation after merging `quantity` units of
/// `(item_type, volume_m3)` into the stacks of `owner`: an existing
/// stack with that key grows by saturating addition; otherwise a new
/// row with id `next_id` is appended. Meaningful for `quantity > 0`.
pub open spec fn merged_stacks(
    s: Seq<PlayerItem>,
    owner: Identity,
    item_type: u16,
    volume_m3: u32,
    quantity: u32,
    next_id: u64,
) -> Seq<PlayerItem> {
    if has_stack(s, owner, item_type, volume_m3) {
        let i = stack_index(s, owner, item_type, volume_m3);
        s.update(i, (PlayerItem { quantity: sat_add_u32(s[i].quantity, quantity), ..s[i] }))
    } else {
        s.push((PlayerItem { id: next_id, owner, item_type, quantity, volume_m3 }))
    }
}

/// The wreck relation after a spawn request for `id`: unchanged when
/// the id is already present, otherwise extended by the new row.
pub open spec fn spawned_wrecks(
    wrecks: Seq<Wreck>,
    id: u64,
    site_id: u64,
    pos_x_bits: u64,
    pos_y_bits: u64,
    pos_z_bits: u64,
) -> Seq<Wreck> {
    if has_wreck(wrecks, id) {
        wrecks
    } else {
        wrecks.push((Wreck { id, site_id, pos_x_bits, pos_y_bits, pos_z_bits }))
    }
}

/// The wreck-item relation after a spawn request for `id`: unchanged
/// when the id is already present, otherwise extended by exactly one
/// placeholder stack with row id `next_id`.
pub open spec fn spawned_wreck_items(
    wrecks: Seq<Wreck>,
    items: Seq<WreckItem>,
    id: u64,
    next_id: u64,
) -> Seq<WreckItem> {
    if has_wreck(wrecks, id) {
        items
    } else {
        items.push(
            (WreckItem {
                id: next_id,
                wreck_id: id,
                item_type: ITEM_SALVAGED_SCRAP,
                quantity: 1,
                volume_m3: ITEM_SALVAGED_SCRAP_VOLUME_M3,
            }),
        )
    }
}

/// Spawning a fresh wreck together with its placeholder stack
/// preserves well-formedness.
proof fn lemma_spawn_push_ok(
    pre: WorldState,
    post: WorldState,
    wreck_id: u64,
    site_id: u64,
    pos_x_bits: u64,
    pos_y_bits: u64,
    pos_z_bits: u64,
)
    requires
        pre.wf(),
        pre.next_wreck_item_id < u64::MAX,
        !has_wreck(pre.wrecks@, wreck_id),
        post.wrecks@ == pre.wrecks@.push(
            (Wreck { id: wreck_id, site_id, pos_x_bits, pos_y_bits, pos_z_bits }),
        ),
        post.wreck_items@ == pre.wreck_items@.push(
            (WreckItem {
                id: pre.next_wreck_item_id,
                wreck_id,
                item_type: ITEM_SALVAGED_SCRAP,
                quantity: 1,
                volume_m3: ITEM_SALVAGED_SCRAP_VOLUME_M3,
            }),
        ),
        post.next_wreck_item_id == pre.next_wreck_item_id + 1,
        post.players@ == pre.players@,
        post.player_items@ == pre.player_items@,
        post.next_player_item_id == pre.next_player_item_id,
    ensures
        post.wf(),
        has_wreck(post.wrecks@, wreck_id),
{
    let ws = pre.wrecks@;
    let its = pre.wreck_items@;
    let w = Wreck { id: wreck_id, site_id, pos_x_bits, pos_y_bits, pos_z_bits };
    let x = WreckItem {
        id: pre.next_wreck_item_id,
        wreck_id,
        item_type: ITEM_SALVAGED_SCRAP,
        quantity: 1,
        volume_m3: ITEM_SALVAGED_SCRAP_VOLUME_M3,
    };
    let ws2 = ws.push(w);
    let its2 = its.push(x);
    assert(ws2[ws.len() as int] == w);
    assert(its2[its.len() as int] == x);
    assert forall|a: int| 0 <= a < ws.len() implies (#[trigger] ws2[a]).id != wreck_id by {
        assert(ws2[a] == ws[a]);
        if ws[a].id == wreck_id {
            assert(has_wreck(ws, wreck_id));
        }
    }
    assert forall|a: int, b: int| 0 <= a < b < ws2.len() implies ws2[a].id != ws2[b].id by {
        if b < ws.len() {
            assert(ws2[a] == ws[a] && ws2[b] == ws[b]);
        }
    }
    assert forall|a: int| 0 <= a < its2.len() implies (#[trigger] its2[a]).id
        < post.next_wreck_item_id by {
        if a < its.len() {
            assert(its2[a] == its[a]);
        }
    }
    assert forall|a: int, b: int| 0 <= a < b < its2.len() implies its2[a].id < its2[b].id by {
        if b < its.len() {
            assert(its2[a] == its[a] && its2[b] == its[b]);
        } else {
            assert(its2[b] == x);
            if a < its.len() {
                assert(its2[a] == its[a]);
                assert(its[a].id < pre.next_wreck_item_id);
            }
        }
    }
    assert forall|a: int| 0 <= a < its2.len() implies has_wreck(ws2, (#[trigger] its2[a]).wreck_id) by {
        if a < its.len() {
            assert(its2[a] == its[a]);
            assert(has_wreck(ws, its[a].wreck_id));
            let k = wreck_index(ws, its[a].wreck_id);
            assert(ws2[k] == ws[k]);
        } else {
            assert(ws2[ws.len() as int].id == wreck_id);
        }
    }
    assert forall|a: int| 0 <= a < ws2.len() implies has_wreck_item(its2, (#[trigger] ws2[a]).id) by {
        if a < ws.len() {
            assert(ws2[a] == ws[a]);
            assert(has_wreck_item(its, ws[a].id));
            let k = choose|k: int| 0 <= k < its.len() && its[k].wreck_id == ws[a].id;
            assert(its2[k] == its[k]);
        } else {
            assert(its2[its.len() as int].wreck_id == ws2[a].id);
        }
    }
}

/// Volume one unit of a stack occupies for the "how many fit"
/// computation; a zero-volume item counts as one cubic metre, so the
/// computation never divides by zero.
pub open spec fn per_unit_volume(volume_m3: u32) -> int {
    if volume_m3 == 0 {
        1
    } else {
        volume_m3 as int
    }
}

/// How many units of `it` a looter with `free` volume takes: as many
/// as fit, but no more than the stack holds.
pub open spec fn take_amount(free: int, it: WreckItem) -> int {
    let fit = free / per_unit_volume(it.volume_m3);
    if fit >= it.quantity as int {
        it.quantity as int
    } else {
        fit
    }
}

/// What taking `take_amount` units costs and yields.
pub proof fn lemma_take_amount_fits(free: int, it: WreckItem)
    requires
        free >= 0,
    ensures
        0 <= take_amount(free, it) <= it.quantity as int,
        take_amount(free, it) * per_unit_volume(it.volume_m3) <= free,
        take_amount(free, it) * it.volume_m3 as int <= take_amount(free, it) * per_unit_volume(
            it.volume_m3,
        ),
        free == 0 ==> take_amount(free, it) == 0,
{
    let per = per_unit_volume(it.volume_m3);
    let fit = free / per;
    assert(per > 0);
    vstd::arithmetic::div_mod::lemma_fundamental_div_mod(free, per);
    vstd::arithmetic::div_mod::lemma_mod_bound(free, per);
    assert(fit >= 0) by (nonlinear_arith)
        requires
            free >= 0,
            per > 0,
            free == per * fit + free % per,
            0 <= free % per < per,
    ;
    let take = take_amount(free, it);
    assert(take <= fit);
    vstd::arithmetic::mul::lemma_mul_inequality(take, fit, per);
    assert(per * fit <= free);
    assert(fit * per == per * fit) by (nonlinear_arith);
    if it.volume_m3 == 0 {
        assert(take * it.volume_m3 as int == 0) by (nonlinear_arith)
            requires
                it.volume_m3 as int == 0,
        ;
        assert(take * per == take);
    }
    if free == 0 {
        assert(fit == 0) by (nonlinear_arith)
            requires
                per > 0,
                fit >= 0,
                per * fit + free % per == 0,
                0 <= free % per,
        ;
    }
}

/// Outcome of running the loot allocation over the wreck-item
/// relation: the surviving wreck items, the looter's new inventory,
/// the id counter after any inserts, and the free volume that is left.
pub struct LootOutcome {
    pub wreck_items: Seq<WreckItem>,
    pub player_items: Seq<PlayerItem>,
    pub next_player_item_id: u64,
    pub free: int,
}

/// The loot allocation, one wreck item at a time in relation order
/// (ascending row id): items of other wrecks pass through untouched;
/// an item of the looted wreck yields `take_amount` units into the
/// looter's inventory, is dropped when fully taken, and is kept with
/// the reduced quantity otherwise.
pub open spec fn loot_items(
    items: Seq<WreckItem>,
    wreck_id: u64,
    looter: Identity,
    inv: Seq<PlayerItem>,
    next_id: u64,
    free: int,
) -> LootOutcome
    decreases items.len(),
{
    if items.len() == 0 {
        LootOutcome { wreck_items: Seq::empty(), player_items: inv, next_player_item_id: next_id, free }
    } else {
        let it = items[0];
        if it.wreck_id != wreck_id {
            let rest = loot_items(items.drop_first(), wreck_id, looter, inv, next_id, free);
            LootOutcome { wreck_items: seq![it] + rest.wreck_items, ..rest }
        } else {
            let take = take_amount(free, it);
            if take == 0 {
                let rest = loot_items(items.drop_first(), wreck_id, looter, inv, next_id, free);
                LootOutcome { wreck_items: seq![it] + rest.wreck_items, ..rest }
            } else {
                let inv2 = merged_stacks(inv, looter, it.item_type, it.volume_m3, take as u32, next_id);
                let next2 = if has_stack(inv, looter, it.item_type, it.volume_m3) {
                    next_id
                } else {
                    (next_id + 1) as u64
                };
                let free2 = free - take * per_unit_volume(it.volume_m3);
                let rest = loot_items(items.drop_first(), wreck_id, looter, inv2, next2, free2);
                if take == it.quantity as int {
                    rest
                } else {
                    LootOutcome {
                        wreck_items: seq![(WreckItem { quantity: (it.quantity - take) as u32, ..it })]
                            + rest.wreck_items,
                        ..rest
                    }
                }
            }
        }
    }
}

/// Cargo volume the player `who` still has free.
pub open spec fn free_capacity(s: WorldState, who: Identity) -> int {
    player_capacity(s.players@, who) - used_volume_of(s.player_items@, who)
}

/// Full functional description of a successful `loot_all`: the loot
/// allocation ran over the whole wreck-item relation with the looter's
/// free capacity, and the wreck row was deleted exactly when none of
/// its items survived.
pub open spec fn loot_all_post(pre: WorldState, post: WorldState, wreck_id: u64, looter: Identity) -> bool {
    let o = loot_items(
        pre.wreck_items@,
        wreck_id,
        looter,
        pre.player_items@,
        pre.next_player_item_id,
        free_capacity(pre, looter),
    );
    &&& post.players@ == pre.players@
    &&& post.player_items@ == o.player_items
    &&& post.next_player_item_id == o.next_player_item_id
    &&& post.wreck_items@ == o.wreck_items
    &&& post.next_wreck_item_id == pre.next_wreck_item_id
    &&& post.wrecks@ == (if has_wreck_item(o.wreck_items, wreck_id) {
        pre.wrecks@
    } else {
        pre.wrecks@.remove(wreck_index(pre.wrecks@, wreck_id))
    })
}

/// Used volume is a sum of non-negative terms.
pub proof fn lemma_used_volume_nonneg(s: Seq<PlayerItem>, owner: Identity)
    ensures
        used_volume_of(s, owner) >= 0,
    decreases s.len(),
{
    if s.len() > 0 {
        lemma_used_volume_nonneg(s.drop_last(), owner);
        assert(stack_volume(s.last(), owner) >= 0) by (nonlinear_arith);
    }
}

/// Replacing the row at `i` shifts the used volume by the difference of
/// the two rows' contributions, for every owner.
pub proof fn lemma_used_volume_update(s: Seq<PlayerItem>, i: int, x: PlayerItem, owner: Identity)
    requires
        0 <= i < s.len(),
    ensures
        used_volume_of(s.update(i, x), owner) == used_volume_of(s, owner) - stack_volume(s[i], owner)
            + stack_volume(x, owner),
    decreases s.len(),
{
    let t = s.update(i, x);
    if i == s.len() - 1 {
        assert(t.drop_last() =~= s.drop_last());
        assert(t.last() == x);
    } else {
        assert(t.drop_last() =~= s.drop_last().update(i, x));
        assert(t.last() == s.last());
        lemma_used_volume_update(s.drop_last(), i, x, owner);
    }
}

/// Appending a row adds exactly that row's contribution, for every owner.
pub proof fn lemma_used_volume_push(s: Seq<PlayerItem>, x: PlayerItem, owner: Identity)
    ensures
        used_volume_of(s.push(x), owner) == used_volume_of(s, owner) + stack_volume(x, owner),
{
    assert(s.push(x).drop_last() =~= s);
    assert(s.push(x).last() == x);
}

/// An owner with no inventory rows uses no cargo volume.
pub proof fn lemma_used_volume_no_rows(s: Seq<PlayerItem>, owner: Identity)
    requires
        forall|i: int| 0 <= i < s.len() ==> (#[trigger] s[i]).owner != owner,
    ensures
        used_volume_of(s, owner) == 0,
    decreases s.len(),
{
    if s.len() > 0 {
        lemma_used_volume_no_rows(s.drop_last(), owner);
    }
}

} // verus!
