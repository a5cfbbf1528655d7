//! Cross-operation properties of the core, stated and proved over the
//! same spec functions the operations' contracts use.

use vstd::prelude::*;

use crate::Identity;
use crate::world::PlayerItem;
use crate::world::WorldState;
use crate::world::Wreck;
use crate::world::WreckItem;
use crate::world::clamp_u32;
use crate::world::has_stack;
use crate::world::has_wreck;
use crate::world::has_wreck_item;
use crate::world::is_stack;
use crate::world::merged_stacks;
use crate::world::per_unit_volume;
use crate::world::spawned_wreck_items;
use crate::world::spawned_wrecks;
use crate::world::stack_index;
use crate::world::take_amount;
use crate::world::used_volume_of;
use crate::world::wrecks_wf;

verus! {

/// The two global invariants of the store, spelled out: after every
/// operation (each of which preserves `wf`), no player's cargo hold
/// exceeds their capacity, and a wreck row exists if and only if at
/// least one wreck-item row — all of which have positive quantity —
/// references it.
pub proof fn lemma_global_invariants(s: WorldState)
    requires
        s.wf(),
    ensures
        forall|i: int|
            0 <= i < s.players@.len() ==> used_volume_of(
                s.player_items@,
                (#[trigger] s.players@[i]).identity,
            ) <= s.players@[i].cargo_capacity_m3 as int,
        forall|i: int|
            0 <= i < s.wrecks@.len() ==> has_wreck_item(s.wreck_items@, (#[trigger] s.wrecks@[i]).id),
        forall|i: int|
            0 <= i < s.wreck_items@.len() ==> has_wreck(s.wrecks@, (#[trigger] s.wreck_items@[i]).wreck_id)
                && s.wreck_items@[i].quantity > 0,
{
}

/// How many wreck rows carry the id `id`.
pub open spec fn wreck_count(s: Seq<Wreck>, id: u64) -> int
    decreases s.len(),
{
    if s.len() == 0 {
        0
    } else {
        wreck_count(s.drop_last(), id) + if s.last().id == id {
            1int
        } else {
            0int
        }
    }
}

/// A wreck id that is absent from the relation has count zero.
pub proof fn lemma_wreck_count_absent(s: Seq<Wreck>, id: u64)
    requires
        !has_wreck(s, id),
    ensures
        wreck_count(s, id) == 0,
    decreases s.len(),
{
    if s.len() > 0 {
        assert(!has_wreck(s.drop_last(), id)) by {
            if has_wreck(s.drop_last(), id) {
                let i = choose|i: int| 0 <= i < s.drop_last().len() && s.drop_last()[i].id == id;
                assert(s[i].id == id);
            }
        }
        lemma_wreck_count_absent(s.drop_last(), id);
    }
}

/// Under unique wreck ids, a present id has count exactly one.
pub proof fn lemma_wreck_count_unique(s: Seq<Wreck>, id: u64)
    requires
        wrecks_wf(s),
        has_wreck(s, id),
    ensures
        wreck_count(s, id) == 1,
    decreases s.len(),
{
    let i = choose|i: int| 0 <= i < s.len() && s[i].id == id;
    if s.last().id == id {
        assert(!has_wreck(s.drop_last(), id)) by {
            if has_wreck(s.drop_last(), id) {
                let j = choose|j: int| 0 <= j < s.drop_last().len() && s.drop_last()[j].id == id;
                assert(s[j].id == s[s.len() - 1].id);
            }
        }
        lemma_wreck_count_absent(s.drop_last(), id);
    } else {
        assert(i < s.len() - 1);
        assert(s.drop_last()[i].id == id);
        lemma_wreck_count_unique(s.drop_last(), id);
    }
}

/// Spawning a wreck twice with the same id is idempotent: whatever
/// the second request's site and position, the wreck relation and the
/// wreck-item relation already produced by the first spawn are
/// unchanged, and exactly one wreck row with that id exists.
pub proof fn lemma_spawn_wreck_idempotent(
    wrecks: Seq<Wreck>,
    items: Seq<WreckItem>,
    next_id: u64,
    next_id2: u64,
    id: u64,
    site_id: u64,
    x_bits: u64,
    y_bits: u64,
    z_bits: u64,
    site_id2: u64,
    x2_bits: u64,
    y2_bits: u64,
    z2_bits: u64,
)
    requires
        wrecks_wf(wrecks),
    ensures
        ({
            let w1 = spawned_wrecks(wrecks, id, site_id, x_bits, y_bits, z_bits);
            let i1 = spawned_wreck_items(wrecks, items, id, next_id);
            &&& spawned_wrecks(w1, id, site_id2, x2_bits, y2_bits, z2_bits) == w1
            &&& spawned_wreck_items(w1, i1, id, next_id2) == i1
            &&& wreck_count(w1, id) == 1
        }),
{
    let w1 = spawned_wrecks(wrecks, id, site_id, x_bits, y_bits, z_bits);
    if has_wreck(wrecks, id) {
        lemma_wreck_count_unique(wrecks, id);
    } else {
        assert(w1[w1.len() - 1].id == id);
        assert(has_wreck(w1, id));
        lemma_wreck_count_absent(wrecks, id);
        assert(w1.drop_last() =~= wrecks);
        assert(w1.last().id == id);
    }
}

/// Unique `(owner, item_type, volume_m3)` stack keys, as the store's
/// well-formedness demands of the inventory relation.
pub open spec fn stacks_unique(s: Seq<PlayerItem>) -> bool {
    forall|i: int, j: int|
        0 <= i < j < s.len() ==> !(s[i].owner == s[j].owner && s[i].item_type == s[j].item_type
            && s[i].volume_m3 == s[j].volume_m3)
}

/// How many stacks sit in the slot keyed by `(owner, item_type, volume_m3)`.
pub open spec fn stack_count(s: Seq<PlayerItem>, owner: Identity, item_type: u16, volume_m3: u32) -> int
    decreases s.len(),
{
    if s.len() == 0 {
        0
    } else {
        stack_count(s.drop_last(), owner, item_type, volume_m3) + if is_stack(
            s.last(),
            owner,
            item_type,
            volume_m3,
        ) {
            1int
        } else {
            0int
        }
    }
}

/// An empty slot has count zero.
pub proof fn lemma_stack_count_absent(s: Seq<PlayerItem>, owner: Identity, item_type: u16, volume_m3: u32)
    requires
        !has_stack(s, owner, item_type, volume_m3),
    ensures
        stack_count(s, owner, item_type, volume_m3) == 0,
    decreases s.len(),
{
    if s.len() > 0 {
        assert(!has_stack(s.drop_last(), owner, item_type, volume_m3)) by {
            if has_stack(s.drop_last(), owner, item_type, volume_m3) {
                let i = choose|i: int|
                    0 <= i < s.drop_last().len() && is_stack(s.drop_last()[i], owner, item_type,
                    volume_m3);
                assert(is_stack(s[i], owner, item_type, volume_m3));
            }
        }
        lemma_stack_count_absent(s.drop_last(), owner, item_type, volume_m3);
    }
}

/// Under unique stack keys, an occupied slot has count exactly one.
pub proof fn lemma_stack_count_unique(s: Seq<PlayerItem>, owner: Identity, item_type: u16, volume_m3: u32)
    requires
        stacks_unique(s),
        has_stack(s, owner, item_type, volume_m3),
    ensures
        stack_count(s, owner, item_type, volume_m3) == 1,
    decreases s.len(),
{
    let i = choose|i: int| 0 <= i < s.len() && is_stack(s[i], owner, item_type, volume_m3);
    if is_stack(s.last(), owner, item_type, volume_m3) {
        assert(!has_stack(s.drop_last(), owner, item_type, volume_m3)) by {
            if has_stack(s.drop_last(), owner, item_type, volume_m3) {
                let j = choose|j: int|
                    0 <= j < s.drop_last().len() && is_stack(s.drop_last()[j], owner, item_type,
                    volume_m3);
                assert(is_stack(s[j], owner, item_type, volume_m3));
                assert(!(s[j].owner == s[s.len() - 1].owner && s[j].item_type == s[s.len()
                    - 1].item_type && s[j].volume_m3 == s[s.len() - 1].volume_m3));
            }
        }
        lemma_stack_count_absent(s.drop_last(), owner, item_type, volume_m3);
    } else {
        assert(i < s.len() - 1);
        assert(is_stack(s.drop_last()[i], owner, item_type, volume_m3));
        lemma_stack_count_unique(s.drop_last(), owner, item_type, volume_m3);
    }
}

/// Merging the same `(item_type, volume_m3)` twice into the same
/// owner's inventory — as two loots of that item do — yields a single
/// stack whose quantity is the sum of both merged amounts (and of
/// whatever the slot held before), saturating at `u32::MAX`; never two
/// stacks.
pub proof fn lemma_merge_twice_single_stack(
    s: Seq<PlayerItem>,
    owner: Identity,
    item_type: u16,
    volume_m3: u32,
    q1: u32,
    q2: u32,
    n1: u64,
    n2: u64,
)
    requires
        stacks_unique(s),
        q1 > 0,
        q2 > 0,
    ensures
        ({
            let s1 = merged_stacks(s, owner, item_type, volume_m3, q1, n1);
            let s2 = merged_stacks(s1, owner, item_type, volume_m3, q2, n2);
            let q0: int = if has_stack(s, owner, item_type, volume_m3) {
                s[stack_index(s, owner, item_type, volume_m3)].quantity as int
            } else {
                0
            };
            &&& stacks_unique(s2)
            &&& stack_count(s2, owner, item_type, volume_m3) == 1
            &&& s2[stack_index(s2, owner, item_type, volume_m3)].quantity as int == clamp_u32(
                q0 + q1 + q2,
            )
        }),
{
    let s1 = merged_stacks(s, owner, item_type, volume_m3, q1, n1);
    if has_stack(s, owner, item_type, volume_m3) {
        let i = stack_index(s, owner, item_type, volume_m3);
        assert(0 <= i < s.len() && is_stack(s[i], owner, item_type, volume_m3));
        lemma_merge_step(s, s1, owner, item_type, volume_m3, q1, n1, i);
        assert(is_stack(s1[i], owner, item_type, volume_m3));
        lemma_stack_index_is(s1, i, owner, item_type, volume_m3);
        let s2 = merged_stacks(s1, owner, item_type, volume_m3, q2, n2);
        lemma_merge_step(s1, s2, owner, item_type, volume_m3, q2, n2, i);
        assert(is_stack(s2[i], owner, item_type, volume_m3));
        lemma_stack_index_is(s2, i, owner, item_type, volume_m3);
        lemma_stack_count_unique(s2, owner, item_type, volume_m3);
    } else {
        let x = PlayerItem { id: n1, owner, item_type, quantity: q1, volume_m3 };
        assert(s1 == s.push(x));
        assert(s1[s.len() as int] == x);
        assert forall|a: int, b: int|
            0 <= a < b < s1.len() implies !(s1[a].owner == s1[b].owner && s1[a].item_type
            == s1[b].item_type && s1[a].volume_m3 == s1[b].volume_m3) by {
            if b < s.len() {
                assert(s1[a] == s[a] && s1[b] == s[b]);
            } else {
                assert(s1[a] == s[a] && s1[b] == x);
                if is_stack(s[a], owner, item_type, volume_m3) {
                    assert(has_stack(s, owner, item_type, volume_m3));
                }
            }
        }
        let i = s.len() as int;
        assert(is_stack(s1[i], owner, item_type, volume_m3));
        assert(has_stack(s1, owner, item_type, volume_m3));
        let s2 = merged_stacks(s1, owner, item_type, volume_m3, q2, n2);
        lemma_merge_step(s1, s2, owner, item_type, volume_m3, q2, n2, i);
        assert(is_stack(s2[i], owner, item_type, volume_m3));
        lemma_stack_index_is(s2, i, owner, item_type, volume_m3);
        lemma_stack_count_unique(s2, owner, item_type, volume_m3);
    }
}

/// Under unique stack keys, an index holding the key is the one the
/// slot lookup chooses.
proof fn lemma_stack_index_is(
    s: Seq<PlayerItem>,
    i: int,
    owner: Identity,
    item_type: u16,
    volume_m3: u32,
)
    requires
        stacks_unique(s),
        0 <= i < s.len(),
        is_stack(s[i], owner, item_type, volume_m3),
    ensures
        has_stack(s, owner, item_type, volume_m3),
        stack_index(s, owner, item_type, volume_m3) == i,
{
    assert(has_stack(s, owner, item_type, volume_m3));
    let k = stack_index(s, owner, item_type, volume_m3);
    assert(0 <= k < s.len() && is_stack(s[k], owner, item_type, volume_m3));
    if k < i {
        assert(!(s[k].owner == s[i].owner && s[k].item_type == s[i].item_type && s[k].volume_m3
            == s[i].volume_m3));
    } else if i < k {
        assert(!(s[i].owner == s[k].owner && s[i].item_type == s[k].item_type && s[i].volume_m3
            == s[k].volume_m3));
    }
}

/// One merge into an occupied slot at index `i`: the result is the
/// update at `i` with the saturating sum, keys untouched.
proof fn lemma_merge_step(
    s: Seq<PlayerItem>,
    s2: Seq<PlayerItem>,
    owner: Identity,
    item_type: u16,
    volume_m3: u32,
    q: u32,
    n: u64,
    i: int,
)
    requires
        stacks_unique(s),
        0 <= i < s.len(),
        is_stack(s[i], owner, item_type, volume_m3),
        s2 == merged_stacks(s, owner, item_type, volume_m3, q, n),
    ensures
        s2.len() == s.len(),
        forall|j: int| 0 <= j < s.len() && j != i ==> s2[j] == s[j],
        is_stack(s2[i], owner, item_type, volume_m3),
        s2[i].quantity as int == clamp_u32(s[i].quantity as int + q as int),
        stacks_unique(s2),
{
    lemma_stack_index_is(s, i, owner, item_type, volume_m3);
    assert forall|a: int, b: int|
        0 <= a < b < s2.len() implies !(s2[a].owner == s2[b].owner && s2[a].item_type
        == s2[b].item_type && s2[a].volume_m3 == s2[b].volume_m3) by {
        assert(s2[a].owner == s[a].owner && s2[a].item_type == s[a].item_type && s2[a].volume_m3
            == s[a].volume_m3);
        assert(s2[b].owner == s[b].owner && s2[b].item_type == s[b].item_type && s2[b].volume_m3
            == s[b].volume_m3);
    }
}

/// A zero-volume item is counted as one cubic metre per unit when
/// computing how many units fit, so a zero volume never divides by
/// zero: the take is the whole stack when it fits, else exactly the
/// free volume.
pub proof fn lemma_zero_volume_take(free: int, it: WreckItem)
    requires
        it.volume_m3 == 0,
        free >= 0,
    ensures
        per_unit_volume(it.volume_m3) == 1,
        take_amount(free, it) == (if free >= it.quantity as int {
            it.quantity as int
        } else {
            free
        }),
{
    vstd::arithmetic::div_mod::lemma_fundamental_div_mod(free, 1);
    vstd::arithmetic::div_mod::lemma_mod_bound(free, 1);
    assert(free / 1int == free);
}

} // verus!
