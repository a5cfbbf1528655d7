//! Collaborator state at the same store: user display names, presence
//! flags, and client-authoritative ship position/velocity records.
//!
//! Ship coordinates are raw IEEE 754 bit patterns (`u64`): the store
//! validates finiteness on the bit pattern and otherwise never
//! interprets them as numbers, so callers convert at the boundary.

use vstd::prelude::*;
use vstd::pervasive::VecAdditionalExecFns;
use vstd::string::StrSliceExecFns;
use vstd::string::StringExecFns;

use crate::Error;
use crate::Identity;

verus! {

/// Bit pattern of the x coordinate ships spawn at (the binary64
/// encoding of 0.01, just off the origin); the other five components
/// spawn as 0, the encoding of 0.0.
pub const SHIP_SPAWN_POS_X_BITS: u64 = 0x3F847AE147AE147B;

/// Longest display name accepted, in characters, after trimming.
pub const MAX_NAME_CHARS: usize = 32;

/// A connected (or previously connected) user: identity, optional
/// display name, and presence flag.
#[derive(PartialEq, Eq, Debug)]
pub struct User {
    pub identity: Identity,
    pub name: Option<String>,
    pub online: bool,
}

/// A ship record: world-space position and velocity as IEEE 754 bit
/// patterns, plus the server-assigned time of the last update.
#[derive(Clone, Copy, PartialEq, Eq, Structural, Debug)]
pub struct Ship {
    pub owner: Identity,
    pub px_bits: u64,
    pub py_bits: u64,
    pub pz_bits: u64,
    pub vx_bits: u64,
    pub vy_bits: u64,
    pub vz_bits: u64,
    pub updated_at: u64,
}

/// An IEEE 754 binary64 value is finite exactly when its exponent
/// field is not all ones (all ones encodes an infinity or a NaN).
pub open spec fn is_finite_bits(b: u64) -> bool {
    (b >> 52) & 0x7ff != 0x7ff
}

/// Finiteness of the number a bit pattern encodes.
pub fn finite(b: u64) -> (r: bool)
    ensures
        r == is_finite_bits(b),
{
    (b >> 52) & 0x7ff != 0x7ff
}

/// The characters with the Unicode `White_Space` property: what
/// trimming a display name removes at either end.
pub open spec fn is_space(c: char) -> bool {
    let u = c as u32;
    ||| (0x9 <= u && u <= 0xD)
    ||| u == 0x20
    ||| u == 0x85
    ||| u == 0xA0
    ||| u == 0x1680
    ||| (0x2000 <= u && u <= 0x200A)
    ||| u == 0x2028
    ||| u == 0x2029
    ||| u == 0x202F
    ||| u == 0x205F
    ||| u == 0x3000
}

fn is_space_char(c: char) -> (r: bool)
    ensures
        r == is_space(c),
{
    let u = c as u32;
    (0x9 <= u && u <= 0xD) || u == 0x20 || u == 0x85 || u == 0xA0 || u == 0x1680 || (0x2000 <= u && u
        <= 0x200A) || u == 0x2028 || u == 0x2029 || u == 0x202F || u == 0x205F || u == 0x3000
}

/// `s` with leading and trailing whitespace removed.
pub open spec fn trim_spec(s: Seq<char>) -> Seq<char>
    decreases s.len(),
{
    if s.len() == 0 {
        s
    } else if is_space(s[0]) {
        trim_spec(s.drop_first())
    } else if is_space(s.last()) {
        trim_spec(s.drop_last())
    } else {
        s
    }
}

/// Remove leading and trailing whitespace from a string.
pub fn trimmed(s: &str) -> (r: String)
    ensures
        r@ == trim_spec(s@),
{
    let len = s.unicode_len();
    let mut lo: usize = 0;
    let mut hi: usize = len;
    proof {
        assert(s@.subrange(0, s@.len() as int) =~= s@);
    }
    while lo < hi && is_space_char(s.get_char(lo))
        invariant
            lo <= hi <= s@.len(),
            trim_spec(s@) == trim_spec(s@.subrange(lo as int, hi as int)),
        decreases hi - lo,
    {
        proof {
            let sub = s@.subrange(lo as int, hi as int);
            assert(sub[0] == s@[lo as int]);
            assert(sub.drop_first() =~= s@.subrange(lo as int + 1, hi as int));
        }
        lo += 1;
    }
    while lo < hi && is_space_char(s.get_char(hi - 1))
        invariant
            lo <= hi <= s@.len(),
            trim_spec(s@) == trim_spec(s@.subrange(lo as int, hi as int)),
            lo < hi ==> !is_space(s@[lo as int]),
        decreases hi - lo,
    {
        proof {
            let sub = s@.subrange(lo as int, hi as int);
            assert(sub[0] == s@[lo as int]);
            assert(sub.last() == s@[hi as int - 1]);
            assert(sub.drop_last() =~= s@.subrange(lo as int, hi as int - 1));
        }
        hi -= 1;
    }
    if lo == hi {
        proof {
            reveal_strlit("");
            assert(s@.subrange(lo as int, hi as int) =~= ""@);
        }
        String::from_str("")
    } else {
        proof {
            let sub = s@.subrange(lo as int, hi as int);
            assert(sub[0] == s@[lo as int]);
            assert(sub.last() == s@[hi as int - 1]);
            assert(trim_spec(sub) == sub);
        }
        String::from_str(s.substring_char(lo, hi))
    }
}

/// Trim a proposed display name and validate its length: between 1 and
/// 32 characters after trimming, else the input is invalid.
pub fn validate_name(name: String) -> (r: Result<String, Error>)
    ensures
        ({
            let t = trim_spec(name@);
            if 1 <= t.len() <= MAX_NAME_CHARS {
                r matches Ok(s) && s@ == t
            } else {
                r == Err::<String, Error>(Error::InvalidInput)
            }
        }),
{
    let t = trimmed(name.as_str());
    let n = t.as_str().unicode_len();
    if n == 0 || n > MAX_NAME_CHARS {
        Err(Error::InvalidInput)
    } else {
        Ok(t)
    }
}

pub open spec fn has_user(s: Seq<User>, who: Identity) -> bool {
    exists|i: int| 0 <= i < s.len() && s[i].identity == who
}

pub open spec fn user_index(s: Seq<User>, who: Identity) -> int {
    choose|i: int| 0 <= i < s.len() && s[i].identity == who
}

pub open spec fn has_ship(s: Seq<Ship>, who: Identity) -> bool {
    exists|i: int| 0 <= i < s.len() && s[i].owner == who
}

pub open spec fn ship_index(s: Seq<Ship>, who: Identity) -> int {
    choose|i: int| 0 <= i < s.len() && s[i].owner == who
}

/// User identities are unique.
pub open spec fn users_wf(s: Seq<User>) -> bool {
    forall|i: int, j: int| 0 <= i < j < s.len() ==> s[i].identity != s[j].identity
}

/// Ship owners are unique.
pub open spec fn ships_wf(s: Seq<Ship>) -> bool {
    forall|i: int, j: int| 0 <= i < j < s.len() ==> s[i].owner != s[j].owner
}

/// The collaborator's record store: user and ship relations.
pub struct SessionState {
    pub users: Vec<User>,
    pub ships: Vec<Ship>,
}

impl SessionState {
    pub open spec fn wf(self) -> bool {
        users_wf(self.users@) && ships_wf(self.ships@)
    }

    /// A fresh, empty store.
    pub fn new() -> (s: SessionState)
        ensures
            s.wf(),
            s.users@ =~= Seq::<User>::empty(),
            s.ships@ =~= Seq::<Ship>::empty(),
    {
        SessionState { users: Vec::new(), ships: Vec::new() }
    }

    /// Index of the user row for `who`, if any.
    fn find_user(&self, who: Identity) -> (r: Option<usize>)
        ensures
            match r {
                Some(i) => i < self.users@.len() && self.users@[i as int].identity == who,
                None => !has_user(self.users@, who),
            },
    {
        let mut i: usize = 0;
        while i < self.users.len()
            invariant
                i <= self.users@.len(),
                forall|j: int| 0 <= j < i ==> (#[trigger] self.users@[j]).identity != who,
            decreases self.users@.len() - i,
        {
            if self.users[i].identity == who {
                return Some(i);
            }
            i += 1;
        }
        None
    }

    /// Index of the ship row owned by `who`, if any.
    fn find_ship(&self, who: Identity) -> (r: Option<usize>)
        ensures
            match r {
                Some(i) => i < self.ships@.len() && self.ships@[i as int].owner == who,
                None => !has_ship(self.ships@, who),
            },
    {
        let mut i: usize = 0;
        while i < self.ships.len()
            invariant
                i <= self.ships@.len(),
                forall|j: int| 0 <= j < i ==> (#[trigger] self.ships@[j]).owner != who,
            decreases self.ships@.len() - i,
        {
            if self.ships[i].owner == who {
                return Some(i);
            }
            i += 1;
        }
        None
    }

    /// Set the display name of `who` to the trimmed input. Fails with
    /// `InvalidInput` when the trimmed name is empty or longer than 32
    /// characters, and with `NotFound` when no user record exists; on
    /// any failure the state is unchanged.
    pub fn set_name(&mut self, who: Identity, name: String) -> (r: Result<(), Error>)
        requires
            old(self).wf(),
        ensures
            final(self).wf(),
            final(self).ships@ == old(self).ships@,
            ({
                let t = trim_spec(name@);
                if !(1 <= t.len() <= MAX_NAME_CHARS) {
                    r == Err::<(), Error>(Error::InvalidInput) && *final(self) == *old(self)
                } else if !has_user(old(self).users@, who) {
                    r == Err::<(), Error>(Error::NotFound) && *final(self) == *old(self)
                } else {
                    let ui = user_index(old(self).users@, who);
                    &&& r == Ok::<(), Error>(())
                    &&& final(self).users@.len() == old(self).users@.len()
                    &&& forall|j: int|
                        0 <= j < old(self).users@.len() && j != ui ==> final(self).users@[j] == old(
                            self,
                        ).users@[j]
                    &&& final(self).users@[ui].identity == who
                    &&& final(self).users@[ui].online == old(self).users@[ui].online
                    &&& final(self).users@[ui].name matches Some(n) && n@ == t
                }
            }),
    {
        let t = match validate_name(name) {
            Ok(t) => t,
            Err(e) => {
                return Err(e);
            },
        };
        let i = match self.find_user(who) {
            Some(i) => i,
            None => {
                return Err(Error::NotFound);
            },
        };
        let online = self.users[i].online;
        self.users.set(i, User { identity: who, name: Some(t), online });
        proof {
            let olds = old(self).users@;
            let ui = user_index(olds, who);
            assert(0 <= ui < olds.len() && olds[ui].identity == who);
            assert(ui == i as int) by {
                if ui < i as int {
                    assert(olds[ui].identity != olds[i as int].identity);
                } else if (i as int) < ui {
                    assert(olds[i as int].identity != olds[ui].identity);
                }
            }
            assert forall|a: int, b: int|
                0 <= a < b < self.users@.len() implies self.users@[a].identity
                != self.users@[b].identity by {
                assert(self.users@[a].identity == olds[a].identity);
                assert(self.users@[b].identity == olds[b].identity);
            }
        }
        Ok(())
    }

    /// Record a client-authoritative ship state update. Fails with
    /// `InvalidInput` when any component's bit pattern encodes a
    /// non-finite number, and with `NotFound` when `who` has no ship;
    /// on any failure the prior ship state is unchanged. On success
    /// the row carries the server-assigned update time `now`.
    pub fn set_ship_state(
        &mut self,
        who: Identity,
        px_bits: u64,
        py_bits: u64,
        pz_bits: u64,
        vx_bits: u64,
        vy_bits: u64,
        vz_bits: u64,
        now: u64,
    ) -> (r: Result<(), Error>)
        requires
            old(self).wf(),
        ensures
            final(self).wf(),
            final(self).users@ == old(self).users@,
            (if !(is_finite_bits(px_bits) && is_finite_bits(py_bits) && is_finite_bits(pz_bits)
                && is_finite_bits(vx_bits) && is_finite_bits(vy_bits) && is_finite_bits(vz_bits)) {
                r == Err::<(), Error>(Error::InvalidInput) && *final(self) == *old(self)
            } else if !has_ship(old(self).ships@, who) {
                r == Err::<(), Error>(Error::NotFound) && *final(self) == *old(self)
            } else {
                let si = ship_index(old(self).ships@, who);
                &&& r == Ok::<(), Error>(())
                &&& final(self).ships@ == old(self).ships@.update(
                    si,
                    (Ship {
                        owner: who,
                        px_bits,
                        py_bits,
                        pz_bits,
                        vx_bits,
                        vy_bits,
                        vz_bits,
                        updated_at: now,
                    }),
                )
            }),
    {
        if !(finite(px_bits) && finite(py_bits) && finite(pz_bits) && finite(vx_bits) && finite(
            vy_bits,
        ) && finite(vz_bits)) {
            return Err(Error::InvalidInput);
        }
        let i = match self.find_ship(who) {
            Some(i) => i,
            None => {
                return Err(Error::NotFound);
            },
        };
        self.ships.set(
            i,
            Ship { owner: who, px_bits, py_bits, pz_bits, vx_bits, vy_bits, vz_bits, updated_at: now },
        );
        proof {
            self.lemma_ship_update(*old(self), who, i as int);
        }
        Ok(())
    }

    /// Warp the ship of `who` to a position: the position updates, the
    /// velocity is zeroed (bit pattern 0 encodes 0.0). Validation and
    /// errors as for a ship state update.
    pub fn warp_to(&mut self, who: Identity, px_bits: u64, py_bits: u64, pz_bits: u64, now: u64) -> (r:
        Result<(), Error>)
        requires
            old(self).wf(),
        ensures
            final(self).wf(),
            final(self).users@ == old(self).users@,
            (if !(is_finite_bits(px_bits) && is_finite_bits(py_bits) && is_finite_bits(pz_bits)) {
                r == Err::<(), Error>(Error::InvalidInput) && *final(self) == *old(self)
            } else if !has_ship(old(self).ships@, who) {
                r == Err::<(), Error>(Error::NotFound) && *final(self) == *old(self)
            } else {
                let si = ship_index(old(self).ships@, who);
                &&& r == Ok::<(), Error>(())
                &&& final(self).ships@ == old(self).ships@.update(
                    si,
                    (Ship {
                        owner: who,
                        px_bits,
                        py_bits,
                        pz_bits,
                        vx_bits: 0,
                        vy_bits: 0,
                        vz_bits: 0,
                        updated_at: now,
                    }),
                )
            }),
    {
        if !(finite(px_bits) && finite(py_bits) && finite(pz_bits)) {
            return Err(Error::InvalidInput);
        }
        let i = match self.find_ship(who) {
            Some(i) => i,
            None => {
                return Err(Error::NotFound);
            },
        };
        self.ships.set(
            i,
            Ship {
                owner: who,
                px_bits,
                py_bits,
                pz_bits,
                vx_bits: 0,
                vy_bits: 0,
                vz_bits: 0,
                updated_at: now,
            },
        );
        proof {
            self.lemma_ship_update(*old(self), who, i as int);
        }
        Ok(())
    }

    /// Replacing the row at `i` with a row owned by `who == old[i].owner`
    /// keeps ship owners unique and pins the chosen index.
    proof fn lemma_ship_update(self, pre: SessionState, who: Identity, i: int)
        requires
            pre.wf(),
            0 <= i < pre.ships@.len(),
            pre.ships@[i].owner == who,
            self.ships@.len() == pre.ships@.len(),
            self.ships@[i].owner == who,
            forall|j: int| 0 <= j < pre.ships@.len() && j != i ==> self.ships@[j] == pre.ships@[j],
        ensures
            ships_wf(self.ships@),
            ship_index(pre.ships@, who) == i,
    {
        assert(has_ship(pre.ships@, who));
        let si = ship_index(pre.ships@, who);
        assert(0 <= si < pre.ships@.len() && pre.ships@[si].owner == who);
        assert(si == i) by {
            if si < i {
                assert(pre.ships@[si].owner != pre.ships@[i].owner);
            } else if i < si {
                assert(pre.ships@[i].owner != pre.ships@[si].owner);
            }
        }
        assert forall|a: int, b: int|
            0 <= a < b < self.ships@.len() implies self.ships@[a].owner != self.ships@[b].owner by {
            assert(self.ships@[a].owner == pre.ships@[a].owner);
            assert(self.ships@[b].owner == pre.ships@[b].owner);
        }
    }

    /// Presence hook for a connecting client: mark the user online,
    /// creating the user row if absent (name empty, to be set later),
    /// and provision a default ship near the origin if absent. The
    /// user's stored name survives reconnects.
    pub fn client_connected(&mut self, who: Identity, now: u64)
        requires
            old(self).wf(),
        ensures
            final(self).wf(),
            (if has_user(old(self).users@, who) {
                let ui = user_index(old(self).users@, who);
                &&& final(self).users@.len() == old(self).users@.len()
                &&& forall|j: int|
                    0 <= j < old(self).users@.len() && j != ui ==> final(self).users@[j] == old(
                        self,
                    ).users@[j]
                &&& final(self).users@[ui].identity == who
                &&& final(self).users@[ui].online == true
                &&& final(self).users@[ui].name == old(self).users@[ui].name
            } else {
                final(self).users@ == old(self).users@.push(
                    (User { identity: who, name: None, online: true }),
                )
            }),
            (if has_ship(old(self).ships@, who) {
                final(self).ships@ == old(self).ships@
            } else {
                final(self).ships@ == old(self).ships@.push(
                    (Ship {
                        owner: who,
                        px_bits: SHIP_SPAWN_POS_X_BITS,
                        py_bits: 0,
                        pz_bits: 0,
                        vx_bits: 0,
                        vy_bits: 0,
                        vz_bits: 0,
                        updated_at: now,
                    }),
                )
            }),
            has_user(final(self).users@, who),
            has_ship(final(self).ships@, who),
    {
        match self.find_user(who) {
            Some(i) => {
                let u = self.users.remove(i);
                self.users.insert(i, User { identity: who, name: u.name, online: true });
                proof {
                    let olds = old(self).users@;
                    let ui = user_index(olds, who);
                    assert(0 <= ui < olds.len() && olds[ui].identity == who);
                    assert(ui == i as int) by {
                        if ui < i as int {
                            assert(olds[ui].identity != olds[i as int].identity);
                        } else if (i as int) < ui {
                            assert(olds[i as int].identity != olds[ui].identity);
                        }
                    }
                    assert(self.users@ =~= olds.update(
                        i as int,
                        (User { identity: who, name: olds[i as int].name, online: true }),
                    ));
                    assert forall|a: int, b: int|
                        0 <= a < b < self.users@.len() implies self.users@[a].identity
                        != self.users@[b].identity by {
                        assert(self.users@[a].identity == olds[a].identity);
                        assert(self.users@[b].identity == olds[b].identity);
                    }
                }
            },
            None => {
                self.users.push(User { identity: who, name: None, online: true });
                proof {
                    let olds = old(self).users@;
                    let news = self.users@;
                    assert(news[news.len() - 1].identity == who);
                    assert forall|a: int, b: int|
                        0 <= a < b < news.len() implies news[a].identity != news[b].identity by {
                        if b < olds.len() {
                            assert(news[a] == olds[a] && news[b] == olds[b]);
                        } else {
                            assert(news[b].identity == who);
                            assert(news[a] == olds[a]);
                            if olds[a].identity == who {
                                assert(has_user(olds, who));
                            }
                        }
                    }
                }
            },
        }
        match self.find_ship(who) {
            Some(_) => {},
            None => {
                self.ships.push(
                    Ship {
                        owner: who,
                        px_bits: SHIP_SPAWN_POS_X_BITS,
                        py_bits: 0,
                        pz_bits: 0,
                        vx_bits: 0,
                        vy_bits: 0,
                        vz_bits: 0,
                        updated_at: now,
                    },
                );
                proof {
                    let olds = old(self).ships@;
                    let news = self.ships@;
                    assert(news[news.len() - 1].owner == who);
                    assert forall|a: int, b: int|
                        0 <= a < b < news.len() implies news[a].owner != news[b].owner by {
                        if b < olds.len() {
                            assert(news[a] == olds[a] && news[b] == olds[b]);
                        } else {
                            assert(news[b].owner == who);
                            assert(news[a] == olds[a]);
                            if olds[a].owner == who {
                                assert(has_ship(olds, who));
                            }
                        }
                    }
                }
            },
        }
    }

    /// Presence hook for a disconnecting client: mark the user
    /// offline; a no-op for an unknown identity.
    pub fn client_disconnected(&mut self, who: Identity)
        requires
            old(self).wf(),
        ensures
            final(self).wf(),
            final(self).ships@ == old(self).ships@,
            (if has_user(old(self).users@, who) {
                let ui = user_index(old(self).users@, who);
                &&& final(self).users@.len() == old(self).users@.len()
                &&& forall|j: int|
                    0 <= j < old(self).users@.len() && j != ui ==> final(self).users@[j] == old(
                        self,
                    ).users@[j]
                &&& final(self).users@[ui].identity == who
                &&& final(self).users@[ui].online == false
                &&& final(self).users@[ui].name == old(self).users@[ui].name
            } else {
                *final(self) == *old(self)
            }),
    {
        match self.find_user(who) {
            Some(i) => {
                let u = self.users.remove(i);
                self.users.insert(i, User { identity: who, name: u.name, online: false });
                proof {
                    let olds = old(self).users@;
                    let ui = user_index(olds, who);
                    assert(0 <= ui < olds.len() && olds[ui].identity == who);
                    assert(ui == i as int) by {
                        if ui < i as int {
                            assert(olds[ui].identity != olds[i as int].identity);
                        } else if (i as int) < ui {
                            assert(olds[i as int].identity != olds[ui].identity);
                        }
                    }
                    assert(self.users@ =~= olds.update(
                        i as int,
                        (User { identity: who, name: olds[i as int].name, online: false }),
                    ));
                    assert forall|a: int, b: int|
                        0 <= a < b < self.users@.len() implies self.users@[a].identity
                        != self.users@[b].identity by {
                        assert(self.users@[a].identity == olds[a].identity);
                        assert(self.users@[b].identity == olds[b].identity);
                    }
                }
            },
            None => {},
        }
    }
}

} // verus!
