use vstd::prelude::*;

use crate::conditions::bytes_eq;
use crate::error::WalletError;

verus! {

/// A mint's set of signing keys for one unit, with the wallet's next derivation index.
#[derive(Debug)]
pub struct Keyset {
    pub id: Vec<u8>,
    pub unit: Vec<u8>,
    pub active: bool,
    /// The next unused derivation index.
    pub counter: u64,
}

/// What a mint publishes about one of its keysets.
#[derive(Clone, Debug, PartialEq, Eq)]
pub struct KeysetInfo {
    pub id: Vec<u8>,
    pub unit: Vec<u8>,
    pub active: bool,
}

/// The keysets a wallet knows for one mint.
#[derive(Debug)]
pub struct KeysetRegistry {
    pub keysets: Vec<Keyset>,
}

pub open spec fn ids_of(ks: Seq<Keyset>) -> Seq<Seq<u8>> {
    ks.map_values(|k: Keyset| k.id@)
}

/// No entry after `j` publishes the same id: entry `j` has the last word on it.
pub open spec fn last_mention(published: Seq<KeysetInfo>, j: int) -> bool {
    forall|k: int| j < k < published.len() ==> #[trigger] published[k].id@ != published[j].id@
}

/// `new` keeps every keyset of `old` at its place, under its id, with a counter no lower.
pub open spec fn counters_kept(old: Seq<Keyset>, new: Seq<Keyset>) -> bool {
    &&& old.len() <= new.len()
    &&& forall|i: int|
        0 <= i < old.len() ==> #[trigger] new[i].id@ == old[i].id@ && new[i].unit@ == old[i].unit@
            && new[i].counter >= old[i].counter
}

impl KeysetRegistry {
    /// Ids are unique.
    pub open spec fn wf(&self) -> bool {
        ids_of(self.keysets@).no_duplicates()
    }

    pub fn new() -> (r: KeysetRegistry)
        ensures
            r.wf(),
            r.keysets@.len() == 0,
    {
        KeysetRegistry { keysets: Vec::new() }
    }

    /// The position of the keyset with id `id`.
    pub fn find(&self, id: &[u8]) -> (r: Option<usize>)
        ensures
            r matches Some(i) ==> i < self.keysets@.len() && self.keysets@[i as int].id@ == id@,
            r is None ==> !ids_of(self.keysets@).contains(id@),
    {
        let mut i: usize = 0;
        while i < self.keysets.len()
            invariant
                i <= self.keysets@.len(),
                forall|j: int| 0 <= j < i ==> self.keysets@[j].id@ != id@,
            decreases self.keysets@.len() - i,
        {
            if bytes_eq(self.keysets[i].id.as_slice(), id) {
                return Some(i);
            }
            i = i + 1;
        }
        proof {
            assert forall|j: int| 0 <= j < self.keysets@.len() implies ids_of(self.keysets@)[j]
                != id@ by {}
        }
        None
    }

    /// The position of an active keyset for `unit`, if the mint has one.
    pub fn active_keyset(&self, unit: &[u8]) -> (r: Option<usize>)
        ensures
            r matches Some(i) ==> i < self.keysets@.len() && self.keysets@[i as int].active
                && self.keysets@[i as int].unit@ == unit@,
            r is None ==> forall|j: int|
                0 <= j < self.keysets@.len() ==> !(self.keysets@[j].active
                    && self.keysets@[j].unit@ == unit@),
    {
        let mut i: usize = 0;
        while i < self.keysets.len()
            invariant
                i <= self.keysets@.len(),
                forall|j: int|
                    0 <= j < i ==> !(self.keysets@[j].active && self.keysets@[j].unit@ == unit@),
            decreases self.keysets@.len() - i,
        {
            if self.keysets[i].active && bytes_eq(self.keysets[i].unit.as_slice(), unit) {
                return Some(i);
            }
            i = i + 1;
        }
        None
    }

    /// Hands out the next derivation index of keyset `id` and advances its counter, so that no
    /// index is handed out twice.
    pub fn derive_next(&mut self, id: &[u8]) -> (r: Result<u64, WalletError>)
        requires
            old(self).wf(),
        ensures
            final(self).wf(),
            counters_kept(old(self).keysets@, final(self).keysets@),
            !ids_of(old(self).keysets@).contains(id@) ==> r == Err::<u64, WalletError>(
                WalletError::UnknownKeyset,
            ) && final(self).keysets@ == old(self).keysets@,
            r is Err ==> final(self).keysets@ == old(self).keysets@,
            r matches Ok(n) ==> exists|i: int|
                0 <= i < old(self).keysets@.len() && old(self).keysets@[i].id@ == id@
                    && #[trigger] old(self).keysets@[i].counter == n && final(self).keysets@[i].counter
                    == n + 1 && final(self).keysets@ =~= old(self).keysets@.update(
                    i,
                    final(self).keysets@[i],
                ),
            ids_of(old(self).keysets@).contains(id@) ==> (r is Ok <==> exists|i: int|
                0 <= i < old(self).keysets@.len() && old(self).keysets@[i].id@ == id@
                    && #[trigger] old(self).keysets@[i].counter < u64::MAX),
            r is Err && ids_of(old(self).keysets@).contains(id@) ==> r == Err::<u64, WalletError>(
                WalletError::InvalidAmount,
            ),
    {
        match self.find(id) {
            None => Err(WalletError::UnknownKeyset),
            Some(i) => {
                proof {
                    lemma_unique_position(self.keysets@, i as int, id@);
                    assert(ids_of(self.keysets@)[i as int] == id@);
                }
                let n = self.keysets[i].counter;
                if n == u64::MAX {
                    return Err(WalletError::InvalidAmount);
                }
                self.set_counter(i, n + 1);
                Ok(n)
            },
        }
    }

    /// Raises the counter of keyset `id` to at least `to`, as a restore found used indices.
    pub fn advance_counter(&mut self, id: &[u8], to: u64) -> (r: Result<(), WalletError>)
        requires
            old(self).wf(),
        ensures
            final(self).wf(),
            counters_kept(old(self).keysets@, final(self).keysets@),
            r is Err <==> !ids_of(old(self).keysets@).contains(id@),
            r is Err ==> r == Err::<(), WalletError>(WalletError::UnknownKeyset)
                && final(self).keysets@ == old(self).keysets@,
            r is Ok ==> exists|i: int|
                0 <= i < old(self).keysets@.len() && #[trigger] old(self).keysets@[i].id@ == id@
                    && final(self).keysets@[i].counter == if old(self).keysets@[i].counter >= to {
                    old(self).keysets@[i].counter
                } else {
                    to
                } && final(self).keysets@ =~= old(self).keysets@.update(
                    i,
                    final(self).keysets@[i],
                ),
    {
        match self.find(id) {
            None => Err(WalletError::UnknownKeyset),
            Some(i) => {
                assert(ids_of(self.keysets@)[i as int] == id@);
                let n = self.keysets[i].counter;
                if n < to {
                    self.set_counter(i, to);
                } else {
                    assert(self.keysets@ =~= self.keysets@.update(i as int, self.keysets@[i as int]));
                }
                Ok(())
            },
        }
    }

    /// Takes in the keysets a mint publishes: known ones get the published active flag, new ones
    /// start at counter zero. No counter moves back.
    pub fn record_keys(&mut self, published: &Vec<KeysetInfo>)
        requires
            old(self).wf(),
        ensures
            final(self).wf(),
            counters_kept(old(self).keysets@, final(self).keysets@),
            forall|j: int|
                0 <= j < published@.len() ==> ids_of(final(self).keysets@).contains(
                    #[trigger] published@[j].id@,
                ),
            forall|i: int|
                old(self).keysets@.len() <= i < final(self).keysets@.len()
                    ==> #[trigger] final(self).keysets@[i].counter == 0,
            forall|j: int|
                0 <= j < published@.len() && #[trigger] last_mention(published@, j) ==> exists|i: int|
                    0 <= i < final(self).keysets@.len() && final(self).keysets@[i].id@
                        == published@[j].id@ && #[trigger] final(self).keysets@[i].active
                        == published@[j].active,
    {
        let mut j: usize = 0;
        while j < published.len()
            invariant
                self.wf(),
                counters_kept(old(self).keysets@, self.keysets@),
                j <= published@.len(),
                forall|k: int|
                    0 <= k < j ==> ids_of(self.keysets@).contains(#[trigger] published@[k].id@),
                forall|i: int|
                    old(self).keysets@.len() <= i < self.keysets@.len() ==> #[trigger] self.keysets@[i].counter == 0,
                forall|k: int|
                    0 <= k < j && #[trigger] last_mention(published@.take(j as int), k) ==> exists|i: int|
                        0 <= i < self.keysets@.len() && self.keysets@[i].id@ == published@[k].id@
                            && #[trigger] self.keysets@[i].active == published@[k].active,
            decreases published@.len() - j,
        {
            proof {
                assert(published@.take(j as int).len() == j);
            }
            let info = &published[j];
            let ghost before = self.keysets@;
            let ghost mut pos: int = 0;
            match self.find(info.id.as_slice()) {
                Some(i) => {
                    proof {
                        pos = i as int;
                    }
                    let mut k = self.keysets.remove(i);
                    k.active = info.active;
                    self.keysets.insert(i, k);
                    proof {
                        assert(self.keysets@ =~= before.update(i as int, self.keysets@[i as int]));
                        assert(ids_of(self.keysets@) =~= ids_of(before));
                        assert(ids_of(self.keysets@)[i as int] == info.id@);
                    }
                },
                None => {
                    let k = Keyset {
                        id: crate::codec::bytes_of(info.id.as_slice()),
                        unit: crate::codec::bytes_of(info.unit.as_slice()),
                        active: info.active,
                        counter: 0,
                    };
                    self.keysets.push(k);
                    proof {
                        pos = before.len() as int;
                        assert(ids_of(self.keysets@) =~= ids_of(before).push(info.id@));
                        assert(ids_of(self.keysets@)[before.len() as int] == info.id@);
                        assert forall|a: int, b: int|
                            0 <= a < b < ids_of(self.keysets@).len() implies ids_of(
                            self.keysets@,
                        )[a] != ids_of(self.keysets@)[b] by {
                            if b == before.len() {
                                assert(ids_of(before)[a] == ids_of(self.keysets@)[a]);
                            }
                        }
                    }
                },
            }
            proof {
                assert forall|k: int| 0 <= k < j + 1 implies ids_of(self.keysets@).contains(
                    #[trigger] published@[k].id@,
                ) by {
                    if k < j {
                        let m = choose|m: int|
                            0 <= m < ids_of(before).len() && ids_of(before)[m] == published@[k].id@;
                        assert(ids_of(self.keysets@)[m] == ids_of(before)[m]);
                    } else {
                        assert(published@[k] == *info);
                    }
                }
                assert(self.keysets@[pos].id@ == info.id@ && self.keysets@[pos].active
                    == info.active);
                assert forall|i: int|
                    old(self).keysets@.len() <= i < self.keysets@.len() implies #[trigger] self.keysets@[i].counter == 0 by {
                    if i != pos {
                        assert(self.keysets@[i] == before[i]);
                    }
                }
                assert forall|k: int|
                    0 <= k < j + 1 && #[trigger] last_mention(published@.take(j + 1), k) implies exists|i: int|
                        0 <= i < self.keysets@.len() && self.keysets@[i].id@ == published@[k].id@
                            && #[trigger] self.keysets@[i].active == published@[k].active by {
                    if k == j {
                        assert(published@[k] == *info);
                        assert(self.keysets@[pos].active == published@[k].active);
                    } else {
                        assert(published@.take(j + 1)[j as int] == published@[j as int]);
                        assert(published@[j as int].id@ != published@[k].id@);
                        assert forall|k2: int|
                            k < k2 < published@.take(j as int).len() implies #[trigger] published@.take(
                            j as int,
                        )[k2].id@ != published@.take(j as int)[k].id@ by {
                            assert(published@.take(j + 1)[k2] == published@.take(j as int)[k2]);
                        }
                        assert(last_mention(published@.take(j as int), k));
                        let i0 = choose|i0: int|
                            0 <= i0 < before.len() && before[i0].id@ == published@[k].id@
                                && #[trigger] before[i0].active == published@[k].active;
                        assert(i0 != pos);
                        assert(self.keysets@[i0] == before[i0]);
                        assert(self.keysets@[i0].active == published@[k].active);
                    }
                }
            }
            j = j + 1;
        }
        assert(published@.take(j as int) =~= published@);
    }

    fn set_counter(&mut self, i: usize, n: u64)
        requires
            old(self).wf(),
            i < old(self).keysets@.len(),
            n >= old(self).keysets@[i as int].counter,
        ensures
            final(self).wf(),
            counters_kept(old(self).keysets@, final(self).keysets@),
            final(self).keysets@[i as int].counter == n,
            final(self).keysets@[i as int].id@ == old(self).keysets@[i as int].id@,
            final(self).keysets@ =~= old(self).keysets@.update(i as int, final(self).keysets@[i as int]),
    {
        let ghost before = self.keysets@;
        let mut k = self.keysets.remove(i);
        k.counter = n;
        self.keysets.insert(i, k);
        proof {
            assert(self.keysets@ =~= before.update(i as int, self.keysets@[i as int]));
            assert(ids_of(self.keysets@) =~= ids_of(before));
        }
    }
}

proof fn lemma_unique_position(ks: Seq<Keyset>, i: int, id: Seq<u8>)
    requires
        ids_of(ks).no_duplicates(),
        0 <= i < ks.len(),
        ks[i].id@ == id,
    ensures
        forall|j: int| 0 <= j < ks.len() && ks[j].id@ == id ==> j == i,
{
    assert forall|j: int| 0 <= j < ks.len() && ks[j].id@ == id implies j == i by {
        if j != i {
            assert(ids_of(ks)[j] == ids_of(ks)[i]);
        }
    }
}

} // verus!
