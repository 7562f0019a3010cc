//! Keeping the renderer's per-model state in step with the application's list
//! of models: the model list is updated in place, touching only what changed,
//! and per-model outputs are kept by key from one frame to the next.

use vstd::prelude::*;
use crate::lines::views;

verus! {

/// Brings `models` up to date with `game_models`: a model that `unchanged`
/// marks as equal to its new value is left untouched (so that nothing that
/// depends on it is triggered), any other one is set to a clone of its new
/// value; new models are appended, and models beyond the new count removed.
/// `unchanged[i]` says whether `models[i]` equals `game_models[i]`, for the
/// positions both lists have.
pub fn update_models<T: Clone>(models: &mut Vec<T>, game_models: &Vec<T>, unchanged: &Vec<bool>)
    requires
        unchanged.len() == if old(models).len() < game_models.len() {
            old(models).len()
        } else {
            game_models.len()
        },
    ensures
        final(models).len() == game_models.len(),
        forall|i: int|
            0 <= i < unchanged.len() && unchanged@[i] ==> #[trigger] final(models)@[i] == old(
                models,
            )@[i],
        forall|i: int|
            0 <= i < game_models.len() && !(i < unchanged.len() && unchanged@[i]) ==> cloned::<T>(
                game_models@[i],
                #[trigger] final(models)@[i],
            ),
{
    let paired = unchanged.len();
    let ghost before = models@;
    let mut i: usize = 0;
    while i < paired
        invariant
            paired == unchanged.len(),
            paired <= game_models.len(),
            paired <= before.len(),
            i <= paired,
            models.len() == before.len(),
            forall|j: int|
                0 <= j < paired && unchanged@[j] ==> #[trigger] models@[j] == before[j],
            forall|j: int|
                i <= j < models.len() ==> #[trigger] models@[j] == before[j],
            forall|j: int|
                0 <= j < i && !unchanged@[j] ==> cloned::<T>(
                    game_models@[j],
                    #[trigger] models@[j],
                ),
        decreases paired - i,
    {
        if !unchanged[i] {
            let value = game_models[i].clone();
            models.set(i, value);
        }
        i = i + 1;
    }
    if models.len() < game_models.len() {
        let mut k: usize = models.len();
        while k < game_models.len()
            invariant
                paired == unchanged.len(),
                paired == before.len(),
                k == models.len(),
                paired <= k <= game_models.len(),
                forall|j: int|
                    0 <= j < paired && unchanged@[j] ==> #[trigger] models@[j] == before[j],
                forall|j: int|
                    0 <= j < k && !(j < paired && unchanged@[j]) ==> cloned::<T>(
                        game_models@[j],
                        #[trigger] models@[j],
                    ),
            decreases game_models.len() - k,
        {
            let value = game_models[k].clone();
            models.push(value);
            k = k + 1;
        }
    } else {
        models.truncate(game_models.len());
    }
}

fn position_of(keys: &Vec<String>, key: &String) -> (r: Option<usize>)
    ensures
        match r {
            Some(i) => {
                &&& i < keys.len()
                &&& keys@[i as int]@ == key@
                &&& forall|m: int| 0 <= m < i ==> keys@[m]@ != key@
            },
            None => forall|m: int| 0 <= m < keys.len() ==> keys@[m]@ != key@,
        },
{
    let mut i: usize = 0;
    while i < keys.len()
        invariant
            i <= keys.len(),
            forall|m: int| 0 <= m < i ==> keys@[m]@ != key@,
        decreases keys.len() - i,
    {
        if keys[i] == *key {
            return Some(i);
        }
        i = i + 1;
    }
    None
}

/// `r` says, for each new key in order, which entry of the previous keys is
/// kept for it: the first one with that key, or none where the key is new.
pub open spec fn reconciled(old_keys: Seq<Seq<char>>, new_keys: Seq<Seq<char>>, r: Seq<Option<usize>>) -> bool {
    &&& r.len() == new_keys.len()
    &&& forall|j: int|
        0 <= j < new_keys.len() ==> match #[trigger] r[j] {
            Some(i) => {
                &&& i < old_keys.len()
                &&& old_keys[i as int] == new_keys[j]
                &&& forall|m: int| 0 <= m < i ==> old_keys[m] != new_keys[j]
            },
            None => forall|m: int| 0 <= m < old_keys.len() ==> old_keys[m] != new_keys[j],
        }
}

/// For each new item, in order, the position in the previous frame's keys of
/// the entry to keep (`None` where the key is new and its output has to be
/// made). Entries whose key is no longer there are dropped.
pub fn reconcile_keys(old_keys: &Vec<String>, new_keys: &Vec<String>) -> (r: Vec<Option<usize>>)
    requires
        forall|i: int, j: int|
            0 <= i < j < new_keys.len() ==> (#[trigger] new_keys@[i])@ != (#[trigger] new_keys@[j])@,
    ensures
        reconciled(views(old_keys@), views(new_keys@), r@),
{
    let mut r: Vec<Option<usize>> = Vec::new();
    for j in 0..new_keys.len()
        invariant
            r.len() == j,
            forall|jj: int|
                0 <= jj < j ==> match #[trigger] r@[jj] {
                    Some(i) => {
                        &&& i < old_keys.len()
                        &&& old_keys@[i as int]@ == new_keys@[jj]@
                        &&& forall|m: int| 0 <= m < i ==> old_keys@[m]@ != new_keys@[jj]@
                    },
                    None => forall|m: int|
                        0 <= m < old_keys.len() ==> old_keys@[m]@ != new_keys@[jj]@,
                },
    {
        let found = position_of(old_keys, &new_keys[j]);
        r.push(found);
    }
    proof {
        assert forall|j: int| 0 <= j < new_keys.len() implies match #[trigger] r@[j] {
            Some(i) => {
                &&& i < old_keys.len()
                &&& views(old_keys@)[i as int] == views(new_keys@)[j]
                &&& forall|m: int| 0 <= m < i ==> views(old_keys@)[m] != views(new_keys@)[j]
            },
            None => forall|m: int|
                0 <= m < old_keys.len() ==> views(old_keys@)[m] != views(new_keys@)[j],
        } by {
            match r@[j] {
                Some(i) => {
                    assert forall|m: int| 0 <= m < i implies views(old_keys@)[m] != views(
                        new_keys@,
                    )[j] by {
                        assert(old_keys@[m]@ != new_keys@[j]@);
                    }
                },
                None => {
                    assert forall|m: int| 0 <= m < old_keys.len() implies views(old_keys@)[m]
                        != views(new_keys@)[j] by {
                        assert(old_keys@[m]@ != new_keys@[j]@);
                    }
                },
            }
        }
    }
    r
}

/// Keyed reuse across frames: with distinct new keys, an output is made for
/// exactly the new keys that the previous frame did not have, every other
/// key keeps the previous frame's output for it, and no previous output is
/// kept for two items.
pub proof fn lemma_outputs_reused_by_key(
    old_keys: Seq<Seq<char>>,
    new_keys: Seq<Seq<char>>,
    r: Seq<Option<usize>>,
)
    requires
        reconciled(old_keys, new_keys, r),
        forall|i: int, j: int| 0 <= i < j < new_keys.len() ==> new_keys[i] != new_keys[j],
    ensures
        forall|j: int| 0 <= j < new_keys.len() ==> (#[trigger] r[j] is None <==> !old_keys.contains(new_keys[j])),
        forall|j: int|
            0 <= j < new_keys.len() && #[trigger] r[j] is Some ==> old_keys[r[j]->0 as int] == new_keys[j],
        forall|j1: int, j2: int|
            0 <= j1 < new_keys.len() && 0 <= j2 < new_keys.len() && j1 != j2 && #[trigger] r[j1] is Some
                && #[trigger] r[j2] is Some ==> r[j1] != r[j2],
{
    assert forall|j: int| 0 <= j < new_keys.len() implies (#[trigger] r[j] is None <==> !old_keys.contains(new_keys[j])) by {
        match r[j] {
            Some(i) => {
                assert(old_keys[i as int] == new_keys[j]);
            },
            None => {},
        }
    }
    assert forall|j1: int, j2: int|
        0 <= j1 < new_keys.len() && 0 <= j2 < new_keys.len() && j1 != j2 && #[trigger] r[j1] is Some
            && #[trigger] r[j2] is Some implies r[j1] != r[j2] by {
        if r[j1] == r[j2] {
            let i = r[j1]->0;
            assert(old_keys[i as int] == new_keys[j1]);
            assert(old_keys[i as int] == new_keys[j2]);
            if j1 < j2 {
                assert(new_keys[j1] != new_keys[j2]);
            } else {
                assert(new_keys[j2] != new_keys[j1]);
            }
        }
    }
}

} // verus!
