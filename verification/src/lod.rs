//! The level-of-detail stage of the renderer: the patch sizes it renders
//! with, the patch list it starts every frame from, and the schedule of
//! compute passes that subdivides the patches, ping-ponging between two
//! patch buffers.

use vstd::prelude::*;

verus! {

/// How many patches a patch buffer can hold.
pub const MAX_PATCH_COUNT: u32 = 524_288;

/// How many ping-pong rounds (two compute passes each) the stage runs:
/// enough to subdivide a 4k screen into 16x16 pixel patches.
pub const DOUBLE_NUMBER_OF_ROUNDS: u32 = 4;

/// The side lengths, in quads, of the patches that are rendered.
pub open spec fn patch_sizes_spec() -> Seq<u32> {
    seq![2u32, 4u32, 8u32, 16u32, 32u32]
}

/// The side lengths, in quads, of the patches that are rendered.
pub fn patch_sizes() -> (v: Vec<u32>)
    ensures
        v@ == patch_sizes_spec(),
{
    let v: Vec<u32> = vec![2, 4, 8, 16, 32];
    assert(v@ =~= patch_sizes_spec());
    v
}

/// How often each patch size's quad mesh is split: `size / 2 - 1`, which
/// gives one quad per four pixels.
pub fn quad_splits(sizes: &Vec<u32>) -> (splits: Vec<u32>)
    requires
        forall|i: int| 0 <= i < sizes.len() ==> sizes@[i] >= 2,
    ensures
        splits.len() == sizes.len(),
        forall|i: int| 0 <= i < sizes.len() ==> #[trigger] splits@[i] == sizes@[i] / 2 - 1,
{
    let mut splits: Vec<u32> = Vec::new();
    for k in 0..sizes.len()
        invariant
            splits.len() == k,
            k <= sizes.len(),
            forall|i: int| 0 <= i < sizes.len() ==> sizes@[i] >= 2,
            forall|i: int| 0 <= i < k ==> #[trigger] splits@[i] == sizes@[i] / 2 - 1,
    {
        splits.push(sizes[k] / 2 - 1);
    }
    splits
}

/// A patch of an instance's parameter domain, as the compute shader encodes
/// it: `u` and `v` hold the patch's position below a leading 1 bit.
#[derive(Debug, Clone, Copy, PartialEq, Eq, Structural)]
pub struct EncodedPatch {
    pub u: u32,
    pub v: u32,
    pub instance: u32,
}

/// The contents of a patch buffer: how many patches it holds, how many it
/// can hold, and the patches.
pub struct Patches {
    pub patches_length: u32,
    pub patches_capacity: u32,
    pub patches: Vec<EncodedPatch>,
}

/// The patch buffer every frame starts from: one whole-domain patch (just the
/// leading 1 bit) per instance, in instance order, in a buffer of the full
/// capacity.
pub fn initial_patches(instance_count: u32) -> (r: Patches)
    ensures
        r.patches_length == instance_count,
        r.patches_capacity == MAX_PATCH_COUNT,
        r.patches.len() == instance_count,
        forall|i: int|
            0 <= i < instance_count ==> #[trigger] r.patches@[i] == (EncodedPatch {
                u: 1,
                v: 1,
                instance: i as u32,
            }),
{
    let mut patches: Vec<EncodedPatch> = Vec::new();
    for i in 0..instance_count
        invariant
            patches.len() == i,
            forall|j: int|
                0 <= j < i ==> #[trigger] patches@[j] == (EncodedPatch {
                    u: 1,
                    v: 1,
                    instance: j as u32,
                }),
    {
        patches.push(EncodedPatch { u: 1, v: 1, instance: i });
    }
    Patches { patches_length: instance_count, patches_capacity: MAX_PATCH_COUNT, patches }
}

/// One GPU command of the level-of-detail stage.
#[derive(Debug, Clone, Copy, PartialEq, Eq, Structural)]
pub enum LodStep {
    /// Empty the patch list of the given patch buffer.
    ResetPatches(usize),
    /// Reset the dispatch arguments of the given indirect dispatch buffer.
    ResetDispatch(usize),
    /// Run the compute-patches shader: read the patches of the given buffer,
    /// write the subdivided ones into the other buffer, dispatched by the
    /// arguments of the given dispatch buffer.
    ComputePatches(usize),
    /// Set (`true`) or clear the flag that forces all remaining patches to
    /// be rendered.
    ForceRender(bool),
}

/// One ping-pong round: from buffer 0 into buffer 1, then back. In the last
/// round the second pass runs with forced rendering.
pub open spec fn lod_round(is_last: bool) -> Seq<LodStep> {
    seq![LodStep::ResetPatches(1), LodStep::ResetDispatch(1), LodStep::ComputePatches(0)] + (
    if is_last {
        seq![LodStep::ForceRender(true)]
    } else {
        Seq::empty()
    }) + seq![LodStep::ResetPatches(0), LodStep::ResetDispatch(0), LodStep::ComputePatches(1)] + (
    if is_last {
        seq![LodStep::ForceRender(false)]
    } else {
        Seq::empty()
    })
}

/// The first `done` of `total` rounds.
pub open spec fn lod_rounds(done: nat, total: nat) -> Seq<LodStep>
    decreases done,
{
    if done == 0 {
        Seq::empty()
    } else {
        lod_rounds((done - 1) as nat, total) + lod_round(done == total)
    }
}

/// The commands of the level-of-detail stage for `rounds` rounds.
pub fn lod_steps(rounds: u32) -> (steps: Vec<LodStep>)
    ensures
        steps@ == lod_rounds(rounds as nat, rounds as nat),
{
    let mut steps: Vec<LodStep> = Vec::new();
    let mut i: u32 = 0;
    while i < rounds
        invariant
            i <= rounds,
            steps@ == lod_rounds(i as nat, rounds as nat),
        decreases rounds - i,
    {
        let is_last_round = i == rounds - 1;
        let ghost before = steps@;
        steps.push(LodStep::ResetPatches(1));
        steps.push(LodStep::ResetDispatch(1));
        steps.push(LodStep::ComputePatches(0));
        if is_last_round {
            steps.push(LodStep::ForceRender(true));
        }
        steps.push(LodStep::ResetPatches(0));
        steps.push(LodStep::ResetDispatch(0));
        steps.push(LodStep::ComputePatches(1));
        if is_last_round {
            steps.push(LodStep::ForceRender(false));
        }
        i = i + 1;
        assert(steps@ =~= before + lod_round(is_last_round));
    }
    steps
}

/// The force-render flag after the steps, starting from `flag`.
pub open spec fn force_after(steps: Seq<LodStep>, flag: bool) -> bool
    decreases steps.len(),
{
    if steps.len() == 0 {
        flag
    } else {
        match steps.last() {
            LodStep::ForceRender(f) => f,
            _ => force_after(steps.drop_last(), flag),
        }
    }
}

/// For each compute pass of the steps, in order, whether it runs with forced
/// rendering, starting from `flag`.
pub open spec fn forced_passes(steps: Seq<LodStep>, flag: bool) -> Seq<bool>
    decreases steps.len(),
{
    if steps.len() == 0 {
        Seq::empty()
    } else {
        match steps.last() {
            LodStep::ComputePatches(_) => forced_passes(steps.drop_last(), flag).push(
                force_after(steps.drop_last(), flag),
            ),
            _ => forced_passes(steps.drop_last(), flag),
        }
    }
}

proof fn lemma_steps_append(a: Seq<LodStep>, b: Seq<LodStep>, flag: bool)
    ensures
        force_after(a + b, flag) == force_after(b, force_after(a, flag)),
        forced_passes(a + b, flag) == forced_passes(a, flag) + forced_passes(
            b,
            force_after(a, flag),
        ),
    decreases b.len(),
{
    if b.len() == 0 {
        assert(a + b =~= a);
        assert(forced_passes(a, flag) + Seq::<bool>::empty() =~= forced_passes(a, flag));
    } else {
        lemma_steps_append(a, b.drop_last(), flag);
        assert((a + b).drop_last() =~= a + b.drop_last());
        assert((a + b).last() == b.last());
        let rest = forced_passes(b.drop_last(), force_after(a, flag));
        assert(forced_passes(a, flag) + rest.push(force_after(b.drop_last(), force_after(a, flag)))
            =~= (forced_passes(a, flag) + rest).push(
            force_after(b.drop_last(), force_after(a, flag)),
        ));
    }
}

proof fn lemma_round(is_last: bool)
    ensures
        force_after(lod_round(is_last), false) == false,
        forced_passes(lod_round(is_last), false) == seq![false, is_last],
{
    let r = lod_round(is_last);
    reveal_with_fuel(force_after, 9);
    reveal_with_fuel(forced_passes, 9);
    if is_last {
        assert(r =~= seq![
            LodStep::ResetPatches(1),
            LodStep::ResetDispatch(1),
            LodStep::ComputePatches(0),
            LodStep::ForceRender(true),
            LodStep::ResetPatches(0),
            LodStep::ResetDispatch(0),
            LodStep::ComputePatches(1),
            LodStep::ForceRender(false),
        ]);
    } else {
        assert(r =~= seq![
            LodStep::ResetPatches(1),
            LodStep::ResetDispatch(1),
            LodStep::ComputePatches(0),
            LodStep::ResetPatches(0),
            LodStep::ResetDispatch(0),
            LodStep::ComputePatches(1),
        ]);
    }
    assert(forced_passes(r, false) =~= seq![false, is_last]);
}

proof fn lemma_rounds(done: nat, total: nat)
    requires
        done <= total,
    ensures
        force_after(lod_rounds(done, total), false) == false,
        forced_passes(lod_rounds(done, total), false) =~= Seq::new(
            2 * done,
            |k: int| done == total && k == 2 * total - 1,
        ),
    decreases done,
{
    if done > 0 {
        let before = lod_rounds((done - 1) as nat, total);
        lemma_rounds((done - 1) as nat, total);
        lemma_round(done == total);
        lemma_steps_append(before, lod_round(done == total), false);
    }
}

/// Forced rendering is in effect for exactly the last of the stage's compute
/// passes, and the flag is cleared again when the stage ends: every round
/// runs two passes, and only the final one renders whatever patches remain.
pub proof fn lemma_only_last_pass_forced(rounds: nat)
    ensures
        force_after(lod_rounds(rounds, rounds), false) == false,
        forced_passes(lod_rounds(rounds, rounds), false).len() == 2 * rounds,
        forall|k: int|
            0 <= k < 2 * rounds ==> #[trigger] forced_passes(lod_rounds(rounds, rounds), false)[k]
                == (k == 2 * rounds - 1),
{
    lemma_rounds(rounds, rounds);
}

/// Every compute pass reads buffer `b` after the other buffer `1 - b`, the
/// one it writes, and its dispatch arguments were reset just before it; and
/// every reset of a buffer is followed at once by the pass that writes it.
/// So a pass never reads a buffer that was emptied after the pass before
/// filled it.
pub open spec fn resets_only_written_buffers(steps: Seq<LodStep>) -> bool {
    &&& forall|k: int|
        0 <= k < steps.len() && #[trigger] steps[k] is ComputePatches ==> {
            let b = steps[k]->ComputePatches_0;
            &&& b < 2
            &&& k >= 2
            &&& steps[k - 2] == LodStep::ResetPatches((1 - b) as usize)
            &&& steps[k - 1] == LodStep::ResetDispatch((1 - b) as usize)
        }
    &&& forall|k: int|
        0 <= k < steps.len() && #[trigger] steps[k] is ResetPatches ==> {
            let b = steps[k]->ResetPatches_0;
            &&& b < 2
            &&& k + 2 < steps.len()
            &&& steps[k + 1] == LodStep::ResetDispatch(b)
            &&& steps[k + 2] == LodStep::ComputePatches((1 - b) as usize)
        }
}

proof fn lemma_round_resets(is_last: bool)
    ensures
        resets_only_written_buffers(lod_round(is_last)),
{
    let r = lod_round(is_last);
    if is_last {
        assert(r =~= seq![
            LodStep::ResetPatches(1),
            LodStep::ResetDispatch(1),
            LodStep::ComputePatches(0),
            LodStep::ForceRender(true),
            LodStep::ResetPatches(0),
            LodStep::ResetDispatch(0),
            LodStep::ComputePatches(1),
            LodStep::ForceRender(false),
        ]);
    } else {
        assert(r =~= seq![
            LodStep::ResetPatches(1),
            LodStep::ResetDispatch(1),
            LodStep::ComputePatches(0),
            LodStep::ResetPatches(0),
            LodStep::ResetDispatch(0),
            LodStep::ComputePatches(1),
        ]);
    }
}

proof fn lemma_resets_concat(a: Seq<LodStep>, b: Seq<LodStep>)
    requires
        resets_only_written_buffers(a),
        resets_only_written_buffers(b),
    ensures
        resets_only_written_buffers(a + b),
{
    let s = a + b;
    assert forall|k: int|
        0 <= k < s.len() && #[trigger] s[k] is ComputePatches implies {
            let c = s[k]->ComputePatches_0;
            &&& c < 2
            &&& k >= 2
            &&& s[k - 2] == LodStep::ResetPatches((1 - c) as usize)
            &&& s[k - 1] == LodStep::ResetDispatch((1 - c) as usize)
        } by {
        if k < a.len() {
            assert(a[k] == s[k]);
            assert(s[k - 2] == a[k - 2]);
            assert(s[k - 1] == a[k - 1]);
        } else {
            let j = k - a.len();
            assert(b[j] == s[k]);
            assert(s[k - 2] == b[j - 2]);
            assert(s[k - 1] == b[j - 1]);
        }
    }
    assert forall|k: int|
        0 <= k < s.len() && #[trigger] s[k] is ResetPatches implies {
            let c = s[k]->ResetPatches_0;
            &&& c < 2
            &&& k + 2 < s.len()
            &&& s[k + 1] == LodStep::ResetDispatch(c)
            &&& s[k + 2] == LodStep::ComputePatches((1 - c) as usize)
        } by {
        if k < a.len() {
            assert(a[k] == s[k]);
            assert(s[k + 1] == a[k + 1]);
            assert(s[k + 2] == a[k + 2]);
        } else {
            let j = k - a.len();
            assert(b[j] == s[k]);
            assert(s[k + 1] == b[j + 1]);
            assert(s[k + 2] == b[j + 2]);
        }
    }
}

proof fn lemma_rounds_reset(done: nat, total: nat)
    ensures
        resets_only_written_buffers(lod_rounds(done, total)),
    decreases done,
{
    if done > 0 {
        lemma_rounds_reset((done - 1) as nat, total);
        lemma_round_resets(done == total);
        lemma_resets_concat(lod_rounds((done - 1) as nat, total), lod_round(done == total));
    }
}

/// The level-of-detail stage never loses patches to a reset: each compute
/// pass that reads buffer `b` comes right after the reset of the other
/// buffer and of its dispatch arguments, which it writes into, and a buffer
/// is reset only right before the pass that writes it.
pub proof fn lemma_passes_read_kept_buffers(rounds: nat)
    ensures
        forall|k: int|
            0 <= k < lod_rounds(rounds, rounds).len() && #[trigger] lod_rounds(rounds, rounds)[k] is ComputePatches ==> {
            let b = lod_rounds(rounds, rounds)[k]->ComputePatches_0;
                &&& b < 2
                &&& k >= 2
                &&& lod_rounds(rounds, rounds)[k - 2] == LodStep::ResetPatches((1 - b) as usize)
                &&& lod_rounds(rounds, rounds)[k - 1] == LodStep::ResetDispatch((1 - b) as usize)
            },
        forall|k: int|
            0 <= k < lod_rounds(rounds, rounds).len() && #[trigger] lod_rounds(rounds, rounds)[k] is ResetPatches ==> {
            let b = lod_rounds(rounds, rounds)[k]->ResetPatches_0;
                &&& b < 2
                &&& k + 2 < lod_rounds(rounds, rounds).len()
                &&& lod_rounds(rounds, rounds)[k + 1] == LodStep::ResetDispatch(b)
                &&& lod_rounds(rounds, rounds)[k + 2] == LodStep::ComputePatches((1 - b) as usize)
            },
{
    lemma_rounds_reset(rounds, rounds);
}

} // verus!
