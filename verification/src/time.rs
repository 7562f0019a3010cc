//! Frame statistics: the renderer keeps the last few frame times to average.

use vstd::prelude::*;

verus! {

/// How many recent frame times are kept.
pub const FRAME_WINDOW: usize = 10;

/// Appends a frame time to the window of recent ones, dropping the oldest when
/// the window would hold more than `FRAME_WINDOW`.
pub fn push_frame_time<T>(window: &mut Vec<T>, value: T)
    ensures
        final(window)@ == if old(window).len() + 1 > FRAME_WINDOW {
            old(window)@.push(value).drop_first()
        } else {
            old(window)@.push(value)
        },
{
    window.push(value);
    if window.len() > FRAME_WINDOW {
        window.remove(0);
        proof {
            assert(window@ =~= old(window)@.push(value).drop_first());
        }
    }
}

/// The last `FRAME_WINDOW` values of `values` (all of them when there are fewer).
pub open spec fn recent<T>(values: Seq<T>) -> Seq<T> {
    if values.len() > FRAME_WINDOW {
        values.skip(values.len() - FRAME_WINDOW)
    } else {
        values
    }
}

/// Pushing frame times one by one into a window that holds the most recent
/// values keeps it holding exactly the most recent values: never more than
/// `FRAME_WINDOW`, the newest last.
pub proof fn lemma_window_keeps_recent<T>(values: Seq<T>, value: T)
    ensures
        ({
            let w = recent(values);
            let next = if w.len() + 1 > FRAME_WINDOW {
                w.push(value).drop_first()
            } else {
                w.push(value)
            };
            next == recent(values.push(value)) && next.len() <= FRAME_WINDOW
        }),
{
    let w = recent(values);
    if values.len() > FRAME_WINDOW {
        assert(w.push(value).drop_first() =~= values.push(value).skip(
            values.push(value).len() - FRAME_WINDOW,
        ));
    } else if values.len() == FRAME_WINDOW {
        assert(w.push(value).drop_first() =~= values.push(value).skip(1));
    }
}

} // verus!
