//! Resizing the render target: sizes are clamped to at least one pixel, and a
//! resize to the current size does nothing.

use vstd::prelude::*;

verus! {

/// The size a resize request leads to: at least one pixel in each direction.
pub open spec fn clamped_size(requested: (u32, u32)) -> (u32, u32) {
    (
        if requested.0 < 1 {
            1
        } else {
            requested.0
        },
        if requested.1 < 1 {
            1
        } else {
            requested.1
        },
    )
}

/// The size of the target after a resize request from `size` to `new_size`.
pub open spec fn size_after_resize(size: (u32, u32), new_size: (u32, u32)) -> (u32, u32) {
    clamped_size(new_size)
}

/// What a resize request from `size` to `new_size` reports: the new size
/// where the target has to be reconfigured, `None` where the clamped size is
/// the current one.
pub open spec fn resize_result(size: (u32, u32), new_size: (u32, u32)) -> Option<(u32, u32)> {
    if clamped_size(new_size) == size {
        None
    } else {
        Some(clamped_size(new_size))
    }
}

/// Tries to resize the render target of size `size` to `new_size`. Returns
/// the actual new size where the target has to be reconfigured, `None` where
/// the (clamped) size is the current one.
pub fn try_resize(size: &mut (u32, u32), new_size: (u32, u32)) -> (r: Option<(u32, u32)>)
    ensures
        *final(size) == size_after_resize(*old(size), new_size),
        r == resize_result(*old(size), new_size),
{
    let clamped = (
        if new_size.0 < 1 {
            1
        } else {
            new_size.0
        },
        if new_size.1 < 1 {
            1
        } else {
            new_size.1
        },
    );
    if clamped.0 == size.0 && clamped.1 == size.1 {
        return None;
    }
    *size = clamped;
    Some(clamped)
}

/// Resizing twice to the same size reconfigures the target at most once:
/// whatever the size before, after `try_resize(size, new_size)` a second
/// `try_resize` with the same `new_size` reports `None` and keeps the size.
pub proof fn lemma_resize_settles(size: (u32, u32), new_size: (u32, u32))
    ensures
        resize_result(size_after_resize(size, new_size), new_size) is None,
        size_after_resize(size_after_resize(size, new_size), new_size) == size_after_resize(
            size,
            new_size,
        ),
{
}

/// What a resize does, coordinate by coordinate: the target ends up with
/// each requested side, raised to at least one pixel, and the request reports
/// a change exactly when that size differs from the current one in width or
/// in height, giving the new size.
pub proof fn lemma_resize_per_side(size: (u32, u32), new_size: (u32, u32))
    ensures
        size_after_resize(size, new_size).0 == if new_size.0 == 0 {
            1
        } else {
            new_size.0
        },
        size_after_resize(size, new_size).1 == if new_size.1 == 0 {
            1
        } else {
            new_size.1
        },
        resize_result(size, new_size) is None <==> (size_after_resize(size, new_size).0 == size.0
            && size_after_resize(size, new_size).1 == size.1),
        resize_result(size, new_size) is Some ==> resize_result(size, new_size)->0
            == size_after_resize(size, new_size),
{
}

} // verus!
