//! Splicing user-written WGSL into the renderer's shader templates. A template
//! marks the replaceable functions with `//// START name` and `//// END name`
//! comment lines.

use vstd::prelude::*;
use crate::text::{
    absent_before, chars_of, find, first_occurrence, lemma_first_occurrence,
    lemma_no_first_occurrence, occurs_at, push_chars,
};

verus! {

pub open spec fn start_sample_object() -> Seq<char> {
    "//// START sampleObject"@
}

pub open spec fn end_sample_object() -> Seq<char> {
    "//// END sampleObject"@
}

pub open spec fn start_get_color() -> Seq<char> {
    "//// START getColor"@
}

pub open spec fn end_get_color() -> Seq<char> {
    "//// END getColor"@
}

pub open spec fn start_evaluate_image() -> Seq<char> {
    "//// START evaluateImage"@
}

pub open spec fn end_evaluate_image() -> Seq<char> {
    "//// END evaluateImage"@
}

/// The text that shows that user code defines its own colour function.
pub open spec fn get_color_fn() -> Seq<char> {
    "fn getColor"@
}

/// Where `pat` first occurs in `s`; only meaningful where it occurs.
pub open spec fn pos(s: Seq<char>, pat: Seq<char>) -> int {
    first_occurrence(s, pat).unwrap()
}

/// The render template's markers are all there, the `sampleObject` end marker
/// before the `getColor` start marker.
pub open spec fn render_template_ok(source: Seq<char>) -> bool {
    &&& first_occurrence(source, start_sample_object()) is Some
    &&& first_occurrence(source, end_sample_object()) is Some
    &&& first_occurrence(source, start_get_color()) is Some
    &&& first_occurrence(source, end_get_color()) is Some
    &&& pos(source, end_sample_object()) <= pos(source, start_get_color())
}

/// The render shader: the template with its `sampleObject` section replaced
/// by the user's code, and, where that code defines `getColor`, the
/// template's `getColor` section dropped as well.
pub open spec fn render_code(source: Seq<char>, code: Seq<char>) -> Seq<char> {
    let tail = if first_occurrence(code, get_color_fn()) is Some {
        source.skip(pos(source, end_get_color()))
    } else {
        source.skip(pos(source, start_get_color()))
    };
    source.take(pos(source, start_sample_object())) + code + source.subrange(
        pos(source, end_sample_object()),
        pos(source, start_get_color()),
    ) + tail
}

/// Replaces the `sampleObject` section of the render shader template with the
/// user's code (and drops the template's `getColor` section where the user's
/// code defines `getColor`).
pub fn replace_render_code(source: &str, sample_object_code: &str) -> (result: String)
    requires
        render_template_ok(source@),
    ensures
        result@ == render_code(source@, sample_object_code@),
{
    let src = chars_of(source);
    let code = chars_of(sample_object_code);
    let start_1 = find(&src, &chars_of("//// START sampleObject")).unwrap();
    let end_1 = find(&src, &chars_of("//// END sampleObject")).unwrap();
    let start_2 = find(&src, &chars_of("//// START getColor")).unwrap();
    let end_2 = find(&src, &chars_of("//// END getColor")).unwrap();
    let mut result = String::new();
    push_chars(&mut result, &src, 0, start_1);
    push_chars(&mut result, &code, 0, code.len());
    push_chars(&mut result, &src, end_1, start_2);
    let defines_get_color = find(&code, &chars_of("fn getColor")).is_some();
    if defines_get_color {
        push_chars(&mut result, &src, end_2, src.len());
    } else {
        push_chars(&mut result, &src, start_2, src.len());
    }
    proof {
        assert(code@.subrange(0, code@.len() as int) =~= code@);
        assert(src@.subrange(0, start_1 as int) =~= src@.take(start_1 as int));
        assert(src@.subrange(end_2 as int, src@.len() as int) =~= src@.skip(end_2 as int));
        assert(src@.subrange(start_2 as int, src@.len() as int) =~= src@.skip(start_2 as int));
    }
    result
}

/// The compute template's `sampleObject` markers are both there.
pub open spec fn compute_template_ok(source: Seq<char>) -> bool {
    &&& first_occurrence(source, start_sample_object()) is Some
    &&& first_occurrence(source, end_sample_object()) is Some
}

/// The compute shader: the template with its `sampleObject` section replaced
/// by the user's code, cut before the user's `getColor` where there is one.
pub open spec fn compute_code(source: Seq<char>, code: Seq<char>) -> Seq<char> {
    let inserted = if first_occurrence(code, get_color_fn()) is Some {
        code.take(pos(code, get_color_fn()))
    } else {
        code
    };
    source.take(pos(source, start_sample_object())) + inserted + source.skip(
        pos(source, end_sample_object()),
    )
}

/// Replaces the `sampleObject` section of the compute shader template with the
/// user's code, leaving out the user's `getColor` function and what follows it.
pub fn replace_compute_code(source: &str, sample_object_code: &str) -> (result: String)
    requires
        compute_template_ok(source@),
    ensures
        result@ == compute_code(source@, sample_object_code@),
{
    let src = chars_of(source);
    let code = chars_of(sample_object_code);
    let start_1 = find(&src, &chars_of("//// START sampleObject")).unwrap();
    let end_1 = find(&src, &chars_of("//// END sampleObject")).unwrap();
    let mut result = String::new();
    push_chars(&mut result, &src, 0, start_1);
    match find(&code, &chars_of("fn getColor")) {
        Some(get_color) => {
            proof {
                assert(code@.subrange(0, get_color as int) =~= code@.take(get_color as int));
            }
            push_chars(&mut result, &code, 0, get_color);
        },
        None => {
            proof {
                assert(code@.subrange(0, code@.len() as int) =~= code@);
            }
            push_chars(&mut result, &code, 0, code.len());
        },
    }
    push_chars(&mut result, &src, end_1, src.len());
    proof {
        assert(src@.subrange(0, start_1 as int) =~= src@.take(start_1 as int));
        assert(src@.subrange(end_1 as int, src@.len() as int) =~= src@.skip(end_1 as int));
    }
    result
}

/// A user `getColor` never reaches the compute shader: appending
/// `fn getColor` and any text after it to code that has none leaves the
/// compute shader as it is. (`fn getColor` cannot overlap itself, so its
/// first occurrence is where it was appended.)
pub proof fn lemma_user_get_color_is_cut(source: Seq<char>, code: Seq<char>, rest: Seq<char>)
    requires
        first_occurrence(code, get_color_fn()) is None,
    ensures
        compute_code(source, code + get_color_fn() + rest) == compute_code(source, code),
{
    reveal_strlit("fn getColor");
    let g = get_color_fn();
    let full = code + g + rest;
    let n = code.len() as int;
    lemma_no_first_occurrence(code, g);
    assert(full.subrange(n, n + g.len()) =~= g);
    assert(occurs_at(full, g, n));
    assert forall|j: int| 0 <= j < n implies !#[trigger] occurs_at(full, g, j) by {
        if occurs_at(full, g, j) {
            if j + g.len() <= n {
                assert(code.subrange(j, j + g.len()) =~= full.subrange(j, j + g.len()));
                assert(occurs_at(code, g, j));
            } else {
                let m = n - j;
                assert(full.subrange(j, j + g.len())[m] == full[n]);
                assert(full[n] == g[0]);
                assert(g[m] != 'f');
            }
        }
    }
    assert(absent_before(full, g, n));
    lemma_first_occurrence(full, g, n);
    assert(full.take(n) =~= code);
}

/// The shader with its `evaluateImage` section replaced by the given code; a
/// missing marker counts as position 0. Without code, the template itself.
pub open spec fn evaluate_image_code(source: Seq<char>, code: Option<Seq<char>>) -> Seq<char> {
    match code {
        None => source,
        Some(c) => {
            let start = match first_occurrence(source, start_evaluate_image()) {
                Some(i) => i,
                None => 0,
            };
            let end = match first_occurrence(source, end_evaluate_image()) {
                Some(i) => i,
                None => 0,
            };
            source.take(start) + c + source.skip(end)
        },
    }
}

/// Replaces the `evaluateImage` section of a shader template with the given
/// code, or returns the template unchanged when there is no code.
pub fn replace_evaluate_image_code(source: &str, evaluate_image_code: Option<&str>) -> (result:
    String)
    ensures
        result@ == crate::shader_code::evaluate_image_code(
            source@,
            match evaluate_image_code {
                Some(c) => Some(c@),
                None => None,
            },
        ),
{
    let src = chars_of(source);
    match evaluate_image_code {
        None => {
            let mut result = String::new();
            push_chars(&mut result, &src, 0, src.len());
            proof {
                assert(src@.subrange(0, src@.len() as int) =~= src@);
            }
            result
        },
        Some(c) => {
            let code = chars_of(c);
            let start = match find(&src, &chars_of("//// START evaluateImage")) {
                Some(i) => i,
                None => 0,
            };
            let end = match find(&src, &chars_of("//// END evaluateImage")) {
                Some(i) => i,
                None => 0,
            };
            let mut result = String::new();
            push_chars(&mut result, &src, 0, start);
            push_chars(&mut result, &code, 0, code.len());
            push_chars(&mut result, &src, end, src.len());
            proof {
                assert(code@.subrange(0, code@.len() as int) =~= code@);
                assert(src@.subrange(0, start as int) =~= src@.take(start as int));
                assert(src@.subrange(end as int, src@.len() as int) =~= src@.skip(end as int));
            }
            result
        },
    }
}

} // verus!
