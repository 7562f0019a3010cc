use parametric_renderer::shader_code::{
    replace_compute_code, replace_evaluate_image_code, replace_render_code,
};

const RENDER: &str = "head\n//// START sampleObject\nold sample\n//// END sampleObject\nmid\n//// START getColor\nold color\n//// END getColor\ntail";
const COMPUTE: &str = "head\n//// START sampleObject\nold\n//// END sampleObject\ntail";

#[test]
fn render_code_keeps_template_color() {
    let out = replace_render_code(RENDER, "NEW\n");
    assert_eq!(
        out,
        "head\nNEW\n//// END sampleObject\nmid\n//// START getColor\nold color\n//// END getColor\ntail"
    );
}

#[test]
fn render_code_with_user_color() {
    let out = replace_render_code(RENDER, "NEW\nfn getColor() {}\n");
    assert_eq!(out, "head\nNEW\nfn getColor() {}\n//// END sampleObject\nmid\n//// END getColor\ntail");
}

#[test]
fn compute_code_cuts_user_color() {
    assert_eq!(replace_compute_code(COMPUTE, "A\n"), "head\nA\n//// END sampleObject\ntail");
    assert_eq!(
        replace_compute_code(COMPUTE, "A\nfn getColor() {}\n"),
        "head\nA\n//// END sampleObject\ntail"
    );
}

#[test]
fn evaluate_image_code() {
    let src = "a\n//// START evaluateImage\nold\n//// END evaluateImage\nb";
    assert_eq!(replace_evaluate_image_code(src, None), src);
    assert_eq!(
        replace_evaluate_image_code(src, Some("new\n")),
        "a\nnew\n//// END evaluateImage\nb"
    );
    // Without markers both positions count as 0: the code is prepended.
    assert_eq!(replace_evaluate_image_code("xyz", Some("c")), "cxyz");
}

#[test]
fn user_get_color_and_what_follows_never_reach_the_compute_shader() {
    let code = "A\nlet fn ge = 1;\n";
    for rest in ["", "() {}\n", "() {}\nfn getColor() {}\nmore"] {
        let with_color = format!("{code}fn getColor{rest}");
        assert_eq!(replace_compute_code(COMPUTE, &with_color), replace_compute_code(COMPUTE, code));
    }
}
