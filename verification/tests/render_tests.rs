use codeflow::render::{
    default_png_path, default_png_path_from_input, edge_label_text, output_with_suffix, pick_label_anchor,
    truncate_ellipsis, wrap_text_approx, LabelAnchor, crop_rect, label_kind,
};

#[test]
fn wrapping_fills_lines_greedily() {
    assert_eq!(wrap_text_approx("the quick brown fox", 9), vec!["the quick", "brown fox"]);
    assert_eq!(wrap_text_approx("", 10), vec![""]);
    assert_eq!(wrap_text_approx("   ", 10), vec![""]);
    assert_eq!(wrap_text_approx("supercalifragilistic ok", 5), vec!["supercalifragilistic", "ok"]);
    assert_eq!(wrap_text_approx("\u{e9} \u{e9}", 3), vec!["\u{e9}", "\u{e9}"]);
    assert_eq!(wrap_text_approx("\u{e9} \u{e9}", 5), vec!["\u{e9} \u{e9}"]);
}

#[test]
fn wrapping_keeps_every_word() {
    let text = "one  two three\tfour five six seven";
    let lines = wrap_text_approx(text, 10);
    assert_eq!(lines.join(" "), "one two three four five six seven");
    assert!(lines.iter().all(|l| l.len() <= 10));
}

#[test]
fn ellipsis_truncation() {
    assert_eq!(truncate_ellipsis("abcdef", 5), "ab...");
    assert_eq!(truncate_ellipsis("abc", 5), "abc");
    assert_eq!(truncate_ellipsis("abcdef", 2), "...");
    assert_eq!(truncate_ellipsis("abcd", 3), "...");
    assert_eq!(truncate_ellipsis("\u{e9}\u{e9}\u{e9}\u{e9}\u{e9}", 4), "\u{e9}...");
    assert!(truncate_ellipsis("a long label indeed", 8).chars().count() <= 8);
}

#[test]
fn edge_label_texts() {
    assert_eq!(edge_label_text(&Some(" Done ".to_string())), Some("loop done".to_string()));
    assert_eq!(edge_label_text(&Some("next".to_string())), Some("loop back".to_string()));
    assert_eq!(edge_label_text(&Some("enter".to_string())), None);
    assert_eq!(edge_label_text(&Some("  ".to_string())), None);
    assert_eq!(edge_label_text(&None), None);
    assert_eq!(edge_label_text(&Some(" Yes".to_string())), Some(" Yes".to_string()));
}

#[test]
fn label_anchor_choices() {
    assert!(matches!(pick_label_anchor(&[(0, 0), (100, 0), (100, 50)], true, false), LabelAnchor::At((50, -14))));
    assert!(matches!(pick_label_anchor(&[(0, 0), (0, 100)], true, false), LabelAnchor::At((10, 40))));
    assert!(matches!(
        pick_label_anchor(&[(0, 0), (100, 0), (100, 100), (200, 100)], false, true),
        LabelAnchor::LateHorizontal((100, 100), (200, 100))
    ));
    assert!(matches!(pick_label_anchor(&[(0, 0), (0, 100)], false, true), LabelAnchor::LateVertical((0, 0), (0, 100))));
    assert!(matches!(pick_label_anchor(&[(0, 0), (10, 0), (10, 5)], false, false), LabelAnchor::At((5, -14))));
    assert!(matches!(pick_label_anchor(&[(0, 0), (0, 10)], false, false), LabelAnchor::At((8, -7))));
    assert!(matches!(pick_label_anchor(&[], true, true), LabelAnchor::At((0, 0))));
    assert!(matches!(pick_label_anchor(&[(-5, 0), (-50, 0)], true, false), LabelAnchor::At((-27, -14))));
    assert!(matches!(
        pick_label_anchor(&[(0, 0), (5, 0), (5, 10), (40, 10), (40, 20)], false, false),
        LabelAnchor::At((22, -4))
    ));
}

#[test]
fn default_image_paths() {
    assert_eq!(default_png_path(Some("dir"), Some("prog")), "dir/prog_flowchart.png");
    assert_eq!(default_png_path(Some(""), Some("p")), "p_flowchart.png");
    assert_eq!(default_png_path(None, None), "./flowchart_flowchart.png");
    assert_eq!(default_png_path(Some("/"), Some("x")), "/x_flowchart.png");
    assert_eq!(default_png_path_from_input(Some("src"), Some("main")), "src/main_flowchart.png");
}

#[test]
fn layer_paths() {
    assert_eq!(output_with_suffix(Some("out"), Some("chart"), Some("png"), "blocks"), "out/chart_blocks.png");
    assert_eq!(output_with_suffix(None, None, None, "text"), "./flowchart_text.png");
    assert_eq!(output_with_suffix(Some("a/"), Some("c"), Some("jpg"), "arrows"), "a/c_arrows.jpg");
}

#[test]
fn label_kinds_and_crop() {
    assert_eq!(label_kind(" Yes "), (true, false));
    assert_eq!(label_kind("elseif"), (true, true));
    assert_eq!(label_kind("loop back"), (true, false));
    assert_eq!(label_kind("x > 0"), (false, false));
    assert_eq!(crop_rect(100, 200, 500, 600, 1000, 1000), Some((28, 128, 572, 672)));
    assert_eq!(crop_rect(10, 10, 990, 990, 1000, 1000), Some((0, 0, 999, 999)));
    assert_eq!(crop_rect(500, 500, 400, 400, 100, 100), None);
}
