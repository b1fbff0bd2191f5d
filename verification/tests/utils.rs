use llmperf_rs::utils::{display_width, pad_center, pad_left, pad_right};

#[test]
fn test_display_width_ascii() {
    assert_eq!(display_width("hello"), 5);
}

#[test]
fn test_display_width_cjk() {
    assert_eq!(display_width("你好"), 4);
}

#[test]
fn test_pad_right() {
    assert_eq!(pad_right("hi", 6), "hi    ");
    assert_eq!(pad_right("toolong", 3), "toolong");
}

#[test]
fn test_pad_left() {
    assert_eq!(pad_left("hi", 6), "    hi");
    assert_eq!(pad_left("toolong", 3), "toolong");
}

#[test]
fn test_pad_center() {
    assert_eq!(pad_center("hi", 6), "  hi  ");
    assert_eq!(pad_center("toolong", 3), "toolong");
}

#[test]
fn test_pad_center_cjk() {
    // "你好" has display width 4, padding to 8
    let result = pad_center("你好", 8);
    assert_eq!(display_width(&result), 8);
}

#[test]
fn odd_space_goes_behind() {
    assert_eq!(pad_center("hi", 5), " hi  ");
    assert_eq!(pad_center("", 3), "   ");
}

#[test]
fn spaces_add_to_the_width() {
    for s in ["", "a", "你", "e\u{301}", "⠋ Prefill", "\u{200d}", "👩\u{200d}👧", "\u{fe0f}", "\n", "\u{1f3fb}", "ﷺ"] {
        let w = display_width(s);
        for l in 0..3 {
            for r in 0..3 {
                let padded = format!("{}{}{}", " ".repeat(l), s, " ".repeat(r));
                assert_eq!(display_width(&padded), l + w + r, "{:?}", s);
            }
        }
    }
}

#[test]
fn padding_reaches_the_width() {
    for s in ["", "abc", "耗时(s)", "上下文", "⠋ Prefill"] {
        for width in 0..16 {
            let expected = display_width(s).max(width);
            assert_eq!(display_width(&pad_left(s, width)), expected);
            assert_eq!(display_width(&pad_right(s, width)), expected);
            assert_eq!(display_width(&pad_center(s, width)), expected);
        }
    }
}
