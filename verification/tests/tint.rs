use dedup::tint::{palette_dark, tint_for_placeholder, PALETTE_LEN};

#[test]
fn tint_is_deterministic() {
    for idx in 1u32..50 {
        assert_eq!(tint_for_placeholder(idx), tint_for_placeholder(idx));
    }
}

#[test]
fn tint_wraps_palette() {
    assert_eq!(
        tint_for_placeholder(1),
        tint_for_placeholder(1 + PALETTE_LEN as u32),
    );
    assert_eq!(
        tint_for_placeholder(2),
        tint_for_placeholder(2 + PALETTE_LEN as u32),
    );
}

#[test]
fn distinct_adjacent_placeholders_get_distinct_colors() {
    let colors: std::collections::HashSet<u32> =
        (1..=PALETTE_LEN as u32).map(tint_for_placeholder).collect();
    assert_eq!(
        colors.len(),
        PALETTE_LEN,
        "palette entries must all be distinct"
    );
}

#[test]
fn palette_avoids_pure_black_and_pure_white() {
    for (i, &c) in palette_dark().iter().enumerate() {
        assert_ne!(c, 0x000000, "palette[{i}] is pure black");
        assert_ne!(c, 0xffffff, "palette[{i}] is pure white");
        let r = (c >> 16) & 0xff;
        let g = (c >> 8) & 0xff;
        let b = c & 0xff;
        assert!(
            r + g + b >= 0x40,
            "palette[{i}] = {c:06x} is too close to black",
        );
    }
}

#[test]
fn tint_for_zero_does_not_panic() {
    let _ = tint_for_placeholder(0);
}
