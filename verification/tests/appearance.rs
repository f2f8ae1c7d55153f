use ffwebapps::appearance::{apply_appearance, parse_hex, Appearance};

#[test]
fn parse_hex_reads_colours() {
    assert_eq!(parse_hex("#14141a"), (20, 20, 26));
    assert_eq!(parse_hex("  #FFFFFF "), (255, 255, 255));
    assert_eq!(parse_hex("##3584e4"), (53, 132, 228));
    assert_eq!(parse_hex("3584e4"), (53, 132, 228));
    assert_eq!(parse_hex("#+f+f+f"), (15, 15, 15));
}

#[test]
fn parse_hex_falls_back_to_default_tint() {
    assert_eq!(parse_hex("zz"), (20, 20, 26));
    assert_eq!(parse_hex("#12345"), (20, 20, 26));
    assert_eq!(parse_hex("#12345g"), (20, 20, 26));
    assert_eq!(parse_hex(""), (20, 20, 26));
}

#[test]
fn default_appearance() {
    let a = Appearance::default();
    assert_eq!(a.opacity, 92);
    assert_eq!(a.glass, "#14141a");
    assert_eq!(a.accent, "#3584e4");
}

#[test]
fn css_of_default_appearance() {
    let css = apply_appearance(&Appearance::default());
    assert_eq!(
        css,
        "@define-color accent_bg_color #3584e4;@define-color accent_color #3584e4;@define-color accent_fg_color #ffffff;window { background-color: rgba(20,20,26,0.920); }"
    );
}

#[test]
fn css_alpha_matches_three_decimal_formatting() {
    for opacity in 0u8..=255 {
        let a = Appearance { opacity, glass: "#000000".to_string(), accent: "#ffffff".to_string() };
        let alpha = f64::from(opacity.min(100)) / 100.0;
        let expected = format!(
            "@define-color accent_bg_color #ffffff;@define-color accent_color #ffffff;@define-color accent_fg_color #ffffff;window {{ background-color: rgba(0,0,0,{alpha:.3}); }}"
        );
        assert_eq!(apply_appearance(&a), expected);
    }
}
