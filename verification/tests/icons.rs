use std::io::Cursor;

use ffwebapps::icons::{
    generated_icon_path, icon_placement, icons_pattern, largest_icon_dir, needs_generated_icon, placement_for,
    size_of_dir, IconPlacement,
};

fn png_bytes(w: u32, h: u32) -> Vec<u8> {
    let img = image::RgbaImage::new(w, h);
    let mut out = Cursor::new(Vec::new());
    img.write_to(&mut out, image::ImageFormat::Png).unwrap();
    out.into_inner()
}

#[test]
fn svg_icons_go_to_scalable_and_symbolic() {
    match placement_for("FFPWA-01", "image/svg+xml", true, true, None) {
        IconPlacement::Vector { scalable, symbolic } => {
            assert_eq!(scalable.as_deref(), Some("icons/hicolor/scalable/apps/FFPWA-01.svg"));
            assert_eq!(symbolic.as_deref(), Some("icons/hicolor/symbolic/apps/FFPWA-01-symbolic.svg"));
        }
        _ => panic!("not a vector icon"),
    }
    match placement_for("FFPWA-01", "image/svg+xml", false, false, Some((48, 48))) {
        IconPlacement::Vector { scalable, symbolic } => {
            assert_eq!(scalable, None);
            assert_eq!(symbolic, None);
        }
        _ => panic!("not a vector icon"),
    }
}

#[test]
fn raster_icons_need_purpose_any() {
    assert!(matches!(placement_for("FFPWA-01", "image/png", false, true, Some((48, 48))), IconPlacement::Skipped));
    assert!(matches!(placement_for("FFPWA-01", "image/png", true, false, None), IconPlacement::Undecodable));
    match placement_for("FFPWA-01-2", "image/png", true, false, Some((192, 96))) {
        IconPlacement::Raster { path, width, height } => {
            assert_eq!(path, "icons/hicolor/192x96/apps/FFPWA-01-2.png");
            assert_eq!((width, height), (192, 96));
        }
        _ => panic!("not a raster icon"),
    }
}

#[test]
fn downloaded_png_is_decoded_for_its_size() {
    match icon_placement("FFPWA-01", "image/png", true, false, &png_bytes(48, 32)) {
        IconPlacement::Raster { path, width, height } => {
            assert_eq!(path, "icons/hicolor/48x32/apps/FFPWA-01.png");
            assert_eq!((width, height), (48, 32));
        }
        _ => panic!("not a raster icon"),
    }
    assert!(matches!(icon_placement("FFPWA-01", "image/png", true, false, b"not an image"), IconPlacement::Undecodable));
}

#[test]
fn generated_icon_when_no_48x48() {
    let some = vec![
        IconPlacement::Raster { path: "a".to_string(), width: 96, height: 96 },
        IconPlacement::Skipped,
        IconPlacement::Vector { scalable: None, symbolic: None },
    ];
    assert!(needs_generated_icon(&some));
    assert!(needs_generated_icon(&vec![]));
    let with48 = vec![IconPlacement::Raster { path: "b".to_string(), width: 48, height: 48 }];
    assert!(!needs_generated_icon(&with48));
    assert_eq!(generated_icon_path("FFPWA-01"), "icons/hicolor/48x48/apps/FFPWA-01.png");
}

#[test]
fn icon_glob_pattern() {
    assert_eq!(icons_pattern("/home/me/.local/share", "FFPWA-01"), "/home/me/.local/share/icons/hicolor/*/apps/FFPWA-01*");
}

#[test]
fn largest_icon_directory_wins() {
    let names: Vec<String> = ["48x48", "scalable", "512x512", "256x256", "symbolic", "192x192"]
        .iter()
        .map(|s| s.to_string())
        .collect();
    assert_eq!(largest_icon_dir(&names), Some(2));
    let ties: Vec<String> = ["64x64", "128x128", "128x128"].iter().map(|s| s.to_string()).collect();
    assert_eq!(largest_icon_dir(&ties), Some(1));
    let none: Vec<String> = ["scalable", "symbolic", "x", "+4x4"].iter().map(|s| s.to_string()).collect();
    assert_eq!(largest_icon_dir(&none), None);
    assert_eq!(largest_icon_dir(&vec![]), None);
    assert_eq!(size_of_dir("96x48"), Some((96, 48)));
    assert_eq!(size_of_dir("96x"), None);
    assert_eq!(size_of_dir("4294967296x1"), None);
    assert_eq!(size_of_dir("scalable"), None);
}

#[test]
fn removal_pattern_covers_installed_icons() {
    let data = "/home/me/.local/share";
    let pattern = glob::Pattern::new(&icons_pattern(data, "FFPWA-01")).unwrap();
    let mut paths = vec![generated_icon_path("FFPWA-01"), generated_icon_path("FFPWA-01-3")];
    if let IconPlacement::Vector { scalable: Some(a), symbolic: Some(b) } =
        placement_for("FFPWA-01-0", "image/svg+xml", true, true, None)
    {
        paths.push(a);
        paths.push(b);
    }
    if let IconPlacement::Raster { path, .. } = placement_for("FFPWA-01", "image/png", true, false, Some((512, 512))) {
        paths.push(path);
    }
    assert_eq!(paths.len(), 5);
    for p in paths {
        assert!(pattern.matches(&format!("{data}/{p}")), "{p} escapes the pattern");
    }
}
