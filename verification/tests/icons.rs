use ledalert::app_icons::{join, join_each, nodes_safe, rgba_from, svg_is_safe, PngColor, SvgAttribute, SvgNode};
use ledalert::app_icons::{
    configured_theme, data_directories, ini, ini_value, local_fragment, parse_theme, parse_u32,
    safe_component, safe_css_resources, safe_theme, text_from, unique_absolute, unpremultiply,
    AppIcon, Environment, IconResolver,
};
use std::cell::RefCell;
use std::collections::HashMap;

fn strings(v: &[&str]) -> Vec<String> {
    v.iter().map(|s| s.to_string()).collect()
}

#[test]
fn components_and_theme_names_are_single_safe_names() {
    assert!(safe_component("firefox"));
    assert!(safe_component("Signal Desktop"));
    assert!(!safe_component(""));
    assert!(!safe_component(".."));
    assert!(!safe_component("a/b"));
    assert!(!safe_component("$HOME"));
    assert!(!safe_component(" x"));
    assert!(!safe_component(&"a".repeat(256)));
    assert!(safe_theme("breeze-dark"));
    assert!(!safe_theme("Breeze Dark"));
    assert!(!safe_theme("a,b"));
    assert!(!safe_theme("thème"));
}

#[test]
fn svg_references_must_stay_inside_the_document() {
    assert!(local_fragment("#gradient"));
    assert!(!local_fragment("#"));
    assert!(!local_fragment("gradient"));
    assert!(!local_fragment("#a b"));
    assert!(safe_css_resources("fill: URL( '#g' )"));
    assert!(safe_css_resources("no urls at all"));
    assert!(!safe_css_resources("fill: url(http://x/y)"));
    assert!(!safe_css_resources("fill: url(#g"));
    assert!(!safe_css_resources("@import 'x'"));
    assert!(!safe_css_resources("a /* b */"));
    assert!(!safe_css_resources("\\75rl(x)"));
}

#[test]
fn unpremultiplying_rounds_saturates_and_keeps_alpha() {
    let mut pixels = vec![64, 32, 0, 128, 10, 10, 10, 0, 200, 200, 200, 100, 7];
    unpremultiply(&mut pixels);
    assert_eq!(pixels, vec![128, 64, 0, 128, 0, 0, 0, 0, 255, 255, 255, 100, 7]);
}

#[test]
fn ini_keeps_the_last_assignment_per_group() {
    let entries = ini("# comment\n[Icon Theme]\nName = Breeze \n; note\nName=Other\n[48x48/apps]\nSize=48\nbroken line\n");
    assert_eq!(ini_value(&entries, "Icon Theme", "Name").as_deref(), Some("Other"));
    assert_eq!(ini_value(&entries, "48x48/apps", "Size").as_deref(), Some("48"));
    assert_eq!(ini_value(&entries, "48x48/apps", "Name"), None);
}

#[test]
fn numbers_parse_as_unsigned_decimal() {
    assert_eq!(parse_u32("48"), Some(48));
    assert_eq!(parse_u32("+7"), Some(7));
    assert_eq!(parse_u32("4294967295"), Some(u32::MAX));
    assert_eq!(parse_u32("4294967296"), None);
    assert_eq!(parse_u32(""), None);
    assert_eq!(parse_u32("-1"), None);
    assert_eq!(parse_u32("1x"), None);
}

const THEME: &str = "[Icon Theme]
Name=Test
Inherits=breeze,hicolor,bad theme
Directories=16x16/apps,64x64/apps,scalable/apps,../escape,48x48/apps,128x128/apps,missing

[16x16/apps]
Size=16
Type=Fixed

[64x64/apps]
Size=64
Type=Fixed

[scalable/apps]
Size=48
Type=Scalable
MinSize=8
MaxSize=512

[../escape]
Size=64

[48x48/apps]
Size=48

[128x128/apps]
Size=128
Type=Threshold
Threshold=2
";

#[test]
fn theme_directories_are_ordered_for_a_64_pixel_icon() {
    let theme = parse_theme(THEME).unwrap();
    assert_eq!(
        theme.directories,
        strings(&["64x64/apps", "scalable/apps", "48x48/apps", "16x16/apps", "128x128/apps"])
    );
    assert_eq!(theme.inherits, strings(&["breeze", "hicolor"]));
    assert!(parse_theme("[Other]\nA=1\n").is_none());
    assert!(parse_theme("[Icon Theme]\nDirectories=a\n[a]\nSize=8\nType=Scalable\nMinSize=x\n").is_none());
}

#[test]
fn repeated_and_relative_roots_are_dropped() {
    let roots = unique_absolute(strings(&["/usr/share/icons", "relative", "/usr//share/icons/", "/opt/icons"]));
    assert_eq!(roots, strings(&["/usr/share/icons", "/opt/icons"]));
}

#[test]
fn an_unsafe_theme_name_falls_back_to_hicolor() {
    let tree: HashMap<String, String> = HashMap::new();
    let mut resolver = IconResolver::new("../x", strings(&["/icons"]), Vec::new());
    // The only index is hicolor's: the unsafe theme name was never used.
    let probes = RefCell::new(Vec::new());
    let present = |path: &str| {
        probes.borrow_mut().push(path.to_string());
        tree.contains_key(path)
    };
    let read = |_: &str| None;
    let decode = |_: &str| None;
    assert!(resolver.resolve("app", &present, &read, &decode).is_none());
    assert!(probes.borrow().iter().all(|p| !p.contains("../x")));
    assert!(probes.borrow().iter().any(|p| p == "/icons/hicolor/index.theme"));
}

fn icon(width: usize) -> AppIcon {
    AppIcon { width, height: width, rgba: vec![0; width * width * 4], dominant: [1, 2, 3] }
}

#[test]
fn icons_are_found_in_theme_order_then_fallbacks() {
    let mut files: HashMap<String, Vec<u8>> = HashMap::new();
    files.insert("/icons/mytheme/index.theme".into(), b"[Icon Theme]\nInherits=parent\nDirectories=32x32/apps\n[32x32/apps]\nSize=32\n".to_vec());
    files.insert("/icons/parent/index.theme".into(), b"[Icon Theme]\nDirectories=64x64/apps\n[64x64/apps]\nSize=64\n".to_vec());
    files.insert("/icons/parent/64x64/apps/app.svg".into(), Vec::new());
    files.insert("/pixmaps/other.png".into(), Vec::new());
    let mut resolver = IconResolver::new("mytheme", strings(&["/icons"]), strings(&["/pixmaps"]));
    let present = |path: &str| files.contains_key(path);
    let read = |path: &str| files.get(path).cloned();
    let decoded = RefCell::new(Vec::new());
    let decode = |path: &str| {
        decoded.borrow_mut().push(path.to_string());
        Some(icon(64))
    };
    assert!(resolver.resolve("app", &present, &read, &decode).is_some());
    assert!(resolver.resolve("other", &present, &read, &decode).is_some());
    assert!(resolver.resolve("/abs/icon.png", &present, &read, &decode).is_some());
    assert!(resolver.resolve("missing", &present, &read, &decode).is_none());
    assert!(resolver.resolve("a/b", &present, &read, &decode).is_none());
    assert!(resolver.resolve("", &present, &read, &decode).is_none());
    assert_eq!(
        *decoded.borrow(),
        strings(&["/icons/parent/64x64/apps/app.svg", "/pixmaps/other.png", "/abs/icon.png"])
    );
}

#[test]
fn the_environment_decides_roots_and_theme() {
    let env = Environment {
        home: Some("/home/u".into()),
        config_home: None,
        config_dirs: Some("".into()),
        data_home: Some("relative".into()),
        data_dirs: Some("/usr/share:relative:/usr/share/".into()),
    };
    assert_eq!(data_directories(&env), strings(&["/home/u/.local/share", "/usr/share"]));
    let read = |path: &str| {
        (path == "/home/u/.config/kdeglobals").then(|| b"[Icons]\nTheme=breeze\n".to_vec())
    };
    let resolver = IconResolver::from_environment(&env, &read);
    let probes = RefCell::new(Vec::new());
    let mut resolver = resolver;
    let present = |path: &str| {
        probes.borrow_mut().push(path.to_string());
        false
    };
    assert!(resolver.resolve("x", &present, &|_: &str| None, &|_: &str| None).is_none());
    let seen = probes.borrow();
    assert_eq!(seen[0], "/home/u/.icons/breeze/index.theme");
    assert!(seen.contains(&"/usr/share/pixmaps/x.svg".to_string()));
}

#[test]
fn deletion_flags_and_unsafe_names_select_hicolor() {
    let configs = strings(&["/c"]);
    let flagged = |path: &str| (path == "/c/kdeglobals").then(|| b"[Icons]\nTheme[$d]=\nTheme=breeze\n".to_vec());
    assert_eq!(configured_theme(&configs, &flagged).as_deref(), Some("hicolor"));
    let gtk = |path: &str| (path == "/c/gtk-3.0/settings.ini").then(|| b"[Settings]\ngtk-icon-theme-name=Adwaita\n".to_vec());
    assert_eq!(configured_theme(&configs, &gtk).as_deref(), Some("Adwaita"));
    let unsafe_name = |path: &str| (path == "/c/kdeglobals").then(|| b"[Icons]\nTheme=a/b\n".to_vec());
    assert_eq!(configured_theme(&configs, &unsafe_name).as_deref(), Some("hicolor"));
    assert_eq!(configured_theme(&configs, &|_: &str| None), None);
    assert_eq!(text_from(Some(vec![0xff])), None);
    assert_eq!(text_from(Some(vec![b'a'; 128 * 1024 + 1])), None);
}

fn encode_png(width: u32, height: u32, color: png::ColorType, data: &[u8]) -> Vec<u8> {
    let mut bytes = Vec::new();
    {
        let mut encoder = png::Encoder::new(&mut bytes, width, height);
        encoder.set_color(color);
        encoder.set_depth(png::BitDepth::Eight);
        let mut writer = encoder.write_header().unwrap();
        writer.write_image_data(data).unwrap();
    }
    bytes
}

#[test]
fn png_files_decode_to_rgba_pixels() {
    let rgb = encode_png(2, 1, png::ColorType::Rgb, &[10, 20, 30, 40, 50, 60]);
    let (width, height, rgba) = ledalert::app_icons::decode_png(&rgb).unwrap();
    assert_eq!((width, height), (2, 1));
    assert_eq!(rgba, vec![10, 20, 30, 255, 40, 50, 60, 255]);
    let gray = encode_png(1, 2, png::ColorType::GrayscaleAlpha, &[7, 100, 9, 200]);
    let (_, _, rgba) = ledalert::app_icons::decode_png(&gray).unwrap();
    assert_eq!(rgba, vec![7, 7, 7, 100, 9, 9, 9, 200]);
    assert!(ledalert::app_icons::decode_png(b"not a png").is_none());
    let wide = encode_png(1025, 1, png::ColorType::Grayscale, &[0; 1025]);
    assert!(ledalert::app_icons::decode_png(&wide).is_none());
}

#[test]
fn samples_expand_to_rgba_and_palettes_are_refused() {
    assert_eq!(rgba_from(PngColor::Grayscale, vec![5, 6]), Some(vec![5, 5, 5, 255, 6, 6, 6, 255]));
    assert_eq!(rgba_from(PngColor::Rgb, vec![1, 2, 3, 4]), Some(vec![1, 2, 3, 255]));
    assert_eq!(rgba_from(PngColor::Rgba, vec![1, 2, 3, 4]), Some(vec![1, 2, 3, 4]));
    assert_eq!(rgba_from(PngColor::Indexed, vec![1]), None);
}

#[test]
fn joining_adds_one_separator_like_a_path() {
    assert_eq!(join("/usr/share", "icons"), "/usr/share/icons");
    assert_eq!(join("/usr/share/", "icons"), "/usr/share/icons");
    assert_eq!(join("", "icons"), "icons");
    assert_eq!(join_each(&vec!["/a".to_string(), "/b/".to_string()], "icons"), vec!["/a/icons", "/b/icons"]);
}

#[test]
fn absolute_paths_need_an_icon_extension_and_icons_a_bounded_shape() {
    let mut resolver = IconResolver::new("hicolor", strings(&["/icons"]), Vec::new());
    let decoded = RefCell::new(Vec::new());
    let decode = |path: &str| {
        decoded.borrow_mut().push(path.to_string());
        if path.contains("big") { Some(icon(65)) } else { Some(icon(64)) }
    };
    let present = |_: &str| false;
    let read = |_: &str| None;
    assert!(resolver.resolve("/abs/icon.xpm", &present, &read, &decode).is_none());
    assert!(resolver.resolve("/abs/.png", &present, &read, &decode).is_none());
    assert!(resolver.resolve("/abs/..png", &present, &read, &decode).is_some());
    assert!(resolver.resolve("/abs/big.svg", &present, &read, &decode).is_none());
    let shaped = resolver.resolve("/abs/icon.svg", &present, &read, &decode).unwrap();
    assert_eq!((shaped.width, shaped.height, shaped.rgba.len()), (64, 64, 64 * 64 * 4));
    assert_eq!(*decoded.borrow(), strings(&["/abs/..png", "/abs/big.svg", "/abs/icon.svg"]));
}

#[test]
fn a_corrupt_first_match_gives_no_icon() {
    let mut files: HashMap<String, Vec<u8>> = HashMap::new();
    files.insert("/icons/hicolor/index.theme".into(), b"[Icon Theme]\nDirectories=64x64/apps\n[64x64/apps]\nSize=64\n".to_vec());
    files.insert("/icons/hicolor/64x64/apps/app.png".into(), Vec::new());
    files.insert("/pixmaps/app.png".into(), Vec::new());
    let mut resolver = IconResolver::new("hicolor", strings(&["/icons"]), strings(&["/pixmaps"]));
    let present = |path: &str| files.contains_key(path);
    let read = |path: &str| files.get(path).cloned();
    let decoded = RefCell::new(Vec::new());
    let decode = |path: &str| {
        decoded.borrow_mut().push(path.to_string());
        if path.starts_with("/pixmaps") { Some(icon(64)) } else { None }
    };
    assert!(resolver.resolve("app", &present, &read, &decode).is_none());
    assert_eq!(*decoded.borrow(), strings(&["/icons/hicolor/64x64/apps/app.png"]));
}

#[test]
fn only_self_contained_svg_is_rendered() {
    let svg = |body: &str| format!("<svg xmlns=\"http://www.w3.org/2000/svg\">{body}</svg>");
    assert!(svg_is_safe(&svg("<defs><linearGradient id=\"g\"/></defs><rect fill=\"url(#g)\" width=\"4\" height=\"4\"/>")));
    assert!(!svg_is_safe(&svg("<script>alert(1)</script>")));
    assert!(!svg_is_safe(&svg("<foreignObject/>")));
    assert!(!svg_is_safe(&svg("<rect onload=\"x()\"/>")));
    assert!(!svg_is_safe(&svg("<use href=\"http://example.com/a.svg#x\"/>")));
    assert!(svg_is_safe(&svg("<use href=\"#x\"/>")));
    assert!(!svg_is_safe(&svg("<rect style=\"fill:url(http://example.com/p)\"/>")));
    assert!(!svg_is_safe(&svg("<style>rect { fill: url(http://example.com/p) }</style>")));
    assert!(svg_is_safe(&svg("<style>rect { fill: red }</style>")));
    assert!(!svg_is_safe(&svg("<?pi data?>")));
    assert!(!svg_is_safe("<!DOCTYPE svg><svg/>"));
    assert!(!svg_is_safe("<svg"));
    assert!(!svg_is_safe(&svg("<g xml:base=\"http://example.com/\"/>")));
    // The root and the document node count: 62 nested groups inside <svg> reach depth 64.
    let nested = |n: usize| svg(&format!("{}{}", "<g>".repeat(n), "</g>".repeat(n)));
    assert!(svg_is_safe(&nested(62)));
    assert!(!svg_is_safe(&nested(63)));
}

fn svg_node(parent: Option<usize>, tag: &str, attributes: &[(&str, &str)], texts: Vec<Option<String>>) -> SvgNode {
    SvgNode {
        instruction: false,
        element: parent.is_some(),
        parent,
        tag: tag.into(),
        attributes: attributes
            .iter()
            .map(|(n, v)| SvgAttribute { name: (*n).into(), namespace: None, value: (*v).into() })
            .collect(),
        texts,
    }
}

#[test]
fn node_lists_are_checked_node_by_node() {
    let root = svg_node(None, "", &[], Vec::new());
    let svg = svg_node(Some(0), "svg", &[("width", "4")], Vec::new());
    assert!(nodes_safe(&vec![root, svg]));
    let nodes = vec![svg_node(None, "", &[], Vec::new()), svg_node(Some(0), "svg", &[("onclick", "x()")], Vec::new())];
    assert!(!nodes_safe(&nodes));
    let nodes = vec![
        svg_node(None, "", &[], Vec::new()),
        svg_node(Some(0), "style", &[], vec![Some("a { fill: url(http://x/y) }".into())]),
    ];
    assert!(!nodes_safe(&nodes));
    // A chain of 65 nodes is too deep; 64 is not.
    let chain = |n: usize| {
        (0..n).map(|i| svg_node(if i == 0 { None } else { Some(i - 1) }, "g", &[], Vec::new())).collect::<Vec<_>>()
    };
    assert!(nodes_safe(&chain(64)));
    assert!(!nodes_safe(&chain(65)));
    let mut pi = svg_node(Some(0), "", &[], Vec::new());
    pi.instruction = true;
    pi.element = false;
    assert!(!nodes_safe(&vec![svg_node(None, "", &[], Vec::new()), pi]));
}
