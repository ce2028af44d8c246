use alpha_fix::{has_no_separator, save_stem_of, Cli};
use std::path::PathBuf;

fn cli(append: Option<&str>, dir: Option<&str>, opaque: bool) -> Cli {
    Cli {
        paths: Vec::new(),
        append: append.map(|s| s.to_string()),
        dir: dir.map(|s| s.to_string()),
        opaque,
        verbose: false,
        auto: false,
    }
}

#[test]
fn cli_get_save_path_0() {
    let cli: Cli = Cli {
        paths: Vec::new(),
        append: Some("_fix".to_string()),
        dir: Some("D:/idk/".to_string()),
        opaque: false,
        verbose: false,
        auto: false,
    };

    let in_path = PathBuf::from("homework/hentai/blurry.png");
    let out_path = PathBuf::from(cli.get_save_path(in_path.to_str().unwrap()));
    let expect_path = PathBuf::from("D:/idk/blurry_fix.png");
    assert_eq!(out_path, expect_path);
}

#[test]
fn cli_get_save_path_1() {
    let cli: Cli = Cli {
        paths: Vec::new(),
        append: Some("_fix".to_string()),
        dir: Some("D:/idk/".to_string()),
        opaque: true,
        verbose: false,
        auto: false,
    };

    let in_path = PathBuf::from("homework/hentai/blurry.png");
    let out_path = PathBuf::from(cli.get_save_path(in_path.to_str().unwrap()));
    let expect_path = PathBuf::from("D:/idk/blurry_fix_opaque.png");
    assert_eq!(out_path, expect_path);
}

#[test]
fn save_path_is_the_input_when_no_option_is_set() {
    let c = cli(None, None, false);
    assert_eq!(c.get_save_path("homework/art/blurry.png"), "homework/art/blurry.png");
    assert_eq!(c.get_save_path("no_extension"), "no_extension");
    assert_eq!(c.get_save_path(""), "");
}

#[test]
fn save_path_spelled_out() {
    let c = cli(Some("_fix"), Some("out"), false);
    assert_eq!(c.get_save_path("homework/art/blurry.png"), "out/blurry_fix.png");
}

#[test]
fn save_path_defaults_to_fixed() {
    let c = cli(None, Some("out"), false);
    assert_eq!(c.get_save_path("a/b.png"), "out/b_fixed.png");
}

#[test]
fn save_path_defaults_to_the_parent_of_the_input() {
    let c = cli(Some("_x"), None, false);
    assert_eq!(c.get_save_path("a/b/c.png"), "a/b/c_x.png");
    assert_eq!(c.get_save_path("c.png"), "c_x.png");
}

#[test]
fn save_path_with_opaque_only() {
    let c = cli(None, None, true);
    assert_eq!(c.get_save_path("a/b.png"), "a/b_fixed_opaque.png");
}

#[test]
fn save_path_keeps_the_last_extension_only() {
    let c = cli(Some("_f"), Some("o"), false);
    assert_eq!(c.get_save_path("a/b.tar.png"), "o/b.png");
}

#[test]
fn absolute_directory_replaces_nothing_before_it() {
    let c = cli(Some("_f"), Some("/tmp/out"), true);
    assert_eq!(c.get_save_path("x/y.png"), "/tmp/out/y_f_opaque.png");
}

#[test]
fn try_get_save_path_agrees_where_a_path_can_be_derived() {
    let c = cli(Some("_fix"), Some("D:/idk/"), true);
    assert_eq!(
        c.try_get_save_path("homework/art/blurry.png"),
        Some("D:/idk/blurry_fix_opaque.png".to_string())
    );
    let plain = cli(None, None, false);
    assert_eq!(plain.try_get_save_path("whatever"), Some("whatever".to_string()));
}

#[test]
fn try_get_save_path_is_none_without_extension() {
    let c = cli(Some("_fix"), None, false);
    assert_eq!(c.try_get_save_path("a/b"), None);
    assert_eq!(c.try_get_save_path(".hidden"), None);
}

#[test]
fn try_get_save_path_is_none_without_file_name() {
    let c = cli(None, Some("out"), false);
    assert_eq!(c.try_get_save_path("/"), None);
    assert_eq!(c.try_get_save_path(""), None);
    assert_eq!(c.try_get_save_path("a/.."), None);
}

#[test]
fn open_path_is_the_argument() {
    let c = cli(None, None, false);
    assert_eq!(c.get_open_path("test/pngs/gummy_worm_idk.png"), "test/pngs/gummy_worm_idk.png");
    assert_eq!(PathBuf::from(c.get_open_path("a/b.png")), PathBuf::from("a/b.png"));
}

#[test]
fn save_stem_takes_the_given_suffix() {
    assert_eq!(save_stem_of("blurry", &Some("_fix".to_string()), false), "blurry_fix");
    assert_eq!(save_stem_of("blurry", &Some(String::new()), false), "blurry");
}

#[test]
fn save_stem_defaults_to_fixed() {
    assert_eq!(save_stem_of("blurry", &None, false), "blurry_fixed");
    assert_eq!(save_stem_of("", &None, false), "_fixed");
}

#[test]
fn save_stem_ends_in_opaque_when_made_opaque() {
    assert_eq!(save_stem_of("blurry", &Some("_fix".to_string()), true), "blurry_fix_opaque");
    assert_eq!(save_stem_of("blurry", &None, true), "blurry_fixed_opaque");
    assert_eq!(
        save_stem_of("b", &None, true),
        format!("{}{}", save_stem_of("b", &None, false), "_opaque")
    );
}

#[test]
fn save_path_from_parts_prefers_the_directory_option() {
    let c = cli(Some("_fix"), Some("D:/idk/"), false);
    assert_eq!(c.save_path_from_parts("homework/art", "blurry", "png"), "D:/idk/blurry_fix.png");
}

#[test]
fn save_path_from_parts_falls_back_to_the_parent() {
    let c = cli(None, None, true);
    assert_eq!(
        c.save_path_from_parts("homework/art", "blurry", "png"),
        "homework/art/blurry_fixed_opaque.png"
    );
    assert_eq!(c.save_path_from_parts("", "blurry", "png"), "blurry_fixed_opaque.png");
}

#[test]
fn save_path_from_parts_agrees_with_get_save_path() {
    let c = cli(Some("_x"), None, true);
    assert_eq!(c.save_path_from_parts("a/b", "c", "png"), c.get_save_path("a/b/c.png"));
}

#[test]
fn separators_are_found() {
    assert!(has_no_separator("png"));
    assert!(has_no_separator(""));
    assert!(has_no_separator("tar.gz"));
    assert!(!has_no_separator("a/b"));
    assert!(!has_no_separator("/"));
    assert!(!has_no_separator("png/"));
    assert_eq!(has_no_separator("a\\b"), !std::path::is_separator('\\'));
}
