use flashcode::config::{Config, FileConfig};
use flashcode::ui::{cyan, diff_line, dim, green, paint, red, yellow};

fn file(key: Option<&str>, url: Option<&str>, model: Option<&str>) -> FileConfig {
    FileConfig {
        api_key: key.map(String::from),
        base_url: url.map(String::from),
        model: model.map(String::from),
    }
}

#[test]
fn env_wins_over_file_and_defaults() {
    let c = Config::resolve(
        Some("env-key".to_string()),
        None,
        None,
        file(Some("file-key"), Some("https://example.com//"), None),
    )
    .unwrap();
    assert_eq!(c.api_key, "env-key");
    assert_eq!(c.base_url, "https://example.com");
    assert_eq!(c.model, "deepseek-v4-flash");
}

#[test]
fn empty_env_falls_back_to_file() {
    let c = Config::resolve(Some(String::new()), Some(String::new()), Some("m".to_string()), file(Some("k"), None, Some("fm")))
        .unwrap();
    assert_eq!(c.api_key, "k");
    assert_eq!(c.base_url, "https://api.deepseek.com");
    assert_eq!(c.model, "m");
}

#[test]
fn missing_key_is_an_error() {
    let e = Config::resolve(None, None, None, file(None, None, None)).err().unwrap();
    assert_eq!(
        e,
        "no API key found: set DEEPSEEK_API_KEY or `api_key` in ~/.config/flashcode/config.toml"
    );
}

#[test]
fn colors_wrap_when_enabled() {
    assert_eq!(paint(true, "36", "x"), "\u{1b}[36mx\u{1b}[0m");
    assert_eq!(paint(false, "36", "x"), "x");
    assert_eq!(dim(true, "a"), "\u{1b}[2ma\u{1b}[0m");
    assert_eq!(cyan(true, "a"), "\u{1b}[36ma\u{1b}[0m");
    assert_eq!(yellow(true, "a"), "\u{1b}[33ma\u{1b}[0m");
    assert_eq!(green(false, "a"), "a");
    assert_eq!(red(true, "a"), "\u{1b}[31ma\u{1b}[0m");
}

#[test]
fn diff_lines_colored_by_marker() {
    assert_eq!(diff_line(true, "  + added"), "\u{1b}[32m  + added\u{1b}[0m");
    assert_eq!(diff_line(true, "  - gone"), "\u{1b}[31m  - gone\u{1b}[0m");
    assert_eq!(diff_line(true, "edit f:"), "\u{1b}[2medit f:\u{1b}[0m");
    assert_eq!(diff_line(false, "+x"), "+x");
}
