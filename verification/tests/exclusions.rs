use flatten_rust::config::{Template, TemplateManager};
use flatten_rust::exclusions::ExclusionManager;

fn template(key: &str, contents: &str) -> Template {
    Template { key: key.to_string(), name: key.to_string(), contents: contents.to_string() }
}

fn manager_with(templates: Vec<Template>) -> ExclusionManager {
    ExclusionManager::new(TemplateManager::new(None, Some(templates)))
}

#[test]
fn test_parse_ignore_patterns() {
    let content = "
# Comment
target/
*.log
file.txt
        ";
    let patterns = ExclusionManager::parse_ignore_patterns(content);
    assert_eq!(patterns, vec!["target/", "*.log", "file.txt"]);
}

#[test]
fn test_extract_folder_name() {
    assert_eq!(ExclusionManager::extract_folder_name("target/"), Some("target".to_string()));
    assert_eq!(
        ExclusionManager::extract_folder_name("node_modules"),
        Some("node_modules".to_string())
    );
    assert_eq!(ExclusionManager::extract_folder_name("*.log"), None);
    assert_eq!(ExclusionManager::extract_folder_name("file.txt"), None);
}

#[test]
fn test_extract_extension() {
    assert_eq!(ExclusionManager::extract_extension("*.log"), Some("log".to_string()));
    assert_eq!(ExclusionManager::extract_extension("*.pyc"), Some("pyc".to_string()));
    assert_eq!(ExclusionManager::extract_extension("target/"), None);
    assert_eq!(ExclusionManager::extract_extension("file.txt"), None);
}

#[test]
fn parse_handles_line_endings_and_white_space() {
    let patterns = ExclusionManager::parse_ignore_patterns("a\r\n  b\t\r\n\r\n#c\r\n d e \u{a0}");
    assert_eq!(patterns, vec!["a", "b", "d e"]);
}

#[test]
fn parse_of_nothing_is_empty() {
    assert!(ExclusionManager::parse_ignore_patterns("").is_empty());
    assert!(ExclusionManager::parse_ignore_patterns("\n\n   \n").is_empty());
    assert!(ExclusionManager::parse_ignore_patterns("# only a comment").is_empty());
}

#[test]
fn parse_keeps_a_comment_sign_inside_a_line() {
    let patterns = ExclusionManager::parse_ignore_patterns("build # not a comment\n   #indented");
    assert_eq!(patterns, vec!["build # not a comment"]);
}

#[test]
fn parse_keeps_the_last_line_without_ending() {
    assert_eq!(ExclusionManager::parse_ignore_patterns("one\ntwo"), vec!["one", "two"]);
    assert_eq!(ExclusionManager::parse_ignore_patterns("one\ntwo\n"), vec!["one", "two"]);
}

#[test]
fn folder_name_drops_every_trailing_slash() {
    assert_eq!(ExclusionManager::extract_folder_name("dist///"), Some("dist".to_string()));
    assert_eq!(ExclusionManager::extract_folder_name("a/b"), Some("a/b".to_string()));
    assert_eq!(ExclusionManager::extract_folder_name("/"), Some(String::new()));
    assert_eq!(ExclusionManager::extract_folder_name(""), Some(String::new()));
    assert_eq!(ExclusionManager::extract_folder_name(".cache/"), None);
    assert_eq!(ExclusionManager::extract_folder_name("lib*/"), None);
}

#[test]
fn extension_drops_every_leading_wildcard() {
    assert_eq!(ExclusionManager::extract_extension("*.*.log"), Some("log".to_string()));
    assert_eq!(ExclusionManager::extract_extension("*.tar.gz"), Some("tar.gz".to_string()));
    assert_eq!(ExclusionManager::extract_extension("*."), Some(String::new()));
    assert_eq!(ExclusionManager::extract_extension("*"), None);
    assert_eq!(ExclusionManager::extract_extension("a*.log"), None);
    assert_eq!(ExclusionManager::extract_extension(""), None);
}

#[test]
fn a_new_manager_has_nothing_enabled() {
    let manager = manager_with(vec![template("rust", "target/\n")]);
    assert!(manager.get_enabled_templates().is_empty());
    assert!(manager.get_all_patterns().is_empty());
    assert_eq!(manager.get_available_templates(), vec!["rust"]);
}

#[test]
fn enabling_twice_enables_once() {
    let mut manager = manager_with(vec![]);
    manager.enable_template("rust".to_string());
    manager.enable_template("node".to_string());
    manager.enable_template("rust".to_string());
    assert_eq!(manager.get_enabled_templates(), vec!["rust", "node"]);
}

#[test]
fn disabling_takes_the_key_away() {
    let mut manager = manager_with(vec![]);
    manager.enable_template("rust".to_string());
    manager.enable_template("node".to_string());
    manager.enable_template("go".to_string());
    manager.disable_template("node");
    assert_eq!(manager.get_enabled_templates(), vec!["rust", "go"]);
    manager.disable_template("absent");
    assert_eq!(manager.get_enabled_templates(), vec!["rust", "go"]);
}

#[test]
fn patterns_come_from_enabled_templates_only() {
    let mut manager = manager_with(vec![
        template("rust", "# Rust\ntarget/\n*.rs.bk\n"),
        template("node", "node_modules/\n*.log\n"),
    ]);
    manager.enable_template("node".to_string());
    manager.enable_template("unknown".to_string());
    assert_eq!(manager.get_all_patterns(), vec!["node_modules/", "*.log"]);
    manager.enable_template("rust".to_string());
    assert_eq!(
        manager.get_all_patterns(),
        vec!["node_modules/", "*.log", "target/", "*.rs.bk"]
    );
}

#[test]
fn folder_and_extension_sets_follow_the_patterns() {
    let mut manager = manager_with(vec![
        template("rust", "target/\n*.rs.bk\nCargo.lock\n"),
        template("node", "node_modules\n*.log\ntarget\n!keep\n"),
    ]);
    manager.enable_template("rust".to_string());
    manager.enable_template("node".to_string());
    let folders = manager.get_folder_patterns();
    assert_eq!(folders.len(), 3);
    assert!(folders.contains("target"));
    assert!(folders.contains("node_modules"));
    assert!(folders.contains("!keep"));
    assert!(!folders.contains("Cargo.lock"));
    let extensions = manager.get_extension_patterns();
    assert_eq!(extensions.len(), 2);
    assert!(extensions.contains("rs.bk"));
    assert!(extensions.contains("log"));
}

#[test]
fn the_sets_do_not_depend_on_the_order_of_enabling() {
    let templates = vec![template("a", "one\n*.x\n"), template("b", "two\n*.y\n")];
    let mut first = manager_with(templates.clone());
    first.enable_template("a".to_string());
    first.enable_template("b".to_string());
    let mut second = manager_with(templates);
    second.enable_template("b".to_string());
    second.enable_template("a".to_string());
    for name in ["one", "two", "three"] {
        assert_eq!(
            first.get_folder_patterns().contains(name),
            second.get_folder_patterns().contains(name)
        );
    }
    for name in ["x", "y", "z"] {
        assert_eq!(
            first.get_extension_patterns().contains(name),
            second.get_extension_patterns().contains(name)
        );
    }
}

#[test]
fn the_detection_table_lists_the_markers() {
    let table = ExclusionManager::get_detection_map();
    assert_eq!(
        table,
        vec![
            ("rust", vec!["Cargo.toml"]),
            ("node", vec!["package.json"]),
            ("python", vec!["requirements.txt", "pyproject.toml"]),
            ("java", vec!["pom.xml", "build.gradle"]),
            ("go", vec!["go.mod"]),
            ("ruby", vec!["Gemfile"]),
            ("php", vec!["composer.json"]),
        ]
    );
}

#[test]
fn detection_enables_what_the_markers_speak_for() {
    let mut manager = manager_with(vec![]);
    manager.enable_template("custom".to_string());
    let present =
        vec!["README.md".to_string(), "pyproject.toml".to_string(), "Cargo.toml".to_string()];
    manager.enable_templates_for_project(&present);
    assert_eq!(manager.get_enabled_templates(), vec!["custom", "rust", "python"]);
}

#[test]
fn detection_never_takes_a_key_away() {
    let mut manager = manager_with(vec![]);
    manager.enable_template("go".to_string());
    manager.enable_templates_for_project(&vec![]);
    assert_eq!(manager.get_enabled_templates(), vec!["go"]);
    manager.enable_templates_for_project(&vec!["go.mod".to_string()]);
    assert_eq!(manager.get_enabled_templates(), vec!["go"]);
}

#[test]
fn a_project_is_detected_by_its_markers() {
    let present = vec!["go.mod".to_string(), "Gemfile".to_string(), "build.gradle".to_string()];
    assert_eq!(ExclusionManager::detect_project(&present), vec!["java", "go", "ruby"]);
    assert!(ExclusionManager::detect_project(&vec![]).is_empty());
    assert!(ExclusionManager::detect_project(&vec!["cargo.toml".to_string()]).is_empty());
}

#[test]
fn a_template_with_two_markers_is_detected_once() {
    let present = vec!["pyproject.toml".to_string(), "requirements.txt".to_string()];
    assert_eq!(ExclusionManager::detect_project(&present), vec!["python"]);
}

#[test]
fn keys_are_sorted_as_strings_are() {
    let keys: Vec<String> = [
        "rust", "node", "Rust", "go", "", "c++", "c", "zsh", "ähnlich", "node", "a-b", "a", "ab",
        "日本語", "z", "_x", "10", "9",
    ]
    .iter()
    .map(|k| k.to_string())
    .collect();
    let mut expected = keys.clone();
    expected.sort();
    assert_eq!(flatten_rust::listing::sorted_keys(&keys), expected);
    assert!(flatten_rust::listing::sorted_keys(&vec![]).is_empty());
}

#[test]
fn the_templates_are_listed_five_to_a_line() {
    let keys: Vec<String> =
        ["g", "b", "k", "a", "f", "c", "j", "e", "d", "i", "h"].iter().map(|k| k.to_string()).collect();
    assert_eq!(
        flatten_rust::listing::list_templates(&keys),
        vec![
            "Available exclusion templates (11 total):",
            "",
            "  a, b, c, d, e",
            "  f, g, h, i, j",
            "  k",
        ]
    );
    let five: Vec<String> = ["e", "d", "c", "b", "a"].iter().map(|k| k.to_string()).collect();
    assert_eq!(
        flatten_rust::listing::list_templates(&five),
        vec!["Available exclusion templates (5 total):", "", "  a, b, c, d, e"]
    );
    assert_eq!(
        flatten_rust::listing::list_templates(&vec![]),
        vec!["Available exclusion templates (0 total):", ""]
    );
}

#[test]
fn the_enabled_templates_are_shown_one_to_a_line() {
    assert_eq!(
        flatten_rust::listing::show_enabled(&vec![]),
        vec!["No templates currently enabled."]
    );
    assert_eq!(
        flatten_rust::listing::show_enabled(&vec!["rust", "node"]),
        vec!["Enabled templates (2):", "  - rust", "  - node"]
    );
}

#[test]
fn the_manager_lists_what_it_holds() {
    let mut manager = manager_with(vec![template("rust", ""), template("go", "")]);
    manager.enable_template("go".to_string());
    assert_eq!(
        flatten_rust::FlattenConfig::handle_list_templates(&manager),
        vec!["Available exclusion templates (2 total):", "", "  go, rust"]
    );
    assert_eq!(
        flatten_rust::FlattenConfig::handle_show_enabled(&manager),
        vec!["Enabled templates (1):", "  - go"]
    );
}

#[test]
fn marked_text_is_parsed_by_its_marks() {
    let mark = |text: &str, spaces: &str| -> Vec<(char, bool)> {
        text.chars().map(|c| (c, spaces.contains(c))).collect()
    };
    assert_eq!(
        flatten_rust::exclusions::parse_marked_patterns(&mark("_a_b_\n#x\n__\n_#y\nc", "_")),
        vec!["a_b", "c"]
    );
    assert_eq!(
        flatten_rust::exclusions::parse_marked_patterns(&mark(" a \r\nb\r", "")),
        vec![" a ", "b\r"]
    );
    assert!(flatten_rust::exclusions::parse_marked_patterns(&vec![]).is_empty());
}

fn is_listed_white_space(c: char) -> bool {
    matches!(
        c,
        '\u{9}'..='\u{d}'
            | ' '
            | '\u{85}'
            | '\u{a0}'
            | '\u{1680}'
            | '\u{2000}'..='\u{200a}'
            | '\u{2028}'
            | '\u{2029}'
            | '\u{202f}'
            | '\u{205f}'
            | '\u{3000}'
    )
}

fn check_white_space(from: u32, to: u32) {
    let mut text = String::new();
    for code in from..=to {
        if let Some(c) = char::from_u32(code) {
            text.clear();
            text.push(c);
            text.push('x');
            let trimmed = ExclusionManager::parse_ignore_patterns(&text) == vec!["x"];
            assert_eq!(trimmed, is_listed_white_space(c), "character {:#x}", code);
        }
    }
}

#[test]
fn white_space_is_the_listed_characters_in_the_first_plane() {
    check_white_space(0, 0xffff);
}

#[test]
fn no_character_of_the_second_to_fourth_plane_is_white_space() {
    check_white_space(0x1_0000, 0x3_ffff);
}

#[test]
fn no_character_of_the_fifth_to_tenth_plane_is_white_space() {
    check_white_space(0x4_0000, 0x9_ffff);
}

#[test]
fn no_character_of_the_last_planes_is_white_space() {
    check_white_space(0xa_0000, 0x10_ffff);
}
