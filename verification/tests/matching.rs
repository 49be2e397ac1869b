use prest_embed::config::{attribute_values, parse_config, Attr, ConfigError};
use prest_embed::logs::{comma_terminated, latest_page, traces_file_path};
use prest_embed::paths::{is_relative_path, is_within_root, normalize_separators, str_eq, str_lt,
    strip_prefix_str};
use prest_embed::pattern::{glob_match_str, is_path_included};
use prest_embed::record::{build_record, extension_str, mimetype_of};

fn strings(items: &[&str]) -> Vec<String> {
    items.iter().map(|s| s.to_string()).collect()
}

#[test]
fn glob_literal_and_question() {
    assert!(glob_match_str("cat", "cat"));
    assert!(!glob_match_str("cat", "car"));
    assert!(!glob_match_str("cat", "cats"));
    assert!(glob_match_str("?at", "cat"));
    assert!(glob_match_str("c?t", "cat"));
    assert!(!glob_match_str("?at", "/at"));
    assert!(!glob_match_str("?at", "at"));
}

#[test]
fn glob_star_stays_in_segment() {
    assert!(glob_match_str("*.css", "site.css"));
    assert!(glob_match_str("*.css", ".css"));
    assert!(!glob_match_str("*.css", "css/site.css"));
    assert!(!glob_match_str("*.css", "site.cssx"));
    assert!(glob_match_str("a*c", "abc"));
    assert!(glob_match_str("a*c", "ac"));
    assert!(!glob_match_str("a*c", "a/c"));
}

#[test]
fn glob_double_star_crosses_segments() {
    assert!(glob_match_str("secret/**", "secret/.env"));
    assert!(glob_match_str("secret/**", "secret/deep/nested.key"));
    assert!(!glob_match_str("secret/**", "public/secret"));
    assert!(glob_match_str("**", "anything/at/all"));
    assert!(glob_match_str("**/site.css", "css/site.css"));
}

#[test]
fn glob_character_classes() {
    assert!(glob_match_str("[a-c]at", "bat"));
    assert!(!glob_match_str("[a-c]at", "dat"));
    assert!(glob_match_str("[abc]at", "cat"));
    assert!(glob_match_str("[!a]x", "bx"));
    assert!(!glob_match_str("[!a]x", "ax"));
    assert!(!glob_match_str("[/]x", "/x"));
    // A class with no closing bracket, or with an empty body, matches nothing.
    assert!(!glob_match_str("[abc", "a"));
    assert!(!glob_match_str("[]x", "x"));
}

#[test]
fn exclusion_beats_inclusion() {
    let inc = strings(&["*.css"]);
    let exc = strings(&["ignore.css"]);
    assert!(!is_path_included("ignore.css", &inc, &exc));
    assert!(is_path_included("site.css", &inc, &exc));
    assert!(!is_path_included("app.js", &inc, &exc));
}

#[test]
fn empty_inclusion_set_accepts_all_but_excluded() {
    let inc = strings(&[]);
    let exc = strings(&["secret/**"]);
    assert!(is_path_included("index.html", &inc, &exc));
    assert!(!is_path_included("secret/.env", &inc, &exc));
}

#[test]
fn separators_normalize_to_forward_slash() {
    assert_eq!(normalize_separators("a\\b\\c.txt"), "a/b/c.txt");
    assert_eq!(normalize_separators("a/b"), "a/b");
    assert_eq!(normalize_separators(""), "");
}

#[test]
fn string_order_is_bytewise() {
    assert!(str_lt("css/site.css", "index.html"));
    assert!(!str_lt("index.html", "css/site.css"));
    assert!(!str_lt("same", "same"));
    assert!(str_lt("abc", "abd"));
    assert!(str_lt("ab", "abc"));
    assert!(str_eq("same", "same"));
    assert!(!str_eq("same", "sam"));
}

#[test]
fn order_agrees_with_utf8_byte_order() {
    // UTF-8 preserves code-point order, so the comparator ranks multi-byte
    // characters exactly as their encodings rank byte-wise.
    assert!(str_lt("z.txt", "\u{e9}.txt"));
    assert_eq!("z.txt" < "\u{e9}.txt", str_lt("z.txt", "\u{e9}.txt"));
    assert_eq!("\u{e9}a" < "\u{e9}b", str_lt("\u{e9}a", "\u{e9}b"));
}

#[test]
fn prefix_stripping() {
    assert_eq!(strip_prefix_str("assets/app.js", "assets/"), Some("app.js".to_string()));
    assert_eq!(strip_prefix_str("app.js", "assets/"), None);
    assert_eq!(strip_prefix_str("x", ""), Some("x".to_string()));
}

#[test]
fn containment_is_component_wise() {
    assert!(is_within_root("/srv/assets", "/srv/assets"));
    assert!(is_within_root("/srv/assets", "/srv/assets/css/site.css"));
    assert!(!is_within_root("/srv/assets", "/srv/assets-evil/site.css"));
    assert!(!is_within_root("/srv/assets", "/etc/passwd"));
    assert!(!is_within_root("/srv/assets", "/srv"));
}

#[test]
fn relative_paths_lack_a_leading_separator() {
    assert!(is_relative_path("pub/assets"));
    assert!(is_relative_path(""));
    assert!(!is_relative_path("/srv/assets"));
}

#[test]
fn extensions_and_mimetypes() {
    assert_eq!(extension_str("index.html"), "html");
    assert_eq!(extension_str("archive.tar.gz"), "gz");
    assert_eq!(extension_str("a.b/c"), "");
    assert_eq!(extension_str("no-dot"), "");
    assert_eq!(extension_str(".env"), "env");
    assert_eq!(mimetype_of("index.html"), "text/html");
    assert_eq!(mimetype_of("css/site.css"), "text/css");
    assert_eq!(mimetype_of("app.js"), "text/javascript");
    assert_eq!(mimetype_of("logo.svg"), "image/svg+xml");
    assert_eq!(mimetype_of("data.bin"), "application/octet-stream");
    assert_eq!(mimetype_of("secret/.env"), "application/octet-stream");
}

#[test]
fn record_hash_is_the_content_digest() {
    let r = build_record("empty.txt".to_string(), Vec::new(), None);
    let expected: Vec<u8> = vec![
        0xe3, 0xb0, 0xc4, 0x42, 0x98, 0xfc, 0x1c, 0x14, 0x9a, 0xfb, 0xf4, 0xc8, 0x99, 0x6f,
        0xb9, 0x24, 0x27, 0xae, 0x41, 0xe4, 0x64, 0x9b, 0x93, 0x4c, 0xa4, 0x95, 0x99, 0x1b,
        0x78, 0x52, 0xb8, 0x55,
    ];
    assert_eq!(r.hash, expected);
    assert_eq!(r.mimetype, "text/plain");
    assert_eq!(r.last_modified, None);

    let r2 = build_record("abc.bin".to_string(), b"abc".to_vec(), Some(7));
    let expected2: Vec<u8> = vec![
        0xba, 0x78, 0x16, 0xbf, 0x8f, 0x01, 0xcf, 0xea, 0x41, 0x41, 0x40, 0xde, 0x5d, 0xae,
        0x22, 0x23, 0xb0, 0x03, 0x61, 0xa3, 0x96, 0x17, 0x7a, 0x9c, 0xb4, 0x10, 0xff, 0x61,
        0xf2, 0x00, 0x15, 0xad,
    ];
    assert_eq!(r2.hash, expected2);
    assert_eq!(r2.content, b"abc".to_vec());
    assert_eq!(r2.last_modified, Some(7));
}

#[test]
fn attributes_filter_by_name() {
    let attrs = vec![
        Attr { name: "folder".to_string(), value: "pub".to_string() },
        Attr { name: "prefix".to_string(), value: "assets/".to_string() },
        Attr { name: "folder".to_string(), value: "other".to_string() },
    ];
    assert_eq!(attribute_values(&attrs, "folder"), strings(&["pub", "other"]));
    assert_eq!(attribute_values(&attrs, "prefix"), strings(&["assets/"]));
    assert_eq!(attribute_values(&attrs, "exclude"), strings(&[]));
}

#[test]
fn config_requires_exactly_one_folder() {
    let err = parse_config(strings(&[]), strings(&[]), strings(&[]), strings(&[]));
    assert_eq!(err.unwrap_err(), ConfigError::MissingFolder);
    let err = parse_config(strings(&["a", "b"]), strings(&[]), strings(&[]), strings(&[]));
    assert_eq!(err.unwrap_err(), ConfigError::DuplicateFolder);
    let ok = parse_config(
        strings(&["pub"]),
        strings(&["assets/"]),
        strings(&["*.css"]),
        strings(&["ignore.css"]),
    )
    .unwrap();
    assert_eq!(ok.folder, "pub");
    assert_eq!(ok.prefix, Some("assets/".to_string()));
    assert_eq!(ok.includes, strings(&["*.css"]));
    assert_eq!(ok.excludes, strings(&["ignore.css"]));
    assert!(!ConfigError::NonexistentFolder.message().is_empty());
    assert!(!ConfigError::NonUnicodePath.message().is_empty());
}

#[test]
fn log_paging_and_shaping() {
    let lines = strings(&["e", "d", "c", "b", "a"]);
    assert_eq!(latest_page(&lines, 0, 2), strings(&["e", "d"]));
    assert_eq!(latest_page(&lines, 3, 10), strings(&["b", "a"]));
    assert_eq!(latest_page(&lines, 9, 2), strings(&[]));
    assert_eq!(latest_page(&lines, 0, 0), strings(&[]));
    assert_eq!(traces_file_path("/data/traces", "2024-05-01"), "/data/traces/2024-05-01");
    assert_eq!(comma_terminated("entry\n"), "entry,\n");
    assert_eq!(comma_terminated(""), ",\n");
}
