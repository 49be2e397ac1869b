use prest_embed::config::EmbedConfig;
use prest_embed::dynamic_repo::Dynamic;
use prest_embed::record::build_record;
use prest_embed::snapshot::{build_snapshot, SourceFile};
use prest_embed::static_repo::Static;

fn strings(items: &[&str]) -> Vec<String> {
    items.iter().map(|s| s.to_string()).collect()
}

fn source(rel: &str, content: &[u8], lm: Option<u64>) -> SourceFile {
    SourceFile { rel_path: rel.to_string(), content: content.to_vec(), last_modified: lm }
}

fn site_config(prefix: Option<&str>, inc: &[&str], exc: &[&str]) -> EmbedConfig {
    EmbedConfig {
        folder: "/srv/assets".to_string(),
        prefix: prefix.map(|p| p.to_string()),
        includes: strings(inc),
        excludes: strings(exc),
    }
}

fn site_snapshot() -> Static {
    let files = vec![
        source("index.html", b"<html></html>", Some(10)),
        source("css/site.css", b"body{}", Some(20)),
        source("secret/.env", b"SECRET-REDACTED", Some(30)),
    ];
    build_snapshot(&files, &site_config(None, &[], &["secret/**"]))
}

#[test]
fn compiled_table_is_sorted_and_filtered() {
    let s = site_snapshot();
    let listed = s.iter();
    assert_eq!(listed, strings(&["css/site.css", "index.html"]));
    assert!(s.get("secret/.env").is_none());
    let css = s.get("css/site.css").unwrap();
    assert_eq!(css.relative_path, "css/site.css");
    assert_eq!(css.content, b"body{}".to_vec());
    assert_eq!(css.mimetype, "text/css");
    assert_eq!(css.last_modified, Some(20));
    let html = s.get("index.html").unwrap();
    assert_eq!(html.mimetype, "text/html");
    assert_eq!(html.last_modified, Some(10));
}

#[test]
fn lookup_agrees_with_a_linear_scan() {
    let files = vec![
        source("z.txt", b"z", None),
        source("a.txt", b"a", None),
        source("m/n.txt", b"n", None),
        source("m.txt", b"m", None),
        source("ab.txt", b"ab", None),
    ];
    let s = build_snapshot(&files, &site_config(None, &[], &[]));
    let listed = s.iter();
    assert_eq!(listed.len(), 5);
    // Every embedded path is found, and what is found is the embedded record.
    for f in &files {
        let rec = s.get(&f.rel_path).expect("embedded path must be found");
        assert_eq!(rec.relative_path, f.rel_path);
        assert_eq!(rec.content, f.content);
    }
    // The listing is ascending and exactly the set `get` serves.
    for w in listed.windows(2) {
        assert!(w[0] < w[1]);
    }
    for p in &listed {
        assert!(s.get(p).is_some());
    }
    assert!(s.get("missing.txt").is_none());
}

#[test]
fn queries_normalize_separators() {
    let s = site_snapshot();
    let css = s.get("css\\site.css").unwrap();
    assert_eq!(css.relative_path, "css/site.css");
}

#[test]
fn prefix_is_required_and_stripped() {
    let files = vec![source("app.js", b"let x;", None)];
    let s = build_snapshot(&files, &site_config(Some("assets/"), &[], &[]));
    assert_eq!(s.iter(), strings(&["assets/app.js"]));
    assert!(s.get("assets/app.js").is_some());
    assert!(s.get("app.js").is_none());
    assert!(s.get("other/app.js").is_none());
}

fn live_repo(prefix: Option<&str>, inc: &[&str], exc: &[&str]) -> Dynamic {
    Dynamic {
        root: "/srv/assets".to_string(),
        prefix: prefix.map(|p| p.to_string()),
        includes: strings(inc),
        excludes: strings(exc),
    }
}

#[test]
fn live_lookup_prepares_the_candidate() {
    let d = live_repo(Some("assets/"), &[], &[]);
    let (rel, cand) = d.prepare("assets/css\\site.css").unwrap();
    assert_eq!(rel, "css/site.css");
    assert_eq!(cand, "/srv/assets/css/site.css");
    assert!(d.prepare("css/site.css").is_none());
}

#[test]
fn traversal_outside_the_root_is_refused() {
    let d = live_repo(None, &[], &[]);
    // However the filesystem resolved the query, a canonical path outside
    // the root is never served — a same-named file outside does not help.
    assert!(!d.authorize("../../etc/passwd", "/etc/passwd"));
    assert!(!d.authorize("x", "/srv/assets-evil/x"));
    assert!(!d.authorize("..", "/srv"));
    assert!(d.authorize("css/site.css", "/srv/assets/css/site.css"));
}

#[test]
fn live_lookup_applies_the_pattern_filters() {
    let d = live_repo(None, &["*.css"], &["ignore.css"]);
    assert!(d.authorize("site.css", "/srv/assets/site.css"));
    assert!(!d.authorize("ignore.css", "/srv/assets/ignore.css"));
    assert!(!d.authorize("app.js", "/srv/assets/app.js"));
}

#[test]
fn live_iteration_reflects_the_walk() {
    let d = live_repo(Some("assets/"), &[], &["secret/**"]);
    let walked = strings(&["index.html", "secret\\.env", "css\\site.css", "index.html"]);
    let listed = d.iter_paths(&walked);
    assert_eq!(listed, strings(&["assets/css/site.css", "assets/index.html"]));
}

#[test]
fn a_new_file_reaches_the_live_backend_but_never_the_frozen_one() {
    // The snapshot is built before `new.txt` exists.
    let s = site_snapshot();
    let d = live_repo(None, &[], &["secret/**"]);
    // The file appears on disk afterwards: a fresh live pass sees it...
    let walked_now = strings(&["index.html", "css/site.css", "new.txt"]);
    let listed = d.iter_paths(&walked_now);
    assert!(listed.contains(&"new.txt".to_string()));
    assert!(d.authorize("new.txt", "/srv/assets/new.txt"));
    let rec = build_record("new.txt".to_string(), b"fresh".to_vec(), Some(99));
    assert_eq!(rec.content, b"fresh".to_vec());
    assert_eq!(rec.mimetype, "text/plain");
    // ...but the compiled table stays frozen at build time.
    assert!(s.get("new.txt").is_none());
    assert!(!s.iter().contains(&"new.txt".to_string()));
}

#[test]
fn a_failed_read_is_not_found() {
    let d = live_repo(None, &[], &[]);
    assert!(d.complete("gone.txt".to_string(), None).is_none());
    let rec = d.complete("a.css".to_string(), Some((b"x{}".to_vec(), Some(3)))).unwrap();
    assert_eq!(rec.relative_path, "a.css");
    assert_eq!(rec.content, b"x{}".to_vec());
    assert_eq!(rec.mimetype, "text/css");
    assert_eq!(rec.last_modified, Some(3));
}

#[test]
fn records_are_returned_as_copies() {
    let s = site_snapshot();
    let a = s.get("index.html").unwrap();
    let b = s.get("index.html").unwrap();
    assert_eq!(a.content, b.content);
    assert_eq!(a.hash, b.hash);
    let c = a.clone_record();
    assert_eq!(c.relative_path, a.relative_path);
    assert_eq!(c.content, a.content);
    assert_eq!(c.hash, a.hash);
    assert_eq!(c.mimetype, a.mimetype);
    assert_eq!(c.last_modified, a.last_modified);
}
