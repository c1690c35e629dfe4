use diecast::binding::Data;
use diecast::compiler::{parse_metadata, render_markdown, Html, Metadata, ParseMetadata, RenderMarkdown};
use diecast::configuration::Configuration;
use diecast::handle::Handle;
use diecast::item::Item;
use diecast::output::stays_inside_output;
use diecast::regexp::CompiledRegex;
use diecast::router::RegexRoute;
use std::sync::Arc;

fn item(path: &str, body: &str) -> Item {
    let configuration = Arc::new(Configuration::new("input".to_string(), "output".to_string()));
    let mut item = Item::from(path.to_string(), Arc::new(Data::new("r".to_string(), configuration)));
    item.body = body.to_string();
    item
}

#[test]
fn regex_route_expands_the_template() {
    let re = CompiledRegex::new(r"posts/post-(?P<name>.+)\.md").ok().unwrap();
    let route = RegexRoute::new(re, "target/$name.html");
    let mut it = item("posts/post-hello.md", "");
    assert!(route.handle(&mut it).is_ok());
    assert_eq!(it.reading().unwrap(), "posts/post-hello.md");
    assert_eq!(it.writing().unwrap(), "target/hello.html");
}

#[test]
fn regex_route_fails_where_nothing_matches() {
    let re = CompiledRegex::new(r"posts/post-(?P<name>.+)\.md").ok().unwrap();
    let route = RegexRoute::new(re, "target/$name.html");
    let mut it = item("pages/about.md", "");
    assert!(route.handle(&mut it).is_err());
    assert!(it.writing().is_none());
}

#[test]
fn invalid_regex_is_refused() {
    assert_eq!(CompiledRegex::new("(unclosed").err(), Some("(unclosed".to_string()));
    let re = CompiledRegex::new(r"(?P<x>\d+)").ok().unwrap();
    assert_eq!(re.group("ab12cd", "x"), Some("12".to_string()));
    assert_eq!(re.group("abcd", "x"), None);
    assert_eq!(re.expand("ab12cd", "[$x]"), Some("[12]".to_string()));
}

#[test]
fn metadata_block_is_read_and_stripped() {
    let mut it = item("post.md", "---\ntitle = \"T\"\ndraft = true\n---\nHello\n");
    assert!(parse_metadata(&mut it).is_ok());
    assert_eq!(it.body, "Hello\n");
    let meta = it.data.map.get::<Metadata>().unwrap();
    assert_eq!(meta.text(), "title = \"T\"\ndraft = true\n");
    assert!(meta.is_draft());
    assert_eq!(meta.flag("title"), None);
}

#[test]
fn body_without_metadata_is_kept() {
    let mut it = item("post.md", "just text\n");
    assert!(ParseMetadata.handle(&mut it).is_ok());
    assert_eq!(it.body, "just text\n");
    assert!(it.data.map.get::<Metadata>().is_none());
}

#[test]
fn metadata_that_is_not_toml_is_stored_as_text() {
    let mut it = item("post.md", "---\nnot = = toml\n---\nrest");
    assert!(parse_metadata(&mut it).is_ok());
    assert_eq!(it.body, "rest");
    let meta = it.data.map.get::<Metadata>().unwrap();
    assert_eq!(meta.text(), "not = = toml\n");
    assert!(!meta.is_toml());
    assert!(!meta.is_draft());
}

#[test]
fn blank_lines_after_the_block_are_dropped() {
    let mut it = item("post.md", "---\na = 1\n---\n\nbody\n\nend");
    assert!(parse_metadata(&mut it).is_ok());
    assert_eq!(it.body, "body\n\nend");
}

#[test]
fn metadata_flags() {
    let meta = Metadata::new("draft = false\nn = 3\n");
    assert!(meta.is_toml());
    assert!(!meta.is_draft());
    assert_eq!(meta.flag("draft"), Some(false));
    assert_eq!(meta.flag("n"), None);
    assert!(meta.data().is_some());
    let broken = Metadata::new("= broken");
    assert!(!broken.is_toml());
    assert_eq!(broken.flag("draft"), None);
}

#[test]
fn markdown_is_rendered_to_an_attribute() {
    let mut it = item("post.md", "# Hi\n");
    assert!(render_markdown(&mut it).is_ok());
    assert_eq!(it.body, "# Hi\n");
    let html = it.data.map.get::<Html>().unwrap();
    assert!(html.text.contains("<h1>Hi</h1>"));
    let mut other = item("x.md", "*a*");
    assert!(RenderMarkdown.handle(&mut other).is_ok());
    assert!(other.data.map.get::<Html>().unwrap().text.contains("<em>a</em>"));
}

#[test]
fn writes_stay_inside_the_output_directory() {
    assert!(stays_inside_output("posts/a.html"));
    assert!(stays_inside_output("a..b/c"));
    assert!(stays_inside_output(""));
    assert!(!stays_inside_output("/etc/passwd"));
    assert!(!stays_inside_output("../x"));
    assert!(!stays_inside_output("a/../../x"));
    assert!(!stays_inside_output("a/.."));
    assert!(!stays_inside_output(".."));
}

#[test]
fn drafts_are_published_only_in_previews() {
    let draft = Metadata::new("draft = true\n");
    let post = Metadata::new("title = \"x\"\n");
    assert!(!diecast::compiler::publishable(Some(&draft), false));
    assert!(diecast::compiler::publishable(Some(&draft), true));
    assert!(diecast::compiler::publishable(Some(&post), false));
    assert!(diecast::compiler::publishable(None, false));
}
