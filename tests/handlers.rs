use diecast::binding::{Bind, Data};
use diecast::compiler::inject_with;
use diecast::configuration::Configuration;
use diecast::handle::{BindChain, Error, Handle, ItemChain, Result};
use diecast::item::{Item, Route};
use diecast::router::{identity, set_extension, Identity, SetExtension};
use std::sync::{Arc, Mutex};

fn data(name: &str) -> Arc<Data> {
    let configuration = Arc::new(Configuration::new("input".to_string(), "output".to_string()));
    Arc::new(Data::new(name.to_string(), configuration))
}

/// Appends its tag to the body, or fails when told to.
struct Tag {
    tag: &'static str,
    fail: bool,
    calls: Arc<Mutex<Vec<&'static str>>>,
}

impl Handle<Item> for Tag {
    fn handle(&self, item: &mut Item) -> Result {
        self.calls.lock().unwrap().push(self.tag);
        if self.fail {
            return Err(Error::new(format!("{} failed", self.tag)));
        }
        item.body.push_str(self.tag);
        Ok(())
    }
}

impl Handle<Bind> for Tag {
    fn handle(&self, _bind: &mut Bind) -> Result {
        self.calls.lock().unwrap().push(self.tag);
        if self.fail {
            return Err(Error::new(format!("{} failed", self.tag)));
        }
        Ok(())
    }
}

fn tag(tag: &'static str, fail: bool, calls: &Arc<Mutex<Vec<&'static str>>>) -> Tag {
    Tag { tag, fail, calls: calls.clone() }
}

#[test]
fn chain_runs_in_order() {
    let calls = Arc::new(Mutex::new(Vec::new()));
    let chain = ItemChain::new()
        .link(tag("a", false, &calls))
        .link(tag("b", false, &calls))
        .link(tag("c", false, &calls));
    let mut item = Item::from("x.md".to_string(), data("r"));
    assert!(Handle::<Item>::handle(&chain, &mut item).is_ok());
    assert_eq!(item.body, "abc");
    assert_eq!(*calls.lock().unwrap(), vec!["a", "b", "c"]);
}

#[test]
fn chain_stops_at_the_first_error() {
    let calls = Arc::new(Mutex::new(Vec::new()));
    let chain = ItemChain::new()
        .link(tag("a", false, &calls))
        .link(tag("b", true, &calls))
        .link(tag("c", false, &calls));
    let mut item = Item::from("x.md".to_string(), data("r"));
    let r = Handle::<Item>::handle(&chain, &mut item);
    assert_eq!(r.unwrap_err().message, "b failed");
    assert_eq!(item.body, "a");
    assert_eq!(*calls.lock().unwrap(), vec!["a", "b"]);
}

#[test]
fn empty_chain_succeeds() {
    let chain: ItemChain<Tag> = ItemChain::new();
    let mut item = Item::from("x.md".to_string(), data("r"));
    assert!(Handle::<Item>::handle(&chain, &mut item).is_ok());
    assert_eq!(item.body, "");
}

#[test]
fn item_chain_over_a_bind_runs_each_item_in_order() {
    let calls = Arc::new(Mutex::new(Vec::new()));
    let chain = ItemChain::new().link(tag("a", false, &calls)).link(tag("b", false, &calls));
    let d = data("r");
    let items = vec![Item::from("1.md".to_string(), d.clone()), Item::from("2.md".to_string(), d.clone())];
    let mut bind = Bind::new(items, d);
    assert!(Handle::<Bind>::handle(&chain, &mut bind).is_ok());
    assert_eq!(bind.items()[0].body, "ab");
    assert_eq!(bind.items()[1].body, "ab");
    assert_eq!(*calls.lock().unwrap(), vec!["a", "b", "a", "b"]);
}

#[test]
fn item_chain_over_a_bind_stops_at_the_first_error() {
    let calls = Arc::new(Mutex::new(Vec::new()));
    let chain = ItemChain::new().link(tag("a", false, &calls)).link(tag("b", true, &calls));
    let d = data("r");
    let items = vec![Item::from("1.md".to_string(), d.clone()), Item::from("2.md".to_string(), d.clone())];
    let mut bind = Bind::new(items, d);
    assert!(Handle::<Bind>::handle(&chain, &mut bind).is_err());
    assert_eq!(bind.items()[0].body, "a");
    assert_eq!(bind.items()[1].body, "");
    assert_eq!(*calls.lock().unwrap(), vec!["a", "b"]);
}

#[test]
fn bind_chain_stops_at_the_first_error() {
    let calls = Arc::new(Mutex::new(Vec::new()));
    let chain = BindChain::new()
        .link(tag("a", false, &calls))
        .link(tag("b", true, &calls))
        .link(tag("c", false, &calls));
    let d = data("r");
    let mut bind = Bind::new(Vec::new(), d);
    assert!(chain.handle(&mut bind).is_err());
    assert_eq!(*calls.lock().unwrap(), vec!["a", "b"]);
}

#[test]
fn route_to_keeps_the_path_read() {
    let read = Route::Read("a/b.md".to_string());
    let routed = read.route_to(|p: &String| format!("out/{}", p));
    assert_eq!(routed.reading().unwrap(), "a/b.md");
    assert_eq!(routed.writing().unwrap(), "out/a/b.md");

    let both = Route::ReadWrite("a/b.md".to_string(), "old".to_string());
    let routed = both.route_to(|p: &String| format!("new/{}", p));
    assert_eq!(routed.reading().unwrap(), "a/b.md");
    assert_eq!(routed.writing().unwrap(), "new/a/b.md");

    let write = Route::Write("w.txt".to_string());
    let routed = write.route_to(|p: &String| format!("x/{}", p));
    assert!(routed.reading().is_none());
    assert_eq!(routed.writing().unwrap(), "x/w.txt");
}

#[test]
fn set_extension_routes_to_another_extension() {
    let mut item = Item::from("posts/a.md".to_string(), data("r"));
    assert!(set_extension("html").handle(&mut item).is_ok());
    assert_eq!(item.reading().unwrap(), "posts/a.md");
    assert_eq!(item.writing().unwrap(), "posts/a.html");

    let mut item = Item::to("index.txt".to_string(), data("r"));
    assert!(SetExtension::new("html").handle(&mut item).is_ok());
    assert_eq!(item.writing().unwrap(), "index.html");
}

#[test]
fn identity_writes_where_it_reads() {
    let mut item = Item::from("file.txt".to_string(), data("r"));
    identity(&mut item);
    assert_eq!(item.writing().unwrap(), "file.txt");
    let mut item = Item::from("other.txt".to_string(), data("r"));
    assert!(Identity.handle(&mut item).is_ok());
    assert_eq!(item.writing().unwrap(), "other.txt");
}

#[test]
fn inject_with_stores_the_payload() {
    let mut item = Item::from("file.txt".to_string(), data("r"));
    assert!(inject_with(Arc::new(7u32)).handle(&mut item).is_ok());
    assert_eq!(**item.data.map.get::<Arc<u32>>().unwrap(), 7);
}

#[test]
fn partial_binds_yield_only_stale_items() {
    let d = data("r");
    let mut stale = Item::from("1.md".to_string(), d.clone());
    diecast::item::set_stale(&mut stale, true);
    let fresh = Item::from("2.md".to_string(), d.clone());
    let mut bind = Bind::new(vec![stale, fresh], d);
    assert_eq!(bind.iter().len(), 2);
    diecast::binding::set_partial(&mut bind, true);
    assert!(bind.is_partial());
    let seen = bind.iter();
    assert_eq!(seen.len(), 1);
    assert_eq!(seen[0].reading().unwrap(), "1.md");
}

#[test]
fn items_can_be_changed_in_place() {
    let d = data("r");
    let mut bind = Bind::new(vec![Item::from("1.md".to_string(), d.clone())], d);
    bind.items_mut()[0].body = "changed".to_string();
    assert_eq!(bind.items()[0].body, "changed");
    assert_eq!(bind.items().len(), 1);
}
