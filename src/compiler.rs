//! Handlers that attach values to items: a payload, the metadata block
//! at the start of an item, the HTML of its markdown; and the values that
//! paginating handlers share.

use crate::handle::{Error, Handle, Result};
use crate::item::Item;
use crate::regexp::{regex_group, regex_valid, CompiledRegex};
use hoedown::Render;
use vstd::prelude::*;

verus! {

/// A handler that stores a copy of its payload in each item's attributes.
pub struct Injector<T> {
    payload: T,
}

/// A handler that stores a copy of `payload` in each item's attributes.
pub fn inject_with<T: Clone + Send + Sync + 'static>(payload: T) -> (r: Injector<T>)
    ensures
        r.spec_payload() == payload,
{
    Injector { payload }
}

impl<T> Injector<T> {
    /// What the handler stores.
    pub closed spec fn spec_payload(&self) -> T {
        self.payload
    }
}

impl<T: Clone + Send + Sync + 'static> Handle<Item> for Injector<T> {
    open spec fn outcome(&self, before: Item, after: Item, r: Result) -> bool {
        &&& r is Ok
        &&& after.route == before.route
        &&& after.body == before.body
        &&& after.owner() == before.owner()
        &&& after.spec_stale() == before.spec_stale()
    }

    fn handle(&self, item: &mut Item) -> (r: Result) {
        item.data.insert(self.payload.clone());
        Ok(())
    }
}

/// Where a page of a paginated listing stands among its pages.
pub struct Pagination {
    pub first_number: usize,
    pub first_path: String,
    pub last_number: usize,
    pub last_path: String,
    pub next_number: Option<usize>,
    pub next_path: Option<String>,
    pub curr_number: usize,
    pub curr_path: String,
    pub prev_number: Option<usize>,
    pub prev_path: Option<String>,
    pub page_count: usize,
    pub post_count: usize,
    pub posts_per_page: usize,
}

#[verifier::external_type_specification]
#[verifier::external_body]
pub struct ExTomlValue(toml::Value);

/// Relies on the `Clone` of `toml::Value`.
pub assume_specification[ <toml::Value as Clone>::clone ](v: &toml::Value) -> toml::Value;

/// Whether `toml` reads `text` as a document.
pub uninterp spec fn toml_document(text: Seq<char>) -> bool;

/// The boolean that `toml` finds under `key` at the top of the document
/// `text`; `None` where there is none.
pub uninterp spec fn toml_flag(text: Seq<char>, key: Seq<char>) -> Option<bool>;

/// Relies on `toml::Table`'s `FromStr`: it reads a document or fails;
/// which of the two depends on the text alone.
#[verifier::external_body]
fn parse_toml_document(text: &str) -> (r: Option<toml::Value>)
    ensures
        r is Some <==> toml_document(text@),
{
    text.parse::<toml::Table>().ok().map(toml::Value::Table)
}

/// The metadata block of an item: its text, and the TOML document it
/// holds where it is one.
pub struct Metadata {
    text: String,
    data: Option<toml::Value>,
}

/// Relies on `toml::Value::get` and `toml::Value::as_bool`; `m.data` was
/// read from `m.text` by [`Metadata::new`], the only way to build one.
#[verifier::external_body]
fn flag_of(m: &Metadata, key: &str) -> (r: Option<bool>)
    ensures
        m.spec_is_toml() ==> r == toml_flag(m.text@, key@),
{
    m.data.as_ref().and_then(|v| v.get(key)).and_then(toml::Value::as_bool)
}

impl Metadata {
    /// The text of the block.
    pub closed spec fn view(&self) -> Seq<char> {
        self.text@
    }

    /// Whether the block was read as a TOML document.
    pub closed spec fn spec_is_toml(&self) -> bool {
        self.data is Some
    }

    /// The block `text`, read as a TOML document where it is one.
    pub fn new(text: &str) -> (r: Metadata)
        ensures
            r.view() == text@,
            r.spec_is_toml() <==> toml_document(text@),
    {
        Metadata { text: text.to_string(), data: parse_toml_document(text) }
    }

    /// Whether the block is a TOML document.
    pub fn is_toml(&self) -> (r: bool)
        ensures
            r == self.spec_is_toml(),
    {
        self.data.is_some()
    }

    /// The boolean under `key`, if the block is a TOML document and has one.
    pub fn flag(&self, key: &str) -> (r: Option<bool>)
        ensures
            r == if self.spec_is_toml() {
                toml_flag(self.view(), key@)
            } else {
                None
            },
    {
        if self.data.is_some() {
            flag_of(self, key)
        } else {
            None
        }
    }

    /// Whether the block marks the item as a draft (`draft = true`).
    pub fn is_draft(&self) -> (r: bool)
        ensures
            r == (self.spec_is_toml() && toml_flag(self.view(), "draft"@) == Some(true)),
    {
        match self.flag("draft") {
            Some(b) => b,
            None => false,
        }
    }

    /// The text of the block.
    pub fn text(&self) -> (r: &String)
        ensures
            r@ == self.view(),
    {
        &self.text
    }

    /// The TOML document the block holds, if it is one.
    pub fn data(&self) -> (r: Option<&toml::Value>)
        ensures
            r is Some == self.spec_is_toml(),
    {
        self.data.as_ref()
    }
}

impl Clone for Metadata {
    fn clone(&self) -> (r: Self)
        ensures
            r.view() == self.view(),
            r.spec_is_toml() == self.spec_is_toml(),
    {
        let data = match &self.data {
            Some(v) => Some(v.clone()),
            None => None,
        };
        Metadata { text: self.text.clone(), data }
    }
}

/// Whether an item with the metadata `meta` is published: drafts only in
/// a preview build.
pub fn publishable(meta: Option<&Metadata>, is_preview: bool) -> (r: bool)
    ensures
        r == !((meta matches Some(m) && m.spec_is_toml() && toml_flag(m.view(), "draft"@) == Some(true)) && !is_preview),
{
    let draft = match meta {
        Some(m) => m.is_draft(),
        None => false,
    };
    !(draft && !is_preview)
}

/// A metadata block at the start of an item, between a line `---` and the
/// next line `---`, and the body after it.
pub const FRONT_MATTER: &'static str = r"(?ms)\A---\s*\n(?P<metadata>.*?\n?)^---\s*$\n?(?P<body>.*)";

/// What reading the metadata block leaves of `before`: the body after the
/// block, where there is one, and otherwise the same item.
pub open spec fn stripped(before: Item, after: Item) -> bool {
    &&& after.body@ == match regex_group(FRONT_MATTER@, before.body@, "body"@) {
        Some(b) => b,
        None => before.body@,
    }
    &&& after.route == before.route
    &&& after.owner() == before.owner()
    &&& after.spec_stale() == before.spec_stale()
}

/// Reads the metadata block at the start of the body, stores it as the
/// item's [`Metadata`], and leaves the rest as the body.
pub fn parse_metadata(item: &mut Item) -> (r: Result)
    ensures
        r is Ok <==> regex_valid(FRONT_MATTER@),
        r is Ok ==> stripped(*old(item), *final(item)),
        r is Err ==> *final(item) == *old(item),
{
    let re = match CompiledRegex::new(FRONT_MATTER) {
        Ok(re) => re,
        Err(_) => {
            return Err(Error::new("the front matter pattern is refused".to_string()));
        },
    };
    let metadata = re.group(item.body.as_str(), "metadata");
    let body = re.group(item.body.as_str(), "body");
    match metadata {
        Some(text) => {
            item.data.insert(Metadata::new(text.as_str()));
        },
        None => {},
    }
    match body {
        Some(b) => {
            item.body = b;
        },
        None => {},
    }
    Ok(())
}

/// A handler that runs [`parse_metadata`].
pub struct ParseMetadata;

impl Handle<Item> for ParseMetadata {
    open spec fn outcome(&self, before: Item, after: Item, r: Result) -> bool {
        &&& r is Ok <==> regex_valid(FRONT_MATTER@)
        &&& r is Ok ==> stripped(before, after)
        &&& r is Err ==> after == before
    }

    fn handle(&self, item: &mut Item) -> (r: Result) {
        parse_metadata(item)
    }
}

/// The HTML that `hoedown` renders from `markdown` with no extensions;
/// `None` where its output is not UTF-8.
pub uninterp spec fn markdown_html(markdown: Seq<char>) -> Option<Seq<char>>;

/// Relies on `hoedown::Html::render` over a `hoedown::Markdown` of the
/// text; the output depends on the text alone.
#[verifier::external_body]
fn hoedown_html(markdown: &str) -> (r: Option<String>)
    ensures
        r matches Some(s) ==> markdown_html(markdown@) == Some(s@),
        r is None <==> markdown_html(markdown@) is None,
{
    let document = hoedown::Markdown::new(markdown);
    let mut html = hoedown::Html::new(hoedown::renderer::html::Flags::empty(), 0);
    html.render(&document).to_str().ok().map(|s| s.to_string())
}

/// The HTML rendered from an item's markdown body.
pub struct Html {
    pub text: String,
}

impl Clone for Html {
    fn clone(&self) -> (r: Self)
        ensures
            r.text == self.text,
    {
        Html { text: self.text.clone() }
    }
}

/// Renders the body as markdown and stores the HTML as the item's [`Html`];
/// fails where the rendering is not text.
pub fn render_markdown(item: &mut Item) -> (r: Result)
    ensures
        r is Ok <==> markdown_html(old(item).body@) is Some,
        final(item).route == old(item).route,
        final(item).body == old(item).body,
        final(item).owner() == old(item).owner(),
        final(item).spec_stale() == old(item).spec_stale(),
{
    match hoedown_html(item.body.as_str()) {
        Some(text) => {
            item.data.insert(Html { text });
            Ok(())
        },
        None => Err(Error::new("the rendered markdown is not text".to_string())),
    }
}

/// A handler that runs [`render_markdown`].
pub struct RenderMarkdown;

impl Handle<Item> for RenderMarkdown {
    open spec fn outcome(&self, before: Item, after: Item, r: Result) -> bool {
        &&& r is Ok <==> markdown_html(before.body@) is Some
        &&& after.route == before.route
        &&& after.body == before.body
        &&& after.owner() == before.owner()
        &&& after.spec_stale() == before.spec_stale()
    }

    fn handle(&self, item: &mut Item) -> (r: Result) {
        render_markdown(item)
    }
}

} // verus!
