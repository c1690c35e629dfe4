//! Routing handlers: they set where an item is written, from where it is
//! read (or, for an item that only writes, from where it writes).

use crate::handle::{Handle, Result};
use crate::item::{Item, Route};
use crate::regexp::{regex_expansion, CompiledRegex};
use vstd::prelude::*;

verus! {

/// The path that `std::path::Path::with_extension` makes of `path` and
/// `extension`.
pub uninterp spec fn with_extension_of(path: Seq<char>, extension: Seq<char>) -> Seq<char>;

/// `extension` holds no path separator: no slash, and no backslash.
pub open spec fn no_separator(extension: Seq<char>) -> bool {
    forall|k: int| 0 <= k < extension.len() ==> extension[k] != '/' && extension[k] != '\\'
}

/// Relies on `std::path::Path::with_extension`: `path` with its extension
/// replaced by `extension`; the result depends on the two texts alone. It
/// panics on an extension that holds a path separator.
#[verifier::external_body]
fn path_with_extension(path: &String, extension: &str) -> (r: String)
    requires
        no_separator(extension@),
    ensures
        r@ == with_extension_of(path@, extension@),
{
    std::path::Path::new(path.as_str()).with_extension(extension).to_string_lossy().into_owned()
}

/// What a router leaves of `before` when it writes to `target`: the item
/// is unchanged but for the path written.
pub open spec fn routed(before: Item, after: Item, target: Seq<char>) -> bool {
    &&& after.route.source() == before.route.source()
    &&& after.route.target() == Some(target)
    &&& after.body == before.body
    &&& after.data == before.data
    &&& after.owner() == before.owner()
    &&& after.spec_stale() == before.spec_stale()
}

/// Writes the item to the path it reads (`file.txt` to `file.txt`).
pub fn identity(item: &mut Item)
    ensures
        routed(*old(item), *final(item), old(item).route.base()),
{
    item.route(|path: &String| -> (r: String)
        ensures
            r@ == path@,
        { path.clone() });
}

/// A handler that routes with [`identity`].
pub struct Identity;

impl Handle<Item> for Identity {
    open spec fn outcome(&self, before: Item, after: Item, r: Result) -> bool {
        r is Ok && routed(before, after, before.route.base())
    }

    fn handle(&self, item: &mut Item) -> (r: Result) {
        identity(item);
        Ok(())
    }
}

/// A handler that writes the item to the path it reads, with another
/// extension (`file.txt` to `file.html`).
pub struct SetExtension {
    extension: String,
}

impl SetExtension {
    #[verifier::type_invariant]
    spec fn inv(&self) -> bool {
        no_separator(self.extension@)
    }

    /// The extension written.
    pub closed spec fn spec_extension(&self) -> Seq<char> {
        self.extension@
    }

    /// A handler that sets the extension `extension`.
    pub fn new(extension: &str) -> (r: SetExtension)
        requires
            no_separator(extension@),
        ensures
            r.spec_extension() == extension@,
    {
        SetExtension { extension: extension.to_string() }
    }
}

/// A handler that sets the extension `extension`.
pub fn set_extension(extension: &str) -> (r: SetExtension)
    requires
        no_separator(extension@),
    ensures
        r.spec_extension() == extension@,
{
    SetExtension::new(extension)
}

impl Handle<Item> for SetExtension {
    open spec fn outcome(&self, before: Item, after: Item, r: Result) -> bool {
        r is Ok && routed(before, after, with_extension_of(before.route.base(), self.spec_extension()))
    }

    fn handle(&self, item: &mut Item) -> (r: Result) {
        proof {
            use_type_invariant(self);
        }
        let extension = self.extension.as_str();
        item.route(|path: &String| -> (r: String)
            ensures
                r@ == with_extension_of(path@, extension@),
            { path_with_extension(path, extension) });
        Ok(())
    }
}

/// A handler that writes the item to the path that a template makes of
/// the groups of a regular expression matched against the path it reads
/// (`posts/post-(?P<name>.+)\.md` and `$name.html`).
pub struct RegexRoute {
    regex: CompiledRegex,
    template: String,
}

impl RegexRoute {
    /// The pattern matched.
    pub closed spec fn spec_pattern(&self) -> Seq<char> {
        self.regex.view()
    }

    /// The template expanded.
    pub closed spec fn spec_template(&self) -> Seq<char> {
        self.template@
    }

    /// A handler that routes with `regex` and `template`.
    pub fn new(regex: CompiledRegex, template: &str) -> (r: RegexRoute)
        ensures
            r.spec_pattern() == regex.view(),
            r.spec_template() == template@,
    {
        RegexRoute { regex, template: template.to_string() }
    }
}

/// The path that routing starts from.
fn base_path(route: &Route) -> (r: &String)
    ensures
        r@ == route.base(),
{
    match route {
        Route::Read(p) => p,
        Route::Write(p) => p,
        Route::ReadWrite(p, _) => p,
    }
}

impl Handle<Item> for RegexRoute {
    /// Fails, leaving the item as it was, where the pattern does not match.
    open spec fn outcome(&self, before: Item, after: Item, r: Result) -> bool {
        &&& r is Ok <==> regex_expansion(self.spec_pattern(), before.route.base(), self.spec_template()) is Some
        &&& r is Ok ==> routed(before, after, regex_expansion(self.spec_pattern(), before.route.base(), self.spec_template())->Some_0)
        &&& r is Err ==> after == before
    }

    fn handle(&self, item: &mut Item) -> (r: Result) {
        let target = self.regex.expand(base_path(&item.route).as_str(), self.template.as_str());
        match target {
            Some(t) => {
                item.route(|_path: &String| -> (r: String)
                    ensures
                        r@ == t@,
                    { t.clone() });
                Ok(())
            },
            None => Err(crate::handle::Error::new("the route pattern does not match".to_string())),
        }
    }
}

} // verus!
