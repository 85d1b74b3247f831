//! The page that a request assembles: its renderable parts, in order, and
//! the set of client-side assets that its templates declare.

use crate::template::{PartView, TemplatePart};
use crate::text::{
    lemma_text_lt_asymmetric, lemma_text_lt_irreflexive, lemma_text_lt_total,
    lemma_text_lt_transitive, text_eq, text_less, text_lt,
};
use vstd::prelude::*;
use vstd::string::*;

verus! {

/// Whether a part can stand in a page: content, or an injection marker.
pub open spec fn is_renderable(part: PartView) -> bool {
    part is Content || part is HeadInjection || part is BodyInjection
}

/// Whether every part of a sequence can stand in a page.
pub open spec fn all_renderable(parts: Seq<PartView>) -> bool {
    forall|i: int| 0 <= i < parts.len() ==> is_renderable(#[trigger] parts[i])
}

/// Whether names stand in strictly ascending order, so that none occurs twice.
pub open spec fn ascending(names: Seq<Seq<char>>) -> bool {
    forall|i: int, j: int| 0 <= i < j < names.len() ==> text_lt(names[i], names[j])
}

/// An ascending sequence of names with `name` added, unless it is there already.
pub open spec fn inserted(names: Seq<Seq<char>>, name: Seq<char>) -> Seq<Seq<char>>
    decreases names.len(),
{
    if names.len() == 0 {
        seq![name]
    } else if names[0] == name {
        names
    } else if text_lt(name, names[0]) {
        seq![name] + names
    } else {
        seq![names[0]] + inserted(names.drop_first(), name)
    }
}

/// The mathematical value of a [`Page`].
pub struct PageView {
    /// The client runtime that the head injection carries.
    pub preamble: Seq<char>,
    /// The renderable parts, in order.
    pub parts: Seq<PartView>,
    /// The declared assets, ascending and without repetition.
    pub sources: Seq<Seq<char>>,
}

/// A page with one more part taken in: an asset declaration joins the set of
/// assets, any other part is appended.
pub open spec fn with_part(page: PageView, part: PartView) -> PageView {
    match part {
        PartView::Source(name) => PageView { sources: inserted(page.sources, name), ..page },
        _ => PageView { parts: page.parts.push(part), ..page },
    }
}

/// Taking a part in keeps a page well formed.
pub proof fn lemma_with_part_well_formed(page: PageView, part: PartView)
    requires
        all_renderable(page.parts),
        ascending(page.sources),
        !(part is Route),
        !(part is Embed),
    ensures
        all_renderable(with_part(page, part).parts),
        ascending(with_part(page, part).sources),
{
    match part {
        PartView::Source(name) => {
            lemma_inserted_ascending(page.sources, name);
        },
        _ => {},
    }
}

/// Where `name` stands, or would stand, in an ascending sequence.
pub proof fn lemma_inserted_at(names: Seq<Seq<char>>, name: Seq<char>, i: int)
    requires
        0 <= i <= names.len(),
        forall|j: int| 0 <= j < i ==> text_lt(names[j], name),
        i < names.len() ==> !text_lt(names[i], name),
    ensures
        inserted(names, name) == if i < names.len() && names[i] == name {
            names
        } else {
            names.insert(i, name)
        },
    decreases i,
{
    if i == 0 {
        if names.len() == 0 {
            assert(names.insert(0, name) =~= seq![name]);
        } else if names[0] != name {
            lemma_text_lt_total(name, names[0]);
            assert(names.insert(0, name) =~= seq![name] + names);
        }
    } else {
        lemma_text_lt_irreflexive(name);
        lemma_text_lt_asymmetric(names[0], name);
        let rest = names.drop_first();
        assert forall|j: int| 0 <= j < i - 1 implies text_lt(rest[j], name) by {
            assert(rest[j] == names[j + 1]);
        }
        lemma_inserted_at(rest, name, i - 1);
        if i < names.len() && names[i] == name {
            assert(rest[i - 1] == names[i]);
            assert(seq![names[0]] + rest =~= names);
        } else {
            if i - 1 < rest.len() {
                assert(rest[i - 1] == names[i]);
            }
            assert(seq![names[0]] + rest.insert(i - 1, name) =~= names.insert(i, name));
        }
    }
}

/// Adding a name to an ascending sequence leaves it ascending.
pub proof fn lemma_inserted_ascending(names: Seq<Seq<char>>, name: Seq<char>)
    requires
        ascending(names),
    ensures
        ascending(inserted(names, name)),
    decreases names.len(),
{
    if names.len() == 0 {
    } else if names[0] == name {
    } else if text_lt(name, names[0]) {
        let out = seq![name] + names;
        assert forall|i: int, j: int| 0 <= i < j < out.len() implies text_lt(out[i], out[j]) by {
            if i == 0 {
                if j > 1 {
                    lemma_text_lt_transitive(name, names[0], names[j - 1]);
                }
            }
        }
    } else {
        let rest = names.drop_first();
        assert(ascending(rest)) by {
            assert forall|i: int, j: int| 0 <= i < j < rest.len() implies text_lt(
                rest[i],
                rest[j],
            ) by {
                assert(rest[i] == names[i + 1] && rest[j] == names[j + 1]);
            }
        }
        lemma_inserted_ascending(rest, name);
        lemma_inserted_members(rest, name);
        lemma_text_lt_total(name, names[0]);
        let tail = inserted(rest, name);
        let out = seq![names[0]] + tail;
        assert forall|i: int, j: int| 0 <= i < j < out.len() implies text_lt(out[i], out[j]) by {
            if i == 0 {
                let x = tail[j - 1];
                assert(tail.contains(x));
                if x != name {
                    assert(rest.contains(x));
                    let k = choose|k: int| 0 <= k < rest.len() && rest[k] == x;
                    assert(rest[k] == names[k + 1]);
                }
            } else {
                assert(out[i] == tail[i - 1] && out[j] == tail[j - 1]);
            }
        }
    }
}

/// Adding a name adds that name and nothing else.
pub proof fn lemma_inserted_members(names: Seq<Seq<char>>, name: Seq<char>)
    ensures
        forall|x: Seq<char>| #[trigger]
            inserted(names, name).contains(x) <==> (x == name || names.contains(x)),
    decreases names.len(),
{
    let out = inserted(names, name);
    if names.len() == 0 {
        assert forall|x: Seq<char>| #[trigger] out.contains(x) <==> (x == name || names.contains(
            x,
        )) by {
            if x == name {
                assert(out[0] == x);
            }
        }
    } else if names[0] == name {
        assert forall|x: Seq<char>| #[trigger] out.contains(x) <==> (x == name || names.contains(
            x,
        )) by {
            if x == name {
                assert(names[0] == x);
            }
        }
    } else if text_lt(name, names[0]) {
        assert forall|x: Seq<char>| #[trigger] out.contains(x) <==> (x == name || names.contains(
            x,
        )) by {
            if x == name {
                assert(out[0] == x);
            }
            if names.contains(x) {
                let k = choose|k: int| 0 <= k < names.len() && names[k] == x;
                assert(out[k + 1] == x);
            }
            if out.contains(x) {
                let k = choose|k: int| 0 <= k < out.len() && out[k] == x;
                if k > 0 {
                    assert(names[k - 1] == x);
                }
            }
        }
    } else {
        let rest = names.drop_first();
        let tail = inserted(rest, name);
        lemma_inserted_members(rest, name);
        assert forall|x: Seq<char>| #[trigger] out.contains(x) <==> (x == name || names.contains(
            x,
        )) by {
            if out.contains(x) {
                let k = choose|k: int| 0 <= k < out.len() && out[k] == x;
                if k == 0 {
                    assert(names[0] == x);
                } else {
                    assert(tail[k - 1] == x);
                    assert(tail.contains(x));
                    if x != name {
                        let m = choose|m: int| 0 <= m < rest.len() && rest[m] == x;
                        assert(names[m + 1] == x);
                    }
                }
            }
            if x == name {
                assert(tail.contains(x));
                let k = choose|k: int| 0 <= k < tail.len() && tail[k] == x;
                assert(out[k + 1] == x);
            }
            if names.contains(x) {
                let k = choose|k: int| 0 <= k < names.len() && names[k] == x;
                if k == 0 {
                    assert(out[0] == x);
                } else {
                    assert(rest[k - 1] == x);
                    assert(rest.contains(x));
                    assert(tail.contains(x));
                    let m = choose|m: int| 0 <= m < tail.len() && tail[m] == x;
                    assert(out[m + 1] == x);
                }
            }
        }
    }
}

/// Two ascending sequences that hold the same names are the same sequence.
pub proof fn lemma_ascending_unique(first: Seq<Seq<char>>, second: Seq<Seq<char>>)
    requires
        ascending(first),
        ascending(second),
        forall|x: Seq<char>| first.contains(x) <==> second.contains(x),
    ensures
        first == second,
    decreases first.len(),
{
    if first.len() == 0 {
        if second.len() > 0 {
            assert(second.contains(second[0]));
        }
        assert(first =~= second);
    } else if second.len() == 0 {
        assert(first.contains(first[0]));
    } else {
        assert(first.contains(first[0]));
        assert(second.contains(second[0]));
        let i = choose|i: int| 0 <= i < second.len() && second[i] == first[0];
        let j = choose|j: int| 0 <= j < first.len() && first[j] == second[0];
        if i > 0 && j > 0 {
            lemma_text_lt_asymmetric(second[0], second[i]);
        }
        if i > 0 && j == 0 {
            lemma_text_lt_irreflexive(second[0]);
        }
        if i == 0 && j > 0 {
            lemma_text_lt_irreflexive(first[0]);
        }
        assert(first[0] == second[0]);
        let a = first.drop_first();
        let b = second.drop_first();
        assert forall|x: Seq<char>| a.contains(x) <==> b.contains(x) by {
            if a.contains(x) {
                let k = choose|k: int| 0 <= k < a.len() && a[k] == x;
                assert(first[k + 1] == x);
                assert(first.contains(x));
                lemma_text_lt_irreflexive(x);
                let m = choose|m: int| 0 <= m < second.len() && second[m] == x;
                assert(m > 0);
                assert(b[m - 1] == x);
            }
            if b.contains(x) {
                let k = choose|k: int| 0 <= k < b.len() && b[k] == x;
                assert(second[k + 1] == x);
                assert(second.contains(x));
                lemma_text_lt_irreflexive(x);
                let m = choose|m: int| 0 <= m < first.len() && first[m] == x;
                assert(m > 0);
                assert(a[m - 1] == x);
            }
        }
        assert(ascending(a)) by {
            assert forall|p: int, q: int| 0 <= p < q < a.len() implies text_lt(a[p], a[q]) by {
                assert(a[p] == first[p + 1] && a[q] == first[q + 1]);
            }
        }
        assert(ascending(b)) by {
            assert forall|p: int, q: int| 0 <= p < q < b.len() implies text_lt(b[p], b[q]) by {
                assert(b[p] == second[p + 1] && b[q] == second[q + 1]);
            }
        }
        lemma_ascending_unique(a, b);
        assert(first =~= seq![first[0]] + a);
        assert(second =~= seq![second[0]] + b);
    }
}

/// The assets of a page are a set: adding a name that is there changes nothing.
pub proof fn lemma_inserted_idempotent(names: Seq<Seq<char>>, name: Seq<char>)
    requires
        ascending(names),
    ensures
        inserted(inserted(names, name), name) == inserted(names, name),
{
    let once = inserted(names, name);
    lemma_inserted_ascending(names, name);
    lemma_inserted_ascending(once, name);
    lemma_inserted_members(names, name);
    lemma_inserted_members(once, name);
    lemma_ascending_unique(inserted(once, name), once);
}

/// The assets of a page are a set: the order in which names are added does
/// not show.
pub proof fn lemma_inserted_commutes(names: Seq<Seq<char>>, first: Seq<char>, second: Seq<char>)
    requires
        ascending(names),
    ensures
        inserted(inserted(names, first), second) == inserted(inserted(names, second), first),
{
    let a = inserted(names, first);
    let b = inserted(names, second);
    lemma_inserted_ascending(names, first);
    lemma_inserted_ascending(names, second);
    lemma_inserted_ascending(a, second);
    lemma_inserted_ascending(b, first);
    lemma_inserted_members(names, first);
    lemma_inserted_members(names, second);
    lemma_inserted_members(a, second);
    lemma_inserted_members(b, first);
    lemma_ascending_unique(inserted(a, second), inserted(b, first));
}

/// The markup that replaces the head injection marker: a script that
/// declares the asset manifest and carries the client runtime.
pub open spec fn head_injection_text(manifest: Seq<char>, preamble: Seq<char>) -> Seq<char> {
    "\n            <script>\n              const sources = "@ + manifest + "\n              "@
        + preamble + "\n            </script>\n        "@
}

/// The markup that replaces the body injection marker: the client bootstrap.
pub open spec fn body_injection_text() -> Seq<char> {
    "<script type=\"module\" src=\"index.js\"></script>"@
}

/// The text of one part of a page, given the text of the head injection.
pub open spec fn part_text(part: PartView, head: Seq<char>) -> Seq<char> {
    match part {
        PartView::Content(text) => text,
        PartView::HeadInjection => head,
        PartView::BodyInjection => body_injection_text(),
        _ => Seq::<char>::empty(),
    }
}

/// The text of a sequence of parts: the text of each, in order.
pub open spec fn rendered(parts: Seq<PartView>, head: Seq<char>) -> Seq<char>
    decreases parts.len(),
{
    if parts.len() == 0 {
        Seq::<char>::empty()
    } else {
        rendered(parts.drop_last(), head) + part_text(parts.last(), head)
    }
}

/// The JSON text of a list of names, where the serializer gives one.
pub uninterp spec fn json_text(names: Seq<Seq<char>>) -> Option<Seq<char>>;

/// The asset manifest of a page: the JSON array of its asset names, or the
/// empty array where the serializer gives none.
pub open spec fn manifest_text(sources: Seq<Seq<char>>) -> Seq<char> {
    match json_text(sources) {
        Some(text) => text,
        None => "[]"@,
    }
}

/// The text that a page renders to with a given manifest.
pub open spec fn page_text(page: PageView, manifest: Seq<char>) -> Seq<char> {
    rendered(page.parts, head_injection_text(manifest, page.preamble))
}

/// `serde_json::to_string` on a list of strings: the JSON text depends on
/// the strings and their order alone; `None` where it reports an error.
#[verifier::external_body]
fn to_json(names: &Vec<String>) -> (r: Option<String>)
    ensures
        r.deep_view() == json_text(names.deep_view()),
{
    serde_json::to_string(names).ok()
}

/// The page that a request assembles.
#[derive(Debug)]
pub struct Page {
    preamble: String,
    parts: Vec<TemplatePart>,
    sources: Vec<String>,
}

impl View for Page {
    type V = PageView;

    closed spec fn view(&self) -> PageView {
        PageView {
            preamble: self.preamble@,
            parts: self.parts.deep_view(),
            sources: self.sources.deep_view(),
        }
    }
}

impl Page {
    /// Only renderable parts stand in a page, and its assets are ascending.
    pub open spec fn well_formed(&self) -> bool {
        all_renderable(self@.parts) && ascending(self@.sources)
    }

    /// An empty page that carries the given client runtime.
    pub fn new(preamble: String) -> (r: Page)
        ensures
            r@ == (PageView { preamble: preamble@, parts: seq![], sources: seq![] }),
            r.well_formed(),
    {
        let page = Page { preamble, parts: Vec::new(), sources: Vec::new() };
        assert(page.parts.deep_view() =~= Seq::<PartView>::empty());
        assert(page.sources.deep_view() =~= Seq::<Seq<char>>::empty());
        page
    }

    /// The renderable parts, in order.
    pub fn parts(&self) -> (r: &Vec<TemplatePart>)
        ensures
            r.deep_view() == self@.parts,
    {
        &self.parts
    }

    /// The declared assets, ascending and without repetition.
    pub fn sources(&self) -> (r: &Vec<String>)
        ensures
            r.deep_view() == self@.sources,
    {
        &self.sources
    }

    /// Where `name` stands, or would stand, among the assets.
    fn position(&self, name: &str) -> (i: usize)
        ensures
            i <= self@.sources.len(),
            forall|j: int| 0 <= j < i ==> text_lt(self@.sources[j], name@),
            i < self@.sources.len() ==> !text_lt(self@.sources[i as int], name@),
    {
        let n = self.sources.len();
        let mut i: usize = 0;
        while i < n
            invariant
                n == self.sources@.len(),
                i <= n,
                forall|j: int| 0 <= j < i ==> text_lt(self.sources.deep_view()[j], name@),
            decreases n - i,
        {
            if !text_less(self.sources[i].as_str(), name) {
                return i;
            }
            i += 1;
        }
        i
    }

    /// Adds `name` to the assets, unless it is there already.
    fn insert_source(&mut self, name: String)
        ensures
            final(self)@ == (PageView { sources: inserted(old(self)@.sources, name@), ..old(self)@ }),
    {
        let ghost before = self.sources.deep_view();
        let i = self.position(name.as_str());
        proof {
            lemma_inserted_at(before, name@, i as int);
        }
        if i < self.sources.len() && text_eq(self.sources[i].as_str(), name.as_str()) {
            return ;
        }
        self.sources.insert(i, name);
        assert(self.sources.deep_view() =~= before.insert(i as int, name@));
    }

    /// Takes one part in: an asset declaration joins the set of assets, any
    /// other part is appended.
    pub fn push_part(&mut self, part: TemplatePart)
        requires
            !(part@ is Route),
            !(part@ is Embed),
        ensures
            final(self)@ == with_part(old(self)@, part@),
            old(self).well_formed() ==> final(self).well_formed(),
    {
        proof {
            if self.well_formed() {
                lemma_with_part_well_formed(self@, part@);
            }
        }
        match part {
            TemplatePart::Source(name) => {
                self.insert_source(name);
            },
            _ => {
                let ghost before = self.parts.deep_view();
                let ghost value = part@;
                self.parts.push(part);
                assert(self.parts.deep_view() =~= before.push(value));
            },
        }
    }

    /// The markup that replaces the head injection marker, given the manifest.
    pub fn head_injection(&self, manifest: &str) -> (r: String)
        ensures
            r@ == head_injection_text(manifest@, self@.preamble),
    {
        let mut text = String::from_str("\n            <script>\n              const sources = ");
        text.append(manifest);
        text.append("\n              ");
        text.append(self.preamble.as_str());
        text.append("\n            </script>\n        ");
        text
    }

    /// The markup that replaces the body injection marker.
    pub fn body_injection(&self) -> (r: &'static str)
        ensures
            r@ == body_injection_text(),
    {
        "<script type=\"module\" src=\"index.js\"></script>"
    }

    /// The asset manifest: the JSON array of the asset names.
    pub fn manifest(&self) -> (r: String)
        ensures
            r@ == manifest_text(self@.sources),
    {
        match to_json(&self.sources) {
            Some(text) => text,
            None => String::from_str("[]"),
        }
    }

    /// Renders the page with a given manifest: content as it stands, each
    /// injection marker replaced by its markup.
    pub fn render_with_manifest(&self, manifest: &str) -> (r: String)
        ensures
            r@ == page_text(self@, manifest@),
    {
        let head = self.head_injection(manifest);
        let ghost parts = self.parts.deep_view();
        let mut html = String::new();
        let n = self.parts.len();
        let mut i: usize = 0;
        assert(parts.take(0) =~= Seq::<PartView>::empty());
        while i < n
            invariant
                n == self.parts@.len(),
                i <= n,
                parts == self.parts.deep_view(),
                html@ == rendered(parts.take(i as int), head@),
            decreases n - i,
        {
            proof {
                let upto = parts.take(i + 1);
                assert(upto.drop_last() =~= parts.take(i as int));
                assert(upto.last() == parts[i as int]);
            }
            match &self.parts[i] {
                TemplatePart::Content(text) => html.append(text.as_str()),
                TemplatePart::HeadInjection => html.append(head.as_str()),
                TemplatePart::BodyInjection => html.append(self.body_injection()),
                _ => {
                    assert(html@ + Seq::<char>::empty() =~= html@);
                },
            }
            i += 1;
        }
        assert(parts.take(n as int) =~= parts);
        html
    }

    /// Renders the page.
    pub fn render(&self) -> (r: String)
        ensures
            r@ == page_text(self@, manifest_text(self@.sources)),
    {
        let manifest = self.manifest();
        self.render_with_manifest(manifest.as_str())
    }
}


} // verus!
