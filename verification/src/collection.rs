//! The collection of compiled templates of one directory, refreshed as a
//! whole when the digest of the directory changes, and the assembly of pages
//! from it.

use crate::cache::{compute_cache_key, digest_of, lemma_digest_order_independent};
use crate::error::{AssemblyError, AssemblyErrorView, RefreshError, RefreshErrorView};
use crate::page::{
    all_renderable, ascending, lemma_with_part_well_formed, manifest_text, page_text, with_part,
    Page, PageView,
};
use crate::route::{has_segment, lemma_next_separator_bounds, matched, remainder};
use crate::template::{compiled_source, PartView, Template, TemplatePart, TemplateView};
use crate::text::text_eq;
use vstd::prelude::*;
use vstd::string::*;

verus! {

/// How many files deep templates may refer to one another, the entry file
/// counted.
pub const MAX_DEPTH: usize = 64;

/// The file at which the assembly of every page starts.
pub open spec fn entry_file() -> Seq<char> {
    "index.html"@
}

/// A template source: the name of the file relative to the template
/// directory, and its bytes.
#[derive(Debug, PartialEq, Eq)]
pub struct SourceFile {
    pub name: String,
    pub content: Vec<u8>,
}

/// The mathematical value of a [`SourceFile`].
pub struct SourceFileView {
    pub name: Seq<char>,
    pub content: Seq<u8>,
}

impl View for SourceFile {
    type V = SourceFileView;

    open spec fn view(&self) -> SourceFileView {
        SourceFileView { name: self.name@, content: self.content@ }
    }
}

impl DeepView for SourceFile {
    type V = SourceFileView;

    open spec fn deep_view(&self) -> SourceFileView {
        self@
    }
}

/// The mapping that a sequence of named templates gives: a later template
/// replaces an earlier one of the same name.
pub open spec fn stored(templates: Seq<(Seq<char>, TemplateView)>) -> Map<Seq<char>, TemplateView>
    decreases templates.len(),
{
    if templates.len() == 0 {
        Map::empty()
    } else {
        stored(templates.drop_last()).insert(templates.last().0, templates.last().1)
    }
}

/// The templates that a sequence of sources compiles to, each under its
/// name, or the first file that fails with its error.
pub open spec fn compiled_files(files: Seq<SourceFileView>) -> Result<
    Seq<(Seq<char>, TemplateView)>,
    RefreshErrorView,
>
    decreases files.len(),
{
    if files.len() == 0 {
        Ok(seq![])
    } else {
        match compiled_files(files.drop_last()) {
            Ok(templates) => match compiled_source(files.last().content) {
                Ok(template) => Ok(templates.push((files.last().name, template))),
                Err(error) => Err(RefreshErrorView { file: files.last().name, error }),
            },
            Err(e) => Err(e),
        }
    }
}

/// Where a prefix of the files fails to compile, so does the whole sequence,
/// with the same error.
pub proof fn lemma_compiled_files_prefix(files: Seq<SourceFileView>, n: int)
    requires
        0 <= n <= files.len(),
        compiled_files(files.take(n)) is Err,
    ensures
        compiled_files(files) == compiled_files(files.take(n)),
    decreases files.len() - n,
{
    if n == files.len() {
        assert(files.take(n) =~= files);
    } else {
        let next = files.take(n + 1);
        assert(next.drop_last() =~= files.take(n));
        lemma_compiled_files_prefix(files, n + 1);
    }
}

/// The mathematical value of a [`TemplateCollection`].
pub struct CollectionView {
    /// The template directory.
    pub directory: Seq<char>,
    /// The client runtime that every page carries.
    pub preamble: Seq<char>,
    /// The digest of the directory as of the last refresh.
    pub cache_key: u64,
    /// The compiled templates, by file name.
    pub templates: Map<Seq<char>, TemplateView>,
}

/// A collection with its templates replaced as a whole and a new digest.
pub open spec fn installed(
    state: CollectionView,
    fresh_key: u64,
    templates: Seq<(Seq<char>, TemplateView)>,
) -> CollectionView {
    CollectionView { cache_key: fresh_key, templates: stored(templates), ..state }
}

/// What a refresh makes of a collection: nothing where the digest is the
/// stored one; else every file is compiled, and the templates and the digest
/// are replaced together, or the first failure is reported.
pub open spec fn refreshed(state: CollectionView, fresh_key: u64, files: Seq<SourceFileView>) -> Result<
    CollectionView,
    RefreshErrorView,
> {
    if state.cache_key == fresh_key {
        Ok(state)
    } else {
        match compiled_files(files) {
            Ok(templates) => Ok(installed(state, fresh_key, templates)),
            Err(e) => Err(e),
        }
    }
}

/// The state of an assembly: what is left of the URL path, and the page so far.
pub struct AssemblyView {
    pub path: Seq<char>,
    pub page: PageView,
}

/// The file that a part refers to, if it refers to one: the target of an
/// embed, or the file that a route gives for the leading segment of the path.
pub open spec fn reference(part: PartView, path: Seq<char>) -> Result<
    Option<Seq<char>>,
    AssemblyErrorView,
> {
    match part {
        PartView::Embed(file) => Ok(Some(file)),
        PartView::Route(route) => if has_segment(path) {
            match matched(route, path) {
                Ok(file) => Ok(Some(file)),
                Err(e) => Err(e),
            }
        } else {
            Err(AssemblyErrorView::NoMatch { segment: Seq::<char>::empty(), remainder: path })
        },
        _ => Ok(None),
    }
}

/// The path after a part has been resolved: a route consumes the leading segment.
pub open spec fn path_after(part: PartView, path: Seq<char>) -> Seq<char> {
    if part is Route && has_segment(path) {
        remainder(path)
    } else {
        path
    }
}

/// The state after the parts of the file `file` have been walked.
pub open spec fn assembled_file(
    templates: Map<Seq<char>, TemplateView>,
    file: Seq<char>,
    state: AssemblyView,
    depth: nat,
) -> Result<AssemblyView, AssemblyErrorView>
    decreases depth, 0nat,
{
    if depth == 0 {
        Err(AssemblyErrorView::TooDeep)
    } else if !templates.dom().contains(file) {
        Err(AssemblyErrorView::UnknownTemplate(file))
    } else {
        assembled_parts(templates, templates[file].parts, state, (depth - 1) as nat)
    }
}

/// The state after a sequence of parts has been walked in order: a part that
/// refers to a file is replaced by the parts of that file, any other part is
/// taken into the page. The first error ends the walk.
pub open spec fn assembled_parts(
    templates: Map<Seq<char>, TemplateView>,
    parts: Seq<PartView>,
    state: AssemblyView,
    depth: nat,
) -> Result<AssemblyView, AssemblyErrorView>
    decreases depth, 1 + parts.len(),
{
    if parts.len() == 0 {
        Ok(state)
    } else {
        match reference(parts[0], state.path) {
            Err(e) => Err(e),
            Ok(Some(file)) => match assembled_file(
                templates,
                file,
                AssemblyView { path: path_after(parts[0], state.path), page: state.page },
                depth,
            ) {
                Ok(next) => assembled_parts(templates, parts.drop_first(), next, depth),
                Err(e) => Err(e),
            },
            Ok(None) => assembled_parts(
                templates,
                parts.drop_first(),
                AssemblyView { path: state.path, page: with_part(state.page, parts[0]) },
                depth,
            ),
        }
    }
}

/// The page that a collection assembles for a URL path.
pub open spec fn page_for(collection: CollectionView, url_path: Seq<char>) -> Result<
    PageView,
    AssemblyErrorView,
> {
    match assembled_file(
        collection.templates,
        entry_file(),
        AssemblyView {
            path: url_path,
            page: PageView { preamble: collection.preamble, parts: seq![], sources: seq![] },
        },
        MAX_DEPTH as nat,
    ) {
        Ok(state) => Ok(state.page),
        Err(e) => Err(e),
    }
}

/// The document that a collection answers a URL path with.
pub open spec fn response(collection: CollectionView, url_path: Seq<char>) -> Result<
    Seq<char>,
    AssemblyErrorView,
> {
    match page_for(collection, url_path) {
        Ok(page) => Ok(page_text(page, manifest_text(page.sources))),
        Err(e) => Err(e),
    }
}

/// A refresh with the digest that the last successful refresh stored
/// changes nothing, whatever the files hold by then: of two refreshes with
/// no change of the directory between them, the second leaves the templates
/// and the digest as the first left them.
pub proof fn lemma_refresh_idempotent(
    state: CollectionView,
    fresh_key: u64,
    files: Seq<SourceFileView>,
    later_files: Seq<SourceFileView>,
)
    requires
        refreshed(state, fresh_key, files) is Ok,
    ensures
        refreshed(refreshed(state, fresh_key, files)->Ok_0, fresh_key, later_files) == refreshed(
            state,
            fresh_key,
            files,
        ),
{
}

/// The collection after a refresh: the refreshed one, or the one before
/// where a file fails to compile.
pub open spec fn after_refresh(
    state: CollectionView,
    fresh_key: u64,
    files: Seq<SourceFileView>,
) -> CollectionView {
    match refreshed(state, fresh_key, files) {
        Ok(next) => next,
        Err(_) => state,
    }
}

/// Refreshing twice from the same directory leaves the collection as
/// refreshing once does, whether or not the files compile.
pub proof fn lemma_refresh_twice(state: CollectionView, fresh_key: u64, files: Seq<SourceFileView>)
    ensures
        after_refresh(after_refresh(state, fresh_key, files), fresh_key, files) == after_refresh(
            state,
            fresh_key,
            files,
        ),
{
}

/// A refresh after which the directory does not change is the last one
/// that does anything: whatever order the directory is listed in the next
/// time, and whatever the files are read as, the next refresh leaves the
/// templates and the digest as they are.
pub proof fn lemma_refresh_unchanged_directory(
    state: CollectionView,
    listing: Seq<(u64, Seq<char>)>,
    files: Seq<SourceFileView>,
    later_listing: Seq<(u64, Seq<char>)>,
    later_files: Seq<SourceFileView>,
)
    requires
        listing.to_multiset() == later_listing.to_multiset(),
        refreshed(state, digest_of(listing), files) is Ok,
    ensures
        refreshed(
            refreshed(state, digest_of(listing), files)->Ok_0,
            digest_of(later_listing),
            later_files,
        ) == refreshed(state, digest_of(listing), files),
{
    lemma_digest_order_independent(listing, later_listing);
}

/// A refresh replaces the templates and the digest together or not at all:
/// its outcome holds either the state as it was, or every compiled file
/// under the new digest.
pub proof fn lemma_refresh_whole(state: CollectionView, fresh_key: u64, files: Seq<SourceFileView>)
    ensures
        match refreshed(state, fresh_key, files) {
            Ok(next) => next == state || (compiled_files(files) matches Ok(templates) && next
                == installed(state, fresh_key, templates)),
            Err(_) => state.cache_key != fresh_key && compiled_files(files) is Err,
        },
{
}

/// Walking a file keeps a page well formed: whatever the templates hold,
/// only content and injection markers reach the parts of the page, and its
/// assets stay ascending.
pub proof fn lemma_assembled_file_well_formed(
    templates: Map<Seq<char>, TemplateView>,
    file: Seq<char>,
    state: AssemblyView,
    depth: nat,
)
    requires
        all_renderable(state.page.parts),
        ascending(state.page.sources),
    ensures
        assembled_file(templates, file, state, depth) matches Ok(next) ==> all_renderable(
            next.page.parts,
        ) && ascending(next.page.sources),
    decreases depth, 0nat,
{
    if depth > 0 && templates.dom().contains(file) {
        lemma_assembled_parts_well_formed(
            templates,
            templates[file].parts,
            state,
            (depth - 1) as nat,
        );
    }
}

/// Walking a sequence of parts keeps a page well formed.
pub proof fn lemma_assembled_parts_well_formed(
    templates: Map<Seq<char>, TemplateView>,
    parts: Seq<PartView>,
    state: AssemblyView,
    depth: nat,
)
    requires
        all_renderable(state.page.parts),
        ascending(state.page.sources),
    ensures
        assembled_parts(templates, parts, state, depth) matches Ok(next) ==> all_renderable(
            next.page.parts,
        ) && ascending(next.page.sources),
    decreases depth, 1 + parts.len(),
{
    if parts.len() > 0 {
        match reference(parts[0], state.path) {
            Err(_) => {},
            Ok(Some(file)) => {
                let inner = AssemblyView {
                    path: path_after(parts[0], state.path),
                    page: state.page,
                };
                lemma_assembled_file_well_formed(templates, file, inner, depth);
                match assembled_file(templates, file, inner, depth) {
                    Ok(next) => {
                        lemma_assembled_parts_well_formed(
                            templates,
                            parts.drop_first(),
                            next,
                            depth,
                        );
                    },
                    Err(_) => {},
                }
            },
            Ok(None) => {
                lemma_with_part_well_formed(state.page, parts[0]);
                lemma_assembled_parts_well_formed(
                    templates,
                    parts.drop_first(),
                    AssemblyView { path: state.path, page: with_part(state.page, parts[0]) },
                    depth,
                );
            },
        }
    }
}

/// Resolving a part leaves the path as it is or takes its leading segment
/// off: the path afterwards is the end of the path before.
pub proof fn lemma_path_after_is_suffix(part: PartView, path: Seq<char>)
    ensures
        path_after(part, path).is_suffix_of(path),
{
    if part is Route && has_segment(path) {
        lemma_next_separator_bounds(path, 1);
    }
    assert(path.subrange(0, path.len() as int) =~= path);
}

/// The end of the end of a path is an end of the path.
pub proof fn lemma_suffix_transitive(a: Seq<char>, b: Seq<char>, c: Seq<char>)
    requires
        a.is_suffix_of(b),
        b.is_suffix_of(c),
    ensures
        a.is_suffix_of(c),
{
    assert(a =~= c.subrange(c.len() - a.len(), c.len() as int));
}

/// The path is read strictly from the left: after a file has been walked,
/// what is left of the path is the end of the path before.
pub proof fn lemma_assembled_file_path(
    templates: Map<Seq<char>, TemplateView>,
    file: Seq<char>,
    state: AssemblyView,
    depth: nat,
)
    ensures
        assembled_file(templates, file, state, depth) matches Ok(next) ==> next.path.is_suffix_of(
            state.path,
        ),
    decreases depth, 0nat,
{
    if depth > 0 && templates.dom().contains(file) {
        lemma_assembled_parts_path(templates, templates[file].parts, state, (depth - 1) as nat);
    }
}

/// After a sequence of parts has been walked, what is left of the path is
/// the end of the path before.
pub proof fn lemma_assembled_parts_path(
    templates: Map<Seq<char>, TemplateView>,
    parts: Seq<PartView>,
    state: AssemblyView,
    depth: nat,
)
    ensures
        assembled_parts(templates, parts, state, depth) matches Ok(next) ==> next.path.is_suffix_of(
            state.path,
        ),
    decreases depth, 1 + parts.len(),
{
    if parts.len() == 0 {
        assert(state.path.subrange(0, state.path.len() as int) =~= state.path);
    } else {
        match reference(parts[0], state.path) {
            Err(_) => {},
            Ok(Some(file)) => {
                let inner = AssemblyView {
                    path: path_after(parts[0], state.path),
                    page: state.page,
                };
                lemma_path_after_is_suffix(parts[0], state.path);
                lemma_assembled_file_path(templates, file, inner, depth);
                match assembled_file(templates, file, inner, depth) {
                    Ok(next) => {
                        lemma_assembled_parts_path(templates, parts.drop_first(), next, depth);
                        match assembled_parts(templates, parts.drop_first(), next, depth) {
                            Ok(last) => {
                                lemma_suffix_transitive(next.path, inner.path, state.path);
                                lemma_suffix_transitive(last.path, next.path, state.path);
                            },
                            Err(_) => {},
                        }
                    },
                    Err(_) => {},
                }
            },
            Ok(None) => {
                lemma_assembled_parts_path(
                    templates,
                    parts.drop_first(),
                    AssemblyView { path: state.path, page: with_part(state.page, parts[0]) },
                    depth,
                );
            },
        }
    }
}

/// Every page that a collection assembles is well formed.
pub proof fn lemma_page_for_well_formed(collection: CollectionView, url_path: Seq<char>)
    ensures
        page_for(collection, url_path) matches Ok(page) ==> all_renderable(page.parts)
            && ascending(page.sources),
{
    lemma_assembled_file_well_formed(
        collection.templates,
        entry_file(),
        AssemblyView {
            path: url_path,
            page: PageView { preamble: collection.preamble, parts: seq![], sources: seq![] },
        },
        MAX_DEPTH as nat,
    );
}

/// Whether no name occurs twice among stored templates.
spec fn names_distinct(entries: Seq<(String, Template)>) -> bool {
    forall|i: int, j: int|
        0 <= i < entries.len() && 0 <= j < entries.len() && i != j ==> (#[trigger] entries[i]).0@
            != (#[trigger] entries[j]).0@
}

/// Whether a template is stored under `name`.
spec fn holds(entries: Seq<(String, Template)>, name: Seq<char>) -> bool {
    exists|i: int| 0 <= i < entries.len() && (#[trigger] entries[i]).0@ == name
}

/// A position at which a template is stored under `name`.
spec fn position_of(entries: Seq<(String, Template)>, name: Seq<char>) -> int {
    choose|i: int| 0 <= i < entries.len() && (#[trigger] entries[i]).0@ == name
}

/// The mapping from names to templates that stored templates stand for.
spec fn entries_map(entries: Seq<(String, Template)>) -> Map<Seq<char>, TemplateView> {
    Map::new(
        |name: Seq<char>| holds(entries, name),
        |name: Seq<char>| entries[position_of(entries, name)].1@,
    )
}

/// Where names are distinct, the mapping holds each template under its name.
proof fn lemma_entries_map_at(entries: Seq<(String, Template)>, i: int)
    requires
        names_distinct(entries),
        0 <= i < entries.len(),
    ensures
        entries_map(entries).dom().contains(entries[i].0@),
        entries_map(entries)[entries[i].0@] == entries[i].1@,
{
    let name = entries[i].0@;
    assert(holds(entries, name));
    let k = position_of(entries, name);
    assert(entries[k].0@ == name);
    assert(k == i);
}

/// Storing a template under a new name adds it to the mapping; storing it
/// in place of the one of the same name replaces that one.
proof fn lemma_entries_map_store(
    before: Seq<(String, Template)>,
    after: Seq<(String, Template)>,
    i: int,
    entry: (String, Template),
)
    requires
        names_distinct(before),
        0 <= i <= before.len(),
        i < before.len() ==> before[i].0@ == entry.0@ && after == before.update(i, entry),
        i == before.len() ==> !holds(before, entry.0@) && after == before.push(entry),
    ensures
        names_distinct(after),
        entries_map(after) == entries_map(before).insert(entry.0@, entry.1@),
{
    assert(after.len() > i && after[i] == entry);
    assert forall|a: int, b: int|
        0 <= a < after.len() && 0 <= b < after.len() && a != b implies (#[trigger] after[a]).0@ != (
    #[trigger] after[b]).0@ by {
        if a != i && b != i {
            assert(after[a] == before[a] && after[b] == before[b]);
        } else if a == i {
            assert(after[b] == before[b]);
            if i < before.len() {
                assert(before[b].0@ != before[i].0@);
            } else {
                assert(!holds(before, entry.0@));
            }
        } else {
            assert(after[a] == before[a]);
            if i < before.len() {
                assert(before[a].0@ != before[i].0@);
            } else {
                assert(!holds(before, entry.0@));
            }
        }
    }
    let want = entries_map(before).insert(entry.0@, entry.1@);
    let have = entries_map(after);
    assert forall|name: Seq<char>| #[trigger] have.dom().contains(name) <==> want.dom().contains(
        name,
    ) by {
        if holds(after, name) {
            let k = position_of(after, name);
            if k != i {
                assert(before[k] == after[k]);
                assert(holds(before, name));
            }
        }
        if holds(before, name) {
            let k = position_of(before, name);
            if k != i {
                assert(after[k] == before[k]);
            }
            assert(after[k].0@ == name);
            assert(holds(after, name));
        }
        if name == entry.0@ {
            assert(after[i].0@ == name);
            assert(holds(after, name));
        }
    }
    assert forall|name: Seq<char>| #[trigger] have.dom().contains(name) implies have[name]
        == want[name] by {
        let k = position_of(after, name);
        lemma_entries_map_at(after, k);
        if k != i {
            assert(before[k] == after[k]);
            lemma_entries_map_at(before, k);
        }
    }
    assert(have =~= want);
}

/// Where names are distinct, the mapping has as many templates as are stored.
proof fn lemma_entries_map_len(entries: Seq<(String, Template)>)
    requires
        names_distinct(entries),
    ensures
        entries_map(entries).dom().finite(),
        entries_map(entries).dom().len() == entries.len(),
    decreases entries.len(),
{
    if entries.len() == 0 {
        assert(entries_map(entries).dom() =~= Set::<Seq<char>>::empty());
    } else {
        let front = entries.drop_last();
        let last = entries.last();
        assert forall|i: int, j: int|
            0 <= i < front.len() && 0 <= j < front.len() && i != j implies (#[trigger] front[i]).0@
            != (#[trigger] front[j]).0@ by {
            assert(front[i] == entries[i] && front[j] == entries[j]);
        }
        lemma_entries_map_len(front);
        assert(!holds(front, last.0@)) by {
            if holds(front, last.0@) {
                let k = position_of(front, last.0@);
                assert(front[k] == entries[k]);
                assert(entries[entries.len() - 1] == last);
            }
        }
        assert(front.push(last) =~= entries);
        lemma_entries_map_store(front, entries, front.len() as int, last);
    }
}

/// Stores a template under its name, in place of the one of that name if
/// there is one.
fn store(cache: &mut Vec<(String, Template)>, name: String, template: Template)
    requires
        names_distinct(old(cache)@),
    ensures
        names_distinct(final(cache)@),
        entries_map(final(cache)@) == entries_map(old(cache)@).insert(name@, template@),
{
    let ghost before = cache@;
    let n = cache.len();
    let mut i: usize = 0;
    while i < n
        invariant
            n == cache@.len(),
            i <= n,
            cache@ == before,
            before == old(cache)@,
            names_distinct(before),
            forall|j: int| 0 <= j < i ==> (#[trigger] before[j]).0@ != name@,
        decreases n - i,
    {
        if text_eq(cache[i].0.as_str(), name.as_str()) {
            let entry = (name, template);
            proof {
                lemma_entries_map_store(before, before.update(i as int, entry), i as int, entry);
            }
            cache.set(i, entry);
            return ;
        }
        i += 1;
    }
    let entry = (name, template);
    proof {
        lemma_entries_map_store(before, before.push(entry), n as int, entry);
    }
    cache.push(entry);
}

/// The collection of compiled templates of one directory.
pub struct TemplateCollection {
    preamble: String,
    directory: String,
    cache_key: u64,
    cache: Vec<(String, Template)>,
}

impl View for TemplateCollection {
    type V = CollectionView;

    closed spec fn view(&self) -> CollectionView {
        CollectionView {
            directory: self.directory@,
            preamble: self.preamble@,
            cache_key: self.cache_key,
            templates: entries_map(self.cache@),
        }
    }
}

impl TemplateCollection {
    /// No two stored templates have the same name.
    #[verifier::type_invariant]
    closed spec fn well_formed(&self) -> bool {
        names_distinct(self.cache@)
    }

    /// An empty collection for a directory, with the client runtime that its
    /// pages carry. Its stored digest is 0.
    pub fn new(directory: String, preamble: String) -> (r: Self)
        ensures
            r@ == (CollectionView {
                directory: directory@,
                preamble: preamble@,
                cache_key: 0,
                templates: Map::empty(),
            }),
    {
        let collection = TemplateCollection {
            preamble,
            directory,
            cache_key: 0,
            cache: Vec::new(),
        };
        assert(collection@.templates =~= Map::<Seq<char>, TemplateView>::empty());
        collection
    }

    /// The template directory.
    pub fn directory(&self) -> (r: &String)
        ensures
            r@ == self@.directory,
    {
        &self.directory
    }

    /// The digest of the directory as of the last refresh.
    pub fn cache_key(&self) -> (r: u64)
        ensures
            r == self@.cache_key,
    {
        self.cache_key
    }

    /// How many templates the collection holds.
    pub fn len(&self) -> (r: usize)
        ensures
            r == self@.templates.dom().len(),
            self@.templates.dom().finite(),
    {
        proof {
            use_type_invariant(self);
            lemma_entries_map_len(self.cache@);
        }
        self.cache.len()
    }

    /// Whether the collection is stale: the digest of the directory is not
    /// the stored one.
    pub fn check(&self, fresh_key: u64) -> (r: bool)
        ensures
            r == (self@.cache_key != fresh_key),
    {
        self.cache_key != fresh_key
    }

    /// Whether the collection is stale with respect to a listing of the
    /// directory, given as the modification time in seconds and the
    /// relative path of each entry.
    pub fn is_stale(&self, listing: Vec<(u64, String)>) -> (r: bool)
        ensures
            r == (self@.cache_key != digest_of(listing.deep_view())),
    {
        self.check(compute_cache_key(listing))
    }

    /// The template compiled from the file `file_name`.
    pub fn get(&self, file_name: &str) -> (r: Option<&Template>)
        ensures
            match r {
                Some(template) => self@.templates.dom().contains(file_name@)
                    && self@.templates[file_name@] == template@,
                None => !self@.templates.dom().contains(file_name@),
            },
    {
        proof {
            use_type_invariant(self);
        }
        let n = self.cache.len();
        let mut i: usize = 0;
        while i < n
            invariant
                n == self.cache@.len(),
                i <= n,
                forall|j: int| 0 <= j < i ==> (#[trigger] self.cache@[j]).0@ != file_name@,
            decreases n - i,
        {
            if text_eq(self.cache[i].0.as_str(), file_name) {
                proof {
                    use_type_invariant(self);
                    lemma_entries_map_at(self.cache@, i as int);
                }
                return Some(&self.cache[i].1);
            }
            i += 1;
        }
        assert(!holds(self.cache@, file_name@));
        None
    }
    /// Compiles every file, in order, each on its own; the first failure
    /// ends the run and names its file.
    pub fn compile_templates(files: &Vec<SourceFile>) -> (r: Result<
        Vec<(String, Template)>,
        RefreshError,
    >)
        ensures
            match r {
                Ok(templates) => compiled_files(files.deep_view()) == Ok::<
                    Seq<(Seq<char>, TemplateView)>,
                    RefreshErrorView,
                >(templates.deep_view()),
                Err(e) => compiled_files(files.deep_view()) == Err::<
                    Seq<(Seq<char>, TemplateView)>,
                    RefreshErrorView,
                >(e@),
            },
    {
        let ghost all = files.deep_view();
        let mut templates: Vec<(String, Template)> = Vec::new();
        let n = files.len();
        let mut i: usize = 0;
        assert(all.take(0) =~= Seq::<SourceFileView>::empty());
        assert(templates.deep_view() =~= Seq::<(Seq<char>, TemplateView)>::empty());
        while i < n
            invariant
                n == files@.len(),
                i <= n,
                all == files.deep_view(),
                compiled_files(all.take(i as int)) == Ok::<
                    Seq<(Seq<char>, TemplateView)>,
                    RefreshErrorView,
                >(templates.deep_view()),
            decreases n - i,
        {
            proof {
                let upto = all.take(i + 1);
                assert(upto.drop_last() =~= all.take(i as int));
                assert(upto.last() == all[i as int]);
            }
            let ghost before = templates.deep_view();
            match Template::compile_source(files[i].content.as_slice()) {
                Ok(template) => {
                    let ghost value = template@;
                    templates.push((files[i].name.clone(), template));
                    assert(templates.deep_view() =~= before.push((all[i as int].name, value)));
                },
                Err(error) => {
                    proof {
                        lemma_compiled_files_prefix(all, i + 1);
                    }
                    return Err(RefreshError { file: files[i].name.clone(), error });
                },
            }
            i += 1;
        }
        assert(all.take(n as int) =~= all);
        Ok(templates)
    }

    /// Replaces the templates as a whole and stores a new digest. A later
    /// template replaces an earlier one of the same name.
    pub fn install(&mut self, fresh_key: u64, templates: Vec<(String, Template)>)
        ensures
            final(self)@ == installed(old(self)@, fresh_key, templates.deep_view()),
    {
        let ghost all = templates.deep_view();
        let mut cache: Vec<(String, Template)> = Vec::new();
        assert(entries_map(cache@) =~= Map::<Seq<char>, TemplateView>::empty());
        assert(all.take(0) =~= Seq::<(Seq<char>, TemplateView)>::empty());
        for entry in it: templates
            invariant
                it.seq() == templates@,
                all == templates.deep_view(),
                names_distinct(cache@),
                entries_map(cache@) == stored(all.take(it.index() as int)),
        {
            proof {
                let upto = all.take(it.index() + 1);
                assert(upto.drop_last() =~= all.take(it.index() as int));
                assert(upto.last() == (entry.0@, entry.1@));
            }
            store(&mut cache, entry.0, entry.1);
        }
        assert(all.take(all.len() as int) =~= all);
        self.cache = cache;
        self.cache_key = fresh_key;
    }

    /// Refreshes the collection where the digest of the directory is not the
    /// stored one: every file is compiled off to the side, then the
    /// templates and the digest are replaced together.
    ///
    /// Where a file fails to compile, the collection is left as it was.
    pub fn recompile(&mut self, fresh_key: u64, files: &Vec<SourceFile>) -> (r: Result<
        (),
        RefreshError,
    >)
        ensures
            match r {
                Ok(()) => refreshed(old(self)@, fresh_key, files.deep_view()) == Ok::<
                    CollectionView,
                    RefreshErrorView,
                >(final(self)@),
                Err(e) => refreshed(old(self)@, fresh_key, files.deep_view()) == Err::<
                    CollectionView,
                    RefreshErrorView,
                >(e@) && final(self)@ == old(self)@,
            },
    {
        if self.cache_key != fresh_key {
            let templates = Self::compile_templates(files)?;
            self.install(fresh_key, templates);
        }
        Ok(())
    }
    /// Refreshes the collection from a listing of the directory and its
    /// files: nothing happens where the digest of the listing is the stored
    /// one.
    pub fn refresh(&mut self, listing: Vec<(u64, String)>, files: &Vec<SourceFile>) -> (r: Result<
        (),
        RefreshError,
    >)
        ensures
            match r {
                Ok(()) => refreshed(
                    old(self)@,
                    digest_of(listing.deep_view()),
                    files.deep_view(),
                ) == Ok::<CollectionView, RefreshErrorView>(final(self)@),
                Err(e) => refreshed(
                    old(self)@,
                    digest_of(listing.deep_view()),
                    files.deep_view(),
                ) == Err::<CollectionView, RefreshErrorView>(e@) && final(self)@ == old(self)@,
            },
    {
        let fresh_key = compute_cache_key(listing);
        self.recompile(fresh_key, files)
    }

    /// The file that a part refers to, if it refers to one. A route consumes
    /// the leading segment of the path; a path without one matches no route.
    pub fn resolve_reference(&self, url_path: &mut String, part: &TemplatePart) -> (r: Result<
        Option<String>,
        AssemblyError,
    >)
        ensures
            final(url_path)@ == path_after(part@, old(url_path)@),
            match r {
                Ok(file) => reference(part@, old(url_path)@) == Ok::<
                    Option<Seq<char>>,
                    AssemblyErrorView,
                >(file.deep_view()),
                Err(e) => reference(part@, old(url_path)@) == Err::<
                    Option<Seq<char>>,
                    AssemblyErrorView,
                >(e@),
            },
    {
        match part {
            TemplatePart::Embed(file_name) => Ok(Some(file_name.clone())),
            TemplatePart::Route(route) => {
                let begins = !url_path.as_str().is_empty() && url_path.as_str().get_char(0)
                    == '/';
                if !begins {
                    return Err(
                        AssemblyError::NoMatch {
                            segment: String::new(),
                            remainder: url_path.clone(),
                        },
                    );
                }
                match route.match_path(url_path) {
                    Ok(file_name) => Ok(Some(file_name)),
                    Err(e) => Err(e),
                }
            },
            _ => Ok(None),
        }
    }

    /// Walks the parts of the file `file_name` into the page, replacing each
    /// part that refers to a file by the parts of that file.
    pub fn collect_parts(
        &self,
        url_path: &mut String,
        file_name: String,
        page: &mut Page,
        depth: usize,
    ) -> (r: Result<(), AssemblyError>)
        ensures
            match r {
                Ok(()) => assembled_file(
                    self@.templates,
                    file_name@,
                    AssemblyView { path: old(url_path)@, page: old(page)@ },
                    depth as nat,
                ) == Ok::<AssemblyView, AssemblyErrorView>(
                    AssemblyView { path: final(url_path)@, page: final(page)@ },
                ),
                Err(e) => assembled_file(
                    self@.templates,
                    file_name@,
                    AssemblyView { path: old(url_path)@, page: old(page)@ },
                    depth as nat,
                ) == Err::<AssemblyView, AssemblyErrorView>(e@),
            },
            old(page).well_formed() ==> final(page).well_formed(),
        decreases depth,
    {
        if depth == 0 {
            return Err(AssemblyError::TooDeep);
        }
        let template = match self.get(file_name.as_str()) {
            Some(template) => template,
            None => {
                return Err(AssemblyError::UnknownTemplate(file_name));
            },
        };
        let parts = template.parts();
        let ghost all = parts.deep_view();
        let ghost start = AssemblyView { path: url_path@, page: page@ };
        let ghost templates = self@.templates;
        let n = parts.len();
        let mut i: usize = 0;
        assert(all.skip(0) =~= all);
        while i < n
            invariant
                n == parts@.len(),
                i <= n,
                0 < depth,
                all == parts.deep_view(),
                templates == self@.templates,
                templates.dom().contains(file_name@),
                templates[file_name@].parts == all,
                start == (AssemblyView { path: old(url_path)@, page: old(page)@ }),
                old(page).well_formed() ==> page.well_formed(),
                assembled_parts(templates, all, start, (depth - 1) as nat) == assembled_parts(
                    templates,
                    all.skip(i as int),
                    AssemblyView { path: url_path@, page: page@ },
                    (depth - 1) as nat,
                ),
            decreases n - i,
        {
            proof {
                let rest = all.skip(i as int);
                assert(rest[0] == all[i as int]);
                assert(rest.drop_first() =~= all.skip(i + 1));
            }
            match self.resolve_reference(url_path, &parts[i])? {
                Some(target) => {
                    self.collect_parts(url_path, target, page, depth - 1)?;
                },
                None => {
                    proof {
                        if page.well_formed() {
                            lemma_with_part_well_formed(page@, all[i as int]);
                        }
                    }
                    page.push_part(parts[i].clone());
                },
            }
            i += 1;
        }
        Ok(())
    }

    /// Assembles the page for a URL path, starting at the entry file.
    ///
    /// Segments of the path that no route consumes are left unread.
    pub fn assemble(&self, url_path: String) -> (r: Result<Page, AssemblyError>)
        ensures
            match r {
                Ok(page) => page_for(self@, url_path@) == Ok::<PageView, AssemblyErrorView>(page@)
                    && page.well_formed(),
                Err(e) => page_for(self@, url_path@) == Err::<PageView, AssemblyErrorView>(e@),
            },
    {
        let mut url_path = url_path;
        let mut page = Page::new(self.preamble.clone());
        self.collect_parts(&mut url_path, String::from_str("index.html"), &mut page, MAX_DEPTH)?;
        Ok(page)
    }

    /// The document for a URL path: the page assembled from the entry file
    /// and rendered.
    pub fn get_page(&self, url_path: String) -> (r: Result<String, AssemblyError>)
        ensures
            match r {
                Ok(html) => response(self@, url_path@) == Ok::<Seq<char>, AssemblyErrorView>(html@),
                Err(e) => response(self@, url_path@) == Err::<Seq<char>, AssemblyErrorView>(e@),
            },
    {
        let page = self.assemble(url_path)?;
        Ok(page.render())
    }
}


} // verus!
