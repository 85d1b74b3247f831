//! The intermediate representation of a template and the compiler that
//! produces it from a token sequence.

pub use crate::collection::TemplateCollection;
use crate::error::{CompileError, CompileErrorView};
use crate::text::{starts_with, text_eq};
use crate::token::{decode_token, decoded_token, html_tokens, lex, RawToken, RawTokenView, Token, TokenView};
use vstd::prelude::*;
use vstd::string::*;

verus! {

/// One entry of a route: the URL segment it answers to and the file it leads to.
#[derive(Debug, PartialEq, Eq)]
pub struct PathEntry {
    pub url: Option<String>,
    pub file: Option<String>,
}

/// The mathematical value of a [`PathEntry`].
pub struct PathEntryView {
    pub url: Option<Seq<char>>,
    pub file: Option<Seq<char>>,
}

impl View for PathEntry {
    type V = PathEntryView;

    open spec fn view(&self) -> PathEntryView {
        PathEntryView { url: self.url.deep_view(), file: self.file.deep_view() }
    }
}

impl DeepView for PathEntry {
    type V = PathEntryView;

    open spec fn deep_view(&self) -> PathEntryView {
        self@
    }
}

impl Clone for PathEntry {
    fn clone(&self) -> (r: Self)
        ensures
            r@ == self@,
    {
        let url = match &self.url {
            Some(url) => Some(url.clone()),
            None => None,
        };
        let file = match &self.file {
            Some(file) => Some(file.clone()),
            None => None,
        };
        PathEntry { url, file }
    }
}

/// A routing table: path entries in declaration order.
#[derive(Debug, PartialEq, Eq)]
pub struct Route {
    pub paths: Vec<PathEntry>,
}

/// The mathematical value of a [`Route`].
pub struct RouteView {
    pub paths: Seq<PathEntryView>,
}

impl View for Route {
    type V = RouteView;

    open spec fn view(&self) -> RouteView {
        RouteView { paths: self.paths.deep_view() }
    }
}

impl DeepView for Route {
    type V = RouteView;

    open spec fn deep_view(&self) -> RouteView {
        self@
    }
}

impl Clone for Route {
    fn clone(&self) -> (r: Self)
        ensures
            r@ == self@,
    {
        let mut paths: Vec<PathEntry> = Vec::new();
        let n = self.paths.len();
        let mut i: usize = 0;
        while i < n
            invariant
                n == self.paths@.len(),
                i <= n,
                paths@.len() == i,
                forall|j: int| 0 <= j < i ==> (#[trigger] paths@[j])@ == self.paths@[j]@,
            decreases n - i,
        {
            paths.push(self.paths[i].clone());
            i += 1;
        }
        assert(paths.deep_view() =~= self.paths.deep_view());
        Route { paths }
    }
}

/// One element of a compiled template.
#[derive(Debug, PartialEq, Eq)]
pub enum TemplatePart {
    /// Markup or text that is emitted as it stands.
    Content(String),
    /// The place, before the end of the head, where the asset manifest goes.
    HeadInjection,
    /// A routing table: one URL segment chooses the file to splice in.
    Route(Route),
    /// Another template file to splice in.
    Embed(String),
    /// The place, before the end of the body, where the client bootstrap goes.
    BodyInjection,
    /// A client-side asset that the page depends on.
    Source(String),
}

/// The mathematical value of a [`TemplatePart`].
pub enum PartView {
    Content(Seq<char>),
    HeadInjection,
    Route(RouteView),
    Embed(Seq<char>),
    BodyInjection,
    Source(Seq<char>),
}

impl View for TemplatePart {
    type V = PartView;

    open spec fn view(&self) -> PartView {
        match *self {
            TemplatePart::Content(text) => PartView::Content(text@),
            TemplatePart::HeadInjection => PartView::HeadInjection,
            TemplatePart::Route(route) => PartView::Route(route@),
            TemplatePart::Embed(file) => PartView::Embed(file@),
            TemplatePart::BodyInjection => PartView::BodyInjection,
            TemplatePart::Source(name) => PartView::Source(name@),
        }
    }
}

impl DeepView for TemplatePart {
    type V = PartView;

    open spec fn deep_view(&self) -> PartView {
        self@
    }
}

impl Clone for TemplatePart {
    fn clone(&self) -> (r: Self)
        ensures
            r@ == self@,
    {
        match self {
            TemplatePart::Content(text) => TemplatePart::Content(text.clone()),
            TemplatePart::HeadInjection => TemplatePart::HeadInjection,
            TemplatePart::Route(route) => TemplatePart::Route(route.clone()),
            TemplatePart::Embed(file) => TemplatePart::Embed(file.clone()),
            TemplatePart::BodyInjection => TemplatePart::BodyInjection,
            TemplatePart::Source(name) => TemplatePart::Source(name.clone()),
        }
    }
}

/// A template under compilation and, once its token sequence has ended, the
/// compiled template: its parts in source order.
#[derive(Debug, PartialEq, Eq)]
pub struct Template {
    tag_stack: Vec<String>,
    parts: Vec<TemplatePart>,
    partial_route: Option<Route>,
    ignored: Vec<(String, String)>,
}

/// The mathematical value of a [`Template`].
pub struct TemplateView {
    /// The names of the tags that are open, outermost first.
    pub tag_stack: Seq<Seq<char>>,
    /// The parts emitted so far.
    pub parts: Seq<PartView>,
    /// The route under construction, if one is open.
    pub partial_route: Option<RouteView>,
    /// The directive attributes that were not recognised and left out, in
    /// source order, each with its value.
    pub ignored: Seq<(Seq<char>, Seq<char>)>,
}

impl View for Template {
    type V = TemplateView;

    closed spec fn view(&self) -> TemplateView {
        TemplateView {
            tag_stack: self.tag_stack.deep_view(),
            parts: self.parts.deep_view(),
            partial_route: self.partial_route.deep_view(),
            ignored: self.ignored.deep_view(),
        }
    }
}

impl DeepView for Template {
    type V = TemplateView;

    open spec fn deep_view(&self) -> TemplateView {
        self@
    }
}

/// The tag that opens a route.
pub open spec fn route_tag() -> Seq<char> {
    "x-route"@
}

/// The tag that adds an entry to the open route.
pub open spec fn path_tag() -> Seq<char> {
    "x-path"@
}

/// The tag that embeds another template.
pub open spec fn embed_tag() -> Seq<char> {
    "x-embed"@
}

/// The attribute that declares a client-side asset.
pub open spec fn source_attribute() -> Seq<char> {
    "x-source"@
}

/// The prefix that marks a tag or an attribute as a directive.
pub open spec fn directive_prefix() -> Seq<char> {
    "x-"@
}

/// Whether a name belongs to the directive namespace.
pub open spec fn is_directive(name: Seq<char>) -> bool {
    directive_prefix().is_prefix_of(name)
}

/// Whether a tag of this name is closed as soon as it is opened.
pub open spec fn is_void_name(name: Seq<char>) -> bool {
    ||| name == "area"@
    ||| name == "base"@
    ||| name == "br"@
    ||| name == "col"@
    ||| name == "embed"@
    ||| name == "hr"@
    ||| name == "img"@
    ||| name == "input"@
    ||| name == "link"@
    ||| name == "meta"@
    ||| name == "source"@
    ||| name == "track"@
    ||| name == "wbr"@
    ||| name == path_tag()
    ||| name == embed_tag()
}

/// The value of the first attribute called `key`.
pub open spec fn attribute(attributes: Seq<(Seq<char>, Seq<char>)>, key: Seq<char>) -> Option<
    Seq<char>,
>
    decreases attributes.len(),
{
    if attributes.len() == 0 {
        None
    } else if attributes[0].0 == key {
        Some(attributes[0].1)
    } else {
        attribute(attributes.drop_first(), key)
    }
}

/// The route entry that the attributes of a route-entry tag describe.
pub open spec fn path_entry(attributes: Seq<(Seq<char>, Seq<char>)>) -> PathEntryView {
    PathEntryView { url: attribute(attributes, "url"@), file: attribute(attributes, "file"@) }
}

/// Whether an attribute of an ordinary tag is a directive that is not
/// recognised: it is left out of the rendering and recorded.
pub open spec fn is_ignored(name: Seq<char>) -> bool {
    name != source_attribute() && is_directive(name)
}

/// The attributes of an ordinary tag that are left out and recorded.
pub open spec fn ignored_attributes(attributes: Seq<(Seq<char>, Seq<char>)>) -> Seq<
    (Seq<char>, Seq<char>),
>
    decreases attributes.len(),
{
    if attributes.len() == 0 {
        seq![]
    } else {
        ignored_attributes(attributes.drop_last()) + if is_ignored(attributes.last().0) {
            seq![attributes.last()]
        } else {
            seq![]
        }
    }
}

/// What one attribute of an ordinary tag contributes: an asset declaration,
/// nothing for a directive that is not recognised, else a space, the name
/// and, where the value is not empty, the quoted value.
pub open spec fn attribute_parts(name: Seq<char>, value: Seq<char>) -> Seq<PartView> {
    if name == source_attribute() {
        seq![PartView::Source(value)]
    } else if is_ignored(name) {
        seq![]
    } else if value.len() == 0 {
        seq![PartView::Content(" "@), PartView::Content(name)]
    } else {
        seq![
            PartView::Content(" "@),
            PartView::Content(name),
            PartView::Content("=\""@ + value + "\""@),
        ]
    }
}

/// What the attributes of an ordinary tag contribute, in their order.
pub open spec fn attributes_parts(attributes: Seq<(Seq<char>, Seq<char>)>) -> Seq<PartView>
    decreases attributes.len(),
{
    if attributes.len() == 0 {
        seq![]
    } else {
        attributes_parts(attributes.drop_last()) + attribute_parts(
            attributes.last().0,
            attributes.last().1,
        )
    }
}

/// The parts that render the start tag of an ordinary element.
pub open spec fn open_tag_parts(
    name: Seq<char>,
    attributes: Seq<(Seq<char>, Seq<char>)>,
    self_closing: bool,
) -> Seq<PartView> {
    seq![PartView::Content("<"@ + name)] + attributes_parts(attributes) + (if self_closing {
        seq![PartView::Content("/"@)]
    } else {
        seq![]
    }) + seq![PartView::Content(">"@)]
}

/// The parts that an end tag emits: the injection marker of `head` or
/// `body`, then the literal end tag unless the tag is a directive.
pub open spec fn end_tag_parts(name: Seq<char>) -> Seq<PartView> {
    (if name == "head"@ {
        seq![PartView::HeadInjection]
    } else {
        seq![]
    }) + (if name == "body"@ {
        seq![PartView::BodyInjection]
    } else {
        seq![]
    }) + (if is_directive(name) {
        seq![]
    } else {
        seq![PartView::Content("</"@ + name + ">"@)]
    })
}

/// The parts that a doctype emits.
pub open spec fn doctype_parts(name: Seq<char>) -> Seq<PartView> {
    seq![PartView::Content("<!DOCTYPE "@ + name + ">"@)]
}

/// The state with `name` opened.
pub open spec fn pushed(state: TemplateView, name: Seq<char>) -> TemplateView {
    TemplateView { tag_stack: state.tag_stack.push(name), ..state }
}

/// The state with more parts emitted.
pub open spec fn emitted(state: TemplateView, parts: Seq<PartView>) -> TemplateView {
    TemplateView { parts: state.parts + parts, ..state }
}

/// The state after the innermost open tag has been closed by `name`. Closing
/// the route tag emits the route that was under construction.
pub open spec fn popped(state: TemplateView, name: Seq<char>) -> Result<
    TemplateView,
    CompileErrorView,
> {
    if state.tag_stack.len() == 0 {
        Err(CompileErrorView::UnexpectedEndTag(name))
    } else if state.tag_stack.last() != name {
        Err(CompileErrorView::MismatchedEndTag { expected: state.tag_stack.last(), found: name })
    } else if name == route_tag() {
        match state.partial_route {
            Some(route) => Ok(
                TemplateView {
                    tag_stack: state.tag_stack.drop_last(),
                    parts: state.parts.push(PartView::Route(route)),
                    partial_route: None,
                    ..state
                },
            ),
            None => Err(CompileErrorView::UnexpectedEndTag(name)),
        }
    } else {
        Ok(TemplateView { tag_stack: state.tag_stack.drop_last(), ..state })
    }
}

/// The state after the directive or the rendering of a start tag whose name
/// has just been pushed.
pub open spec fn dispatched(
    opened: TemplateView,
    name: Seq<char>,
    attributes: Seq<(Seq<char>, Seq<char>)>,
    self_closing: bool,
) -> Result<TemplateView, CompileErrorView> {
    if name == route_tag() {
        if opened.partial_route is Some {
            Err(CompileErrorView::NestedRoute)
        } else {
            Ok(TemplateView { partial_route: Some(RouteView { paths: seq![] }), ..opened })
        }
    } else if name == path_tag() {
        match opened.partial_route {
            Some(route) => Ok(
                TemplateView {
                    partial_route: Some(
                        RouteView { paths: route.paths.push(path_entry(attributes)) },
                    ),
                    ..opened
                },
            ),
            None => Err(CompileErrorView::PathOutsideRoute),
        }
    } else if name == embed_tag() {
        match attribute(attributes, "file"@) {
            Some(file) => Ok(emitted(opened, seq![PartView::Embed(file)])),
            None => Err(CompileErrorView::MissingEmbedFile),
        }
    } else {
        Ok(
            TemplateView {
                ignored: opened.ignored + ignored_attributes(attributes),
                ..emitted(opened, open_tag_parts(name, attributes, self_closing))
            },
        )
    }
}

/// The state after a start tag.
pub open spec fn after_start_tag(
    state: TemplateView,
    name: Seq<char>,
    attributes: Seq<(Seq<char>, Seq<char>)>,
    self_closing: bool,
) -> Result<TemplateView, CompileErrorView> {
    match dispatched(pushed(state, name), name, attributes, self_closing) {
        Ok(next) => if self_closing || is_void_name(name) {
            popped(next, name)
        } else {
            Ok(next)
        },
        Err(e) => Err(e),
    }
}

/// The state after an end tag.
pub open spec fn after_end_tag(state: TemplateView, name: Seq<char>) -> Result<
    TemplateView,
    CompileErrorView,
> {
    match popped(state, name) {
        Ok(next) => Ok(emitted(next, end_tag_parts(name))),
        Err(e) => Err(e),
    }
}

/// The state after one token.
pub open spec fn after_token(state: TemplateView, token: TokenView) -> Result<
    TemplateView,
    CompileErrorView,
> {
    match token {
        TokenView::Doctype { name } => Ok(emitted(state, doctype_parts(name))),
        TokenView::StartTag { name, attributes, self_closing } => after_start_tag(
            state,
            name,
            attributes,
            self_closing,
        ),
        TokenView::EndTag { name } => after_end_tag(state, name),
        TokenView::Text(text) => Ok(emitted(state, seq![PartView::Content(text)])),
        TokenView::Comment => Ok(state),
        TokenView::Error(diagnostic) => Err(CompileErrorView::Lexer(diagnostic)),
    }
}

/// The state after a sequence of tokens; the first error ends the run.
pub open spec fn after_tokens(state: TemplateView, tokens: Seq<TokenView>) -> Result<
    TemplateView,
    CompileErrorView,
>
    decreases tokens.len(),
{
    if tokens.len() == 0 {
        Ok(state)
    } else {
        match after_token(state, tokens[0]) {
            Ok(next) => after_tokens(next, tokens.drop_first()),
            Err(e) => Err(e),
        }
    }
}

/// The state in which compilation starts: nothing open, one empty content part.
pub open spec fn initial_state() -> TemplateView {
    TemplateView {
        tag_stack: seq![],
        parts: seq![PartView::Content(Seq::<char>::empty())],
        partial_route: None,
        ignored: seq![],
    }
}

/// What the end of the token sequence makes of a state: every tag must be
/// closed and no route left open.
pub open spec fn finished(state: TemplateView) -> Result<TemplateView, CompileErrorView> {
    if state.tag_stack.len() > 0 {
        Err(CompileErrorView::UnclosedTag(state.tag_stack.last()))
    } else if state.partial_route is Some {
        Err(CompileErrorView::UnclosedTag(route_tag()))
    } else {
        Ok(state)
    }
}

/// The template that a token sequence compiles to, or the first error.
pub open spec fn compiled(tokens: Seq<TokenView>) -> Result<TemplateView, CompileErrorView> {
    match after_tokens(initial_state(), tokens) {
        Ok(state) => finished(state),
        Err(e) => Err(e),
    }
}


/// The state after a sequence of raw tokens: each is decoded just before it
/// is taken in, and the first error of either kind ends the run.
pub open spec fn after_raw_tokens(state: TemplateView, tokens: Seq<RawTokenView>) -> Result<
    TemplateView,
    CompileErrorView,
>
    decreases tokens.len(),
{
    if tokens.len() == 0 {
        Ok(state)
    } else {
        match decoded_token(tokens[0]) {
            Some(token) => match after_token(state, token) {
                Ok(next) => after_raw_tokens(next, tokens.drop_first()),
                Err(e) => Err(e),
            },
            None => Err(CompileErrorView::InvalidUtf8),
        }
    }
}

/// The template that a sequence of raw tokens compiles to, or the first error.
pub open spec fn compiled_raw(tokens: Seq<RawTokenView>) -> Result<TemplateView, CompileErrorView> {
    match after_raw_tokens(initial_state(), tokens) {
        Ok(state) => finished(state),
        Err(e) => Err(e),
    }
}

/// The template that a source compiles to, or the first error.
pub open spec fn compiled_source(source: Seq<u8>) -> Result<TemplateView, CompileErrorView> {
    compiled_raw(html_tokens(source))
}

/// How many route tags are open.
pub open spec fn open_routes(tag_stack: Seq<Seq<char>>) -> nat
    decreases tag_stack.len(),
{
    if tag_stack.len() == 0 {
        0
    } else {
        open_routes(tag_stack.drop_last()) + if tag_stack.last() == route_tag() {
            1nat
        } else {
            0nat
        }
    }
}

/// Whether the route under construction goes with the open tags: a route is
/// under construction exactly while one route tag is open, and never more
/// than one is.
pub open spec fn route_consistent(state: TemplateView) -> bool {
    open_routes(state.tag_stack) == if state.partial_route is Some {
        1nat
    } else {
        0nat
    }
}

/// Opening a tag counts it among the open route tags if it is one.
pub proof fn lemma_open_routes_push(tag_stack: Seq<Seq<char>>, name: Seq<char>)
    ensures
        open_routes(tag_stack.push(name)) == open_routes(tag_stack) + if name == route_tag() {
            1nat
        } else {
            0nat
        },
{
    assert(tag_stack.push(name).drop_last() =~= tag_stack);
}

/// Closing the innermost tag keeps the route consistent with the open tags.
pub proof fn lemma_popped_consistent(state: TemplateView, name: Seq<char>)
    requires
        route_consistent(state),
    ensures
        popped(state, name) matches Ok(next) ==> route_consistent(next),
        state.tag_stack.len() > 0 && state.tag_stack.last() == name ==> popped(state, name) is Ok,
{
}

/// Every token keeps the route consistent with the open tags.
pub proof fn lemma_after_token_consistent(state: TemplateView, token: TokenView)
    requires
        route_consistent(state),
    ensures
        after_token(state, token) matches Ok(next) ==> route_consistent(next),
{
    match token {
        TokenView::StartTag { name, attributes, self_closing } => {
            let opened = pushed(state, name);
            lemma_open_routes_push(state.tag_stack, name);
            match dispatched(opened, name, attributes, self_closing) {
                Ok(next) => {
                    assert(next.tag_stack == opened.tag_stack);
                    assert(route_consistent(next));
                    lemma_popped_consistent(next, name);
                },
                Err(_) => {},
            }
        },
        TokenView::EndTag { name } => {
            lemma_popped_consistent(state, name);
        },
        _ => {},
    }
}

/// Every run of tokens keeps the route consistent with the open tags.
pub proof fn lemma_after_tokens_consistent(state: TemplateView, tokens: Seq<TokenView>)
    requires
        route_consistent(state),
    ensures
        after_tokens(state, tokens) matches Ok(next) ==> route_consistent(next),
    decreases tokens.len(),
{
    if tokens.len() > 0 {
        lemma_after_token_consistent(state, tokens[0]);
        match after_token(state, tokens[0]) {
            Ok(next) => {
                lemma_after_tokens_consistent(next, tokens.drop_first());
            },
            Err(_) => {},
        }
    }
}

/// At the end of any token sequence a route is still under construction
/// only if its tag is still open: compilation fails for an open route
/// exactly when it fails for an open tag.
pub proof fn lemma_open_route_is_open_tag(tokens: Seq<TokenView>)
    ensures
        after_tokens(initial_state(), tokens) matches Ok(state) ==> (state.partial_route is Some
            ==> state.tag_stack.len() > 0),
{
    lemma_after_tokens_consistent(initial_state(), tokens);
}

/// Where every raw token decodes, the raw tokens run as their decoded forms.
pub proof fn lemma_after_raw_tokens_decoded(
    state: TemplateView,
    raw: Seq<RawTokenView>,
    tokens: Seq<TokenView>,
)
    requires
        raw.len() == tokens.len(),
        forall|i: int| 0 <= i < raw.len() ==> decoded_token(#[trigger] raw[i]) == Some(tokens[i]),
    ensures
        after_raw_tokens(state, raw) == after_tokens(state, tokens),
    decreases raw.len(),
{
    if raw.len() > 0 {
        assert(decoded_token(raw[0]) == Some(tokens[0]));
        match after_token(state, tokens[0]) {
            Ok(next) => {
                let raw_rest = raw.drop_first();
                let rest = tokens.drop_first();
                assert forall|i: int| 0 <= i < raw_rest.len() implies decoded_token(
                    #[trigger] raw_rest[i],
                ) == Some(rest[i]) by {
                    assert(raw_rest[i] == raw[i + 1]);
                }
                lemma_after_raw_tokens_decoded(next, raw_rest, rest);
            },
            Err(_) => {},
        }
    }
}

/// Where every raw token decodes, the raw tokens compile to what their
/// decoded forms compile to.
pub proof fn lemma_compiled_raw_decoded(raw: Seq<RawTokenView>, tokens: Seq<TokenView>)
    requires
        raw.len() == tokens.len(),
        forall|i: int| 0 <= i < raw.len() ==> decoded_token(#[trigger] raw[i]) == Some(tokens[i]),
    ensures
        compiled_raw(raw) == compiled(tokens),
{
    lemma_after_raw_tokens_decoded(initial_state(), raw, tokens);
}

/// A compiled template has every tag closed and no route open.
pub proof fn lemma_compiled_complete(tokens: Seq<TokenView>)
    ensures
        compiled(tokens) matches Ok(template) ==> template.tag_stack.len() == 0
            && template.partial_route is None,
{
}

/// Skipping attributes that are not called `key` does not change which one
/// is found.
pub proof fn lemma_attribute_skip(
    attributes: Seq<(Seq<char>, Seq<char>)>,
    key: Seq<char>,
    i: int,
)
    requires
        0 <= i <= attributes.len(),
        forall|j: int| 0 <= j < i ==> attributes[j].0 != key,
    ensures
        attribute(attributes, key) == attribute(attributes.skip(i), key),
    decreases i,
{
    if i == 0 {
        assert(attributes.skip(0) =~= attributes);
    } else {
        lemma_attribute_skip(attributes, key, i - 1);
        let rest = attributes.skip(i - 1);
        assert(rest[0] == attributes[i - 1]);
        assert(rest.drop_first() =~= attributes.skip(i));
    }
}

/// Whether a tag of this name is closed as soon as it is opened.
pub fn is_void_element(tag_name: &String) -> (r: bool)
    ensures
        r == is_void_name(tag_name@),
{
    let name = tag_name.as_str();
    text_eq(name, "area")
        || text_eq(name, "base")
        || text_eq(name, "br")
        || text_eq(name, "col")
        || text_eq(name, "embed")
        || text_eq(name, "hr")
        || text_eq(name, "img")
        || text_eq(name, "input")
        || text_eq(name, "link")
        || text_eq(name, "meta")
        || text_eq(name, "source")
        || text_eq(name, "track")
        || text_eq(name, "wbr")
        || text_eq(name, "x-path")
        || text_eq(name, "x-embed")
}

/// The value of the first attribute called `key`.
pub fn find_attribute(attributes: &Vec<(String, String)>, key: &str) -> (r: Option<String>)
    ensures
        r.deep_view() == attribute(attributes.deep_view(), key@),
{
    let ghost all = attributes.deep_view();
    let n = attributes.len();
    let mut i: usize = 0;
    while i < n
        invariant
            n == attributes@.len(),
            i <= n,
            all == attributes.deep_view(),
            forall|j: int| 0 <= j < i ==> all[j].0 != key@,
        decreases n - i,
    {
        if text_eq(attributes[i].0.as_str(), key) {
            proof {
                lemma_attribute_skip(all, key@, i as int);
                assert(all.skip(i as int)[0] == all[i as int]);
            }
            return Some(attributes[i].1.clone());
        }
        i += 1;
    }
    proof {
        lemma_attribute_skip(all, key@, n as int);
    }
    None
}

impl Template {
    /// The parts of the template, in source order.
    pub fn parts(&self) -> (r: &Vec<TemplatePart>)
        ensures
            r.deep_view() == self@.parts,
    {
        &self.parts
    }

    /// The directive attributes that were not recognised and left out of
    /// the rendering, in source order, each with its value.
    pub fn ignored_attributes(&self) -> (r: &Vec<(String, String)>)
        ensures
            r.deep_view() == self@.ignored,
    {
        &self.ignored
    }

    /// Whether every tag has been closed and no route is open.
    pub open spec fn is_complete(&self) -> bool {
        self@.tag_stack.len() == 0 && self@.partial_route is None
    }

    /// Opens a tag.
    fn push_tag(&mut self, tag_name: &String)
        ensures
            final(self)@ == pushed(old(self)@, tag_name@),
    {
        self.tag_stack.push(tag_name.clone());
        assert(self.tag_stack.deep_view() =~= old(self).tag_stack.deep_view().push(tag_name@));
    }

    /// Closes the innermost open tag, which must be `tag_name`. Closing the
    /// route tag emits the route under construction.
    fn pop_tag(&mut self, tag_name: &String) -> (r: Result<(), CompileError>)
        ensures
            match r {
                Ok(()) => popped(old(self)@, tag_name@) == Ok::<TemplateView, CompileErrorView>(
                    final(self)@,
                ),
                Err(e) => popped(old(self)@, tag_name@) == Err::<TemplateView, CompileErrorView>(
                    e@,
                ),
            },
    {
        let ghost before = self.tag_stack.deep_view();
        let expected_tag = match self.tag_stack.pop() {
            Some(tag) => tag,
            None => {
                return Err(CompileError::UnexpectedEndTag(tag_name.clone()));
            },
        };
        assert(expected_tag@ == before.last());
        assert(self.tag_stack.deep_view() =~= before.drop_last());
        if !text_eq(expected_tag.as_str(), tag_name.as_str()) {
            return Err(
                CompileError::MismatchedEndTag { expected: expected_tag, found: tag_name.clone() },
            );
        }
        if text_eq(expected_tag.as_str(), "x-route") {
            match self.partial_route.take() {
                Some(route) => {
                    let ghost parts = self.parts.deep_view();
                    let ghost value = route@;
                    self.parts.push(TemplatePart::Route(route));
                    assert(self.parts.deep_view() =~= parts.push(PartView::Route(value)));
                },
                None => {
                    return Err(CompileError::UnexpectedEndTag(tag_name.clone()));
                },
            }
        }
        Ok(())
    }

    /// What one attribute of an ordinary tag contributes to its rendering;
    /// a directive that is not recognised is recorded instead.
    fn convert_attribute(
        parts: &mut Vec<TemplatePart>,
        ignored: &mut Vec<(String, String)>,
        name: &String,
        value: &String,
    )
        ensures
            final(parts).deep_view() == old(parts).deep_view() + attribute_parts(name@, value@),
            final(ignored).deep_view() == old(ignored).deep_view() + if is_ignored(name@) {
                seq![(name@, value@)]
            } else {
                seq![]
            },
    {
        let ghost before = parts.deep_view();
        let ghost left_out = ignored.deep_view();
        if text_eq(name.as_str(), "x-source") {
            parts.push(TemplatePart::Source(value.clone()));
            assert(ignored.deep_view() =~= left_out + Seq::<(Seq<char>, Seq<char>)>::empty());
        } else if starts_with(name.as_str(), "x-") {
            ignored.push((name.clone(), value.clone()));
            assert(ignored.deep_view() =~= left_out + seq![(name@, value@)]);
        } else {
            assert(ignored.deep_view() =~= left_out + Seq::<(Seq<char>, Seq<char>)>::empty());
            parts.push(TemplatePart::Content(String::from_str(" ")));
            parts.push(TemplatePart::Content(name.clone()));
            if !value.as_str().is_empty() {
                let mut quoted = String::from_str("=\"");
                quoted.append(value.as_str());
                quoted.append("\"");
                parts.push(TemplatePart::Content(quoted));
            }
        }
        assert(parts.deep_view() =~= before + attribute_parts(name@, value@));
    }

    /// The parts that render the start tag of an ordinary element. The
    /// directive attributes that are not recognised are recorded.
    fn convert_tag(
        &mut self,
        tag_name: &String,
        attributes: &Vec<(String, String)>,
        self_closing: bool,
    ) -> (r: Vec<TemplatePart>)
        ensures
            r.deep_view() == open_tag_parts(tag_name@, attributes.deep_view(), self_closing),
            final(self)@ == (TemplateView {
                ignored: old(self)@.ignored + ignored_attributes(attributes.deep_view()),
                ..old(self)@
            }),
    {
        let ghost all = attributes.deep_view();
        let ghost recorded = self.ignored.deep_view();
        let mut ignored: Vec<(String, String)> = Vec::new();
        assert(ignored.deep_view() =~= Seq::<(Seq<char>, Seq<char>)>::empty());
        assert(all.take(0) =~= Seq::<(Seq<char>, Seq<char>)>::empty());
        let mut parts: Vec<TemplatePart> = Vec::new();
        let mut open = String::from_str("<");
        open.append(tag_name.as_str());
        parts.push(TemplatePart::Content(open));
        let ghost first = seq![PartView::Content("<"@ + tag_name@)];
        assert(parts.deep_view() =~= first);
        let n = attributes.len();
        let mut i: usize = 0;
        while i < n
            invariant
                n == attributes@.len(),
                i <= n,
                all == attributes.deep_view(),
                parts.deep_view() == first + attributes_parts(all.take(i as int)),
                ignored.deep_view() == ignored_attributes(all.take(i as int)),
            decreases n - i,
        {
            Self::convert_attribute(&mut parts, &mut ignored, &attributes[i].0, &attributes[i].1);
            proof {
                let upto = all.take(i + 1);
                assert(upto.drop_last() =~= all.take(i as int));
                assert(upto.last() == all[i as int]);
                assert(parts.deep_view() =~= first + attributes_parts(upto));
            }
            i += 1;
        }
        assert(all.take(n as int) =~= all);
        let ghost added = ignored.deep_view();
        self.ignored.append(&mut ignored);
        assert(self.ignored.deep_view() =~= recorded + added);
        if self_closing {
            parts.push(TemplatePart::Content(String::from_str("/")));
        }
        parts.push(TemplatePart::Content(String::from_str(">")));
        assert(parts.deep_view() =~= open_tag_parts(tag_name@, all, self_closing));
        parts
    }

    /// Takes a start tag in: the tag is opened, a directive takes effect or
    /// an ordinary tag is rendered, and a self-closing or void tag is closed
    /// at once. Returns the parts to append.
    fn handle_start_tag(
        &mut self,
        tag_name: String,
        attributes: Vec<(String, String)>,
        self_closing: bool,
    ) -> (r: Result<Vec<TemplatePart>, CompileError>)
        ensures
            match r {
                Ok(parts) => after_start_tag(
                    old(self)@,
                    tag_name@,
                    attributes.deep_view(),
                    self_closing,
                ) == Ok::<TemplateView, CompileErrorView>(
                    emitted(final(self)@, parts.deep_view()),
                ),
                Err(e) => after_start_tag(
                    old(self)@,
                    tag_name@,
                    attributes.deep_view(),
                    self_closing,
                ) == Err::<TemplateView, CompileErrorView>(e@),
            },
    {
        self.push_tag(&tag_name);
        let ghost opened = self@;
        let mut parts: Vec<TemplatePart> = Vec::new();
        if text_eq(tag_name.as_str(), "x-route") {
            if self.partial_route.is_some() {
                return Err(CompileError::NestedRoute);
            }
            self.partial_route = Some(Route { paths: Vec::new() });
            assert(self.partial_route.deep_view() == Some(RouteView { paths: seq![] })) by {
                assert(self.partial_route->0.paths.deep_view() =~= Seq::<PathEntryView>::empty());
            }
        } else if text_eq(tag_name.as_str(), "x-path") {
            match self.partial_route.take() {
                Some(route) => {
                    let ghost paths = route.paths.deep_view();
                    let mut route = route;
                    let entry = PathEntry {
                        url: find_attribute(&attributes, "url"),
                        file: find_attribute(&attributes, "file"),
                    };
                    route.paths.push(entry);
                    assert(route.paths.deep_view() =~= paths.push(
                        path_entry(attributes.deep_view()),
                    ));
                    self.partial_route = Some(route);
                },
                None => {
                    return Err(CompileError::PathOutsideRoute);
                },
            }
        } else if text_eq(tag_name.as_str(), "x-embed") {
            match find_attribute(&attributes, "file") {
                Some(file) => {
                    parts.push(TemplatePart::Embed(file));
                    assert(parts.deep_view() =~= seq![PartView::Embed(file@)]);
                },
                None => {
                    return Err(CompileError::MissingEmbedFile);
                },
            }
        } else {
            parts = self.convert_tag(&tag_name, &attributes, self_closing);
        }
        let ghost next = emitted(self@, parts.deep_view());
        assert(dispatched(opened, tag_name@, attributes.deep_view(), self_closing) == Ok::<
            TemplateView,
            CompileErrorView,
        >(next)) by {
            assert(self@.parts + Seq::<PartView>::empty() =~= self@.parts);
        }
        if self_closing || is_void_element(&tag_name) {
            let ghost before = self@;
            assert(next.tag_stack == before.tag_stack && next.partial_route == before.partial_route);
            self.pop_tag(&tag_name)?;
            assert(popped(next, tag_name@) == Ok::<TemplateView, CompileErrorView>(
                emitted(self@, parts.deep_view()),
            )) by {
                if tag_name@ == route_tag() {
                    assert(parts.deep_view() =~= Seq::<PartView>::empty());
                    assert(next.parts =~= before.parts);
                    assert(self@.parts + parts.deep_view() =~= self@.parts);
                } else {
                    assert(emitted(self@, parts.deep_view()).parts =~= next.parts);
                }
            }
        }
        Ok(parts)
    }

    /// Takes an end tag in: the innermost open tag is closed. Returns the
    /// parts to append.
    fn handle_end_tag(&mut self, tag_name: String) -> (r: Result<Vec<TemplatePart>, CompileError>)
        ensures
            match r {
                Ok(parts) => after_end_tag(old(self)@, tag_name@) == Ok::<
                    TemplateView,
                    CompileErrorView,
                >(emitted(final(self)@, parts.deep_view())),
                Err(e) => after_end_tag(old(self)@, tag_name@) == Err::<
                    TemplateView,
                    CompileErrorView,
                >(e@),
            },
    {
        let mut parts: Vec<TemplatePart> = Vec::new();
        if text_eq(tag_name.as_str(), "head") {
            parts.push(TemplatePart::HeadInjection);
        }
        if text_eq(tag_name.as_str(), "body") {
            parts.push(TemplatePart::BodyInjection);
        }
        if !starts_with(tag_name.as_str(), "x-") {
            let mut close = String::from_str("</");
            close.append(tag_name.as_str());
            close.append(">");
            parts.push(TemplatePart::Content(close));
        }
        assert(parts.deep_view() =~= end_tag_parts(tag_name@));
        self.pop_tag(&tag_name)?;
        Ok(parts)
    }

    /// The parts that a doctype emits.
    fn handle_doctype(&self, name: String) -> (r: Vec<TemplatePart>)
        ensures
            r.deep_view() == doctype_parts(name@),
    {
        let mut text = String::from_str("<!DOCTYPE ");
        text.append(name.as_str());
        text.append(">");
        let mut parts: Vec<TemplatePart> = Vec::new();
        parts.push(TemplatePart::Content(text));
        assert(parts.deep_view() =~= doctype_parts(name@));
        parts
    }

    /// Takes one token in. Returns the parts to append.
    fn push_token(&mut self, token: Token) -> (r: Result<Vec<TemplatePart>, CompileError>)
        ensures
            match r {
                Ok(parts) => after_token(old(self)@, token@) == Ok::<TemplateView, CompileErrorView>(
                    emitted(final(self)@, parts.deep_view()),
                ),
                Err(e) => after_token(old(self)@, token@) == Err::<TemplateView, CompileErrorView>(
                    e@,
                ),
            },
    {
        match token {
            Token::Doctype { name } => Ok(self.handle_doctype(name)),
            Token::StartTag { name, attributes, self_closing } => self.handle_start_tag(
                name,
                attributes,
                self_closing,
            ),
            Token::EndTag { name } => self.handle_end_tag(name),
            Token::Text(text) => {
                let mut parts: Vec<TemplatePart> = Vec::new();
                parts.push(TemplatePart::Content(text));
                assert(parts.deep_view() =~= seq![PartView::Content(text@)]);
                Ok(parts)
            },
            Token::Comment => {
                let parts: Vec<TemplatePart> = Vec::new();
                assert(self@.parts + parts.deep_view() =~= self@.parts);
                Ok(parts)
            },
            Token::Error(diagnostic) => Err(CompileError::Lexer(diagnostic)),
        }
    }
    /// The state in which compilation starts.
    fn start() -> (r: Template)
        ensures
            r@ == initial_state(),
    {
        let mut parts: Vec<TemplatePart> = Vec::new();
        parts.push(TemplatePart::Content(String::new()));
        let template = Template {
            tag_stack: Vec::new(),
            parts,
            partial_route: None,
            ignored: Vec::new(),
        };
        assert(template@.parts =~= initial_state().parts);
        assert(template@.tag_stack =~= initial_state().tag_stack);
        assert(template@.ignored =~= initial_state().ignored);
        template
    }

    /// Takes one token in and appends the parts that it emits.
    fn advance(&mut self, token: Token) -> (r: Result<(), CompileError>)
        ensures
            match r {
                Ok(()) => after_token(old(self)@, token@) == Ok::<TemplateView, CompileErrorView>(
                    final(self)@,
                ),
                Err(e) => after_token(old(self)@, token@) == Err::<TemplateView, CompileErrorView>(
                    e@,
                ),
            },
    {
        let mut new_parts = self.push_token(token)?;
        let ghost before = self.parts.deep_view();
        let ghost added = new_parts.deep_view();
        self.parts.append(&mut new_parts);
        assert(self.parts.deep_view() =~= before + added);
        Ok(())
    }

    /// Ends compilation: every tag must be closed and no route left open.
    fn finish(self) -> (r: Result<Template, CompileError>)
        ensures
            match r {
                Ok(template) => finished(self@) == Ok::<TemplateView, CompileErrorView>(template@)
                    && template.is_complete(),
                Err(e) => finished(self@) == Err::<TemplateView, CompileErrorView>(e@),
            },
    {
        let open = self.tag_stack.len();
        if open > 0 {
            return Err(CompileError::UnclosedTag(self.tag_stack[open - 1].clone()));
        }
        if self.partial_route.is_some() {
            return Err(CompileError::UnclosedTag(String::from_str("x-route")));
        }
        Ok(self)
    }

    /// Compiles a token sequence into a template.
    ///
    /// Succeeds exactly when no token is a lexer error, every end tag closes
    /// the innermost open tag, every directive is well placed and complete,
    /// and every tag is closed at the end; otherwise the first error is
    /// returned.
    pub fn compile(tokens: Vec<Token>) -> (r: Result<Template, CompileError>)
        ensures
            match r {
                Ok(template) => compiled(tokens.deep_view()) == Ok::<TemplateView, CompileErrorView>(
                    template@,
                ) && template.is_complete(),
                Err(e) => compiled(tokens.deep_view()) == Err::<TemplateView, CompileErrorView>(e@),
            },
    {
        let ghost all = tokens.deep_view();
        let mut template = Template::start();
        assert(all.skip(0) =~= all);
        for token in it: tokens
            invariant
                it.seq() == tokens@,
                all == tokens.deep_view(),
                after_tokens(initial_state(), all) == after_tokens(
                    template@,
                    all.skip(it.index() as int),
                ),
        {
            let ghost rest = all.skip(it.index() as int);
            assert(rest[0] == token@);
            assert(rest.drop_first() =~= all.skip(it.index() + 1));
            template.advance(token)?;
        }
        assert(all.skip(all.len() as int) =~= Seq::<TokenView>::empty());
        template.finish()
    }

    /// Compiles a sequence of raw tokens into a template, decoding each token
    /// just before it is taken in.
    pub fn compile_raw(tokens: Vec<RawToken>) -> (r: Result<Template, CompileError>)
        ensures
            match r {
                Ok(template) => compiled_raw(tokens.deep_view()) == Ok::<
                    TemplateView,
                    CompileErrorView,
                >(template@) && template.is_complete(),
                Err(e) => compiled_raw(tokens.deep_view()) == Err::<TemplateView, CompileErrorView>(
                    e@,
                ),
            },
    {
        let ghost all = tokens.deep_view();
        let mut template = Template::start();
        assert(all.skip(0) =~= all);
        for raw in it: tokens
            invariant
                it.seq() == tokens@,
                all == tokens.deep_view(),
                after_raw_tokens(initial_state(), all) == after_raw_tokens(
                    template@,
                    all.skip(it.index() as int),
                ),
        {
            let ghost rest = all.skip(it.index() as int);
            assert(rest[0] == raw@);
            assert(rest.drop_first() =~= all.skip(it.index() + 1));
            let token = decode_token(raw)?;
            template.advance(token)?;
        }
        assert(all.skip(all.len() as int) =~= Seq::<RawTokenView>::empty());
        template.finish()
    }

    /// Lexes a source and compiles its tokens into a template.
    pub fn compile_source(source: &[u8]) -> (r: Result<Template, CompileError>)
        ensures
            match r {
                Ok(template) => compiled_source(source@) == Ok::<TemplateView, CompileErrorView>(
                    template@,
                ) && template.is_complete(),
                Err(e) => compiled_source(source@) == Err::<TemplateView, CompileErrorView>(e@),
            },
    {
        Template::compile_raw(lex(source))
    }
}


} // verus!
