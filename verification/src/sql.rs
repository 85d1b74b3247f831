//! The collection of statement files of one directory: each file is split
//! into its statements, and the whole is rebuilt when the digest of the
//! directory changes.

use crate::text::{chars_of, slice_text, text_eq};
use vstd::prelude::*;
use vstd::string::*;

verus! {

/// The character that ends a statement.
pub open spec fn terminator() -> char {
    ';'
}

/// Whether a character is white space: a character with the Unicode
/// property White_Space.
pub open spec fn is_space(c: char) -> bool {
    let code = c as u32;
    ||| 0x09 <= code <= 0x0d
    ||| code == 0x20
    ||| code == 0x85
    ||| code == 0xa0
    ||| code == 0x1680
    ||| 0x2000 <= code <= 0x200a
    ||| code == 0x2028
    ||| code == 0x2029
    ||| code == 0x202f
    ||| code == 0x205f
    ||| code == 0x3000
}

/// The position of the first terminator at or after `from`, or the length
/// of the text where there is none.
pub open spec fn next_terminator(text: Seq<char>, from: int) -> int
    decreases text.len() - from,
{
    if from >= text.len() {
        text.len() as int
    } else if text[from] == terminator() {
        from
    } else {
        next_terminator(text, from + 1)
    }
}

/// The position of the first character at or after `from` and before `to`
/// that is not white space, or `to` where there is none.
pub open spec fn trimmed_start(text: Seq<char>, from: int, to: int) -> int
    decreases to - from,
{
    if from >= to {
        to
    } else if !is_space(text[from]) {
        from
    } else {
        trimmed_start(text, from + 1, to)
    }
}

/// The position after the last character at or after `from` and before
/// `to` that is not white space, or `from` where there is none.
pub open spec fn trimmed_end(text: Seq<char>, from: int, to: int) -> int
    decreases to - from,
{
    if from >= to {
        from
    } else if !is_space(text[to - 1]) {
        to
    } else {
        trimmed_end(text, from, to - 1)
    }
}

/// The text between two positions without the white space at its ends.
pub open spec fn trimmed(text: Seq<char>, from: int, to: int) -> Seq<char> {
    let start = trimmed_start(text, from, to);
    text.subrange(start, trimmed_end(text, start, to))
}

/// The statements of a text from a position on: the pieces between
/// terminators, each without the white space at its ends, the empty ones
/// left out.
pub open spec fn statements_from(text: Seq<char>, from: int) -> Seq<Seq<char>>
    decreases text.len() - from,
{
    if from < 0 || from > text.len() {
        seq![]
    } else {
        proof {
            lemma_next_terminator_bounds(text, from);
        }
        let end = next_terminator(text, from);
        let piece = trimmed(text, from, end);
        let here = if piece.len() > 0 {
            seq![piece]
        } else {
            seq![]
        };
        if end >= text.len() {
            here
        } else {
            here + statements_from(text, end + 1)
        }
    }
}

/// The statements of a text.
pub open spec fn statements(text: Seq<char>) -> Seq<Seq<char>> {
    statements_from(text, 0)
}

/// The next terminator lies at or after the position, within the text.
pub proof fn lemma_next_terminator_bounds(text: Seq<char>, from: int)
    requires
        0 <= from <= text.len(),
    ensures
        from <= next_terminator(text, from) <= text.len(),
    decreases text.len() - from,
{
    if from < text.len() && text[from] != terminator() {
        lemma_next_terminator_bounds(text, from + 1);
    }
}

/// The ends of the trimmed text lie in order between the two positions.
pub proof fn lemma_trimmed_bounds(text: Seq<char>, from: int, to: int)
    requires
        0 <= from <= to <= text.len(),
    ensures
        from <= trimmed_start(text, from, to) <= to,
        trimmed_start(text, from, to) <= trimmed_end(
            text,
            trimmed_start(text, from, to),
            to,
        ) <= to,
{
    lemma_trimmed_start_bounds(text, from, to);
    lemma_trimmed_end_bounds(text, trimmed_start(text, from, to), to);
}

/// The start of the trimmed text lies between the two positions.
pub proof fn lemma_trimmed_start_bounds(text: Seq<char>, from: int, to: int)
    requires
        0 <= from <= to <= text.len(),
    ensures
        from <= trimmed_start(text, from, to) <= to,
    decreases to - from,
{
    if from < to && is_space(text[from]) {
        lemma_trimmed_start_bounds(text, from + 1, to);
    }
}

/// The end of the trimmed text lies between the two positions.
pub proof fn lemma_trimmed_end_bounds(text: Seq<char>, from: int, to: int)
    requires
        0 <= from <= to <= text.len(),
    ensures
        from <= trimmed_end(text, from, to) <= to,
    decreases to - from,
{
    if from < to && is_space(text[to - 1]) {
        lemma_trimmed_end_bounds(text, from, to - 1);
    }
}

/// Statements hold no terminator, are not empty, and neither begin nor end
/// with white space.
pub proof fn lemma_statements_are_trimmed(text: Seq<char>, from: int)
    requires
        0 <= from <= text.len(),
    ensures
        forall|i: int|
            0 <= i < statements_from(text, from).len() ==> {
                let s = #[trigger] statements_from(text, from)[i];
                &&& s.len() > 0
                &&& !is_space(s.first())
                &&& !is_space(s.last())
                &&& !s.contains(terminator())
            },
    decreases text.len() - from,
{
    let end = next_terminator(text, from);
    lemma_next_terminator_bounds(text, from);
    lemma_trimmed_bounds(text, from, end);
    let start = trimmed_start(text, from, end);
    let stop = trimmed_end(text, start, end);
    let piece = trimmed(text, from, end);
    if piece.len() > 0 {
        lemma_trimmed_start_at(text, from, end);
        lemma_trimmed_end_at(text, start, end);
        lemma_no_terminator_before(text, from);
        assert(!piece.contains(terminator())) by {
            if piece.contains(terminator()) {
                let k = choose|k: int| 0 <= k < piece.len() && piece[k] == terminator();
                assert(text[start + k] == terminator());
            }
        }
    }
    let here = if piece.len() > 0 {
        seq![piece]
    } else {
        seq![]
    };
    if end < text.len() {
        lemma_statements_are_trimmed(text, end + 1);
        let rest = statements_from(text, end + 1);
        assert forall|i: int| 0 <= i < (here + rest).len() implies {
            let s = #[trigger] (here + rest)[i];
            &&& s.len() > 0
            &&& !is_space(s.first())
            &&& !is_space(s.last())
            &&& !s.contains(terminator())
        } by {
            if i >= here.len() {
                assert((here + rest)[i] == rest[i - here.len()]);
            }
        }
    }
}

/// Where the trimmed text is not empty, it begins with a character that is
/// not white space.
pub proof fn lemma_trimmed_start_at(text: Seq<char>, from: int, to: int)
    requires
        0 <= from <= to <= text.len(),
        trimmed_start(text, from, to) < to,
    ensures
        !is_space(text[trimmed_start(text, from, to)]),
    decreases to - from,
{
    if from < to && is_space(text[from]) {
        lemma_trimmed_start_at(text, from + 1, to);
    }
}

/// Where the trimmed text is not empty, it ends with a character that is
/// not white space.
pub proof fn lemma_trimmed_end_at(text: Seq<char>, from: int, to: int)
    requires
        0 <= from <= to <= text.len(),
        trimmed_end(text, from, to) > from,
    ensures
        !is_space(text[trimmed_end(text, from, to) - 1]),
    decreases to - from,
{
    if from < to && is_space(text[to - 1]) {
        lemma_trimmed_end_at(text, from, to - 1);
    }
}

/// No terminator stands before the next terminator.
pub proof fn lemma_no_terminator_before(text: Seq<char>, from: int)
    requires
        0 <= from <= text.len(),
    ensures
        forall|j: int| from <= j < next_terminator(text, from) ==> text[j] != terminator(),
    decreases text.len() - from,
{
    if from < text.len() && text[from] != terminator() {
        lemma_no_terminator_before(text, from + 1);
    }
}

/// Whether a character is white space.
pub fn is_whitespace(c: char) -> (r: bool)
    ensures
        r == is_space(c),
{
    let code = c as u32;
    (0x09 <= code && code <= 0x0d) || code == 0x20 || code == 0x85 || code == 0xa0 || code
        == 0x1680 || (0x2000 <= code && code <= 0x200a) || code == 0x2028 || code == 0x2029
        || code == 0x202f || code == 0x205f || code == 0x3000
}

/// Splits a text into its statements: the pieces between terminators, each
/// without the white space at its ends, the empty ones left out.
pub fn split_statements(content: &str) -> (r: Vec<String>)
    ensures
        r.deep_view() == statements(content@),
{
    let chars = chars_of(content);
    let n = chars.len();
    let mut out: Vec<String> = Vec::new();
    let mut from: usize = 0;
    assert(out.deep_view() =~= Seq::<Seq<char>>::empty());
    loop
        invariant
            chars@ == content@,
            n == chars@.len(),
            from <= n,
            statements(content@) == out.deep_view() + statements_from(content@, from as int),
        decreases n - from,
    {
        let mut end = from;
        while end < n && chars[end] != ';'
            invariant
                chars@ == content@,
                n == chars@.len(),
                from <= end <= n,
                next_terminator(content@, from as int) == next_terminator(content@, end as int),
            decreases n - end,
        {
            end += 1;
        }
        let mut start = from;
        while start < end && is_whitespace(chars[start])
            invariant
                chars@ == content@,
                from <= start <= end <= n,
                n == chars@.len(),
                trimmed_start(content@, from as int, end as int) == trimmed_start(
                    content@,
                    start as int,
                    end as int,
                ),
            decreases end - start,
        {
            start += 1;
        }
        let mut stop = end;
        while start < stop && is_whitespace(chars[stop - 1])
            invariant
                chars@ == content@,
                start <= stop <= end <= n,
                n == chars@.len(),
                trimmed_end(content@, start as int, end as int) == trimmed_end(
                    content@,
                    start as int,
                    stop as int,
                ),
            decreases stop - start,
        {
            stop -= 1;
        }
        let ghost before = out.deep_view();
        if start < stop {
            let piece = slice_text(content, start, stop);
            out.push(piece);
            assert(out.deep_view() =~= before + seq![content@.subrange(start as int, stop as int)]);
        } else {
            assert(out.deep_view() =~= before + Seq::<Seq<char>>::empty());
        }
        if end >= n {
            assert(out.deep_view() + Seq::<Seq<char>>::empty() =~= out.deep_view());
            return out;
        }
        proof {
            let here = out.deep_view().skip(before.len() as int);
            assert(out.deep_view() =~= before + here);
            assert(before + (here + statements_from(content@, end + 1)) =~= (before + here)
                + statements_from(content@, end + 1));
        }
        from = end + 1;
    }
}

/// A statement file: its name relative to the directory, and its text.
#[derive(Debug, PartialEq, Eq)]
pub struct StatementFile {
    pub name: String,
    pub content: String,
}

/// The mathematical value of a [`StatementFile`].
pub struct StatementFileView {
    pub name: Seq<char>,
    pub content: Seq<char>,
}

impl View for StatementFile {
    type V = StatementFileView;

    open spec fn view(&self) -> StatementFileView {
        StatementFileView { name: self.name@, content: self.content@ }
    }
}

impl DeepView for StatementFile {
    type V = StatementFileView;

    open spec fn deep_view(&self) -> StatementFileView {
        self@
    }
}

/// The statements of each file under its name: a later file replaces an
/// earlier one of the same name.
pub open spec fn statement_map(files: Seq<StatementFileView>) -> Map<Seq<char>, Seq<Seq<char>>>
    decreases files.len(),
{
    if files.len() == 0 {
        Map::empty()
    } else {
        statement_map(files.drop_last()).insert(
            files.last().name,
            statements(files.last().content),
        )
    }
}

/// The mathematical value of a [`StatementCollection`].
pub struct StatementCollectionView {
    /// The statement directory.
    pub directory: Seq<char>,
    /// The digest of the directory as of the last refresh.
    pub cache_key: u64,
    /// The statements of each file, by file name.
    pub statements: Map<Seq<char>, Seq<Seq<char>>>,
}

/// What a refresh makes of a collection: nothing where the digest is the
/// stored one; else the statements of the files under the new digest.
pub open spec fn refreshed_statements(
    state: StatementCollectionView,
    fresh_key: u64,
    files: Seq<StatementFileView>,
) -> StatementCollectionView {
    if state.cache_key == fresh_key {
        state
    } else {
        StatementCollectionView {
            cache_key: fresh_key,
            statements: statement_map(files),
            ..state
        }
    }
}

/// Of two refreshes with no change of the directory between them, the
/// second leaves the statements and the digest as the first left them.
pub proof fn lemma_refreshed_statements_idempotent(
    state: StatementCollectionView,
    fresh_key: u64,
    files: Seq<StatementFileView>,
    later_files: Seq<StatementFileView>,
)
    ensures
        refreshed_statements(refreshed_statements(state, fresh_key, files), fresh_key, later_files)
            == refreshed_statements(state, fresh_key, files),
{
}

/// The mapping that stored statements stand for: of two entries under one
/// name the later one counts.
spec fn cache_map(cache: Seq<(String, Vec<String>)>) -> Map<Seq<char>, Seq<Seq<char>>>
    decreases cache.len(),
{
    if cache.len() == 0 {
        Map::empty()
    } else {
        cache_map(cache.drop_last()).insert(cache.last().0@, cache.last().1.deep_view())
    }
}

/// A name under which nothing is stored is not in the mapping.
proof fn lemma_cache_map_absent(cache: Seq<(String, Vec<String>)>, name: Seq<char>)
    requires
        forall|j: int| 0 <= j < cache.len() ==> (#[trigger] cache[j]).0@ != name,
    ensures
        !cache_map(cache).dom().contains(name),
    decreases cache.len(),
{
    if cache.len() > 0 {
        let front = cache.drop_last();
        assert forall|j: int| 0 <= j < front.len() implies (#[trigger] front[j]).0@ != name by {
            assert(front[j] == cache[j]);
        }
        lemma_cache_map_absent(front, name);
        assert(cache.last() == cache[cache.len() - 1]);
    }
}

/// The mapping holds, under a name, the last entry stored under it.
proof fn lemma_cache_map_last(cache: Seq<(String, Vec<String>)>, name: Seq<char>, i: int)
    requires
        0 <= i < cache.len(),
        cache[i].0@ == name,
        forall|j: int| i < j < cache.len() ==> (#[trigger] cache[j]).0@ != name,
    ensures
        cache_map(cache).dom().contains(name),
        cache_map(cache)[name] == cache[i].1.deep_view(),
    decreases cache.len(),
{
    if i < cache.len() - 1 {
        let front = cache.drop_last();
        assert(front[i] == cache[i]);
        assert forall|j: int| i < j < front.len() implies (#[trigger] front[j]).0@ != name by {
            assert(front[j] == cache[j]);
        }
        lemma_cache_map_last(front, name, i);
        assert(cache.last() == cache[cache.len() - 1]);
    }
}

/// The collection of statement files of one directory.
pub struct StatementCollection {
    directory: String,
    cache_key: u64,
    cache: Vec<(String, Vec<String>)>,
}

impl View for StatementCollection {
    type V = StatementCollectionView;

    closed spec fn view(&self) -> StatementCollectionView {
        StatementCollectionView {
            directory: self.directory@,
            cache_key: self.cache_key,
            statements: cache_map(self.cache@),
        }
    }
}

impl StatementCollection {
    /// An empty collection for a directory. Its stored digest is 0.
    pub fn new(directory: String) -> (r: Self)
        ensures
            r@ == (StatementCollectionView {
                directory: directory@,
                cache_key: 0,
                statements: Map::empty(),
            }),
    {
        StatementCollection { directory, cache_key: 0, cache: Vec::new() }
    }

    /// The statement directory.
    pub fn directory(&self) -> (r: &String)
        ensures
            r@ == self@.directory,
    {
        &self.directory
    }

    /// The digest of the directory as of the last refresh.
    pub fn cache_key(&self) -> (r: u64)
        ensures
            r == self@.cache_key,
    {
        self.cache_key
    }

    /// Whether the collection is stale: the digest of the directory is not
    /// the stored one.
    pub fn check(&self, fresh_key: u64) -> (r: bool)
        ensures
            r == (self@.cache_key != fresh_key),
    {
        self.cache_key != fresh_key
    }

    /// Refreshes the collection where the digest of the directory is not
    /// the stored one.
    pub fn recompile(&mut self, fresh_key: u64, files: &Vec<StatementFile>)
        ensures
            final(self)@ == refreshed_statements(old(self)@, fresh_key, files.deep_view()),
    {
        if self.cache_key != fresh_key {
            self.cache_key = fresh_key;
            self.prepare_statements(files);
        }
    }

    /// Replaces the statements by those of the given files.
    pub fn prepare_statements(&mut self, files: &Vec<StatementFile>)
        ensures
            final(self)@ == (StatementCollectionView {
                statements: statement_map(files.deep_view()),
                ..old(self)@
            }),
    {
        let ghost all = files.deep_view();
        let mut cache: Vec<(String, Vec<String>)> = Vec::new();
        let n = files.len();
        let mut i: usize = 0;
        assert(all.take(0) =~= Seq::<StatementFileView>::empty());
        while i < n
            invariant
                n == files@.len(),
                i <= n,
                all == files.deep_view(),
                cache_map(cache@) == statement_map(all.take(i as int)),
            decreases n - i,
        {
            let ghost before = cache@;
            let queries = split_statements(files[i].content.as_str());
            cache.push((files[i].name.clone(), queries));
            proof {
                let upto = all.take(i + 1);
                assert(upto.drop_last() =~= all.take(i as int));
                assert(upto.last() == all[i as int]);
                assert(cache@.drop_last() =~= before);
            }
            i += 1;
        }
        assert(all.take(n as int) =~= all);
        self.cache = cache;
    }

    /// The statements of the file `file_name`.
    pub fn get(&self, file_name: &String) -> (r: Option<&Vec<String>>)
        ensures
            match r {
                Some(queries) => self@.statements.dom().contains(file_name@)
                    && self@.statements[file_name@] == queries.deep_view(),
                None => !self@.statements.dom().contains(file_name@),
            },
    {
        let n = self.cache.len();
        let mut i: usize = n;
        while i > 0
            invariant
                n == self.cache@.len(),
                i <= n,
                forall|j: int| i <= j < n ==> (#[trigger] self.cache@[j]).0@ != file_name@,
            decreases i,
        {
            i -= 1;
            if text_eq(self.cache[i].0.as_str(), file_name.as_str()) {
                proof {
                    lemma_cache_map_last(self.cache@, file_name@, i as int);
                }
                return Some(&self.cache[i].1);
            }
        }
        proof {
            lemma_cache_map_absent(self.cache@, file_name@);
        }
        None
    }
}


/// The name of the query parameter that asks for a statement file.
pub open spec fn source_parameter() -> Seq<char> {
    "source"@
}

/// The values of the parameters called `source`, in their order.
pub open spec fn requested(params: Seq<(Seq<char>, Seq<char>)>) -> Seq<Seq<char>>
    decreases params.len(),
{
    if params.len() == 0 {
        seq![]
    } else {
        requested(params.drop_last()) + if params.last().0 == source_parameter() {
            seq![params.last().1]
        } else {
            seq![]
        }
    }
}

/// The statement files that the parameters of a query ask for: the values
/// of the parameters called `source`, in their order.
pub fn requested_sources(params: &Vec<(String, String)>) -> (r: Vec<String>)
    ensures
        r.deep_view() == requested(params.deep_view()),
{
    let ghost all = params.deep_view();
    let mut sources: Vec<String> = Vec::new();
    let n = params.len();
    let mut i: usize = 0;
    assert(all.take(0) =~= Seq::<(Seq<char>, Seq<char>)>::empty());
    assert(sources.deep_view() =~= Seq::<Seq<char>>::empty());
    while i < n
        invariant
            n == params@.len(),
            i <= n,
            all == params.deep_view(),
            sources.deep_view() == requested(all.take(i as int)),
        decreases n - i,
    {
        let ghost before = sources.deep_view();
        proof {
            let upto = all.take(i + 1);
            assert(upto.drop_last() =~= all.take(i as int));
            assert(upto.last() == all[i as int]);
        }
        if text_eq(params[i].0.as_str(), "source") {
            sources.push(params[i].1.clone());
            assert(sources.deep_view() =~= before + seq![all[i as int].1]);
        } else {
            assert(sources.deep_view() =~= before + Seq::<Seq<char>>::empty());
        }
        i += 1;
    }
    assert(all.take(n as int) =~= all);
    sources
}

/// The text of a server-sent event: the event line, the data line, and the
/// empty line that ends it.
pub open spec fn event_text(source: Seq<char>, data: Seq<char>) -> Seq<char> {
    "event: "@ + source + "\ndata: "@ + data + "\n\n"@
}

/// Frames one result as a server-sent event named after its statement file.
pub fn sse_event(source: &str, data: &str) -> (r: String)
    ensures
        r@ == event_text(source@, data@),
{
    let mut text = String::from_str("event: ");
    text.append(source);
    text.append("\ndata: ");
    text.append(data);
    text.append("\n\n");
    text
}


} // verus!
