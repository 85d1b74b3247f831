//! Matching one segment of a URL path against a route.

use crate::error::{AssemblyError, AssemblyErrorView};
use crate::template::{PathEntry, PathEntryView, Route, RouteView};
use crate::text::{chars_of, slice_text, text_eq};
use vstd::prelude::*;
use vstd::string::*;

verus! {

/// The character that separates the segments of a path.
pub open spec fn separator() -> char {
    '/'
}

/// The position of the first separator at or after `from`, or the length of
/// the path where there is none.
pub open spec fn next_separator(path: Seq<char>, from: int) -> int
    decreases path.len() - from,
{
    if from >= path.len() {
        path.len() as int
    } else if path[from] == separator() {
        from
    } else {
        next_separator(path, from + 1)
    }
}

/// Whether a path begins with the separator, so that it has a leading segment.
pub open spec fn has_segment(path: Seq<char>) -> bool {
    path.len() > 0 && path[0] == separator()
}

/// Where the leading segment of a path ends.
pub open spec fn segment_end(path: Seq<char>) -> int {
    next_separator(path, 1)
}

/// The leading segment of a path: what stands between its leading separator
/// and the next one, or the end.
pub open spec fn leading_segment(path: Seq<char>) -> Seq<char> {
    path.subrange(1, segment_end(path))
}

/// What is left of a path once its leading segment is consumed.
pub open spec fn remainder(path: Seq<char>) -> Seq<char> {
    path.subrange(segment_end(path), path.len() as int)
}

/// The first entry whose URL is `segment`.
pub open spec fn entry_for(paths: Seq<PathEntryView>, segment: Seq<char>) -> Option<PathEntryView>
    decreases paths.len(),
{
    if paths.len() == 0 {
        None
    } else if paths[0].url == Some(segment) {
        Some(paths[0])
    } else {
        entry_for(paths.drop_first(), segment)
    }
}

/// The file that a route gives for a path that has a leading segment.
pub open spec fn matched(route: RouteView, path: Seq<char>) -> Result<Seq<char>, AssemblyErrorView> {
    match entry_for(route.paths, leading_segment(path)) {
        Some(entry) => match entry.file {
            Some(file) => Ok(file),
            None => Err(AssemblyErrorView::MissingTarget(leading_segment(path))),
        },
        None => Err(
            AssemblyErrorView::NoMatch {
                segment: leading_segment(path),
                remainder: remainder(path),
            },
        ),
    }
}

/// The files that the entries of a route name, in declaration order.
pub open spec fn route_files(paths: Seq<PathEntryView>) -> Seq<Seq<char>>
    decreases paths.len(),
{
    if paths.len() == 0 {
        seq![]
    } else {
        route_files(paths.drop_last()) + (match paths.last().file {
            Some(file) => seq![file],
            None => seq![],
        })
    }
}

/// The end of the leading segment lies within the path, after the leading
/// separator.
pub proof fn lemma_next_separator_bounds(path: Seq<char>, from: int)
    requires
        0 <= from <= path.len(),
    ensures
        from <= next_separator(path, from) <= path.len(),
        forall|j: int| from <= j < next_separator(path, from) ==> path[j] != separator(),
        next_separator(path, from) < path.len() ==> path[next_separator(path, from)]
            == separator(),
    decreases path.len() - from,
{
    if from < path.len() && path[from] != separator() {
        lemma_next_separator_bounds(path, from + 1);
    }
}

/// A path that has a leading segment is its separator, that segment and the
/// remainder, and the segment holds no separator: consuming the segment
/// removes exactly the separator and the segment from the front of the path.
pub proof fn lemma_path_splits(path: Seq<char>)
    requires
        has_segment(path),
    ensures
        path == seq![separator()] + leading_segment(path) + remainder(path),
        !leading_segment(path).contains(separator()),
        remainder(path).len() > 0 ==> has_segment(remainder(path)),
{
    lemma_next_separator_bounds(path, 1);
    assert(path =~= seq![separator()] + leading_segment(path) + remainder(path));
}

/// The entry that is found stands in the route and has the URL looked for.
pub proof fn lemma_entry_for_found(paths: Seq<PathEntryView>, segment: Seq<char>)
    ensures
        entry_for(paths, segment) matches Some(entry) ==> paths.contains(entry) && entry.url
            == Some(segment),
        entry_for(paths, segment) is None ==> forall|i: int|
            0 <= i < paths.len() ==> (#[trigger] paths[i]).url != Some(segment),
    decreases paths.len(),
{
    if paths.len() > 0 {
        if paths[0].url == Some(segment) {
            assert(paths.contains(paths[0]));
        } else {
            let rest = paths.drop_first();
            lemma_entry_for_found(rest, segment);
            match entry_for(rest, segment) {
                Some(entry) => {
                    let k = choose|k: int| 0 <= k < rest.len() && rest[k] == entry;
                    assert(paths[k + 1] == entry);
                },
                None => {
                    assert forall|i: int| 0 <= i < paths.len() implies (#[trigger] paths[i]).url
                        != Some(segment) by {
                        if i > 0 {
                            assert(rest[i - 1] == paths[i]);
                        }
                    }
                },
            }
        }
    }
}

/// The files of a route hold the file of each of its entries.
pub proof fn lemma_route_files_hold(paths: Seq<PathEntryView>, i: int)
    requires
        0 <= i < paths.len(),
        paths[i].file is Some,
    ensures
        route_files(paths).contains(paths[i].file->0),
    decreases paths.len(),
{
    let front = paths.drop_last();
    let tail = match paths.last().file {
        Some(file) => seq![file],
        None => seq![],
    };
    let all = route_files(front) + tail;
    if i == paths.len() - 1 {
        assert(all[route_files(front).len() as int] == paths[i].file->0);
    } else {
        assert(front[i] == paths[i]);
        lemma_route_files_hold(front, i);
        let k = choose|k: int|
            0 <= k < route_files(front).len() && route_files(front)[k] == paths[i].file->0;
        assert(all[k] == paths[i].file->0);
    }
}

/// Every file that a route can give for a path is among the files of the route.
pub proof fn lemma_matched_file_is_listed(route: RouteView, path: Seq<char>)
    ensures
        matched(route, path) matches Ok(file) ==> route_files(route.paths).contains(file),
{
    let segment = leading_segment(path);
    lemma_entry_for_found(route.paths, segment);
    match entry_for(route.paths, segment) {
        Some(entry) => {
            if entry.file is Some {
                let i = choose|i: int| 0 <= i < route.paths.len() && route.paths[i] == entry;
                lemma_route_files_hold(route.paths, i);
            }
        },
        None => {},
    }
}

/// Skipping entries with another URL does not change which entry is found.
pub proof fn lemma_entry_for_skip(paths: Seq<PathEntryView>, segment: Seq<char>, i: int)
    requires
        0 <= i <= paths.len(),
        forall|j: int| 0 <= j < i ==> paths[j].url != Some(segment),
    ensures
        entry_for(paths, segment) == entry_for(paths.skip(i), segment),
    decreases i,
{
    if i == 0 {
        assert(paths.skip(0) =~= paths);
    } else {
        lemma_entry_for_skip(paths, segment, i - 1);
        let rest = paths.skip(i - 1);
        assert(rest[0] == paths[i - 1]);
        assert(rest.drop_first() =~= paths.skip(i));
    }
}

impl PathEntry {
    /// Whether the entry answers to `segment`.
    pub fn answers_to(&self, segment: &str) -> (r: bool)
        ensures
            r == (self@.url == Some(segment@)),
    {
        match &self.url {
            Some(url) => text_eq(url.as_str(), segment),
            None => false,
        }
    }
}

impl Route {
    /// Consumes the leading segment of `url_path` and gives the file of the
    /// first entry that answers to it.
    ///
    /// The path loses exactly its leading separator and segment, whether or
    /// not an entry answers.
    pub fn match_path(&self, url_path: &mut String) -> (r: Result<String, AssemblyError>)
        requires
            has_segment(old(url_path)@),
        ensures
            final(url_path)@ == remainder(old(url_path)@),
            match r {
                Ok(file) => matched(self@, old(url_path)@) == Ok::<Seq<char>, AssemblyErrorView>(
                    file@,
                ),
                Err(e) => matched(self@, old(url_path)@) == Err::<Seq<char>, AssemblyErrorView>(
                    e@,
                ),
            },
    {
        let ghost path = url_path@;
        let chars = chars_of(url_path.as_str());
        let n = chars.len();
        let mut end: usize = 1;
        while end < n && chars[end] != '/'
            invariant
                chars@ == path,
                n == path.len(),
                1 <= end <= n,
                next_separator(path, 1) == next_separator(path, end as int),
            decreases n - end,
        {
            end += 1;
        }
        assert(end == segment_end(path));
        let segment = slice_text(url_path.as_str(), 1, end);
        let rest = slice_text(url_path.as_str(), end, n);
        *url_path = rest;
        let ghost paths = self.paths.deep_view();
        let count = self.paths.len();
        let mut i: usize = 0;
        while i < count
            invariant
                count == self.paths@.len(),
                i <= count,
                paths == self.paths.deep_view(),
                path == old(url_path)@,
                url_path@ == remainder(path),
                segment@ == leading_segment(path),
                forall|j: int| 0 <= j < i ==> paths[j].url != Some(segment@),
            decreases count - i,
        {
            if self.paths[i].answers_to(segment.as_str()) {
                proof {
                    lemma_entry_for_skip(paths, segment@, i as int);
                    assert(paths.skip(i as int)[0] == paths[i as int]);
                }
                return match &self.paths[i].file {
                    Some(file) => Ok(file.clone()),
                    None => Err(AssemblyError::MissingTarget(segment)),
                };
            }
            i += 1;
        }
        proof {
            lemma_entry_for_skip(paths, segment@, count as int);
        }
        Err(AssemblyError::NoMatch { segment, remainder: url_path.clone() })
    }

    /// The files that the entries name, in declaration order.
    pub fn get_files(&self) -> (r: Vec<String>)
        ensures
            r.deep_view() == route_files(self@.paths),
    {
        let ghost paths = self.paths.deep_view();
        let mut files: Vec<String> = Vec::new();
        let count = self.paths.len();
        let mut i: usize = 0;
        assert(paths.take(0) =~= Seq::<PathEntryView>::empty());
        while i < count
            invariant
                count == self.paths@.len(),
                i <= count,
                paths == self.paths.deep_view(),
                files.deep_view() == route_files(paths.take(i as int)),
            decreases count - i,
        {
            let ghost before = files.deep_view();
            match &self.paths[i].file {
                Some(file) => {
                    files.push(file.clone());
                    assert(files.deep_view() =~= before + seq![file@]);
                },
                None => {
                    assert(files.deep_view() =~= before + Seq::<Seq<char>>::empty());
                },
            }
            proof {
                let upto = paths.take(i + 1);
                assert(upto.drop_last() =~= paths.take(i as int));
                assert(upto.last() == paths[i as int]);
            }
            i += 1;
        }
        assert(paths.take(count as int) =~= paths);
        files
    }
}

} // verus!
