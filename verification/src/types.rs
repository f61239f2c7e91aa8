//! What may be formatted: line ranges, files, and the scope that holds them.

use vstd::prelude::*;

verus! {

/// 1-based inclusive line range `[start, end]` in working-tree coordinates.
#[derive(Debug, Clone, Copy, PartialEq, Eq, Structural)]
pub struct LineRange {
    pub start: usize,
    pub end: usize,
}

impl LineRange {
    pub fn new(start: usize, end: usize) -> (range: LineRange)
        ensures
            range.start == start,
            range.end == end,
    {
        LineRange { start, end }
    }

    /// The first line of the range, counted from zero; a start of zero counts as one.
    pub open spec fn first(self) -> int {
        if self.start == 0 {
            0
        } else {
            self.start - 1
        }
    }

    /// The range as 0-based half-open `[start, end)`, for slicing.
    pub fn as_half_open(self) -> (bounds: (usize, usize))
        ensures
            bounds.0 == self.first(),
            bounds.1 == self.end,
    {
        (self.start.saturating_sub(1), self.end)
    }
}

/// The version control systems that a scope can be read from.
#[derive(Debug, Clone, Copy, PartialEq, Eq, Structural)]
pub enum Vcs {
    Git,
    Jj,
}

/// A file inside the formatting scope plus the line ranges (in working-tree
/// coordinates) that are owned by the caller's change.
#[derive(Debug)]
pub struct ScopedFile {
    pub path: String,
    /// Line ranges the caller changed or wants formatted. A file that a version
    /// control system reports without any is skipped; a change set that names
    /// none asks for the whole file.
    pub ranges: Vec<LineRange>,
    /// How many lines the caller's own change added, for the diff-ratio gate;
    /// `None` where it is not known.
    pub agent_added_lines: Option<usize>,
}

/// What a [`ScopedFile`] stands for.
pub struct ScopedFileView {
    pub path: Seq<char>,
    pub ranges: Seq<LineRange>,
    pub agent_added_lines: Option<usize>,
}

impl View for ScopedFile {
    type V = ScopedFileView;

    open spec fn view(&self) -> ScopedFileView {
        ScopedFileView {
            path: self.path@,
            ranges: self.ranges@,
            agent_added_lines: self.agent_added_lines,
        }
    }
}

impl Clone for ScopedFile {
    fn clone(&self) -> (copy: ScopedFile)
        ensures
            copy@ == self@,
    {
        let ranges = self.ranges.clone();
        assert(ranges@ == self.ranges@);
        ScopedFile {
            path: self.path.clone(),
            ranges,
            agent_added_lines: self.agent_added_lines,
        }
    }
}

/// The files of a scope, as values.
pub open spec fn file_views(files: Seq<ScopedFile>) -> Seq<ScopedFileView> {
    files.map_values(|f: ScopedFile| f@)
}

/// The formatting scope: which version control system, which base, which files.
#[derive(Debug)]
pub struct Scope {
    pub vcs: Option<Vcs>,
    pub base: String,
    pub source: String,
    pub files: Vec<ScopedFile>,
}

/// What a [`Scope`] stands for.
pub struct ScopeView {
    pub vcs: Option<Vcs>,
    pub base: Seq<char>,
    pub source: Seq<char>,
    pub files: Seq<ScopedFileView>,
}

impl View for Scope {
    type V = ScopeView;

    open spec fn view(&self) -> ScopeView {
        ScopeView {
            vcs: self.vcs,
            base: self.base@,
            source: self.source@,
            files: file_views(self.files@),
        }
    }
}

impl Clone for Scope {
    fn clone(&self) -> (copy: Scope)
        ensures
            copy@ == self@,
    {
        let mut files: Vec<ScopedFile> = Vec::new();
        for i in 0..self.files.len()
            invariant
                files@.len() == i,
                forall|j: int| 0 <= j < i ==> #[trigger] file_views(files@)[j]
                    == file_views(self.files@)[j],
        {
            let ghost before = files@;
            files.push(self.files[i].clone());
            assert forall|j: int| 0 <= j < i + 1 implies #[trigger] file_views(files@)[j]
                == file_views(self.files@)[j] by {
                if j < i {
                    assert(file_views(files@)[j] == file_views(before)[j]);
                }
            }
        }
        assert(file_views(files@) == file_views(self.files@));
        Scope { vcs: self.vcs, base: self.base.clone(), source: self.source.clone(), files }
    }
}

/// An explicit scope: the caller decides files and ranges.
#[derive(Debug)]
pub struct ChangeSet {
    pub base_ref: String,
    pub files: Vec<ScopedFile>,
}

/// The base of a change set that names none.
pub fn default_base() -> (base: String)
    ensures
        base@ == "HEAD"@,
{
    "HEAD".to_string()
}

} // verus!
