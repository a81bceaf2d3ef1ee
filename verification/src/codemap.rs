//! The position index over the flat offset space.
//!
//! All input files are addressed through one flat numbering of byte positions:
//! each file owns a half-open range `[start_pos, end_pos)`, the ranges are
//! sorted, non-overlapping and contiguous, and a span `[lo, hi)` names a region
//! of source text. The map resolves positions to files and spans to their
//! original text.

use vstd::prelude::*;
use vstd::string::StrSliceExecFns;
use vstd::string::StringExecFns;

verus! {

/// A position in the flat offset space.
#[derive(Debug, Clone, Copy, PartialEq, Eq, Structural)]
pub struct BytePos(pub u32);

/// A half-open range `[lo, hi)` in the flat offset space.
#[derive(Debug, Clone, Copy, PartialEq, Eq, Structural)]
pub struct Span {
    pub lo: u32,
    pub hi: u32,
}

pub open spec fn span_wf(s: Span) -> bool {
    s.lo <= s.hi
}

/// One input file: its name, its source text, and the flat range it occupies.
pub struct SourceFile {
    pub name: String,
    pub src: String,
    pub start_pos: u32,
    pub end_pos: u32,
}

/// Does file `f` own flat position `p`?
pub open spec fn contains_pos(f: SourceFile, p: int) -> bool {
    f.start_pos <= p < f.end_pos
}

/// Does span `s` lie entirely inside file `f`?
pub open spec fn span_in_file(f: SourceFile, s: Span) -> bool {
    f.start_pos <= s.lo && s.hi <= f.end_pos
}

/// The sorted table of all input files, built once and immutable thereafter.
pub struct CodeMap {
    pub files: Vec<SourceFile>,
}

impl CodeMap {
    /// Well-formedness: ranges are ordered and contiguous, each file's text has
    /// exactly as many characters as its range has positions, and file names
    /// are unique keys.
    pub open spec fn wf(&self) -> bool {
        &&& forall|i: int|
            0 <= i < self.files@.len() ==> (#[trigger] self.files@[i]).start_pos
                <= self.files@[i].end_pos
        &&& forall|i: int|
            0 <= i < self.files@.len() ==> (#[trigger] self.files@[i]).src@.len()
                == self.files@[i].end_pos - self.files@[i].start_pos
        &&& forall|i: int|
            0 <= i < self.files@.len() - 1 ==> (#[trigger] self.files@[i]).end_pos
                == self.files@[i + 1].start_pos
        &&& forall|i: int, j: int|
            0 <= i < j < self.files@.len() ==> (#[trigger] self.files@[i].name@)
                != (#[trigger] self.files@[j].name@)
    }

    /// Is some file the owner of flat position `p`?
    pub open spec fn has_owner(&self, p: int) -> bool {
        exists|i: int| 0 <= i < self.files@.len() && contains_pos(self.files@[i], p)
    }

    /// The index of the file owning `p` (meaningful when `has_owner(p)`).
    pub open spec fn owner_of(&self, p: int) -> int {
        choose|i: int| 0 <= i < self.files@.len() && contains_pos(self.files@[i], p)
    }

    /// The source character at flat position `p`.
    pub open spec fn flat_char(&self, p: int) -> char {
        let f = self.files@[self.owner_of(p)];
        f.src@[p - f.start_pos]
    }

    /// The source text of the flat region `[lo, hi)`.
    pub open spec fn flat_slice(&self, lo: int, hi: int) -> Seq<char> {
        Seq::new((hi - lo) as nat, |k: int| self.flat_char(lo + k))
    }

    /// In a well-formed map an earlier file ends no later than a later one starts.
    pub proof fn lemma_file_order(&self, i: int, j: int)
        requires
            self.wf(),
            0 <= i < j < self.files@.len(),
        ensures
            self.files@[i].end_pos <= self.files@[j].start_pos,
        decreases j - i,
    {
        if j == i + 1 {
        } else {
            self.lemma_file_order(i, j - 1);
        }
    }

    /// At most one file owns any flat position.
    pub proof fn lemma_owner_unique(&self, p: int, i: int, j: int)
        requires
            self.wf(),
            0 <= i < self.files@.len(),
            0 <= j < self.files@.len(),
            contains_pos(self.files@[i], p),
            contains_pos(self.files@[j], p),
        ensures
            i == j,
    {
        if i < j {
            self.lemma_file_order(i, j);
        } else if j < i {
            self.lemma_file_order(j, i);
        }
    }

    /// When file `i` owns `p`, `owner_of(p)` is exactly `i`.
    pub proof fn lemma_owner_is(&self, p: int, i: int)
        requires
            self.wf(),
            0 <= i < self.files@.len(),
            contains_pos(self.files@[i], p),
        ensures
            self.has_owner(p),
            self.owner_of(p) == i,
    {
        assert(self.has_owner(p));
        self.lemma_owner_unique(p, self.owner_of(p), i);
    }

    /// The greatest index whose file starts at or before `pos`, or 0 when every
    /// file starts after `pos`. Binary search over the sorted start offsets.
    pub fn start_idx(&self, pos: u32) -> (r: usize)
        requires
            self.wf(),
            self.files@.len() > 0,
        ensures
            r < self.files@.len(),
            forall|j: int|
                0 <= j < self.files@.len() && (#[trigger] self.files@[j]).start_pos <= pos ==> j
                    <= r,
            self.files@[r as int].start_pos <= pos || r == 0,
    {
        let len: usize = self.files.len();
        let mut lo: usize = 0;
        let mut hi: usize = len;
        while lo < hi
            invariant
                lo <= hi <= len,
                len == self.files@.len(),
                self.wf(),
                forall|j: int| 0 <= j < lo ==> (#[trigger] self.files@[j]).start_pos <= pos,
                forall|j: int| hi <= j < len ==> (#[trigger] self.files@[j]).start_pos > pos,
            decreases hi - lo,
        {
            let mid: usize = lo + (hi - lo) / 2;
            if self.files[mid].start_pos <= pos {
                proof {
                    assert forall|j: int| 0 <= j < mid + 1 implies (#[trigger] self.files@[j]).start_pos
                        <= pos by {
                        if j < mid {
                            self.lemma_file_order(j, mid as int);
                        }
                    }
                }
                lo = mid + 1;
            } else {
                proof {
                    assert forall|j: int| mid <= j < len implies (#[trigger] self.files@[j]).start_pos
                        > pos by {
                        if mid < j {
                            self.lemma_file_order(mid as int, j);
                        }
                    }
                }
                hi = mid;
            }
        }
        if lo == 0 {
            0
        } else {
            lo - 1
        }
    }

    /// The index of the file owning `pos`, when one does.
    pub fn file_idx_for(&self, pos: u32) -> (r: Option<usize>)
        requires
            self.wf(),
        ensures
            match r {
                Some(i) => i < self.files@.len() && contains_pos(self.files@[i as int], pos as int)
                    && self.owner_of(pos as int) == i,
                None => !self.has_owner(pos as int),
            },
    {
        if self.files.len() == 0 {
            return None;
        }
        let i: usize = self.start_idx(pos);
        let f = &self.files[i];
        if f.start_pos <= pos && pos < f.end_pos {
            proof {
                self.lemma_owner_is(pos as int, i as int);
            }
            Some(i)
        } else {
            proof {
                if self.has_owner(pos as int) {
                    let k = self.owner_of(pos as int);
                    assert(contains_pos(self.files@[k], pos as int));
                    // k starts at or before pos, so k <= i; a strictly earlier
                    // owner would end before file i starts, yet pos lies in both.
                    if k < i {
                        self.lemma_file_order(k, i as int);
                    }
                    assert(false);
                }
            }
            None
        }
    }

    /// The name of the file owning the start of `span`, or nothing when the
    /// span starts outside every file.
    pub fn span_to_filename(&self, span: Span) -> (r: Option<String>)
        requires
            self.wf(),
        ensures
            match r {
                Some(name) => self.has_owner(span.lo as int) && name@ == self.files@[self.owner_of(
                    span.lo as int,
                )].name@,
                None => !self.has_owner(span.lo as int),
            },
    {
        match self.file_idx_for(span.lo) {
            Some(i) => Some(self.files[i].name.clone()),
            None => None,
        }
    }

    /// The original text of `span`, when the span is ordered and lies inside a
    /// single file; nothing otherwise (a malformed or boundary-crossing span).
    pub fn span_to_snippet(&self, span: Span) -> (r: Option<String>)
        requires
            self.wf(),
        ensures
            match r {
                Some(s) => span_wf(span) && (exists|i: int|
                    0 <= i < self.files@.len() && span_in_file(#[trigger] self.files@[i], span))
                    && s@ == self.flat_slice(span.lo as int, span.hi as int),
                None => !(span_wf(span) && (exists|i: int|
                    0 <= i < self.files@.len() && span_in_file(#[trigger] self.files@[i], span))),
            },
    {
        if span.lo > span.hi || self.files.len() == 0 {
            return None;
        }
        let i: usize = self.start_idx(span.lo);
        let f = &self.files[i];
        if f.start_pos <= span.lo && span.hi <= f.end_pos {
            let a: usize = (span.lo - f.start_pos) as usize;
            let b: usize = (span.hi - f.start_pos) as usize;
            let sub: &str = f.src.as_str().substring_char(a, b);
            let out = String::from_str(sub);
            proof {
                self.lemma_slice_in_file(span, i as int);
                assert(out@ =~= self.flat_slice(span.lo as int, span.hi as int));
            }
            Some(out)
        } else {
            proof {
                if exists|j: int|
                    0 <= j < self.files@.len() && span_in_file(#[trigger] self.files@[j], span) {
                    let j = choose|j: int|
                        0 <= j < self.files@.len() && span_in_file(
                            #[trigger] self.files@[j],
                            span,
                        );
                    // The span fits inside file j. If the span is non-empty, j
                    // owns span.lo and so j <= i, and an i past j would start
                    // after file j ends. An empty span at a boundary needs the
                    // same ordering argument on start offsets.
                    if j < i {
                        self.lemma_file_order(j, i as int);
                    }
                    if (i as int) < j {
                        self.lemma_file_order(i as int, j);
                        assert(self.files@[j].start_pos <= span.lo);
                        assert(false);
                    }
                    assert(false);
                }
            }
            None
        }
    }

    /// Clone the file table, field by field.
    pub fn clone_map(&self) -> (r: CodeMap)
        ensures
            r.files@ == self.files@,
    {
        let mut files: Vec<SourceFile> = Vec::new();
        let n: usize = self.files.len();
        let mut k: usize = 0;
        while k < n
            invariant
                n == self.files@.len(),
                k <= n,
                files@.len() == k,
                forall|i: int| 0 <= i < k ==> (#[trigger] files@[i]) == self.files@[i],
            decreases n - k,
        {
            let f = &self.files[k];
            files.push(
                SourceFile {
                    name: f.name.clone(),
                    src: f.src.clone(),
                    start_pos: f.start_pos,
                    end_pos: f.end_pos,
                },
            );
            k = k + 1;
        }
        let r = CodeMap { files };
        proof {
            assert(r.files@ =~= self.files@);
        }
        r
    }

    /// The characters of a span inside file `i` are the flat-space characters.
    pub proof fn lemma_slice_in_file(&self, span: Span, i: int)
        requires
            self.wf(),
            span_wf(span),
            0 <= i < self.files@.len(),
            span_in_file(self.files@[i], span),
        ensures
            self.files@[i].src@.subrange(
                span.lo - self.files@[i].start_pos,
                span.hi - self.files@[i].start_pos,
            ) =~= self.flat_slice(span.lo as int, span.hi as int),
    {
        let f = self.files@[i];
        assert forall|k: int| 0 <= k < span.hi - span.lo implies #[trigger] self.flat_char(
            span.lo + k,
        ) == f.src@[span.lo - f.start_pos + k] by {
            self.lemma_owner_is(span.lo + k, i);
        }
    }
}

/// Adjacent flat regions concatenate: the text of `[a, b)` followed by the
/// text of `[b, c)` is exactly the text of `[a, c)`.
pub proof fn lemma_flat_slice_concat(cm: CodeMap, a: int, b: int, c: int)
    requires
        a <= b <= c,
    ensures
        cm.flat_slice(a, b) + cm.flat_slice(b, c) == cm.flat_slice(a, c),
{
    assert(cm.flat_slice(a, b) + cm.flat_slice(b, c) =~= cm.flat_slice(a, c));
}

/// The text the front end yields for `span`: the flat-space slice when the
/// span is ordered and lies inside one file, empty text otherwise.
pub open spec fn snippet_text(cm: CodeMap, span: Span) -> Seq<char> {
    if span_wf(span) && (exists|i: int|
        0 <= i < cm.files@.len() && span_in_file(#[trigger] cm.files@[i], span)) {
        cm.flat_slice(span.lo as int, span.hi as int)
    } else {
        Seq::<char>::empty()
    }
}

} // verus!
