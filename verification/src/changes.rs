//! The change set: one append-only buffer of rewritten text per input file,
//! together with the sorted table of the flat offset ranges those files occupy.
//!
//! It translates a flat span into the ordered pieces it touches per file,
//! accepts appends addressed by file name or by span, and renders the final
//! text per file under a newline style.

use crate::codemap::{BytePos, CodeMap, Span};
use crate::config::NewlineStyle;
use crate::render::{rendered, system_newlines};
use crate::strbuf::{
    ascii_only, col_of, sb_chars, sb_contents, sb_cur_offset, sb_push_str, sb_with_capacity,
};
use crate::FmtError;
use vstd::prelude::*;
use vstd::string::StrSliceExecFns;
use vstd::string::StringExecFns;

verus! {

/// One tracked file: its name and the buffer of rewritten text.
pub struct FileEntry {
    pub name: String,
    pub buf: strings::string_buffer::StringBuffer,
}

/// The change set over all input files.
pub struct ChangeSet {
    /// One entry per file, in flat-offset order.
    pub file_map: Vec<FileEntry>,
    /// The flat range `[start, end)` of each file, sorted, same order as `file_map`.
    pub file_spans: Vec<(u32, u32)>,
}

/// Does some range of the table hold flat position `p`?
pub open spec fn span_table_has(spans: Seq<(u32, u32)>, p: int) -> bool {
    exists|i: int| 0 <= i < spans.len() && (#[trigger] spans[i]).0 <= p < spans[i].1
}

/// The index of the range holding `p` (meaningful when `span_table_has`).
pub open spec fn span_table_idx(spans: Seq<(u32, u32)>, p: int) -> int {
    choose|i: int| 0 <= i < spans.len() && (#[trigger] spans[i]).0 <= p < spans[i].1
}

/// Are the pieces of a resolved span non-empty, consecutive, and do they run
/// exactly from `lo` to `hi`?
pub open spec fn pieces_chained(r: Seq<(u32, u32)>, lo: int, hi: int) -> bool {
    &&& (lo == hi ==> r.len() == 0)
    &&& (lo < hi ==> r.len() > 0 && r[0].0 == lo && r[r.len() - 1].1 == hi)
    &&& forall|k: int| 0 <= k < r.len() ==> (#[trigger] r[k]).0 < r[k].1
    &&& forall|k: int| 0 <= k < r.len() - 1 ==> (#[trigger] r[k]).1 == r[k + 1].0
}

impl ChangeSet {
    pub open spec fn n(&self) -> int {
        self.file_map@.len() as int
    }

    /// The file names, in table order.
    pub open spec fn names(&self) -> Seq<Seq<char>> {
        Seq::new(self.file_map@.len(), |i: int| self.file_map@[i].name@)
    }

    /// The accumulated text of each file's buffer, in table order.
    pub open spec fn texts(&self) -> Seq<Seq<char>> {
        Seq::new(self.file_map@.len(), |i: int| sb_chars(self.file_map@[i].buf))
    }

    /// Well-formedness: the two tables line up, ranges are ordered and
    /// contiguous, and names are unique keys.
    pub open spec fn wf(&self) -> bool {
        &&& self.file_spans@.len() == self.file_map@.len()
        &&& forall|i: int|
            0 <= i < self.file_spans@.len() ==> (#[trigger] self.file_spans@[i]).0
                <= self.file_spans@[i].1
        &&& forall|i: int|
            0 <= i < self.file_spans@.len() - 1 ==> (#[trigger] self.file_spans@[i]).1
                == self.file_spans@[i + 1].0
        &&& forall|i: int, j: int|
            0 <= i < j < self.file_map@.len() ==> (#[trigger] self.file_map@[i].name@)
                != (#[trigger] self.file_map@[j].name@)
    }

    pub open spec fn has_name(&self, name: Seq<char>) -> bool {
        exists|i: int| 0 <= i < self.n() && (#[trigger] self.file_map@[i].name@) == name
    }

    pub open spec fn idx_of(&self, name: Seq<char>) -> int {
        choose|i: int| 0 <= i < self.n() && (#[trigger] self.file_map@[i].name@) == name
    }

    pub open spec fn has_pos(&self, p: int) -> bool {
        span_table_has(self.file_spans@, p)
    }

    pub open spec fn pos_idx(&self, p: int) -> int {
        span_table_idx(self.file_spans@, p)
    }

    /// Does this change set mirror the file table of `cm`, entry for entry?
    pub open spec fn matches_codemap(&self, cm: CodeMap) -> bool {
        &&& self.n() == cm.files@.len()
        &&& forall|i: int|
            0 <= i < self.n() ==> (#[trigger] self.file_map@[i].name@) == cm.files@[i].name@
        &&& forall|i: int|
            0 <= i < self.n() ==> (#[trigger] self.file_spans@[i]).0 == cm.files@[i].start_pos
                && self.file_spans@[i].1 == cm.files@[i].end_pos
    }

    /// An earlier range ends no later than a later one starts.
    pub proof fn lemma_span_order(&self, i: int, j: int)
        requires
            self.wf(),
            0 <= i < j < self.file_spans@.len(),
        ensures
            self.file_spans@[i].1 <= self.file_spans@[j].0,
        decreases j - i,
    {
        if j == i + 1 {
        } else {
            self.lemma_span_order(i, j - 1);
        }
    }

    /// At most one range holds any flat position.
    pub proof fn lemma_pos_unique(&self, p: int, i: int, j: int)
        requires
            self.wf(),
            0 <= i < self.n(),
            0 <= j < self.n(),
            self.file_spans@[i].0 <= p < self.file_spans@[i].1,
            self.file_spans@[j].0 <= p < self.file_spans@[j].1,
        ensures
            i == j,
    {
        if i < j {
            self.lemma_span_order(i, j);
        } else if j < i {
            self.lemma_span_order(j, i);
        }
    }

    /// At most one entry carries any name.
    pub proof fn lemma_name_unique(&self, name: Seq<char>, i: int, j: int)
        requires
            self.wf(),
            0 <= i < self.n(),
            0 <= j < self.n(),
            self.file_map@[i].name@ == name,
            self.file_map@[j].name@ == name,
        ensures
            i == j,
    {
    }

    /// Build a change set from a source map: one empty buffer per file,
    /// pre-sized with the file's length as a capacity hint, and the file
    /// ranges in sorted order.
    pub fn from_codemap(codemap: &CodeMap) -> (r: ChangeSet)
        requires
            codemap.wf(),
        ensures
            r.wf(),
            r.matches_codemap(*codemap),
            forall|i: int| 0 <= i < r.n() ==> (#[trigger] r.texts()[i]) == Seq::<char>::empty(),
    {
        let mut file_map: Vec<FileEntry> = Vec::new();
        let mut file_spans: Vec<(u32, u32)> = Vec::new();
        let n: usize = codemap.files.len();
        let mut k: usize = 0;
        while k < n
            invariant
                codemap.wf(),
                n == codemap.files@.len(),
                k <= n,
                file_map@.len() == k,
                file_spans@.len() == k,
                forall|i: int|
                    0 <= i < k ==> (#[trigger] file_map@[i].name@) == codemap.files@[i].name@,
                forall|i: int|
                    0 <= i < k ==> (#[trigger] file_spans@[i]).0 == codemap.files@[i].start_pos
                        && file_spans@[i].1 == codemap.files@[i].end_pos,
                forall|i: int|
                    0 <= i < k ==> sb_chars(#[trigger] file_map@[i].buf) == Seq::<char>::empty(),
            decreases n - k,
        {
            let f = &codemap.files[k];
            let cap: usize = f.src.as_str().len();
            file_map.push(FileEntry { name: f.name.clone(), buf: sb_with_capacity(cap) });
            file_spans.push((f.start_pos, f.end_pos));
            k = k + 1;
        }
        let r = ChangeSet { file_map, file_spans };
        proof {
            assert forall|i: int| 0 <= i < r.n() implies (#[trigger] r.texts()[i])
                == Seq::<char>::empty() by {
                assert(sb_chars(r.file_map@[i].buf) == Seq::<char>::empty());
            }
        }
        r
    }

    /// The index of the entry named `filename`, when one exists.
    fn find_name(&self, filename: &str) -> (r: Option<usize>)
        ensures
            match r {
                Some(i) => i < self.n() && self.file_map@[i as int].name@ == filename@,
                None => !self.has_name(filename@),
            },
    {
        let key = String::from_str(filename);
        let len: usize = self.file_map.len();
        let mut i: usize = 0;
        while i < len
            invariant
                key@ == filename@,
                len == self.file_map@.len(),
                i <= len,
                forall|j: int| 0 <= j < i ==> (#[trigger] self.file_map@[j].name@) != filename@,
            decreases len - i,
        {
            if self.file_map[i].name == key {
                return Some(i);
            }
            i = i + 1;
        }
        None
    }

    /// The index of the entry whose range holds `pos`, when one does.
    fn find_pos(&self, pos: u32) -> (r: Option<usize>)
        requires
            self.wf(),
        ensures
            match r {
                Some(i) => i < self.n() && self.file_spans@[i as int].0 <= pos
                    < self.file_spans@[i as int].1 && self.pos_idx(pos as int) == i,
                None => !self.has_pos(pos as int),
            },
    {
        let len: usize = self.file_spans.len();
        let mut i: usize = 0;
        while i < len
            invariant
                self.wf(),
                len == self.file_spans@.len(),
                i <= len,
                forall|j: int|
                    0 <= j < i ==> !((#[trigger] self.file_spans@[j]).0 <= pos
                        < self.file_spans@[j].1),
            decreases len - i,
        {
            let q = self.file_spans[i];
            if q.0 <= pos && pos < q.1 {
                proof {
                    self.lemma_pos_unique(pos as int, self.pos_idx(pos as int), i as int);
                }
                return Some(i);
            }
            i = i + 1;
        }
        None
    }

    /// Append `text` to entry `i` in place.
    fn append_to_entry(&mut self, i: usize, text: &str)
        requires
            i < old(self).file_map@.len(),
        ensures
            final (self).file_map@.len() == old(self).file_map@.len(),
            final (self).file_spans@ == old(self).file_spans@,
            forall|j: int|
                0 <= j < final (self).file_map@.len() && j != i ==> final (self).file_map@[j]
                    == old(self).file_map@[j],
            final (self).file_map@[i as int].name == old(self).file_map@[i as int].name,
            sb_chars(final (self).file_map@[i as int].buf) == sb_chars(
                old(self).file_map@[i as int].buf,
            ) + text@,
    {
        let mut e = self.file_map.remove(i);
        sb_push_str(&mut e.buf, text);
        let ghost esnap = e;
        self.file_map.insert(i, e);
        proof {
            assert(self.file_map@ =~= old(self).file_map@.update(i as int, esnap));
        }
    }

    /// Append `text` to the buffer of the file named `filename`. An unknown
    /// name is a change-set/traversal desync and is reported, not swallowed.
    pub fn push_str(&mut self, filename: &str, text: &str) -> (r: Result<(), FmtError>)
        requires
            old(self).wf(),
        ensures
            final (self).wf(),
            final (self).file_spans@ == old(self).file_spans@,
            final (self).names() == old(self).names(),
            match r {
                Ok(()) => old(self).has_name(filename@) && final (self).texts() == old(
                    self,
                ).texts().update(
                    old(self).idx_of(filename@),
                    old(self).texts()[old(self).idx_of(filename@)] + text@,
                ),
                Err(e) => e == FmtError::UnknownFile && !old(self).has_name(filename@)
                    && final (self).texts() == old(self).texts(),
            },
    {
        let r = self.find_name(filename);
        match r {
            Some(i) => {
                proof {
                    assert(old(self).has_name(filename@));
                    old(self).lemma_name_unique(
                        filename@,
                        old(self).idx_of(filename@),
                        i as int,
                    );
                }
                self.append_to_entry(i, text);
                proof {
                    assert(self.names() =~= old(self).names());
                    assert(self.texts() =~= old(self).texts().update(
                        i as int,
                        old(self).texts()[i as int] + text@,
                    ));
                }
                Ok(())
            },
            None => Err(FmtError::UnknownFile),
        }
    }

    /// Append `text` to the file owning the start of `span`.
    pub fn push_str_span(&mut self, span: Span, text: &str) -> (r: Result<(), FmtError>)
        requires
            old(self).wf(),
        ensures
            final (self).wf(),
            final (self).file_spans@ == old(self).file_spans@,
            final (self).names() == old(self).names(),
            match r {
                Ok(()) => old(self).has_pos(span.lo as int) && final (self).texts() == old(
                    self,
                ).texts().update(
                    old(self).pos_idx(span.lo as int),
                    old(self).texts()[old(self).pos_idx(span.lo as int)] + text@,
                ),
                Err(e) => e == FmtError::UnknownFile && !old(self).has_pos(span.lo as int)
                    && final (self).texts() == old(self).texts(),
            },
    {
        let r = self.find_pos(span.lo);
        match r {
            Some(i) => {
                self.append_to_entry(i, text);
                proof {
                    assert(self.names() =~= old(self).names());
                    assert(self.texts() =~= old(self).texts().update(
                        i as int,
                        old(self).texts()[i as int] + text@,
                    ));
                }
                Ok(())
            },
            None => Err(FmtError::UnknownFile),
        }
    }

    /// Exclusive access to the buffer named `filename`, for callers that
    /// append directly.
    pub fn get_mut(&mut self, file_name: &str) -> (r: Option<&mut strings::string_buffer::StringBuffer>)
        requires
            old(self).wf(),
        ensures
            r matches Some(_) <==> old(self).has_name(file_name@),
    {
        let n: usize = self.file_map.len();
        let key = String::from_str(file_name);
        let mut i: usize = 0;
        while i < n
            invariant
                n == self.file_map@.len(),
                self.file_map@ == old(self).file_map@,
                key@ == file_name@,
                i <= n,
                forall|j: int| 0 <= j < i ==> (#[trigger] self.file_map@[j].name@) != file_name@,
            decreases n - i,
        {
            if self.file_map[i].name == key {
                proof {
                    assert(self.file_map@[i as int].name@ == file_name@);
                    assert(old(self).has_name(file_name@));
                }
                return Some(&mut self.file_map[i].buf);
            }
            i = i + 1;
        }
        proof {
            assert(!old(self).has_name(file_name@));
        }
        None
    }

    /// The column offset of the buffer named `filename`: the characters since
    /// the start of its last line, or its whole length when it has no line
    /// break yet. Callers use it to compute the remaining line-width budget.
    pub fn cur_offset(&self, filename: &str) -> (r: Result<usize, FmtError>)
        requires
            self.wf(),
        ensures
            match r {
                Ok(c) => self.has_name(filename@) && (ascii_only(
                    self.texts()[self.idx_of(filename@)],
                ) ==> c == col_of(self.texts()[self.idx_of(filename@)])),
                Err(e) => e == FmtError::UnknownFile && !self.has_name(filename@),
            },
    {
        let r = self.find_name(filename);
        match r {
            Some(i) => {
                proof {
                    self.lemma_name_unique(filename@, self.idx_of(filename@), i as int);
                }
                Ok(sb_cur_offset(&self.file_map[i].buf))
            },
            None => Err(FmtError::UnknownFile),
        }
    }

    /// The column offset of the buffer of the file owning the start of `span`.
    pub fn cur_offset_span(&self, span: Span) -> (r: Result<usize, FmtError>)
        requires
            self.wf(),
        ensures
            match r {
                Ok(c) => self.has_pos(span.lo as int) && (ascii_only(
                    self.texts()[self.pos_idx(span.lo as int)],
                ) ==> c == col_of(self.texts()[self.pos_idx(span.lo as int)])),
                Err(e) => e == FmtError::UnknownFile && !self.has_pos(span.lo as int),
            },
    {
        let r = self.find_pos(span.lo);
        match r {
            Some(i) => Ok(sb_cur_offset(&self.file_map[i].buf)),
            None => Err(FmtError::UnknownFile),
        }
    }

    /// Append a line break to the end of every file's buffer.
    pub fn append_newlines(&mut self)
        requires
            old(self).wf(),
        ensures
            final (self).wf(),
            final (self).file_spans@ == old(self).file_spans@,
            final (self).names() == old(self).names(),
            final (self).texts().len() == old(self).texts().len(),
            forall|i: int|
                0 <= i < final (self).texts().len() ==> (#[trigger] final (self).texts()[i]) == old(
                    self,
                ).texts()[i] + "\n"@,
    {
        let len: usize = self.file_map.len();
        let mut i: usize = 0;
        while i < len
            invariant
                len == self.file_map@.len(),
                old(self).wf(),
                i <= len,
                self.file_map@.len() == old(self).file_map@.len(),
                self.file_spans@ == old(self).file_spans@,
                forall|j: int|
                    0 <= j < len ==> (#[trigger] self.file_map@[j].name@) == old(
                        self,
                    ).file_map@[j].name@,
                forall|j: int|
                    0 <= j < i ==> sb_chars(#[trigger] self.file_map@[j].buf) == sb_chars(
                        old(self).file_map@[j].buf,
                    ) + "\n"@,
                forall|j: int|
                    i <= j < len ==> (#[trigger] self.file_map@[j]) == old(self).file_map@[j],
            decreases len - i,
        {
            self.append_to_entry(i, "\n");
            i = i + 1;
        }
        proof {
            assert(self.names() =~= old(self).names());
            assert forall|i2: int| 0 <= i2 < self.texts().len() implies (
            #[trigger] self.texts()[i2]) == old(self).texts()[i2] + "\n"@ by {
                assert(sb_chars(self.file_map@[i2].buf) == sb_chars(old(self).file_map@[i2].buf)
                    + "\n"@);
            }
        }
    }

    /// Resolve the flat span `[start, end)` into the ordered pieces it covers,
    /// split at the boundaries of the file ranges: locate the range holding
    /// `start` by binary search (greatest start offset at or before it, with
    /// index 0 as the fallback), then clip at each range end until `end` is
    /// reached, emitting any remainder past the table as one final piece.
    /// Zero-length spans and an empty table yield no pieces.
    #[verifier::rlimit(100)]
    pub fn filespans_for_span(&self, start: BytePos, end: BytePos) -> (r: Vec<(u32, u32)>)
        requires
            self.wf(),
            start.0 <= end.0,
        ensures
            self.n() == 0 ==> r@.len() == 0,
            self.n() > 0 ==> pieces_chained(r@, start.0 as int, end.0 as int),
            (self.n() > 0 && self.file_spans@[0].0 <= start.0 && end.0
                <= self.file_spans@[self.n() - 1].1) ==> forall|k: int|
                0 <= k < r@.len() ==> exists|i: int|
                    0 <= i < self.n() && self.file_spans@[i].0 <= (#[trigger] r@[k]).0 && r@[k].1
                        <= self.file_spans@[i].1,
            forall|k: int|
                0 <= k < r@.len() - 1 ==> exists|i: int|
                    0 <= i < self.n() - 1 && (#[trigger] r@[k]).1 == self.file_spans@[i].1,
    {
        let mut result: Vec<(u32, u32)> = Vec::new();
        let len: usize = self.file_spans.len();
        if len == 0 {
            return result;
        }
        if start.0 == end.0 {
            return result;
        }
        let lo: u32 = start.0;
        let hi: u32 = end.0;
        let ghost in_table = self.file_spans@[0].0 <= lo && hi <= self.file_spans@[len - 1].1;
        let mut idx: usize = self.span_start_idx(lo);
        let ghost idx0 = idx as int;
        let mut cur: u32 = lo;
        proof {
            if in_table {
                // `lo` lies inside range `idx`: were `lo` past its end, the
                // adjacent next range would also start at or before `lo`,
                // contradicting maximality; past the last range contradicts
                // `hi` fitting in the table.
                if self.file_spans@[idx as int].1 < lo {
                    if idx as int == self.n() - 1 {
                        assert(lo <= hi <= self.file_spans@[self.n() - 1].1);
                        assert(false);
                    } else {
                        assert(self.file_spans@[idx as int + 1].0 == self.file_spans@[idx as int].1);
                        assert(false);
                    }
                }
            }
        }
        loop
            invariant
                self.wf(),
                len == self.file_spans@.len(),
                0 < len,
                lo == start.0,
                hi == end.0,
                lo < hi,
                idx0 <= idx < len,
                lo <= cur,
                cur <= self.file_spans@[idx as int].1 || idx == len - 1,
                forall|j: int|
                    0 <= j < len && (#[trigger] self.file_spans@[j]).0 <= lo ==> j <= idx0,
                pieces_chained(result@, lo as int, if cur <= hi { cur as int } else { hi as int }),
                in_table == (self.file_spans@[0].0 <= lo && hi <= self.file_spans@[len - 1].1),
                in_table ==> self.file_spans@[idx as int].0 <= cur <= self.file_spans@[idx as int].1,
                in_table ==> forall|k: int|
                    0 <= k < result@.len() ==> exists|i: int|
                        0 <= i < len && self.file_spans@[i].0 <= (#[trigger] result@[k]).0
                            && result@[k].1 <= self.file_spans@[i].1,
                forall|k: int|
                    0 <= k < result@.len() - 1 ==> exists|i: int|
                        0 <= i < len - 1 && (#[trigger] result@[k]).1 == self.file_spans@[i].1,
                result@.len() > 0 && cur < hi ==> exists|i: int|
                    0 <= i < len - 1 && result@[result@.len() - 1].1 == (
                    #[trigger] self.file_spans@[i]).1,
            decreases len - idx,
        {
            let fend: u32 = self.file_spans[idx].1;
            let next_idx: usize = idx + 1;
            if next_idx >= len || cur >= hi {
                if cur < hi {
                    proof {
                        lemma_chain_push(result@, lo as int, cur as int, (cur, hi));
                    }
                    result.push((cur, hi));
                }
                proof {
                    if in_table && cur < hi {
                        assert(next_idx >= len);
                        assert(self.file_spans@[idx as int].0 <= cur && hi
                            <= self.file_spans@[idx as int].1);
                        assert forall|k: int| 0 <= k < result@.len() implies exists|i: int|
                            0 <= i < len && self.file_spans@[i].0 <= (#[trigger] result@[k]).0
                                && result@[k].1 <= self.file_spans@[i].1 by {
                            if k == result@.len() - 1 {
                                assert(self.file_spans@[idx as int].0 <= result@[k].0
                                    && result@[k].1 <= self.file_spans@[idx as int].1);
                            }
                        }
                    }
                }
                return result;
            }
            let clip: u32 = if fend < hi {
                fend
            } else {
                hi
            };
            if cur < clip {
                proof {
                    lemma_chain_push(result@, lo as int, cur as int, (cur, clip));
                    if clip < hi {
                        assert(idx < len - 1);
                        assert(clip == self.file_spans@[idx as int].1);
                    }
                }
                result.push((cur, clip));
                proof {
                    if in_table {
                        assert forall|k: int| 0 <= k < result@.len() implies exists|i: int|
                            0 <= i < len && self.file_spans@[i].0 <= (#[trigger] result@[k]).0
                                && result@[k].1 <= self.file_spans@[i].1 by {
                            if k == result@.len() - 1 {
                                assert(self.file_spans@[idx as int].0 <= result@[k].0
                                    && result@[k].1 <= self.file_spans@[idx as int].1);
                            }
                        }
                    }
                }
            }
            let ghost prev_cur = cur as int;
            idx = next_idx;
            cur = self.file_spans[idx].0;
            proof {
                assert(self.file_spans@[idx - 1].1 == self.file_spans@[idx as int].0);
                assert(cur == fend);
                // A range past the one found by the binary search starts after
                // `lo`, so the cursor never moves back before `lo`.
                assert(idx as int > idx0);
                assert(lo <= cur);
                if prev_cur < clip {
                    assert(pieces_chained(
                        result@,
                        lo as int,
                        if cur <= hi {
                            cur as int
                        } else {
                            hi as int
                        },
                    ));
                } else {
                    // No piece was emitted: the cursor already sat at the end
                    // of the current range, which equals the next range's start.
                    assert(prev_cur == fend);
                    assert(pieces_chained(
                        result@,
                        lo as int,
                        if cur <= hi {
                            cur as int
                        } else {
                            hi as int
                        },
                    ));
                }
            }
        }
    }

    /// The greatest index whose range starts at or before `pos`, or 0 when
    /// every range starts after `pos`.
    fn span_start_idx(&self, pos: u32) -> (r: usize)
        requires
            self.wf(),
            self.file_spans@.len() > 0,
        ensures
            r < self.file_spans@.len(),
            forall|j: int|
                0 <= j < self.file_spans@.len() && (#[trigger] self.file_spans@[j]).0 <= pos ==> j
                    <= r,
            self.file_spans@[r as int].0 <= pos || r == 0,
    {
        let len: usize = self.file_spans.len();
        let mut lo: usize = 0;
        let mut hi: usize = len;
        while lo < hi
            invariant
                lo <= hi <= len,
                len == self.file_spans@.len(),
                self.wf(),
                forall|j: int| 0 <= j < lo ==> (#[trigger] self.file_spans@[j]).0 <= pos,
                forall|j: int| hi <= j < len ==> (#[trigger] self.file_spans@[j]).0 > pos,
            decreases hi - lo,
        {
            let mid: usize = lo + (hi - lo) / 2;
            if self.file_spans[mid].0 <= pos {
                proof {
                    assert forall|j: int| 0 <= j < mid + 1 implies (
                    #[trigger] self.file_spans@[j]).0 <= pos by {
                        if j < mid {
                            self.lemma_span_order(j, mid as int);
                        }
                    }
                }
                lo = mid + 1;
            } else {
                proof {
                    assert forall|j: int| mid <= j < len implies (#[trigger] self.file_spans@[j]).0
                        > pos by {
                        if mid < j {
                            self.lemma_span_order(mid as int, j);
                        }
                    }
                }
                hi = mid;
            }
        }
        if lo == 0 {
            0
        } else {
            lo - 1
        }
    }

    /// Render the buffer named `filename` under the given newline style.
    pub fn rendered_file(&self, filename: &str, style: NewlineStyle) -> (r: Result<
        String,
        FmtError,
    >)
        requires
            self.wf(),
        ensures
            match r {
                Ok(s) => self.has_name(filename@) && s@ == rendered(
                    self.texts()[self.idx_of(filename@)],
                    style,
                ),
                Err(e) => e == FmtError::UnknownFile && !self.has_name(filename@),
            },
    {
        let r = self.find_name(filename);
        match r {
            Some(i) => {
                proof {
                    self.lemma_name_unique(filename@, self.idx_of(filename@), i as int);
                }
                let contents = sb_contents(&self.file_map[i].buf);
                Ok(system_newlines(contents.as_str(), style))
            },
            None => Err(FmtError::UnknownFile),
        }
    }

    /// Render every file under the given newline style, as pairs of file name
    /// and rendered text, in table order. This is the in-memory output mode;
    /// the filesystem-bound modes reuse `rendered_file` per file.
    pub fn rendered_all(&self, style: NewlineStyle) -> (r: Vec<(String, String)>)
        requires
            self.wf(),
        ensures
            r@.len() == self.n(),
            forall|i: int|
                0 <= i < self.n() ==> (#[trigger] r@[i]).0@ == self.names()[i] && r@[i].1@
                    == rendered(self.texts()[i], style),
    {
        let mut out: Vec<(String, String)> = Vec::new();
        let len: usize = self.file_map.len();
        let mut i: usize = 0;
        while i < len
            invariant
                self.wf(),
                len == self.file_map@.len(),
                i <= len,
                out@.len() == i,
                forall|j: int|
                    0 <= j < i ==> (#[trigger] out@[j]).0@ == self.names()[j] && out@[j].1@
                        == rendered(self.texts()[j], style),
            decreases len - i,
        {
            let contents = sb_contents(&self.file_map[i].buf);
            let text = system_newlines(contents.as_str(), style);
            out.push((self.file_map[i].name.clone(), text));
            i = i + 1;
        }
        out
    }

    /// A snapshot iterator over (file name, accumulated text), in table order.
    pub fn text(&self) -> (r: FileIterator)
        ensures
            r.cur_key == 0,
            r.files@.len() == self.n(),
            forall|i: int|
                0 <= i < self.n() ==> (#[trigger] r.files@[i]).0@ == self.names()[i]
                    && r.files@[i].1@ == self.texts()[i],
    {
        let mut files: Vec<(String, String)> = Vec::new();
        let len: usize = self.file_map.len();
        let mut i: usize = 0;
        while i < len
            invariant
                len == self.file_map@.len(),
                i <= len,
                files@.len() == i,
                forall|j: int|
                    0 <= j < i ==> (#[trigger] files@[j]).0@ == self.names()[j] && files@[j].1@
                        == self.texts()[j],
            decreases len - i,
        {
            let contents = sb_contents(&self.file_map[i].buf);
            files.push((self.file_map[i].name.clone(), contents));
            i = i + 1;
        }
        FileIterator { files, cur_key: 0 }
    }

    /// The whole changed text as one string: each file's name, a colon and a
    /// line break, its text, then a blank line.
    pub fn display_text(&self) -> (r: String)
        ensures
            r@ == display_upto(self.names(), self.texts(), self.n()),
    {
        let mut out = String::new();
        let len: usize = self.file_map.len();
        let mut i: usize = 0;
        while i < len
            invariant
                len == self.file_map@.len(),
                i <= len,
                out@ == display_upto(self.names(), self.texts(), i as int),
            decreases len - i,
        {
            out.append(self.file_map[i].name.as_str());
            out.append(":\n");
            let contents = sb_contents(&self.file_map[i].buf);
            out.append(contents.as_str());
            out.append("\n\n");
            i = i + 1;
        }
        out
    }
}

/// The concatenated display text of the first `k` files.
pub open spec fn display_upto(names: Seq<Seq<char>>, texts: Seq<Seq<char>>, k: int) -> Seq<char>
    decreases k,
{
    if k <= 0 {
        Seq::<char>::empty()
    } else {
        display_upto(names, texts, k - 1) + names[k - 1] + ":\n"@ + texts[k - 1] + "\n\n"@
    }
}

/// A finite snapshot iterator over the changed files: restart by recreating it.
pub struct FileIterator {
    pub files: Vec<(String, String)>,
    pub cur_key: usize,
}

impl FileIterator {
    /// The next (file name, changed text) pair, or nothing when exhausted.
    pub fn next(&mut self) -> (r: Option<(String, String)>)
        ensures
            final (self).files == old(self).files,
            match r {
                Some(p) => old(self).cur_key < old(self).files@.len() && final (self).cur_key
                    == old(self).cur_key + 1 && p.0@ == old(self).files@[old(self).cur_key as int].0@
                    && p.1@ == old(self).files@[old(self).cur_key as int].1@,
                None => old(self).cur_key >= old(self).files@.len() && final (self).cur_key == old(
                    self,
                ).cur_key,
            },
    {
        if self.cur_key >= self.files.len() {
            return None;
        }
        let name = self.files[self.cur_key].0.clone();
        let contents = self.files[self.cur_key].1.clone();
        self.cur_key = self.cur_key + 1;
        Some((name, contents))
    }
}

/// Does some piece of `r` hold position `x`?
pub open spec fn piece_covers(r: Seq<(u32, u32)>, x: int) -> bool {
    exists|k: int| 0 <= k < r.len() && (#[trigger] r[k]).0 <= x < r[k].1
}

/// Pieces chained from `lo` to `hi` cover exactly `[lo, hi)`: every position in
/// the span lies in some piece, no position outside does, and the pieces are
/// pairwise disjoint.
pub proof fn lemma_pieces_cover(r: Seq<(u32, u32)>, lo: int, hi: int)
    requires
        lo <= hi,
        pieces_chained(r, lo, hi),
    ensures
        forall|x: int| lo <= x < hi <==> #[trigger] piece_covers(r, x),
        forall|k: int, l: int|
            0 <= k < l < r.len() ==> (#[trigger] r[k]).1 <= (#[trigger] r[l]).0,
    decreases r.len(),
{
    assert forall|k: int, l: int| 0 <= k < l < r.len() implies (#[trigger] r[k]).1 <= (
    #[trigger] r[l]).0 by {
        lemma_chain_mono(r, lo, hi, k, l);
    }
    assert forall|k: int| 0 <= k < r.len() implies lo <= (#[trigger] r[k]).0 && r[k].1 <= hi by {
        lemma_chain_bounds(r, lo, hi, k);
    }
    assert forall|x: int| lo <= x < hi implies #[trigger] piece_covers(r, x) by {
        lemma_chain_find(r, lo, hi, x);
    }
    assert forall|x: int| #[trigger] piece_covers(r, x) implies lo <= x < hi by {
        let k = choose|k: int| 0 <= k < r.len() && (#[trigger] r[k]).0 <= x < r[k].1;
        lemma_chain_bounds(r, lo, hi, k);
    }
}

/// The right end of an earlier piece is at or before the left end of a later one.
pub proof fn lemma_chain_mono(r: Seq<(u32, u32)>, lo: int, hi: int, k: int, l: int)
    requires
        pieces_chained(r, lo, hi),
        0 <= k < l < r.len(),
    ensures
        r[k].1 <= r[l].0,
    decreases l - k,
{
    if l == k + 1 {
    } else {
        lemma_chain_mono(r, lo, hi, k, l - 1);
    }
}

/// Every piece lies inside `[lo, hi)`.
pub proof fn lemma_chain_bounds(r: Seq<(u32, u32)>, lo: int, hi: int, k: int)
    requires
        lo <= hi,
        pieces_chained(r, lo, hi),
        0 <= k < r.len(),
    ensures
        lo <= r[k].0,
        r[k].1 <= hi,
{
    assert(lo < hi);
    if k > 0 {
        lemma_chain_mono(r, lo, hi, 0, k);
        assert(r[0].0 == lo && r[0].0 < r[0].1);
    }
    if k < r.len() - 1 {
        lemma_chain_mono(r, lo, hi, k, r.len() - 1);
        assert(r[r.len() - 1].1 == hi && r[r.len() - 1].0 < r[r.len() - 1].1);
    }
}

/// Appending a non-empty piece that starts where the chain ends extends the
/// chain to the piece's end.
pub proof fn lemma_chain_push(r: Seq<(u32, u32)>, lo: int, a: int, p: (u32, u32))
    requires
        lo <= a,
        pieces_chained(r, lo, a),
        p.0 == a,
        p.0 < p.1,
    ensures
        pieces_chained(r.push(p), lo, p.1 as int),
{
    let r2 = r.push(p);
    assert forall|k: int| 0 <= k < r2.len() implies (#[trigger] r2[k]).0 < r2[k].1 by {
        if k < r.len() {
            assert(r2[k] == r[k]);
        } else {
            assert(r2[k] == p);
        }
    }
    assert forall|k: int| 0 <= k < r2.len() - 1 implies (#[trigger] r2[k]).1 == r2[k + 1].0 by {
        if k < r.len() - 1 {
            assert(r2[k] == r[k]);
            assert(r2[k + 1] == r[k + 1]);
        } else {
            assert(r2[k] == r[k]);
            assert(r2[k + 1] == p);
        }
    }
    if r.len() == 0 {
        assert(r2[0] == p);
    } else {
        assert(r2[0] == r[0]);
    }
    assert(r2[r2.len() - 1] == p);
}

/// Every position of `[lo, hi)` lies in some piece.
pub proof fn lemma_chain_find(r: Seq<(u32, u32)>, lo: int, hi: int, x: int)
    requires
        pieces_chained(r, lo, hi),
        lo <= x < hi,
    ensures
        exists|k: int| 0 <= k < r.len() && (#[trigger] r[k]).0 <= x < r[k].1,
    decreases r.len(),
{
    if x < r[0].1 {
        assert(r[0].0 <= x < r[0].1);
    } else {
        let tail = r.drop_first();
        assert(pieces_chained(tail, r[0].1 as int, hi)) by {
            assert forall|k: int| 0 <= k < tail.len() implies (#[trigger] tail[k]).0
                < tail[k].1 by {
                assert(tail[k] == r[k + 1]);
            }
            assert forall|k: int| 0 <= k < tail.len() - 1 implies (#[trigger] tail[k]).1 == tail[k
                + 1].0 by {
                assert(tail[k] == r[k + 1]);
                assert(tail[k + 1] == r[k + 2]);
            }
            if (r[0].1 as int) < hi {
                assert(tail.len() > 0);
                assert(tail[0] == r[1]);
                assert(tail[tail.len() - 1] == r[r.len() - 1]);
            }
        }
        lemma_chain_find(tail, r[0].1 as int, hi, x);
        let k0 = choose|k: int| 0 <= k < tail.len() && (#[trigger] tail[k]).0 <= x < tail[k].1;
        assert(r[k0 + 1].0 <= x < r[k0 + 1].1);
    }
}

} // verus!
