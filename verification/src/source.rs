//! The line-start table for one source buffer: an ordered list of byte
//! offsets at which lines begin, and resolution of byte offsets to
//! 1-based line/column pairs.

use vstd::prelude::*;
use crate::position::{Pos, Position};

verus! {

/// Ghost form of a `Source`: its declared size and its line-start table.
pub struct SourceV {
    pub size: usize,
    pub lines: Seq<usize>,
}

/// The line-start entries are strictly increasing, and every entry past
/// the first lies inside the buffer.
pub open spec fn wf_lines(v: SourceV) -> bool {
    &&& forall|i: int, j: int|
        0 <= i < j < v.lines.len() ==> v.lines[i] < v.lines[j]
    &&& forall|i: int| 1 <= i < v.lines.len() ==> v.lines[i] < v.size
}

/// Index of the greatest recorded line start that is at most `off`,
/// or -1 when every entry is greater.
pub open spec fn line_index(lines: Seq<usize>, off: int) -> int
    decreases lines.len(),
{
    if lines.len() == 0 {
        -1
    } else if lines.last() <= off {
        lines.len() - 1
    } else {
        line_index(lines.drop_last(), off)
    }
}

/// Resolution of a byte offset against a line-start table. Offset 0 is the
/// "no position" sentinel and resolves to the invalid position; an offset
/// below every recorded line start resolves to an invalid position that
/// still carries the offset.
pub open spec fn resolve(lines: Seq<usize>, p: int) -> Position {
    if p == 0 {
        Position { offset: 0, line: 0, column: 0 }
    } else {
        let i = line_index(lines, p);
        if i < 0 {
            Position { offset: p as usize, line: 0, column: 0 }
        } else {
            Position {
                offset: p as usize,
                line: (i + 1) as usize,
                column: (p - lines[i]) as usize,
            }
        }
    }
}

/// True when `p` is the byte offset where some line of `bytes` begins:
/// the start of the buffer, or the byte after a newline.
pub open spec fn is_line_start(bytes: Seq<u8>, p: int) -> bool {
    0 <= p < bytes.len() && (p == 0 || bytes[p - 1] == 10u8)
}

/// The line-start table of one source buffer. Entry 0 is the start of
/// line 1; entries are appended while scanning, or replaced in bulk.
pub struct Source {
    size: usize,
    lines: Vec<usize>,
}

impl View for Source {
    type V = SourceV;

    closed spec fn view(&self) -> SourceV {
        SourceV { size: self.size, lines: self.lines@ }
    }
}

impl Source {
    /// A fresh table for a buffer of `size` bytes, holding only the start
    /// of line 1.
    pub fn new(size: usize) -> (r: Source)
        ensures
            r@.size == size,
            r@.lines == seq![0usize],
            wf_lines(r@),
    {
        let mut lines: Vec<usize> = Vec::new();
        lines.push(0);
        proof {
            assert(lines@ =~= seq![0usize]);
        }
        Source { size, lines }
    }

    /// The declared byte length of the buffer this table describes.
    pub fn size(&self) -> (r: usize)
        ensures
            r == self@.size,
    {
        self.size
    }

    /// How many line starts are recorded.
    pub fn line_count(&self) -> (r: usize)
        ensures
            r == self@.lines.len(),
    {
        self.lines.len()
    }

    /// Records `offset` as the start of the next line, but only when it
    /// lies strictly after the last recorded start and strictly inside
    /// the buffer; otherwise a silent no-op.
    pub fn add_line(&mut self, offset: usize)
        requires
            wf_lines(old(self)@),
        ensures
            final(self)@.size == old(self)@.size,
            final(self)@.lines == if (old(self)@.lines.len() == 0
                || old(self)@.lines.last() < offset) && offset < old(self)@.size {
                old(self)@.lines.push(offset)
            } else {
                old(self)@.lines
            },
            wf_lines(final(self)@),
    {
        let i = self.lines.len();
        if (i == 0 || self.lines[i - 1] < offset) && offset < self.size {
            self.lines.push(offset);
        }
    }

    /// Removes the recorded start of the line after line `line`, merging
    /// it into its predecessor.
    pub fn merge_lines(&mut self, line: usize)
        requires
            wf_lines(old(self)@),
            1 <= line < old(self)@.lines.len(),
        ensures
            final(self)@.size == old(self)@.size,
            final(self)@.lines == old(self)@.lines.remove(line as int),
            wf_lines(final(self)@),
    {
        self.lines.remove(line);
    }

    /// Replaces the whole table when every entry is strictly increasing
    /// and strictly inside the buffer; otherwise leaves it unchanged and
    /// reports failure.
    pub fn set_lines(&mut self, lines: Vec<usize>) -> (r: bool)
        requires
            wf_lines(old(self)@),
        ensures
            final(self)@.size == old(self)@.size,
            r == ((forall|i: int, j: int|
                0 <= i < j < lines@.len() ==> lines@[i] < lines@[j]) && (forall|i: int|
                0 <= i < lines@.len() ==> lines@[i] < old(self)@.size)),
            final(self)@.lines == if r {
                lines@
            } else {
                old(self)@.lines
            },
            wf_lines(final(self)@),
    {
        let n = lines.len();
        let mut i: usize = 0;
        while i < n
            invariant
                *self == *old(self),
                wf_lines(self@),
                i <= n,
                n == lines@.len(),
                forall|a: int, b: int| 0 <= a < b < i ==> lines@[a] < lines@[b],
                forall|a: int| 0 <= a < i ==> lines@[a] < self@.size,
            decreases n - i,
        {
            if i > 0 && lines[i] <= lines[i - 1] {
                return false;
            }
            if self.size <= lines[i] {
                return false;
            }
            i += 1;
        }
        self.lines = lines;
        true
    }

    /// Recomputes the table from the buffer contents: line 1 starts at
    /// offset 0, and each newline starts a new line one byte later.
    pub fn set_lines_for_content(&mut self, content: &[u8])
        requires
            content@.len() == old(self)@.size,
        ensures
            final(self)@.size == old(self)@.size,
            forall|i: int, j: int|
                0 <= i < j < final(self)@.lines.len() ==> final(self)@.lines[i]
                    < final(self)@.lines[j],
            forall|i: int|
                0 <= i < final(self)@.lines.len() ==> is_line_start(
                    content@,
                    final(self)@.lines[i] as int,
                ),
            forall|p: int|
                is_line_start(content@, p) ==> exists|i: int|
                    0 <= i < final(self)@.lines.len() && final(self)@.lines[i] == p,
            wf_lines(final(self)@),
    {
        let n = content.len();
        let mut lines: Vec<usize> = Vec::new();
        let mut off: usize = 0;
        while off < n
            invariant
                *self == *old(self),
                off <= n,
                n == content@.len(),
                forall|i: int, j: int| 0 <= i < j < lines@.len() ==> lines@[i] < lines@[j],
                forall|i: int| 0 <= i < lines@.len() ==> lines@[i] < off,
                forall|i: int| 0 <= i < lines@.len() ==> is_line_start(content@, lines@[i] as int),
                forall|p: int|
                    is_line_start(content@, p) && p < off ==> exists|i: int|
                        0 <= i < lines@.len() && lines@[i] == p,
            decreases n - off,
        {
            let ghost lines0 = lines@;
            let ghost off0 = off as int;
            if off == 0 || content[off - 1] == 10u8 {
                lines.push(off);
            }
            off += 1;
            proof {
                assert forall|p: int| is_line_start(content@, p) && p < off implies exists|i: int|
                    0 <= i < lines@.len() && lines@[i] == p by {
                    if p < off0 {
                        let i = choose|i: int| 0 <= i < lines0.len() && lines0[i] == p;
                        assert(lines@[i] == p);
                    } else {
                        assert(p == off0);
                        assert(lines@.last() == p);
                    }
                }
            }
        }
        let ghost lsnap = lines@;
        self.lines = lines;
        proof {
            assert forall|p: int| is_line_start(content@, p) implies exists|i: int|
                0 <= i < self@.lines.len() && self@.lines[i] == p by {
                assert(p < n);
                let i = choose|i: int| 0 <= i < lsnap.len() && lsnap[i] == p;
                assert(self@.lines[i] == p);
            }
        }
    }

    /// The byte offset where the given 1-based line begins.
    pub fn line_start(&self, line: usize) -> (r: Pos)
        requires
            1 <= line <= self@.lines.len(),
        ensures
            r.0 == self@.lines[line - 1],
    {
        Pos(self.lines[line - 1])
    }

    /// The 1-based line holding the given offset, or 0 when it cannot be
    /// resolved.
    pub fn line(&self, p: Pos) -> (r: usize)
        ensures
            r == resolve(self@.lines, p.0 as int).line,
    {
        self.position(p).line
    }

    /// Resolves an offset to its (line, column) pair against the recorded
    /// line starts; (0, 0) when the offset lies before every recorded
    /// start.
    pub fn unpack(&self, offset: usize) -> (r: (usize, usize))
        ensures
            ({
                let i = line_index(self@.lines, offset as int);
                if i < 0 {
                    r == (0usize, 0usize)
                } else {
                    r.0 == i + 1 && r.1 == offset - self@.lines[i]
                }
            }),
    {
        let n = self.lines.len();
        let mut k: usize = n;
        proof {
            assert(self@.lines.take(n as int) =~= self@.lines);
        }
        while k > 0
            invariant
                k <= n,
                n == self@.lines.len(),
                line_index(self@.lines, offset as int) == line_index(
                    self@.lines.take(k as int),
                    offset as int,
                ),
            decreases k,
        {
            proof {
                assert(self@.lines.take(k as int).last() == self@.lines[k - 1]);
                assert(self@.lines.take(k as int).drop_last() =~= self@.lines.take(k as int - 1));
            }
            if self.lines[k - 1] <= offset {
                proof {
                    assert(line_index(self@.lines, offset as int) == k - 1);
                }
                return (k - 1 + 1, offset - self.lines[k - 1]);
            }
            k -= 1;
        }
        proof {
            assert(self@.lines.take(0) =~= Seq::<usize>::empty());
        }
        (0, 0)
    }

    /// Resolves a raw offset to a full `Position`. The sentinel "no
    /// position" resolves to the invalid position.
    pub fn position(&self, p: Pos) -> (r: Position)
        ensures
            r == resolve(self@.lines, p.0 as int),
    {
        if !p.is_valid() {
            return Position::default();
        }
        let (line, column) = self.unpack(p.0);
        Position { offset: p.0, line, column }
    }
}

/// Resolving an offset that is a recorded line start yields column 0, and
/// resolving the offset one past it yields column 1 so long as that next
/// offset is not itself a recorded line start.
pub proof fn lemma_position_round_trip(lines: Seq<usize>, i: int)
    requires
        forall|a: int, b: int| 0 <= a < b < lines.len() ==> lines[a] < lines[b],
        0 <= i < lines.len(),
    ensures
        resolve(lines, lines[i] as int).column == 0,
        !(exists|j: int| 0 <= j < lines.len() && lines[j] == lines[i] + 1) ==> resolve(
            lines,
            lines[i] + 1,
        ) == (Position {
            offset: (lines[i] + 1) as usize,
            line: (i + 1) as usize,
            column: 1,
        }),
{
    if lines[i] != 0 {
        lemma_line_index_at(lines, lines[i] as int, i);
    }
    if !(exists|j: int| 0 <= j < lines.len() && lines[j] == lines[i] + 1) {
        lemma_line_index_at(lines, lines[i] + 1, i);
    }
}

/// When `lines` is strictly increasing, `lines[i] <= off`, and no later
/// entry is at most `off`, the search lands on index `i`.
proof fn lemma_line_index_at(lines: Seq<usize>, off: int, i: int)
    requires
        forall|a: int, b: int| 0 <= a < b < lines.len() ==> lines[a] < lines[b],
        0 <= i < lines.len(),
        lines[i] <= off,
        i + 1 < lines.len() ==> off < lines[i + 1],
    ensures
        line_index(lines, off) == i,
    decreases lines.len(),
{
    if i == lines.len() - 1 {
        assert(lines.last() == lines[i]);
    } else {
        if i + 1 == lines.len() - 1 {
            assert(off < lines[lines.len() - 1]);
        } else {
            assert(lines[i + 1] < lines[lines.len() - 1]);
            assert(off < lines[lines.len() - 1]);
        }
        let sub = lines.drop_last();
        assert(sub.len() == lines.len() - 1);
        assert(forall|a: int| 0 <= a < sub.len() ==> sub[a] == lines[a]);
        assert(forall|a: int, b: int| 0 <= a < b < sub.len() ==> sub[a] < sub[b]);
        lemma_line_index_at(sub, off, i);
    }
}

} // verus!
