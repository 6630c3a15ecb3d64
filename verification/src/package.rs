use vstd::prelude::*;
use vstd::string::StringSliceAdditionalSpecFns;

verus! {

/// The newline byte, which separates rows of a source file.
pub const NEWLINE: u8 = 10u8;

/// Identifies a position in Nix code: a file and a 1-based row and column.
#[derive(Debug, Clone, Hash, PartialEq, Eq)]
pub struct SourcePos {
    pub file: String,
    pub row: usize,
    pub col: usize,
}

/// A package, with location information.
#[derive(Debug, Clone, Hash, PartialEq, Eq)]
pub struct Package {
    /// The name of the attribute it is stored under.
    pub name: String,
    /// The position of the lambda which returns the derivation.
    pub pos: SourcePos,
    /// Slug describing the flake this came from.
    pub flake_slug: String,
}

/// A [`Package`] as plain values.
pub struct PackageView {
    pub name: Seq<char>,
    pub file: Seq<char>,
    pub row: usize,
    pub col: usize,
    pub flake_slug: Seq<char>,
}

impl View for Package {
    type V = PackageView;

    open spec fn view(&self) -> PackageView {
        PackageView {
            name: self.name@,
            file: self.pos.file@,
            row: self.pos.row,
            col: self.pos.col,
            flake_slug: self.flake_slug@,
        }
    }
}

/// Index of the first newline byte of `b` at or after `from`, if any.
pub open spec fn find_newline(b: Seq<u8>, from: int) -> Option<int>
    decreases b.len() - from,
{
    if from < 0 || from >= b.len() {
        None
    } else if b[from] == NEWLINE {
        Some(from)
    } else {
        find_newline(b, from + 1)
    }
}

/// Byte offset at which the line starts that lies `rows` lines after the line
/// starting at `from`; `None` when fewer than `rows` newlines follow `from`.
pub open spec fn line_start(b: Seq<u8>, from: int, rows: nat) -> Option<int>
    decreases rows,
{
    if rows == 0 {
        Some(from)
    } else {
        match find_newline(b, from) {
            None => None,
            Some(p) => line_start(b, p + 1, (rows - 1) as nat),
        }
    }
}

/// The byte offset at which the line starting at `p` ends: its newline, or
/// the end of the file.
pub open spec fn line_end(b: Seq<u8>, p: int) -> int {
    match find_newline(b, p) {
        Some(e) => e,
        None => b.len() as int,
    }
}

impl Package {
    /// The text that displays the package: its name.
    pub fn to_string(&self) -> (r: String)
        ensures
            r@ == self.name@,
    {
        self.name.clone()
    }
}

impl SourcePos {
    /// The byte offset that this position denotes in a file whose bytes are `b`:
    /// the start of line `row` (counted from 1) plus `col - 1` (counted from 1);
    /// `None` where the position is out of bounds: row or column 0, a row past
    /// the last line, or a column past the end of its line (the newline, or the
    /// end of the file, is the last column of a line).
    pub open spec fn offset_in(&self, b: Seq<u8>) -> Option<int> {
        if self.row == 0 || self.col == 0 {
            None
        } else {
            match line_start(b, 0, (self.row - 1) as nat) {
                None => None,
                Some(p) => if self.col - 1 > line_end(b, p) - p {
                    None
                } else {
                    Some(p + self.col - 1)
                },
            }
        }
    }

    /// The byte offset at which row `row` starts, or `None` if the file has
    /// fewer rows.
    pub(crate) fn row_start(&self, contents: &str) -> (r: Option<usize>)
        requires
            self.row >= 1,
        ensures
            r matches Some(p) ==> line_start(contents.spec_bytes(), 0, (self.row - 1) as nat) == Some(p as int),
            r is None ==> line_start(contents.spec_bytes(), 0, (self.row - 1) as nat) is None,
            r matches Some(p) ==> p <= contents.spec_bytes().len(),
    {
        let b = contents.as_bytes();
        let ghost bs = contents.spec_bytes();
        let mut pos: usize = 0;
        let mut skip_rows: usize = self.row - 1;
        while skip_rows > 0
            invariant
                b@ == bs,
                bs == contents.spec_bytes(),
                pos <= b@.len(),
                line_start(bs, pos as int, skip_rows as nat) == line_start(
                    bs,
                    0,
                    (self.row - 1) as nat,
                ),
            decreases skip_rows,
        {
            let mut i: usize = pos;
            while i < b.len() && b[i] != NEWLINE
                invariant
                    b@ == bs,
                    pos <= i <= b@.len(),
                    find_newline(bs, i as int) == find_newline(bs, pos as int),
                decreases b@.len() - i,
            {
                i = i + 1;
            }
            if i >= b.len() {
                assert(find_newline(bs, pos as int) is None);
                assert(line_start(bs, pos as int, skip_rows as nat) is None);
                return None;
            }
            pos = i + 1;
            skip_rows = skip_rows - 1;
        }
        Some(pos)
    }

    /// Convert to an offset in bytes within the given file contents.
    /// Returns `None` if the position is out of bounds.
    pub fn to_offset(&self, contents: &str) -> (r: Option<usize>)
        ensures
            r matches Some(o) ==> self.offset_in(contents.spec_bytes()) == Some(o as int),
            r is None ==> self.offset_in(contents.spec_bytes()) is None,
    {
        if self.row == 0 || self.col == 0 {
            return None;
        }
        let start = match self.row_start(contents) {
            None => {
                return None;
            },
            Some(start) => start,
        };
        let b = contents.as_bytes();
        let ghost bs = contents.spec_bytes();
        let mut i: usize = start;
        while i < b.len() && b[i] != NEWLINE
            invariant
                b@ == bs,
                start <= i <= b@.len(),
                find_newline(bs, i as int) == find_newline(bs, start as int),
            decreases b@.len() - i,
        {
            i = i + 1;
        }
        proof {
            assert(i as int == line_end(bs, start as int));
        }
        if self.col - 1 > i - start {
            None
        } else {
            Some(start + (self.col - 1))
        }
    }
}

proof fn lemma_find_newline_extends(b: Seq<u8>, t: Seq<u8>, from: int)
    requires
        0 <= from,
    ensures
        find_newline(b, from) matches Some(e) ==> find_newline(b + t, from) == Some(e),
        find_newline(b, from) is None && from <= b.len() ==> match find_newline(b + t, from) {
            Some(e) => e >= b.len(),
            None => true,
        },
    decreases b.len() + t.len() - from,
{
    if from < b.len() {
        assert((b + t)[from] == b[from]);
        if b[from] != NEWLINE {
            lemma_find_newline_extends(b, t, from + 1);
        }
    } else {
        lemma_find_newline_in(b + t, from);
    }
}

proof fn lemma_line_start_extends(b: Seq<u8>, t: Seq<u8>, from: int, rows: nat)
    requires
        0 <= from,
        line_start(b, from, rows) is Some,
    ensures
        line_start(b + t, from, rows) == line_start(b, from, rows),
    decreases rows,
{
    if rows > 0 {
        lemma_find_newline_extends(b, t, from);
        lemma_find_newline_in(b, from);
        let e = find_newline(b, from)->0;
        lemma_line_start_extends(b, t, e + 1, (rows - 1) as nat);
    }
}

proof fn lemma_line_start_bound(b: Seq<u8>, from: int, rows: nat)
    requires
        0 <= from <= b.len(),
    ensures
        line_start(b, from, rows) matches Some(p) ==> from <= p <= b.len(),
    decreases rows,
{
    if rows > 0 {
        if let Some(e) = find_newline(b, from) {
            lemma_find_newline_in(b, from);
            lemma_line_start_bound(b, e + 1, (rows - 1) as nat);
        }
    }
}

proof fn lemma_find_newline_in(b: Seq<u8>, from: int)
    ensures
        find_newline(b, from) matches Some(e) ==> from <= e < b.len(),
    decreases b.len() - from,
{
    if 0 <= from < b.len() && b[from] != NEWLINE {
        lemma_find_newline_in(b, from + 1);
    }
}

impl SourcePos {
    /// Appending text to a file does not move the offset of a position that
    /// lies in it, and the offset does not depend on the file's name: `b` and
    /// `t` are the bytes of the file and of the text appended.
    pub proof fn lemma_offset_kept(&self, b: Seq<u8>, t: Seq<u8>, file: String)
        requires
            self.offset_in(b) is Some,
        ensures
            self.offset_in(b + t) == self.offset_in(b),
            (SourcePos { file, row: self.row, col: self.col }).offset_in(b) == self.offset_in(b),
    {
        let rows = (self.row - 1) as nat;
        lemma_line_start_extends(b, t, 0, rows);
        let p = line_start(b, 0, rows)->0;
        lemma_line_start_bound(b, 0, rows);
        lemma_find_newline_extends(b, t, p);
        lemma_find_newline_in(b + t, p);
    }
}

/// The number of newline bytes in `s`.
pub open spec fn count_newlines(s: Seq<u8>) -> nat
    decreases s.len(),
{
    if s.len() == 0 {
        0
    } else {
        count_newlines(s.drop_last()) + if s.last() == NEWLINE { 1nat } else { 0nat }
    }
}

proof fn lemma_find_newline_first(b: Seq<u8>, from: int)
    requires
        0 <= from,
    ensures
        match find_newline(b, from) {
            Some(e) => from <= e < b.len() && b[e] == NEWLINE && forall|i: int|
                from <= i < e ==> #[trigger] b[i] != NEWLINE,
            None => forall|i: int| from <= i < b.len() ==> #[trigger] b[i] != NEWLINE,
        },
    decreases b.len() - from,
{
    if from < b.len() && b[from] != NEWLINE {
        lemma_find_newline_first(b, from + 1);
    }
}

proof fn lemma_count_step(b: Seq<u8>, j: int)
    requires
        0 <= j < b.len(),
    ensures
        count_newlines(b.take(j + 1)) == count_newlines(b.take(j)) + if b[j] == NEWLINE { 1nat } else { 0nat },
{
    assert(b.take(j + 1).drop_last() =~= b.take(j));
}

proof fn lemma_count_no_newlines(b: Seq<u8>, from: int, to: int)
    requires
        0 <= from <= to <= b.len(),
        forall|i: int| from <= i < to ==> #[trigger] b[i] != NEWLINE,
    ensures
        count_newlines(b.take(to)) == count_newlines(b.take(from)),
    decreases to - from,
{
    if to > from {
        lemma_count_no_newlines(b, from, to - 1);
        lemma_count_step(b, to - 1);
    }
}

proof fn lemma_line_start_counts(b: Seq<u8>, from: int, rows: nat)
    requires
        0 <= from <= b.len(),
    ensures
        line_start(b, from, rows) matches Some(p) ==> from <= p <= b.len() && count_newlines(b.take(p))
            == count_newlines(b.take(from)) + rows && (rows > 0 ==> b[p - 1] == NEWLINE),
        count_newlines(b) >= count_newlines(b.take(from)) + rows ==> line_start(b, from, rows) is Some,
    decreases rows,
{
    if rows > 0 {
        lemma_find_newline_first(b, from);
        match find_newline(b, from) {
            Some(e) => {
                lemma_count_no_newlines(b, from, e);
                lemma_count_step(b, e);
                lemma_line_start_counts(b, e + 1, (rows - 1) as nat);
            },
            None => {
                lemma_count_no_newlines(b, from, b.len() as int);
                assert(b.take(b.len() as int) =~= b);
            },
        }
    }
}

impl SourcePos {
    /// A position's offset lies on its row: the bytes before the row's start
    /// hold exactly `row - 1` newlines, the last of them just before it, and
    /// no newline lies between the row's start and the offset. Every row up to
    /// one past the last newline starts somewhere, so column 1 of it always has
    /// an offset.
    pub proof fn lemma_offset_on_row(&self, b: Seq<u8>)
        ensures
            self.offset_in(b) matches Some(o) ==> {
                let p = o - (self.col - 1);
                &&& self.row >= 1 && self.col >= 1
                &&& 0 <= p <= o <= b.len()
                &&& count_newlines(b.take(p)) == self.row - 1
                &&& self.row >= 2 ==> b[p - 1] == NEWLINE
                &&& forall|i: int| p <= i < o ==> #[trigger] b[i] != NEWLINE
            },
            self.row >= 1 && self.col == 1 && count_newlines(b) >= self.row - 1 ==> self.offset_in(b) is Some,
    {
        if self.row >= 1 {
            let rows = (self.row - 1) as nat;
            assert(b.take(0) =~= Seq::<u8>::empty());
            lemma_line_start_counts(b, 0, rows);
            if let Some(p) = line_start(b, 0, rows) {
                lemma_find_newline_first(b, p);
            }
        }
    }
}

} // verus!