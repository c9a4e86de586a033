//! From byte offsets in a source to line numbers.

use vstd::prelude::*;

verus! {

/// Maps byte offsets in a source file to line numbers.
#[derive(Debug)]
pub struct SourceMap {
    /// The byte offset at which each line begins.
    line_starts: Vec<usize>,
    source_code: String,
}

/// The byte offsets at which the lines of `bytes` begin: zero, and behind each
/// line feed.
pub open spec fn line_starts_of(bytes: Seq<u8>) -> Seq<int>
    decreases bytes.len(),
{
    if bytes.len() == 0 {
        seq![0int]
    } else {
        let starts = line_starts_of(bytes.drop_last());
        if bytes.last() == 10 {
            starts.push(bytes.len() as int)
        } else {
            starts
        }
    }
}

/// The number of lines that begin at `offset` or before it.
pub open spec fn lines_begun(starts: Seq<int>, offset: int) -> int
    decreases starts.len(),
{
    if starts.len() == 0 {
        0
    } else if starts.last() <= offset {
        starts.len() as int
    } else {
        lines_begun(starts.drop_last(), offset)
    }
}

/// The line starts ascend, from zero to the length of the text.
pub proof fn lemma_line_starts(bytes: Seq<u8>)
    ensures
        line_starts_of(bytes).len() > 0,
        line_starts_of(bytes)[0] == 0,
        line_starts_of(bytes).len() <= bytes.len() + 1,
        forall|i: int, j: int|
            0 <= i < j < line_starts_of(bytes).len() ==> line_starts_of(bytes)[i]
                < line_starts_of(bytes)[j],
        forall|i: int|
            0 <= i < line_starts_of(bytes).len() ==> 0 <= #[trigger] line_starts_of(bytes)[i]
                <= bytes.len(),
    decreases bytes.len(),
{
    if bytes.len() > 0 {
        lemma_line_starts(bytes.drop_last());
    }
}

/// Of ascending starts, those counted by `lines_begun` are those at or before
/// the offset.
pub proof fn lemma_lines_begun(starts: Seq<int>, offset: int)
    requires
        forall|i: int, j: int| 0 <= i < j < starts.len() ==> starts[i] < starts[j],
    ensures
        0 <= lines_begun(starts, offset) <= starts.len(),
        forall|i: int|
            0 <= i < starts.len() ==> (#[trigger] starts[i] <= offset <==> i < lines_begun(
                starts,
                offset,
            )),
    decreases starts.len(),
{
    if starts.len() > 0 && starts.last() > offset {
        let t = starts.drop_last();
        assert forall|i: int, j: int| 0 <= i < j < t.len() implies t[i] < t[j] by {
            assert(starts[i] < starts[j]);
        }
        lemma_lines_begun(t, offset);
        assert forall|i: int| 0 <= i < starts.len() implies (#[trigger] starts[i] <= offset <==> i
            < lines_begun(starts, offset)) by {
            if i < t.len() {
                assert(t[i] == starts[i]);
            }
        }
    }
}

impl SourceMap {
    /// The byte offset at which each line begins.
    pub closed spec fn starts(&self) -> Seq<int> {
        self.line_starts@.map_values(|n: usize| n as int)
    }

    /// The source.
    pub closed spec fn source(&self) -> Seq<char> {
        self.source_code@
    }

    #[verifier::type_invariant]
    spec fn inv(self) -> bool {
        self.starts() == line_starts_of(vstd::utf8::encode_utf8(self.source_code@))
    }

    /// The map of a source file.
    pub fn from_source(_source_path: &str, source_code: &str) -> (r: Self)
        ensures
            r.source() == source_code@,
            r.starts() == line_starts_of(vstd::utf8::encode_utf8(source_code@)),
    {
        let bytes = source_code.as_bytes_vec();
        let mut line_starts: Vec<usize> = Vec::new();
        line_starts.push(0);
        let mut i: usize = 0;
        let ghost all = bytes@;
        assert(all.take(0) =~= Seq::empty());
        assert(line_starts@.map_values(|n: usize| n as int) =~= seq![0int]);
        while i < bytes.len()
            invariant
                i <= bytes.len(),
                all == bytes@,
                line_starts@.map_values(|n: usize| n as int) == line_starts_of(all.take(i as int)),
            decreases bytes.len() - i,
        {
            assert(all.take(i + 1).drop_last() =~= all.take(i as int));
            assert(all.take(i + 1).last() == bytes@[i as int]);
            if bytes[i] == 10 {
                let ghost before = line_starts@;
                line_starts.push(i + 1);
                assert(line_starts@.map_values(|n: usize| n as int) =~= before.map_values(
                    |n: usize| n as int,
                ).push(i + 1));
            }
            i += 1;
        }
        assert(all.take(i as int) =~= all);
        SourceMap { line_starts, source_code: source_code.to_owned() }
    }

    /// The 1-based number of the line that a byte offset lies in: of the last
    /// line that begins at the offset or before it.
    pub fn byte_to_line(&self, byte_offset: usize) -> (line: u32)
        ensures
            line == lines_begun(self.starts(), byte_offset as int) as u32,
    {
        proof {
            use_type_invariant(self);
            lemma_line_starts(vstd::utf8::encode_utf8(self.source_code@));
            lemma_lines_begun(self.starts(), byte_offset as int);
        }
        let mut low: usize = 0;
        let mut high: usize = self.line_starts.len();
        let ghost n = lines_begun(self.starts(), byte_offset as int);
        while low < high
            invariant
                low <= n <= high <= self.line_starts@.len(),
                self.starts().len() == self.line_starts@.len(),
                forall|i: int|
                    0 <= i < self.starts().len() ==> (#[trigger] self.starts()[i] <= byte_offset
                        <==> i < n),
            decreases high - low,
        {
            let middle: usize = low + (high - low) / 2;
            assert(self.starts()[middle as int] == self.line_starts@[middle as int]);
            if self.line_starts[middle] <= byte_offset {
                low = middle + 1;
            } else {
                high = middle;
            }
        }
        low as u32
    }

    /// The number of lines.
    pub fn line_count(&self) -> (n: usize)
        ensures
            n == self.starts().len(),
    {
        self.line_starts.len()
    }

    /// The source.
    pub fn source_code(&self) -> (r: &str)
        ensures
            r@ == self.source(),
    {
        self.source_code.as_str()
    }
}

/// Every offset lies in a line of the source, and a later offset in the same
/// line or a later one.
pub proof fn law_lines_cover_offsets_in_order(bytes: Seq<u8>, a: int, b: int)
    requires
        0 <= a <= b,
    ensures
        1 <= lines_begun(line_starts_of(bytes), a) <= lines_begun(line_starts_of(bytes), b)
            <= line_starts_of(bytes).len(),
{
    let starts = line_starts_of(bytes);
    lemma_line_starts(bytes);
    lemma_lines_begun(starts, a);
    lemma_lines_begun(starts, b);
    assert(starts[0] <= a);
    let n = lines_begun(starts, a);
    assert(starts[n - 1] <= a);
}

/// A line begins where its number says: the offset of a line start lies in
/// that line, and the offset before it in the line before.
pub proof fn law_line_start_begins_its_line(bytes: Seq<u8>, i: int)
    requires
        0 <= i < line_starts_of(bytes).len(),
    ensures
        lines_begun(line_starts_of(bytes), line_starts_of(bytes)[i]) == i + 1,
        i > 0 ==> lines_begun(line_starts_of(bytes), line_starts_of(bytes)[i] - 1) == i,
{
    let starts = line_starts_of(bytes);
    lemma_line_starts(bytes);
    lemma_lines_begun(starts, starts[i]);
    let n = lines_begun(starts, starts[i]);
    assert(i < n);
    if n > i + 1 {
        assert(starts[n - 1] <= starts[i]);
        assert(starts[i] < starts[n - 1]);
    }
    if i > 0 {
        lemma_lines_begun(starts, starts[i] - 1);
        let m = lines_begun(starts, starts[i] - 1);
        assert(!(starts[i] <= starts[i] - 1));
        assert(starts[i - 1] < starts[i]);
        assert(starts[i - 1] <= starts[i] - 1);
    }
}

/// The number of line feeds in a text.
pub open spec fn line_feeds(bytes: Seq<u8>) -> int
    decreases bytes.len(),
{
    if bytes.len() == 0 {
        0
    } else {
        line_feeds(bytes.drop_last()) + if bytes.last() == 10 {
            1int
        } else {
            0
        }
    }
}

/// The line of an offset is one more than the line feeds before it, and the
/// number of lines one more than all line feeds.
pub proof fn law_line_counts_the_line_feeds(bytes: Seq<u8>, offset: int)
    requires
        0 <= offset,
    ensures
        lines_begun(line_starts_of(bytes), offset) == 1 + line_feeds(
            if offset <= bytes.len() {
                bytes.take(offset)
            } else {
                bytes
            },
        ),
        line_starts_of(bytes).len() == 1 + line_feeds(bytes),
    decreases bytes.len(),
{
    if bytes.len() == 0 {
        assert(bytes.take(0) =~= bytes);
        reveal_with_fuel(lines_begun, 2);
    } else {
        let less = bytes.drop_last();
        let starts = line_starts_of(bytes);
        let earlier = line_starts_of(less);
        law_line_counts_the_line_feeds(less, offset);
        lemma_line_starts(bytes);
        if offset >= bytes.len() {
            assert(starts.last() <= offset);
            assert(bytes.take(bytes.len() as int) =~= bytes);
        } else {
            assert(bytes.take(offset) =~= less.take(offset));
            if bytes.last() == 10 {
                assert(starts.drop_last() =~= earlier);
            }
        }
    }
}

} // verus!
