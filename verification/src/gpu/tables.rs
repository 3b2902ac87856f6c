//! Several small tables packed into one buffer.
//!
//! A level takes a dozen small tables. Packed into one buffer they are one allocation and
//! one copy, and each table is bound as a part of it.

use vstd::prelude::*;

verus! {

/// Alignment of every table within the buffer: enough for any element type and for a
/// stricter alignment of parts.
pub const ALIGN: usize = 256;

/// Byte `k` of a word, counted from its low end.
pub open spec fn byte_of(word: int, k: int) -> int
    decreases k,
{
    if k <= 0 {
        word % 256
    } else {
        byte_of(word / 256, k - 1)
    }
}

/// The bytes hold the words one after the other, `width` bytes each, all from the low end or
/// all from the high end.
pub open spec fn holds_words(bytes: Seq<u8>, words: Seq<int>, width: int) -> bool {
    &&& bytes.len() == width * words.len()
    &&& exists|low_first: bool| #[trigger] in_order(bytes, words, width, low_first)
}

pub open spec fn in_order(bytes: Seq<u8>, words: Seq<int>, width: int, low_first: bool) -> bool {
    forall|i: int, j: int|
        0 <= i < words.len() && 0 <= j < width ==> #[trigger] bytes[place(width, i, j)] == byte_of(
            words[i],
            if low_first {
                j
            } else {
                width - 1 - j
            },
        )
}

/// Where byte `j` of word `i` stands.
pub open spec fn place(width: int, i: int, j: int) -> int {
    width * i + j
}

/// 32-bit numbers as plain ones.
pub open spec fn narrow_words(data: Seq<u32>) -> Seq<int> {
    Seq::new(data.len(), |i: int| data[i] as int)
}

/// 64-bit numbers as the unsigned ones with the same bits.
pub open spec fn wide_words(data: Seq<i64>) -> Seq<int> {
    Seq::new(
        data.len(),
        |i: int|
            if data[i] < 0 {
                data[i] + 0x1_0000_0000_0000_0000
            } else {
                data[i] as int
            },
    )
}

/// [`bytemuck::cast_slice`] from 32-bit words to bytes: the words' own memory, four bytes
/// each, in the byte order of the machine.
#[verifier::external_body]
fn narrow_bytes(data: &[u32]) -> (bytes: &[u8])
    ensures
        holds_words(bytes@, narrow_words(data@), 4),
{
    bytemuck::cast_slice(data)
}

/// [`bytemuck::cast_slice`] from 64-bit words to bytes: the words' own memory, eight bytes
/// each, in the byte order of the machine.
#[verifier::external_body]
fn wide_bytes(data: &[i64]) -> (bytes: &[u8])
    ensures
        holds_words(bytes@, wide_words(data@), 8),
{
    bytemuck::cast_slice(data)
}

/// [`bytemuck::pod_collect_to_vec`] from bytes to 32-bit words: a copy of the bytes' memory, four
/// bytes a word, in the byte order of the machine. It asks nothing of where the bytes begin. A
/// last word that the bytes do not fill would be padded, so they have to be a whole number of
/// words.
#[verifier::external_body]
pub(crate) fn words_of(bytes: &[u8]) -> (words: Vec<u32>)
    requires
        bytes@.len() % 4 == 0,
    ensures
        holds_words(bytes@, narrow_words(words@), 4),
{
    bytemuck::pod_collect_to_vec(bytes)
}

/// Tables being packed.
#[derive(Clone, Debug)]
pub struct TableBuilder {
    bytes: Vec<u8>,
    ranges: Vec<(usize, usize)>,
}

/// The next place that a table can begin at.
pub open spec fn aligned(n: int) -> int {
    (n + ALIGN - 1) / (ALIGN as int) * ALIGN
}

impl TableBuilder {
    pub closed spec fn buffer(&self) -> Seq<u8> {
        self.bytes@
    }

    /// Where each table begins and ends.
    pub closed spec fn tables(&self) -> Seq<(usize, usize)> {
        self.ranges@
    }

    /// Every table begins aligned, is not empty, and ends before the next begins and within
    /// the buffer.
    pub open spec fn wf(&self) -> bool {
        &&& forall|i: int|
            0 <= i < self.tables().len() ==> (#[trigger] self.tables()[i]).0 as int % (ALIGN as int) == 0
                && self.tables()[i].0 < self.tables()[i].1 <= self.buffer().len()
        &&& forall|i: int, j: int|
            0 <= i < j < self.tables().len() ==> (#[trigger] self.tables()[i]).1 <= (#[trigger] self.tables()[j]).0
    }

    /// The bytes of table `i`.
    pub open spec fn table(&self, i: int) -> Seq<u8> {
        self.buffer().subrange(self.tables()[i].0 as int, self.tables()[i].1 as int)
    }

    pub fn new() -> (builder: Self)
        ensures
            builder.wf(),
            builder.buffer().len() == 0,
            builder.tables().len() == 0,
    {
        TableBuilder { bytes: Vec::new(), ranges: Vec::new() }
    }

    /// One more table was packed behind the others.
    pub open spec fn packed(&self, was: &Self, i: int, len: int) -> bool {
        &&& self.wf()
        &&& i == was.tables().len()
        &&& self.tables() == was.tables().push((self.tables()[i].0, self.tables()[i].1))
        &&& self.tables()[i].0 == aligned(was.buffer().len() as int)
        &&& self.tables()[i].1 == self.tables()[i].0 + len
        &&& self.buffer().len() == self.tables()[i].1
        &&& forall|k: int| 0 <= k < was.buffer().len() ==> #[trigger] self.buffer()[k] == was.buffer()[k]
        &&& forall|k: int|
            was.buffer().len() <= k < self.tables()[i].0 ==> #[trigger] self.buffer()[k] == 0
    }

    /// Add a table; its index names it. An empty table is stored as one zero element, so
    /// that its part of the buffer is never empty.
    pub fn push(&mut self, data: &[u32]) -> (i: usize)
        requires
            old(self).wf(),
            old(self).buffer().len() + ALIGN + 4 * data.len() + 4 <= usize::MAX,
        ensures
            final(self).packed(
                old(self),
                i as int,
                if data.len() == 0 {
                    4
                } else {
                    4 * data.len()
                },
            ),
            data.len() > 0 ==> holds_words(final(self).table(i as int), narrow_words(data@), 4),
            data.len() == 0 ==> final(self).table(i as int) == Seq::new(4, |k: int| 0u8),
    {
        if data.len() == 0 {
            let zeros: Vec<u8> = vec![0u8; 4];
            assert(zeros@ =~= Seq::new(4, |k: int| 0u8));
            self.append(zeros.as_slice())
        } else {
            self.append(narrow_bytes(data))
        }
    }

    /// [`push`](Self::push) for 64-bit elements.
    pub fn push_wide(&mut self, data: &[i64]) -> (i: usize)
        requires
            old(self).wf(),
            old(self).buffer().len() + ALIGN + 8 * data.len() + 8 <= usize::MAX,
        ensures
            final(self).packed(
                old(self),
                i as int,
                if data.len() == 0 {
                    8
                } else {
                    8 * data.len()
                },
            ),
            data.len() > 0 ==> holds_words(final(self).table(i as int), wide_words(data@), 8),
            data.len() == 0 ==> final(self).table(i as int) == Seq::new(8, |k: int| 0u8),
    {
        if data.len() == 0 {
            let zeros: Vec<u8> = vec![0u8; 8];
            assert(zeros@ =~= Seq::new(8, |k: int| 0u8));
            self.append(zeros.as_slice())
        } else {
            self.append(wide_bytes(data))
        }
    }

    /// Pack some bytes at the next aligned place.
    fn append(&mut self, data: &[u8]) -> (i: usize)
        requires
            old(self).wf(),
            data.len() > 0,
            old(self).buffer().len() + ALIGN + data.len() <= usize::MAX,
        ensures
            final(self).packed(old(self), i as int, data.len() as int),
            final(self).table(i as int) == data@,
    {
        let ghost was = *self;
        let len: usize = self.bytes.len();
        let start: usize = if len % ALIGN == 0 {
            len
        } else {
            (len / ALIGN + 1) * ALIGN
        };
        while self.bytes.len() < start
            invariant
                len <= self.bytes.len() <= start,
                was.bytes.len() == len,
                self.ranges@ == was.ranges@,
                forall|k: int| 0 <= k < len ==> #[trigger] self.bytes[k] == was.bytes[k],
                forall|k: int| len <= k < self.bytes.len() ==> #[trigger] self.bytes[k] == 0,
            decreases start - self.bytes.len(),
        {
            self.bytes.push(0);
        }
        let ghost padded = self.bytes@;
        self.bytes.extend_from_slice(data);
        proof {
            assert(self.bytes@ =~= padded + data@);
        }
        let end: usize = self.bytes.len();
        self.ranges.push((start, end));
        proof {
            let t = self.tables();
            let n = was.tables().len() as int;
            assert(t =~= was.tables().push((start, end)));
            assert forall|i: int, j: int| 0 <= i < j < t.len() implies (#[trigger] t[i]).1 <= (#[trigger] t[j]).0 by {
                if j < n {
                    assert(was.tables()[i].1 <= was.tables()[j].0);
                } else {
                    assert(was.tables()[i].1 <= was.buffer().len());
                }
            }
            assert forall|i: int| 0 <= i < t.len() implies (#[trigger] t[i]).0 as int % (ALIGN as int) == 0 && t[i].0
                < t[i].1 <= self.buffer().len() by {
                if i < n {
                    assert(was.tables()[i].0 as int % (ALIGN as int) == 0);
                }
            }
            assert(self.table(n) =~= data@);
        }
        self.ranges.len() - 1
    }

    /// The packed buffer and the tables' places in it.
    pub fn finish(self) -> (tables: Tables)
        ensures
            tables.bytes@ == self.buffer(),
            tables.ranges@ == self.tables(),
    {
        Tables { bytes: self.bytes, ranges: self.ranges }
    }
}

/// Packing another table leaves those packed before as they were.
pub proof fn lemma_tables_stay(was: &TableBuilder, now: &TableBuilder, i: int, len: int, k: int)
    requires
        was.wf(),
        now.packed(was, i, len),
        0 <= k < was.tables().len(),
    ensures
        now.table(k) == was.table(k),
{
    assert(now.tables()[k] == was.tables()[k]);
    let (from, to) = was.tables()[k];
    assert(from < to <= was.buffer().len());
    assert(now.table(k) =~= was.table(k));
}

/// The packed tables.
#[derive(Clone, Debug)]
pub struct Tables {
    pub bytes: Vec<u8>,
    pub ranges: Vec<(usize, usize)>,
}

impl Tables {
    /// How much of the buffer lies before table `i`, and how much after it.
    pub fn offsets(&self, i: usize) -> (offsets: (usize, usize))
        requires
            i < self.ranges.len(),
            self.ranges[i as int].1 <= self.bytes.len(),
        ensures
            offsets.0 == self.ranges[i as int].0,
            offsets.1 == self.bytes.len() - self.ranges[i as int].1,
    {
        let (start, end) = self.ranges[i];
        (start, self.bytes.len() - end)
    }
}

/// A table begins at the first aligned place that is not before the end of what is there.
pub proof fn lemma_aligned(n: int)
    requires
        n >= 0,
    ensures
        aligned(n) % 256 == 0,
        n <= aligned(n) < n + 256,
{
}

/// The four bytes of a word make the word again, the lowest first.
pub proof fn lemma_bytes_of_word(word: int)
    requires
        0 <= word < 0x1_0000_0000,
    ensures
        word == byte_of(word, 0) + 0x100 * byte_of(word, 1) + 0x1_0000 * byte_of(word, 2) + 0x100_0000 * byte_of(
            word,
            3,
        ),
        0 <= byte_of(word, 0) < 256 && 0 <= byte_of(word, 1) < 256 && 0 <= byte_of(word, 2) < 256 && 0 <= byte_of(
            word,
            3,
        ) < 256,
{
    reveal_with_fuel(byte_of, 4);
}

} // verus!
