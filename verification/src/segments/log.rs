//! A commit log: entries in the order in which they were appended, of which
//! the oldest segments are dropped when there are too many.
use super::utils::Storage;
use crate::views::views;
use vstd::prelude::*;

verus! {

/// A place in a log: the segment, and the number of the entry counted from the
/// first one ever appended.
pub type Offset = (u64, u64);

/// How far a read got.
#[derive(Debug, Clone, Copy, PartialEq, Eq)]
pub enum Position {
    /// There is more to read from `end` on.
    Next { start: (u64, u64), end: (u64, u64) },
    /// `end` is the end of the log.
    Done { start: (u64, u64), end: (u64, u64) },
}

/// A value that can be kept in a log.
pub trait Entry: View + Storage + Sized {
    /// What an entry counts for, as a function of what it is.
    spec fn weight(v: Self::V) -> nat;

    proof fn lemma_weight(&self)
        ensures
            self.spec_size() == Self::weight(self@),
            self.spec_size() <= usize::MAX,
    ;

    fn copy(&self) -> (copy: Self)
        ensures
            copy@ == self@,
    ;
}

#[verifier::ext_equal]
pub struct SegmentState<V> {
    /// The number of the first entry of the segment.
    pub base: int,
    /// What the entries count for together, as far as it can be told.
    pub size: int,
    pub items: Seq<V>,
}

#[verifier::ext_equal]
pub struct LogState<V> {
    /// The number of the first segment that is still there.
    pub head: int,
    pub segments: Seq<SegmentState<V>>,
    pub max_segment_size: usize,
    pub max_mem_segments: usize,
}

impl<V> SegmentState<V> {
    pub open spec fn end(self) -> int {
        self.base + self.items.len()
    }

    pub open spec fn push(self, item: V, weight: nat) -> Self {
        SegmentState {
            base: self.base,
            size: if self.size + weight > usize::MAX {
                usize::MAX as int
            } else {
                self.size + weight
            },
            items: self.items.push(item),
        }
    }
}

impl<V> LogState<V> {
    pub open spec fn new(max_segment_size: usize, max_mem_segments: usize) -> Self {
        LogState {
            head: 0,
            segments: seq![SegmentState { base: 0, size: 0, items: Seq::empty() }],
            max_segment_size,
            max_mem_segments,
        }
    }

    /// The segments follow one another without a gap; only the last one may be
    /// empty.
    pub open spec fn wf(self) -> bool {
        &&& 1 <= self.max_segment_size
        &&& 1 <= self.max_mem_segments
        &&& 1 <= self.segments.len() <= self.max_mem_segments
        &&& 0 <= self.head
        &&& 0 <= self.segments[0].base
        &&& forall|i: int|
            0 <= i < self.segments.len() ==> {
                &&& self.head + i <= (#[trigger] self.segments[i]).base
                &&& 0 <= self.segments[i].size <= usize::MAX
                &&& self.segments[i].items.len() == 0 ==> self.segments[i].size == 0
            }
        &&& forall|i: int|
            0 <= i < self.segments.len() - 1 ==> 0 < (#[trigger] self.segments[i]).items.len()
        &&& forall|i: int, j: int|
            0 <= i && j == i + 1 && j < self.segments.len() ==> (#[trigger] self.segments[j]).base
                == (#[trigger] self.segments[i]).end()
        &&& self.end() <= u64::MAX
    }

    /// The number of the first entry that is still there.
    pub open spec fn begin(self) -> int {
        self.segments[0].base
    }

    /// The number that the next entry gets.
    pub open spec fn end(self) -> int {
        self.segments.last().end()
    }

    pub open spec fn tail(self) -> int {
        self.head + self.segments.len() - 1
    }

    /// The place just behind the last entry.
    pub open spec fn next_offset(self) -> Offset {
        (self.tail() as u64, self.end() as u64)
    }

    /// The log with room in its last segment: where that one is full a new one
    /// is begun, and the oldest dropped if there are too many.
    pub open spec fn rotated(self) -> Self {
        if self.segments.last().size >= self.max_segment_size {
            let segments = self.segments.push(
                SegmentState { base: self.end(), size: 0, items: Seq::empty() },
            );
            if segments.len() > self.max_mem_segments {
                LogState { head: self.head + 1, segments: segments.skip(1), ..self }
            } else {
                LogState { segments, ..self }
            }
        } else {
            self
        }
    }

    /// The log with one more entry. Once all numbers are used up nothing more
    /// can be appended.
    pub open spec fn append(self, item: V, weight: nat) -> Self {
        if self.end() >= u64::MAX {
            self
        } else {
            let log = self.rotated();
            LogState {
                segments: log.segments.update(
                    log.segments.len() - 1,
                    log.segments.last().push(item, weight),
                ),
                ..log
            }
        }
    }

    /// The segment that holds the entry of a number: the last one that begins
    /// no later.
    pub open spec fn locate_below(self, offset: int, i: int) -> int
        decreases i,
    {
        if i <= 0 {
            0
        } else if self.segments[i].base <= offset {
            i
        } else {
            self.locate_below(offset, i - 1)
        }
    }

    pub open spec fn locate(self, offset: int) -> int {
        self.locate_below(offset, self.segments.len() - 1)
    }

    /// The place of the entry of a number.
    pub open spec fn place(self, offset: int) -> Offset {
        ((self.head + self.locate(offset)) as u64, offset as u64)
    }

    /// The entry of a number.
    pub open spec fn entry(self, offset: int) -> V {
        let segment = self.segments[self.locate(offset)];
        segment.items[offset - segment.base]
    }

    /// The first entry that a read from a cursor gets: the oldest there is,
    /// where the segment of the cursor is gone.
    pub open spec fn first_read(self, cursor: Offset) -> int {
        if cursor.0 < self.head || cursor.1 < self.begin() {
            self.begin()
        } else if cursor.1 > self.end() {
            self.end()
        } else {
            cursor.1 as int
        }
    }

    pub open spec fn read_count(self, cursor: Offset, len: u64) -> int {
        if self.end() - self.first_read(cursor) < len {
            self.end() - self.first_read(cursor)
        } else {
            len as int
        }
    }

    /// The cursor that a read starts at.
    pub open spec fn read_start(self, cursor: Offset) -> Offset {
        if cursor.0 < self.head {
            (self.head as u64, self.begin() as u64)
        } else {
            cursor
        }
    }

    pub open spec fn read_position(self, cursor: Offset, len: u64) -> Position {
        let end = self.first_read(cursor) + self.read_count(cursor, len);
        if end == self.end() {
            Position::Done { start: self.read_start(cursor), end: self.place(end) }
        } else {
            Position::Next { start: self.read_start(cursor), end: self.place(end) }
        }
    }

    /// What a read from a cursor gives: at most `len` entries, in order, each
    /// with its place.
    pub open spec fn read(self, cursor: Offset, len: u64) -> Seq<(V, Offset)> {
        Seq::new(
            self.read_count(cursor, len) as nat,
            |k: int|
                (
                    self.entry(self.first_read(cursor) + k),
                    self.place(self.first_read(cursor) + k),
                ),
        )
    }

    /// The last entry, where there is one.
    pub open spec fn last_entry(self) -> Option<V> {
        if self.segments.last().items.len() > 0 {
            Some(self.segments.last().items.last())
        } else {
            None
        }
    }

    pub proof fn lemma_bases(self, i: int, j: int)
        requires
            self.wf(),
            0 <= i < j < self.segments.len(),
        ensures
            self.segments[i].end() <= self.segments[j].base,
            self.segments[i].base < self.segments[j].base,
        decreases j,
    {
        assert(self.segments[j - 1].end() == self.segments[j].base);
        if i < j - 1 {
            self.lemma_bases(i, j - 1);
        }
    }

    pub proof fn lemma_begin_end(self)
        requires
            self.wf(),
        ensures
            self.begin() <= self.end(),
            self.tail() <= self.end(),
    {
        if self.segments.len() > 1 {
            self.lemma_bases(0, self.segments.len() - 1);
        }
    }

    proof fn lemma_locate_below(self, offset: int, i: int, k: int)
        requires
            self.wf(),
            0 <= i <= k < self.segments.len(),
            self.segments[i].base <= offset,
            i + 1 < self.segments.len() ==> offset < self.segments[i + 1].base,
        ensures
            self.locate_below(offset, k) == i,
        decreases k,
    {
        if i < k {
            if i + 1 < k {
                self.lemma_bases(i + 1, k);
            }
            self.lemma_locate_below(offset, i, k - 1);
        }
    }

    /// A segment that begins no later than a number, and is followed by none
    /// that does, is where the number belongs.
    pub proof fn lemma_locate(self, offset: int, i: int)
        requires
            self.wf(),
            0 <= i < self.segments.len(),
            self.segments[i].base <= offset,
            i + 1 < self.segments.len() ==> offset < self.segments[i + 1].base,
        ensures
            self.locate(offset) == i,
    {
        self.lemma_locate_below(offset, i, self.segments.len() - 1);
    }

    proof fn lemma_locate_found_below(self, offset: int, k: int)
        requires
            self.wf(),
            self.begin() <= offset,
            0 <= k < self.segments.len(),
            k + 1 < self.segments.len() ==> offset < self.segments[k + 1].base,
        ensures
            0 <= self.locate_below(offset, k) <= k,
            self.segments[self.locate_below(offset, k)].base <= offset,
            self.locate_below(offset, k) + 1 < self.segments.len() ==> offset
                < self.segments[self.locate_below(offset, k) + 1].base,
        decreases k,
    {
        if k > 0 && self.segments[k].base > offset {
            self.lemma_locate_found_below(offset, k - 1);
        }
    }

    pub proof fn lemma_locate_found(self, offset: int)
        requires
            self.wf(),
            self.begin() <= offset,
        ensures
            0 <= self.locate(offset) < self.segments.len(),
            self.segments[self.locate(offset)].base <= offset,
            self.locate(offset) + 1 < self.segments.len() ==> offset
                < self.segments[self.locate(offset) + 1].base,
            offset < self.end() ==> offset < self.segments[self.locate(offset)].end(),
    {
        self.lemma_locate_found_below(offset, self.segments.len() - 1);
        let i = self.locate(offset);
        if i + 1 < self.segments.len() {
            assert(self.segments[i + 1].base == self.segments[i].end());
        }
    }

    pub proof fn lemma_new(max_segment_size: usize, max_mem_segments: usize)
        requires
            1 <= max_segment_size,
            1 <= max_mem_segments,
        ensures
            LogState::<V>::new(max_segment_size, max_mem_segments).wf(),
    {
    }

    pub proof fn lemma_rotated(self)
        requires
            self.wf(),
        ensures
            self.rotated().wf(),
            self.rotated().end() == self.end(),
            self.head <= self.rotated().head,
    {
        let after = self.rotated();
        let n = self.segments.len() as int;
        if self.segments.last().size >= self.max_segment_size {
            assert(self.segments[n - 1].items.len() > 0);
            let shift = after.head - self.head;
            assert forall|i: int| 0 <= i < after.segments.len() implies {
                &&& after.head + i <= (#[trigger] after.segments[i]).base
                &&& 0 <= after.segments[i].size <= usize::MAX
                &&& after.segments[i].items.len() == 0 ==> after.segments[i].size == 0
            } by {
                if i + shift < n {
                    assert(after.segments[i] == self.segments[i + shift]);
                } else {
                    assert(self.head + n - 1 <= self.segments[n - 1].base);
                }
            }
            assert forall|i: int| 0 <= i < after.segments.len() - 1 implies 0 < (
            #[trigger] after.segments[i]).items.len() by {
                assert(after.segments[i] == self.segments[i + shift]);
            }
            assert forall|i: int, j: int|
                0 <= i && j == i + 1 && j < after.segments.len() implies (
            #[trigger] after.segments[j]).base == (#[trigger] after.segments[i]).end() by {
                assert(after.segments[i] == self.segments[i + shift]);
                if j + shift < n {
                    assert(after.segments[j] == self.segments[j + shift]);
                }
            }
            assert(after.head + 0 <= after.segments[0].base);
            assert(1 <= after.segments.len() <= after.max_mem_segments);
            assert(after.end() == self.end());
        }
    }

    /// Appending keeps the shape of the log and moves its end by one.
    pub proof fn lemma_append(self, item: V, weight: nat)
        requires
            self.wf(),
        ensures
            self.append(item, weight).wf(),
            self.end() < u64::MAX ==> self.append(item, weight).end() == self.end() + 1,
            self.end() >= u64::MAX ==> self.append(item, weight) == self,
            self.head <= self.append(item, weight).head,
    {
        self.lemma_rotated();
        if self.end() < u64::MAX {
            let log = self.rotated();
            let after = self.append(item, weight);
            assert forall|i: int| 0 <= i < after.segments.len() implies {
                &&& after.head + i <= (#[trigger] after.segments[i]).base
                &&& 0 <= after.segments[i].size <= usize::MAX
                &&& after.segments[i].items.len() == 0 ==> after.segments[i].size == 0
            } by {
                assert(log.head + i <= log.segments[i].base);
            }
            assert forall|i: int| 0 <= i < after.segments.len() - 1 implies 0 < (
            #[trigger] after.segments[i]).items.len() by {
                assert(after.segments[i] == log.segments[i]);
            }
            assert forall|i: int, j: int|
                0 <= i && j == i + 1 && j < after.segments.len() implies (
            #[trigger] after.segments[j]).base == (#[trigger] after.segments[i]).end() by {
                assert(log.segments[j].base == log.segments[i].end());
            }
            assert(after.head + 0 <= after.segments[0].base);
        }
    }
}

pub struct Segment<T> {
    base: u64,
    size: usize,
    items: Vec<T>,
}

impl<T: View> View for Segment<T> {
    type V = SegmentState<T::V>;

    closed spec fn view(&self) -> SegmentState<T::V> {
        SegmentState { base: self.base as int, size: self.size as int, items: views(self.items@) }
    }
}

pub struct CommitLog<T> {
    head: u64,
    segments: Vec<Segment<T>>,
    max_segment_size: usize,
    max_mem_segments: usize,
}

impl<T: View> View for CommitLog<T> {
    type V = LogState<T::V>;

    closed spec fn view(&self) -> LogState<T::V> {
        LogState {
            head: self.head as int,
            segments: views(self.segments@),
            max_segment_size: self.max_segment_size,
            max_mem_segments: self.max_mem_segments,
        }
    }
}

pub open spec fn view_entries<T: View>(s: Seq<(T, Offset)>) -> Seq<(T::V, Offset)> {
    Seq::new(s.len(), |i: int| (s[i].0@, s[i].1))
}

impl<T: Entry> CommitLog<T> {
    pub fn new(max_segment_size: usize, max_mem_segments: usize) -> (log: Self)
        requires
            1 <= max_segment_size,
            1 <= max_mem_segments,
        ensures
            log@ == LogState::<T::V>::new(max_segment_size, max_mem_segments),
            log@.wf(),
    {
        let mut segments: Vec<Segment<T>> = Vec::new();
        segments.push(Segment { base: 0, size: 0, items: Vec::new() });
        let log = CommitLog { head: 0, segments, max_segment_size, max_mem_segments };
        proof {
            assert(views(log.segments@[0].items@) =~= Seq::<T::V>::empty());
            assert(log@.segments =~= LogState::<T::V>::new(
                max_segment_size,
                max_mem_segments,
            ).segments);
        }
        log
    }

    pub fn next_offset(&self) -> (offset: Offset)
        requires
            self@.wf(),
        ensures
            offset == self@.next_offset(),
    {
        let last = self.segments.len() - 1;
        proof {
            self@.lemma_begin_end();
            assert(self@.segments[last as int] == self.segments@[last as int]@);
        }
        (
            self.head + (last as u64),
            self.segments[last].base + (self.segments[last].items.len() as u64),
        )
    }

    fn rotate(&mut self)
        requires
            old(self)@.wf(),
            old(self)@.end() < u64::MAX,
        ensures
            final(self)@ == old(self)@.rotated(),
    {
        let ghost before = self@;
        let last = self.segments.len() - 1;
        proof {
            before.lemma_begin_end();
            assert(before.segments[last as int] == self.segments@[last as int]@);
        }
        if self.segments[last].size >= self.max_segment_size {
            let base = self.segments[last].base + (self.segments[last].items.len() as u64);
            let fresh = Segment { base, size: 0, items: Vec::new() };
            proof {
                assert(views(fresh.items@) =~= Seq::<T::V>::empty());
            }
            self.segments.push(fresh);
            assert(self@.segments =~= before.segments.push(fresh@));
            if self.segments.len() > self.max_mem_segments {
                assert(before.head + last <= before.segments[last as int].base);
                self.segments.remove(0);
                self.head = self.head + 1;
                assert(self@.segments =~= before.segments.push(fresh@).skip(1));
            }
        }
    }

    /// Adds an entry at the end. Gives the place just behind it.
    pub fn append(&mut self, item: T) -> (offset: Offset)
        requires
            old(self)@.wf(),
        ensures
            final(self)@ == old(self)@.append(item@, T::weight(item@)),
            final(self)@.wf(),
            offset == final(self)@.next_offset(),
    {
        let ghost before = self@;
        proof {
            before.lemma_append(item@, T::weight(item@));
            before.lemma_rotated();
            item.lemma_weight();
        }
        if self.next_offset().1 < u64::MAX {
            self.rotate();
            let ghost log = self@;
            let last = self.segments.len() - 1;
            let size = item.size();
            proof {
                assert(log.segments[last as int] == self.segments@[last as int]@);
            }
            let total = self.segments[last].size.saturating_add(size);
            self.segments[last].size = total;
            self.segments[last].items.push(item);
            proof {
                assert(self.segments@[last as int]@.items =~= log.segments[last as int].items.push(
                    item@,
                ));
                assert(self@.segments =~= before.append(item@, T::weight(item@)).segments);
            }
        }
        self.next_offset()
    }

    /// The last entry, where there is one.
    pub fn last(&self) -> (entry: Option<T>)
        requires
            self@.wf(),
        ensures
            match entry {
                Some(entry) => self@.last_entry() == Some(entry@),
                None => self@.last_entry() is None,
            },
    {
        let last = self.segments.len() - 1;
        proof {
            assert(self@.segments[last as int] == self.segments@[last as int]@);
        }
        let count = self.segments[last].items.len();
        if count == 0 {
            None
        } else {
            Some(self.segments[last].items[count - 1].copy())
        }
    }

    /// Reads at most `len` entries from a cursor on.
    pub fn readv(&self, cursor: Offset, len: u64) -> (out: (Position, Vec<(T, Offset)>))
        requires
            self@.wf(),
        ensures
            out.0 == self@.read_position(cursor, len),
            view_entries(out.1@) == self@.read(cursor, len),
    {
        let ghost log = self@;
        proof {
            log.lemma_begin_end();
            assert(log.segments[0] == self.segments@[0]@);
        }
        let begin = self.segments[0].base;
        let end = self.next_offset().1;
        let jumped = cursor.0 < self.head;
        let start = if jumped {
            (self.head, begin)
        } else {
            cursor
        };
        let first = if jumped || cursor.1 < begin {
            begin
        } else if cursor.1 > end {
            end
        } else {
            cursor.1
        };
        let count = if end - first < len {
            end - first
        } else {
            len
        };
        let mut out: Vec<(T, Offset)> = Vec::new();
        let mut i: usize = 0;
        let mut k: u64 = 0;
        while k < count
            invariant
                log == self@,
                log.wf(),
                log.begin() <= first <= end,
                end == log.end(),
                first == log.first_read(cursor),
                count == log.read_count(cursor, len),
                first + count <= end,
                k <= count,
                i < self.segments@.len(),
                log.segments[i as int].base <= first + k,
                view_entries(out@) =~= log.read(cursor, len).take(k as int),
            decreases count - k,
        {
            i = self.forward(i, first + k);
            let offset = first + k;
            proof {
                log.lemma_locate(offset as int, i as int);
                log.lemma_locate_found(offset as int);
                log.lemma_tail(i as int);
                assert(log.segments[i as int] == self.segments@[i as int]@);
            }
            let segment = &self.segments[i];
            assert(segment.items@.len() == log.segments[i as int].items.len());
            assert(offset - segment.base < segment.items.len());
            assert(log.locate(offset as int) == i);
            let item = segment.items[(offset - segment.base) as usize].copy();
            let ghost was = out@;
            out.push((item, (self.head + (i as u64), offset)));
            proof {
                assert(item@ == log.entry(offset as int));
                assert(view_entries(out@) =~= view_entries(was).push(log.read(cursor, len)[k as int]));
            }
            k = k + 1;
        }
        proof {
            assert(log.read(cursor, len).take(count as int) =~= log.read(cursor, len));
        }
        i = self.forward(i, first + count);
        proof {
            log.lemma_locate((first + count) as int, i as int);
            log.lemma_tail(i as int);
        }
        let stop = (self.head + (i as u64), first + count);
        if first + count == end {
            (Position::Done { start, end: stop }, out)
        } else {
            (Position::Next { start, end: stop }, out)
        }
    }

    /// The segment where a number belongs, looked for from a segment that
    /// begins no later.
    fn forward(&self, from: usize, offset: u64) -> (i: usize)
        requires
            self@.wf(),
            from < self@.segments.len(),
            self@.segments[from as int].base <= offset,
        ensures
            from <= i < self@.segments.len(),
            self@.segments[i as int].base <= offset,
            i + 1 < self@.segments.len() ==> offset < self@.segments[i + 1].base,
    {
        let mut i = from;
        while i + 1 < self.segments.len() && self.segments[i + 1].base <= offset
            invariant
                from <= i < self@.segments.len(),
                self@.segments.len() == self.segments@.len(),
                self@.segments[i as int].base <= offset,
            decreases self.segments.len() - i,
        {
            assert(self@.segments[i + 1] == self.segments@[i + 1]@);
            i = i + 1;
        }
        proof {
            if i + 1 < self@.segments.len() {
                assert(self@.segments[i + 1] == self.segments@[i + 1]@);
            }
        }
        i
    }
}

impl<V> LogState<V> {
    pub proof fn lemma_tail(self, i: int)
        requires
            self.wf(),
            0 <= i < self.segments.len(),
        ensures
            self.head + i <= u64::MAX,
    {
        self.lemma_begin_end();
    }
}

impl<V> LogState<V> {
    /// A read from the place of an entry starts with that entry.
    pub proof fn lemma_read_from(self, offset: int)
        requires
            self.wf(),
            self.begin() <= offset <= self.end(),
        ensures
            self.first_read(self.place(offset)) == offset,
            self.place(offset).1 == offset,
    {
        self.lemma_begin_end();
        self.lemma_locate_found(offset);
        self.lemma_tail(self.locate(offset));
    }
}

} // verus!
