//! What a commit log promises.
use super::log::{LogState, Offset, Position};
use vstd::prelude::*;

verus! {

/// What is appended is read back from where the log ended before.
pub proof fn law_append_is_read_back<V>(log: LogState<V>, item: V, weight: nat, len: u64)
    requires
        log.wf(),
        log.end() < u64::MAX,
        len > 0,
    ensures
        log.append(item, weight).read(log.next_offset(), len) == seq![
            (item, log.append(item, weight).place(log.end())),
        ],
{
    let after = log.append(item, weight);
    log.lemma_append(item, weight);
    log.lemma_rotated();
    log.lemma_begin_end();
    after.lemma_begin_end();
    let rotated = log.rotated();
    let last = after.segments.len() - 1;
    assert(after.segments[last] == rotated.segments[last].push(item, weight));
    assert(after.end() == log.end() + 1);
    assert(rotated.segments[last].end() == log.end());
    after.lemma_locate(log.end(), last);
    assert(after.entry(log.end()) == item);
    let cursor = log.next_offset();
    assert(after.first_read(cursor) == log.end()) by {
        if cursor.0 < after.head {
            assert(after.head > log.tail());
            assert(log.segments.len() == 1);
            assert(after.segments.len() == 1);
        } else if cursor.1 < after.begin() {
            after.lemma_begin_end();
            if last > 0 {
                after.lemma_bases(0, last);
            }
        }
    }
    assert(after.read(cursor, len) =~= seq![(item, after.place(log.end()))]);
}

/// An append changes no entry that is still there, and no place of one.
pub proof fn law_append_keeps_entries<V>(log: LogState<V>, item: V, weight: nat, offset: int)
    requires
        log.wf(),
        log.append(item, weight).begin() <= offset < log.end(),
    ensures
        log.begin() <= offset,
        log.append(item, weight).entry(offset) == log.entry(offset),
        log.append(item, weight).place(offset) == log.place(offset),
{
    let after = log.append(item, weight);
    log.lemma_append(item, weight);
    log.lemma_rotated();
    if log.end() < u64::MAX {
        let rotated = log.rotated();
        let shift = rotated.head - log.head;
        if shift > 0 {
            if rotated.segments.len() > 1 || log.segments.len() > 1 {
                assert(rotated.segments[0] == log.segments[1]);
                log.lemma_bases(0, 1);
            }
        }
        log.lemma_locate_found(offset);
        let i = log.locate(offset);
        if i < shift {
            assert(i == 0);
            if log.segments.len() > 1 {
                assert(rotated.segments[0] == log.segments[1]);
                assert(log.segments[0].end() == log.segments[1].base);
            } else {
                assert(rotated.segments[0].base == log.end());
            }
            assert(after.segments[0].base == rotated.segments[0].base);
        }
        let j = i - shift;
        assert(0 <= j < rotated.segments.len());
        assert(rotated.segments[j] == log.segments[i]);
        assert(after.segments[j].base == log.segments[i].base);
        if j + 1 < after.segments.len() {
            assert(after.segments[j + 1].base == after.segments[j].end());
            if i + 1 < log.segments.len() {
                assert(rotated.segments[j + 1] == log.segments[i + 1]);
            } else {
                assert(log.segments[i].end() == log.end());
                assert(after.segments[j] == rotated.segments[j]);
            }
        }
        after.lemma_locate(offset, j);
    }
}

/// Reading on from where a read ended gives what one longer read would have
/// given.
pub proof fn law_reading_on<V>(log: LogState<V>, cursor: Offset, len: u64, more: u64)
    requires
        log.wf(),
        len + more <= u64::MAX,
    ensures
        ({
            let end = match log.read_position(cursor, len) {
                Position::Next { start: _, end } => end,
                Position::Done { start: _, end } => end,
            };
            log.read(cursor, (len + more) as u64) == log.read(cursor, len) + log.read(end, more)
        }),
{
    log.lemma_begin_end();
    let first = log.first_read(cursor);
    let stop = first + log.read_count(cursor, len);
    log.lemma_locate_found(stop);
    log.lemma_tail(log.locate(stop));
    let end = log.place(stop);
    assert(log.first_read(end) == stop);
    assert(log.read(cursor, (len + more) as u64) =~= log.read(cursor, len) + log.read(end, more));
}

/// A read that is not long enough says that there is more; one that is says
/// that there is not.
pub proof fn law_done_at_the_end<V>(log: LogState<V>, cursor: Offset, len: u64)
    requires
        log.wf(),
    ensures
        log.read_position(cursor, len) is Done <==> log.end() - log.first_read(cursor) <= len,
        log.read_position(cursor, len) is Done ==> log.read(cursor, len).len() == log.end()
            - log.first_read(cursor),
{
    log.lemma_begin_end();
}

/// A log with several more entries, one after the other.
pub open spec fn appended<V>(log: LogState<V>, items: Seq<V>, weight: spec_fn(V) -> nat) -> LogState<
    V,
>
    decreases items.len(),
{
    if items.len() == 0 {
        log
    } else {
        appended(log, items.drop_last(), weight).append(items.last(), weight(items.last()))
    }
}

/// What is appended to a log follows what was there, in order, and is what a read
/// from where the log ended gives, as far as the log still reaches back. Nothing
/// that is still there has changed.
pub proof fn law_appended_are_read_back<V>(
    log: LogState<V>,
    items: Seq<V>,
    weight: spec_fn(V) -> nat,
    offset: int,
    k: int,
)
    requires
        log.wf(),
        log.end() + items.len() <= u64::MAX,
    ensures
        ({
            let after = appended(log, items, weight);
            let cursor = log.next_offset();
            &&& after.wf()
            &&& after.end() == log.end() + items.len()
            &&& log.begin() <= after.begin()
            &&& after.begin() <= offset < log.end() ==> {
                &&& after.entry(offset) == log.entry(offset)
                &&& after.place(offset) == log.place(offset)
            }
            &&& 0 <= k < items.len() && after.begin() <= log.end() + k ==> after.entry(
                log.end() + k,
            ) == items[k]
            &&& after.first_read(cursor) == if after.begin() < log.end() {
                log.end()
            } else {
                after.begin()
            }
        }),
    decreases items.len(),
{
    log.lemma_begin_end();
    if items.len() > 0 {
        let shorter = items.drop_last();
        let before = appended(log, shorter, weight);
        let item = items.last();
        let after = appended(log, items, weight);
        law_appended_are_read_back(log, shorter, weight, offset, k);
        before.lemma_append(item, weight(item));
        before.lemma_begin_end();
        lemma_begin_moves_on(before, item, weight(item));
        if after.begin() <= offset < log.end() {
            law_append_keeps_entries(before, item, weight(item), offset);
        }
        if 0 <= k < shorter.len() && after.begin() <= log.end() + k {
            law_append_keeps_entries(before, item, weight(item), log.end() + k);
        }
        law_append_is_read_back(before, item, weight(item), 1);
        after.lemma_begin_end();
        let read = after.read(before.next_offset(), 1);
        assert(read[0] == (item, after.place(before.end())));
        assert(after.entry(before.end()) == item) by {
            lemma_last_is_last(before, item, weight(item));
        }
        let last = log.end() - 1;
        if after.begin() < log.end() {
            law_appended_are_read_back(log, shorter, weight, last, k);
            law_append_keeps_entries(before, item, weight(item), last);
            after.lemma_locate_found(last);
            log.lemma_locate_found(last);
            log.lemma_tail(log.locate(last));
            after.lemma_tail(after.locate(last));
        }
    } else {
        log.lemma_tail(log.segments.len() - 1);
    }
}

/// The first entry of a log is never before what it was.
proof fn lemma_begin_moves_on<V>(log: LogState<V>, item: V, weight: nat)
    requires
        log.wf(),
    ensures
        log.begin() <= log.append(item, weight).begin(),
{
    log.lemma_rotated();
    if log.end() < u64::MAX && log.rotated().head > log.head {
        if log.segments.len() > 1 {
            log.lemma_bases(0, 1);
            assert(log.rotated().segments[0] == log.segments[1]);
        } else {
            log.lemma_begin_end();
        }
    }
}

proof fn lemma_last_is_last<V>(log: LogState<V>, item: V, weight: nat)
    requires
        log.wf(),
        log.end() < u64::MAX,
    ensures
        log.append(item, weight).entry(log.end()) == item,
        log.append(item, weight).last_entry() == Some(item),
{
    let after = log.append(item, weight);
    log.lemma_append(item, weight);
    log.lemma_rotated();
    let last = after.segments.len() - 1;
    assert(after.segments[last] == log.rotated().segments[last].push(item, weight));
    after.lemma_locate(log.end(), last);
}

/// The last entry of a log is the one that was appended last.
pub proof fn law_last_entry<V>(log: LogState<V>, item: V, weight: nat)
    requires
        log.wf(),
        log.end() < u64::MAX,
    ensures
        log.append(item, weight).last_entry() == Some(item),
        log.append(item, weight).end() == log.end() + 1,
{
    lemma_last_is_last(log, item, weight);
    log.lemma_append(item, weight);
}

/// A log forgets nothing but its oldest segment, and that only where it has as
/// many as it may have and the last one is full. It never keeps more than that.
/// A segment is as large as what it holds.
pub proof fn law_only_the_oldest_is_dropped<V>(log: LogState<V>, item: V, weight: nat)
    requires
        log.wf(),
    ensures
        ({
            let after = log.append(item, weight);
            let full = log.segments.last().size >= log.max_segment_size;
            &&& after.segments.len() <= log.max_mem_segments
            &&& after.max_segment_size == log.max_segment_size
            &&& after.max_mem_segments == log.max_mem_segments
            &&& after.begin() > log.begin() ==> full && log.segments.len() == log.max_mem_segments
                && after.begin() == log.segments[0].end()
            &&& log.end() < u64::MAX && full ==> after.segments.last().items.len() == 1
            &&& log.end() < u64::MAX && !full ==> after.segments.last().items
                == log.segments.last().items.push(item)
            &&& log.end() < u64::MAX && full && weight <= usize::MAX
                ==> after.segments.last().size == weight
            &&& log.end() < u64::MAX && !full && log.segments.last().size + weight <= usize::MAX
                ==> after.segments.last().size == log.segments.last().size + weight
        }),
{
    log.lemma_rotated();
    log.lemma_append(item, weight);
    if log.end() < u64::MAX {
        let rotated = log.rotated();
        let after = log.append(item, weight);
        if rotated.head > log.head {
            if log.segments.len() > 1 {
                assert(rotated.segments[0] == log.segments[1]);
                assert(log.segments[1].base == log.segments[0].end());
            }
            assert(after.segments[0].base == rotated.segments[0].base);
        } else {
            assert(rotated.segments[0] == log.segments[0]);
            assert(after.segments[0].base == rotated.segments[0].base);
        }
    }
}

/// A read gives entries one after the other, from where its cursor stands, or
/// from the oldest on where that is no longer there; as many as there are, and no
/// more than asked for.
pub proof fn law_read_is_in_order<V>(log: LogState<V>, cursor: Offset, len: u64, k: int)
    requires
        log.wf(),
    ensures
        ({
            let read = log.read(cursor, len);
            let first = log.first_read(cursor);
            &&& log.begin() <= first <= log.end()
            &&& read.len() <= len
            &&& read.len() < len ==> first + read.len() == log.end()
            &&& log.begin() <= cursor.1 <= log.end() && cursor.0 >= log.head ==> first == cursor.1
            &&& cursor.1 < log.begin() || cursor.0 < log.head ==> first == log.begin()
            &&& cursor.1 > log.end() && cursor.0 >= log.head ==> first == log.end()
            &&& 0 <= k < read.len() ==> {
                &&& read[k].0 == log.entry(first + k)
                &&& read[k].1.1 == first + k
                &&& log.first_read(read[k].1) == first + k
            }
        }),
{
    log.lemma_begin_end();
    if 0 <= k < log.read(cursor, len).len() {
        log.lemma_read_from(log.first_read(cursor) + k);
    }
}

} // verus!
