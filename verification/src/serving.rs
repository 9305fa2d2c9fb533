//! The store as a whole, over runs of SETs served with the writer's steps
//! and the index.
//!
//! Two views of a run are proved here. Over the bytes of the segment files
//! (`StoreState`), from any state between requests (after a start-up on
//! whatever segment files exist, after a compaction, or in the middle of
//! serving): a GET of a key reads the value last SET for it, other keys read
//! what they read before, and crash recovery gives back the index that
//! serving built wherever the segment files are clean. Over the writes that
//! went to each segment (`ServeState`), from an empty directory: the same,
//! with the index rebuilt from the files equal to the live one.
use vstd::prelude::*;

use crate::index::{
    Location, last_index_of, latest_value, live_index, live_index_segments, rebuild_spec,
    write_keys, lemma_last_index_of_bounds, lemma_recovery_matches_live_index_segments,
    last_location, lemma_rebuild_lookup, lemma_last_location_within, compaction_writes,
    lemma_compaction_rebuild, lemma_recovery_matches_live_index, insert_records,
};
use crate::record::parse_segment_spec;
use crate::record::{log_of, record_bytes, writes_fit, lemma_located_append, lemma_record_len};
use crate::writer::{
    WriterState, appended_state, next_segment_state, rollover_spec, lemma_read_after_write,
};

verus! {

/// The state of the store while it serves writes: the writer, the writes
/// that went to each segment (segment `i` holds the records of
/// `segments[i]`), and the index.
pub struct ServeState {
    pub writer: WriterState,
    pub segments: Seq<Seq<(Seq<u8>, Seq<u8>)>>,
    pub index: Map<Seq<u8>, Location>,
}

/// The store before the first write, in an empty directory: the writer at
/// segment 0 with offset 0, one empty segment, an empty index.
pub open spec fn initial_state(writer: WriterState) -> ServeState {
    ServeState { writer, segments: seq![Seq::empty()], index: Map::empty() }
}

/// Serving one SET of `k` to `v`: when the writer asks for a new segment,
/// its file is created empty; the record goes to the end of the current
/// segment, and the index records the value's offset and length there.
pub open spec fn serve_write(r: ServeState, k: Seq<u8>, v: Seq<u8>) -> ServeState {
    let dl = (8 + k.len() + v.len()) as nat;
    let at = if rollover_spec(r.writer, dl as int) {
        next_segment_state(r.writer, 0)
    } else {
        r.writer
    };
    let segs = if rollover_spec(r.writer, dl as int) {
        r.segments.push(Seq::empty())
    } else {
        r.segments
    };
    let n = segs.len() - 1;
    ServeState {
        writer: appended_state(at, dl),
        segments: segs.update(n, segs[n].push((k, v))),
        index: r.index.insert(
            k,
            ((at.current_offset + 8 + k.len()) as u64, v.len() as usize, at.segment_number as u32),
        ),
    }
}

/// Serving the writes `w` in order.
pub open spec fn serve_writes(r: ServeState, w: Seq<(Seq<u8>, Seq<u8>)>) -> ServeState
    decreases w.len(),
{
    if w.len() == 0 {
        r
    } else {
        serve_write(serve_writes(r, w.drop_last()), w.last().0, w.last().1)
    }
}

/// The bytes of each segment.
pub open spec fn segment_logs(r: ServeState) -> Seq<Seq<u8>> {
    r.segments.map_values(|ws: Seq<(Seq<u8>, Seq<u8>)>| log_of(ws))
}

/// GET of `k` reads the value last SET for `k`, and a key never SET is not
/// in the index.
pub open spec fn reads_latest(r: ServeState, w: Seq<(Seq<u8>, Seq<u8>)>, k: Seq<u8>) -> bool {
    match latest_value(w, k) {
        Some(v) => {
            let loc = r.index[k];
            &&& r.index.contains_key(k)
            &&& loc.2 < r.segments.len()
            &&& loc.0 + loc.1 <= log_of(r.segments[loc.2 as int]).len()
            &&& log_of(r.segments[loc.2 as int]).subrange(loc.0 as int, loc.0 + loc.1) == v
        },
        None => !r.index.contains_key(k),
    }
}

/// What holds of the store after serving the writes `w`.
pub open spec fn serve_inv(r: ServeState, w: Seq<(Seq<u8>, Seq<u8>)>) -> bool {
    &&& r.segments.len() == r.writer.segment_number + 1
    &&& r.writer.segment_number <= w.len()
    &&& r.writer.current_offset == log_of(r.segments.last()).len()
    &&& forall|i: int| 0 <= i < r.segments.len() ==> #[trigger] writes_fit(r.segments[i])
    &&& forall|i: int|
        0 <= i < r.segments.len() ==> #[trigger] log_of(r.segments[i]).len() <= log_of(w).len()
    &&& r.index == live_index_segments(Map::empty(), r.segments)
    &&& forall|k: Seq<u8>| #[trigger] reads_latest(r, w, k)
}

proof fn lemma_latest_after_push(w: Seq<(Seq<u8>, Seq<u8>)>, k: Seq<u8>, v: Seq<u8>, q: Seq<u8>)
    ensures
        latest_value(w.push((k, v)), q) == if q == k {
            Some(v)
        } else {
            latest_value(w, q)
        },
{
    let wx = w.push((k, v));
    assert(write_keys(wx) =~= write_keys(w).push(k));
    assert(write_keys(wx).drop_last() =~= write_keys(w));
    lemma_last_index_of_bounds(write_keys(w), q);
    let j = last_index_of(write_keys(w), q);
    if q != k && j >= 0 {
        assert(wx[j] == w[j]);
    }
}

/// One SET from any state that meets the invariant of serving keeps it.
pub proof fn lemma_serve_write_step(r: ServeState, w: Seq<(Seq<u8>, Seq<u8>)>, k: Seq<u8>, v: Seq<u8>)
    requires
        serve_inv(r, w),
        writes_fit(w.push((k, v))),
        log_of(w.push((k, v))).len() <= u64::MAX,
        w.len() + 1 <= u32::MAX,
    ensures
        serve_inv(serve_write(r, k, v), w.push((k, v))),
{
    let wx = w.push((k, v));
    assert(wx[w.len() as int] == (k, v));
    assert(wx[w.len() as int].0.len() <= u32::MAX && wx[w.len() as int].1.len() <= u32::MAX);
    lemma_located_append(w, k, v, 0);
    lemma_record_len(k, v);
    let dl = (8 + k.len() + v.len()) as nat;
    let roll = rollover_spec(r.writer, dl as int);
    let at = if roll {
        next_segment_state(r.writer, 0)
    } else {
        r.writer
    };
    let segs = if roll {
        r.segments.push(Seq::empty())
    } else {
        r.segments
    };
    let n = segs.len() - 1;
    let old_last = segs[n];
    let new_last = old_last.push((k, v));
    let segs2 = segs.update(n, new_last);
    let r2 = serve_write(r, k, v);
    assert(r2.segments == segs2);
    assert(log_of(Seq::<(Seq<u8>, Seq<u8>)>::empty()) == Seq::<u8>::empty());
    // The state before the record is appended.
    assert(segs.len() == at.segment_number + 1);
    assert(at.current_offset == log_of(old_last).len());
    assert(live_index_segments(Map::empty(), segs) == r.index) by {
        if roll {
            assert(segs.drop_last() =~= r.segments);
            assert(live_index(r.index, Seq::<(Seq<u8>, Seq<u8>)>::empty(), n as u32) == r.index);
        }
    }
    assert forall|i: int| 0 <= i < segs.len() implies #[trigger] writes_fit(segs[i])
        && log_of(segs[i]).len() <= log_of(w).len() by {
        if i < r.segments.len() {
            assert(segs[i] == r.segments[i]);
        }
    }
    // Appending the record.
    lemma_located_append(old_last, k, v, 0);
    let old_log = log_of(old_last);
    let new_log = log_of(new_last);
    assert(new_log == old_log + record_bytes(k, v));
    lemma_read_after_write(old_log, k, v);
    let off = old_log.len() + 8 + k.len();
    assert(writes_fit(new_last)) by {
        assert forall|i: int| 0 <= i < new_last.len() implies #[trigger] new_last[i].0.len()
            <= u32::MAX && new_last[i].1.len() <= u32::MAX by {
            if i < old_last.len() {
                assert(new_last[i] == old_last[i]);
                assert(writes_fit(old_last));
            }
        }
    }
    assert(segs2.drop_last() =~= segs.drop_last());
    assert(new_last.drop_last() =~= old_last);
    assert(r2.index == live_index_segments(Map::empty(), segs2));
    assert forall|i: int| 0 <= i < segs2.len() implies #[trigger] writes_fit(segs2[i]) by {
        if i != n {
            assert(segs2[i] == segs[i]);
        }
    }
    assert forall|i: int| 0 <= i < segs2.len() implies #[trigger] log_of(segs2[i]).len() <= log_of(
        wx,
    ).len() by {
        if i != n {
            assert(segs2[i] == segs[i]);
        }
    }
    assert(r2.segments.last() == new_last);
    assert forall|q: Seq<u8>| #[trigger] reads_latest(r2, wx, q) by {
        lemma_latest_after_push(w, k, v, q);
        if q != k {
            assert(reads_latest(r, w, q));
            match latest_value(w, q) {
                Some(vq) => {
                    let loc = r.index[q];
                    let s = loc.2 as int;
                    assert(r2.index[q] == loc);
                    if s == n {
                        assert(segs[s] == old_last);
                        assert(new_log.subrange(loc.0 as int, loc.0 + loc.1) =~= old_log.subrange(
                            loc.0 as int,
                            loc.0 + loc.1,
                        ));
                    } else {
                        assert(segs2[s] == segs[s]);
                        assert(segs[s] == r.segments[s]);
                    }
                },
                None => {},
            }
        } else {
            assert(r2.index[k] == ((off) as u64, v.len() as usize, at.segment_number as u32));
            assert(segs2[n] == new_last);
        }
    }
}

/// Serving the writes `w` from an empty directory keeps the store as the
/// invariant says.
proof fn lemma_serve_writes_inv(s: WriterState, w: Seq<(Seq<u8>, Seq<u8>)>)
    requires
        s.segment_number == 0,
        s.current_offset == 0,
        writes_fit(w),
        log_of(w).len() <= u64::MAX,
        w.len() <= u32::MAX,
    ensures
        serve_inv(serve_writes(initial_state(s), w), w),
    decreases w.len(),
{
    if w.len() == 0 {
        let r = initial_state(s);
        assert(log_of(Seq::<(Seq<u8>, Seq<u8>)>::empty()) == Seq::<u8>::empty());
        assert(r.segments.drop_last() =~= Seq::<Seq<(Seq<u8>, Seq<u8>)>>::empty());
        assert(live_index_segments(Map::empty(), r.segments.drop_last()) == Map::<Seq<u8>, Location>::empty());
        assert(r.segments.last() == Seq::<(Seq<u8>, Seq<u8>)>::empty());
        assert(serve_writes(initial_state(s), w) == r);
        assert(r.index == live_index_segments(Map::empty(), r.segments));
        assert(r.writer.current_offset == log_of(r.segments.last()).len());
        assert forall|i: int| 0 <= i < r.segments.len() implies #[trigger] log_of(r.segments[i]).len() <= log_of(w).len() by {
            assert(r.segments[i] == Seq::<(Seq<u8>, Seq<u8>)>::empty());
        }
        assert(live_index(Map::empty(), Seq::<(Seq<u8>, Seq<u8>)>::empty(), 0) == Map::<
            Seq<u8>,
            Location,
        >::empty());
        assert forall|k: Seq<u8>| #[trigger] reads_latest(r, w, k) by {
            lemma_last_index_of_bounds(write_keys(w), k);
        }
        assert forall|i: int| 0 <= i < r.segments.len() implies #[trigger] writes_fit(r.segments[i]) by {
            assert(r.segments[i] == Seq::<(Seq<u8>, Seq<u8>)>::empty());
        }
    } else {
        let p = w.drop_last();
        let (k, v) = w.last();
        assert(p.push((k, v)) =~= w);
        lemma_located_append(p, k, v, 0);
        assert(writes_fit(p)) by {
            assert forall|i: int| 0 <= i < p.len() implies #[trigger] p[i].0.len() <= u32::MAX
                && p[i].1.len() <= u32::MAX by {
                assert(p[i] == w[i]);
            }
        }
        lemma_serve_writes_inv(s, p);
        lemma_serve_write_step(serve_writes(initial_state(s), p), p, k, v);
    }
}

/// Serving SETs from an empty directory, with the writer's steps and a
/// fresh empty file for each new segment: afterwards the writer's offset is
/// the length of the current segment, a GET of any key reads the value last
/// SET for it (and finds nothing for a key never SET), and rebuilding the
/// index from the segment files gives back exactly the index that was built
/// while serving.
pub proof fn lemma_serving_reads_and_recovers(
    s: WriterState,
    w: Seq<(Seq<u8>, Seq<u8>)>,
    files: Seq<Option<Seq<u8>>>,
)
    requires
        s.segment_number == 0,
        s.current_offset == 0,
        writes_fit(w),
        log_of(w).len() <= u64::MAX,
        w.len() <= u32::MAX,
        files.len() == serve_writes(initial_state(s), w).segments.len(),
        forall|i: int|
            0 <= i < files.len() ==> #[trigger] files[i] is Some && files[i]->0 == log_of(
                serve_writes(initial_state(s), w).segments[i],
            ),
    ensures
        ({
            let r = serve_writes(initial_state(s), w);
            &&& r.writer.current_offset == log_of(r.segments.last()).len()
            &&& r.writer.segment_number + 1 == r.segments.len()
            &&& forall|k: Seq<u8>| #[trigger] reads_latest(r, w, k)
            &&& rebuild_spec(Map::empty(), files) == r.index
        }),
{
    let r = serve_writes(initial_state(s), w);
    lemma_serve_writes_inv(s, w);
    assert forall|i: int| 0 <= i < files.len() implies #[trigger] files[i] is Some && files[i]->0
        == log_of(r.segments[i]) && writes_fit(r.segments[i]) by {
        assert(writes_fit(r.segments[i]));
    }
    lemma_recovery_matches_live_index_segments(Map::empty(), files, r.segments);
}

/// The state of the store as files: the writer, the bytes of each segment
/// file (a missing file counts as empty), and the index.
pub struct StoreState {
    pub writer: WriterState,
    pub files: Seq<Seq<u8>>,
    pub index: Map<Seq<u8>, Location>,
}

/// What holds of the store between requests: the writer is at the last
/// segment, its offset is that file's length, and every location in the
/// index lies inside its segment file.
pub open spec fn store_inv(r: StoreState) -> bool {
    &&& r.files.len() == r.writer.segment_number + 1
    &&& r.writer.segment_number <= u32::MAX
    &&& r.writer.current_offset == r.files.last().len()
    &&& forall|k: Seq<u8>|
        #[trigger] r.index.contains_key(k) ==> {
            &&& r.index[k].2 < r.files.len()
            &&& r.index[k].0 + r.index[k].1 <= r.files[r.index[k].2 as int].len()
        }
}

/// What a GET of `k` reads: the bytes at `k`'s location, or nothing when
/// the index does not hold `k`.
pub open spec fn value_at(r: StoreState, k: Seq<u8>) -> Option<Seq<u8>> {
    if r.index.contains_key(k) {
        let loc = r.index[k];
        Some(r.files[loc.2 as int].subrange(loc.0 as int, loc.0 + loc.1))
    } else {
        None
    }
}

/// The machine limits of a SET of `k` to `v`: the lengths fit in a `u32`,
/// the new offset in a `u64`, and a new segment's number in a `u32`.
pub open spec fn set_fits(r: StoreState, k: Seq<u8>, v: Seq<u8>) -> bool {
    let dl = 8 + k.len() + v.len() as int;
    &&& k.len() <= u32::MAX
    &&& v.len() <= u32::MAX
    &&& r.writer.current_offset + dl <= u64::MAX
    &&& rollover_spec(r.writer, dl) ==> r.writer.segment_number < u32::MAX
}

/// Serving a SET of `k` to `v` with the writer's steps: when the writer
/// asks for a new segment, its file is opened and found empty (the writer
/// is at the highest segment, so the next one does not exist yet); the
/// record is appended to the current segment file, the writer commits it,
/// and the index maps `k` to the value's place.
pub open spec fn store_set(r: StoreState, k: Seq<u8>, v: Seq<u8>) -> StoreState {
    let dl = (8 + k.len() + v.len()) as nat;
    let roll = rollover_spec(r.writer, dl as int);
    let at = if roll {
        next_segment_state(r.writer, 0)
    } else {
        r.writer
    };
    let files = if roll {
        r.files.push(Seq::empty())
    } else {
        r.files
    };
    let n = files.len() - 1;
    StoreState {
        writer: appended_state(at, dl),
        files: files.update(n, files[n] + record_bytes(k, v)),
        index: r.index.insert(
            k,
            ((at.current_offset + 8 + k.len()) as u64, v.len() as usize, at.segment_number as u32),
        ),
    }
}

/// GET after SET, from any state of the store: after a SET of `k` to `v`,
/// a GET of `k` reads `v`, a GET of any other key reads what it read before,
/// and the store's invariant still holds.
pub proof fn lemma_store_set(r: StoreState, k: Seq<u8>, v: Seq<u8>)
    requires
        store_inv(r),
        set_fits(r, k, v),
    ensures
        store_inv(store_set(r, k, v)),
        value_at(store_set(r, k, v), k) == Some(v),
        forall|q: Seq<u8>| q != k ==> #[trigger] value_at(store_set(r, k, v), q) == value_at(r, q),
{
    let dl = (8 + k.len() + v.len()) as nat;
    let roll = rollover_spec(r.writer, dl as int);
    let at = if roll {
        next_segment_state(r.writer, 0)
    } else {
        r.writer
    };
    let files = if roll {
        r.files.push(Seq::empty())
    } else {
        r.files
    };
    let n = files.len() - 1;
    let old_last = files[n];
    let new_last = old_last + record_bytes(k, v);
    let r2 = store_set(r, k, v);
    assert(r2.files == files.update(n, new_last));
    assert(at.current_offset == old_last.len());
    assert(files.len() == at.segment_number + 1);
    lemma_read_after_write(old_last, k, v);
    lemma_record_len(k, v);
    let off = old_last.len() + 8 + k.len();
    assert(r2.index[k] == (off as u64, v.len() as usize, at.segment_number as u32));
    assert(r2.files[n] == new_last);
    assert(r2.files.last() == new_last);
    assert forall|q: Seq<u8>| #[trigger] r2.index.contains_key(q) implies {
        &&& r2.index[q].2 < r2.files.len()
        &&& r2.index[q].0 + r2.index[q].1 <= r2.files[r2.index[q].2 as int].len()
    } by {
        if q != k {
            let s = r.index[q].2 as int;
            assert(r2.index[q] == r.index[q]);
            if s == n {
                assert(files[s] == r.files[s]);
            } else {
                assert(r2.files[s] == files[s]);
                assert(files[s] == r.files[s]);
            }
        }
    }
    assert forall|q: Seq<u8>| q != k implies #[trigger] value_at(r2, q) == value_at(r, q) by {
        if r.index.contains_key(q) {
            let loc = r.index[q];
            let s = loc.2 as int;
            assert(r2.index[q] == loc);
            if s == n {
                assert(files[s] == r.files[s]);
                assert(new_last.subrange(loc.0 as int, loc.0 + loc.1) =~= old_last.subrange(
                    loc.0 as int,
                    loc.0 + loc.1,
                ));
            } else {
                assert(r2.files[s] == files[s]);
                assert(files[s] == r.files[s]);
            }
        }
    }
}

/// Serving the SETs `w` in order.
pub open spec fn store_sets(r: StoreState, w: Seq<(Seq<u8>, Seq<u8>)>) -> StoreState
    decreases w.len(),
{
    if w.len() == 0 {
        r
    } else {
        store_set(store_sets(r, w.drop_last()), w.last().0, w.last().1)
    }
}

/// GET returns the value last SET, for every run of SETs from any state of
/// the store (after a start-up on existing segments, after a compaction, or
/// in the middle of serving): a key SET in the run reads the value last SET
/// for it, any other key reads what it read before the run, and the store's
/// invariant still holds.
pub proof fn lemma_store_run_reads_latest(r: StoreState, w: Seq<(Seq<u8>, Seq<u8>)>)
    requires
        store_inv(r),
        writes_fit(w),
        r.writer.current_offset + log_of(w).len() <= u64::MAX,
        r.writer.segment_number + w.len() <= u32::MAX,
    ensures
        store_inv(store_sets(r, w)),
        store_sets(r, w).writer.current_offset <= r.writer.current_offset + log_of(w).len(),
        store_sets(r, w).writer.segment_number <= r.writer.segment_number + w.len(),
        forall|k: Seq<u8>|
            #[trigger] value_at(store_sets(r, w), k) == match latest_value(w, k) {
                Some(v) => Some(v),
                None => value_at(r, k),
            },
    decreases w.len(),
{
    if w.len() > 0 {
        let p = w.drop_last();
        let (k, v) = w.last();
        assert(p.push((k, v)) =~= w);
        lemma_located_append(p, k, v, 0);
        lemma_record_len(k, v);
        assert(w[w.len() - 1].0.len() <= u32::MAX && w[w.len() - 1].1.len() <= u32::MAX);
        assert(writes_fit(p)) by {
            assert forall|i: int| 0 <= i < p.len() implies #[trigger] p[i].0.len() <= u32::MAX
                && p[i].1.len() <= u32::MAX by {
                assert(p[i] == w[i]);
            }
        }
        lemma_store_run_reads_latest(r, p);
        let mid = store_sets(r, p);
        lemma_store_set(mid, k, v);
        assert forall|q: Seq<u8>|
            #[trigger] value_at(store_sets(r, w), q) == match latest_value(w, q) {
                Some(vq) => Some(vq),
                None => value_at(r, q),
            } by {
            lemma_latest_after_push(p, k, v, q);
            assert(value_at(mid, q) == match latest_value(p, q) {
                Some(vq) => Some(vq),
                None => value_at(r, q),
            });
        }
    } else {
        assert(log_of(w) == Seq::<u8>::empty());
    }
}

/// `b` is a clean log: the records of a sequence of writes whose lengths fit
/// in a `u32`, with no torn record.
pub open spec fn is_clean_log(b: Seq<u8>) -> bool {
    exists|w: Seq<(Seq<u8>, Seq<u8>)>| writes_fit(w) && #[trigger] log_of(w) == b
}

/// Each segment file, as a present file.
pub open spec fn present(files: Seq<Seq<u8>>) -> Seq<Option<Seq<u8>>> {
    files.map_values(|b: Seq<u8>| Some(b))
}

/// The store with clean segment files, whose index is what a rebuild from
/// those files gives.
pub open spec fn clean_store(r: StoreState) -> bool {
    &&& store_inv(r)
    &&& forall|i: int| 0 <= i < r.files.len() ==> #[trigger] is_clean_log(r.files[i])
    &&& r.index == rebuild_spec(Map::empty(), present(r.files))
}

/// A SET keeps the segment files clean and the index equal to what a
/// rebuild from them gives.
pub proof fn lemma_store_set_clean(r: StoreState, k: Seq<u8>, v: Seq<u8>)
    requires
        clean_store(r),
        set_fits(r, k, v),
    ensures
        clean_store(store_set(r, k, v)),
{
    lemma_store_set(r, k, v);
    let dl = (8 + k.len() + v.len()) as nat;
    let roll = rollover_spec(r.writer, dl as int);
    let files = if roll {
        r.files.push(Seq::empty())
    } else {
        r.files
    };
    let n = files.len() - 1;
    let b = files[n];
    let r2 = store_set(r, k, v);
    let files2 = files.update(n, b + record_bytes(k, v));
    assert(r2.files == files2);
    let w0: Seq<(Seq<u8>, Seq<u8>)> = if roll {
        Seq::empty()
    } else {
        assert(is_clean_log(r.files[n]));
        choose|w: Seq<(Seq<u8>, Seq<u8>)>| writes_fit(w) && #[trigger] log_of(w) == r.files[n]
    };
    assert(writes_fit(w0) && log_of(w0) == b) by {
        if roll {
            assert(log_of(w0) == Seq::<u8>::empty());
        }
    }
    let w1 = w0.push((k, v));
    assert(writes_fit(w1)) by {
        assert forall|i: int| 0 <= i < w1.len() implies #[trigger] w1[i].0.len() <= u32::MAX
            && w1[i].1.len() <= u32::MAX by {
            if i < w0.len() {
                assert(w1[i] == w0[i]);
            }
        }
    }
    lemma_located_append(w0, k, v, 0);
    assert(log_of(w1) == b + record_bytes(k, v));
    let prefix = present(files2).drop_last();
    let m0 = rebuild_spec(Map::empty(), prefix);
    assert(m0 == r.index || !roll) by {
        if roll {
            assert(prefix =~= present(r.files));
        }
    }
    assert(!roll ==> prefix =~= present(r.files).drop_last());
    assert(present(files2).last() == Some(log_of(w1)));
    assert(rebuild_spec(Map::empty(), present(files2)) == insert_records(
        m0,
        parse_segment_spec(log_of(w1)),
        n as u32,
    ));
    lemma_recovery_matches_live_index(m0, w1, n as u32);
    lemma_recovery_matches_live_index(m0, w0, n as u32);
    assert(w1.drop_last() =~= w0);
    assert(insert_records(m0, parse_segment_spec(log_of(w0)), n as u32) == r.index) by {
        if roll {
            assert(parse_segment_spec(log_of(w0)) =~= Seq::<(Seq<u8>, int, int)>::empty());
        } else {
            assert(present(r.files).last() == Some(b));
        }
    }
    assert forall|i: int| 0 <= i < files2.len() implies #[trigger] is_clean_log(files2[i]) by {
        if i == n {
            assert(writes_fit(w1) && log_of(w1) == files2[i]);
        } else {
            assert(files2[i] == r.files[i]);
            assert(is_clean_log(r.files[i]));
        }
    }
}

/// Crash recovery after any run of SETs from a store with clean segment
/// files (as at a start-up on clean files, or after a compaction): a rebuild
/// from the segment files gives exactly the index that serving built.
pub proof fn lemma_store_run_recovers(r: StoreState, w: Seq<(Seq<u8>, Seq<u8>)>)
    requires
        clean_store(r),
        writes_fit(w),
        r.writer.current_offset + log_of(w).len() <= u64::MAX,
        r.writer.segment_number + w.len() <= u32::MAX,
    ensures
        clean_store(store_sets(r, w)),
        rebuild_spec(Map::empty(), present(store_sets(r, w).files)) == store_sets(r, w).index,
    decreases w.len(),
{
    if w.len() > 0 {
        let p = w.drop_last();
        let (k, v) = w.last();
        assert(p.push((k, v)) =~= w);
        lemma_located_append(p, k, v, 0);
        lemma_record_len(k, v);
        assert(w[w.len() - 1].0.len() <= u32::MAX && w[w.len() - 1].1.len() <= u32::MAX);
        assert(writes_fit(p)) by {
            assert forall|i: int| 0 <= i < p.len() implies #[trigger] p[i].0.len() <= u32::MAX
                && p[i].1.len() <= u32::MAX by {
                assert(p[i] == w[i]);
            }
        }
        lemma_store_run_reads_latest(r, p);
        lemma_store_run_recovers(r, p);
        lemma_store_set_clean(store_sets(r, p), k, v);
    }
}

/// A start-up on clean segment files, all present, gives a clean store.
pub proof fn lemma_startup_clean(writer: WriterState, segs: Seq<Option<Seq<u8>>>)
    requires
        segs.len() >= 1,
        segs.len() <= u32::MAX + 1,
        writer.segment_number + 1 == segs.len(),
        writer.current_offset == file_or_empty(segs.last()).len(),
        forall|i: int|
            0 <= i < segs.len() ==> #[trigger] segs[i] is Some && segs[i]->0.len() <= u64::MAX
                && is_clean_log(segs[i]->0),
    ensures
        clean_store(recovered_state(writer, segs)),
{
    let r = recovered_state(writer, segs);
    assert forall|i: int| 0 <= i < segs.len() && #[trigger] segs[i] is Some implies segs[i]->0.len()
        <= u64::MAX by {
    }
    lemma_startup_inv(writer, segs);
    assert(present(r.files) =~= segs);
    assert forall|i: int| 0 <= i < r.files.len() implies #[trigger] is_clean_log(r.files[i]) by {
        assert(segs[i] is Some && is_clean_log(segs[i]->0));
        assert(r.files[i] == segs[i]->0);
    }
}

/// A file's bytes, or nothing for a missing file.
pub open spec fn file_or_empty(f: Option<Seq<u8>>) -> Seq<u8> {
    match f {
        Some(b) => b,
        None => Seq::empty(),
    }
}

/// The store at start-up: the segments `0 ..= n` as they are found (`None`
/// for a missing file), the writer at the highest segment `n` with its
/// file's length as offset, and the index rebuilt from the segments.
pub open spec fn recovered_state(writer: WriterState, segs: Seq<Option<Seq<u8>>>) -> StoreState {
    StoreState {
        writer,
        files: segs.map_values(|f: Option<Seq<u8>>| file_or_empty(f)),
        index: rebuild_spec(Map::empty(), segs),
    }
}

/// The store's invariant holds at start-up, whatever the segment files
/// hold (torn records included).
pub proof fn lemma_startup_inv(writer: WriterState, segs: Seq<Option<Seq<u8>>>)
    requires
        segs.len() >= 1,
        segs.len() <= u32::MAX + 1,
        writer.segment_number + 1 == segs.len(),
        writer.current_offset == file_or_empty(segs.last()).len(),
        forall|i: int| 0 <= i < segs.len() && #[trigger] segs[i] is Some ==> segs[i]->0.len() <= u64::MAX,
    ensures
        store_inv(recovered_state(writer, segs)),
{
    let r = recovered_state(writer, segs);
    assert(r.files.last() == file_or_empty(segs.last()));
    assert forall|k: Seq<u8>| #[trigger] r.index.contains_key(k) implies {
        &&& r.index[k].2 < r.files.len()
        &&& r.index[k].0 + r.index[k].1 <= r.files[r.index[k].2 as int].len()
    } by {
        lemma_rebuild_lookup(Map::empty(), segs, k);
        lemma_last_location_within(segs, k);
        let loc = last_location(segs, k)->0;
        assert(r.files[loc.2 as int] == file_or_empty(segs[loc.2 as int]));
    }
}

/// Compaction keeps what every GET reads: after the compacted segment,
/// written from the values that GETs read before, has replaced segment 0 and
/// the other segments are gone, the store started up again on it holds
/// exactly the same keys, all in segment 0, each reading the same value as
/// before, and the store's invariant holds, so that further SETs are served
/// as `lemma_store_run_reads_latest` says; its segment file is clean, so
/// crash recovery after further SETs is as `lemma_store_run_recovers` says.
pub proof fn lemma_compaction_keeps_reads(
    old: StoreState,
    keys: Seq<Seq<u8>>,
    values: Seq<Vec<u8>>,
    writer: WriterState,
)
    requires
        keys.no_duplicates(),
        forall|k: Seq<u8>| old.index.contains_key(k) <==> keys.contains(k),
        values.len() == keys.len(),
        forall|i: int| 0 <= i < keys.len() ==> value_at(old, keys[i]) == Some(#[trigger] values[i]@),
        writes_fit(compaction_writes(keys, values)),
        log_of(compaction_writes(keys, values)).len() <= u64::MAX,
        writer.segment_number == 0,
        writer.current_offset == log_of(compaction_writes(keys, values)).len(),
    ensures
        ({
            let c = log_of(compaction_writes(keys, values));
            let r = recovered_state(writer, seq![Some(c)]);
            &&& store_inv(r)
            &&& clean_store(r)
            &&& forall|k: Seq<u8>| #[trigger] r.index.contains_key(k) <==> old.index.contains_key(k)
            &&& forall|k: Seq<u8>| r.index.contains_key(k) ==> (#[trigger] r.index[k]).2 == 0
            &&& forall|k: Seq<u8>| #[trigger] value_at(r, k) == value_at(old, k)
        }),
{
    let c = log_of(compaction_writes(keys, values));
    let segs = seq![Some(c)];
    let r = recovered_state(writer, segs);
    assert(segs.last() == Some(c));
    lemma_startup_inv(writer, segs);
    assert(is_clean_log(c)) by {
        assert(writes_fit(compaction_writes(keys, values)) && log_of(compaction_writes(keys, values)) == c);
    }
    lemma_startup_clean(writer, segs);
    lemma_compaction_rebuild(keys, values, segs);
    let m = rebuild_spec(Map::empty(), segs);
    assert(r.index == m);
    assert(r.files[0] == c);
    assert forall|k: Seq<u8>| #[trigger] r.index.contains_key(k) <==> old.index.contains_key(k) by {
        assert(m.contains_key(k) <==> keys.contains(k));
    }
    assert forall|k: Seq<u8>| r.index.contains_key(k) implies (#[trigger] r.index[k]).2 == 0 && value_at(
        r,
        k,
    ) == value_at(old, k) by {
        assert(keys.contains(k));
        let i = choose|i: int| 0 <= i < keys.len() && keys[i] == k;
        let loc = m[keys[i]];
        assert(loc.2 == 0 && loc.1 == values[i]@.len() && c.subrange(loc.0 as int, loc.0 + loc.1)
            == values[i]@);
        assert(value_at(old, keys[i]) == Some(values[i]@));
    }
    assert forall|k: Seq<u8>| #[trigger] value_at(r, k) == value_at(old, k) by {
        if r.index.contains_key(k) {
            assert((r.index[k]).2 == 0);
        }
    }
}

} // verus!
