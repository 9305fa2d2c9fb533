//! The in-memory index: for each key, where its latest value lies in the log.
//!
//! A location is the value's offset in its segment, the value's length, and
//! the segment's number. The index keeps its entries in a vector in which no
//! key occurs twice; its view is the map from keys to locations.
use vstd::prelude::*;

use crate::record::{
    log_of, located_at, parse_segment, parse_segment_spec, records_view, writes_fit,
    lemma_written_log_recovers, extend_bytes, Record,
};

verus! {

/// Where a value lies: offset in its segment, length, segment number.
pub type Location = (u64, usize, u32);

/// The map that a sequence of entries with distinct keys stands for.
pub open spec fn map_of_entries(s: Seq<(Seq<u8>, Location)>) -> Map<Seq<u8>, Location> {
    Map::new(
        |k: Seq<u8>| exists|i: int| 0 <= i < s.len() && s[i].0 == k,
        |k: Seq<u8>| s[choose|i: int| 0 <= i < s.len() && s[i].0 == k].1,
    )
}

/// No key occurs twice.
pub open spec fn keys_distinct(s: Seq<(Seq<u8>, Location)>) -> bool {
    forall|i: int, j: int| 0 <= i < s.len() && 0 <= j < s.len() && i != j ==> s[i].0 != s[j].0
}

/// The index from keys to the locations of their latest values.
#[derive(Debug)]
pub struct Index {
    entries: Vec<(Vec<u8>, Location)>,
}

/// The entries of a vector, keys taken by their views.
pub open spec fn entries_view(v: Seq<(Vec<u8>, Location)>) -> Seq<(Seq<u8>, Location)> {
    v.map_values(|e: (Vec<u8>, Location)| (e.0@, e.1))
}

impl Index {
    /// The entries in the order in which the index keeps them.
    pub closed spec fn entry_seq(&self) -> Seq<(Seq<u8>, Location)> {
        entries_view(self.entries@)
    }

    #[verifier::type_invariant]
    spec fn inv(&self) -> bool {
        keys_distinct(entries_view(self.entries@))
    }

    /// The keys in the order in which the index keeps them; compaction
    /// walks the index in this order.
    pub closed spec fn key_order(&self) -> Seq<Seq<u8>> {
        self.entry_seq().map_values(|e: (Seq<u8>, Location)| e.0)
    }
}

impl View for Index {
    type V = Map<Seq<u8>, Location>;

    open spec fn view(&self) -> Map<Seq<u8>, Location> {
        map_of_entries(self.entry_seq())
    }
}

/// In a sequence with distinct keys, the map holds each entry's location
/// under its key.
proof fn lemma_map_of_entries_at(s: Seq<(Seq<u8>, Location)>, i: int)
    requires
        keys_distinct(s),
        0 <= i < s.len(),
    ensures
        map_of_entries(s).contains_key(s[i].0),
        map_of_entries(s)[s[i].0] == s[i].1,
{
    let k = s[i].0;
    assert(0 <= i < s.len() && s[i].0 == k);
    let j = choose|j: int| 0 <= j < s.len() && s[j].0 == k;
    assert(j == i);
}

proof fn lemma_map_of_entries_push(s: Seq<(Seq<u8>, Location)>, k: Seq<u8>, loc: Location)
    requires
        keys_distinct(s),
        forall|i: int| 0 <= i < s.len() ==> s[i].0 != k,
    ensures
        keys_distinct(s.push((k, loc))),
        map_of_entries(s.push((k, loc))) == map_of_entries(s).insert(k, loc),
{
    let t = s.push((k, loc));
    assert(keys_distinct(t));
    let a = map_of_entries(t);
    let b = map_of_entries(s).insert(k, loc);
    assert forall|q: Seq<u8>| a.contains_key(q) <==> b.contains_key(q) by {
        if a.contains_key(q) {
            let i = choose|i: int| 0 <= i < t.len() && t[i].0 == q;
            if i < s.len() {
                assert(t[i] == s[i]);
            }
        }
        if b.contains_key(q) && q != k {
            let i = choose|i: int| 0 <= i < s.len() && s[i].0 == q;
            assert(t[i] == s[i]);
        }
        if q == k {
            assert(t[s.len() as int].0 == k);
        }
    }
    assert forall|q: Seq<u8>| a.contains_key(q) implies a[q] == b[q] by {
        let i = choose|i: int| 0 <= i < t.len() && t[i].0 == q;
        lemma_map_of_entries_at(t, i);
        if i < s.len() {
            assert(t[i] == s[i]);
            lemma_map_of_entries_at(s, i);
        }
    }
    assert(a =~= b);
}

proof fn lemma_map_of_entries_update(s: Seq<(Seq<u8>, Location)>, i: int, loc: Location)
    requires
        keys_distinct(s),
        0 <= i < s.len(),
    ensures
        keys_distinct(s.update(i, (s[i].0, loc))),
        map_of_entries(s.update(i, (s[i].0, loc))) == map_of_entries(s).insert(s[i].0, loc),
{
    let k = s[i].0;
    let t = s.update(i, (k, loc));
    assert(keys_distinct(t)) by {
        assert forall|a: int, b: int|
            0 <= a < t.len() && 0 <= b < t.len() && a != b implies t[a].0 != t[b].0 by {
            assert(t[a].0 == s[a].0);
            assert(t[b].0 == s[b].0);
        }
    }
    let ma = map_of_entries(t);
    let mb = map_of_entries(s).insert(k, loc);
    assert forall|q: Seq<u8>| ma.contains_key(q) <==> mb.contains_key(q) by {
        if ma.contains_key(q) {
            let j = choose|j: int| 0 <= j < t.len() && t[j].0 == q;
            assert(s[j].0 == q);
        }
        if mb.contains_key(q) && q != k {
            let j = choose|j: int| 0 <= j < s.len() && s[j].0 == q;
            assert(t[j].0 == q);
        }
        if q == k {
            assert(t[i].0 == k);
        }
    }
    assert forall|q: Seq<u8>| ma.contains_key(q) implies ma[q] == mb[q] by {
        let j = choose|j: int| 0 <= j < t.len() && t[j].0 == q;
        lemma_map_of_entries_at(t, j);
        if j != i {
            assert(t[j] == s[j]);
            lemma_map_of_entries_at(s, j);
        }
    }
    assert(ma =~= mb);
}

/// The index after recording, in order, the records found in one segment.
pub open spec fn insert_records(
    m: Map<Seq<u8>, Location>,
    recs: Seq<(Seq<u8>, int, int)>,
    segment_number: u32,
) -> Map<Seq<u8>, Location>
    decreases recs.len(),
{
    if recs.len() == 0 {
        m
    } else {
        let r = recs.last();
        insert_records(m, recs.drop_last(), segment_number).insert(
            r.0,
            (r.1 as u64, r.2 as usize, segment_number),
        )
    }
}

/// The bytes of the segment files, `None` where a file does not exist.
pub open spec fn segment_bytes(files: Seq<Option<Vec<u8>>>) -> Seq<Option<Seq<u8>>> {
    files.map_values(
        |f: Option<Vec<u8>>|
            match f {
                Some(b) => Some(b@),
                None => None,
            },
    )
}

/// The index after loading, in order, the segments `0 .. segs.len()`;
/// segment `i` is `segs[i]`, and `None` where its file does not exist.
pub open spec fn rebuild_spec(m: Map<Seq<u8>, Location>, segs: Seq<Option<Seq<u8>>>) -> Map<
    Seq<u8>,
    Location,
>
    decreases segs.len(),
{
    if segs.len() == 0 {
        m
    } else {
        let prev = rebuild_spec(m, segs.drop_last());
        match segs.last() {
            Some(b) => insert_records(prev, parse_segment_spec(b), (segs.len() - 1) as u32),
            None => prev,
        }
    }
}

/// The position of the last occurrence of `k` in `keys`, or -1.
pub open spec fn last_index_of(keys: Seq<Seq<u8>>, k: Seq<u8>) -> int
    decreases keys.len(),
{
    if keys.len() == 0 {
        -1
    } else if keys.last() == k {
        keys.len() - 1
    } else {
        last_index_of(keys.drop_last(), k)
    }
}

/// The keys of a sequence of writes.
pub open spec fn write_keys(w: Seq<(Seq<u8>, Seq<u8>)>) -> Seq<Seq<u8>> {
    w.map_values(|e: (Seq<u8>, Seq<u8>)| e.0)
}

/// The keys of a sequence of found records.
pub open spec fn record_keys(recs: Seq<(Seq<u8>, int, int)>) -> Seq<Seq<u8>> {
    recs.map_values(|r: (Seq<u8>, int, int)| r.0)
}

/// The value written last for `k` among the writes `w`, if any.
pub open spec fn latest_value(w: Seq<(Seq<u8>, Seq<u8>)>, k: Seq<u8>) -> Option<Seq<u8>> {
    let j = last_index_of(write_keys(w), k);
    if j < 0 {
        None
    } else {
        Some(w[j].1)
    }
}

/// The last occurrence of `k` is a position of `k`, and there is none when
/// the result is -1.
pub proof fn lemma_last_index_of_bounds(keys: Seq<Seq<u8>>, k: Seq<u8>)
    ensures
        -1 <= last_index_of(keys, k) < keys.len(),
        last_index_of(keys, k) >= 0 ==> keys[last_index_of(keys, k)] == k,
        last_index_of(keys, k) < 0 ==> forall|i: int| 0 <= i < keys.len() ==> keys[i] != k,
    decreases keys.len(),
{
    if keys.len() > 0 && keys.last() != k {
        lemma_last_index_of_bounds(keys.drop_last(), k);
        assert forall|i: int| 0 <= i < keys.len() && last_index_of(keys, k) < 0 implies keys[i]
            != k by {
            if i < keys.len() - 1 {
                assert(keys[i] == keys.drop_last()[i]);
            }
        }
    }
}

/// Recording found records, in order, leaves each key at the place of its
/// last record; keys without a record keep what the map held.
proof fn lemma_insert_records_lookup(
    m: Map<Seq<u8>, Location>,
    recs: Seq<(Seq<u8>, int, int)>,
    seg: u32,
    k: Seq<u8>,
)
    ensures
        ({
            let j = last_index_of(record_keys(recs), k);
            let m2 = insert_records(m, recs, seg);
            if j >= 0 {
                &&& j < recs.len()
                &&& recs[j].0 == k
                &&& m2.contains_key(k)
                &&& m2[k] == (recs[j].1 as u64, recs[j].2 as usize, seg)
            } else {
                &&& (m2.contains_key(k) <==> m.contains_key(k))
                &&& (m.contains_key(k) ==> m2[k] == m[k])
            }
        }),
    decreases recs.len(),
{
    let keys = record_keys(recs);
    lemma_last_index_of_bounds(keys, k);
    if recs.len() > 0 {
        let prev = recs.drop_last();
        assert(record_keys(prev) =~= keys.drop_last());
        lemma_insert_records_lookup(m, prev, seg, k);
        let j = last_index_of(keys, k);
        if recs.last().0 != k {
            assert(keys.last() != k);
            if j >= 0 {
                assert(recs[j] == prev[j]);
            }
        }
    }
}

/// Where the last record of `k` in the segments lies, if any segment holds
/// a complete record of `k`: in the highest such segment, its last record
/// of `k` there.
pub open spec fn last_location(segs: Seq<Option<Seq<u8>>>, k: Seq<u8>) -> Option<Location>
    decreases segs.len(),
{
    if segs.len() == 0 {
        None
    } else {
        let n = segs.len() - 1;
        match segs.last() {
            Some(b) => {
                let recs = parse_segment_spec(b);
                let j = last_index_of(record_keys(recs), k);
                if j >= 0 {
                    Some((recs[j].1 as u64, recs[j].2 as usize, n as u32))
                } else {
                    last_location(segs.drop_last(), k)
                }
            },
            None => last_location(segs.drop_last(), k),
        }
    }
}

/// After a rebuild, a key that some segment holds a record of maps to the
/// place of its last record in the highest segment that holds one; any other
/// key keeps what the index held before.
pub proof fn lemma_rebuild_lookup(m: Map<Seq<u8>, Location>, segs: Seq<Option<Seq<u8>>>, k: Seq<u8>)
    ensures
        ({
            let r = rebuild_spec(m, segs);
            match last_location(segs, k) {
                Some(loc) => r.contains_key(k) && r[k] == loc,
                None => {
                    &&& (r.contains_key(k) <==> m.contains_key(k))
                    &&& (m.contains_key(k) ==> r[k] == m[k])
                },
            }
        }),
    decreases segs.len(),
{
    if segs.len() > 0 {
        let n = segs.len() - 1;
        lemma_rebuild_lookup(m, segs.drop_last(), k);
        match segs.last() {
            Some(b) => {
                lemma_insert_records_lookup(
                    rebuild_spec(m, segs.drop_last()),
                    parse_segment_spec(b),
                    n as u32,
                    k,
                );
            },
            None => {},
        }
    }
}

/// The place that a rebuild finds for a key lies inside an existing
/// segment.
pub proof fn lemma_last_location_within(segs: Seq<Option<Seq<u8>>>, k: Seq<u8>)
    requires
        segs.len() <= u32::MAX + 1,
        forall|i: int| 0 <= i < segs.len() && #[trigger] segs[i] is Some ==> segs[i]->0.len() <= u64::MAX,
    ensures
        last_location(segs, k) matches Some(loc) ==> {
            &&& loc.2 < segs.len()
            &&& segs[loc.2 as int] is Some
            &&& loc.0 + loc.1 <= segs[loc.2 as int]->0.len()
        },
    decreases segs.len(),
{
    if segs.len() > 0 {
        let n = segs.len() - 1;
        let p = segs.drop_last();
        assert forall|i: int| 0 <= i < p.len() && #[trigger] p[i] is Some implies p[i]->0.len() <= u64::MAX by {
            assert(p[i] == segs[i]);
        }
        lemma_last_location_within(p, k);
        match segs.last() {
            Some(b) => {
                let recs = parse_segment_spec(b);
                crate::record::lemma_parse_from_within(b, 0);
                lemma_last_index_of_bounds(record_keys(recs), k);
                assert(segs[n] is Some);
                assert(segs[n]->0 == b);
                assert(b.len() <= u64::MAX);
                let j = last_index_of(record_keys(recs), k);
                if j >= 0 {
                    let r = recs[j];
                    assert(0 <= r.1 && r.1 + r.2 <= b.len() && 0 <= r.2 <= u32::MAX);
                    let loc = (r.1 as u64, r.2 as usize, n as u32);
                    assert(last_location(segs, k) == Some(loc));
                    assert(loc.2 == n);
                    assert(loc.0 == r.1);
                    assert(loc.1 == r.2);
                }
            },
            None => {},
        }
        if last_location(segs, k) is Some {
            let loc = last_location(segs, k)->0;
            if loc.2 < n {
                assert(segs[loc.2 as int] == p[loc.2 as int]);
            }
        }
    }
}

/// Rebuilding twice from the same segments leaves the index as one rebuild
/// left it.
pub proof fn lemma_rebuild_idempotent(m: Map<Seq<u8>, Location>, segs: Seq<Option<Seq<u8>>>)
    ensures
        rebuild_spec(rebuild_spec(m, segs), segs) == rebuild_spec(m, segs),
{
    let r1 = rebuild_spec(m, segs);
    let r2 = rebuild_spec(r1, segs);
    assert forall|k: Seq<u8>| #[trigger] r2.contains_key(k) <==> r1.contains_key(k) by {
        lemma_rebuild_lookup(m, segs, k);
        lemma_rebuild_lookup(r1, segs, k);
    }
    assert forall|k: Seq<u8>| r2.contains_key(k) implies #[trigger] r2[k] == r1[k] by {
        lemma_rebuild_lookup(m, segs, k);
        lemma_rebuild_lookup(r1, segs, k);
    }
    assert(r2 =~= r1);
}

/// The index after inserting, in order, each key with its location.
pub open spec fn insert_all(m: Map<Seq<u8>, Location>, ins: Seq<(Seq<u8>, Location)>) -> Map<
    Seq<u8>,
    Location,
>
    decreases ins.len(),
{
    if ins.len() == 0 {
        m
    } else {
        insert_all(m, ins.drop_last()).insert(ins.last().0, ins.last().1)
    }
}

/// The keys of a sequence of inserts.
pub open spec fn insert_keys(ins: Seq<(Seq<u8>, Location)>) -> Seq<Seq<u8>> {
    ins.map_values(|e: (Seq<u8>, Location)| e.0)
}

/// Get after a sequence of inserts: a key that was inserted maps to the
/// location of its last insert (keys compared byte for byte); any other key
/// keeps what the index held before.
pub proof fn lemma_get_after_inserts(
    m: Map<Seq<u8>, Location>,
    ins: Seq<(Seq<u8>, Location)>,
    k: Seq<u8>,
)
    ensures
        ({
            let j = last_index_of(insert_keys(ins), k);
            let r = insert_all(m, ins);
            if j >= 0 {
                &&& j < ins.len()
                &&& ins[j].0 == k
                &&& r.contains_key(k)
                &&& r[k] == ins[j].1
            } else {
                &&& (r.contains_key(k) <==> m.contains_key(k))
                &&& (m.contains_key(k) ==> r[k] == m[k])
            }
        }),
    decreases ins.len(),
{
    let keys = insert_keys(ins);
    lemma_last_index_of_bounds(keys, k);
    if ins.len() > 0 {
        let prev = ins.drop_last();
        assert(insert_keys(prev) =~= keys.drop_last());
        lemma_get_after_inserts(m, prev, k);
        let j = last_index_of(keys, k);
        if ins.last().0 != k {
            assert(keys.last() != k);
            if j >= 0 {
                assert(ins[j] == prev[j]);
            }
        }
    }
}

/// Rebuilding the index from a segment that was written one record per
/// write finds, for every key written, the place of the value written last
/// for it; keys that were not written keep what the index held.
pub proof fn lemma_rebuild_finds_latest(
    m: Map<Seq<u8>, Location>,
    w: Seq<(Seq<u8>, Seq<u8>)>,
    seg: u32,
    k: Seq<u8>,
)
    requires
        writes_fit(w),
        log_of(w).len() <= u64::MAX,
    ensures
        ({
            let m2 = insert_records(m, parse_segment_spec(log_of(w)), seg);
            match latest_value(w, k) {
                Some(v) => {
                    &&& m2.contains_key(k)
                    &&& m2[k].2 == seg
                    &&& m2[k].1 == v.len()
                    &&& log_of(w).subrange(m2[k].0 as int, m2[k].0 + m2[k].1) == v
                },
                None => {
                    &&& (m2.contains_key(k) <==> m.contains_key(k))
                    &&& (m.contains_key(k) ==> m2[k] == m[k])
                },
            }
        }),
{
    lemma_written_log_recovers(w);
    let locs = located_at(w, 0);
    assert(record_keys(locs) =~= write_keys(w)) by {
        assert forall|i: int| 0 <= i < w.len() implies record_keys(locs)[i] == write_keys(w)[i] by {
            assert(locs[i].0 == w[i].0);
        }
    }
    lemma_insert_records_lookup(m, locs, seg, k);
    let j = last_index_of(write_keys(w), k);
    if j >= 0 {
        let loc = locs[j];
        assert(loc.0 == w[j].0);
        assert(loc.1 + loc.2 <= log_of(w).len());
        assert(loc.2 == w[j].1.len());
        assert(loc.2 <= u32::MAX);
    }
}

/// The index that the server builds while it serves the writes `w` into
/// segment `seg`, which starts empty: each write inserts the location that
/// the log writer hands back, past the records before it, the header and
/// the key.
pub open spec fn live_index(m: Map<Seq<u8>, Location>, w: Seq<(Seq<u8>, Seq<u8>)>, seg: u32) -> Map<
    Seq<u8>,
    Location,
>
    decreases w.len(),
{
    if w.len() == 0 {
        m
    } else {
        let prev = w.drop_last();
        let (k, v) = w.last();
        live_index(m, prev, seg).insert(
            k,
            ((log_of(prev).len() + 8 + k.len()) as u64, v.len() as usize, seg),
        )
    }
}

/// Crash recovery gives back the index the server had: rebuilding the index
/// from a segment written record by record gives exactly the index that the
/// writes built while they were served.
pub proof fn lemma_recovery_matches_live_index(
    m: Map<Seq<u8>, Location>,
    w: Seq<(Seq<u8>, Seq<u8>)>,
    seg: u32,
)
    requires
        writes_fit(w),
    ensures
        insert_records(m, parse_segment_spec(log_of(w)), seg) == live_index(m, w, seg),
    decreases w.len(),
{
    lemma_written_log_recovers(w);
    if w.len() > 0 {
        let prev = w.drop_last();
        let (k, v) = w.last();
        assert(writes_fit(prev)) by {
            assert forall|i: int| 0 <= i < prev.len() implies #[trigger] prev[i].0.len()
                <= u32::MAX && prev[i].1.len() <= u32::MAX by {
                assert(prev[i] == w[i]);
            }
        }
        lemma_recovery_matches_live_index(m, prev, seg);
        lemma_written_log_recovers(prev);
        assert(prev.push((k, v)) =~= w);
        crate::record::lemma_located_append(prev, k, v, 0);
        let locs = located_at(w, 0);
        assert(locs.drop_last() =~= located_at(prev, 0));
    }
}

/// The index that the server builds while it serves the writes `ws[i]`
/// into segment `i`, segment after segment.
pub open spec fn live_index_segments(m: Map<Seq<u8>, Location>, ws: Seq<Seq<(Seq<u8>, Seq<u8>)>>) -> Map<
    Seq<u8>,
    Location,
>
    decreases ws.len(),
{
    if ws.len() == 0 {
        m
    } else {
        live_index(live_index_segments(m, ws.drop_last()), ws.last(), (ws.len() - 1) as u32)
    }
}

/// Crash recovery across segments: rebuilding the index from segment files
/// that each hold the records written to them gives exactly the index that
/// the writes built while they were served, segment after segment.
pub proof fn lemma_recovery_matches_live_index_segments(
    m: Map<Seq<u8>, Location>,
    segs: Seq<Option<Seq<u8>>>,
    ws: Seq<Seq<(Seq<u8>, Seq<u8>)>>,
)
    requires
        segs.len() == ws.len(),
        forall|i: int|
            0 <= i < segs.len() ==> #[trigger] segs[i] is Some && segs[i]->0 == log_of(ws[i])
                && writes_fit(ws[i]),
    ensures
        rebuild_spec(m, segs) == live_index_segments(m, ws),
    decreases segs.len(),
{
    if segs.len() > 0 {
        let n = segs.len() - 1;
        assert(segs[n] is Some && segs[n]->0 == log_of(ws[n]) && writes_fit(ws[n]));
        assert forall|i: int| 0 <= i < segs.drop_last().len() implies #[trigger] segs.drop_last()[i] is Some
            && segs.drop_last()[i]->0 == log_of(ws.drop_last()[i]) && writes_fit(ws.drop_last()[i]) by {
            assert(segs.drop_last()[i] == segs[i]);
            assert(ws.drop_last()[i] == ws[i]);
            assert(segs[i] is Some && segs[i]->0 == log_of(ws[i]) && writes_fit(ws[i]));
        }
        lemma_recovery_matches_live_index_segments(m, segs.drop_last(), ws.drop_last());
        lemma_recovery_matches_live_index(rebuild_spec(m, segs.drop_last()), ws[n], n as u32);
    }
}

/// The writes that compaction makes: each key, in the index's order, with
/// the value that was read for it.
pub open spec fn compaction_writes(keys: Seq<Seq<u8>>, values: Seq<Vec<u8>>) -> Seq<
    (Seq<u8>, Seq<u8>),
> {
    Seq::new(keys.len(), |i: int| (keys[i], values[i]@))
}

/// Compaction keeps every value: rebuilding an empty index from the
/// compacted segment alone, as segment 0, gives exactly the keys that were
/// compacted, and each key's location holds the value that was read for it.
pub proof fn lemma_compaction_keeps_values(keys: Seq<Seq<u8>>, values: Seq<Vec<u8>>)
    requires
        keys.no_duplicates(),
        values.len() == keys.len(),
        writes_fit(compaction_writes(keys, values)),
        log_of(compaction_writes(keys, values)).len() <= u64::MAX,
    ensures
        ({
            let c = log_of(compaction_writes(keys, values));
            let m2 = insert_records(Map::empty(), parse_segment_spec(c), 0);
            &&& forall|k: Seq<u8>| m2.contains_key(k) <==> keys.contains(k)
            &&& forall|i: int|
                0 <= i < keys.len() ==> {
                    let loc = #[trigger] m2[keys[i]];
                    &&& loc.2 == 0
                    &&& loc.1 == values[i]@.len()
                    &&& c.subrange(loc.0 as int, loc.0 + loc.1) == values[i]@
                }
        }),
{
    let w = compaction_writes(keys, values);
    let c = log_of(w);
    let m2 = insert_records(Map::empty(), parse_segment_spec(c), 0);
    assert(write_keys(w) =~= keys);
    assert forall|k: Seq<u8>| m2.contains_key(k) <==> keys.contains(k) by {
        lemma_rebuild_finds_latest(Map::empty(), w, 0, k);
        lemma_last_index_of_bounds(keys, k);
        if keys.contains(k) {
            let i = choose|i: int| 0 <= i < keys.len() && keys[i] == k;
            assert(keys[i] == k);
        }
    }
    assert forall|i: int| 0 <= i < keys.len() implies {
        let loc = #[trigger] m2[keys[i]];
        &&& loc.2 == 0
        &&& loc.1 == values[i]@.len()
        &&& c.subrange(loc.0 as int, loc.0 + loc.1) == values[i]@
    } by {
        let k = keys[i];
        lemma_rebuild_finds_latest(Map::empty(), w, 0, k);
        lemma_last_index_of_bounds(keys, k);
        let j = last_index_of(keys, k);
        assert(j == i);
        assert(w[i].1 == values[i]@);
    }
}

/// Segments that do not exist after the first change nothing in a rebuild.
pub proof fn lemma_rebuild_absent_tail(m: Map<Seq<u8>, Location>, segs: Seq<Option<Seq<u8>>>)
    requires
        segs.len() >= 1,
        forall|i: int| 1 <= i < segs.len() ==> #[trigger] segs[i] is None,
    ensures
        rebuild_spec(m, segs) == rebuild_spec(m, segs.take(1)),
    decreases segs.len(),
{
    if segs.len() > 1 {
        let p = segs.drop_last();
        assert(p.take(1) =~= segs.take(1));
        assert forall|i: int| 1 <= i < p.len() implies #[trigger] p[i] is None by {
            assert(p[i] == segs[i]);
        }
        assert(segs[segs.len() - 1] is None);
        lemma_rebuild_absent_tail(m, p);
    } else {
        assert(segs.take(1) =~= segs);
    }
}

/// Compaction as a whole: once the compacted segment stands as segment 0
/// and the segments after it are removed, rebuilding an empty index from
/// the segments gives exactly the keys that were compacted, each in segment
/// 0, and each location holds the value that was read for its key.
pub proof fn lemma_compaction_rebuild(
    keys: Seq<Seq<u8>>,
    values: Seq<Vec<u8>>,
    files: Seq<Option<Seq<u8>>>,
)
    requires
        keys.no_duplicates(),
        values.len() == keys.len(),
        writes_fit(compaction_writes(keys, values)),
        log_of(compaction_writes(keys, values)).len() <= u64::MAX,
        files.len() >= 1,
        files[0] is Some,
        files[0]->0 == log_of(compaction_writes(keys, values)),
        forall|i: int| 1 <= i < files.len() ==> #[trigger] files[i] is None,
    ensures
        ({
            let c = log_of(compaction_writes(keys, values));
            let r = rebuild_spec(Map::empty(), files);
            &&& forall|k: Seq<u8>| r.contains_key(k) <==> keys.contains(k)
            &&& forall|i: int|
                0 <= i < keys.len() ==> {
                    let loc = #[trigger] r[keys[i]];
                    &&& loc.2 == 0
                    &&& loc.1 == values[i]@.len()
                    &&& c.subrange(loc.0 as int, loc.0 + loc.1) == values[i]@
                }
        }),
{
    lemma_rebuild_absent_tail(Map::empty(), files);
    let one = files.take(1);
    assert(one.drop_last() =~= Seq::<Option<Seq<u8>>>::empty());
    assert(one.last() == files[0]);
    assert(one.len() == 1);
    assert(rebuild_spec(Map::empty(), one.drop_last()) == Map::<Seq<u8>, Location>::empty());
    assert(rebuild_spec(Map::empty(), one) == insert_records(
        Map::empty(),
        parse_segment_spec(files[0]->0),
        0,
    ));
    lemma_compaction_keeps_values(keys, values);
}

/// Whether two byte strings are equal.
pub fn bytes_eq(a: &[u8], b: &[u8]) -> (out: bool)
    ensures
        out == (a@ == b@),
{
    if a.len() != b.len() {
        return false;
    }
    let mut i: usize = 0;
    while i < a.len()
        invariant
            a@.len() == b@.len(),
            i <= a@.len(),
            forall|j: int| 0 <= j < i ==> a@[j] == b@[j],
        decreases a@.len() - i,
    {
        if a[i] != b[i] {
            return false;
        }
        i += 1;
    }
    assert(a@ =~= b@);
    true
}

impl Index {
    /// An empty index.
    pub fn new() -> (out: Index)
        ensures
            out@ == Map::<Seq<u8>, Location>::empty(),
            out.key_order() == Seq::<Seq<u8>>::empty(),
    {
        let out = Index { entries: Vec::new() };
        assert(out@ =~= Map::<Seq<u8>, Location>::empty());
        assert(out.key_order() =~= Seq::<Seq<u8>>::empty());
        out
    }

    /// The position of `key` among the entries, if it is there.
    fn find(&self, key: &[u8]) -> (out: Option<usize>)
        ensures
            match out {
                Some(i) => i < self.entry_seq().len() && self.entry_seq()[i as int].0 == key@,
                None => forall|i: int|
                    0 <= i < self.entry_seq().len() ==> self.entry_seq()[i].0 != key@,
            },
    {
        let mut i: usize = 0;
        while i < self.entries.len()
            invariant
                i <= self.entries@.len(),
                forall|j: int| 0 <= j < i ==> self.entry_seq()[j].0 != key@,
            decreases self.entries@.len() - i,
        {
            if bytes_eq(self.entries[i].0.as_slice(), key) {
                return Some(i);
            }
            i += 1;
        }
        None
    }

    /// The location of `key`'s latest value, if the index holds one.
    pub fn get(&self, key: &[u8]) -> (out: Option<&Location>)
        ensures
            match out {
                Some(loc) => self@.contains_key(key@) && *loc == self@[key@],
                None => !self@.contains_key(key@),
            },
    {
        proof {
            use_type_invariant(self);
        }
        match self.find(key) {
            Some(i) => {
                proof {
                    lemma_map_of_entries_at(self.entry_seq(), i as int);
                }
                Some(&self.entries[i].1)
            },
            None => None,
        }
    }

    /// Records that `key`'s latest value lies at `value_offset` in segment
    /// `segment_number` and is `value_len` bytes long, replacing what the
    /// index held for `key`.
    pub fn insert(&mut self, key: Vec<u8>, value_offset: u64, value_len: usize, segment_number: u32)
        ensures
            final(self)@ == old(self)@.insert(key@, (value_offset, value_len, segment_number)),
    {
        proof {
            use_type_invariant(&*self);
        }
        let loc: Location = (value_offset, value_len, segment_number);
        let found = self.find(key.as_slice());
        let mut entries: Vec<(Vec<u8>, Location)> = Vec::new();
        let ghost before = self.entry_seq();
        std::mem::swap(&mut entries, &mut self.entries);
        assert(entries_view(entries@) == before);
        match found {
            Some(i) => {
                proof {
                    lemma_map_of_entries_update(entries_view(entries@), i as int, loc);
                    assert(entries_view(entries@.update(i as int, (key, loc))) =~= entries_view(
                        entries@,
                    ).update(i as int, (key@, loc)));
                }
                entries.set(i, (key, loc));
            },
            None => {
                proof {
                    lemma_map_of_entries_push(entries_view(entries@), key@, loc);
                    assert(entries_view(entries@.push((key, loc))) =~= entries_view(entries@).push(
                        (key@, loc),
                    ));
                }
                entries.push((key, loc));
            },
        }
        self.entries = entries;
    }

    /// The locations of the index's entries, in the index's own order
    /// (`key_order`); compaction reads the values from these locations.
    pub fn locations(&self) -> (out: Vec<Location>)
        ensures
            out@.len() == self.key_order().len(),
            self.key_order().no_duplicates(),
            forall|k: Seq<u8>| self@.contains_key(k) <==> self.key_order().contains(k),
            forall|i: int|
                0 <= i < out@.len() ==> #[trigger] out@[i] == self@[self.key_order()[i]],
    {
        proof {
            use_type_invariant(self);
        }
        let ghost es = self.entry_seq();
        let ghost keys = self.key_order();
        let mut out: Vec<Location> = Vec::new();
        let mut i: usize = 0;
        while i < self.entries.len()
            invariant
                es == self.entry_seq(),
                keys == self.key_order(),
                keys_distinct(es),
                i <= self.entries@.len(),
                out@.len() == i,
                forall|j: int| 0 <= j < i ==> #[trigger] out@[j] == es[j].1,
            decreases self.entries@.len() - i,
        {
            out.push(self.entries[i].1);
            i += 1;
        }
        proof {
            assert forall|j: int| 0 <= j < out@.len() implies #[trigger] out@[j] == self@[keys[j]] by {
                lemma_map_of_entries_at(es, j);
            }
            assert forall|a: int, b: int| 0 <= a < keys.len() && 0 <= b < keys.len() && a != b implies keys[a]
                != keys[b] by {
                assert(keys[a] == es[a].0);
                assert(keys[b] == es[b].0);
            }
            assert forall|k: Seq<u8>| self@.contains_key(k) <==> keys.contains(k) by {
                if self@.contains_key(k) {
                    let j = choose|j: int| 0 <= j < es.len() && es[j].0 == k;
                    assert(keys[j] == k);
                }
                if keys.contains(k) {
                    let j = choose|j: int| 0 <= j < keys.len() && keys[j] == k;
                    assert(es[j].0 == k);
                }
            }
        }
        out
    }

    /// The compacted segment: one record for each key, in the index's
    /// order, with the value that was read for it.
    pub fn compact_log(&self, values: &Vec<Vec<u8>>) -> (out: Vec<u8>)
        requires
            values@.len() == self.key_order().len(),
        ensures
            out@ == log_of(compaction_writes(self.key_order(), values@)),
    {
        let ghost keys = self.key_order();
        let ghost w = compaction_writes(keys, values@);
        let mut out: Vec<u8> = Vec::new();
        let mut i: usize = 0;
        assert(w.take(0) =~= Seq::<(Seq<u8>, Seq<u8>)>::empty());
        assert(log_of(w.take(0)) == Seq::<u8>::empty());
        while i < self.entries.len()
            invariant
                keys == self.key_order(),
                w == compaction_writes(keys, values@),
                values@.len() == keys.len(),
                keys.len() == self.entries@.len(),
                i <= self.entries@.len(),
                out@ == log_of(w.take(i as int)),
            decreases self.entries@.len() - i,
        {
            let rec = crate::record::encode_record(self.entries[i].0.as_slice(), values[i].as_slice());
            proof {
                assert(w.take(i + 1) =~= w.take(i as int).push(w[i as int]));
                assert(keys[i as int] == self.entries@[i as int].0@);
                crate::record::lemma_located_append(w.take(i as int), w[i as int].0, w[i as int].1, 0);
            }
            extend_bytes(&mut out, rec.as_slice());
            i += 1;
        }
        assert(w.take(w.len() as int) =~= w);
        out
    }

    /// Records every complete record of segment `segment_number`, in the
    /// order in which they were written, so that a later record of a key
    /// replaces an earlier one.
    fn load_segment(&mut self, bytes: &[u8], segment_number: u32)
        ensures
            final(self)@ == insert_records(old(self)@, parse_segment_spec(bytes@), segment_number),
    {
        let recs = parse_segment(bytes);
        let ghost found = records_view(recs@);
        let mut i: usize = 0;
        assert(found.take(0) =~= Seq::<(Seq<u8>, int, int)>::empty());
        while i < recs.len()
            invariant
                i <= recs@.len(),
                found == records_view(recs@),
                found == parse_segment_spec(bytes@),
                self@ == insert_records(old(self)@, found.take(i as int), segment_number),
            decreases recs@.len() - i,
        {
            let rec: &Record = &recs[i];
            let mut key: Vec<u8> = Vec::new();
            extend_bytes(&mut key, rec.key.as_slice());
            assert(key@ =~= rec.key@);
            self.insert(key, rec.value_offset, rec.value_len, segment_number);
            proof {
                let t = found.take(i + 1);
                assert(t.drop_last() =~= found.take(i as int));
                assert(t.last() == found[i as int]);
                assert(found[i as int] == rec@);
            }
            i += 1;
        }
        assert(found.take(recs@.len() as int) =~= found);
    }

    /// Rebuilds the index from the segments `0 .. segments.len()`, in
    /// order: `segments[i]` holds the bytes of segment `i`, or `None` where
    /// its file does not exist. Records of later segments, and later
    /// records within a segment, replace earlier ones.
    pub fn build(&mut self, segments: &Vec<Option<Vec<u8>>>)
        requires
            segments@.len() <= u32::MAX + 1,
        ensures
            final(self)@ == rebuild_spec(old(self)@, segment_bytes(segments@)),
    {
        let ghost all = segment_bytes(segments@);
        let mut i: usize = 0;
        assert(all.take(0) =~= Seq::<Option<Seq<u8>>>::empty());
        while i < segments.len()
            invariant
                all == segment_bytes(segments@),
                i <= segments@.len(),
                segments@.len() <= u32::MAX + 1,
                self@ == rebuild_spec(old(self)@, all.take(i as int)),
            decreases segments@.len() - i,
        {
            let ghost t = all.take(i + 1);
            assert(t.drop_last() =~= all.take(i as int));
            match &segments[i] {
                Some(bytes) => {
                    self.load_segment(bytes.as_slice(), i as u32);
                },
                None => {},
            }
            i += 1;
        }
        assert(all.take(all.len() as int) =~= all);
    }
}

} // verus!
