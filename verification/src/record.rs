//! The record format of a log segment.
//!
//! A record is the key length and the value length, each a big-endian
//! `u32`, followed by the key bytes and the value bytes.
use vstd::prelude::*;

verus! {

/// The four big-endian bytes of `n`.
pub open spec fn u32_be(n: u32) -> Seq<u8> {
    seq![
        (n / 0x100_0000) as u8,
        ((n / 0x1_0000) % 0x100) as u8,
        ((n / 0x100) % 0x100) as u8,
        (n % 0x100) as u8,
    ]
}

/// The number that the four big-endian bytes of `bytes` at `pos` stand for.
pub open spec fn be_u32_at(bytes: Seq<u8>, pos: int) -> int {
    bytes[pos] * 0x100_0000 + bytes[pos + 1] * 0x1_0000 + bytes[pos + 2] * 0x100 + bytes[pos + 3]
}

/// The bytes of one record: key length, value length, key, value.
/// A length that does not fit in a `u32` is written truncated, as the
/// writer's `as u32` does.
pub open spec fn record_bytes(key: Seq<u8>, value: Seq<u8>) -> Seq<u8> {
    u32_be(key.len() as u32) + u32_be(value.len() as u32) + key + value
}

/// Decoding the encoding of a `u32` gives it back.
pub proof fn lemma_u32_be_roundtrip(n: u32)
    ensures
        u32_be(n).len() == 4,
        be_u32_at(u32_be(n), 0) == n,
        forall|pre: Seq<u8>, post: Seq<u8>|
            #[trigger] be_u32_at(pre + u32_be(n) + post, pre.len() as int) == n,
{
    let s = u32_be(n);
    assert(s[0] * 0x100_0000 + s[1] * 0x1_0000 + s[2] * 0x100 + s[3] == n) by (nonlinear_arith)
        requires
            s[0] == (n / 0x100_0000) as u8,
            s[1] == ((n / 0x1_0000) % 0x100) as u8,
            s[2] == ((n / 0x100) % 0x100) as u8,
            s[3] == (n % 0x100) as u8,
            n <= 0xffff_ffff,
    {
    }
    assert forall|pre: Seq<u8>, post: Seq<u8>|
        #[trigger] be_u32_at(pre + u32_be(n) + post, pre.len() as int) == n by {
        let b = pre + u32_be(n) + post;
        let p = pre.len() as int;
        assert(b[p] == s[0]);
        assert(b[p + 1] == s[1]);
        assert(b[p + 2] == s[2]);
        assert(b[p + 3] == s[3]);
    }
}

/// The four big-endian bytes of `n`.
pub fn encode_u32(n: u32) -> (out: [u8; 4])
    ensures
        out@ == u32_be(n),
{
    let out = [
        (n / 0x100_0000) as u8,
        ((n / 0x1_0000) % 0x100) as u8,
        ((n / 0x100) % 0x100) as u8,
        (n % 0x100) as u8,
    ];
    assert(out@ =~= u32_be(n));
    out
}

/// Reads a big-endian `u32` at `pos`; `None` when fewer than four bytes are left.
pub fn read_u32(buf: &[u8], pos: usize) -> (out: Option<u32>)
    ensures
        match out {
            Some(n) => pos + 4 <= buf@.len() && n == be_u32_at(buf@, pos as int),
            None => pos + 4 > buf@.len(),
        },
{
    if pos > buf.len() || buf.len() - pos < 4 {
        return None;
    }
    let b0 = buf[pos] as u32;
    let b1 = buf[pos + 1] as u32;
    let b2 = buf[pos + 2] as u32;
    let b3 = buf[pos + 3] as u32;
    Some(b0 * 0x100_0000 + b1 * 0x1_0000 + b2 * 0x100 + b3)
}

/// Reads `len` bytes at `pos`; `None` when fewer than `len` bytes are left.
pub fn read_bytes(buf: &[u8], pos: usize, len: usize) -> (out: Option<Vec<u8>>)
    ensures
        match out {
            Some(v) => pos + len <= buf@.len() && v@ == buf@.subrange(pos as int, pos + len),
            None => pos + len > buf@.len(),
        },
{
    if pos > buf.len() || buf.len() - pos < len {
        return None;
    }
    let mut v: Vec<u8> = Vec::with_capacity(len);
    let mut i: usize = 0;
    while i < len
        invariant
            i <= len,
            pos + len <= buf.len(),
            v@ == buf@.subrange(pos as int, pos + i),
        decreases len - i,
    {
        v.push(buf[pos + i]);
        i += 1;
        assert(v@ =~= buf@.subrange(pos as int, pos + i));
    }
    Some(v)
}

/// Appends all of `src` to `dst`.
pub fn extend_bytes(dst: &mut Vec<u8>, src: &[u8])
    ensures
        final(dst)@ == old(dst)@ + src@,
{
    let mut i: usize = 0;
    while i < src.len()
        invariant
            i <= src@.len(),
            dst@ == old(dst)@ + src@.subrange(0, i as int),
        decreases src@.len() - i,
    {
        dst.push(src[i]);
        i += 1;
        assert(dst@ =~= old(dst)@ + src@.subrange(0, i as int));
    }
    assert(src@.subrange(0, src@.len() as int) =~= src@);
}

/// The bytes of one record for `key` and `value`; each length is written
/// as a `u32`, truncated where it does not fit.
pub fn encode_record(key: &[u8], value: &[u8]) -> (out: Vec<u8>)
    ensures
        out@ == record_bytes(key@, value@),
{
    let mut out: Vec<u8> = Vec::new();
    let klen = encode_u32(key.len() as u32);
    let vlen = encode_u32(value.len() as u32);
    extend_bytes(&mut out, &klen);
    extend_bytes(&mut out, &vlen);
    extend_bytes(&mut out, key);
    extend_bytes(&mut out, value);
    assert(out@ =~= record_bytes(key@, value@));
    out
}

/// The records that recovery finds in `bytes` from `pos` on, each as its
/// key, the offset of its value and the length of its value. Reading stops
/// at the first record that is not complete: a torn record at the end of a
/// segment is discarded.
pub open spec fn parse_from(bytes: Seq<u8>, pos: int) -> Seq<(Seq<u8>, int, int)>
    decreases bytes.len() - pos,
{
    if pos < 0 || pos + 8 > bytes.len() {
        Seq::empty()
    } else {
        let klen = be_u32_at(bytes, pos);
        let vlen = be_u32_at(bytes, pos + 4);
        let voff = pos + 8 + klen;
        if voff + vlen > bytes.len() {
            Seq::empty()
        } else {
            seq![(bytes.subrange(pos + 8, voff), voff, vlen)] + parse_from(bytes, voff + vlen)
        }
    }
}

/// The records that recovery finds in a whole segment.
pub open spec fn parse_segment_spec(bytes: Seq<u8>) -> Seq<(Seq<u8>, int, int)> {
    parse_from(bytes, 0)
}

/// A record found in a segment: its key, and where its value lies.
pub struct Record {
    pub key: Vec<u8>,
    pub value_offset: u64,
    pub value_len: usize,
}

impl View for Record {
    type V = (Seq<u8>, int, int);

    open spec fn view(&self) -> (Seq<u8>, int, int) {
        (self.key@, self.value_offset as int, self.value_len as int)
    }
}

/// The views of a sequence of records.
pub open spec fn records_view(recs: Seq<Record>) -> Seq<(Seq<u8>, int, int)> {
    recs.map_values(|r: Record| r@)
}

/// Reads the complete records of a segment, in order, and stops at the
/// first record that is cut short.
pub fn parse_segment(bytes: &[u8]) -> (out: Vec<Record>)
    ensures
        records_view(out@) == parse_segment_spec(bytes@),
{
    let mut out: Vec<Record> = Vec::new();
    let mut pos: usize = 0;
    let len = bytes.len();
    assert(records_view(out@) =~= Seq::<(Seq<u8>, int, int)>::empty());
    while pos < len
        invariant
            len == bytes@.len(),
            pos <= len,
            parse_from(bytes@, 0) == records_view(out@) + parse_from(bytes@, pos as int),
        ensures
            parse_from(bytes@, 0) == records_view(out@) + parse_from(bytes@, pos as int),
            parse_from(bytes@, pos as int) =~= Seq::<(Seq<u8>, int, int)>::empty(),
        decreases len - pos,
    {
        let klen = match read_u32(bytes, pos) {
            Some(n) => n as usize,
            None => break,
        };
        let vlen = match read_u32(bytes, pos + 4) {
            Some(n) => n as usize,
            None => break,
        };
        if klen > len - pos - 8 {
            break;
        }
        let voff = pos + 8 + klen;
        if vlen > len - voff {
            break;
        }
        let key = match read_bytes(bytes, pos + 8, klen) {
            Some(k) => k,
            None => break,
        };
        let ghost old_out = out@;
        let rec = Record { key, value_offset: voff as u64, value_len: vlen };
        out.push(rec);
        assert(records_view(out@) =~= records_view(old_out).push(rec@));
        assert(parse_from(bytes@, pos as int) =~= seq![rec@] + parse_from(bytes@, (voff + vlen) as int));
        pos = voff + vlen;
        assert(parse_from(bytes@, 0) =~= records_view(out@) + parse_from(bytes@, pos as int));
    }
    assert(parse_from(bytes@, pos as int) =~= Seq::<(Seq<u8>, int, int)>::empty());
    assert(records_view(out@) =~= parse_from(bytes@, 0));
    out
}

/// Every key and value of `w` has a length that fits in a `u32`, so each
/// record header states the true lengths.
pub open spec fn writes_fit(w: Seq<(Seq<u8>, Seq<u8>)>) -> bool {
    forall|i: int|
        0 <= i < w.len() ==> #[trigger] w[i].0.len() <= u32::MAX && w[i].1.len() <= u32::MAX
}

/// The segment bytes written by appending one record per write, in order.
pub open spec fn log_of(w: Seq<(Seq<u8>, Seq<u8>)>) -> Seq<u8>
    decreases w.len(),
{
    if w.len() == 0 {
        Seq::empty()
    } else {
        record_bytes(w[0].0, w[0].1) + log_of(w.drop_first())
    }
}

/// For each write, its key and where its value lies, when the log of `w`
/// starts at offset `p` of the segment.
pub open spec fn located_at(w: Seq<(Seq<u8>, Seq<u8>)>, p: int) -> Seq<(Seq<u8>, int, int)>
    decreases w.len(),
{
    if w.len() == 0 {
        Seq::empty()
    } else {
        seq![(w[0].0, p + 8 + w[0].0.len(), w[0].1.len() as int)] + located_at(
            w.drop_first(),
            p + record_bytes(w[0].0, w[0].1).len(),
        )
    }
}

proof fn lemma_be_u32_at_same(a: Seq<u8>, i: int, b: Seq<u8>, j: int)
    requires
        0 <= i,
        i + 4 <= a.len(),
        0 <= j,
        j + 4 <= b.len(),
        a[i] == b[j],
        a[i + 1] == b[j + 1],
        a[i + 2] == b[j + 2],
        a[i + 3] == b[j + 3],
    ensures
        be_u32_at(a, i) == be_u32_at(b, j),
{
}

/// A record is its eight header bytes, its key and its value.
pub proof fn lemma_record_len(k: Seq<u8>, v: Seq<u8>)
    ensures
        record_bytes(k, v).len() == 8 + k.len() + v.len(),
{
}

proof fn lemma_record_header(k: Seq<u8>, v: Seq<u8>)
    requires
        k.len() <= u32::MAX,
        v.len() <= u32::MAX,
    ensures
        record_bytes(k, v).len() == 8 + k.len() + v.len(),
        be_u32_at(record_bytes(k, v), 0) == k.len(),
        be_u32_at(record_bytes(k, v), 4) == v.len(),
        record_bytes(k, v).subrange(8, 8 + k.len() as int) == k,
        record_bytes(k, v).subrange(8 + k.len() as int, 8 + k.len() + v.len() as int) == v,
{
    let r = record_bytes(k, v);
    let a = u32_be(k.len() as u32);
    let c = u32_be(v.len() as u32);
    lemma_u32_be_roundtrip(k.len() as u32);
    lemma_u32_be_roundtrip(v.len() as u32);
    lemma_be_u32_at_same(r, 0, a, 0);
    lemma_be_u32_at_same(r, 4, c, 0);
    assert(r.subrange(8, 8 + k.len() as int) =~= k);
    assert(r.subrange(8 + k.len() as int, 8 + k.len() + v.len() as int) =~= v);
}

/// Reading a segment at the start of a complete record finds that record
/// and goes on right after it.
pub proof fn lemma_parse_record(b: Seq<u8>, p: int, k: Seq<u8>, v: Seq<u8>)
    requires
        0 <= p,
        k.len() <= u32::MAX,
        v.len() <= u32::MAX,
        p + record_bytes(k, v).len() <= b.len(),
        b.subrange(p, p + record_bytes(k, v).len()) == record_bytes(k, v),
    ensures
        parse_from(b, p) == seq![(k, p + 8 + k.len(), v.len() as int)] + parse_from(
            b,
            p + record_bytes(k, v).len(),
        ),
{
    let r = record_bytes(k, v);
    lemma_record_header(k, v);
    let sub = b.subrange(p, p + r.len());
    assert forall|t: int| 0 <= t < r.len() implies b[p + t] == r[t] by {
        assert(sub[t] == b[p + t]);
    }
    lemma_be_u32_at_same(b, p, r, 0);
    lemma_be_u32_at_same(b, p + 4, r, 4);
    assert(b.subrange(p + 8, p + 8 + k.len()) =~= k) by {
        assert forall|t: int| 0 <= t < k.len() implies b.subrange(p + 8, p + 8 + k.len())[t]
            == k[t] by {
            assert(r[8 + t] == r.subrange(8, 8 + k.len() as int)[t]);
        }
    }
}

/// Reading a segment where the log of `w` stands at offset `p` finds the
/// records of `w`, each with its key and the place of its value, and goes
/// on after the log. Each found place holds the value that was written.
pub proof fn lemma_parse_log(b: Seq<u8>, p: int, w: Seq<(Seq<u8>, Seq<u8>)>)
    requires
        0 <= p,
        writes_fit(w),
        p + log_of(w).len() <= b.len(),
        b.subrange(p, p + log_of(w).len()) == log_of(w),
    ensures
        parse_from(b, p) == located_at(w, p) + parse_from(b, p + log_of(w).len()),
        located_at(w, p).len() == w.len(),
        forall|i: int|
            0 <= i < w.len() ==> {
                let loc = #[trigger] located_at(w, p)[i];
                &&& loc.0 == w[i].0
                &&& loc.2 == w[i].1.len()
                &&& p <= loc.1
                &&& loc.1 + loc.2 <= p + log_of(w).len()
                &&& b.subrange(loc.1, loc.1 + loc.2) == w[i].1
            },
    decreases w.len(),
{
    if w.len() > 0 {
        let k = w[0].0;
        let v = w[0].1;
        let r = record_bytes(k, v);
        let rest = w.drop_first();
        let lg = log_of(w);
        assert(w[0].0.len() <= u32::MAX && w[0].1.len() <= u32::MAX);
        lemma_record_header(k, v);
        assert(lg == r + log_of(rest));
        assert(b.subrange(p, p + r.len()) =~= r) by {
            assert forall|t: int| 0 <= t < r.len() implies b.subrange(p, p + r.len())[t] == r[t] by {
                assert(b.subrange(p, p + lg.len())[t] == lg[t]);
            }
        }
        lemma_parse_record(b, p, k, v);
        assert(writes_fit(rest)) by {
            assert forall|i: int| 0 <= i < rest.len() implies #[trigger] rest[i].0.len()
                <= u32::MAX && rest[i].1.len() <= u32::MAX by {
                assert(rest[i] == w[i + 1]);
            }
        }
        let q = p + r.len();
        assert(b.subrange(q, q + log_of(rest).len()) =~= log_of(rest)) by {
            assert forall|t: int| 0 <= t < log_of(rest).len() implies b.subrange(
                q,
                q + log_of(rest).len(),
            )[t] == log_of(rest)[t] by {
                assert(b.subrange(p, p + lg.len())[r.len() + t] == lg[r.len() + t]);
            }
        }
        lemma_parse_log(b, q, rest);
        let locs = located_at(w, p);
        assert(locs == seq![(k, p + 8 + k.len(), v.len() as int)] + located_at(rest, q));
        assert(parse_from(b, p) =~= locs + parse_from(b, p + lg.len()));
        assert forall|i: int| 0 <= i < w.len() implies {
            let loc = #[trigger] located_at(w, p)[i];
            &&& loc.0 == w[i].0
            &&& loc.2 == w[i].1.len()
            &&& p <= loc.1
            &&& loc.1 + loc.2 <= p + log_of(w).len()
            &&& b.subrange(loc.1, loc.1 + loc.2) == w[i].1
        } by {
            if i == 0 {
                assert(b.subrange(p + 8 + k.len(), p + 8 + k.len() + v.len()) =~= v) by {
                    assert forall|t: int| 0 <= t < v.len() implies b.subrange(
                        p + 8 + k.len(),
                        p + 8 + k.len() + v.len(),
                    )[t] == v[t] by {
                        assert(b.subrange(p, p + r.len())[8 + k.len() + t] == r[8 + k.len() + t]);
                        assert(r.subrange(8 + k.len() as int, 8 + k.len() + v.len() as int)[t] == r[8
                            + k.len() + t]);
                    }
                }
            } else {
                assert(locs[i] == located_at(rest, q)[i - 1]);
                assert(rest[i - 1] == w[i]);
            }
        }
    }
}

/// Every record that recovery finds lies inside the segment, and its value
/// length fits in a `u32`.
pub proof fn lemma_parse_from_within(b: Seq<u8>, p: int)
    ensures
        forall|i: int|
            0 <= i < parse_from(b, p).len() ==> {
                let r = #[trigger] parse_from(b, p)[i];
                &&& p <= r.1
                &&& 0 <= r.2 <= u32::MAX
                &&& r.1 + r.2 <= b.len()
            },
    decreases b.len() - p,
{
    if !(p < 0 || p + 8 > b.len()) {
        let klen = be_u32_at(b, p);
        let vlen = be_u32_at(b, p + 4);
        let voff = p + 8 + klen;
        if voff + vlen <= b.len() {
            lemma_parse_from_within(b, voff + vlen);
            let rest = parse_from(b, voff + vlen);
            let all = parse_from(b, p);
            assert(all == seq![(b.subrange(p + 8, voff), voff, vlen)] + rest);
            assert(vlen <= u32::MAX);
            assert forall|i: int| 0 <= i < all.len() implies {
                let r = #[trigger] all[i];
                &&& p <= r.1
                &&& 0 <= r.2 <= u32::MAX
                &&& r.1 + r.2 <= b.len()
            } by {
                if i > 0 {
                    assert(all[i] == rest[i - 1]);
                }
            }
        }
    }
}

/// A segment written as a sequence of records reads back as those records:
/// recovery finds every record, in order, and each found place holds the
/// value that was written.
pub proof fn lemma_written_log_recovers(w: Seq<(Seq<u8>, Seq<u8>)>)
    requires
        writes_fit(w),
    ensures
        parse_segment_spec(log_of(w)) == located_at(w, 0),
        located_at(w, 0).len() == w.len(),
        forall|i: int|
            0 <= i < w.len() ==> {
                let loc = #[trigger] located_at(w, 0)[i];
                &&& loc.0 == w[i].0
                &&& loc.2 == w[i].1.len()
                &&& 0 <= loc.1
                &&& loc.1 + loc.2 <= log_of(w).len()
                &&& log_of(w).subrange(loc.1, loc.1 + loc.2) == w[i].1
            },
{
    let lg = log_of(w);
    assert(lg.subrange(0, lg.len() as int) =~= lg);
    lemma_parse_log(lg, 0, w);
    assert(parse_from(lg, lg.len() as int) =~= Seq::<(Seq<u8>, int, int)>::empty());
    assert(located_at(w, 0) + Seq::<(Seq<u8>, int, int)>::empty() =~= located_at(w, 0));
}

/// A record cut short at the end of a segment, as a crash in the middle of
/// a write leaves it, is discarded: recovery finds exactly the records
/// before it.
pub proof fn lemma_torn_tail_discarded(
    w: Seq<(Seq<u8>, Seq<u8>)>,
    k: Seq<u8>,
    v: Seq<u8>,
    n: int,
)
    requires
        writes_fit(w),
        k.len() <= u32::MAX,
        v.len() <= u32::MAX,
        0 <= n < record_bytes(k, v).len(),
    ensures
        parse_segment_spec(log_of(w) + record_bytes(k, v).subrange(0, n)) == parse_segment_spec(
            log_of(w),
        ),
{
    let lg = log_of(w);
    let r = record_bytes(k, v);
    let b = lg + r.subrange(0, n);
    let l = lg.len() as int;
    lemma_written_log_recovers(w);
    assert(b.subrange(0, l) =~= lg);
    lemma_parse_log(b, 0, w);
    lemma_record_header(k, v);
    if n >= 8 {
        assert forall|t: int| 0 <= t < 8 implies b[l + t] == r[t] by {
            assert(b[l + t] == r.subrange(0, n)[t]);
        }
        lemma_be_u32_at_same(b, l, r, 0);
        lemma_be_u32_at_same(b, l + 4, r, 4);
    }
    assert(parse_from(b, l) =~= Seq::<(Seq<u8>, int, int)>::empty());
    assert(located_at(w, 0) + Seq::<(Seq<u8>, int, int)>::empty() =~= located_at(w, 0));
}

/// Appending a write to a log appends its record, and its value is found
/// right after the old end of the log, past the header and the key: the
/// offset that the writer hands back for it.
pub proof fn lemma_located_append(w: Seq<(Seq<u8>, Seq<u8>)>, k: Seq<u8>, v: Seq<u8>, p: int)
    ensures
        log_of(w.push((k, v))) == log_of(w) + record_bytes(k, v),
        located_at(w.push((k, v)), p) == located_at(w, p).push(
            (k, p + log_of(w).len() + 8 + k.len(), v.len() as int),
        ),
    decreases w.len(),
{
    let x = (k, v);
    let wx = w.push(x);
    if w.len() == 0 {
        assert(wx.drop_first() =~= Seq::<(Seq<u8>, Seq<u8>)>::empty());
        assert(log_of(wx.drop_first()) == Seq::<u8>::empty());
        assert(log_of(w) == Seq::<u8>::empty());
        assert(located_at(wx.drop_first(), p + record_bytes(k, v).len()) == Seq::<(Seq<u8>, int, int)>::empty());
        assert(located_at(w, p) == Seq::<(Seq<u8>, int, int)>::empty());
        assert(wx[0] == x);
        assert(log_of(wx) =~= record_bytes(k, v));
        assert(located_at(wx, p) =~= seq![(k, p + 8 + k.len(), v.len() as int)]);
    } else {
        let r = record_bytes(w[0].0, w[0].1);
        assert(wx.drop_first() =~= w.drop_first().push(x));
        assert(wx[0] == w[0]);
        lemma_located_append(w.drop_first(), k, v, p + r.len());
        assert(log_of(wx) =~= log_of(w) + record_bytes(k, v));
        assert(located_at(wx, p) =~= located_at(w, p).push(
            (k, p + log_of(w).len() + 8 + k.len(), v.len() as int),
        ));
    }
}

} // verus!
