//! Segments: chunk-framed blocks, the writer, the iterator, and footers.
//!
//! A segment file is a run of fixed-size blocks. Each block holds chunks laid
//! end to end; a chunk is a 9-byte header (CRC-32, payload length, type tag)
//! followed by its payload, and every byte past the last chunk of a block is
//! zero, so the next type byte reads as `Null`.

use vstd::arithmetic::div_mod::{lemma_fundamental_div_mod, lemma_small_mod};
use vstd::bytes::{
    lemma_auto_spec_u32_to_from_le_bytes, lemma_auto_spec_u64_to_from_le_bytes,
    spec_u32_from_le_bytes, spec_u32_to_le_bytes, spec_u64_from_le_bytes, spec_u64_to_le_bytes,
};
use vstd::prelude::*;
use vstd::slice::{slice_index_get, slice_subrange};

use crate::codec::{calculate_crc, chunk_type_byte, crc32_of, splice, write_u32, ChunkType, Error,
    Persistable, CRC_OFFSET, LEN_OFFSET, NUM_HEADER_BYTES, PAYLOAD_OFFSET, TYPE_OFFSET};

verus! {

/// One framed record of a block, at the ghost level: a type byte and payload.
pub struct Chunk {
    pub ty: u8,
    pub payload: Seq<u8>,
}

/// The payload length stored in the chunk header at `o`.
pub open spec fn chunk_len_at(b: Seq<u8>, o: int) -> int {
    spec_u32_from_le_bytes(b.subrange(o + 4, o + 8)) as int
}

/// First byte past the chunk that starts at `o`.
pub open spec fn chunk_end_at(b: Seq<u8>, o: int) -> int {
    o + 9 + chunk_len_at(b, o)
}

/// A chunk (non-`Null` type, in bounds) starts at `o`.
pub open spec fn has_chunk_at(b: Seq<u8>, o: int) -> bool {
    &&& 0 <= o
    &&& o + 9 <= b.len()
    &&& b[o + 8] != 0
    &&& chunk_end_at(b, o) <= b.len()
}

/// The chunk that starts at `o`.
pub open spec fn chunk_at(b: Seq<u8>, o: int) -> Chunk {
    Chunk { ty: b[o + 8], payload: b.subrange(o + 9, chunk_end_at(b, o)) }
}

/// The stored CRC at `o` equals the CRC-32 of the framed bytes
/// `[o + 4, end_of_chunk)`: length field, type byte and payload.
pub open spec fn chunk_crc_ok(b: Seq<u8>, o: int) -> bool {
    spec_u32_from_le_bytes(b.subrange(o, o + 4)) == crc32_of(
        b.subrange(o + 4, chunk_end_at(b, o)),
    )
}

/// The chunks laid end to end from `o` to the first `Null` byte or the end
/// of the block.
pub open spec fn parse_chunks(b: Seq<u8>, o: int) -> Seq<Chunk>
    decreases b.len() - o,
{
    if !has_chunk_at(b, o) {
        Seq::empty()
    } else {
        seq![chunk_at(b, o)] + parse_chunks(b, chunk_end_at(b, o))
    }
}

/// Where the chunks starting at `o` stop.
pub open spec fn parse_end(b: Seq<u8>, o: int) -> int
    decreases b.len() - o,
{
    if !has_chunk_at(b, o) {
        o
    } else {
        parse_end(b, chunk_end_at(b, o))
    }
}

/// A well-formed block tail from `o` on: valid chunks with correct CRCs laid
/// end to end, then zeros to the end of the block.
pub open spec fn wf_from(b: Seq<u8>, o: int) -> bool
    decreases b.len() - o,
{
    if 0 <= o && o + 9 <= b.len() && b[o + 8] != 0 {
        &&& b[o + 8] <= 4
        &&& chunk_len_at(b, o) >= 1
        &&& chunk_end_at(b, o) <= b.len()
        &&& chunk_crc_ok(b, o)
        &&& wf_from(b, chunk_end_at(b, o))
    } else {
        forall|i: int| o <= i < b.len() ==> b[i] == 0
    }
}

pub proof fn lemma_parse_end_bounds(b: Seq<u8>, o: int)
    requires
        0 <= o <= b.len(),
    ensures
        o <= parse_end(b, o) <= b.len(),
    decreases b.len() - o,
{
    if has_chunk_at(b, o) {
        lemma_parse_end_bounds(b, chunk_end_at(b, o));
    }
}

pub proof fn lemma_parse_end_stop(b: Seq<u8>, o: int)
    requires
        0 <= o <= b.len(),
    ensures
        !has_chunk_at(b, parse_end(b, o)),
        parse_chunks(b, parse_end(b, o)) == Seq::<Chunk>::empty(),
    decreases b.len() - o,
{
    if has_chunk_at(b, o) {
        lemma_parse_end_stop(b, chunk_end_at(b, o));
    }
}

/// Well-formedness carries along the parse chain to its stop position.
pub proof fn lemma_wf_chain(b: Seq<u8>, o: int)
    requires
        0 <= o <= b.len(),
        wf_from(b, o),
    ensures
        wf_from(b, parse_end(b, o)),
    decreases b.len() - o,
{
    if has_chunk_at(b, o) {
        lemma_wf_chain(b, chunk_end_at(b, o));
    }
}

/// Parsing reads only the bytes up to `parse_end`: a second block that agrees
/// with a well-formed one on that range parses to the same chunks followed by
/// whatever it holds from there on.
pub proof fn lemma_parse_agree(b1: Seq<u8>, b2: Seq<u8>, o: int)
    requires
        b1.len() == b2.len(),
        0 <= o <= b1.len(),
        wf_from(b1, o),
        forall|i: int| o <= i < parse_end(b1, o) ==> b1[i] == b2[i],
    ensures
        parse_chunks(b2, o) == parse_chunks(b1, o) + parse_chunks(b2, parse_end(b1, o)),
        parse_end(b2, o) == parse_end(b2, parse_end(b1, o)),
        wf_from(b2, parse_end(b1, o)) ==> wf_from(b2, o),
        wf_from(b2, o) ==> wf_from(b2, parse_end(b1, o)),
    decreases b1.len() - o,
{
    let e1 = parse_end(b1, o);
    lemma_parse_end_bounds(b1, o);
    if has_chunk_at(b1, o) {
        let end = chunk_end_at(b1, o);
        lemma_parse_end_bounds(b1, end);
        assert(parse_end(b1, end) == e1);
        assert(end <= e1);
        assert(b1.subrange(o + 4, o + 8) =~= b2.subrange(o + 4, o + 8));
        assert(chunk_len_at(b2, o) == chunk_len_at(b1, o));
        assert(b2[o + 8] == b1[o + 8]);
        assert(has_chunk_at(b2, o));
        assert(chunk_end_at(b2, o) == end);
        assert(b1.subrange(o + 9, end) =~= b2.subrange(o + 9, end));
        assert(chunk_at(b2, o) == chunk_at(b1, o));
        assert(b1.subrange(o, o + 4) =~= b2.subrange(o, o + 4));
        assert(b1.subrange(o + 4, end) =~= b2.subrange(o + 4, end));
        lemma_parse_agree(b1, b2, end);
        assert(parse_chunks(b2, o) =~= parse_chunks(b1, o) + parse_chunks(b2, e1));
        assert(chunk_crc_ok(b1, o) ==> chunk_crc_ok(b2, o));
    } else {
        assert(e1 == o);
        assert(parse_chunks(b1, o) == Seq::<Chunk>::empty());
        assert(parse_chunks(b2, o) =~= parse_chunks(b1, o) + parse_chunks(b2, e1));
    }
}

/// The little-endian length, the type byte, and the payload of one chunk.
pub open spec fn chunk_body(payload: Seq<u8>, ty: u8) -> Seq<u8> {
    spec_u32_to_le_bytes(payload.len() as u32) + seq![ty] + payload
}

/// A whole framed chunk: CRC over the body, then the body.
pub open spec fn chunk_bytes(payload: Seq<u8>, ty: u8) -> Seq<u8> {
    spec_u32_to_le_bytes(crc32_of(chunk_body(payload, ty))) + chunk_body(payload, ty)
}

/// Writing one framed chunk into the zero tail of a well-formed block
/// appends exactly that chunk to the block's parse.
pub proof fn lemma_block_append_chunk(b1: Seq<u8>, b2: Seq<u8>, ty: u8, payload: Seq<u8>)
    requires
        wf_from(b1, 0),
        1 <= ty <= 4,
        1 <= payload.len() <= u32::MAX,
        parse_end(b1, 0) + 9 + payload.len() <= b1.len(),
        b2 == splice(b1, parse_end(b1, 0), chunk_bytes(payload, ty)),
    ensures
        b2.len() == b1.len(),
        wf_from(b2, 0),
        parse_chunks(b2, 0) == parse_chunks(b1, 0).push(Chunk { ty, payload }),
        parse_end(b2, 0) == parse_end(b1, 0) + 9 + payload.len(),
{
    lemma_auto_spec_u32_to_from_le_bytes();
    let e = parse_end(b1, 0);
    let cb = chunk_bytes(payload, ty);
    let end2 = e + 9 + payload.len();
    lemma_parse_end_bounds(b1, 0);
    lemma_parse_end_stop(b1, 0);
    assert(cb.len() == 9 + payload.len());
    assert(b2.len() == b1.len()) by {
        assert(b2 == b1.take(e) + cb + b1.skip(end2));
    }
    assert forall|i: int| 0 <= i < e implies b1[i] == b2[i] by {
        assert(b2[i] == b1.take(e)[i]);
    }
    // the new chunk's bytes
    assert(b2.subrange(e, end2) =~= cb);
    assert(b2.subrange(e + 4, e + 8) =~= spec_u32_to_le_bytes(payload.len() as u32)) by {
        assert forall|i: int| 0 <= i < 4 implies #[trigger] b2.subrange(e + 4, e + 8)[i]
            == spec_u32_to_le_bytes(payload.len() as u32)[i] by {
            assert(b2[e + 4 + i] == cb[4 + i]);
        }
    }
    assert(chunk_len_at(b2, e) == payload.len());
    assert(b2[e + 8] == cb[8]);
    assert(cb[8] == ty);
    assert(has_chunk_at(b2, e));
    assert(chunk_end_at(b2, e) == end2);
    assert(b2.subrange(e + 9, end2) =~= payload) by {
        assert forall|i: int| 0 <= i < payload.len() implies #[trigger] b2.subrange(e + 9, end2)[i]
            == payload[i] by {
            assert(b2[e + 9 + i] == cb[9 + i]);
        }
    }
    assert(chunk_at(b2, e) == Chunk { ty, payload });
    // zeros past the new chunk
    lemma_wf_chain(b1, 0);
    assert(wf_from(b1, e));
    assert forall|i: int| end2 <= i < b2.len() implies b2[i] == 0 by {
        assert(b2[i] == b1.skip(end2)[i - end2]);
        assert(b1[i] == 0);
    }
    // so parsing b2 from end2 stops at once
    assert(!has_chunk_at(b2, end2)) by {
        if end2 + 9 <= b2.len() {
            assert(b2[end2 + 8] == 0);
        }
    }
    assert(parse_chunks(b2, end2) == Seq::<Chunk>::empty());
    assert(parse_end(b2, end2) == end2);
    assert(wf_from(b2, end2)) by {
        if 0 <= end2 && end2 + 9 <= b2.len() && b2[end2 + 8] != 0 {
            assert(false);
        }
    }
    // the new chunk is well formed where it stands
    assert(b2.subrange(e, e + 4) =~= spec_u32_to_le_bytes(crc32_of(chunk_body(payload, ty)))) by {
        assert forall|i: int| 0 <= i < 4 implies #[trigger] b2.subrange(e, e + 4)[i]
            == spec_u32_to_le_bytes(crc32_of(chunk_body(payload, ty)))[i] by {
            assert(b2[e + i] == cb[i]);
        }
    }
    assert(b2.subrange(e + 4, end2) =~= chunk_body(payload, ty)) by {
        assert forall|i: int| 0 <= i < 5 + payload.len() implies #[trigger] b2.subrange(e + 4, end2)[i]
            == chunk_body(payload, ty)[i] by {
            assert(b2[e + 4 + i] == cb[4 + i]);
        }
    }
    assert(chunk_crc_ok(b2, e));
    assert(wf_from(b2, e));
    assert(parse_chunks(b2, e) =~= seq![Chunk { ty, payload }]);
    assert(parse_end(b2, e) == end2);
    lemma_parse_agree(b1, b2, 0);
    assert(wf_from(b2, 0));
    assert(parse_chunks(b2, 0) =~= parse_chunks(b1, 0).push(Chunk { ty, payload }));
    assert(parse_end(b2, 0) == end2);
}

/// The chunks of a segment's data region: each block's chunks in block order.
pub open spec fn segment_chunks(f: Seq<u8>, bs: int) -> Seq<Chunk>
    decreases f.len(),
{
    if bs < 1 || f.len() < bs {
        Seq::empty()
    } else {
        parse_chunks(f.take(bs), 0) + segment_chunks(f.skip(bs), bs)
    }
}

/// Splitting a block-aligned file splits its chunk stream.
pub proof fn lemma_segment_chunks_split(f: Seq<u8>, bs: int, m: int)
    requires
        bs >= 1,
        0 <= m <= f.len(),
        m % bs == 0,
    ensures
        segment_chunks(f, bs) == segment_chunks(f.take(m), bs) + segment_chunks(f.skip(m), bs),
    decreases m,
{
    if m == 0 {
        assert(f.take(0).len() == 0);
        assert(f.skip(0) =~= f);
        assert(segment_chunks(f, bs) =~= segment_chunks(f.take(0), bs) + segment_chunks(
            f.skip(0),
            bs,
        ));
    } else {
        if m < bs {
            lemma_small_mod(m as nat, bs as nat);
            assert(false);
        }
        assert(f.take(m).take(bs) =~= f.take(bs));
        assert(f.take(m).skip(bs) =~= f.skip(bs).take(m - bs));
        assert(f.skip(m) =~= f.skip(bs).skip(m - bs));
        assert((m - bs) % bs == 0) by {
            lemma_fundamental_div_mod(m, bs);
            let q = m / bs;
            assert(m == bs * q);
            assert(m - bs == bs * (q - 1)) by (nonlinear_arith)
                requires
                    m == bs * q,
            ;
            assert((bs * (q - 1)) % bs == 0) by {
                vstd::arithmetic::div_mod::lemma_mod_multiples_basic(q - 1, bs);
            }
        }
        lemma_segment_chunks_split(f.skip(bs), bs, m - bs);
        assert(segment_chunks(f, bs) =~= segment_chunks(f.take(m), bs) + segment_chunks(
            f.skip(m),
            bs,
        ));
    }
}

/// Appending one block appends its chunks to the stream.
pub proof fn lemma_segment_chunks_snoc(f: Seq<u8>, b: Seq<u8>, bs: int)
    requires
        bs >= 1,
        f.len() as int % bs == 0,
        b.len() == bs,
    ensures
        segment_chunks(f + b, bs) == segment_chunks(f, bs) + parse_chunks(b, 0),
{
    let g = f + b;
    assert(g.len() == f.len() + bs);
    assert(f.len() as int % bs == 0);
    lemma_segment_chunks_split(g, bs, f.len() as int);
    assert(g.take(f.len() as int) =~= f);
    assert(g.skip(f.len() as int) =~= b);
    assert(segment_chunks(b, bs) =~= parse_chunks(b, 0)) by {
        assert(b.take(bs) =~= b);
        assert(b.skip(bs).len() == 0);
        assert(segment_chunks(b.skip(bs), bs) == Seq::<Chunk>::empty());
    }
}

/// A well-formed segment data region: block-aligned, every block well
/// formed, and only the last block below chunk capacity.
pub open spec fn wf_segment_data(f: Seq<u8>, bs: int) -> bool {
    &&& 10 <= bs <= u32::MAX
    &&& f.len() as int % bs == 0
    &&& forall|i: int|
        0 <= i && (i + 1) * bs <= f.len() ==> wf_from(#[trigger] f.subrange(i * bs, (i + 1) * bs), 0)
    &&& forall|i: int|
        0 <= i && (i + 2) * bs <= f.len() ==> parse_end(
            #[trigger] f.subrange(i * bs, (i + 1) * bs),
            0,
        ) + 9 >= bs
}

// ---------------------------------------------------------------------------
// Assembling messages from a chunk stream.
// ---------------------------------------------------------------------------

/// State of a left-to-right walk over a chunk stream: messages emitted so
/// far, the partial payload of an unfinished message, whether a message is
/// open, and whether the stream has been valid so far.
pub struct ScanState {
    pub msgs: Seq<Seq<u8>>,
    pub cur: Seq<u8>,
    pub in_msg: bool,
    pub ok: bool,
}

pub open spec fn scan_init() -> ScanState {
    ScanState { msgs: Seq::empty(), cur: Seq::empty(), in_msg: false, ok: true }
}

/// One chunk: `Full` emits its payload; `Start` opens a message; `Middle`
/// extends it; `End` emits the assembled payload. Anything else is invalid.
pub open spec fn scan_step(st: ScanState, c: Chunk) -> ScanState {
    if !st.ok {
        st
    } else if c.payload.len() == 0 {
        ScanState { msgs: st.msgs, cur: st.cur, in_msg: st.in_msg, ok: false }
    } else if c.ty == 1 && !st.in_msg {
        ScanState { msgs: st.msgs.push(c.payload), cur: st.cur, in_msg: false, ok: true }
    } else if c.ty == 2 && !st.in_msg {
        ScanState { msgs: st.msgs, cur: c.payload, in_msg: true, ok: true }
    } else if c.ty == 3 && st.in_msg {
        ScanState { msgs: st.msgs, cur: st.cur + c.payload, in_msg: true, ok: true }
    } else if c.ty == 4 && st.in_msg {
        ScanState { msgs: st.msgs.push(st.cur + c.payload), cur: Seq::empty(), in_msg: false, ok: true }
    } else {
        ScanState { msgs: st.msgs, cur: st.cur, in_msg: st.in_msg, ok: false }
    }
}

pub open spec fn scan(chunks: Seq<Chunk>, st: ScanState) -> ScanState
    decreases chunks.len(),
{
    if chunks.len() == 0 {
        st
    } else {
        scan(chunks.drop_first(), scan_step(st, chunks[0]))
    }
}

pub proof fn lemma_scan_snoc(chunks: Seq<Chunk>, c: Chunk, st: ScanState)
    ensures
        scan(chunks.push(c), st) == scan_step(scan(chunks, st), c),
    decreases chunks.len(),
{
    if chunks.len() == 0 {
        assert(chunks.push(c)[0] == c);
        assert(chunks.push(c).drop_first() =~= Seq::<Chunk>::empty());
        assert(scan(chunks.push(c), st) == scan(Seq::<Chunk>::empty(), scan_step(st, c)));
        assert(scan(chunks, st) == st);
    } else {
        assert(chunks.push(c)[0] == chunks[0]);
        assert(chunks.push(c).drop_first() =~= chunks.drop_first().push(c));
        lemma_scan_snoc(chunks.drop_first(), c, scan_step(st, chunks[0]));
        assert(scan(chunks.push(c), st) == scan(chunks.drop_first().push(c), scan_step(st, chunks[0])));
        assert(scan(chunks, st) == scan(chunks.drop_first(), scan_step(st, chunks[0])));
    }
}

pub proof fn lemma_scan_concat(s1: Seq<Chunk>, s2: Seq<Chunk>, st: ScanState)
    ensures
        scan(s1 + s2, st) == scan(s2, scan(s1, st)),
    decreases s1.len(),
{
    if s1.len() == 0 {
        assert(s1 + s2 =~= s2);
    } else {
        assert((s1 + s2)[0] == s1[0]);
        assert((s1 + s2).drop_first() =~= s1.drop_first() + s2);
        lemma_scan_concat(s1.drop_first(), s2, scan_step(st, s1[0]));
    }
}

/// A walk never drops or changes messages already emitted.
pub proof fn lemma_scan_msgs_grow(chunks: Seq<Chunk>, st: ScanState)
    ensures
        scan(chunks, st).msgs.len() >= st.msgs.len(),
        forall|i: int| 0 <= i < st.msgs.len() ==> scan(chunks, st).msgs[i] == st.msgs[i],
    decreases chunks.len(),
{
    if chunks.len() > 0 {
        let st1 = scan_step(st, chunks[0]);
        lemma_scan_msgs_grow(chunks.drop_first(), st1);
        assert(scan(chunks, st) == scan(chunks.drop_first(), st1));
        assert forall|i: int| 0 <= i < st.msgs.len() implies scan(chunks, st).msgs[i]
            == st.msgs[i] by {
            assert(st1.msgs[i] == st.msgs[i]);
            assert(scan(chunks.drop_first(), st1).msgs[i] == st1.msgs[i]);
        }
    }
}

pub proof fn lemma_scan_fail(chunks: Seq<Chunk>, st: ScanState)
    requires
        !st.ok,
    ensures
        scan(chunks, st) == st,
    decreases chunks.len(),
{
    if chunks.len() > 0 {
        lemma_scan_fail(chunks.drop_first(), st);
    }
}

/// The walk of a whole segment data region.
pub open spec fn segment_scan(f: Seq<u8>, bs: int) -> ScanState {
    scan(segment_chunks(f, bs), scan_init())
}

/// The messages a segment data region stores, in order.
pub open spec fn segment_messages(f: Seq<u8>, bs: int) -> Seq<Seq<u8>> {
    segment_scan(f, bs).msgs
}

/// A valid chunk stream with no unfinished trailing message.
pub open spec fn complete_segment(f: Seq<u8>, bs: int) -> bool {
    &&& segment_scan(f, bs).ok
    &&& !segment_scan(f, bs).in_msg
}

/// `f2` is `f1` written further: the blocks of `f1` are intact but for its
/// last, whose already-parsed bytes are intact, and `f2` may go on from
/// there.
pub open spec fn segment_extends(f2: Seq<u8>, f1: Seq<u8>, bs: int) -> bool {
    let n1 = f1.len() as int;
    &&& n1 <= f2.len()
    &&& (n1 > 0 ==> {
        let b1 = f1.subrange(n1 - bs, n1);
        let e1 = parse_end(b1, 0);
        &&& f2.subrange(0, n1 - bs) == f1.subrange(0, n1 - bs)
        &&& f2.subrange(n1 - bs, n1 - bs + e1) == b1.subrange(0, e1)
    })
}

/// Block-aligned lengths that differ, differ by at least one block.
proof fn lemma_aligned_diff(a: int, b: int, m: int)
    requires
        m >= 1,
        0 <= a <= b,
        a % m == 0,
        b % m == 0,
    ensures
        a < b ==> a + m <= b,
{
    if a < b {
        lemma_fundamental_div_mod(a, m);
        lemma_fundamental_div_mod(b, m);
        let qa = a / m;
        let qb = b / m;
        assert(a == m * qa);
        assert(b == m * qb);
        assert(qa < qb) by (nonlinear_arith)
            requires
                m >= 1,
                a < b,
                a == m * qa,
                b == m * qb,
        ;
        assert(a + m <= b) by (nonlinear_arith)
            requires
                m >= 1,
                qa < qb,
                a == m * qa,
                b == m * qb,
        ;
    }
}

/// The block of `f` that starts at the aligned offset `p` is a block of the
/// quantified form used by `wf_segment_data`.
proof fn lemma_block_index(f: Seq<u8>, bs: int, p: int) -> (i: int)
    requires
        bs >= 1,
        0 <= p,
        p + bs <= f.len(),
        p % bs == 0,
    ensures
        i * bs == p,
        (i + 1) * bs == p + bs,
        0 <= i,
{
    lemma_fundamental_div_mod(p, bs);
    let i = p / bs;
    assert(p == bs * i);
    assert(i * bs == p) by (nonlinear_arith)
        requires
            p == bs * i,
    ;
    assert((i + 1) * bs == p + bs) by (nonlinear_arith)
        requires
            i * bs == p,
    ;
    assert(i >= 0) by (nonlinear_arith)
        requires
            p == bs * i,
            p >= 0,
            bs >= 1,
    ;
    i
}


/// Subtracting one block keeps a length block-aligned.
proof fn lemma_aligned_sub(n: int, bs: int)
    requires
        bs >= 1,
        n % bs == 0,
        n >= bs,
    ensures
        (n - bs) % bs == 0,
{
    lemma_fundamental_div_mod(n, bs);
    let q = n / bs;
    assert(n == bs * q);
    assert(n - bs == bs * (q - 1)) by (nonlinear_arith)
        requires
            n == bs * q,
    ;
    vstd::arithmetic::div_mod::lemma_mod_multiples_basic(q - 1, bs);
}

/// A single well-formed block parses as a one-block segment.
proof fn lemma_single_block_chunks(b: Seq<u8>, bs: int)
    requires
        bs >= 1,
        b.len() == bs,
    ensures
        segment_chunks(b, bs) == parse_chunks(b, 0),
{
    assert(b.take(bs) =~= b);
    assert(b.skip(bs).len() == 0);
    assert(segment_chunks(b.skip(bs), bs) == Seq::<Chunk>::empty());
    assert(segment_chunks(b, bs) =~= parse_chunks(b, 0));
}

/// The last block of a well-formed data region is well formed, and every
/// earlier block is well formed and filled to within a header of the end.
proof fn lemma_wf_block_at(f: Seq<u8>, bs: int, p: int)
    requires
        wf_segment_data(f, bs),
        0 <= p,
        p % bs == 0,
        p + bs <= f.len(),
    ensures
        wf_from(f.subrange(p, p + bs), 0),
        p + 2 * bs <= f.len() ==> parse_end(f.subrange(p, p + bs), 0) + 9 >= bs,
{
    let i = lemma_block_index(f, bs, p);
    assert(f.subrange(i * bs, (i + 1) * bs) == f.subrange(p, p + bs));
    assert(wf_from(f.subrange(i * bs, (i + 1) * bs), 0));
    if p + 2 * bs <= f.len() {
        assert((i + 2) * bs == p + 2 * bs) by (nonlinear_arith)
            requires
                i * bs == p,
        ;
        assert(parse_end(f.subrange(i * bs, (i + 1) * bs), 0) + 9 >= bs);
    }
}

/// The chunk stream of an extended data region starts with the chunk stream
/// of the original.
pub proof fn lemma_extends_chunks(f1: Seq<u8>, f2: Seq<u8>, bs: int)
    requires
        wf_segment_data(f1, bs),
        wf_segment_data(f2, bs),
        segment_extends(f2, f1, bs),
    ensures
        segment_chunks(f1, bs).len() <= segment_chunks(f2, bs).len(),
        segment_chunks(f2, bs) == segment_chunks(f1, bs) + segment_chunks(f2, bs).skip(
            segment_chunks(f1, bs).len() as int,
        ),
{
    let n1 = f1.len() as int;
    let a1 = segment_chunks(f1, bs);
    let a2 = segment_chunks(f2, bs);
    if n1 == 0 {
        assert(a1 == Seq::<Chunk>::empty());
        assert(a2 =~= a1 + a2.skip(0));
    } else {
        lemma_aligned_diff(0, n1, bs);
        assert(n1 >= bs);
        lemma_aligned_sub(n1, bs);
        let b1 = f1.subrange(n1 - bs, n1);
        let b2 = f2.subrange(n1 - bs, n1);
        let e1 = parse_end(b1, 0);
        lemma_wf_block_at(f1, bs, n1 - bs);
        lemma_parse_end_bounds(b1, 0);
        // the two files agree below n1 - bs and on the parsed part of b1
        assert(f2.take(n1 - bs) =~= f1.take(n1 - bs)) by {
            assert forall|i: int| 0 <= i < n1 - bs implies #[trigger] f2.take(n1 - bs)[i] == f1.take(n1 - bs)[i] by {
                assert(f2.subrange(0, n1 - bs)[i] == f1.subrange(0, n1 - bs)[i]);
            }
        }
        assert(forall|i: int| 0 <= i < e1 ==> b1[i] == b2[i]) by {
            assert forall|i: int| 0 <= i < e1 implies #[trigger] b1[i] == b2[i] by {
                assert(f2.subrange(n1 - bs, n1 - bs + e1)[i] == b1.subrange(0, e1)[i]);
            }
        }
        lemma_parse_agree(b1, b2, 0);
        // decompose both chunk streams at n1 - bs
        lemma_segment_chunks_split(f1, bs, n1 - bs);
        lemma_segment_chunks_split(f2, bs, n1 - bs);
        assert(f1.skip(n1 - bs) =~= b1);
        lemma_single_block_chunks(b1, bs);
        assert(a1 == segment_chunks(f1.take(n1 - bs), bs) + parse_chunks(b1, 0));
        // and the second stream once more at the block after n1
        vstd::arithmetic::div_mod::lemma_mod_self_0(bs);
        lemma_segment_chunks_split(f2.skip(n1 - bs), bs, bs);
        assert(f2.skip(n1 - bs).take(bs) =~= b2);
        lemma_single_block_chunks(b2, bs);
        assert(f2.skip(n1 - bs).skip(bs) =~= f2.skip(n1));
        assert(a2 == segment_chunks(f2.take(n1 - bs), bs) + (parse_chunks(b2, 0) + segment_chunks(
            f2.skip(n1),
            bs,
        )));
        assert(a2 =~= a1 + (parse_chunks(b2, e1) + segment_chunks(f2.skip(n1), bs)));
        assert(a2.skip(a1.len() as int) =~= parse_chunks(b2, e1) + segment_chunks(f2.skip(n1), bs));
    }
}

/// Extension is transitive.
pub proof fn lemma_extends_trans(f1: Seq<u8>, f2: Seq<u8>, f3: Seq<u8>, bs: int)
    requires
        wf_segment_data(f1, bs),
        wf_segment_data(f2, bs),
        segment_extends(f2, f1, bs),
        segment_extends(f3, f2, bs),
    ensures
        segment_extends(f3, f1, bs),
{
    let n1 = f1.len() as int;
    let n2 = f2.len() as int;
    if n1 > 0 {
        lemma_aligned_diff(0, n1, bs);
        lemma_aligned_diff(n1, n2, bs);
        lemma_aligned_sub(n1, bs);
        let b1 = f1.subrange(n1 - bs, n1);
        let e1 = parse_end(b1, 0);
        lemma_wf_block_at(f1, bs, n1 - bs);
        lemma_parse_end_bounds(b1, 0);
        if n2 == n1 {
            let b2 = f2.subrange(n1 - bs, n1);
            let e2 = parse_end(b2, 0);
            assert(forall|i: int| 0 <= i < e1 ==> b1[i] == b2[i]) by {
                assert forall|i: int| 0 <= i < e1 implies #[trigger] b1[i] == b2[i] by {
                    assert(f2.subrange(n1 - bs, n1 - bs + e1)[i] == b1.subrange(0, e1)[i]);
                }
            }
            lemma_parse_agree(b1, b2, 0);
            lemma_parse_end_bounds(b2, e1);
            assert(e1 <= e2);
            assert(f3.subrange(0, n1 - bs) =~= f1.subrange(0, n1 - bs));
            assert(f3.subrange(n1 - bs, n1 - bs + e1) =~= b1.subrange(0, e1)) by {
                assert forall|i: int| 0 <= i < e1 implies #[trigger] f3.subrange(n1 - bs, n1 - bs + e1)[i]
                    == b1.subrange(0, e1)[i] by {
                    assert(f3.subrange(n1 - bs, n1 - bs + e2)[i] == b2.subrange(0, e2)[i]);
                    assert(f2.subrange(n1 - bs, n1 - bs + e1)[i] == b1.subrange(0, e1)[i]);
                }
            }
        } else {
            // the last block of f1 lies wholly inside the preserved prefix of f2
            assert(n1 <= n2 - bs);
            assert(f3.subrange(0, n1 - bs) =~= f1.subrange(0, n1 - bs)) by {
                assert forall|i: int| 0 <= i < n1 - bs implies #[trigger] f3.subrange(0, n1 - bs)[i]
                    == f1.subrange(0, n1 - bs)[i] by {
                    assert(f3.subrange(0, n2 - bs)[i] == f2.subrange(0, n2 - bs)[i]);
                    assert(f2.subrange(0, n1 - bs)[i] == f1.subrange(0, n1 - bs)[i]);
                }
            }
            assert(f3.subrange(n1 - bs, n1 - bs + e1) =~= b1.subrange(0, e1)) by {
                assert forall|i: int| 0 <= i < e1 implies #[trigger] f3.subrange(n1 - bs, n1 - bs + e1)[i]
                    == b1.subrange(0, e1)[i] by {
                    assert(f3.subrange(0, n2 - bs)[n1 - bs + i] == f2.subrange(0, n2 - bs)[n1 - bs
                        + i]);
                    assert(f2.subrange(n1 - bs, n1 - bs + e1)[i] == b1.subrange(0, e1)[i]);
                }
            }
        }
    }
}


/// Appending a well-formed block to a region whose last block is filled to
/// within a header of its end keeps the region well formed.
pub proof fn lemma_wf_data_append_block(f1: Seq<u8>, b: Seq<u8>, bs: int)
    requires
        wf_segment_data(f1, bs),
        b.len() == bs,
        wf_from(b, 0),
        f1.len() > 0 ==> parse_end(f1.subrange(f1.len() - bs, f1.len() as int), 0) + 9 >= bs,
    ensures
        wf_segment_data(f1 + b, bs),
{
    let f2 = f1 + b;
    let n1 = f1.len() as int;
    lemma_fundamental_div_mod(n1, bs);
    let q = n1 / bs;
    assert(n1 == bs * q);
    assert(n1 + bs == (q + 1) * bs) by (nonlinear_arith)
        requires
            n1 == bs * q,
    ;
    vstd::arithmetic::div_mod::lemma_mod_multiples_basic(q + 1, bs);
    assert(((q + 1) * bs) % bs == 0);
    assert(f2.len() as int % bs == 0);
    assert forall|i: int| 0 <= i && (i + 1) * bs <= f2.len() implies wf_from(
        #[trigger] f2.subrange(i * bs, (i + 1) * bs),
        0,
    ) by {
        assert(i * bs >= 0) by (nonlinear_arith)
            requires
                i >= 0,
                bs >= 1,
        ;
        assert((i + 1) * bs == i * bs + bs) by (nonlinear_arith);
        if (i + 1) * bs <= n1 {
            assert(f2.subrange(i * bs, (i + 1) * bs) =~= f1.subrange(i * bs, (i + 1) * bs));
            assert(wf_from(f1.subrange(i * bs, (i + 1) * bs), 0));
        } else {
            vstd::arithmetic::div_mod::lemma_mod_multiples_basic(i + 1, bs);
            lemma_aligned_diff((i + 1) * bs, n1 + bs, bs);
            assert((i + 1) * bs == n1 + bs);
            assert(f2.subrange(i * bs, (i + 1) * bs) =~= b);
        }
    }
    assert forall|i: int| 0 <= i && (i + 2) * bs <= f2.len() implies parse_end(
        #[trigger] f2.subrange(i * bs, (i + 1) * bs),
        0,
    ) + 9 >= bs by {
        assert(i * bs >= 0) by (nonlinear_arith)
            requires
                i >= 0,
                bs >= 1,
        ;
        assert((i + 1) * bs == i * bs + bs) by (nonlinear_arith);
        assert((i + 2) * bs == i * bs + bs + bs) by (nonlinear_arith);
        assert(f2.subrange(i * bs, (i + 1) * bs) =~= f1.subrange(i * bs, (i + 1) * bs));
        if (i + 2) * bs <= n1 {
            assert(parse_end(f1.subrange(i * bs, (i + 1) * bs), 0) + 9 >= bs);
        } else {
            vstd::arithmetic::div_mod::lemma_mod_multiples_basic(i + 2, bs);
            lemma_aligned_diff((i + 2) * bs, n1 + bs, bs);
            assert((i + 2) * bs == n1 + bs);
            assert(f1.subrange(i * bs, (i + 1) * bs) == f1.subrange(n1 - bs, n1));
        }
    }
}

/// Rewriting the last block of a region with a well-formed block keeps the
/// region well formed.
pub proof fn lemma_wf_data_replace_last(f1: Seq<u8>, b: Seq<u8>, bs: int)
    requires
        wf_segment_data(f1, bs),
        f1.len() >= bs,
        b.len() == bs,
        wf_from(b, 0),
    ensures
        wf_segment_data(f1.take(f1.len() - bs) + b, bs),
{
    let n1 = f1.len() as int;
    let f2 = f1.take(n1 - bs) + b;
    assert(f2.len() == n1);
    assert forall|i: int| 0 <= i && (i + 1) * bs <= f2.len() implies wf_from(
        #[trigger] f2.subrange(i * bs, (i + 1) * bs),
        0,
    ) by {
        assert(i * bs >= 0) by (nonlinear_arith)
            requires
                i >= 0,
                bs >= 1,
        ;
        assert((i + 1) * bs == i * bs + bs) by (nonlinear_arith);
        if (i + 1) * bs <= n1 - bs {
            assert(f2.subrange(i * bs, (i + 1) * bs) =~= f1.subrange(i * bs, (i + 1) * bs));
            assert(wf_from(f1.subrange(i * bs, (i + 1) * bs), 0));
        } else {
            vstd::arithmetic::div_mod::lemma_mod_multiples_basic(i + 1, bs);
            lemma_aligned_sub(n1, bs);
            lemma_aligned_diff((i + 1) * bs, n1, bs);
            assert((i + 1) * bs == n1);
            assert(f2.subrange(i * bs, (i + 1) * bs) =~= b);
        }
    }
    assert forall|i: int| 0 <= i && (i + 2) * bs <= f2.len() implies parse_end(
        #[trigger] f2.subrange(i * bs, (i + 1) * bs),
        0,
    ) + 9 >= bs by {
        assert(i * bs >= 0) by (nonlinear_arith)
            requires
                i >= 0,
                bs >= 1,
        ;
        assert((i + 1) * bs == i * bs + bs) by (nonlinear_arith);
        assert((i + 2) * bs == i * bs + bs + bs) by (nonlinear_arith);
        assert(f2.subrange(i * bs, (i + 1) * bs) =~= f1.subrange(i * bs, (i + 1) * bs));
        assert(parse_end(f1.subrange(i * bs, (i + 1) * bs), 0) + 9 >= bs);
    }
}


// ---------------------------------------------------------------------------
// Footers and segment descriptors.
// ---------------------------------------------------------------------------

pub const FOOTER_MAGIC_OFFSET: usize = 0;

pub const FOOTER_INDEX_OFFSET: usize = 1;

pub const FOOTER_BUFFER_SIZE_OFFSET: usize = 9;

pub const FOOTER_START_INDEX_OFFSET: usize = 17;

pub const FOOTER_NEXT_INDEX_OFFSET: usize = 25;

pub const FOOTER_MAGIC_BYTE: u8 = 42;

pub const FOOTER_BYTE_COUNT: usize = 33;

/// In-memory descriptor of one segment: where it lives, its index among the
/// topic's segments, its block size, and the message index range it holds.
#[derive(Clone, Debug, PartialEq)]
pub struct SegmentInfo {
    pub path: String,
    pub index: u64,
    pub buffer_size: u64,
    pub start_offset: u64,
    pub next_offset: u64,
}

/// The 33 footer bytes a closed segment ends with: the magic byte, then the
/// segment index, block size, start offset and next offset, little-endian.
pub open spec fn footer_bytes(info: SegmentInfo) -> Seq<u8> {
    seq![FOOTER_MAGIC_BYTE] + spec_u64_to_le_bytes(info.index) + spec_u64_to_le_bytes(
        info.buffer_size,
    ) + spec_u64_to_le_bytes(info.start_offset) + spec_u64_to_le_bytes(info.next_offset)
}

impl SegmentInfo {
    pub open spec fn spec_path(self) -> Seq<char> {
        self.path@
    }

    pub open spec fn spec_buffer_size(self) -> u64 {
        self.buffer_size
    }

    pub open spec fn spec_start_offset(self) -> u64 {
        self.start_offset
    }

    /// A fresh descriptor: nothing stored yet, so `next_offset` equals
    /// `start_offset`.
    pub fn new(path: &str, index: u64, start_offset: u64, buffer_size: u64) -> (r: SegmentInfo)
        ensures
            r.spec_path() == path@,
            r.index == index,
            r.spec_buffer_size() == buffer_size,
            r.spec_start_offset() == start_offset,
            r.next_offset == start_offset,
    {
        SegmentInfo {
            path: path.to_string(),
            index,
            buffer_size,
            start_offset,
            next_offset: start_offset,
        }
    }

    /// A field-for-field copy.
    pub fn duplicate(&self) -> (r: SegmentInfo)
        ensures
            r == *self,
    {
        SegmentInfo {
            path: self.path.clone(),
            index: self.index,
            buffer_size: self.buffer_size,
            start_offset: self.start_offset,
            next_offset: self.next_offset,
        }
    }

    /// Load a descriptor from the footer at the end of a closed segment's
    /// bytes. Fails with `ShortRead` when there is no room for a footer and
    /// with `MissingMagic` when the footer does not start with the magic
    /// byte.
    pub fn from_file(path: &str, file: &Vec<u8>) -> (r: Result<SegmentInfo, Error>)
        ensures
            file@.len() < 33 ==> r == Err::<SegmentInfo, Error>(Error::ShortRead),
            file@.len() >= 33 && file@[file@.len() - 33] != FOOTER_MAGIC_BYTE ==> r
                == Err::<SegmentInfo, Error>(Error::MissingMagic),
            file@.len() >= 33 && file@[file@.len() - 33] == FOOTER_MAGIC_BYTE ==> {
                let n = file@.len() as int;
                &&& r is Ok
                &&& r.unwrap().spec_path() == path@
                &&& r.unwrap().index == spec_u64_from_le_bytes(file@.subrange(n - 32, n - 24))
                &&& r.unwrap().spec_buffer_size() == spec_u64_from_le_bytes(
                    file@.subrange(n - 24, n - 16),
                )
                &&& r.unwrap().spec_start_offset() == spec_u64_from_le_bytes(
                    file@.subrange(n - 16, n - 8),
                )
                &&& r.unwrap().next_offset == spec_u64_from_le_bytes(file@.subrange(n - 8, n))
            },
    {
        if file.len() < FOOTER_BYTE_COUNT {
            return Err(Error::ShortRead);
        }
        let footer_start = file.len() - FOOTER_BYTE_COUNT;
        let magic = match u8::read_bytes(file.as_slice(), footer_start + FOOTER_MAGIC_OFFSET) {
            Ok(b) => b,
            Err(_) => {
                proof {
                    assert(false);
                }
                0
            },
        };
        proof {
            assert(file@.subrange(footer_start as int, footer_start + 1)[0] == file@[footer_start as int]);
        }
        if magic != FOOTER_MAGIC_BYTE {
            return Err(Error::MissingMagic);
        }
        let index = match u64::read_bytes(file.as_slice(), footer_start + FOOTER_INDEX_OFFSET) {
            Ok(v) => v,
            Err(_) => {
                proof {
                    assert(false);
                }
                0
            },
        };
        let buffer_size = match u64::read_bytes(
            file.as_slice(),
            footer_start + FOOTER_BUFFER_SIZE_OFFSET,
        ) {
            Ok(v) => v,
            Err(_) => {
                proof {
                    assert(false);
                }
                0
            },
        };
        let start_offset = match u64::read_bytes(
            file.as_slice(),
            footer_start + FOOTER_START_INDEX_OFFSET,
        ) {
            Ok(v) => v,
            Err(_) => {
                proof {
                    assert(false);
                }
                0
            },
        };
        let next_offset = match u64::read_bytes(
            file.as_slice(),
            footer_start + FOOTER_NEXT_INDEX_OFFSET,
        ) {
            Ok(v) => v,
            Err(_) => {
                proof {
                    assert(false);
                }
                0
            },
        };
        Ok(SegmentInfo { path: path.to_string(), index, buffer_size, start_offset, next_offset })
    }
}

/// A descriptor read back from the footer that `close` appended names the
/// same segment: the footer round-trip law.
pub proof fn lemma_footer_round_trip(info: SegmentInfo, data: Seq<u8>)
    ensures
        (data + footer_bytes(info)).len() == data.len() + 33,
        (data + footer_bytes(info))[data.len() as int] == FOOTER_MAGIC_BYTE,
        spec_u64_from_le_bytes(
            (data + footer_bytes(info)).subrange(data.len() + 1 as int, data.len() + 9 as int),
        ) == info.index,
        spec_u64_from_le_bytes(
            (data + footer_bytes(info)).subrange(data.len() + 9 as int, data.len() + 17 as int),
        ) == info.buffer_size,
        spec_u64_from_le_bytes(
            (data + footer_bytes(info)).subrange(data.len() + 17 as int, data.len() + 25 as int),
        ) == info.start_offset,
        spec_u64_from_le_bytes(
            (data + footer_bytes(info)).subrange(data.len() + 25 as int, data.len() + 33 as int),
        ) == info.next_offset,
{
    lemma_auto_spec_u64_to_from_le_bytes();
    let f = data + footer_bytes(info);
    let n = data.len() as int;
    assert(footer_bytes(info).len() == 33);
    assert(f.subrange(n + 1, n + 9) =~= spec_u64_to_le_bytes(info.index)) by {
        assert forall|i: int| 0 <= i < 8 implies #[trigger] f.subrange(n + 1, n + 9)[i]
            == spec_u64_to_le_bytes(info.index)[i] by {
            assert(f[n + 1 + i] == footer_bytes(info)[1 + i]);
        }
    }
    assert(f.subrange(n + 9, n + 17) =~= spec_u64_to_le_bytes(info.buffer_size)) by {
        assert forall|i: int| 0 <= i < 8 implies #[trigger] f.subrange(n + 9, n + 17)[i]
            == spec_u64_to_le_bytes(info.buffer_size)[i] by {
            assert(f[n + 9 + i] == footer_bytes(info)[9 + i]);
        }
    }
    assert(f.subrange(n + 17, n + 25) =~= spec_u64_to_le_bytes(info.start_offset)) by {
        assert forall|i: int| 0 <= i < 8 implies #[trigger] f.subrange(n + 17, n + 25)[i]
            == spec_u64_to_le_bytes(info.start_offset)[i] by {
            assert(f[n + 17 + i] == footer_bytes(info)[17 + i]);
        }
    }
    assert(f.subrange(n + 25, n + 33) =~= spec_u64_to_le_bytes(info.next_offset)) by {
        assert forall|i: int| 0 <= i < 8 implies #[trigger] f.subrange(n + 25, n + 33)[i]
            == spec_u64_to_le_bytes(info.next_offset)[i] by {
            assert(f[n + 25 + i] == footer_bytes(info)[25 + i]);
        }
    }
    assert(f[n] == footer_bytes(info)[0]);
}


// ---------------------------------------------------------------------------
// The segment writer.
// ---------------------------------------------------------------------------

/// Payload bytes that still fit as one more chunk in a trailing block with
/// `off` bytes of chunks: zero when the block is clean or has no room for a
/// header and a byte.
pub open spec fn tail_capacity(off: int, bs: int) -> int {
    if 0 < off && off + 9 < bs {
        bs - off - 9
    } else {
        0
    }
}

/// The chunks one message's remaining bytes become in fresh blocks: whole
/// blocks of `per` payload bytes, then the rest. `opening` says whether
/// these chunks start the message.
pub open spec fn fresh_chunks(rem: Seq<u8>, per: int, opening: bool) -> Seq<Chunk>
    decreases rem.len() when per >= 1
{
    if rem.len() <= per {
        seq![Chunk { ty: if opening { 1 } else { 4 }, payload: rem }]
    } else {
        seq![Chunk { ty: if opening { 2 } else { 3 }, payload: rem.take(per) }] + fresh_chunks(
            rem.skip(per),
            per,
            false,
        )
    }
}

/// The exact chunks `append` writes for one message, given the trailing
/// block's capacity `cap` and the per-block payload room `per`: the whole
/// message in the trailing block when it fits; else its first `cap` bytes
/// there and the rest in fresh blocks; else fresh blocks only.
pub open spec fn message_chunks(payload: Seq<u8>, cap: int, per: int) -> Seq<Chunk> {
    if cap >= 1 && payload.len() <= cap {
        seq![Chunk { ty: 1, payload }]
    } else if cap >= 1 {
        seq![Chunk { ty: 2, payload: payload.take(cap) }] + fresh_chunks(
            payload.skip(cap),
            per,
            false,
        )
    } else {
        fresh_chunks(payload, per, true)
    }
}

/// How many fresh blocks `append` opens for a message of `len` bytes.
pub open spec fn num_fresh_blocks(len: int, cap: int, per: int) -> int {
    if cap >= 1 && len <= cap {
        0
    } else if cap >= 1 {
        (len - cap + per - 1) / per
    } else {
        (len + per - 1) / per
    }
}

/// The fresh blocks of one message cost at most ten bytes of file for each
/// payload byte, plus one block.
pub proof fn lemma_num_fresh_bound(len: int, cap: int, per: int, bs: int)
    requires
        per >= 1,
        bs == per + 9,
        bs >= 10,
        1 <= len,
        0 <= cap,
    ensures
        0 <= num_fresh_blocks(len, cap, per),
        bs * num_fresh_blocks(len, cap, per) <= 10 * len + 10 * bs,
{
    let q = num_fresh_blocks(len, cap, per);
    if cap >= 1 && len <= cap {
    } else {
        let rem = if cap >= 1 { len - cap } else { len };
        assert(1 <= rem <= len);
        let d = rem + per - 1;
        lemma_fundamental_div_mod(d, per);
        assert(q == d / per);
        assert(d == per * q + d % per && 0 <= d % per < per);
        assert(q >= 0) by (nonlinear_arith)
            requires
                per >= 1,
                d >= per - 1 + 1,
                d == per * q + d % per,
                0 <= d % per < per,
        ;
        assert(per * q <= d);
        assert(bs * q <= 10 * (per * q)) by (nonlinear_arith)
            requires
                q >= 0,
                bs >= 10,
                bs == per + 9,
                10 * per >= bs,
        ;
        assert(10 * (per * q) <= 10 * d) by (nonlinear_arith)
            requires
                per * q <= d,
        ;
        assert(bs * q <= 10 * len + 10 * bs);
    }
}

/// The type tag for chunk number `i` of `n` in one message, as a byte.
pub open spec fn chunk_type_for(i: int, n: int) -> u8 {
    if i == 0 && n == 1 {
        1
    } else if i == 0 {
        2
    } else if i + 1 == n {
        4
    } else {
        3
    }
}

/// Appends messages to one segment, packing chunks into fixed-size blocks
/// and rewriting the partially filled trailing block in place.
///
/// The writer works on an in-memory image of the segment file; callers that
/// persist a segment write `file_bytes()` out after each append, which is
/// where the durability boundary of the store lies.
pub struct SegmentWriter {
    pub segment_info: SegmentInfo,
    pub file: Vec<u8>,
    pub pos: usize,
    pub write_buffer: Vec<u8>,
    pub buffer_offset: usize,
    pub num_payload_bytes_per_chunk: usize,
    pub messages: Ghost<Seq<Seq<u8>>>,
}

impl SegmentWriter {
    /// The block size this writer packs into.
    pub open spec fn spec_bs(self) -> int {
        self.write_buffer@.len() as int
    }

    pub open spec fn spec_info(self) -> SegmentInfo {
        self.segment_info
    }

    /// The messages appended so far.
    pub open spec fn spec_messages(self) -> Seq<Seq<u8>> {
        self.messages@
    }

    /// The segment file image built so far (no footer).
    pub open spec fn file_view(self) -> Seq<u8> {
        self.file@
    }

    /// Geometry: a well-formed block-aligned file image whose trailing block
    /// the scratch buffer mirrors whenever it is dirty.
    pub open spec fn wf_geom(self) -> bool {
        &&& 10 <= self.spec_bs() <= u32::MAX
    &&& self.segment_info.buffer_size == self.write_buffer@.len()
        &&& self.num_payload_bytes_per_chunk + 9 == self.spec_bs()
        &&& self.buffer_offset <= self.spec_bs()
        &&& self.file@.len() as int % self.spec_bs() == 0
        &&& wf_segment_data(self.file@, self.spec_bs())
        &&& (self.buffer_offset > 0 ==> {
            &&& self.file@.len() >= self.spec_bs()
            &&& self.file@.subrange(
                self.file@.len() - self.spec_bs(),
                self.file@.len() as int,
            ) == self.write_buffer@
            &&& parse_end(self.write_buffer@, 0) == self.buffer_offset
        })
    }

    /// Between appends: geometry, the cursor at the end of the file, and a
    /// complete chunk stream that stores exactly the appended messages.
    pub open spec fn wf_core(self) -> bool {
        &&& self.wf_geom()
        &&& self.pos == self.file@.len()
        &&& (self.buffer_offset == 0 ==> self.file@.len() == 0)
        &&& segment_scan(self.file@, self.spec_bs()).ok
        &&& !segment_scan(self.file@, self.spec_bs()).in_msg
        &&& segment_messages(self.file@, self.spec_bs()) == self.messages@
    }

    /// `wf_core` plus the offset account: `next_offset` has moved one past
    /// `start_offset` for every stored message.
    pub open spec fn wf(self) -> bool {
        &&& self.wf_core()
        &&& self.segment_info.next_offset == self.segment_info.start_offset
            + self.messages@.len()
    }

    /// A writer over a fresh, empty segment.
    pub fn new(segment_info: SegmentInfo) -> (w: SegmentWriter)
        requires
            10 <= segment_info.buffer_size <= u32::MAX,
            segment_info.next_offset == segment_info.start_offset,
        ensures
            w.wf(),
            w.spec_info() == segment_info,
            w.file_view() == Seq::<u8>::empty(),
            w.spec_messages() == Seq::<Seq<u8>>::empty(),
            w.spec_bs() == segment_info.buffer_size,
            w.buffer_offset == 0,
            w.write_buffer@ == Seq::new(segment_info.buffer_size as nat, |i: int| 0u8),
    {
        let buffer_size = segment_info.buffer_size as usize;
        let write_buffer = vec![0u8; buffer_size];
        let num_payload_bytes_per_chunk = buffer_size - NUM_HEADER_BYTES;
        let w = SegmentWriter {
            file: Vec::new(),
            pos: 0,
            buffer_offset: 0,
            write_buffer,
            segment_info,
            num_payload_bytes_per_chunk,
            messages: Ghost(Seq::empty()),
        };
        proof {
            let bs = w.spec_bs();
            vstd::arithmetic::div_mod::lemma_mod_multiples_basic(0, bs);
            assert(w.file@.len() as int % bs == 0);
            assert(segment_chunks(w.file@, bs) == Seq::<Chunk>::empty());
            assert forall|i: int| 0 <= i && (i + 1) * bs <= w.file@.len() implies wf_from(
                #[trigger] w.file@.subrange(i * bs, (i + 1) * bs),
                0,
            ) by {
                assert((i + 1) * bs >= bs) by (nonlinear_arith)
                    requires
                        i >= 0,
                        bs >= 1,
                ;
            }
            assert forall|i: int| 0 <= i && (i + 2) * bs <= w.file@.len() implies parse_end(
                #[trigger] w.file@.subrange(i * bs, (i + 1) * bs),
                0,
            ) + 9 >= bs by {
                assert((i + 2) * bs >= bs) by (nonlinear_arith)
                    requires
                        i >= 0,
                        bs >= 1,
                ;
            }
            assert(wf_segment_data(w.file@, bs));
            assert(w.write_buffer@ =~= Seq::new(segment_info.buffer_size as nat, |i: int| 0u8));
        }
        w
    }

    /// The bytes of the segment file image.
    pub fn file_bytes(&self) -> (r: &Vec<u8>)
        ensures
            r@ == self.file_view(),
    {
        &self.file
    }

    /// A copy of the live descriptor.
    pub fn segment_info_snapshot(&self) -> (r: SegmentInfo)
        ensures
            r == self.spec_info(),
    {
        self.segment_info.duplicate()
    }

    /// Payload bytes that still fit in the trailing block after its chunks
    /// and one more header.
    fn buffer_payload_capacity(&self) -> (r: usize)
        requires
            self.num_payload_bytes_per_chunk + 9 == self.write_buffer@.len(),
            self.buffer_offset <= self.write_buffer@.len(),
            self.write_buffer@.len() <= u32::MAX,
        ensures
            r == if self.buffer_offset + 9 >= self.write_buffer@.len() {
                0int
            } else {
                self.write_buffer@.len() - self.buffer_offset - 9
            },
    {
        let free_bytes = self.write_buffer.len() - NUM_HEADER_BYTES;
        if self.buffer_offset >= free_bytes {
            0
        } else {
            free_bytes - self.buffer_offset
        }
    }

    fn is_buffer_hungry(&self) -> (r: bool)
        requires
            self.num_payload_bytes_per_chunk + 9 == self.write_buffer@.len(),
            self.buffer_offset <= self.write_buffer@.len(),
            self.write_buffer@.len() <= u32::MAX,
        ensures
            r == (self.buffer_offset + 9 < self.write_buffer@.len()),
    {
        self.buffer_payload_capacity() > 0
    }

    fn is_buffer_dirty(&self) -> (r: bool)
        ensures
            r == (self.buffer_offset > 0),
    {
        self.buffer_offset > 0
    }

    /// Zero the scratch block and forget its chunks.
    fn clear_buffer(&mut self)
        ensures
            final(self).write_buffer@.len() == old(self).write_buffer@.len(),
            forall|i: int|
                0 <= i < final(self).write_buffer@.len() ==> final(self).write_buffer@[i] == 0,
            final(self).buffer_offset == 0,
            final(self).file == old(self).file,
            final(self).pos == old(self).pos,
            final(self).segment_info == old(self).segment_info,
            final(self).num_payload_bytes_per_chunk == old(self).num_payload_bytes_per_chunk,
            final(self).messages == old(self).messages,
    {
        let n = self.write_buffer.len();
        let mut i: usize = 0;
        while i < n
            invariant
                i <= n,
                self.write_buffer@.len() == n,
                forall|j: int| 0 <= j < i ==> self.write_buffer@[j] == 0,
                self.file == old(self).file,
                self.pos == old(self).pos,
                self.segment_info == old(self).segment_info,
                self.num_payload_bytes_per_chunk == old(self).num_payload_bytes_per_chunk,
                self.messages == old(self).messages,
                self.buffer_offset == old(self).buffer_offset,
            decreases n - i,
        {
            self.write_buffer[i] = 0;
            i += 1;
        }
        self.buffer_offset = 0;
    }

    /// Step the file cursor back over the trailing block so the next write
    /// rewrites it in place.
    fn seek_buffer_start(&mut self)
        requires
            old(self).pos == old(self).file@.len(),
            old(self).buffer_offset > 0 ==> old(self).pos >= old(self).write_buffer@.len(),
        ensures
            final(self).pos == old(self).pos - (if old(self).buffer_offset > 0 {
                old(self).write_buffer@.len() as int
            } else {
                0int
            }),
            final(self).file == old(self).file,
            final(self).write_buffer == old(self).write_buffer,
            final(self).buffer_offset == old(self).buffer_offset,
            final(self).segment_info == old(self).segment_info,
            final(self).num_payload_bytes_per_chunk == old(self).num_payload_bytes_per_chunk,
            final(self).messages == old(self).messages,
    {
        if self.is_buffer_dirty() {
            self.pos = self.pos - self.write_buffer.len();
        }
    }

    /// Write the scratch block at the cursor: over the trailing block when
    /// the cursor was stepped back, appended otherwise.
    fn write(&mut self)
        requires
            old(self).pos == old(self).file@.len() || old(self).pos + old(
                self,
            ).write_buffer@.len() == old(self).file@.len(),
            old(self).file@.len() + old(self).write_buffer@.len() <= usize::MAX,
        ensures
            final(self).file@ == old(self).file@.take(old(self).pos as int)
                + old(self).write_buffer@,
            final(self).pos == old(self).pos + old(self).write_buffer@.len(),
            final(self).pos == final(self).file@.len(),
            final(self).write_buffer == old(self).write_buffer,
            final(self).buffer_offset == old(self).buffer_offset,
            final(self).segment_info == old(self).segment_info,
            final(self).num_payload_bytes_per_chunk == old(self).num_payload_bytes_per_chunk,
            final(self).messages == old(self).messages,
    {
        let n = self.write_buffer.len();
        if self.pos == self.file.len() {
            let mut i: usize = 0;
            while i < n
                invariant
                    i <= n,
                    self.write_buffer == old(self).write_buffer,
                    self.write_buffer@.len() == n,
                    self.pos == old(self).pos,
                    self.pos + n <= usize::MAX,
                    self.file@.len() == old(self).file@.len() + i,
                    self.file@ == old(self).file@ + self.write_buffer@.take(i as int),
                    self.buffer_offset == old(self).buffer_offset,
                    self.segment_info == old(self).segment_info,
                    self.num_payload_bytes_per_chunk == old(self).num_payload_bytes_per_chunk,
                    self.messages == old(self).messages,
                decreases n - i,
            {
                let b = self.write_buffer[i];
                self.file.push(b);
                proof {
                    assert(self.file@ =~= old(self).file@ + self.write_buffer@.take(i + 1));
                }
                i += 1;
            }
            proof {
                assert(self.write_buffer@.take(n as int) =~= self.write_buffer@);
                assert(old(self).file@.take(old(self).pos as int) =~= old(self).file@);
            }
            self.pos = self.pos + n;
        } else {
            let mut i: usize = 0;
            while i < n
                invariant
                    i <= n,
                    self.write_buffer == old(self).write_buffer,
                    self.write_buffer@.len() == n,
                    self.pos == old(self).pos,
                    self.pos + n == self.file@.len(),
                    self.pos + n <= usize::MAX,
                    self.file@.len() == old(self).file@.len(),
                    forall|j: int| 0 <= j < self.pos ==> self.file@[j] == old(self).file@[j],
                    forall|j: int| 0 <= j < i ==> self.file@[self.pos + j] == self.write_buffer@[j],
                    self.buffer_offset == old(self).buffer_offset,
                    self.segment_info == old(self).segment_info,
                    self.num_payload_bytes_per_chunk == old(self).num_payload_bytes_per_chunk,
                    self.messages == old(self).messages,
                decreases n - i,
            {
                let b = self.write_buffer[i];
                let k = self.pos + i;
                self.file[k] = b;
                i += 1;
            }
            proof {
                assert(self.file@ =~= old(self).file@.take(old(self).pos as int)
                    + self.write_buffer@);
            }
            self.pos = self.pos + n;
        }
    }
}


impl SegmentWriter {
    /// Frame one chunk after the chunks already in the scratch block and
    /// write the block out: CRC over length, type and payload; then those
    /// bytes; zeros to the end of the block. The type tag is picked for
    /// chunk `chunk_index` of `num_chunks` of one message.
    #[verifier::rlimit(60)]
    #[verifier::spinoff_prover]
    fn write_chunk(&mut self, payload: &[u8], chunk_index: usize, num_chunks: usize)
        requires
            old(self).wf_geom(),
            1 <= payload@.len(),
            old(self).buffer_offset + 9 + payload@.len() <= old(self).spec_bs(),
            old(self).file@.len() + old(self).spec_bs() <= usize::MAX,
            chunk_index < usize::MAX,
            old(self).buffer_offset > 0 ==> old(self).pos + old(self).spec_bs() == old(
                self,
            ).file@.len(),
            old(self).buffer_offset == 0 ==> {
                &&& old(self).pos == old(self).file@.len()
                &&& (forall|i: int|
                    0 <= i < old(self).spec_bs() ==> old(self).write_buffer@[i] == 0)
                &&& (old(self).file@.len() == 0 || parse_end(
                    old(self).file@.subrange(
                        old(self).file@.len() - old(self).spec_bs(),
                        old(self).file@.len() as int,
                    ),
                    0,
                ) + 9 >= old(self).spec_bs())
            },
        ensures
            final(self).wf_geom(),
            final(self).segment_info == old(self).segment_info,
            final(self).messages == old(self).messages,
            final(self).num_payload_bytes_per_chunk == old(self).num_payload_bytes_per_chunk,
            final(self).spec_bs() == old(self).spec_bs(),
            final(self).buffer_offset == old(self).buffer_offset + 9 + payload@.len(),
            final(self).pos == final(self).file@.len(),
            final(self).file@.len() == old(self).file@.len() + (if old(self).buffer_offset > 0 {
                0int
            } else {
                old(self).spec_bs()
            }),
            segment_chunks(final(self).file@, final(self).spec_bs()) == segment_chunks(
                old(self).file@,
                old(self).spec_bs(),
            ).push(
                Chunk {
                    ty: chunk_type_for(chunk_index as int, num_chunks as int),
                    payload: payload@,
                },
            ),
            segment_extends(final(self).file@, old(self).file@, old(self).spec_bs()),
            final(self).file@ == old(self).file@.take(old(self).pos as int) + splice(
                old(self).write_buffer@,
                old(self).buffer_offset as int,
                chunk_bytes(payload@, chunk_type_for(chunk_index as int, num_chunks as int)),
            ),
    {
        let ghost b1 = self.write_buffer@;
        let ghost f0 = self.file@;
        let ghost bs = self.spec_bs();
        let ghost off = self.buffer_offset as int;
        let ghost old_pos = self.pos as int;
        proof {
            // the scratch block is well formed with its chunks ending at the
            // current offset
            if self.buffer_offset > 0 {
                lemma_aligned_sub(f0.len() as int, bs);
                lemma_wf_block_at(f0, bs, f0.len() - bs);
                assert(f0.subrange(f0.len() - bs, f0.len() as int) == b1);
                assert(wf_from(b1, 0));
            } else {
                assert(!has_chunk_at(b1, 0)) by {
                    if has_chunk_at(b1, 0) {
                        assert(b1[8] == 0);
                    }
                }
                assert(wf_from(b1, 0));
                assert(parse_end(b1, 0) == 0);
            }
        }
        let num_chunk_bytes = payload.len() + NUM_HEADER_BYTES;
        let chunk_end = self.buffer_offset + num_chunk_bytes;
        write_u32(&mut self.write_buffer, payload.len() as u32, self.buffer_offset + LEN_OFFSET);
        let ghost buf_a = self.write_buffer@;
        let ty = if chunk_index == 0 && num_chunks == 1 {
            ChunkType::Full
        } else if chunk_index == 0 {
            ChunkType::Start
        } else if chunk_index + 1 == num_chunks {
            ChunkType::End
        } else {
            ChunkType::Middle
        };
        let tyb = ty.as_byte();
        proof {
            assert(tyb == chunk_type_for(chunk_index as int, num_chunks as int));
            assert(1 <= tyb <= 4);
        }
        self.write_buffer[self.buffer_offset + TYPE_OFFSET] = tyb;
        let ghost buf_b = self.write_buffer@;
        let mut i: usize = 0;
        while i < payload.len()
            invariant
                i <= payload@.len(),
                off + 9 + payload@.len() <= bs,
                bs <= usize::MAX,
                off == self.buffer_offset,
                self.write_buffer@.len() == bs,
                buf_b.len() == bs,
                forall|j: int|
                    0 <= j < bs && !(off + 9 <= j < off + 9 + i) ==> self.write_buffer@[j]
                        == buf_b[j],
                forall|j: int| 0 <= j < i ==> self.write_buffer@[off + 9 + j] == payload@[j],
                self.file == old(self).file,
                self.pos == old(self).pos,
                self.segment_info == old(self).segment_info,
                self.num_payload_bytes_per_chunk == old(self).num_payload_bytes_per_chunk,
                self.messages == old(self).messages,
            decreases payload@.len() - i,
        {
            let b = payload[i];
            self.write_buffer[self.buffer_offset + PAYLOAD_OFFSET + i] = b;
            i += 1;
        }
        let ghost buf_c = self.write_buffer@;
        let crc_src = slice_subrange(
            self.write_buffer.as_slice(),
            self.buffer_offset + LEN_OFFSET,
            chunk_end,
        );
        proof {
            lemma_auto_spec_u32_to_from_le_bytes();
            assert(buf_a == splice(b1, off + 4, spec_u32_to_le_bytes(payload@.len() as u32)));
            assert(crc_src@ =~= chunk_body(payload@, tyb)) by {
                assert forall|j: int| 0 <= j < 5 + payload@.len() implies #[trigger] buf_c.subrange(
                    off + 4,
                    off + 9 + payload@.len(),
                )[j] == chunk_body(payload@, tyb)[j] by {
                    if j < 4 {
                        assert(buf_c[off + 4 + j] == buf_b[off + 4 + j]);
                        assert(buf_b[off + 4 + j] == buf_a[off + 4 + j]);
                        assert(buf_a[off + 4 + j] == spec_u32_to_le_bytes(
                            payload@.len() as u32,
                        )[j]);
                    } else if j == 4 {
                        assert(buf_c[off + 8] == buf_b[off + 8]);
                        assert(buf_b[off + 8] == tyb);
                    } else {
                        assert(buf_c[off + 4 + j] == payload@[j - 5]);
                    }
                }
            }
        }
        let record_crc = calculate_crc(crc_src);
        write_u32(&mut self.write_buffer, record_crc, self.buffer_offset + CRC_OFFSET);
        proof {
            let cb = chunk_bytes(payload@, tyb);
            assert(record_crc == crc32_of(chunk_body(payload@, tyb)));
            assert(cb.len() == 9 + payload@.len());
            assert(self.write_buffer@ =~= splice(b1, off, cb)) by {
                assert forall|j: int| 0 <= j < bs implies #[trigger] self.write_buffer@[j]
                    == splice(b1, off, cb)[j] by {
                    if j < off {
                        assert(self.write_buffer@[j] == buf_c[j]);
                        assert(buf_c[j] == buf_b[j]);
                        assert(buf_b[j] == buf_a[j]);
                        assert(buf_a[j] == b1[j]);
                        assert(splice(b1, off, cb)[j] == b1[j]);
                    } else if j < off + 4 {
                        assert(self.write_buffer@[j] == spec_u32_to_le_bytes(record_crc)[j - off]);
                        assert(splice(b1, off, cb)[j] == cb[j - off]);
                    } else if j < off + 9 + payload@.len() {
                        assert(self.write_buffer@[j] == buf_c[j]);
                        assert(buf_c.subrange(off + 4, off + 9 + payload@.len())[j - off - 4]
                            == chunk_body(payload@, tyb)[j - off - 4]);
                        assert(splice(b1, off, cb)[j] == cb[j - off]);
                        assert(cb[j - off] == chunk_body(payload@, tyb)[j - off - 4]);
                    } else {
                        assert(self.write_buffer@[j] == buf_c[j]);
                        assert(buf_c[j] == buf_b[j]);
                        assert(buf_b[j] == buf_a[j]);
                        assert(buf_a[j] == b1[j]);
                        assert(splice(b1, off, cb)[j] == b1.skip(off + cb.len())[j - off
                            - cb.len()]);
                    }
                }
            }
            assert(parse_end(b1, 0) == off);
            lemma_block_append_chunk(b1, self.write_buffer@, tyb, payload@);
        }
        self.write();
        self.buffer_offset = chunk_end;
        proof {
            let b2 = self.write_buffer@;
            let f1 = self.file@;
            let c = Chunk { ty: tyb, payload: payload@ };
            assert(f1 == f0.take(old_pos) + b2);
            if off > 0 {
                // the trailing block was rewritten in place
                assert(old_pos == f0.len() - bs);
                lemma_aligned_sub(f0.len() as int, bs);
                lemma_segment_chunks_split(f0, bs, old_pos);
                assert(f0.skip(old_pos) =~= b1);
                lemma_single_block_chunks(b1, bs);
                lemma_segment_chunks_snoc(f0.take(old_pos), b2, bs);
                assert(segment_chunks(f1, bs) =~= segment_chunks(f0, bs).push(c));
                assert(f0.take(old_pos) =~= f0.take(f0.len() - bs));
                lemma_wf_data_replace_last(f0, b2, bs);
                assert(wf_segment_data(f1, bs));
                // the already parsed bytes of the old trailing block survive
                assert(segment_extends(f1, f0, bs)) by {
                    assert(f1.subrange(0, f0.len() - bs) =~= f0.subrange(0, f0.len() - bs));
                    assert(f1.subrange(f0.len() - bs, f0.len() - bs + off) =~= b1.subrange(
                        0,
                        off,
                    )) by {
                        assert forall|j: int| 0 <= j < off implies #[trigger] f1.subrange(
                            f0.len() - bs,
                            f0.len() - bs + off,
                        )[j] == b1.subrange(0, off)[j] by {
                            assert(f1[f0.len() - bs + j] == b2[j]);
                            assert(b2[j] == splice(b1, off, chunk_bytes(payload@, tyb))[j]);
                        }
                    }
                }
            } else {
                // a fresh block was appended
                assert(old_pos == f0.len());
                assert(f0.take(old_pos) =~= f0);
                assert(f1 =~= f0 + b2);
                assert(parse_chunks(b1, 0) == Seq::<Chunk>::empty());
                lemma_segment_chunks_snoc(f0, b2, bs);
                assert(parse_chunks(b2, 0) =~= seq![c]);
                assert(segment_chunks(f1, bs) =~= segment_chunks(f0, bs).push(c));
                lemma_wf_data_append_block(f0, b2, bs);
                assert(wf_segment_data(f1, bs));
                assert(segment_extends(f1, f0, bs)) by {
                    if f0.len() > 0 {
                        lemma_aligned_diff(0, f0.len() as int, bs);
                        assert(f0.len() >= bs);
                        assert(f1.subrange(0, f0.len() - bs) =~= f0.subrange(0, f0.len() - bs));
                        let lb = f0.subrange(f0.len() - bs, f0.len() as int);
                        let e1 = parse_end(lb, 0);
                        lemma_aligned_sub(f0.len() as int, bs);
                        lemma_wf_block_at(f0, bs, f0.len() - bs);
                        lemma_parse_end_bounds(lb, 0);
                        assert(f1.subrange(f0.len() - bs, f0.len() - bs + e1) =~= lb.subrange(
                            0,
                            e1,
                        ));
                    }
                }
            }
            // the scratch block mirrors the new trailing block
            assert(f1.subrange(f1.len() - bs, f1.len() as int) =~= b2);
        }
    }
}


impl SegmentWriter {
    /// Append one message's bytes: fill the trailing block when it has room
    /// for a header and at least one byte, then write fresh blocks until the
    /// payload is consumed.
    #[verifier::rlimit(100)]
    #[verifier::spinoff_prover]
    fn write_payload(&mut self, payload: &[u8])
        requires
            old(self).wf_core(),
            1 <= payload@.len(),
            old(self).file@.len() + 10 * payload@.len() + 10 * old(self).spec_bs() <= usize::MAX,
        ensures
            final(self).wf_core(),
            final(self).segment_info == old(self).segment_info,
            final(self).spec_bs() == old(self).spec_bs(),
            final(self).messages@ == old(self).messages@.push(payload@),
            segment_extends(final(self).file@, old(self).file@, old(self).spec_bs()),
            segment_chunks(final(self).file@, old(self).spec_bs()) == segment_chunks(
                old(self).file@,
                old(self).spec_bs(),
            ) + message_chunks(
                payload@,
                tail_capacity(old(self).buffer_offset as int, old(self).spec_bs()),
                old(self).spec_bs() - 9,
            ),
            final(self).file@.len() == old(self).file@.len() + old(self).spec_bs()
                * num_fresh_blocks(
                payload@.len() as int,
                tail_capacity(old(self).buffer_offset as int, old(self).spec_bs()),
                old(self).spec_bs() - 9,
            ),
            final(self).file@.len() <= old(self).file@.len() + 10 * payload@.len() + 10 * old(
                self,
            ).spec_bs(),
            old(self).buffer_offset > 0 && old(self).buffer_offset + 9 + payload@.len() <= old(
                self,
            ).spec_bs() ==> final(self).file@.len() == old(self).file@.len(),
            old(self).file@.len() == 0 && payload@.len() + 9 <= old(self).spec_bs() ==> final(self).file@ == chunk_bytes(payload@, 1) + Seq::new(
                (old(self).spec_bs() - 9 - payload@.len()) as nat,
                |i: int| 0u8,
            ),
    {
        let ghost bs = self.spec_bs();
        let ghost f0 = self.file@;
        let ghost msgs0 = self.messages@;
        let ghost chunks0 = segment_chunks(f0, bs);
        let ghost off0 = self.buffer_offset as int;
        let ghost cap0 = tail_capacity(off0, bs);
        let ghost special = f0.len() == 0 && payload@.len() + 9 <= bs;
        let payload_len = payload.len();
        let mut consumed: usize = 0;
        let mut num_pre_chunks: usize = 0;
        if self.is_buffer_hungry() && self.is_buffer_dirty() {
            let open_buffer_size = self.buffer_payload_capacity();
            self.seek_buffer_start();
            num_pre_chunks = 1;
            if payload_len <= open_buffer_size {
                self.write_chunk(payload, 0, 1);
                consumed = payload_len;
                proof {
                    let c = Chunk { ty: 1u8, payload: payload@ };
                    lemma_scan_snoc(segment_chunks(f0, bs), c, scan_init());
                    // the whole message fit the trailing block
                    assert(cap0 >= 1 && payload@.len() <= cap0);
                    assert(message_chunks(payload@, cap0, bs - 9) == seq![c]);
                    assert(segment_chunks(self.file@, bs) =~= chunks0 + message_chunks(
                        payload@,
                        cap0,
                        bs - 9,
                    ));
                    assert(num_fresh_blocks(payload@.len() as int, cap0, bs - 9) == 0);
                    assert(self.file@.len() == f0.len());
                }
            } else {
                let chunk = slice_subrange(payload, 0, open_buffer_size);
                self.write_chunk(chunk, 0, 2);
                consumed = open_buffer_size;
                proof {
                    let c = Chunk { ty: 2u8, payload: payload@.subrange(0, consumed as int) };
                    lemma_scan_snoc(segment_chunks(f0, bs), c, scan_init());
                    assert(payload@.subrange(0, consumed as int) =~= payload@.take(
                        consumed as int,
                    ));
                    assert(consumed == cap0);
                    assert(segment_chunks(self.file@, bs) =~= chunks0 + seq![
                        Chunk { ty: 2u8, payload: payload@.take(cap0) },
                    ]);
                    assert(self.file@.len() == f0.len());
                }
            }
        }
        let ghost c0 = consumed as int;
        let ghost pre = num_pre_chunks as int;
        proof {
            assert(segment_extends(self.file@, f0, bs)) by {
                if consumed == 0 {
                    // nothing written yet
                    if f0.len() > 0 {
                        lemma_aligned_diff(0, f0.len() as int, bs);
                        let lb = f0.subrange(f0.len() - bs, f0.len() as int);
                        lemma_aligned_sub(f0.len() as int, bs);
                        lemma_wf_block_at(f0, bs, f0.len() - bs);
                        lemma_parse_end_bounds(lb, 0);
                        assert(f0.subrange(0, f0.len() - bs) =~= f0.subrange(0, f0.len() - bs));
                        assert(f0.subrange(f0.len() - bs, f0.len() - bs + parse_end(lb, 0))
                            =~= lb.subrange(0, parse_end(lb, 0)));
                    }
                }
            }
        }
        if consumed < payload_len {
            let per = self.num_payload_bytes_per_chunk;
            let remaining = payload_len - consumed;
            let total_chunks = num_pre_chunks + (remaining + per - 1) / per;
            let ghost q = total_chunks - pre;
            let ghost rem0 = remaining as int;
            proof {
                let d = rem0 + per - 1;
                lemma_fundamental_div_mod(d, per as int);
                assert(q == d / (per as int));
                assert(d == per * q + d % (per as int) && 0 <= d % (per as int) < per);
                assert(per * q >= rem0);
                assert(per * (q - 1) < rem0) by (nonlinear_arith)
                    requires
                        per >= 1,
                        d == rem0 + per - 1,
                        d == per * q + d % (per as int),
                        0 <= d % (per as int) < per,
                ;
                assert(q >= 1) by (nonlinear_arith)
                    requires
                        per >= 1,
                        rem0 >= 1,
                        per * q >= rem0,
                ;
                // the loop writes exactly the message's fresh blocks
                if consumed == 0 {
                    assert(cap0 == 0);
                    assert(message_chunks(payload@, cap0, per as int) == fresh_chunks(
                        payload@,
                        per as int,
                        true,
                    ));
                    assert(payload@.skip(0) =~= payload@);
                    assert(q == num_fresh_blocks(payload_len as int, cap0, per as int));
                } else {
                    assert(consumed == cap0 && cap0 >= 1 && payload_len > cap0);
                    assert(message_chunks(payload@, cap0, per as int) == seq![
                        Chunk { ty: 2u8, payload: payload@.take(cap0) },
                    ] + fresh_chunks(payload@.skip(cap0), per as int, false));
                    assert(segment_chunks(self.file@, bs) + fresh_chunks(
                        payload@.skip(consumed as int),
                        per as int,
                        false,
                    ) =~= chunks0 + message_chunks(payload@, cap0, per as int));
                    assert(q == num_fresh_blocks(payload_len as int, cap0, per as int));
                }
            }
            proof {
                // at this point the trailing block, if any, has no room for
                // another chunk: either the tail fill closed it or it was
                // already full
                if self.file@.len() > 0 {
                    assert(self.buffer_offset > 0);
                    assert(self.file@.subrange(
                        self.file@.len() - bs,
                        self.file@.len() as int,
                    ) == self.write_buffer@);
                    assert(parse_end(
                        self.file@.subrange(self.file@.len() - bs, self.file@.len() as int),
                        0,
                    ) == self.buffer_offset);
                }
            }
            let mut j: usize = 0;
            while consumed < payload_len
                invariant
                    self.wf_geom(),
                    wf_segment_data(f0, bs),
                    consumed > 0 ==> self.buffer_offset > 0,
                    self.pos == self.file@.len(),
                    self.segment_info == old(self).segment_info,
                    self.num_payload_bytes_per_chunk == per,
                    self.messages == old(self).messages,
                    self.spec_bs() == bs,
                    per + 9 == bs,
                    payload@.len() == payload_len,
                    consumed <= payload_len,
                    c0 + rem0 == payload_len,
                    0 <= c0,
                    pre == num_pre_chunks,
                    total_chunks == pre + q,
                    pre <= 1,
                    pre == 0 ==> c0 == 0,
                    c0 == 0 ==> pre == 0,
                    per * q >= rem0,
                    per * (q - 1) < rem0,
                    q >= 1,
                    j <= q,
                    consumed < payload_len ==> consumed == c0 + j * per,
                    consumed < payload_len ==> j < q,
                    consumed < payload_len ==> self.file@.len() + 10 * (payload_len - consumed)
                        + 10 * bs <= usize::MAX,
                    consumed < payload_len ==> (self.file@.len() == 0 || parse_end(
                        self.file@.subrange(self.file@.len() - bs, self.file@.len() as int),
                        0,
                    ) + 9 >= bs),
                    segment_extends(self.file@, f0, bs),
                    segment_scan(self.file@, bs).ok,
                    consumed == payload_len ==> segment_scan(self.file@, bs).msgs == msgs0.push(
                        payload@,
                    ) && !segment_scan(self.file@, bs).in_msg,
                    consumed < payload_len && consumed == 0 ==> segment_scan(self.file@, bs).msgs
                        == msgs0 && !segment_scan(self.file@, bs).in_msg,
                    consumed < payload_len && consumed > 0 ==> segment_scan(self.file@, bs).msgs
                        == msgs0 && segment_scan(self.file@, bs).cur == payload@.take(
                        consumed as int,
                    ) && segment_scan(self.file@, bs).in_msg,
                    special == (f0.len() == 0 && payload@.len() + 9 <= bs),
                    chunks0 == segment_chunks(f0, bs),
                    consumed == 0 ==> c0 == 0,
                    self.file@.len() == f0.len() + j * bs,
                    q == num_fresh_blocks(payload_len as int, cap0, per as int),
                    consumed == payload_len ==> j == q,
                    (if consumed < payload_len {
                        segment_chunks(self.file@, bs) + fresh_chunks(
                            payload@.skip(consumed as int),
                            per as int,
                            consumed == 0,
                        ) == chunks0 + message_chunks(payload@, cap0, per as int)
                    } else {
                        segment_chunks(self.file@, bs) == chunks0 + message_chunks(
                            payload@,
                            cap0,
                            per as int,
                        )
                    }),
                    special ==> (c0 == 0 && pre == 0),
                    special ==> (if consumed == 0 {
                        self.file@ == f0
                    } else {
                        self.file@ == chunk_bytes(payload@, 1) + Seq::new(
                            (bs - 9 - payload@.len()) as nat,
                            |x: int| 0u8,
                        )
                    }),
                decreases payload_len - consumed,
            {
                let ghost f_before = self.file@;
                let ghost st_before = segment_scan(self.file@, bs);
                self.clear_buffer();
                let ghost zerobuf = self.write_buffer@;
                let size = if payload_len - consumed < per {
                    payload_len - consumed
                } else {
                    per
                };
                proof {
                    // the chunk being written is the last one exactly when it
                    // reaches the end of the payload
                    if j + 1 == q {
                        assert(rem0 - j * per <= per) by (nonlinear_arith)
                            requires
                                per * q >= rem0,
                                j + 1 == q,
                        ;
                        assert(consumed + size == payload_len);
                    } else {
                        assert(rem0 - j * per > per) by (nonlinear_arith)
                            requires
                                per * (q - 1) < rem0,
                                j + 1 < q,
                                per >= 1,
                        ;
                        assert(size == per);
                        assert(consumed + size < payload_len);
                    }
                }
                let chunk = slice_subrange(payload, consumed, consumed + size);
                let ghost chunk_view = payload@.subrange(consumed as int, consumed + size);
                let ghost tyb = chunk_type_for(j + pre, pre + q);
                self.write_chunk(chunk, j + num_pre_chunks, total_chunks);
                proof {
                    let c = Chunk { ty: tyb, payload: chunk_view };
                    lemma_scan_snoc(segment_chunks(f_before, bs), c, scan_init());
                    assert(segment_scan(self.file@, bs) == scan_step(st_before, c));
                    assert(payload@.take(consumed as int) + chunk_view =~= payload@.take(
                        consumed + size,
                    ));
                    assert(payload@.take(payload_len as int) =~= payload@);
                    assert(chunk_view.len() >= 1);
                    assert((j + 1) * per == j * per + per) by (nonlinear_arith);
                    if consumed == 0 {
                        assert(c0 == 0 && pre == 0);
                        assert(j == 0) by (nonlinear_arith)
                            requires
                                consumed == c0 + j * per,
                                c0 == 0,
                                consumed == 0,
                                per >= 1,
                                0 <= j,
                        ;
                        if j + 1 == q {
                            assert(tyb == 1);
                            assert(chunk_view =~= payload@);
                        } else {
                            assert(tyb == 2);
                            assert(chunk_view =~= payload@.take(size as int));
                        }
                    } else {
                        assert(j + pre >= 1) by {
                            if j == 0 {
                                assert(consumed == c0) by (nonlinear_arith)
                                    requires
                                        consumed == c0 + j * per,
                                        j == 0,
                                ;
                                assert(pre == 1);
                            }
                        }
                        assert(st_before.in_msg && st_before.cur == payload@.take(consumed as int));
                        if j + 1 == q {
                            assert(tyb == 4);
                            assert(st_before.cur + chunk_view =~= payload@);
                        } else {
                            assert(tyb == 3);
                        }
                    }
                    // this chunk is the next chunk of the message's layout
                    let rem = payload@.skip(consumed as int);
                    assert(rem.len() == payload_len - consumed);
                    assert((j + 1) * bs == j * bs + bs) by (nonlinear_arith);
                    if j + 1 == q {
                        assert(rem.len() <= per);
                        assert(chunk_view =~= rem);
                        assert(fresh_chunks(rem, per as int, consumed == 0) == seq![c]);
                        assert(segment_chunks(self.file@, bs) =~= chunks0 + message_chunks(
                            payload@,
                            cap0,
                            per as int,
                        ));
                    } else {
                        assert(rem.len() > per);
                        assert(size == per);
                        assert(chunk_view =~= rem.take(per as int));
                        assert(rem.skip(per as int) =~= payload@.skip(consumed + size));
                        assert(fresh_chunks(rem, per as int, consumed == 0) == seq![c]
                            + fresh_chunks(payload@.skip(consumed + size), per as int, false));
                        assert(segment_chunks(self.file@, bs) + fresh_chunks(
                            payload@.skip(consumed + size),
                            per as int,
                            false,
                        ) =~= chunks0 + message_chunks(payload@, cap0, per as int));
                    }
                    if special {
                        assert(c0 == 0 && pre == 0);
                        assert(rem0 <= per);
                        assert(per * (q - 1) < rem0 && per * q >= rem0);
                        assert(q == 1) by (nonlinear_arith)
                            requires
                                per >= 1,
                                rem0 >= 1,
                                rem0 <= per,
                                per * (q - 1) < rem0,
                                q >= 1,
                        ;
                        assert(j == 0);
                        assert(consumed == 0) by (nonlinear_arith)
                            requires
                                consumed == c0 + j * per,
                                c0 == 0,
                                j == 0,
                        ;
                        assert(chunk_bytes(chunk_view, 1) == chunk_bytes(payload@, 1)) by {
                            assert(chunk_view =~= payload@);
                        }
                        assert(self.file@ =~= chunk_bytes(payload@, 1) + Seq::new(
                            (bs - 9 - payload@.len()) as nat,
                            |x: int| 0u8,
                        )) by {
                            let cb = chunk_bytes(payload@, 1);
                            lemma_auto_spec_u32_to_from_le_bytes();
                            assert(cb.len() == 9 + payload@.len());
                            assert(zerobuf =~= Seq::new(bs as nat, |x: int| 0u8));
                            assert(f_before.take(f_before.len() as int) =~= Seq::<u8>::empty());
                            assert(self.file@ == f_before.take(f_before.len() as int) + splice(
                                zerobuf,
                                0,
                                cb,
                            ));
                            assert(self.file@ =~= splice(zerobuf, 0, cb));
                            assert forall|x: int| 0 <= x < bs implies #[trigger] splice(
                                zerobuf,
                                0,
                                cb,
                            )[x] == (cb + Seq::new(
                                (bs - 9 - payload@.len()) as nat,
                                |y: int| 0u8,
                            ))[x] by {
                                assert(zerobuf.take(0) =~= Seq::<u8>::empty());
                                if x < cb.len() {
                                    assert(splice(zerobuf, 0, cb)[x] == cb[x]);
                                } else {
                                    assert(splice(zerobuf, 0, cb)[x] == zerobuf.skip(
                                        cb.len() as int,
                                    )[x - cb.len()]);
                                    assert(zerobuf[x] == 0);
                                }
                            }
                        }
                    }
                    // chain the extension through this block write
                    lemma_extends_trans(f0, f_before, self.file@, bs);
                }
                j = j + 1;
                consumed = consumed + size;
            }
            proof {
                assert(consumed == payload_len);
                assert(j == q);
                assert(per as int == bs - 9);
                assert(num_fresh_blocks(payload_len as int, cap0, per as int)
                    == num_fresh_blocks(payload_len as int, cap0, bs - 9));
                assert(self.file@.len() == f0.len() + j * bs);
                assert(j * bs == bs * q) by (nonlinear_arith)
                    requires
                        j == q,
                ;
                assert(self.file@.len() == f0.len() + bs * num_fresh_blocks(
                    payload_len as int,
                    cap0,
                    bs - 9,
                ));
                assert(segment_chunks(self.file@, bs) == chunks0 + message_chunks(
                    payload@,
                    cap0,
                    bs - 9,
                ));
            }
        }
        proof {
            lemma_num_fresh_bound(payload_len as int, cap0, bs - 9, bs);
            assert(self.file@.len() == f0.len() + bs * num_fresh_blocks(
                payload_len as int,
                cap0,
                bs - 9,
            ));
            assert(segment_chunks(self.file@, bs) == chunks0 + message_chunks(
                payload@,
                cap0,
                bs - 9,
            ));
            self.messages@ = msgs0.push(payload@);
        }
    }

    /// Append one message to the segment. An empty message is refused with
    /// `EmptyMessage` and the writer is left as it was; otherwise the message
    /// is stored whole and `next_offset` moves one up.
    pub fn append(&mut self, payload: &[u8]) -> (r: Result<(), Error>)
        requires
            old(self).wf(),
            old(self).file@.len() + 10 * payload@.len() + 10 * old(self).spec_bs() <= usize::MAX,
            old(self).segment_info.next_offset < u64::MAX,
        ensures
            final(self).wf(),
            final(self).spec_bs() == old(self).spec_bs(),
            payload@.len() == 0 ==> r == Err::<(), Error>(Error::EmptyMessage) && *final(self)
                == *old(self),
            payload@.len() >= 1 ==> {
                &&& r == Ok::<(), Error>(())
                &&& final(self).spec_messages() == old(self).spec_messages().push(payload@)
                &&& segment_messages(final(self).file_view(), final(self).spec_bs())
                    == segment_messages(old(self).file_view(), old(self).spec_bs()).push(payload@)
                &&& final(self).segment_info.next_offset == old(self).segment_info.next_offset
                    + 1
                &&& final(self).segment_info.path == old(self).segment_info.path
                &&& final(self).segment_info.index == old(self).segment_info.index
                &&& final(self).segment_info.buffer_size == old(self).segment_info.buffer_size
                &&& final(self).segment_info.start_offset == old(self).segment_info.start_offset
                &&& segment_extends(final(self).file_view(), old(self).file_view(), old(
                    self,
                ).spec_bs())
                &&& complete_segment(final(self).file_view(), final(self).spec_bs())
                &&& segment_chunks(final(self).file@, old(self).spec_bs()) == segment_chunks(
                    old(self).file@,
                    old(self).spec_bs(),
                ) + message_chunks(
                    payload@,
                    tail_capacity(old(self).buffer_offset as int, old(self).spec_bs()),
                    old(self).spec_bs() - 9,
                )
                &&& final(self).file@.len() == old(self).file@.len() + old(self).spec_bs()
                    * num_fresh_blocks(
                    payload@.len() as int,
                    tail_capacity(old(self).buffer_offset as int, old(self).spec_bs()),
                    old(self).spec_bs() - 9,
                )
                &&& final(self).file@.len() <= old(self).file@.len() + 10 * payload@.len() + 10
                    * old(self).spec_bs()
                &&& (old(self).buffer_offset > 0 && old(self).buffer_offset + 9 + payload@.len()
                    <= old(self).spec_bs() ==> final(self).file@.len() == old(self).file@.len())
            },
            payload@.len() >= 1 && old(self).file@.len() == 0 && payload@.len() + 9 <= old(self).spec_bs() ==> final(self).file@ == chunk_bytes(payload@, 1) + Seq::new(
                (old(self).spec_bs() - 9 - payload@.len()) as nat,
                |i: int| 0u8,
            ),
    {
        if payload.len() == 0 {
            return Err(Error::EmptyMessage);
        }
        self.write_payload(payload);
        self.segment_info.next_offset = self.segment_info.next_offset + 1;
        Ok(())
    }
}


impl SegmentWriter {
    /// Close the segment: append the 33-byte footer to the file image and
    /// hand back the final descriptor and file bytes. The data region of the
    /// returned file is exactly the blocks written so far.
    pub fn close(self) -> (r: (SegmentInfo, Vec<u8>))
        requires
            self.wf(),
            self.file@.len() + 33 <= usize::MAX,
        ensures
            r.0 == self.spec_info(),
            r.1@ == self.file_view() + footer_bytes(self.spec_info()),
            r.1@.len() == self.file_view().len() + 33,
            r.1@.subrange(0, r.1@.len() - 33) == self.file_view(),
    {
        let mut writer = self;
        let mut footer: Vec<u8> = vec![0u8; FOOTER_BYTE_COUNT];
        let r0 = FOOTER_MAGIC_BYTE.write_bytes(&mut footer, FOOTER_MAGIC_OFFSET);
        let r1 = writer.segment_info.index.write_bytes(&mut footer, FOOTER_INDEX_OFFSET);
        let r2 = writer.segment_info.buffer_size.write_bytes(&mut footer, FOOTER_BUFFER_SIZE_OFFSET);
        let r3 = writer.segment_info.start_offset.write_bytes(&mut footer, FOOTER_START_INDEX_OFFSET);
        let r4 = writer.segment_info.next_offset.write_bytes(&mut footer, FOOTER_NEXT_INDEX_OFFSET);
        proof {
            lemma_auto_spec_u64_to_from_le_bytes();
            assert(footer@ =~= footer_bytes(writer.segment_info));
        }
        let ghost data = writer.file@;
        let mut i: usize = 0;
        while i < FOOTER_BYTE_COUNT
            invariant
                i <= 33,
                footer@.len() == 33,
                footer@ == footer_bytes(writer.segment_info),
                writer.file@ == data + footer@.take(i as int),
                data.len() + 33 <= usize::MAX,
                writer.segment_info == self.segment_info,
            decreases 33 - i,
        {
            let b = footer[i];
            writer.file.push(b);
            proof {
                assert(writer.file@ =~= data + footer@.take(i + 1));
            }
            i += 1;
        }
        proof {
            assert(footer@.take(33) =~= footer@);
            assert((data + footer_bytes(self.segment_info)).subrange(0, data.len() as int)
                =~= data);
        }
        let info = writer.segment_info_snapshot();
        (info, writer.file)
    }
}


// ---------------------------------------------------------------------------
// The segment iterator.
// ---------------------------------------------------------------------------

/// Read the chunk at `offset` of `buffer`, verify its CRC, and push its
/// payload bytes. Returns the chunk's type and the offset just past it; a
/// `Null` type byte leaves everything alone; a stored CRC that does not
/// match the framed bytes is refused with `CrcMismatch`.
pub fn read_message(buffer: &[u8], offset: usize, payload: &mut Vec<u8>) -> (r: Result<
    (ChunkType, usize),
    Error,
>)
    requires
        buffer@.len() <= usize::MAX,
        offset + 9 <= buffer@.len(),
        buffer@[offset + 8] != 0 ==> buffer@[offset + 8] <= 4 && chunk_end_at(
            buffer@,
            offset as int,
        ) <= buffer@.len(),
    ensures
        buffer@[offset + 8] == 0 ==> r == Ok::<(ChunkType, usize), Error>((ChunkType::Null, offset))
            && final(payload)@ == old(payload)@,
        buffer@[offset + 8] != 0 && chunk_crc_ok(buffer@, offset as int) ==> {
            &&& r is Ok
            &&& chunk_type_byte(r.unwrap().0) == buffer@[offset + 8]
            &&& r.unwrap().1 == chunk_end_at(buffer@, offset as int)
            &&& final(payload)@ == old(payload)@ + chunk_at(buffer@, offset as int).payload
        },
        buffer@[offset + 8] != 0 && !chunk_crc_ok(buffer@, offset as int) ==> r == Err::<
            (ChunkType, usize),
            Error,
        >(Error::CrcMismatch) && final(payload)@ == old(payload)@,
{
    let type_byte = *slice_index_get(buffer, offset + TYPE_OFFSET);
    let chunk_type = ChunkType::from_byte(type_byte);
    if type_byte == 0 {
        return Ok((ChunkType::Null, offset));
    }
    let payload_size_u32 = match u32::read_bytes(buffer, offset + LEN_OFFSET) {
        Ok(v) => v,
        Err(_) => {
            proof {
                assert(false);
            }
            0
        },
    };
    let payload_size = payload_size_u32 as usize;
    proof {
        assert(payload_size == chunk_len_at(buffer@, offset as int));
    }
    let payload_start = offset + PAYLOAD_OFFSET;
    let payload_end = offset + PAYLOAD_OFFSET + payload_size;
    let expected_crc = calculate_crc(slice_subrange(buffer, offset + LEN_OFFSET, payload_end));
    let actual_crc = match u32::read_bytes(buffer, offset + CRC_OFFSET) {
        Ok(v) => v,
        Err(_) => {
            proof {
                assert(false);
            }
            0
        },
    };
    if expected_crc != actual_crc {
        return Err(Error::CrcMismatch);
    }
    let ghost base = payload@;
    let mut i: usize = payload_start;
    while i < payload_end
        invariant
            payload_start <= i <= payload_end,
            payload_end <= buffer@.len(),
            payload@ == base + buffer@.subrange(payload_start as int, i as int),
        decreases payload_end - i,
    {
        let b = *slice_index_get(buffer, i);
        payload.push(b);
        proof {
            assert(payload@ =~= base + buffer@.subrange(payload_start as int, i + 1));
        }
        i += 1;
    }
    proof {
        assert(payload@ == base + chunk_at(buffer@, offset as int).payload);
    }
    Ok((chunk_type, payload_end))
}

/// An empty data region is well formed and stores nothing.
pub proof fn lemma_wf_data_empty(bs: int)
    requires
        10 <= bs <= u32::MAX,
    ensures
        wf_segment_data(Seq::<u8>::empty(), bs),
        complete_segment(Seq::<u8>::empty(), bs),
        segment_messages(Seq::<u8>::empty(), bs) == Seq::<Seq<u8>>::empty(),
{
    let f = Seq::<u8>::empty();
    vstd::arithmetic::div_mod::lemma_mod_multiples_basic(0, bs);
    assert(0int * bs == 0) by (nonlinear_arith);
    assert(f.len() as int % bs == 0);
    assert forall|i: int| 0 <= i && (i + 1) * bs <= f.len() implies wf_from(
        #[trigger] f.subrange(i * bs, (i + 1) * bs),
        0,
    ) by {
        assert((i + 1) * bs >= bs) by (nonlinear_arith)
            requires
                i >= 0,
                bs >= 1,
        ;
    }
    assert forall|i: int| 0 <= i && (i + 2) * bs <= f.len() implies parse_end(
        #[trigger] f.subrange(i * bs, (i + 1) * bs),
        0,
    ) + 9 >= bs by {
        assert((i + 2) * bs >= bs) by (nonlinear_arith)
            requires
                i >= 0,
                bs >= 1,
        ;
    }
    assert(segment_chunks(f, bs) == Seq::<Chunk>::empty());
}

/// A failed walk stays failed, so every prefix of a valid walk is valid.
pub proof fn lemma_scan_prefix_ok(a: Seq<Chunk>, b: Seq<Chunk>, st: ScanState)
    requires
        scan(a + b, st).ok,
    ensures
        scan(a, st).ok,
        scan(a, st).msgs.len() <= scan(a + b, st).msgs.len(),
        forall|i: int|
            0 <= i < scan(a, st).msgs.len() ==> scan(a + b, st).msgs[i] == scan(a, st).msgs[i],
{
    lemma_scan_concat(a, b, st);
    if !scan(a, st).ok {
        lemma_scan_fail(b, scan(a, st));
    }
    lemma_scan_msgs_grow(b, scan(a, st));
}

/// Reads a segment's messages in order, one block at a time, re-reading the
/// trailing block of an open segment when it was packed further after an
/// earlier read.
///
/// `next` takes the current segment file bytes on every call, so a reader
/// may keep observing a segment that is still being written.
pub struct SegmentIterator {
    pub buffer: Vec<u8>,
    pub offset: usize,
    pub pos: usize,
    pub snap: Ghost<Seq<u8>>,
    pub read: Ghost<Seq<Chunk>>,
}

impl SegmentIterator {
    pub open spec fn spec_bs(self) -> int {
        self.buffer@.len() as int
    }

    /// How many messages this iterator has yielded.
    pub open spec fn num_read(self) -> nat {
        scan(self.read@, scan_init()).msgs.len()
    }

    /// Positional invariant: `snap` is the file as of the last block read,
    /// `buffer` its block before `pos`, and `read` the chunks consumed,
    /// which are those of the blocks before `pos` up to `offset`.
    pub open spec fn wf_pos(self) -> bool {
        let bs = self.spec_bs();
        &&& 10 <= bs <= u32::MAX
        &&& self.offset <= bs
        &&& self.pos as int % bs == 0
        &&& self.pos <= self.snap@.len()
        &&& wf_segment_data(self.snap@, bs)
        &&& complete_segment(self.snap@, bs)
        &&& if self.pos == 0 {
            self.offset == bs && self.read@ == Seq::<Chunk>::empty() && self.snap@.len() == 0
        } else {
            let prev = segment_chunks(self.snap@.take(self.pos - bs), bs);
            &&& self.buffer@ == self.snap@.subrange(self.pos - bs, self.pos as int)
            &&& self.read@.take(prev.len() as int) == prev
            &&& prev.len() <= self.read@.len()
            &&& parse_chunks(self.buffer@, 0) == self.read@.skip(prev.len() as int)
                + parse_chunks(self.buffer@, self.offset as int)
            &&& parse_end(self.buffer@, self.offset as int) == parse_end(self.buffer@, 0)
            &&& wf_from(self.buffer@, self.offset as int)
        }
    }

    /// The full iterator invariant: positioned at a message boundary.
    pub open spec fn wf_iter(self) -> bool {
        &&& self.wf_pos()
        &&& scan(self.read@, scan_init()).ok
        &&& !scan(self.read@, scan_init()).in_msg
        &&& scan(self.read@, scan_init()).cur == Seq::<u8>::empty()
    }
}

/// The chunks of the snapshot split into those consumed, those still ahead
/// in the buffered block, and those of the blocks not yet read.
pub proof fn lemma_iter_decompose(it: SegmentIterator)
    requires
        it.wf_pos(),
    ensures
        segment_chunks(it.snap@, it.spec_bs()) == it.read@ + parse_chunks(
            it.buffer@,
            it.offset as int,
        ) + segment_chunks(it.snap@.skip(it.pos as int), it.spec_bs()),
{
    let bs = it.spec_bs();
    if it.pos == 0 {
        assert(!has_chunk_at(it.buffer@, it.offset as int));
        assert(parse_chunks(it.buffer@, it.offset as int) == Seq::<Chunk>::empty());
        assert(it.snap@.skip(0) =~= it.snap@);
        assert(it.snap@.len() == 0);
        assert(segment_chunks(it.snap@, bs) == Seq::<Chunk>::empty());
        assert(segment_chunks(it.snap@, bs) =~= it.read@ + parse_chunks(
            it.buffer@,
            it.offset as int,
        ) + segment_chunks(it.snap@.skip(it.pos as int), bs));
    } else {
        let p = it.pos as int;
        lemma_aligned_diff(0, p, bs);
        lemma_aligned_sub(p, bs);
        lemma_segment_chunks_split(it.snap@, bs, p - bs);
        vstd::arithmetic::div_mod::lemma_mod_self_0(bs);
        lemma_segment_chunks_split(it.snap@.skip(p - bs), bs, bs);
        assert(it.snap@.skip(p - bs).take(bs) =~= it.buffer@);
        lemma_single_block_chunks(it.buffer@, bs);
        assert(it.snap@.skip(p - bs).skip(bs) =~= it.snap@.skip(p));
        let prev = segment_chunks(it.snap@.take(p - bs), bs);
        assert(it.read@ =~= prev + it.read@.skip(prev.len() as int));
        assert(segment_chunks(it.snap@, bs) =~= it.read@ + parse_chunks(
            it.buffer@,
            it.offset as int,
        ) + segment_chunks(it.snap@.skip(p), bs));
    }
}


impl SegmentInfo {
    /// A fresh iterator over this segment's data blocks. Its `next` takes
    /// the segment file's data region (the blocks, without any footer).
    pub fn iter(&self) -> (r: SegmentIterator)
        requires
            10 <= self.buffer_size <= u32::MAX,
        ensures
            r.wf_iter(),
            r.spec_bs() == self.buffer_size,
            r.num_read() == 0,
            r.snap@ == Seq::<u8>::empty(),
    {
        let bs = self.buffer_size as usize;
        let buffer = vec![0u8; bs];
        let r = SegmentIterator {
            buffer,
            offset: bs,
            pos: 0,
            snap: Ghost(Seq::empty()),
            read: Ghost(Seq::empty()),
        };
        proof {
            lemma_wf_data_empty(r.spec_bs());
            vstd::arithmetic::div_mod::lemma_mod_multiples_basic(0, r.spec_bs());
            assert(0int * r.spec_bs() == 0) by (nonlinear_arith);
        }
        r
    }
}

impl SegmentIterator {
    fn is_buffer_exhausted(&self) -> (r: bool)
        requires
            self.buffer@.len() >= 9,
        ensures
            r == (self.offset + 9 >= self.buffer@.len()),
    {
        self.offset >= self.buffer.len() - NUM_HEADER_BYTES
    }

    fn is_stale(&self) -> (r: bool)
        requires
            self.buffer@.len() <= usize::MAX,
            self.offset + 9 < self.buffer@.len(),
        ensures
            r == (self.buffer@[self.offset + 8] == 0),
    {
        self.buffer[self.offset + TYPE_OFFSET] == 0
    }

    /// Read the next block of `file` into the buffer; fails when no whole
    /// block is left.
    fn load_buffer(&mut self, file: &[u8]) -> (r: bool)
        requires
            old(self).pos <= file@.len(),
            old(self).buffer@.len() >= 1,
        ensures
            r == (old(self).pos + old(self).buffer@.len() <= file@.len()),
            final(self).buffer@.len() == old(self).buffer@.len(),
            final(self).snap == old(self).snap,
            final(self).read == old(self).read,
            r ==> {
                &&& final(self).buffer@ == file@.subrange(
                    old(self).pos as int,
                    old(self).pos + old(self).buffer@.len(),
                )
                &&& final(self).offset == 0
                &&& final(self).pos == old(self).pos + old(self).buffer@.len()
            },
            !r ==> *final(self) == *old(self),
    {
        let bs = self.buffer.len();
        let flen = file.len();
        if flen - self.pos < bs {
            return false;
        }
        let mut i: usize = 0;
        while i < bs
            invariant
                i <= bs,
                self.buffer@.len() == bs,
                self.pos == old(self).pos,
                flen == file@.len(),
                self.pos + bs <= flen,
                self.offset == old(self).offset,
                self.snap == old(self).snap,
                self.read == old(self).read,
                forall|j: int| 0 <= j < i ==> self.buffer@[j] == file@[self.pos + j],
            decreases bs - i,
        {
            let b = *slice_index_get(file, self.pos + i);
            self.buffer[i] = b;
            i += 1;
        }
        proof {
            assert(self.buffer@ =~= file@.subrange(self.pos as int, self.pos + bs));
        }
        self.offset = 0;
        self.pos = self.pos + bs;
        true
    }

    /// Re-read the block the buffer mirrors, to pick up chunks packed into
    /// it since it was last read.
    fn reload_buffer(&mut self, file: &[u8])
        requires
            old(self).buffer@.len() <= old(self).pos <= file@.len(),
        ensures
            final(self).buffer@.len() == old(self).buffer@.len(),
            final(self).buffer@ == file@.subrange(
                old(self).pos - old(self).buffer@.len(),
                old(self).pos as int,
            ),
            final(self).offset == old(self).offset,
            final(self).pos == old(self).pos,
            final(self).snap == old(self).snap,
            final(self).read == old(self).read,
    {
        let bs = self.buffer.len();
        let flen = file.len();
        let start = self.pos - bs;
        let mut i: usize = 0;
        while i < bs
            invariant
                i <= bs,
                self.buffer@.len() == bs,
                flen == file@.len(),
                start + bs <= flen,
                start == old(self).pos - bs,
                self.pos == old(self).pos,
                self.offset == old(self).offset,
                self.snap == old(self).snap,
                self.read == old(self).read,
                forall|j: int| 0 <= j < i ==> self.buffer@[j] == file@[start + j],
            decreases bs - i,
        {
            let b = *slice_index_get(file, start + i);
            self.buffer[i] = b;
            i += 1;
        }
        proof {
            assert(self.buffer@ =~= file@.subrange(start as int, start + bs));
        }
    }
}


/// A data region extends itself.
pub proof fn lemma_extends_refl(f: Seq<u8>, bs: int)
    requires
        bs >= 1,
        f.len() as int % bs == 0,
    ensures
        segment_extends(f, f, bs),
{
    let n1 = f.len() as int;
    if n1 > 0 {
        lemma_aligned_diff(0, n1, bs);
        let b1 = f.subrange(n1 - bs, n1);
        let e1 = parse_end(b1, 0);
        lemma_parse_end_bounds(b1, 0);
        assert(f.subrange(n1 - bs, n1 - bs + e1) =~= b1.subrange(0, e1));
    }
}

/// When the buffered block is consumed to its end and that end has no room
/// for another chunk, everything before `pos` has been read, in any
/// extension of the snapshot.
pub proof fn lemma_iter_read_all_upto(it: SegmentIterator, file: Seq<u8>)
    requires
        it.wf_pos(),
        wf_segment_data(file, it.spec_bs()),
        segment_extends(file, it.snap@, it.spec_bs()),
        parse_chunks(it.buffer@, it.offset as int) == Seq::<Chunk>::empty(),
        it.offset + 9 >= it.spec_bs() || it.pos == 0,
    ensures
        it.read@ == segment_chunks(file.take(it.pos as int), it.spec_bs()),
{
    let bs = it.spec_bs();
    let p = it.pos as int;
    if it.pos == 0 {
        assert(file.take(0).len() == 0);
        assert(segment_chunks(file.take(0), bs) == Seq::<Chunk>::empty());
        assert(it.read@ =~= segment_chunks(file.take(0), bs));
    } else {
        lemma_aligned_diff(0, p, bs);
        lemma_aligned_sub(p, bs);
        let b1 = it.buffer@;
        let prev = segment_chunks(it.snap@.take(p - bs), bs);
        // the block's chunks were consumed in full
        assert(it.read@ =~= prev + it.read@.skip(prev.len() as int));
        assert(parse_chunks(b1, 0) == it.read@.skip(prev.len() as int));
        // parsing stopped exactly at offset
        assert(parse_end(b1, it.offset as int) == it.offset);
        assert(parse_end(b1, 0) == it.offset);
        // the same prefix of blocks sits in `file`
        assert(file.take(p - bs) =~= it.snap@.take(p - bs)) by {
            let n1 = it.snap@.len() as int;
            lemma_aligned_diff(p, n1, bs);
            assert forall|i: int| 0 <= i < p - bs implies #[trigger] file.take(p - bs)[i]
                == it.snap@.take(p - bs)[i] by {
                assert(file.subrange(0, n1 - bs)[i] == it.snap@.subrange(0, n1 - bs)[i]);
            }
        }
        lemma_segment_chunks_split(file.take(p), bs, p - bs);
        assert(file.take(p).take(p - bs) =~= file.take(p - bs));
        let b2 = file.subrange(p - bs, p);
        assert(file.take(p).skip(p - bs) =~= b2);
        lemma_single_block_chunks(b2, bs);
        assert(segment_chunks(file.take(p), bs) == segment_chunks(file.take(p - bs), bs)
            + parse_chunks(b2, 0));
        let n1 = it.snap@.len() as int;
        if p < n1 {
            // an interior block: byte-identical in `file`
            lemma_aligned_diff(p, n1, bs);
            assert(b2 =~= b1) by {
                assert forall|i: int| 0 <= i < bs implies #[trigger] b2[i] == b1[i] by {
                    assert(file.subrange(0, n1 - bs)[p - bs + i] == it.snap@.subrange(
                        0,
                        n1 - bs,
                    )[p - bs + i]);
                }
            }
            assert(parse_chunks(b2, 0) == parse_chunks(b1, 0));
        } else {
            // the snapshot's trailing block, possibly packed further since
            assert(p == n1);
            let e1 = parse_end(b1, 0);
            lemma_wf_block_at(it.snap@, bs, p - bs);
            assert(wf_from(b1, 0));
            lemma_parse_end_bounds(b1, 0);
            assert(forall|i: int| 0 <= i < e1 ==> b1[i] == b2[i]) by {
                assert forall|i: int| 0 <= i < e1 implies #[trigger] b1[i] == b2[i] by {
                    assert(file.subrange(n1 - bs, n1 - bs + e1)[i] == b1.subrange(0, e1)[i]);
                }
            }
            lemma_parse_agree(b1, b2, 0);
            lemma_wf_block_at(file, bs, p - bs);
            assert(wf_from(b2, 0));
            assert(wf_from(b2, e1));
            // no further chunk fits at e1
            assert(parse_chunks(b2, e1) == Seq::<Chunk>::empty()) by {
                if has_chunk_at(b2, e1) {
                    assert(chunk_len_at(b2, e1) >= 1);
                }
            }
            assert(parse_chunks(b2, 0) == parse_chunks(b1, 0));
        }
        assert(it.read@ =~= segment_chunks(file.take(p), bs));
    }
}

/// Re-establish the positional invariant after reading the block at `pos`
/// out of `file` and moving past it.
pub proof fn lemma_iter_after_load(pre: SegmentIterator, post: SegmentIterator, file: Seq<u8>)
    requires
        pre.wf_pos(),
        wf_segment_data(file, pre.spec_bs()),
        complete_segment(file, pre.spec_bs()),
        segment_extends(file, pre.snap@, pre.spec_bs()),
        pre.offset + 9 >= pre.spec_bs() || pre.pos == 0,
        parse_chunks(pre.buffer@, pre.offset as int) == Seq::<Chunk>::empty(),
        pre.pos + pre.spec_bs() <= file.len(),
        post.buffer@ == file.subrange(pre.pos as int, pre.pos + pre.spec_bs()),
        post.buffer@.len() == pre.spec_bs(),
        post.offset == 0,
        post.pos == pre.pos + pre.spec_bs(),
        post.read == pre.read,
        post.snap@ == file,
    ensures
        post.wf_pos(),
{
    let bs = pre.spec_bs();
    let p = post.pos as int;
    lemma_iter_read_all_upto(pre, file, );
    lemma_fundamental_div_mod(pre.pos as int, bs);
    let q = pre.pos as int / bs;
    assert(pre.pos as int == bs * q);
    assert(pre.pos as int + bs == (q + 1) * bs) by (nonlinear_arith)
        requires
            pre.pos as int == bs * q,
    ;
    vstd::arithmetic::div_mod::lemma_mod_multiples_basic(q + 1, bs);
    assert(((q + 1) * bs) % bs == 0);
    assert(post.pos as int % bs == 0);
    let prev = segment_chunks(file.take(p - bs), bs);
    assert(prev == post.read@);
    assert(post.read@.take(prev.len() as int) =~= prev);
    lemma_wf_block_at(file, bs, p - bs);
    assert(wf_from(post.buffer@, 0));
    assert(parse_chunks(post.buffer@, 0) =~= post.read@.skip(prev.len() as int) + parse_chunks(
        post.buffer@,
        0,
    ));
}

/// Re-establish the positional invariant after re-reading the buffered
/// block out of `file`.
pub proof fn lemma_iter_after_reload(pre: SegmentIterator, post: SegmentIterator, file: Seq<u8>)
    requires
        pre.wf_pos(),
        wf_segment_data(file, pre.spec_bs()),
        complete_segment(file, pre.spec_bs()),
        segment_extends(file, pre.snap@, pre.spec_bs()),
        pre.pos > 0,
        post.buffer@ == file.subrange(pre.pos - pre.spec_bs(), pre.pos as int),
        post.buffer@.len() == pre.spec_bs(),
        post.offset == pre.offset,
        post.pos == pre.pos,
        post.read == pre.read,
        post.snap@ == file,
    ensures
        post.wf_pos(),
{
    let bs = pre.spec_bs();
    let p = pre.pos as int;
    let n1 = pre.snap@.len() as int;
    let b1 = pre.buffer@;
    let b2 = post.buffer@;
    lemma_aligned_diff(0, p, bs);
    lemma_aligned_sub(p, bs);
    lemma_aligned_diff(p, n1, bs);
    assert(file.take(p - bs) =~= pre.snap@.take(p - bs)) by {
        assert forall|i: int| 0 <= i < p - bs implies #[trigger] file.take(p - bs)[i]
            == pre.snap@.take(p - bs)[i] by {
            assert(file.subrange(0, n1 - bs)[i] == pre.snap@.subrange(0, n1 - bs)[i]);
        }
    }
    let prev = segment_chunks(pre.snap@.take(p - bs), bs);
    assert(segment_chunks(file.take(p - bs), bs) == prev);
    if p < n1 {
        assert(b2 =~= b1) by {
            assert forall|i: int| 0 <= i < bs implies #[trigger] b2[i] == b1[i] by {
                assert(file.subrange(0, n1 - bs)[p - bs + i] == pre.snap@.subrange(0, n1 - bs)[p
                    - bs + i]);
            }
        }
    } else {
        assert(p == n1);
        let e1 = parse_end(b1, 0);
        lemma_wf_block_at(pre.snap@, bs, p - bs);
        assert(wf_from(b1, 0));
        lemma_parse_end_bounds(b1, 0);
        assert(forall|i: int| 0 <= i < e1 ==> b1[i] == b2[i]) by {
            assert forall|i: int| 0 <= i < e1 implies #[trigger] b1[i] == b2[i] by {
                assert(file.subrange(n1 - bs, n1 - bs + e1)[i] == b1.subrange(0, e1)[i]);
            }
        }
        lemma_parse_agree(b1, b2, 0);
        lemma_wf_block_at(file, bs, p - bs);
        assert(wf_from(b2, 0));
        assert(wf_from(b2, e1));
        // the bytes parsed so far agree, so the consumed prefix does too
        lemma_parse_end_bounds(b1, pre.offset as int);
        assert(parse_end(b1, pre.offset as int) == e1);
        assert(forall|i: int|
            pre.offset as int <= i < parse_end(b1, pre.offset as int) ==> b1[i] == b2[i]);
        lemma_parse_agree(b1, b2, pre.offset as int);
        assert(parse_chunks(b2, pre.offset as int) == parse_chunks(b1, pre.offset as int)
            + parse_chunks(b2, e1));
        assert(wf_from(b2, pre.offset as int));
        assert(parse_end(b2, pre.offset as int) == parse_end(b2, e1));
        assert(parse_end(b2, 0) == parse_end(b2, e1));
        assert(parse_chunks(b2, 0) =~= post.read@.skip(prev.len() as int) + parse_chunks(
            b2,
            pre.offset as int,
        ));
    }
}


/// Re-establish the positional invariant after consuming the chunk at
/// `offset`.
pub proof fn lemma_iter_consume(pre: SegmentIterator, post: SegmentIterator)
    requires
        pre.wf_pos(),
        pre.pos > 0,
        has_chunk_at(pre.buffer@, pre.offset as int),
        post.buffer == pre.buffer,
        post.pos == pre.pos,
        post.snap == pre.snap,
        post.offset == chunk_end_at(pre.buffer@, pre.offset as int),
        post.read@ == pre.read@.push(chunk_at(pre.buffer@, pre.offset as int)),
    ensures
        post.wf_pos(),
        parse_chunks(pre.buffer@, pre.offset as int) == seq![
            chunk_at(pre.buffer@, pre.offset as int),
        ] + parse_chunks(pre.buffer@, post.offset as int),
{
    let bs = pre.spec_bs();
    let b = pre.buffer@;
    let o = pre.offset as int;
    let e = chunk_end_at(b, o);
    let c = chunk_at(b, o);
    assert(parse_chunks(b, o) == seq![c] + parse_chunks(b, e));
    assert(parse_end(b, o) == parse_end(b, e));
    assert(wf_from(b, e));
    let prev = segment_chunks(pre.snap@.take(pre.pos - bs), bs);
    assert(post.read@.take(prev.len() as int) =~= prev);
    assert(parse_chunks(b, 0) =~= post.read@.skip(prev.len() as int) + parse_chunks(b, e)) by {
        assert(pre.read@.skip(prev.len() as int).push(c) =~= post.read@.skip(prev.len() as int));
    }
}


impl SegmentIterator {
    /// Yield the next message of the segment whose current data-region
    /// bytes are `file`, or `None` when every stored message has been
    /// yielded. `file` must be well formed and complete, and extend the
    /// bytes this iterator has already seen; passing the same segment's
    /// bytes after further appends is how a reader tails an open segment.
    #[verifier::rlimit(100)]
    #[verifier::spinoff_prover]
    pub fn next(&mut self, file: &[u8]) -> (r: Option<Vec<u8>>)
        requires
            old(self).wf_iter(),
            wf_segment_data(file@, old(self).spec_bs()),
            complete_segment(file@, old(self).spec_bs()),
            segment_extends(file@, old(self).snap@, old(self).spec_bs()),
        ensures
            final(self).wf_iter(),
            final(self).spec_bs() == old(self).spec_bs(),
            final(self).snap@ == old(self).snap@ || final(self).snap@ == file@,
            segment_extends(file@, final(self).snap@, final(self).spec_bs()),
            ({
                let msgs = segment_messages(file@, old(self).spec_bs());
                if old(self).num_read() < msgs.len() {
                    &&& r is Some
                    &&& r.unwrap()@ == msgs[old(self).num_read() as int]
                    &&& final(self).num_read() == old(self).num_read() + 1
                } else {
                    &&& r is None
                    &&& final(self).num_read() == old(self).num_read()
                }
            }),
    {
        let ghost bs = self.spec_bs();
        let ghost k0 = self.num_read();
        let ghost kf = segment_chunks(file@, bs);
        let ghost big_m = segment_messages(file@, bs);
        let ghost snap0 = self.snap@;
        let flen = file.len();
        proof {
            assert(file@.len() == flen);
            lemma_extends_chunks(self.snap@, file@, bs);
            lemma_iter_decompose(*self);
            assert(self.read@ =~= kf.take(self.read@.len() as int));
        }
        let mut payload: Vec<u8> = Vec::new();
        if !self.is_buffer_exhausted() {
            if self.is_stale() {
                proof {
                    if self.pos == 0 {
                        assert(self.offset + 9 >= bs);
                        assert(false);
                    }
                    lemma_aligned_diff(0, self.pos as int, bs);
                }
                let ghost pre = *self;
                self.reload_buffer(file);
                proof {
                    self.snap@ = file@;
                    lemma_iter_after_reload(pre, *self, file@);
                    lemma_extends_refl(file@, bs);
                    lemma_extends_chunks(self.snap@, file@, bs);
                    lemma_iter_decompose(*self);
                    assert(self.read@ =~= kf.take(self.read@.len() as int));
                }
                if self.is_stale() {
                    proof {
                        // no chunk where parsing stopped, and room for one:
                        // this is the last block, and all chunks are read
                        assert(!has_chunk_at(self.buffer@, self.offset as int)) by {
                            if has_chunk_at(self.buffer@, self.offset as int) {
                                assert(self.buffer@[self.offset + 8] != 0);
                            }
                        }
                        assert(parse_chunks(self.buffer@, self.offset as int) == Seq::<
                            Chunk,
                        >::empty());
                        assert(parse_end(self.buffer@, self.offset as int) == self.offset);
                        let p = self.pos as int;
                        let n1 = self.snap@.len() as int;
                        if p < n1 {
                            lemma_aligned_diff(p, n1, bs);
                            lemma_aligned_sub(p, bs);
                            lemma_wf_block_at(self.snap@, bs, p - bs);
                            assert(parse_end(self.buffer@, 0) + 9 >= bs);
                            assert(false);
                        }
                        lemma_iter_decompose(*self);
                        assert(self.snap@.skip(p).len() == 0);
                        assert(segment_chunks(self.snap@.skip(p), bs) == Seq::<Chunk>::empty());
                        assert(kf =~= self.read@);
                        assert(scan(self.read@, scan_init()).msgs.len() == big_m.len());
                    }
                    return None;
                }
            }
        }
        loop
            invariant
                self.wf_pos(),
                self.spec_bs() == bs,
                bs == old(self).spec_bs(),
                k0 == old(self).num_read(),
                snap0 == old(self).snap@,
                wf_segment_data(file@, bs),
                complete_segment(file@, bs),
                file@.len() <= usize::MAX,
                segment_extends(file@, self.snap@, bs),
                self.snap@ == file@ || self.snap@ == snap0,
                segment_extends(file@, snap0, bs),
                kf == segment_chunks(file@, bs),
                big_m == segment_messages(file@, bs),
                self.read@ == kf.take(self.read@.len() as int),
                self.read@.len() <= kf.len(),
                scan(self.read@, scan_init()).ok,
                scan(self.read@, scan_init()).msgs.len() == k0,
                scan(self.read@, scan_init()).cur == payload@,
                !scan(self.read@, scan_init()).in_msg ==> payload@.len() == 0,
                self.snap@ == file@ || scan(self.read@, scan_init()).in_msg || parse_chunks(
                    self.buffer@,
                    self.offset as int,
                ).len() > 0 || self.offset + 9 >= bs,
            decreases file@.len() - self.pos, bs - self.offset,
        {
            if self.is_buffer_exhausted() {
                let ghost pre = *self;
                proof {
                    // parsing has stopped at or before this offset
                    assert(parse_chunks(self.buffer@, self.offset as int) == Seq::<
                        Chunk,
                    >::empty()) by {
                        if self.pos > 0 {
                            if has_chunk_at(self.buffer@, self.offset as int) {
                                assert(wf_from(self.buffer@, self.offset as int));
                                assert(chunk_len_at(self.buffer@, self.offset as int) >= 1);
                            }
                        } else {
                            assert(self.offset == bs);
                        }
                    }
                }
                if !self.load_buffer(file) {
                    proof {
                        lemma_aligned_diff(self.pos as int, file@.len() as int, bs);
                        assert(self.pos == file@.len());
                        lemma_iter_read_all_upto(*self, file@);
                        assert(file@.take(self.pos as int) =~= file@);
                        assert(self.read@ == kf);
                        assert(scan(self.read@, scan_init()).msgs.len() == big_m.len());
                        assert(!scan(self.read@, scan_init()).in_msg);
                        assert(scan(self.read@, scan_init()).cur =~= Seq::<u8>::empty());
                    }
                    return None;
                }
                proof {
                    self.snap@ = file@;
                    lemma_iter_after_load(pre, *self, file@);
                    lemma_extends_refl(file@, bs);
                    lemma_extends_chunks(self.snap@, file@, bs);
                    lemma_iter_decompose(*self);
                    assert(self.read@ =~= kf.take(self.read@.len() as int));
                }
            }
            let ghost pre2 = *self;
            let ghost st = scan(self.read@, scan_init());
            let res = read_message(self.buffer.as_slice(), self.offset, &mut payload);
            let step = match res {
                Ok(v) => v,
                Err(_) => {
                    proof {
                        assert(wf_from(self.buffer@, self.offset as int));
                        assert(false);
                    }
                    return None;
                },
            };
            let chunk_type = step.0;
            let new_offset = step.1;
            match chunk_type {
                ChunkType::Null => {
                    proof {
                        assert(self.buffer@[self.offset + 8] == 0);
                        assert(!has_chunk_at(self.buffer@, self.offset as int));
                        assert(parse_chunks(self.buffer@, self.offset as int) == Seq::<
                            Chunk,
                        >::empty());
                        assert(parse_end(self.buffer@, self.offset as int) == self.offset);
                        assert(self.offset + 9 < bs);
                        let p = self.pos as int;
                        let n1 = self.snap@.len() as int;
                        assert(p > 0);
                        if p < n1 {
                            lemma_aligned_diff(0, p, bs);
                            lemma_aligned_diff(p, n1, bs);
                            lemma_aligned_sub(p, bs);
                            lemma_wf_block_at(self.snap@, bs, p - bs);
                            assert(parse_end(self.buffer@, 0) + 9 >= bs);
                            assert(false);
                        }
                        lemma_iter_decompose(*self);
                        assert(self.snap@.skip(p).len() == 0);
                        assert(segment_chunks(self.snap@.skip(p), bs) == Seq::<Chunk>::empty());
                        assert(self.read@ =~= segment_chunks(self.snap@, bs));
                        if scan(self.read@, scan_init()).in_msg {
                            assert(!complete_segment(self.snap@, bs));
                            assert(false);
                        }
                        assert(self.snap@ == file@);
                        assert(self.read@ == kf);
                        assert(scan(self.read@, scan_init()).msgs.len() == big_m.len());
                        assert(scan(self.read@, scan_init()).cur =~= Seq::<u8>::empty());
                    }
                    return None;
                },
                _ => {},
            }
            // a real chunk: consume it
            let ghost c = chunk_at(pre2.buffer@, pre2.offset as int);
            self.offset = new_offset;
            proof {
                assert(pre2.buffer@[pre2.offset + 8] != 0);
                assert(has_chunk_at(pre2.buffer@, pre2.offset as int)) by {
                    assert(wf_from(pre2.buffer@, pre2.offset as int));
                }
                self.read@ = pre2.read@.push(c);
                lemma_iter_consume(pre2, *self);
                // the chunk consumed is the next one of the whole stream
                lemma_iter_decompose(pre2);
                lemma_extends_chunks(pre2.snap@, file@, bs);
                assert(segment_chunks(pre2.snap@, bs)[pre2.read@.len() as int] == c);
                assert(kf[pre2.read@.len() as int] == c) by {
                    assert(segment_chunks(pre2.snap@, bs) == kf.take(segment_chunks(
                        pre2.snap@,
                        bs,
                    ).len() as int));
                }
                assert(self.read@ =~= kf.take(self.read@.len() as int));
                // walking one chunk further stays valid
                lemma_scan_snoc(pre2.read@, c, scan_init());
                assert(scan(self.read@, scan_init()) == scan_step(st, c));
                assert(kf =~= self.read@ + kf.skip(self.read@.len() as int));
                lemma_scan_prefix_ok(self.read@, kf.skip(self.read@.len() as int), scan_init());
                assert(scan(self.read@, scan_init()).ok);
                assert(c.payload.len() >= 1) by {
                    assert(wf_from(pre2.buffer@, pre2.offset as int));
                }
            }
            match chunk_type {
                ChunkType::Full | ChunkType::End => {
                    proof {
                        let st1 = scan(self.read@, scan_init());
                        if chunk_type_byte(chunk_type) == 1 {
                            assert(!st.in_msg);
                            assert(st1.msgs == st.msgs.push(c.payload));
                            assert(payload@ == c.payload);
                        } else {
                            assert(chunk_type_byte(chunk_type) == 4);
                            assert(st.in_msg);
                            assert(st1.msgs == st.msgs.push(st.cur + c.payload));
                            assert(payload@ == st.cur + c.payload);
                        }
                        assert(st1.msgs.len() == k0 + 1);
                        assert(st1.msgs[k0 as int] == payload@);
                        assert(k0 < big_m.len());
                        assert(big_m[k0 as int] == payload@);
                        assert(!st1.in_msg && st1.cur == Seq::<u8>::empty());
                    }
                    return Some(payload);
                },
                _ => {
                    proof {
                        let st1 = scan(self.read@, scan_init());
                        if chunk_type_byte(chunk_type) == 2 {
                            assert(!st.in_msg);
                            assert(st1.cur == c.payload);
                            assert(payload@ == c.payload);
                        } else {
                            assert(chunk_type_byte(chunk_type) == 3);
                            assert(st.in_msg);
                            assert(st1.cur == st.cur + c.payload);
                            assert(payload@ == st.cur + c.payload);
                        }
                        assert(st1.in_msg);
                        assert(st1.msgs == st.msgs);
                    }
                },
            }
        }
    }
}


// ---------------------------------------------------------------------------
// Deciding well-formedness of given bytes.
// ---------------------------------------------------------------------------

/// Whether a message is open after one chunk of the given type.
pub open spec fn step_in_msg(ty: u8, in_msg: bool) -> bool {
    if ty == 2 {
        true
    } else if ty == 3 {
        in_msg
    } else {
        false
    }
}

/// One chunk is legal at this point of the stream: a non-empty payload, and
/// a tag that fits whether a message is open.
pub open spec fn chunk_ok_at(c: Chunk, in_msg: bool) -> bool {
    &&& c.payload.len() >= 1
    &&& ((c.ty == 1 && !in_msg) || (c.ty == 2 && !in_msg) || (c.ty == 3 && in_msg) || (c.ty == 4
        && in_msg))
}

/// The chunk stream is legal from the given state on.
pub open spec fn chunks_ok(cs: Seq<Chunk>, in_msg: bool) -> bool
    decreases cs.len(),
{
    if cs.len() == 0 {
        true
    } else {
        chunk_ok_at(cs[0], in_msg) && chunks_ok(cs.drop_first(), step_in_msg(cs[0].ty, in_msg))
    }
}

/// Whether a message is open after the whole stream.
pub open spec fn in_msg_after(cs: Seq<Chunk>, in_msg: bool) -> bool
    decreases cs.len(),
{
    if cs.len() == 0 {
        in_msg
    } else {
        in_msg_after(cs.drop_first(), step_in_msg(cs[0].ty, in_msg))
    }
}

/// How many messages the stream completes.
pub open spec fn msg_count(cs: Seq<Chunk>) -> int
    decreases cs.len(),
{
    if cs.len() == 0 {
        0
    } else {
        (if cs[0].ty == 1 || cs[0].ty == 4 {
            1int
        } else {
            0
        }) + msg_count(cs.drop_first())
    }
}

/// The walk of a chunk stream succeeds exactly when the stream is legal,
/// and then ends in the predicted state with the counted messages.
pub proof fn lemma_scan_ok_iff(cs: Seq<Chunk>, st: ScanState)
    requires
        st.ok,
    ensures
        scan(cs, st).ok == chunks_ok(cs, st.in_msg),
        chunks_ok(cs, st.in_msg) ==> scan(cs, st).in_msg == in_msg_after(cs, st.in_msg),
        chunks_ok(cs, st.in_msg) ==> scan(cs, st).msgs.len() == st.msgs.len() + msg_count(cs),
    decreases cs.len(),
{
    if cs.len() > 0 {
        let st1 = scan_step(st, cs[0]);
        if chunk_ok_at(cs[0], st.in_msg) {
            lemma_scan_ok_iff(cs.drop_first(), st1);
        } else {
            lemma_scan_fail(cs.drop_first(), st1);
        }
    }
}

/// Legality, final state and count distribute over concatenation.
pub proof fn lemma_chunks_ok_concat(a: Seq<Chunk>, b: Seq<Chunk>, m: bool)
    ensures
        chunks_ok(a + b, m) == (chunks_ok(a, m) && chunks_ok(b, in_msg_after(a, m))),
        in_msg_after(a + b, m) == in_msg_after(b, in_msg_after(a, m)),
        msg_count(a + b) == msg_count(a) + msg_count(b),
    decreases a.len(),
{
    if a.len() == 0 {
        assert(a + b =~= b);
    } else {
        assert((a + b)[0] == a[0]);
        assert((a + b).drop_first() =~= a.drop_first() + b);
        lemma_chunks_ok_concat(a.drop_first(), b, step_in_msg(a[0].ty, m));
    }
}

/// Some chunk of the block has in-bounds framing but a stored CRC that does
/// not match its framed bytes.
pub open spec fn has_crc_fault(b: Seq<u8>) -> bool {
    exists|o: int|
        0 <= o && o + 9 <= b.len() && #[trigger] chunk_end_at(b, o) <= b.len() && b[o + 8] != 0
            && !chunk_crc_ok(b, o)
}

/// Some block of the data region has a chunk with a wrong stored CRC.
pub open spec fn segment_crc_fault(f: Seq<u8>, bs: int) -> bool {
    exists|p: int|
        0 <= p && p as int % bs == 0 && p + bs <= f.len() && has_crc_fault(
            #[trigger] f.subrange(p, p + bs),
        )
}

/// Check the chunks of one block from `offset` on: well-formed framing with
/// correct CRCs, legal at this point of the stream, and zeros after the
/// last chunk. Returns where the chunks stop, whether a message is still
/// open, and how many messages the chunks completed. A wrong CRC is
/// `CrcMismatch`; any other malformation is `ShortRead`.
pub fn check_chunks(block: &[u8], offset: usize, in_msg: bool) -> (r: Result<
    (usize, bool, usize),
    Error,
>)
    requires
        10 <= block@.len() <= u32::MAX,
        offset <= block@.len(),
    ensures
        r is Ok <==> wf_from(block@, offset as int) && chunks_ok(
            parse_chunks(block@, offset as int),
            in_msg,
        ),
        r is Ok ==> {
            let cs = parse_chunks(block@, offset as int);
            &&& r.unwrap().0 == parse_end(block@, offset as int)
            &&& r.unwrap().1 == in_msg_after(cs, in_msg)
            &&& r.unwrap().2 == msg_count(cs)
            &&& r.unwrap().2 <= block@.len() - offset
        },
        r == Err::<(usize, bool, usize), Error>(Error::CrcMismatch) ==> has_crc_fault(block@),
        r is Err ==> r == Err::<(usize, bool, usize), Error>(Error::ShortRead) || r == Err::<
            (usize, bool, usize),
            Error,
        >(Error::CrcMismatch),
    decreases block@.len() - offset,
{
    let n = block.len();
    if offset > n - 9 || *slice_index_get(block, offset + 8) == 0 {
        let mut i = offset;
        while i < n
            invariant
                offset <= i <= n,
                n == block@.len(),
                offset + 9 > n || block@[offset + 8] == 0,
                forall|j: int| offset <= j < i ==> block@[j] == 0,
            decreases n - i,
        {
            if *slice_index_get(block, i) != 0 {
                proof {
                    assert(!wf_from(block@, offset as int));
                }
                return Err(Error::ShortRead);
            }
            i = i + 1;
        }
        proof {
            assert(!has_chunk_at(block@, offset as int));
            assert(parse_chunks(block@, offset as int) == Seq::<Chunk>::empty());
            assert(wf_from(block@, offset as int));
        }
        return Ok((offset, in_msg, 0));
    }
    // a chunk header sits at `offset`
    let ty = *slice_index_get(block, offset + 8);
    proof {
        assert(offset + 9 <= n && block@[offset + 8] != 0);
    }
    if ty > 4 {
        proof {
            assert(!wf_from(block@, offset as int));
        }
        return Err(Error::ShortRead);
    }
    let payload_len_u32 = match u32::read_bytes(block, offset + 4) {
        Ok(v) => v,
        Err(_) => {
            proof {
                assert(false);
            }
            0
        },
    };
    let payload_len = payload_len_u32 as usize;
    proof {
        assert(payload_len == chunk_len_at(block@, offset as int));
    }
    if payload_len == 0 {
        proof {
            assert(!wf_from(block@, offset as int));
        }
        return Err(Error::ShortRead);
    }
    if payload_len > n - (offset + 9) {
        proof {
            assert(chunk_end_at(block@, offset as int) > n);
            assert(!wf_from(block@, offset as int));
        }
        return Err(Error::ShortRead);
    }
    let chunk_end = offset + 9 + payload_len;
    let expected_crc = calculate_crc(slice_subrange(block, offset + 4, chunk_end));
    let stored_crc = match u32::read_bytes(block, offset) {
        Ok(v) => v,
        Err(_) => {
            proof {
                assert(false);
            }
            0
        },
    };
    if expected_crc != stored_crc {
        proof {
            assert(!chunk_crc_ok(block@, offset as int));
            assert(!wf_from(block@, offset as int));
            assert(chunk_end_at(block@, offset as int) <= block@.len());
            assert(has_crc_fault(block@));
        }
        return Err(Error::CrcMismatch);
    }
    proof {
        assert(has_chunk_at(block@, offset as int));
        assert(parse_chunks(block@, offset as int) == seq![chunk_at(block@, offset as int)]
            + parse_chunks(block@, chunk_end as int));
        assert(chunk_at(block@, offset as int).ty == ty);
        assert(chunk_at(block@, offset as int).payload.len() == payload_len);
    }
    let fits = if in_msg {
        ty == 3 || ty == 4
    } else {
        ty == 1 || ty == 2
    };
    if !fits {
        proof {
            assert(!chunk_ok_at(chunk_at(block@, offset as int), in_msg));
            assert(!chunks_ok(parse_chunks(block@, offset as int), in_msg));
        }
        return Err(Error::ShortRead);
    }
    let next_in_msg = ty == 2 || (ty == 3 && in_msg);
    proof {
        assert(next_in_msg == step_in_msg(ty, in_msg));
        assert(chunk_ok_at(chunk_at(block@, offset as int), in_msg));
    }
    match check_chunks(block, chunk_end, next_in_msg) {
        Ok(rest) => {
            proof {
                assert(parse_chunks(block@, offset as int).drop_first() =~= parse_chunks(
                    block@,
                    chunk_end as int,
                ));
                assert(wf_from(block@, offset as int));
                assert(chunks_ok(parse_chunks(block@, offset as int), in_msg));
            }
            let total = if ty == 1 || ty == 4 {
                rest.2 + 1
            } else {
                rest.2
            };
            Ok((rest.0, rest.1, total))
        },
        Err(e) => {
            proof {
                assert(parse_chunks(block@, offset as int).drop_first() =~= parse_chunks(
                    block@,
                    chunk_end as int,
                ));
                assert(!(wf_from(block@, offset as int) && chunks_ok(
                    parse_chunks(block@, offset as int),
                    in_msg,
                )));
            }
            Err(e)
        },
    }
}


/// Decide whether the given bytes are a well-formed, complete segment data
/// region for this block size, and count its messages. `Ok` exactly when a
/// `SegmentWriter` could have produced the bytes: block-aligned, every
/// chunk framed with a correct CRC, zeros after each block's chunks, only
/// the last block below chunk capacity, and no unfinished trailing
/// message. A wrong CRC is `CrcMismatch`; any other malformation is
/// `ShortRead`.
#[verifier::rlimit(100)]
#[verifier::spinoff_prover]
pub fn check_segment_data(data: &[u8], buffer_size: usize) -> (r: Result<usize, Error>)
    requires
        10 <= buffer_size <= u32::MAX,
    ensures
        r is Ok <==> wf_segment_data(data@, buffer_size as int) && complete_segment(
            data@,
            buffer_size as int,
        ),
        r is Ok ==> r.unwrap() == segment_messages(data@, buffer_size as int).len(),
        r == Err::<usize, Error>(Error::CrcMismatch) ==> segment_crc_fault(
            data@,
            buffer_size as int,
        ),
        r is Err ==> r == Err::<usize, Error>(Error::ShortRead) || r == Err::<usize, Error>(
            Error::CrcMismatch,
        ),
{
    let ghost bs = buffer_size as int;
    let n = data.len();
    let bsz = buffer_size;
    if n % bsz != 0 {
        return Err(Error::ShortRead);
    }
    let mut p: usize = 0;
    let mut in_msg = false;
    let mut count: usize = 0;
    proof {
        vstd::arithmetic::div_mod::lemma_mod_multiples_basic(0, bs);
        assert(0int * bs == 0) by (nonlinear_arith);
        assert forall|i: int| 0 <= i && (i + 1) * bs <= 0 implies wf_from(
            #[trigger] data@.subrange(i * bs, (i + 1) * bs),
            0,
        ) by {
            assert((i + 1) * bs >= bs) by (nonlinear_arith)
                requires
                    i >= 0,
                    bs >= 1,
            ;
        }
        assert forall|i: int| 0 <= i && (i + 1) * bs <= 0 && (i + 2) * bs <= n implies parse_end(
            #[trigger] data@.subrange(i * bs, (i + 1) * bs),
            0,
        ) + 9 >= bs by {
            assert((i + 1) * bs >= bs) by (nonlinear_arith)
                requires
                    i >= 0,
                    bs >= 1,
            ;
        }
        assert(data@.take(0).len() == 0);
        assert(segment_chunks(data@.take(0), bs) == Seq::<Chunk>::empty());
    }
    while p < n
        invariant
            p <= n,
            n == data@.len(),
            bsz == buffer_size,
            bs == bsz as int,
            10 <= bs <= u32::MAX,
            p as int % bs == 0,
            n as int % bs == 0,
            count <= p,
            forall|i: int|
                0 <= i && (i + 1) * bs <= p ==> wf_from(
                    #[trigger] data@.subrange(i * bs, (i + 1) * bs),
                    0,
                ),
            forall|i: int|
                0 <= i && (i + 1) * bs <= p && (i + 2) * bs <= n ==> parse_end(
                    #[trigger] data@.subrange(i * bs, (i + 1) * bs),
                    0,
                ) + 9 >= bs,
            chunks_ok(segment_chunks(data@.take(p as int), bs), false),
            in_msg == in_msg_after(segment_chunks(data@.take(p as int), bs), false),
            count == msg_count(segment_chunks(data@.take(p as int), bs)),
        decreases n - p,
    {
        proof {
            lemma_aligned_diff(p as int, n as int, bs);
            assert(p + bsz <= n);
        }
        let block = slice_subrange(data, p, p + bsz);
        let ghost pre = segment_chunks(data@.take(p as int), bs);
        proof {
            lemma_segment_chunks_split(data@.take(p + bsz), bs, p as int);
            assert(data@.take(p + bsz).take(p as int) =~= data@.take(p as int));
            assert(data@.take(p + bsz).skip(p as int) =~= block@);
            lemma_single_block_chunks(block@, bs);
            assert(segment_chunks(data@.take(p + bsz), bs) == pre + parse_chunks(block@, 0));
        }
        let step = check_chunks(block, 0, in_msg);
        match step {
            Err(e) => {
                proof {
                    lemma_chunks_ok_concat(pre, parse_chunks(block@, 0), false);
                    // were the whole region well formed and complete, this
                    // block would have checked out
                    if wf_segment_data(data@, bs) && complete_segment(data@, bs) {
                        lemma_wf_block_at(data@, bs, p as int);
                        assert(data@.subrange(p as int, p + bs) == block@);
                        assert(wf_from(block@, 0));
                        lemma_scan_ok_iff(segment_chunks(data@, bs), scan_init());
                        assert(chunks_ok(segment_chunks(data@, bs), false));
                        lemma_fundamental_div_mod(p as int, bs);
                        vstd::arithmetic::div_mod::lemma_mod_multiples_basic(
                            p as int / bs + 1,
                            bs,
                        );
                        assert(p as int + bs == (p as int / bs + 1) * bs) by (nonlinear_arith)
                            requires
                                p as int == bs * (p as int / bs),
                        ;
                        assert((p as int + bs) % bs == 0);
                        lemma_aligned_diff(p as int + bs, n as int, bs);
                        lemma_segment_chunks_split(data@, bs, p + bs as int);
                        assert(data@.take(p + bs) =~= data@.take(p + bsz));
                        assert(segment_chunks(data@, bs) == segment_chunks(
                            data@.take(p + bsz),
                            bs,
                        ) + segment_chunks(data@.skip(p + bs), bs));
                        lemma_chunks_ok_concat(
                            segment_chunks(data@.take(p + bsz), bs),
                            segment_chunks(data@.skip(p + bs), bs),
                            false,
                        );
                        assert(chunks_ok(parse_chunks(block@, 0), in_msg));
                        assert(false);
                    }
                    if e == Error::CrcMismatch {
                        assert(has_crc_fault(data@.subrange(p as int, p + bs)));
                        assert(segment_crc_fault(data@, bs));
                    }
                }
                return Err(e);
            },
            Ok(res) => {
                let block_end = res.0;
                if p + bsz < n && block_end < bsz - 9 {
                    proof {
                        // an interior block with room for another chunk
                        let i = lemma_block_index(data@, bs, p as int);
                        lemma_fundamental_div_mod(p as int, bs);
                        vstd::arithmetic::div_mod::lemma_mod_multiples_basic(
                            p as int / bs + 1,
                            bs,
                        );
                        assert(p as int + bs == (p as int / bs + 1) * bs) by (nonlinear_arith)
                            requires
                                p as int == bs * (p as int / bs),
                        ;
                        assert((p as int + bs) % bs == 0);
                        lemma_aligned_diff(p + bs, n as int, bs);
                        assert((i + 2) * bs == p + bs + bs) by (nonlinear_arith)
                            requires
                                i * bs == p as int,
                        ;
                        assert(data@.subrange(i * bs, (i + 1) * bs) == block@);
                        assert(!wf_segment_data(data@, bs));
                    }
                    return Err(Error::ShortRead);
                }
                proof {
                    lemma_chunks_ok_concat(pre, parse_chunks(block@, 0), false);
                    vstd::arithmetic::div_mod::lemma_mod_multiples_basic(p as int / bs + 1, bs);
                    lemma_fundamental_div_mod(p as int, bs);
                    assert(p as int + bs == (p as int / bs + 1) * bs) by (nonlinear_arith)
                        requires
                            p as int == bs * (p as int / bs),
                    ;
                    assert((p + bsz) as int % bs == 0);
                    // extend the per-block facts over this block
                    assert forall|i: int| 0 <= i && (i + 1) * bs <= p + bsz implies wf_from(
                        #[trigger] data@.subrange(i * bs, (i + 1) * bs),
                        0,
                    ) by {
                        assert((i + 1) * bs == i * bs + bs) by (nonlinear_arith);
                        assert(i * bs >= 0) by (nonlinear_arith)
                            requires
                                i >= 0,
                                bs >= 1,
                        ;
                        if (i + 1) * bs <= p {
                        } else {
                            vstd::arithmetic::div_mod::lemma_mod_multiples_basic(i + 1, bs);
                            lemma_aligned_diff((i + 1) * bs, p + bs, bs);
                            assert((i + 1) * bs == p + bs);
                            assert(data@.subrange(i * bs, (i + 1) * bs) == block@);
                        }
                    }
                    assert forall|i: int|
                        0 <= i && (i + 1) * bs <= p + bsz && (i + 2) * bs <= n implies parse_end(
                        #[trigger] data@.subrange(i * bs, (i + 1) * bs),
                        0,
                    ) + 9 >= bs by {
                        assert((i + 1) * bs == i * bs + bs) by (nonlinear_arith);
                        assert(i * bs >= 0) by (nonlinear_arith)
                            requires
                                i >= 0,
                                bs >= 1,
                        ;
                        if (i + 1) * bs <= p {
                        } else {
                            vstd::arithmetic::div_mod::lemma_mod_multiples_basic(i + 1, bs);
                            lemma_aligned_diff((i + 1) * bs, p + bs, bs);
                            assert((i + 1) * bs == p + bs);
                            assert(data@.subrange(i * bs, (i + 1) * bs) == block@);
                            assert((i + 2) * bs == p + bs + bs) by (nonlinear_arith)
                                requires
                                    (i + 1) * bs == p + bs as int,
                            ;
                            assert(p + bsz < n);
                        }
                    }
                }
                in_msg = res.1;
                count = count + res.2;
                p = p + bsz;
            },
        }
    }
    proof {
        assert(data@.take(n as int) =~= data@);
    }
    if in_msg {
        proof {
            if wf_segment_data(data@, bs) && complete_segment(data@, bs) {
                lemma_scan_ok_iff(segment_chunks(data@, bs), scan_init());
                assert(false);
            }
        }
        return Err(Error::ShortRead);
    }
    proof {
        assert forall|i: int| 0 <= i && (i + 2) * bs <= n implies parse_end(
            #[trigger] data@.subrange(i * bs, (i + 1) * bs),
            0,
        ) + 9 >= bs by {
            assert((i + 2) * bs == (i + 1) * bs + bs) by (nonlinear_arith);
            assert((i + 1) * bs <= p);
        }
        assert(wf_segment_data(data@, bs));
        lemma_scan_ok_iff(segment_chunks(data@, bs), scan_init());
        assert(complete_segment(data@, bs));
        assert(count == segment_messages(data@, bs).len());
    }
    Ok(count)
}

} // verus!
