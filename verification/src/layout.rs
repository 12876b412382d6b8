//! The mathematical model of the on-disk format.
//!
//! A file is a byte sequence. A chunk is one UID block, zero or more payload
//! blocks (the last right-zero-padded), and one end-of-entry sentinel block.
//! This module defines the byte-level layout, the parser that walks a file
//! block by block, and the well-formedness predicate that every operation of
//! the store preserves.

use vstd::prelude::*;

verus! {

/// The end-of-entry sentinel block.
pub open spec fn spec_eoe() -> Seq<u8> {
    seq![0xffu8, 0xfeu8, 0xfdu8, 0xfcu8]
}

/// The `u32` whose little-endian encoding equals the sentinel block. A UID
/// block or payload block holding this value would be indistinguishable from
/// the end of a chunk, so the serializer rejects it.
pub open spec fn eoe_val() -> int {
    0xFCFDFEFF
}

/// Little-endian encoding of a `u32` into one block.
pub open spec fn spec_le32(v: u32) -> Seq<u8> {
    seq![
        (v % 0x100) as u8,
        ((v / 0x100) % 0x100) as u8,
        ((v / 0x10000) % 0x100) as u8,
        ((v / 0x1000000) % 0x100) as u8,
    ]
}

/// The value a little-endian UID block denotes.
pub open spec fn le_val(s: Seq<u8>) -> int
    recommends
        s.len() == 4,
{
    s[0] + 0x100 * s[1] + 0x10000 * s[2] + 0x1000000 * s[3]
}

/// Encoding then decoding a UID is the identity.
pub proof fn lemma_le32_roundtrip(v: u32)
    ensures
        le_val(spec_le32(v)) == v,
{
    let x = v as int;
    vstd::arithmetic::div_mod::lemma_fundamental_div_mod(x, 0x100);
    vstd::arithmetic::div_mod::lemma_fundamental_div_mod(x / 0x100, 0x100);
    vstd::arithmetic::div_mod::lemma_fundamental_div_mod(x / 0x10000, 0x100);
    assert(x / 0x100 / 0x100 == x / 0x10000) by (nonlinear_arith);
    assert(x / 0x10000 / 0x100 == x / 0x1000000) by (nonlinear_arith);
    assert(x / 0x1000000 < 0x100) by (nonlinear_arith)
        requires
            0 <= x < 0x100000000,
    ;
}

/// The sentinel block decodes to `eoe_val`, and is the only block that does.
pub proof fn lemma_le32_eoe(v: u32)
    ensures
        (spec_le32(v) == spec_eoe()) <==> v == eoe_val(),
{
    if v == eoe_val() {
        assert(spec_le32(v) =~= spec_eoe());
    }
    if spec_le32(v) == spec_eoe() {
        lemma_le32_roundtrip(v);
        assert(le_val(spec_eoe()) == eoe_val());
    }
}

/// The length of a payload once right-zero-padded to a block boundary.
pub open spec fn pad_len(n: int) -> int {
    if n % 4 == 0 {
        n
    } else {
        n + (4 - n % 4)
    }
}

/// A payload right-zero-padded to a block boundary.
pub open spec fn spec_pad(s: Seq<u8>) -> Seq<u8> {
    s + Seq::new((pad_len(s.len() as int) - s.len()) as nat, |i: int| 0u8)
}

pub proof fn lemma_pad_props(s: Seq<u8>)
    ensures
        spec_pad(s).len() == pad_len(s.len() as int),
        pad_len(s.len() as int) % 4 == 0,
        s.len() <= pad_len(s.len() as int) < s.len() + 4,
        spec_pad(s).subrange(0, s.len() as int) == s,
{
    assert(spec_pad(s).subrange(0, s.len() as int) =~= s);
}

/// The byte image of one chunk: UID block, padded payload, sentinel.
pub open spec fn spec_chunk(uid: u32, payload: Seq<u8>) -> Seq<u8> {
    spec_le32(uid) + spec_pad(payload) + spec_eoe()
}

/// The block starting at offset `4 * k`.
pub open spec fn block_at(s: Seq<u8>, k: int) -> Seq<u8> {
    s.subrange(4 * k, 4 * k + 4)
}

/// A chunk for `uid` and `payload` may be written: no block of its UID or
/// payload region equals the sentinel, so a scan finds exactly the trailing
/// sentinel.
pub open spec fn chunk_ok(uid: u32, payload: Seq<u8>) -> bool {
    let body = spec_le32(uid) + spec_pad(payload);
    forall|k: int| 0 <= k < body.len() / 4 ==> block_at(body, k) != spec_eoe()
}

/// Walk blocks from `p` until a sentinel block: returns the position just
/// past the sentinel and `true`, or the position where fewer than a block
/// remained and `false`.
pub open spec fn chunk_scan(s: Seq<u8>, p: int) -> (int, bool)
    decreases s.len() - p,
{
    if p < 0 || p + 4 > s.len() {
        (p, false)
    } else if s.subrange(p, p + 4) == spec_eoe() {
        (p + 4, true)
    } else {
        chunk_scan(s, p + 4)
    }
}

pub proof fn lemma_chunk_scan_bounds(s: Seq<u8>, p: int)
    ensures
        p <= chunk_scan(s, p).0,
        (chunk_scan(s, p).0 - p) % 4 == 0,
        chunk_scan(s, p).1 ==> p + 4 <= chunk_scan(s, p).0 <= s.len() && s.subrange(
            chunk_scan(s, p).0 - 4,
            chunk_scan(s, p).0,
        ) == spec_eoe(),
        !chunk_scan(s, p).1 && 0 <= p ==> chunk_scan(s, p).0 + 4 > s.len(),
        !chunk_scan(s, p).1 && p <= s.len() ==> chunk_scan(s, p).0 <= s.len(),
    decreases s.len() - p,
{
    if p < 0 || p + 4 > s.len() {
    } else if s.subrange(p, p + 4) == spec_eoe() {
    } else {
        lemma_chunk_scan_bounds(s, p + 4);
    }
}

/// The chunks parseable from `p`, in order.
pub open spec fn chunks_from(s: Seq<u8>, p: int) -> Seq<Seq<u8>>
    decreases s.len() - p,
    via chunks_from_dec
{
    if chunk_scan(s, p).1 {
        seq![s.subrange(p, chunk_scan(s, p).0)] + chunks_from(s, chunk_scan(s, p).0)
    } else {
        Seq::<Seq<u8>>::empty()
    }
}

#[via_fn]
proof fn chunks_from_dec(s: Seq<u8>, p: int) {
    lemma_chunk_scan_bounds(s, p);
}

/// Where parsing from `p` stops: the end of the last parseable chunk.
pub open spec fn parse_end(s: Seq<u8>, p: int) -> int
    decreases s.len() - p,
    via parse_end_dec
{
    if chunk_scan(s, p).1 {
        parse_end(s, chunk_scan(s, p).0)
    } else {
        p
    }
}

#[via_fn]
proof fn parse_end_dec(s: Seq<u8>, p: int) {
    lemma_chunk_scan_bounds(s, p);
}

/// Every byte from `p` on belongs to some parsed chunk.
pub open spec fn wf_tail(s: Seq<u8>, p: int) -> bool {
    parse_end(s, p) == s.len()
}

/// The stored UID of a chunk.
pub open spec fn chunk_uid_val(c: Seq<u8>) -> int
    recommends
        c.len() >= 8,
{
    le_val(c.subrange(0, 4))
}

/// A chunk long enough for its payload region to hold one encoded value.
pub open spec fn chunk_decodable(c: Seq<u8>) -> bool {
    c.len() >= 12
}

/// The value stored in a decodable chunk's payload region.
pub open spec fn chunk_item_val(c: Seq<u8>) -> int
    recommends
        chunk_decodable(c),
{
    le_val(c.subrange(4, 8))
}

/// The same value as the `u32` a scan hands out.
pub open spec fn chunk_item_u32(c: Seq<u8>) -> u32
    recommends
        chunk_decodable(c),
{
    (chunk_item_val(c) % 0x100000000) as u32
}

/// A well-formed store file: it parses into chunks exactly, each chunk is
/// decodable, and the UIDs are dense in order `0, 1, 2, ...`, all below the
/// sentinel value.
pub open spec fn wf_file(s: Seq<u8>) -> bool {
    let cs = chunks_from(s, 0);
    &&& wf_tail(s, 0)
    &&& cs.len() <= eoe_val()
    &&& forall|i: int|
        0 <= i < cs.len() ==> chunk_decodable(#[trigger] cs[i]) && cs[i].subrange(0, 4)
            == spec_le32(i as u32)
}

/// The bytes of a file after a write of `w` at position `p`: bytes before
/// `p` are kept (the gap up to `p` reads as zeros if the file was shorter),
/// `w` covers `[p, p + |w|)`, and any bytes beyond survive. A write of
/// nothing changes nothing.
pub open spec fn overlay_write(base: Seq<u8>, p: int, w: Seq<u8>) -> Seq<u8>
    recommends
        0 <= p,
{
    if w.len() == 0 {
        base
    } else {
        let n = if p + w.len() > base.len() {
            p + w.len()
        } else {
            base.len() as int
        };
        Seq::new(n as nat, |i: int|
            if p <= i < p + w.len() {
                w[i - p]
            } else if i < base.len() {
                base[i]
            } else {
                0u8
            })
    }
}

/// The bytes of a sequence of chunks laid end to end.
pub open spec fn concat_chunks(cs: Seq<Seq<u8>>) -> Seq<u8>
    decreases cs.len(),
{
    if cs.len() == 0 {
        Seq::<u8>::empty()
    } else {
        cs[0] + concat_chunks(cs.drop_first())
    }
}

pub proof fn lemma_concat_chunks_push(cs: Seq<Seq<u8>>, c: Seq<u8>)
    ensures
        concat_chunks(cs.push(c)) == concat_chunks(cs) + c,
    decreases cs.len(),
{
    if cs.len() == 0 {
        reveal_with_fuel(concat_chunks, 3);
        assert(cs.push(c).drop_first() =~= Seq::<Seq<u8>>::empty());
        assert(cs.push(c)[0] == c);
        assert(concat_chunks(cs.push(c)) =~= concat_chunks(cs) + c);
    } else {
        assert(cs.push(c).drop_first() =~= cs.drop_first().push(c));
        lemma_concat_chunks_push(cs.drop_first(), c);
        assert(cs.push(c)[0] == cs[0]);
        assert(concat_chunks(cs.push(c)) =~= concat_chunks(cs) + c);
    }
}

/// The chunks before `i` and from `i` on together lay out the whole run.
pub proof fn lemma_concat_split(cs: Seq<Seq<u8>>, i: int)
    requires
        0 <= i <= cs.len(),
    ensures
        concat_chunks(cs) == concat_chunks(cs.take(i)) + concat_chunks(cs.skip(i)),
    decreases i,
{
    if i == 0 {
        assert(cs.take(0) =~= Seq::<Seq<u8>>::empty());
        assert(cs.skip(0) =~= cs);
        assert(concat_chunks(cs) =~= concat_chunks(cs.take(0)) + concat_chunks(cs.skip(0)));
    } else {
        lemma_concat_split(cs, i - 1);
        assert(cs.take(i) =~= cs.take(i - 1).push(cs[i - 1]));
        lemma_concat_chunks_push(cs.take(i - 1), cs[i - 1]);
        assert(cs.skip(i - 1)[0] == cs[i - 1]);
        assert(cs.skip(i - 1).drop_first() =~= cs.skip(i));
        assert(concat_chunks(cs.skip(i - 1)) == cs[i - 1] + concat_chunks(cs.skip(i)));
        assert(concat_chunks(cs.take(i)) + concat_chunks(cs.skip(i)) =~= concat_chunks(
            cs.take(i - 1),
        ) + concat_chunks(cs.skip(i - 1)));
    }
}

/// A chunk with its UID block replaced.
pub open spec fn renumber_chunk(c: Seq<u8>, u: u32) -> Seq<u8>
    recommends
        c.len() >= 4,
{
    spec_le32(u) + c.skip(4)
}

/// A run of chunks renumbered to consecutive UIDs starting at `u0`.
pub open spec fn shift_chunks(ds: Seq<Seq<u8>>, u0: int) -> Seq<Seq<u8>> {
    Seq::new(ds.len(), |i: int| renumber_chunk(ds[i], ((u0 + i) % 0x100000000) as u32))
}

/// The byte image of a batch of values framed as consecutive chunks with
/// UIDs starting at `uid0`.
pub open spec fn spec_chunks_batch(uid0: int, items: Seq<u32>) -> Seq<u8>
    recommends
        0 <= uid0,
        uid0 + items.len() <= u32::MAX + 1,
    decreases items.len(),
{
    if items.len() == 0 {
        Seq::<u8>::empty()
    } else {
        spec_chunk((uid0 % 0x100000000) as u32, spec_le32(items[0])) + spec_chunks_batch(
            uid0 + 1,
            items.drop_first(),
        )
    }
}

/// The `(uid, value)` pairs a scan yields: one per decodable chunk, in
/// order; chunks too short to decode are passed over.
pub open spec fn spec_entries(cs: Seq<Seq<u8>>) -> Seq<(u32, u32)>
    decreases cs.len(),
{
    if cs.len() == 0 {
        Seq::<(u32, u32)>::empty()
    } else {
        let rest = spec_entries(cs.drop_first());
        if chunk_decodable(cs[0]) {
            seq![
                (
                    (chunk_uid_val(cs[0]) % 0x100000000) as u32,
                    (chunk_item_val(cs[0]) % 0x100000000) as u32,
                ),
            ] + rest
        } else {
            rest
        }
    }
}

/// A scan only looks at bytes from `p` on: on sequences of one length that
/// agree there, it stops at the same place.
pub proof fn lemma_scan_suffix_eq(s: Seq<u8>, t: Seq<u8>, p: int)
    requires
        s.len() == t.len(),
        forall|x: int| p <= x < s.len() ==> s[x] == t[x],
    ensures
        chunk_scan(s, p) == chunk_scan(t, p),
    decreases s.len() - p,
{
    if p < 0 || p + 4 > s.len() {
    } else {
        assert(s.subrange(p, p + 4) =~= t.subrange(p, p + 4));
        if s.subrange(p, p + 4) == spec_eoe() {
        } else {
            lemma_scan_suffix_eq(s, t, p + 4);
        }
    }
}

/// A scan that runs over non-sentinel blocks stops just past the first
/// sentinel.
pub proof fn lemma_scan_through(s: Seq<u8>, p: int, q: int)
    requires
        0 <= p <= q,
        (q - p) % 4 == 0,
        q + 4 <= s.len(),
        forall|k: int|
            0 <= k < (q - p) / 4 ==> #[trigger] s.subrange(p + 4 * k, p + 4 * k + 4)
                != spec_eoe(),
        s.subrange(q, q + 4) == spec_eoe(),
    ensures
        chunk_scan(s, p) == (q + 4, true),
    decreases q - p,
{
    if p == q {
    } else {
        assert(s.subrange(p + 4 * 0, p + 4 * 0 + 4) != spec_eoe());
        assert(s.subrange(p, p + 4) != spec_eoe());
        assert forall|k: int| 0 <= k < (q - (p + 4)) / 4 implies #[trigger] s.subrange(
            (p + 4) + 4 * k,
            (p + 4) + 4 * k + 4,
        ) != spec_eoe() by {
            assert(s.subrange(p + 4 * (k + 1), p + 4 * (k + 1) + 4) != spec_eoe());
            assert((p + 4) + 4 * k == p + 4 * (k + 1));
        }
        lemma_scan_through(s, p + 4, q);
    }
}

/// A scan of a well-formed chunk standing at `p` finds exactly that chunk.
pub proof fn lemma_scan_of_chunk(s: Seq<u8>, p: int, uid: u32, payload: Seq<u8>)
    requires
        chunk_ok(uid, payload),
        0 <= p,
        p + spec_chunk(uid, payload).len() <= s.len(),
        s.subrange(p, p + spec_chunk(uid, payload).len()) == spec_chunk(uid, payload),
    ensures
        chunk_scan(s, p) == (p + spec_chunk(uid, payload).len(), true),
{
    let c = spec_chunk(uid, payload);
    let body = spec_le32(uid) + spec_pad(payload);
    lemma_pad_props(payload);
    let q = p + body.len();
    assert(s.subrange(q, q + 4) =~= spec_eoe()) by {
        assert forall|x: int| 0 <= x < 4 implies #[trigger] s.subrange(q, q + 4)[x]
            == spec_eoe()[x] by {
            assert(s.subrange(p, p + c.len())[body.len() + x] == c[body.len() + x]);
        }
    }
    assert forall|k: int| 0 <= k < (q - p) / 4 implies #[trigger] s.subrange(
        p + 4 * k,
        p + 4 * k + 4,
    ) != spec_eoe() by {
        assert(block_at(body, k) != spec_eoe());
        assert(s.subrange(p + 4 * k, p + 4 * k + 4) =~= block_at(body, k)) by {
            assert forall|x: int| 0 <= x < 4 implies #[trigger] s.subrange(
                p + 4 * k,
                p + 4 * k + 4,
            )[x] == block_at(body, k)[x] by {
                assert(s.subrange(p, p + c.len())[4 * k + x] == c[4 * k + x]);
                assert(c[4 * k + x] == body[4 * k + x]);
            }
        }
    }
    lemma_scan_through(s, p, q);
}

/// A byte sequence with `b` spliced in at offset `o`; the length is kept,
/// so `b` must fit.
pub open spec fn update_range(w: Seq<u8>, o: int, b: Seq<u8>) -> Seq<u8>
    recommends
        0 <= o,
        o + b.len() <= w.len(),
{
    Seq::new(w.len(), |i: int|
        if o <= i < o + b.len() {
            b[i - o]
        } else {
            w[i]
        })
}

/// Writing back bytes that already stand in the file changes nothing.
pub proof fn lemma_overlay_absorb(base: Seq<u8>, s: int, e: int)
    requires
        0 <= s <= e <= base.len(),
    ensures
        overlay_write(base, s, base.subrange(s, e)) == base,
{
    assert(overlay_write(base, s, base.subrange(s, e)) =~= base);
}

/// Splicing into a window then overlaying equals overlaying the window and
/// then overlaying the splice.
pub proof fn lemma_overlay_update(base: Seq<u8>, s: int, w: Seq<u8>, o: int, b: Seq<u8>)
    requires
        0 <= s,
        0 <= o,
        o + b.len() <= w.len(),
    ensures
        overlay_write(base, s, update_range(w, o, b)) == overlay_write(
            overlay_write(base, s, w),
            s + o,
            b,
        ),
{
    assert(overlay_write(base, s, update_range(w, o, b)) =~= overlay_write(
        overlay_write(base, s, w),
        s + o,
        b,
    ));
}

/// The overlaid region reads back as the written bytes.
pub proof fn lemma_overlay_subrange(base: Seq<u8>, s: int, w: Seq<u8>)
    requires
        0 <= s,
    ensures
        w.len() > 0 ==> overlay_write(base, s, w).subrange(s, s + w.len()) == w,
{
    if w.len() > 0 {
        assert(overlay_write(base, s, w).subrange(s, s + w.len()) =~= w);
    }
}

/// The bytes of a file after `set_len(n)`: truncated, or extended with
/// zeros.
pub open spec fn seq_resize(base: Seq<u8>, n: int) -> Seq<u8>
    recommends
        0 <= n,
{
    Seq::new(n as nat, |i: int|
        if i < base.len() {
            base[i]
        } else {
            0u8
        })
}

/// For one-block payloads, a chunk may be written exactly when neither the
/// UID nor the value equals the sentinel value.
pub proof fn lemma_chunk_ok_u32(uid: u32, v: u32)
    ensures
        chunk_ok(uid, spec_le32(v)) <==> (uid as int != eoe_val() && v as int != eoe_val()),
{
    let payload = spec_le32(v);
    lemma_pad_props(payload);
    assert(spec_pad(payload) =~= payload);
    let body = spec_le32(uid) + payload;
    assert(body.len() == 8);
    assert(block_at(body, 0) =~= spec_le32(uid));
    assert(block_at(body, 1) =~= payload);
    lemma_le32_eoe(uid);
    lemma_le32_eoe(v);
    if uid as int != eoe_val() && v as int != eoe_val() {
        assert forall|k: int| 0 <= k < body.len() / 4 implies #[trigger] block_at(body, k)
            != spec_eoe() by {
            if k == 0 {
                assert(block_at(body, 0) == spec_le32(uid));
            } else {
                assert(k == 1);
                assert(block_at(body, 1) == payload);
            }
        }
    }
    if chunk_ok(uid, spec_le32(v)) {
        assert(block_at(body, 0) != spec_eoe());
        assert(block_at(body, 1) != spec_eoe());
    }
}

/// The bytes before the `i`-th parsed chunk are exactly the first `i`
/// chunks laid end to end, and parsing continues there with the rest.
pub proof fn lemma_concat_prefix(s: Seq<u8>, p: int, i: int)
    requires
        0 <= p <= s.len(),
        0 <= i <= chunks_from(s, p).len(),
    ensures
        p + concat_chunks(chunks_from(s, p).take(i)).len() <= s.len(),
        s.subrange(p, p + concat_chunks(chunks_from(s, p).take(i)).len()) == concat_chunks(
            chunks_from(s, p).take(i),
        ),
        chunks_from(s, p + concat_chunks(chunks_from(s, p).take(i)).len()) == chunks_from(
            s,
            p,
        ).skip(i),
    decreases i,
{
    let cs = chunks_from(s, p);
    if i == 0 {
        assert(cs.take(0) =~= Seq::<Seq<u8>>::empty());
        assert(s.subrange(p, p) =~= concat_chunks(cs.take(0)));
        assert(cs.skip(0) =~= cs);
    } else {
        lemma_chunk_scan_bounds(s, p);
        let e = chunk_scan(s, p).0;
        assert(cs == seq![s.subrange(p, e)] + chunks_from(s, e));
        lemma_concat_prefix(s, e, i - 1);
        let rest = chunks_from(s, e);
        assert(rest.take(i - 1) =~= cs.take(i).drop_first());
        assert(cs.take(i)[0] == s.subrange(p, e));
        assert(concat_chunks(cs.take(i)) == s.subrange(p, e) + concat_chunks(rest.take(i - 1)));
        let w = concat_chunks(rest.take(i - 1)).len();
        assert(s.subrange(p, e + w) =~= s.subrange(p, e) + s.subrange(e, e + w));
        assert(s.subrange(p, p + concat_chunks(cs.take(i)).len()) =~= concat_chunks(
            cs.take(i),
        ));
        assert(rest.skip(i - 1) =~= cs.skip(i));
    }
}

/// A scan that finds a chunk is unaffected by bytes appended after the
/// sequence it ran over.
pub proof fn lemma_scan_prefix_stable(s: Seq<u8>, t: Seq<u8>, p: int)
    requires
        chunk_scan(s, p).1,
        t.len() >= s.len(),
        t.subrange(0, s.len() as int) == s,
    ensures
        chunk_scan(t, p) == chunk_scan(s, p),
    decreases s.len() - p,
{
    if p < 0 || p + 4 > s.len() {
    } else {
        assert(t.subrange(p, p + 4) =~= s.subrange(p, p + 4)) by {
            assert(forall|x: int|
                0 <= x < s.len() ==> t[x] == #[trigger] t.subrange(0, s.len() as int)[x]);
        }
        if s.subrange(p, p + 4) == spec_eoe() {
        } else {
            lemma_scan_prefix_stable(s, t, p + 4);
        }
    }
}

/// Parsing stops where no further chunk is found.
pub proof fn lemma_parse_end_not_found(s: Seq<u8>, p: int)
    ensures
        !chunk_scan(s, parse_end(s, p)).1,
    decreases s.len() - p,
{
    lemma_chunk_scan_bounds(s, p);
    if chunk_scan(s, p).1 {
        lemma_parse_end_not_found(s, chunk_scan(s, p).0);
    }
}

/// Parsing consumes whole blocks.
pub proof fn lemma_parse_end_mod4(s: Seq<u8>, p: int)
    ensures
        (parse_end(s, p) - p) % 4 == 0,
    decreases s.len() - p,
{
    lemma_chunk_scan_bounds(s, p);
    if chunk_scan(s, p).1 {
        lemma_parse_end_mod4(s, chunk_scan(s, p).0);
    }
}

/// Appending one writable chunk to a fully parsed tail extends the parse by
/// exactly that chunk.
pub proof fn lemma_parse_append(s: Seq<u8>, uid: u32, payload: Seq<u8>, p: int)
    requires
        0 <= p <= s.len(),
        parse_end(s, p) == s.len(),
        chunk_ok(uid, payload),
    ensures
        chunks_from(s + spec_chunk(uid, payload), p) == chunks_from(s, p).push(
            spec_chunk(uid, payload),
        ),
        parse_end(s + spec_chunk(uid, payload), p) == s.len() + spec_chunk(uid, payload).len(),
    decreases s.len() - p,
{
    let c = spec_chunk(uid, payload);
    let t = s + c;
    assert(t.subrange(0, s.len() as int) =~= s);
    lemma_chunk_scan_bounds(s, p);
    if chunk_scan(s, p).1 {
        let e = chunk_scan(s, p).0;
        lemma_scan_prefix_stable(s, t, p);
        assert(t.subrange(p, e) =~= s.subrange(p, e));
        lemma_parse_append(s, uid, payload, e);
        assert(chunks_from(t, p) == seq![t.subrange(p, e)] + chunks_from(t, e));
        assert(chunks_from(s, p) == seq![s.subrange(p, e)] + chunks_from(s, e));
        assert(chunks_from(t, p) =~= chunks_from(s, p).push(c));
    } else {
        assert(parse_end(s, p) == p);
        assert(p == s.len());
        lemma_pad_props(payload);
        assert(t.subrange(p, p + c.len()) =~= c);
        lemma_scan_of_chunk(t, p, uid, payload);
        assert(chunk_scan(t, p) == (p + c.len(), true));
        assert(t.subrange(p, p + c.len()) == c);
        assert(chunk_scan(t, t.len() as int).1 == false);
        assert(chunks_from(t, t.len() as int) =~= Seq::<Seq<u8>>::empty());
        assert(chunks_from(t, p) == seq![t.subrange(p, p + c.len())] + chunks_from(
            t,
            p + c.len(),
        ));
        assert(chunks_from(s, p) =~= Seq::<Seq<u8>>::empty());
        assert(chunks_from(t, p) =~= chunks_from(s, p).push(c));
        assert(parse_end(t, p) == parse_end(t, p + c.len()));
    }
}

/// Appending a fresh chunk with the next dense UID keeps the file
/// well-formed; the parsed chunks gain exactly that chunk.
pub proof fn lemma_wf_append(s: Seq<u8>, uid: u32, payload: Seq<u8>)
    requires
        wf_file(s),
        uid == chunks_from(s, 0).len(),
        chunk_ok(uid, payload),
        payload.len() >= 4,
    ensures
        wf_file(s + spec_chunk(uid, payload)),
        chunks_from(s + spec_chunk(uid, payload), 0) == chunks_from(s, 0).push(
            spec_chunk(uid, payload),
        ),
        chunks_from(s + spec_chunk(uid, payload), 0).len() == chunks_from(s, 0).len() + 1,
    decreases 0int,
{
    let c = spec_chunk(uid, payload);
    let t = s + c;
    let cs = chunks_from(s, 0);
    lemma_parse_append(s, uid, payload, 0);
    lemma_pad_props(payload);
    // The new chunk's UID block may not collide with the sentinel, so the
    // UID stays below the sentinel value and the count in bounds.
    assert(block_at(spec_le32(uid) + spec_pad(payload), 0) == spec_le32(uid)) by {
        assert(block_at(spec_le32(uid) + spec_pad(payload), 0) =~= spec_le32(uid));
    }
    lemma_le32_eoe(uid);
    assert(spec_le32(uid) != spec_eoe());
    assert(uid != eoe_val());
    assert(cs.len() < eoe_val());
    assert(c.subrange(0, 4) =~= spec_le32(uid));
    assert forall|i: int| 0 <= i < chunks_from(t, 0).len() implies chunk_decodable(
        #[trigger] chunks_from(t, 0)[i],
    ) && chunks_from(t, 0)[i].subrange(0, 4) == spec_le32(i as u32) by {
        if i < cs.len() {
            assert(chunks_from(t, 0)[i] == cs[i]);
        } else {
            assert(chunks_from(t, 0)[i] == c);
        }
    }
}

/// Alignment: a well-formed store file is a whole number of blocks.
pub proof fn lemma_file_alignment(s: Seq<u8>)
    requires
        wf_file(s),
    ensures
        s.len() % 4 == 0,
{
    lemma_parse_end_mod4(s, 0);
}

/// UID density: the `i`-th entry of a well-formed file carries UID `i`, so
/// a scan yields UIDs `0, 1, 2, ...` in order.
pub proof fn lemma_uid_density(s: Seq<u8>)
    requires
        wf_file(s),
    ensures
        forall|i: int|
            0 <= i < chunks_from(s, 0).len() ==> chunk_uid_val(#[trigger] chunks_from(s, 0)[i])
                == i,
{
    assert forall|i: int| 0 <= i < chunks_from(s, 0).len() implies chunk_uid_val(
        #[trigger] chunks_from(s, 0)[i],
    ) == i by {
        lemma_le32_roundtrip(i as u32);
    }
}

/// Round trip: the chunk written for a value under a UID decodes back to
/// exactly that UID and value.
pub proof fn lemma_chunk_roundtrip(uid: u32, v: u32)
    ensures
        chunk_decodable(spec_chunk(uid, spec_le32(v))),
        chunk_uid_val(spec_chunk(uid, spec_le32(v))) == uid,
        chunk_item_val(spec_chunk(uid, spec_le32(v))) == v,
{
    lemma_pad_props(spec_le32(v));
    let c = spec_chunk(uid, spec_le32(v));
    assert(c.subrange(0, 4) =~= spec_le32(uid));
    assert(c.subrange(4, 8) =~= spec_le32(v));
    lemma_le32_roundtrip(uid);
    lemma_le32_roundtrip(v);
}

/// Sentinel uniqueness: in a writable chunk, no block before the trailing
/// sentinel equals the sentinel, and the trailing block is the sentinel.
pub proof fn lemma_eoe_uniqueness(uid: u32, payload: Seq<u8>)
    requires
        chunk_ok(uid, payload),
    ensures
        forall|k: int|
            0 <= k < (spec_chunk(uid, payload).len() - 4) / 4 ==> #[trigger] block_at(
                spec_chunk(uid, payload),
                k,
            ) != spec_eoe(),
        spec_chunk(uid, payload).subrange(
            spec_chunk(uid, payload).len() - 4,
            spec_chunk(uid, payload).len() as int,
        ) == spec_eoe(),
{
    lemma_pad_props(payload);
    let body = spec_le32(uid) + spec_pad(payload);
    let c = spec_chunk(uid, payload);
    assert(c.subrange(c.len() - 4, c.len() as int) =~= spec_eoe());
    assert forall|k: int| 0 <= k < (c.len() - 4) / 4 implies #[trigger] block_at(c, k)
        != spec_eoe() by {
        assert(block_at(c, k) =~= block_at(body, k));
        assert(k < body.len() / 4);
    }
}

/// Every parsed chunk covers at least one block, in whole blocks.
pub proof fn lemma_chunks_min_len(s: Seq<u8>, p: int)
    ensures
        forall|i: int|
            0 <= i < chunks_from(s, p).len() ==> #[trigger] chunks_from(s, p)[i].len() >= 4
                && chunks_from(s, p)[i].len() % 4 == 0,
    decreases s.len() - p,
{
    lemma_chunk_scan_bounds(s, p);
    if chunk_scan(s, p).1 {
        let e = chunk_scan(s, p).0;
        lemma_chunks_min_len(s, e);
        assert forall|i: int| 0 <= i < chunks_from(s, p).len() implies #[trigger] chunks_from(
            s,
            p,
        )[i].len() >= 4 && chunks_from(s, p)[i].len() % 4 == 0 by {
            if i > 0 {
                assert(chunks_from(s, p)[i] == chunks_from(s, e)[i - 1]);
            }
        }
    }
}

/// Renumbering keeps every chunk's length, so the shifted run is as long
/// as the original.
pub proof fn lemma_shift_concat_len(ds: Seq<Seq<u8>>, u: int)
    requires
        forall|i: int| 0 <= i < ds.len() ==> #[trigger] ds[i].len() >= 4,
    ensures
        concat_chunks(shift_chunks(ds, u)).len() == concat_chunks(ds).len(),
    decreases ds.len(),
{
    if ds.len() > 0 {
        assert(shift_chunks(ds, u)[0] == renumber_chunk(ds[0], ((u + 0) % 0x100000000) as u32));
        assert(shift_chunks(ds, u).drop_first() =~= shift_chunks(ds.drop_first(), u + 1));
        assert(forall|i: int|
            0 <= i < ds.drop_first().len() ==> #[trigger] ds.drop_first()[i].len() >= 4) by {
            assert(forall|i: int|
                0 <= i < ds.drop_first().len() ==> ds.drop_first()[i] == ds[i + 1]);
        }
        lemma_shift_concat_len(ds.drop_first(), u + 1);
    }
}

/// The shape a scan guarantees of a chunk: whole blocks, at least one,
/// the last one the sentinel and no other.
pub open spec fn chunk_clean(c: Seq<u8>) -> bool {
    &&& c.len() >= 4
    &&& c.len() % 4 == 0
    &&& c.subrange(c.len() - 4, c.len() as int) == spec_eoe()
    &&& forall|k: int| 0 <= k < c.len() / 4 - 1 ==> #[trigger] block_at(c, k) != spec_eoe()
}

/// Every chunk a scan finds is clean.
pub proof fn lemma_parsed_chunk_clean(s: Seq<u8>, p: int)
    requires
        0 <= p,
        chunk_scan(s, p).1,
    ensures
        chunk_clean(s.subrange(p, chunk_scan(s, p).0)),
    decreases s.len() - p,
{
    lemma_chunk_scan_bounds(s, p);
    let e = chunk_scan(s, p).0;
    let c = s.subrange(p, e);
    if s.subrange(p, p + 4) == spec_eoe() {
        assert(c.subrange(c.len() - 4, c.len() as int) =~= spec_eoe());
    } else {
        lemma_parsed_chunk_clean(s, p + 4);
        let c2 = s.subrange(p + 4, e);
        assert(c.subrange(c.len() - 4, c.len() as int) =~= c2.subrange(
            c2.len() - 4,
            c2.len() as int,
        ));
        assert forall|k: int| 0 <= k < c.len() / 4 - 1 implies #[trigger] block_at(c, k)
            != spec_eoe() by {
            if k == 0 {
                assert(block_at(c, 0) =~= s.subrange(p, p + 4));
            } else {
                assert(block_at(c, k) =~= block_at(c2, k - 1));
            }
        }
    }
}

/// Every chunk in a parse is clean.
pub proof fn lemma_parsed_chunks_clean(s: Seq<u8>, p: int)
    requires
        0 <= p,
    ensures
        forall|i: int|
            0 <= i < chunks_from(s, p).len() ==> chunk_clean(#[trigger] chunks_from(s, p)[i]),
    decreases s.len() - p,
{
    lemma_chunk_scan_bounds(s, p);
    if chunk_scan(s, p).1 {
        let e = chunk_scan(s, p).0;
        lemma_parsed_chunk_clean(s, p);
        lemma_parsed_chunks_clean(s, e);
        assert forall|i: int| 0 <= i < chunks_from(s, p).len() implies chunk_clean(
            #[trigger] chunks_from(s, p)[i],
        ) by {
            if i > 0 {
                assert(chunks_from(s, p)[i] == chunks_from(s, e)[i - 1]);
            }
        }
    }
}

/// A scan over a clean chunk standing at `p` finds exactly that chunk.
pub proof fn lemma_scan_of_clean(s: Seq<u8>, p: int, c: Seq<u8>)
    requires
        chunk_clean(c),
        0 <= p,
        p + c.len() <= s.len(),
        s.subrange(p, p + c.len()) == c,
    ensures
        chunk_scan(s, p) == (p + c.len(), true),
{
    let q = p + c.len() - 4;
    assert(s.subrange(q, q + 4) =~= c.subrange(c.len() - 4, c.len() as int)) by {
        assert forall|x: int| 0 <= x < 4 implies #[trigger] s.subrange(q, q + 4)[x] == c.subrange(
            c.len() - 4,
            c.len() as int,
        )[x] by {
            assert(s.subrange(p, p + c.len())[c.len() - 4 + x] == c[c.len() - 4 + x]);
        }
    }
    assert forall|k: int| 0 <= k < (q - p) / 4 implies #[trigger] s.subrange(
        p + 4 * k,
        p + 4 * k + 4,
    ) != spec_eoe() by {
        assert(block_at(c, k) != spec_eoe());
        assert(s.subrange(p + 4 * k, p + 4 * k + 4) =~= block_at(c, k)) by {
            assert forall|x: int| 0 <= x < 4 implies #[trigger] s.subrange(
                p + 4 * k,
                p + 4 * k + 4,
            )[x] == block_at(c, k)[x] by {
                assert(s.subrange(p, p + c.len())[4 * k + x] == c[4 * k + x]);
            }
        }
    }
    lemma_scan_through(s, p, q);
}

/// Laying clean chunks end to end parses back to exactly those chunks.
pub proof fn lemma_parse_concat(cs: Seq<Seq<u8>>)
    requires
        forall|i: int| 0 <= i < cs.len() ==> chunk_clean(#[trigger] cs[i]),
    ensures
        chunks_from(concat_chunks(cs), 0) == cs,
        parse_end(concat_chunks(cs), 0) == concat_chunks(cs).len(),
    decreases cs.len(),
{
    let s = concat_chunks(cs);
    if cs.len() == 0 {
    } else {
        let c = cs[0];
        let rest = concat_chunks(cs.drop_first());
        assert(s == c + rest);
        assert(s.subrange(0, c.len() as int) =~= c);
        lemma_scan_of_clean(s, 0, c);
        lemma_parse_concat(cs.drop_first());
        lemma_parse_translate(c, rest, 0);
        assert(chunks_from(s, c.len() as int) == chunks_from(rest, 0));
        assert(chunks_from(s, 0) == seq![s.subrange(0, c.len() as int)] + chunks_from(
            s,
            c.len() as int,
        ));
        assert(chunks_from(s, 0) =~= cs);
        assert(parse_end(s, 0) == parse_end(s, c.len() as int));
        assert(parse_end(s, c.len() as int) == c.len() + parse_end(rest, 0));
    }
}

/// A scan after a fixed prefix sees only the suffix: its stop shifts by
/// the prefix length.
pub proof fn lemma_scan_translate(x: Seq<u8>, y: Seq<u8>, p: int)
    requires
        0 <= p,
    ensures
        chunk_scan(x + y, x.len() + p).0 == x.len() + chunk_scan(y, p).0,
        chunk_scan(x + y, x.len() + p).1 == chunk_scan(y, p).1,
    decreases y.len() - p,
{
    let s = x + y;
    let q = x.len() + p;
    if p + 4 > y.len() {
    } else {
        assert(s.subrange(q, q + 4) =~= y.subrange(p, p + 4));
        if y.subrange(p, p + 4) == spec_eoe() {
        } else {
            lemma_scan_translate(x, y, p + 4);
        }
    }
}

/// Parsing after a fixed prefix sees only the suffix: positions shift by
/// the prefix length.
pub proof fn lemma_parse_translate(x: Seq<u8>, y: Seq<u8>, p: int)
    requires
        0 <= p,
    ensures
        chunks_from(x + y, x.len() + p) == chunks_from(y, p),
        parse_end(x + y, x.len() + p) == x.len() + parse_end(y, p),
    decreases y.len() - p,
{
    let s = x + y;
    let q = x.len() + p;
    lemma_scan_translate(x, y, p);
    lemma_chunk_scan_bounds(y, p);
    if chunk_scan(y, p).1 {
        let e = chunk_scan(y, p).0;
        assert(s.subrange(q, x.len() + e) =~= y.subrange(p, e)) by {
            assert forall|i: int| 0 <= i < e - p implies #[trigger] s.subrange(
                q,
                x.len() + e,
            )[i] == y.subrange(p, e)[i] by {
                assert(s[q + i] == y[p + i]);
            }
        }
        lemma_parse_translate(x, y, e);
        assert(chunks_from(s, q) =~= chunks_from(y, p));
    }
}

/// Delete preserves the remainder: dropping the chunk at index `u` from a
/// well-formed file and renumbering the following chunks down by one gives
/// a well-formed file holding the surviving entries, order kept, UIDs
/// dense again.
#[verifier::rlimit(100)]
pub proof fn lemma_remove_preserves(s: Seq<u8>, u: int)
    requires
        wf_file(s),
        0 <= u < chunks_from(s, 0).len(),
    ensures
        ({
            let cs = chunks_from(s, 0);
            let cs2 = cs.take(u) + shift_chunks(cs.skip(u + 1), u);
            let s2 = concat_chunks(cs.take(u)) + concat_chunks(shift_chunks(cs.skip(u + 1), u));
            &&& wf_file(s2)
            &&& chunks_from(s2, 0) == cs2
            &&& cs2.len() == cs.len() - 1
            &&& (forall|i: int| 0 <= i < u ==> #[trigger] cs2[i] == cs[i])
            &&& (forall|i: int|
                u <= i < cs.len() - 1 ==> chunk_item_val(#[trigger] cs2[i]) == chunk_item_val(
                    cs[i + 1],
                ) && cs2[i].len() == cs[i + 1].len())
        }),
{
    let cs = chunks_from(s, 0);
    let n = cs.len() as int;
    let tail = shift_chunks(cs.skip(u + 1), u);
    let cs2 = cs.take(u) + tail;
    let s2 = concat_chunks(cs.take(u)) + concat_chunks(tail);
    lemma_parsed_chunks_clean(s, 0);
    // The shifted chunks are clean: their fresh UID blocks stay below the
    // sentinel value.
    assert forall|i: int| 0 <= i < cs2.len() implies chunk_clean(#[trigger] cs2[i]) by {
        if i < u {
            assert(cs2[i] == cs[i]);
        } else {
            let d = cs[i + 1];
            assert(cs2[i] == renumber_chunk(d, ((u + (i - u)) % 0x100000000) as u32));
            assert((u + (i - u)) % 0x100000000 == i);
            let w = i as u32;
            let c2 = renumber_chunk(d, w);
            assert(chunk_clean(d));
            lemma_le32_eoe(w);
            assert(c2.len() == d.len());
            assert(c2.subrange(c2.len() - 4, c2.len() as int) =~= d.subrange(
                d.len() - 4,
                d.len() as int,
            ));
            assert forall|k: int| 0 <= k < c2.len() / 4 - 1 implies #[trigger] block_at(c2, k)
                != spec_eoe() by {
                if k == 0 {
                    assert(block_at(c2, 0) =~= spec_le32(w));
                } else {
                    assert(block_at(c2, k) =~= block_at(d, k));
                }
            }
            assert(chunk_clean(c2));
        }
    }
    assert(concat_chunks(cs2) =~= s2) by {
        lemma_concat_split(cs2, u);
        assert(cs2.take(u) =~= cs.take(u));
        assert(cs2.skip(u) =~= tail);
    }
    lemma_parse_concat(cs2);
    // Well-formedness of the result.
    assert forall|i: int| 0 <= i < cs2.len() implies chunk_decodable(#[trigger] cs2[i])
        && cs2[i].subrange(0, 4) == spec_le32(i as u32) by {
        if i < u {
            assert(cs2[i] == cs[i]);
        } else {
            let d = cs[i + 1];
            assert((u + (i - u)) % 0x100000000 == i);
            assert(cs2[i] == renumber_chunk(d, i as u32));
            assert(cs2[i].len() == d.len());
            assert(cs2[i].subrange(0, 4) =~= spec_le32(i as u32));
        }
    }
    assert forall|i: int| u <= i < cs.len() - 1 implies chunk_item_val(#[trigger] cs2[i])
        == chunk_item_val(cs[i + 1]) && cs2[i].len() == cs[i + 1].len() by {
        let d = cs[i + 1];
        assert((u + (i - u)) % 0x100000000 == i);
        assert(cs2[i] == renumber_chunk(d, i as u32));
        assert(cs2[i].subrange(4, 8) =~= d.subrange(4, 8));
    }
    assert forall|i: int| 0 <= i < u implies #[trigger] cs2[i] == cs[i] by {}
}

/// Two writes laid end to end equal one write of the concatenation.
pub proof fn lemma_overlay_adjacent(base: Seq<u8>, p: int, a: Seq<u8>, b: Seq<u8>)
    requires
        0 <= p,
    ensures
        overlay_write(overlay_write(base, p, a), p + a.len(), b) == overlay_write(base, p, a + b),
{
    if a.len() == 0 {
        assert(a + b =~= b);
    } else if b.len() == 0 {
        assert(a + b =~= a);
    } else {
        assert(overlay_write(overlay_write(base, p, a), p + a.len(), b) =~= overlay_write(
            base,
            p,
            a + b,
        ));
    }
}

/// Truncating just past a write keeps the prefix and the written bytes.
pub proof fn lemma_overlay_resize(base: Seq<u8>, p: int, w: Seq<u8>)
    requires
        0 <= p <= base.len(),
    ensures
        seq_resize(overlay_write(base, p, w), p + w.len()) == base.subrange(0, p) + w,
{
    assert(seq_resize(overlay_write(base, p, w), p + w.len()) =~= base.subrange(0, p) + w);
}

/// The parsed chunks tile the file from `p` to where parsing stops, which
/// never passes the end.
pub proof fn lemma_chunks_tile(s: Seq<u8>, p: int)
    requires
        0 <= p,
    ensures
        p + concat_chunks(chunks_from(s, p)).len() == parse_end(s, p),
        p <= parse_end(s, p),
        p <= s.len() ==> parse_end(s, p) <= s.len(),
    decreases s.len() - p,
{
    lemma_chunk_scan_bounds(s, p);
    if chunk_scan(s, p).1 {
        let e = chunk_scan(s, p).0;
        lemma_chunks_tile(s, e);
        assert(chunks_from(s, p).drop_first() =~= chunks_from(s, e));
    }
}

} // verus!
