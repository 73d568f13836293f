use vstd::prelude::*;
use crate::dict::{blob_wf, decode_blob, decode_block, decode_rest, rest_wf, BLOCK_SIZE, END_OF_BLOCK};
use crate::select::words_of;
use crate::word::Word;

verus! {

/// The byte that pads a block after its end marker.
pub const FILLER: u8 = 32;

/// The length of the common prefix of two words, counted from position `k`.
pub open spec fn prefix_len(a: Seq<u8>, b: Seq<u8>, k: int) -> int
    decreases 5 - k,
{
    if 0 <= k < 5 && a[k] == b[k] {
        prefix_len(a, b, k + 1)
    } else {
        k
    }
}

/// One entry: the length of the prefix that `w` shares with `prev`, then the rest of `w`.
pub open spec fn entry(prev: Seq<u8>, w: Seq<u8>) -> Seq<u8> {
    let p = prefix_len(prev, w, 0);
    seq![p as u8] + w.skip(p)
}

/// The entries for the words `ws`, each against the word before it, starting from `prev`.
pub open spec fn encode_entries(prev: Seq<u8>, ws: Seq<Seq<u8>>) -> Seq<u8>
    decreases ws.len(),
{
    if ws.len() == 0 {
        Seq::empty()
    } else {
        entry(prev, ws[0]) + encode_entries(ws[0], ws.drop_first())
    }
}

/// Every word of `ws` has five letters.
pub open spec fn all_five(ws: Seq<Seq<u8>>) -> bool {
    forall|i: int| 0 <= i < ws.len() ==> (#[trigger] ws[i]).len() == 5
}

proof fn lemma_prefix_len(a: Seq<u8>, b: Seq<u8>, k: int)
    requires
        0 <= k <= 5,
        a.len() == 5,
        b.len() == 5,
        a.take(k) == b.take(k),
    ensures
        k <= prefix_len(a, b, k) <= 5,
        a.take(prefix_len(a, b, k)) == b.take(prefix_len(a, b, k)),
    decreases 5 - k,
{
    if k < 5 && a[k] == b[k] {
        assert(a.take(k + 1) =~= a.take(k).push(a[k]));
        assert(b.take(k + 1) =~= b.take(k).push(b[k]));
        lemma_prefix_len(a, b, k + 1);
    }
}

/// Entries followed by an end marker decode to the words they were made from.
pub proof fn lemma_decode_entries(prev: Seq<u8>, ws: Seq<Seq<u8>>, t: Seq<u8>)
    requires
        prev.len() == 5,
        all_five(ws),
        t.len() > 0,
        t[0] == END_OF_BLOCK,
    ensures
        rest_wf(encode_entries(prev, ws) + t),
        decode_rest(encode_entries(prev, ws) + t, prev) == ws,
    decreases ws.len(),
{
    if ws.len() == 0 {
        assert(encode_entries(prev, ws) + t =~= t);
        assert(decode_rest(t, prev) =~= ws);
    } else {
        let w = ws[0];
        assert(prev.take(0) =~= w.take(0));
        lemma_prefix_len(prev, w, 0);
        let p = prefix_len(prev, w, 0);
        let rest = encode_entries(w, ws.drop_first()) + t;
        lemma_decode_entries(w, ws.drop_first(), t);
        let full = encode_entries(prev, ws) + t;
        assert(full =~= entry(prev, w) + rest);
        assert(full[0] == p as u8);
        assert(full.skip(6 - p) =~= rest);
        assert(full.subrange(1, 6 - p) =~= w.skip(p));
        assert(prev.take(p) + w.skip(p) =~= w) by {
            assert(prev.take(p) == w.take(p));
        }
        assert(decode_rest(full, prev) =~= seq![w] + ws.drop_first());
    }
}

/// The entries for one more word are those before it, then its own.
proof fn lemma_encode_push(prev: Seq<u8>, ws: Seq<Seq<u8>>, w: Seq<u8>)
    ensures
        encode_entries(prev, ws.push(w)) == encode_entries(prev, ws) + entry(
            if ws.len() == 0 {
                prev
            } else {
                ws.last()
            },
            w,
        ),
    decreases ws.len(),
{
    if ws.len() == 0 {
        assert(ws.push(w).drop_first() =~= Seq::<Seq<u8>>::empty());
        assert(ws.push(w)[0] == w);
        assert(encode_entries(w, ws.push(w).drop_first()) =~= Seq::<u8>::empty());
        assert(encode_entries(prev, ws.push(w)) =~= entry(prev, w));
        assert(encode_entries(prev, ws) =~= Seq::<u8>::empty());
    } else {
        assert(ws.push(w).drop_first() =~= ws.drop_first().push(w));
        lemma_encode_push(ws[0], ws.drop_first(), w);
        if ws.len() > 1 {
            assert(ws.drop_first().last() == ws.last());
        }
        assert(encode_entries(prev, ws.push(w)) =~= entry(prev, ws[0]) + encode_entries(
            ws[0],
            ws.drop_first(),
        ) + entry(if ws.len() == 1 { ws[0] } else { ws.last() }, w));
    }
}

/// How many of the words `rest` fit, one entry each against the word before, in a
/// block that already uses `used` bytes, keeping one byte for the end marker.
pub open spec fn fit_count(prev: Seq<u8>, rest: Seq<Seq<u8>>, used: int) -> int
    decreases rest.len(),
{
    if rest.len() == 0 {
        0
    } else {
        let e = 6 - prefix_len(prev, rest[0], 0);
        if used + 1 + e > BLOCK_SIZE {
            0
        } else {
            1 + fit_count(rest[0], rest.drop_first(), used + e)
        }
    }
}

/// The block that starts with the word `first` and holds the entries for `rest`:
/// the first word in full, the entries, the end marker, then filler up to the
/// block size.
pub open spec fn block_of(first: Seq<u8>, rest: Seq<Seq<u8>>) -> Seq<u8> {
    let body = first + encode_entries(first, rest) + seq![END_OF_BLOCK];
    body + Seq::new((BLOCK_SIZE - body.len()) as nat, |i: int| FILLER)
}

/// The compiled form of the words `ws`: blocks filled in order, each with a first
/// word and then as many entries as fit.
pub open spec fn encode_blocks(ws: Seq<Seq<u8>>) -> Seq<u8>
    decreases ws.len(),
{
    if ws.len() == 0 {
        Seq::empty()
    } else {
        let k = fit_count(ws[0], ws.drop_first(), 5);
        if 0 <= k < ws.len() {
            block_of(ws[0], ws.subrange(1, 1 + k)) + encode_blocks(ws.skip(1 + k))
        } else {
            Seq::empty()
        }
    }
}

/// The entries that fit do fit: at most all the words, with room left for the end marker.
proof fn lemma_fit(prev: Seq<u8>, rest: Seq<Seq<u8>>, used: int)
    requires
        0 <= used < BLOCK_SIZE,
        prev.len() == 5,
        all_five(rest),
    ensures
        0 <= fit_count(prev, rest, used) <= rest.len(),
        used + encode_entries(prev, rest.take(fit_count(prev, rest, used))).len() + 1 <= BLOCK_SIZE,
    decreases rest.len(),
{
    let k = fit_count(prev, rest, used);
    if rest.len() == 0 || used + 1 + 6 - prefix_len(prev, rest[0], 0) > BLOCK_SIZE {
        assert(rest.take(0) =~= Seq::<Seq<u8>>::empty());
    } else {
        let w = rest[0];
        assert(prev.take(0) =~= w.take(0));
        lemma_prefix_len(prev, w, 0);
        let e = 6 - prefix_len(prev, w, 0);
        lemma_fit(w, rest.drop_first(), used + e);
        assert(rest.take(k).drop_first() =~= rest.drop_first().take(k - 1));
        assert(rest.take(k)[0] == w);
        assert(entry(prev, w).len() == e);
    }
}

/// Decoding compiled words gives back the same words, in order, duplicates
/// included.
pub proof fn lemma_decode_encoded(ws: Seq<Seq<u8>>)
    requires
        all_five(ws),
    ensures
        blob_wf(encode_blocks(ws)),
        decode_blob(encode_blocks(ws)) == ws,
    decreases ws.len(),
{
    if ws.len() > 0 {
        let rest = ws.drop_first();
        lemma_fit(ws[0], rest, 5);
        let k = fit_count(ws[0], rest, 5);
        let mid = ws.subrange(1, 1 + k);
        assert(mid =~= rest.take(k));
        let tail = ws.skip(1 + k);
        lemma_decode_encoded(tail);
        let e = encode_entries(ws[0], mid);
        let b = block_of(ws[0], mid);
        let body = ws[0] + e + seq![END_OF_BLOCK];
        let t = b.subrange(5 + e.len() as int, BLOCK_SIZE as int);
        assert(b.len() == BLOCK_SIZE);
        assert(b.subrange(5, BLOCK_SIZE as int) =~= e + t);
        assert(t[0] == END_OF_BLOCK);
        lemma_decode_entries(ws[0], mid, t);
        assert(b.take(5) =~= ws[0]);
        let all = b + encode_blocks(tail);
        assert(all == encode_blocks(ws));
        assert(all.take(BLOCK_SIZE as int) =~= b);
        assert(all.skip(BLOCK_SIZE as int) =~= encode_blocks(tail));
        assert(all.subrange(5, BLOCK_SIZE as int) =~= b.subrange(5, BLOCK_SIZE as int));
        assert(decode_block(b) =~= seq![ws[0]] + mid);
        assert(decode_blob(all) =~= ws);
    } else {
        assert(decode_blob(Seq::<u8>::empty()) =~= ws);
    }
}

/// The length of the common prefix of two words.
fn shared_prefix(a: &[u8; 5], b: &[u8; 5]) -> (r: usize)
    ensures
        r == prefix_len(a@, b@, 0),
        r <= 5,
{
    let mut n: usize = 0;
    while n < 5 && a[n] == b[n]
        invariant
            0 <= n <= 5,
            prefix_len(a@, b@, 0) == prefix_len(a@, b@, n as int),
        decreases 5 - n,
    {
        n = n + 1;
    }
    n
}

/// Compiles words into a dictionary: blocks of 64 bytes, each holding a first word
/// in full, then as many entries as fit before an end marker, then filler.
pub fn compile_words(words: &Vec<Word>) -> (r: Vec<u8>)
    requires
        words@.len() < usize::MAX / BLOCK_SIZE,
    ensures
        r@ == encode_blocks(words_of(words@)),
        blob_wf(r@),
        decode_blob(r@) == words_of(words@),
{
    let ghost ws = words_of(words@);
    let mut buf: Vec<u8> = Vec::new();
    let mut i: usize = 0;
    assert(ws.skip(0) =~= ws);
    assert(buf@ + encode_blocks(ws) =~= encode_blocks(ws));
    while i < words.len()
        invariant
            ws == words_of(words@),
            0 <= i <= words@.len(),
            buf@ + encode_blocks(ws.skip(i as int)) == encode_blocks(ws),
            words@.len() < usize::MAX / BLOCK_SIZE,
            buf@.len() <= i * BLOCK_SIZE,
        decreases words.len() - i,
    {
        let ghost base = buf@;
        let block_start = buf.len();
        let first = words[i];
        let s = i;
        let fb = first.bytes();
        buf.push(fb[0]);
        buf.push(fb[1]);
        buf.push(fb[2]);
        buf.push(fb[3]);
        buf.push(fb[4]);
        i = i + 1;
        let mut prev = first;
        assert(ws.subrange(s + 1, i as int) =~= Seq::<Seq<u8>>::empty());
        assert(buf@ =~= base + first@ + encode_entries(first@, ws.subrange(s + 1, i as int)));
        while i < words.len()
            invariant
                ws == words_of(words@),
                s < i <= words@.len(),
                words@.len() < usize::MAX / BLOCK_SIZE,
                s * BLOCK_SIZE >= block_start,
                block_start == base.len(),
                block_start <= usize::MAX - BLOCK_SIZE,
                first == words@[s as int],
                prev == words@[i - 1],
                buf@ == base + first@ + encode_entries(first@, ws.subrange(s + 1, i as int)),
                buf@.len() + 1 <= block_start + BLOCK_SIZE,
                fit_count(first@, ws.skip(s + 1), 5) == (i - (s + 1)) + fit_count(
                    prev@,
                    ws.skip(i as int),
                    buf@.len() - block_start,
                ),
            ensures
                s < i <= words@.len(),
                buf@ == base + first@ + encode_entries(first@, ws.subrange(s + 1, i as int)),
                buf@.len() + 1 <= block_start + BLOCK_SIZE,
                fit_count(first@, ws.skip(s + 1), 5) == i - (s + 1),
            decreases words.len() - i,
        {
            let w = words[i];
            let p = shared_prefix(prev.bytes(), w.bytes());
            proof {
                assert(ws.skip(i as int)[0] == w@);
                assert(ws.skip(i as int).drop_first() =~= ws.skip(i + 1));
            }
            if buf.len() + 2 + (5 - p) > block_start + BLOCK_SIZE {
                assert(fit_count(prev@, ws.skip(i as int), buf@.len() - block_start) == 0);
                break;
            }
            let ghost before = buf@;
            buf.push(p as u8);
            let wb = w.bytes();
            let mut j: usize = p;
            while j < 5
                invariant
                    p <= j <= 5,
                    wb@ == w@,
                    buf@ == before + seq![p as u8] + w@.subrange(p as int, j as int),
                decreases 5 - j,
            {
                buf.push(wb[j]);
                j = j + 1;
            }
            proof {
                let old_ws = ws.subrange(s + 1, i as int);
                lemma_encode_push(first@, old_ws, w@);
                assert(ws.subrange(s + 1, i + 1) =~= old_ws.push(w@));
                if old_ws.len() > 0 {
                    assert(old_ws.last() == prev@);
                }
                assert(w@.subrange(p as int, 5) =~= w@.skip(p as int));
                assert(buf@ =~= base + first@ + encode_entries(first@, ws.subrange(s + 1, i + 1)));
            }
            prev = w;
            i = i + 1;
        }
        let ghost entries_end = buf@.len();
        buf.push(END_OF_BLOCK);
        while buf.len() < block_start + BLOCK_SIZE
            invariant
                entries_end < buf@.len() <= block_start + BLOCK_SIZE,
                buf@[entries_end as int] == END_OF_BLOCK,
                forall|m: int| entries_end < m < buf@.len() ==> #[trigger] buf@[m] == FILLER,
                block_start == base.len(),
                s < i <= words@.len(),
                words@.len() < usize::MAX / BLOCK_SIZE,
                s * BLOCK_SIZE >= block_start,
                block_start <= usize::MAX - BLOCK_SIZE,
                ws == words_of(words@),
                buf@.subrange(0, entries_end as int) == base + first@ + encode_entries(
                    first@,
                    ws.subrange(s + 1, i as int),
                ),
                fit_count(first@, ws.skip(s + 1), 5) == i - (s + 1),
            decreases block_start + BLOCK_SIZE - buf.len(),
        {
            buf.push(FILLER);
        }
        proof {
            let rest_ws = ws.subrange(s + 1, i as int);
            let k = i - (s + 1);
            let tail = ws.skip(s as int);
            assert(tail[0] == first@);
            assert(tail.drop_first() =~= ws.skip(s + 1));
            assert(fit_count(first@, tail.drop_first(), 5) == k);
            assert(tail.subrange(1, 1 + k) =~= rest_ws);
            assert(tail.skip(1 + k) =~= ws.skip(i as int));
            let b = buf@.skip(block_start as int);
            let e = encode_entries(first@, rest_ws);
            let pre = buf@.subrange(0, entries_end as int);
            assert(pre == base + first@ + e);
            let body = first@ + e + seq![END_OF_BLOCK];
            assert(b.subrange(0, body.len() as int) =~= body) by {
                assert forall|m: int| 0 <= m < body.len() implies b[m] == body[m] by {
                    if m < body.len() - 1 {
                        assert(b[m] == pre[block_start + m]);
                    }
                }
            }
            assert(b =~= block_of(first@, rest_ws));
            assert(encode_blocks(tail) == b + encode_blocks(ws.skip(i as int)));
            assert forall|m: int| 0 <= m < block_start implies buf@[m] == base[m] by {
                assert(buf@[m] == pre[m]);
            }
            assert(buf@ =~= base + b);
        }
    }
    assert(ws.skip(i as int) =~= Seq::<Seq<u8>>::empty());
    assert(buf@ + encode_blocks(ws.skip(i as int)) =~= buf@);
    proof {
        assert(all_five(ws));
        lemma_decode_encoded(ws);
    }
    buf
}

} // verus!
