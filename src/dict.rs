use vstd::prelude::*;
use crate::word::Word;

verus! {

/// Size in bytes of one independently decodable block.
pub const BLOCK_SIZE: usize = 64;

/// The byte that ends the entries of a block.
pub const END_OF_BLOCK: u8 = 0xff;

/// The entries of a block after its first word, as `(prefix length, suffix)`
/// pairs: each entry is well formed up to the end marker or the end of the block.
pub open spec fn rest_wf(rest: Seq<u8>) -> bool
    decreases rest.len(),
{
    if rest.len() == 0 || rest[0] == END_OF_BLOCK {
        true
    } else {
        &&& rest[0] <= 5
        &&& 6 - rest[0] <= rest.len()
        &&& rest_wf(rest.skip(6 - rest[0]))
    }
}

/// The words that the entries `rest` give, each sharing a prefix of the stated
/// length with the word before it, starting from `prev`.
pub open spec fn decode_rest(rest: Seq<u8>, prev: Seq<u8>) -> Seq<Seq<u8>>
    decreases rest.len(),
{
    if rest.len() == 0 || rest[0] == END_OF_BLOCK || rest[0] > 5 || 6 - rest[0] > rest.len() {
        Seq::empty()
    } else {
        let p = rest[0] as int;
        let w = prev.take(p) + rest.subrange(1, 6 - p);
        seq![w] + decode_rest(rest.skip(6 - p), w)
    }
}

/// A compiled dictionary: whole blocks, each with well-formed entries.
pub open spec fn blob_wf(b: Seq<u8>) -> bool
    decreases b.len(),
{
    if b.len() == 0 {
        true
    } else {
        &&& b.len() >= BLOCK_SIZE
        &&& rest_wf(b.subrange(5, BLOCK_SIZE as int))
        &&& blob_wf(b.skip(BLOCK_SIZE as int))
    }
}

/// The words of one block: its first five bytes, then the words of its entries.
pub open spec fn decode_block(block: Seq<u8>) -> Seq<Seq<u8>> {
    seq![block.take(5)] + decode_rest(block.subrange(5, BLOCK_SIZE as int), block.take(5))
}

/// The words of a compiled dictionary, block after block.
pub open spec fn decode_blob(b: Seq<u8>) -> Seq<Seq<u8>>
    decreases b.len(),
{
    if b.len() < BLOCK_SIZE {
        Seq::empty()
    } else {
        decode_block(b.take(BLOCK_SIZE as int)) + decode_blob(b.skip(BLOCK_SIZE as int))
    }
}

/// A well-formed dictionary is a whole number of blocks.
pub proof fn lemma_blob_len(b: Seq<u8>)
    requires
        blob_wf(b),
    ensures
        b.len() % (BLOCK_SIZE as nat) == 0,
    decreases b.len(),
{
    if b.len() > 0 {
        lemma_blob_len(b.skip(BLOCK_SIZE as int));
    }
}

/// Cutting a dictionary at a block boundary cuts its words in two: decoding the
/// halves one after the other gives the words of the whole.
pub proof fn lemma_decode_split(b: Seq<u8>, k: nat)
    requires
        blob_wf(b),
        k * BLOCK_SIZE <= b.len(),
    ensures
        blob_wf(b.take(k * BLOCK_SIZE as int)),
        blob_wf(b.skip(k * BLOCK_SIZE as int)),
        decode_blob(b) == decode_blob(b.take(k * BLOCK_SIZE as int)) + decode_blob(
            b.skip(k * BLOCK_SIZE as int),
        ),
    decreases k,
{
    let n = k * BLOCK_SIZE as int;
    if k == 0 {
        assert(b.take(0) =~= Seq::<u8>::empty());
        assert(b.skip(0) =~= b);
        assert(decode_blob(b.take(0)) =~= Seq::<Seq<u8>>::empty());
        assert(decode_blob(b) + Seq::<Seq<u8>>::empty() =~= decode_blob(b));
    } else {
        let t = b.skip(BLOCK_SIZE as int);
        lemma_decode_split(t, (k - 1) as nat);
        let m = (k - 1) * BLOCK_SIZE as int;
        let left = b.take(n);
        assert(left.take(BLOCK_SIZE as int) =~= b.take(BLOCK_SIZE as int));
        assert(left.skip(BLOCK_SIZE as int) =~= t.take(m));
        assert(left.subrange(5, BLOCK_SIZE as int) =~= b.subrange(5, BLOCK_SIZE as int));
        assert(t.skip(m) =~= b.skip(n));
        assert(decode_blob(b) =~= decode_block(b.take(BLOCK_SIZE as int)) + decode_blob(t));
        assert(decode_blob(left) =~= decode_block(b.take(BLOCK_SIZE as int)) + decode_blob(t.take(m)));
    }
}

/// Decodes a compiled dictionary, word by word.
#[derive(Clone, Debug)]
pub struct DictIterator<'a> {
    data: &'a [u8],
    prev_word: [u8; 5],
    pos: usize,
    block_end: usize,
    end: usize,
}

impl<'a> DictIterator<'a> {
    /// The iterator's bookkeeping is consistent with a well-formed dictionary.
    pub closed spec fn wf(&self) -> bool {
        &&& self.pos <= self.block_end <= self.end <= self.data@.len()
        &&& rest_wf(self.data@.subrange(self.pos as int, self.block_end as int))
        &&& blob_wf(self.data@.subrange(self.block_end as int, self.end as int))
    }

    /// The words still to come, in order.
    pub closed spec fn view(&self) -> Seq<Seq<u8>> {
        decode_rest(self.data@.subrange(self.pos as int, self.block_end as int), self.prev_word@)
            + decode_blob(self.data@.subrange(self.block_end as int, self.end as int))
    }

    /// An iterator over the words of the dictionary `bytes`.
    pub fn of_slice(bytes: &'a [u8]) -> (r: DictIterator<'a>)
        requires
            blob_wf(bytes@),
        ensures
            r.wf(),
            r.view() == decode_blob(bytes@),
            r.after_bytes() == bytes@,
            !r.block_in_progress(),
    {
        let r = DictIterator { data: bytes, prev_word: [0u8;5], pos: 0, block_end: 0, end: bytes.len() };
        assert(bytes@.subrange(0, bytes@.len() as int) =~= bytes@);
        assert(bytes@.subrange(0, 0) =~= Seq::<u8>::empty());
        assert(r.view() =~= decode_blob(bytes@));
        r
    }

    /// The word the next entry of the current block is decoded against.
    pub closed spec fn prev(&self) -> Seq<u8> {
        self.prev_word@
    }

    /// The bytes of the block in progress not yet decoded.
    pub closed spec fn in_block_bytes(&self) -> Seq<u8> {
        self.data@.subrange(self.pos as int, self.block_end as int)
    }

    /// The bytes of the blocks not yet started.
    pub closed spec fn after_bytes(&self) -> Seq<u8> {
        self.data@.subrange(self.block_end as int, self.end as int)
    }

    /// How many whole blocks are not yet started.
    pub open spec fn whole_blocks_left(&self) -> int {
        self.after_bytes().len() as int / BLOCK_SIZE as int
    }

    /// Whether a block has been started and still has bytes to read.
    pub open spec fn block_in_progress(&self) -> bool {
        self.in_block_bytes().len() > 0
    }

    /// Whether the block in progress has no entry left: its bytes are used up, or
    /// the next one is the end marker.
    pub open spec fn at_block_end(&self) -> bool {
        self.in_block_bytes().len() == 0 || self.in_block_bytes()[0] == END_OF_BLOCK
    }

    /// Whether the undecoded bytes reach into more than one block.
    pub open spec fn spans_several_blocks(&self) -> bool {
        self.whole_blocks_left() >= 2 || (self.whole_blocks_left() == 1 && self.block_in_progress())
    }

    /// What `split` gives: the iterator itself when its undecoded bytes lie in one
    /// block at most; otherwise a first part that keeps the block in progress and
    /// the first half (rounded down) of the whole blocks, and a second part that
    /// starts afresh at the block boundary after them and holds the rest.
    pub closed spec fn split_spec(self) -> (DictIterator<'a>, Option<DictIterator<'a>>) {
        if self.spans_several_blocks() {
            let mid = (self.block_end + (self.whole_blocks_left() / 2) * BLOCK_SIZE) as usize;
            (
                DictIterator {
                    data: self.data,
                    prev_word: self.prev_word,
                    pos: self.pos,
                    block_end: self.block_end,
                    end: mid,
                },
                Some(
                    DictIterator {
                        data: self.data,
                        prev_word: self.prev_word,
                        pos: mid,
                        block_end: mid,
                        end: self.end,
                    },
                ),
            )
        } else {
            (self, None)
        }
    }

    /// Divides the undecoded bytes between two iterators at a block boundary, when
    /// they reach into more than one block: the first keeps the block in progress
    /// and half the whole blocks (rounded down), the second starts afresh with the
    /// other whole blocks. The words of the first, then those of the second, are
    /// the words of `self`. Bytes within one block are not divided.
    pub fn split(self) -> (r: (DictIterator<'a>, Option<DictIterator<'a>>))
        requires
            self.wf(),
        ensures
            r == self.split_spec(),
            r.0.wf(),
            !self.spans_several_blocks() ==> r.0 == self && r.1 is None,
            self.spans_several_blocks() ==> (r.1 matches Some(o) && o.wf()
                && !o.block_in_progress()
                && o.whole_blocks_left() == self.whole_blocks_left() - self.whole_blocks_left() / 2
                && o.after_bytes() == self.after_bytes().skip(
                (self.whole_blocks_left() / 2) * BLOCK_SIZE,
            ) && r.0.prev() == self.prev() && r.0.in_block_bytes() == self.in_block_bytes()
                && r.0.whole_blocks_left() == self.whole_blocks_left() / 2
                && r.0.after_bytes() == self.after_bytes().take(
                (self.whole_blocks_left() / 2) * BLOCK_SIZE,
            )),
            r.1 is None ==> r.0.view() == self.view(),
            r.1 matches Some(o) ==> r.0.view() + o.view() == self.view(),
            r.1 matches Some(o) ==> o.view() == decode_blob(o.after_bytes()),
    {
        let ghost after = self.data@.subrange(self.block_end as int, self.end as int);
        proof {
            lemma_blob_len(after);
        }
        let n_blocks_remain = (self.end - self.block_end) / BLOCK_SIZE;
        if !(n_blocks_remain >= 2 || (n_blocks_remain == 1 && self.pos < self.block_end)) {
            return (self, None);
        }
        let keep_n_blocks = n_blocks_remain / 2;
        let mid = self.block_end + keep_n_blocks * BLOCK_SIZE;
        proof {
            lemma_decode_split(after, keep_n_blocks as nat);
            assert(after.take(keep_n_blocks * BLOCK_SIZE as int) =~= self.data@.subrange(
                self.block_end as int,
                mid as int,
            ));
            assert(after.skip(keep_n_blocks * BLOCK_SIZE as int) =~= self.data@.subrange(
                mid as int,
                self.end as int,
            ));
        }
        let other = DictIterator {
            data: self.data,
            prev_word: self.prev_word,
            pos: mid,
            block_end: mid,
            end: self.end,
        };
        let this = DictIterator {
            data: self.data,
            prev_word: self.prev_word,
            pos: self.pos,
            block_end: self.block_end,
            end: mid,
        };
        proof {
            assert(self.data@.subrange(mid as int, mid as int) =~= Seq::<u8>::empty());
            assert(other.view() =~= decode_blob(self.data@.subrange(mid as int, self.end as int)));
            assert(this.view() + other.view() =~= self.view());
            lemma_blob_len(other.after_bytes());
            assert(other.after_bytes().len() == (n_blocks_remain - keep_n_blocks) * BLOCK_SIZE);
            assert(this.after_bytes().len() == keep_n_blocks * BLOCK_SIZE);
        }
        (this, Some(other))
    }

    /// Starts the next block, once the current one is used up.
    fn next_start_new_block(&mut self) -> (r: Option<Word>)
        requires
            old(self).wf(),
            old(self).pos == old(self).block_end,
        ensures
            final(self).wf(),
            old(self).view().len() == 0 ==> r is None && final(self).view().len() == 0,
            old(self).view().len() > 0 ==> (r matches Some(w) && w@ == old(self).view()[0]
                && final(self).view() == old(self).view().drop_first()),
            old(self).after_bytes().len() == 0 ==> *final(self) == *old(self),
            old(self).after_bytes().len() > 0 ==> final(self).prev() == old(self).after_bytes().take(5)
                && final(self).in_block_bytes() == old(self).after_bytes().subrange(
                5,
                BLOCK_SIZE as int,
            ) && final(self).after_bytes() == old(self).after_bytes().skip(BLOCK_SIZE as int),
    {
        let ghost rest = self.data@.subrange(self.pos as int, self.block_end as int);
        assert(rest =~= Seq::<u8>::empty());
        assert(decode_rest(rest, self.prev_word@) =~= Seq::<Seq<u8>>::empty());
        let ghost after = self.data@.subrange(self.block_end as int, self.end as int);
        assert(self.view() =~= decode_blob(after));
        if self.block_end == self.end {
            assert(after.len() == 0);
            return None;
        }
        let start = self.block_end;
        let w = [self.data[start], self.data[start + 1], self.data[start + 2], self.data[start + 3], self.data[start + 4]];
        self.prev_word = w;
        self.pos = start + 5;
        self.block_end = start + BLOCK_SIZE;
        proof {
            let block = after.take(BLOCK_SIZE as int);
            assert(w@ =~= block.take(5));
            assert(block.subrange(5, BLOCK_SIZE as int) =~= self.data@.subrange(
                self.pos as int,
                self.block_end as int,
            ));
            assert(after.subrange(5, BLOCK_SIZE as int) =~= block.subrange(5, BLOCK_SIZE as int));
            assert(after.skip(BLOCK_SIZE as int) =~= self.data@.subrange(
                self.block_end as int,
                self.end as int,
            ));
            assert(self.view() =~= old(self).view().drop_first());
        }
        Some(Word(w))
    }

    /// The next word of the dictionary, or `None` at its end.
    pub fn next(&mut self) -> (r: Option<Word>)
        requires
            old(self).wf(),
        ensures
            final(self).wf(),
            old(self).view().len() == 0 ==> r is None && final(self).view().len() == 0,
            old(self).view().len() > 0 ==> (r matches Some(w) && w@ == old(self).view()[0]
                && final(self).view() == old(self).view().drop_first()),
            old(self).at_block_end() && old(self).after_bytes().len() == 0 ==> (final(self).in_block_bytes().len() == 0
                && final(self).after_bytes() == old(self).after_bytes()),
            old(self).at_block_end() && old(self).after_bytes().len() > 0 ==> (final(self).prev()
                == old(self).after_bytes().take(5)
                && final(self).in_block_bytes() == old(self).after_bytes().subrange(5, BLOCK_SIZE as int)
                && final(self).after_bytes() == old(self).after_bytes().skip(BLOCK_SIZE as int)),
            !old(self).at_block_end() ==> (r matches Some(w) && final(self).prev() == w@
                && final(self).in_block_bytes() == old(self).in_block_bytes().skip(
                6 - old(self).in_block_bytes()[0],
            ) && final(self).after_bytes() == old(self).after_bytes()),
    {
        if self.pos == self.block_end {
            return self.next_start_new_block();
        }
        let ghost rest = self.data@.subrange(self.pos as int, self.block_end as int);
        let prefix_len = self.data[self.pos];
        if prefix_len == END_OF_BLOCK {
            proof {
                assert(decode_rest(rest, self.prev_word@) =~= Seq::<Seq<u8>>::empty());
                assert(self.view() =~= decode_blob(
                    self.data@.subrange(self.block_end as int, self.end as int),
                ));
            }
            self.pos = self.block_end;
            proof {
                assert(self.data@.subrange(self.pos as int, self.block_end as int) =~= Seq::<
                    u8,
                >::empty());
                assert(decode_rest(Seq::<u8>::empty(), self.prev_word@) =~= Seq::<Seq<u8>>::empty());
                assert(self.view() =~= old(self).view());
            }
            return self.next_start_new_block();
        }
        proof {
            assert(rest[0] == prefix_len);
            assert(rest_wf(rest));
            assert(prefix_len <= 5 && 6 - prefix_len <= rest.len());
        }
        let p = prefix_len as usize;
        let start = self.pos + 1;
        let ghost prev = self.prev_word@;
        let mut j: usize = p;
        while j < 5
            invariant
                p <= j <= 5,
                p <= 5,
                self.data == old(self).data,
                self.pos == old(self).pos,
                self.block_end == old(self).block_end,
                self.end == old(self).end,
                start == self.pos + 1,
                rest == self.data@.subrange(self.pos as int, self.block_end as int),
                prev == old(self).prev_word@,
                start + 5 - p <= self.block_end <= self.data@.len(),
                self.prev_word@.len() == 5,
                forall|m: int| 0 <= m < p ==> #[trigger] self.prev_word@[m] == prev[m],
                forall|m: int| p <= m < j ==> #[trigger] self.prev_word@[m] == self.data@[start + m - p],
            decreases 5 - j,
        {
            self.prev_word[j] = self.data[start + (j - p)];
            j = j + 1;
        }
        self.pos = start + (5 - p);
        proof {
            let w = prev.take(p as int) + rest.subrange(1, 6 - p);
            assert forall|m: int| 0 <= m < 5 implies #[trigger] self.prev_word@[m] == w[m] by {
                if m >= p {
                    assert(w[m] == rest[m - p + 1]);
                }
            }
            assert(self.prev_word@ =~= w);
            assert(rest.skip(6 - p) =~= self.data@.subrange(self.pos as int, self.block_end as int));
            assert(self.view() =~= old(self).view().drop_first());
        }
        Some(Word(self.prev_word))
    }

    /// Every word still to come, in order.
    pub fn collect_words(self) -> (r: Vec<Word>)
        requires
            self.wf(),
        ensures
            r@.map_values(|w: Word| w@) == self.view(),
    {
        let mut it = self;
        let mut out: Vec<Word> = Vec::new();
        let ghost all = self.view();
        loop
            invariant
                it.wf(),
                out@.map_values(|w: Word| w@) + it.view() == all,
                all == self.view(),
            decreases it.view().len(),
        {
            let ghost before = it.view();
            match it.next() {
                None => {
                    assert(out@.map_values(|w: Word| w@) + it.view() =~= out@.map_values(|w: Word| w@));
                    return out;
                },
                Some(w) => {
                    let ghost old_out = out@;
                    out.push(w);
                    proof {
                        assert(out@.map_values(|w: Word| w@) =~= old_out.map_values(|w: Word| w@).push(w@));
                        assert(out@.map_values(|w: Word| w@) + it.view() =~= old_out.map_values(
                            |w: Word| w@,
                        ) + before);
                    }
                },
            }
        }
    }

    /// A parallel view of the same words.
    pub fn into_par_iter(self) -> (r: ParallelDictIterator<'a>)
        ensures
            r.0 == self,
    {
        ParallelDictIterator(self)
    }
}

/// The same words, to be divided between workers.
#[derive(Clone, Debug)]
pub struct ParallelDictIterator<'a>(pub DictIterator<'a>);

impl<'a> ParallelDictIterator<'a> {
    /// Divides the undecoded bytes between two workers: the halves that
    /// `DictIterator::split` gives, each wrapped.
    pub fn split(self) -> (r: (ParallelDictIterator<'a>, Option<ParallelDictIterator<'a>>))
        requires
            self.0.wf(),
        ensures
            r.0.0 == self.0.split_spec().0,
            r.1 is None <==> self.0.split_spec().1 is None,
            r.1 matches Some(o) ==> self.0.split_spec().1 == Some(o.0),
            r.0.0.wf(),
            r.1 matches Some(o) ==> o.0.wf() && r.0.0.view() + o.0.view() == self.0.view(),
            r.1 is None ==> r.0.0.view() == self.0.view(),
    {
        let (a, b) = self.0.split();
        match b {
            None => (ParallelDictIterator(a), None),
            Some(o) => (ParallelDictIterator(a), Some(ParallelDictIterator(o))),
        }
    }
}

/// Whether the entries of `b` from `start` to `stop` are well formed.
fn entries_wf(b: &[u8], start: usize, stop: usize) -> (r: bool)
    requires
        start <= stop <= b@.len(),
    ensures
        r == rest_wf(b@.subrange(start as int, stop as int)),
{
    let mut q: usize = start;
    while q < stop
        invariant
            start <= q <= stop <= b@.len(),
            rest_wf(b@.subrange(start as int, stop as int)) == rest_wf(
                b@.subrange(q as int, stop as int),
            ),
        decreases stop - q,
    {
        let ghost rest = b@.subrange(q as int, stop as int);
        let p = b[q];
        if p == END_OF_BLOCK {
            return true;
        }
        if p > 5 || stop - q < 6 - (p as usize) {
            return false;
        }
        proof {
            assert(rest.skip(6 - p) =~= b@.subrange(q + 6 - p, stop as int));
        }
        q = q + (6 - p as usize);
    }
    proof {
        assert(b@.subrange(q as int, stop as int).len() == 0);
    }
    true
}

/// Whether `bytes` is a well-formed compiled dictionary.
pub fn is_well_formed(bytes: &[u8]) -> (r: bool)
    ensures
        r == blob_wf(bytes@),
{
    let len = bytes.len();
    let mut off: usize = 0;
    assert(bytes@.subrange(0, len as int) =~= bytes@);
    while off < len
        invariant
            off <= len == bytes@.len(),
            blob_wf(bytes@) == blob_wf(bytes@.subrange(off as int, len as int)),
        decreases len - off,
    {
        let ghost b = bytes@.subrange(off as int, len as int);
        if len - off < BLOCK_SIZE {
            return false;
        }
        let ok = entries_wf(bytes, off + 5, off + BLOCK_SIZE);
        proof {
            assert(b.subrange(5, BLOCK_SIZE as int) =~= bytes@.subrange(
                off + 5,
                off + BLOCK_SIZE,
            ));
            assert(b.skip(BLOCK_SIZE as int) =~= bytes@.subrange(off + BLOCK_SIZE, len as int));
        }
        if !ok {
            return false;
        }
        off = off + BLOCK_SIZE;
    }
    proof {
        assert(bytes@.subrange(off as int, len as int).len() == 0);
    }
    true
}

/// The two compiled dictionaries: the words that can be secrets, and the words
/// that can only be guessed.
#[derive(Clone, Debug)]
pub struct Dictionaries {
    pub answers: Vec<u8>,
    pub extra: Vec<u8>,
}

impl Dictionaries {
    pub open spec fn wf(&self) -> bool {
        blob_wf(self.answers@) && blob_wf(self.extra@)
    }

    /// The dictionaries, if both are well formed.
    pub fn new(answers: Vec<u8>, extra: Vec<u8>) -> (r: Option<Dictionaries>)
        ensures
            r is Some <==> blob_wf(answers@) && blob_wf(extra@),
            r matches Some(d) ==> d.answers@ == answers@ && d.extra@ == extra@,
    {
        if is_well_formed(answers.as_slice()) && is_well_formed(extra.as_slice()) {
            Some(Dictionaries { answers, extra })
        } else {
            None
        }
    }
}

/// The words that can be secrets.
pub fn wordles(d: &Dictionaries) -> (r: DictIterator<'_>)
    requires
        d.wf(),
    ensures
        r.wf(),
        r.view() == decode_blob(d.answers@),
{
    DictIterator::of_slice(d.answers.as_slice())
}

/// The words that can be guessed but are never secrets.
pub fn other_words(d: &Dictionaries) -> (r: DictIterator<'_>)
    requires
        d.wf(),
    ensures
        r.wf(),
        r.view() == decode_blob(d.extra@),
{
    DictIterator::of_slice(d.extra.as_slice())
}

} // verus!
