//! The cache image of an embedding store.
//!
//! The image is a sequence of 32-bit little-endian words: the number of
//! embeddings, then for each embedding its length followed by its components
//! (binary32 bit patterns). Decoding accepts exactly the images that encoding
//! produces.
use vstd::prelude::*;

verus! {

/// Byte `k` (0 to 3, least significant first) of `w`.
pub open spec fn le_byte(w: u32, k: int) -> u8 {
    if k == 0 {
        (w & 0xff) as u8
    } else if k == 1 {
        ((w >> 8u32) & 0xff) as u8
    } else if k == 2 {
        ((w >> 16u32) & 0xff) as u8
    } else {
        ((w >> 24u32) & 0xff) as u8
    }
}

/// The word whose little-endian bytes are `b0, b1, b2, b3`.
pub open spec fn le_word(b0: u8, b1: u8, b2: u8, b3: u8) -> u32 {
    (b0 as u32) | ((b1 as u32) << 8u32) | ((b2 as u32) << 16u32) | ((b3 as u32) << 24u32)
}

/// The little-endian bytes of a word sequence.
pub open spec fn bytes_of(ws: Seq<u32>) -> Seq<u8> {
    Seq::new(4 * ws.len(), |i: int| le_byte(ws[i / 4], i % 4))
}

/// The words of a byte sequence whose length is a multiple of four.
pub open spec fn words_of(b: Seq<u8>) -> Seq<u32> {
    Seq::new(b.len() / 4, |i: int| le_word(b[4 * i], b[4 * i + 1], b[4 * i + 2], b[4 * i + 3]))
}

/// An embedding as it stands in the image: its length, then its components.
pub open spec fn block(row: Seq<u32>) -> Seq<u32> {
    seq![row.len() as u32] + row
}

/// The blocks of all embeddings, in order.
pub open spec fn blocks(rows: Seq<Seq<u32>>) -> Seq<u32>
    decreases rows.len(),
{
    if rows.len() == 0 {
        Seq::empty()
    } else {
        block(rows[0]) + blocks(rows.drop_first())
    }
}

/// The count and every length fit in a word.
pub open spec fn fits(rows: Seq<Seq<u32>>) -> bool {
    &&& rows.len() <= u32::MAX
    &&& forall|i: int| 0 <= i < rows.len() ==> #[trigger] rows[i].len() <= u32::MAX
}

/// The words of the image of `rows`.
pub open spec fn image_words(rows: Seq<Seq<u32>>) -> Seq<u32> {
    seq![rows.len() as u32] + blocks(rows)
}

/// The image of `rows`, as bytes.
pub open spec fn cache_image(rows: Seq<Seq<u32>>) -> Seq<u8> {
    bytes_of(image_words(rows))
}

/// Reads exactly `n` blocks that make up the whole of `ws`.
pub open spec fn read_blocks(ws: Seq<u32>, n: nat) -> Option<Seq<Seq<u32>>>
    decreases n,
{
    if n == 0 {
        if ws.len() == 0 {
            Some(Seq::empty())
        } else {
            None
        }
    } else if ws.len() == 0 || ws.len() < 1 + ws[0] {
        None
    } else {
        let len = ws[0] as int;
        match read_blocks(ws.subrange(1 + len, ws.len() as int), (n - 1) as nat) {
            Some(rest) => Some(seq![ws.subrange(1, 1 + len)] + rest),
            None => None,
        }
    }
}

/// The embeddings that a word sequence holds, if it is an image.
pub open spec fn read_words(ws: Seq<u32>) -> Option<Seq<Seq<u32>>> {
    if ws.len() == 0 {
        None
    } else {
        read_blocks(ws.drop_first(), ws[0] as nat)
    }
}

/// The embeddings that a byte sequence holds, if it is an image.
pub open spec fn read_image(b: Seq<u8>) -> Option<Seq<Seq<u32>>> {
    if b.len() % 4 != 0 {
        None
    } else {
        read_words(words_of(b))
    }
}

proof fn lemma_word_bytes(w: u32)
    ensures
        le_word(le_byte(w, 0), le_byte(w, 1), le_byte(w, 2), le_byte(w, 3)) == w,
{
    assert((((w & 0xff) as u8) as u32) | (((((w >> 8u32) & 0xff) as u8) as u32) << 8u32) | (((((w
        >> 16u32) & 0xff) as u8) as u32) << 16u32) | (((((w >> 24u32) & 0xff) as u8) as u32)
        << 24u32) == w) by (bit_vector);
}

proof fn lemma_byte_words(b0: u8, b1: u8, b2: u8, b3: u8)
    ensures
        le_byte(le_word(b0, b1, b2, b3), 0) == b0,
        le_byte(le_word(b0, b1, b2, b3), 1) == b1,
        le_byte(le_word(b0, b1, b2, b3), 2) == b2,
        le_byte(le_word(b0, b1, b2, b3), 3) == b3,
{
    let w = le_word(b0, b1, b2, b3);
    assert(w == (b0 as u32) | ((b1 as u32) << 8u32) | ((b2 as u32) << 16u32) | ((b3 as u32)
        << 24u32));
    assert(((((b0 as u32) | ((b1 as u32) << 8u32) | ((b2 as u32) << 16u32) | ((b3 as u32)
        << 24u32)) & 0xff) as u8) == b0) by (bit_vector);
    assert((((((b0 as u32) | ((b1 as u32) << 8u32) | ((b2 as u32) << 16u32) | ((b3 as u32)
        << 24u32)) >> 8u32) & 0xff) as u8) == b1) by (bit_vector);
    assert((((((b0 as u32) | ((b1 as u32) << 8u32) | ((b2 as u32) << 16u32) | ((b3 as u32)
        << 24u32)) >> 16u32) & 0xff) as u8) == b2) by (bit_vector);
    assert((((((b0 as u32) | ((b1 as u32) << 8u32) | ((b2 as u32) << 16u32) | ((b3 as u32)
        << 24u32)) >> 24u32) & 0xff) as u8) == b3) by (bit_vector);
}

proof fn lemma_words_of_bytes(ws: Seq<u32>)
    ensures
        words_of(bytes_of(ws)) == ws,
{
    let b = bytes_of(ws);
    assert forall|i: int| 0 <= i < ws.len() implies #[trigger] words_of(b)[i] == ws[i] by {
        assert(b[4 * i] == le_byte(ws[i], 0));
        assert(b[4 * i + 1] == le_byte(ws[i], 1));
        assert(b[4 * i + 2] == le_byte(ws[i], 2));
        assert(b[4 * i + 3] == le_byte(ws[i], 3));
        lemma_word_bytes(ws[i]);
    }
    assert(words_of(b) =~= ws);
}

proof fn lemma_bytes_of_words(b: Seq<u8>)
    requires
        b.len() % 4 == 0,
    ensures
        bytes_of(words_of(b)) == b,
{
    let ws = words_of(b);
    assert forall|i: int| 0 <= i < b.len() implies #[trigger] bytes_of(ws)[i] == b[i] by {
        let q = i / 4;
        let k = i % 4;
        lemma_byte_words(b[4 * q], b[4 * q + 1], b[4 * q + 2], b[4 * q + 3]);
    }
    assert(bytes_of(ws) =~= b);
}

proof fn lemma_blocks_push(rows: Seq<Seq<u32>>, row: Seq<u32>)
    ensures
        blocks(rows.push(row)) == blocks(rows) + block(row),
    decreases rows.len(),
{
    if rows.len() == 0 {
        assert(rows.push(row).drop_first() =~= Seq::<Seq<u32>>::empty());
        assert(rows.push(row)[0] == row);
        assert(blocks(rows.push(row).drop_first()) == Seq::<u32>::empty());
        assert(blocks(rows) == Seq::<u32>::empty());
        assert(blocks(rows.push(row)) =~= blocks(rows) + block(row));
    } else {
        assert(rows.push(row).drop_first() =~= rows.drop_first().push(row));
        assert(rows.push(row)[0] == rows[0]);
        lemma_blocks_push(rows.drop_first(), row);
        assert(blocks(rows.push(row)) == block(rows[0]) + (blocks(rows.drop_first()) + block(row)));
        assert(blocks(rows.push(row)) =~= blocks(rows) + block(row));
    }
}

proof fn lemma_read_blocks_of(rows: Seq<Seq<u32>>)
    requires
        fits(rows),
    ensures
        read_blocks(blocks(rows), rows.len()) == Some(rows),
    decreases rows.len(),
{
    if rows.len() > 0 {
        let ws = blocks(rows);
        let r = rows[0];
        let rest = rows.drop_first();
        assert(fits(rest)) by {
            assert forall|i: int| 0 <= i < rest.len() implies #[trigger] rest[i].len() <= u32::MAX by {
                assert(rest[i] == rows[i + 1]);
            }
        }
        lemma_read_blocks_of(rest);
        assert(rows[0].len() <= u32::MAX);
        assert(ws[0] == r.len());
        assert(ws.subrange(1, 1 + r.len() as int) =~= r);
        assert(ws.subrange(1 + r.len() as int, ws.len() as int) =~= blocks(rest));
        assert(seq![r] + rest =~= rows);
    }
}

proof fn lemma_blocks_of_read(ws: Seq<u32>, n: nat)
    requires
        read_blocks(ws, n) is Some,
    ensures
        forall|i: int|
            0 <= i < n ==> #[trigger] read_blocks(ws, n)->Some_0[i].len() <= u32::MAX,
        read_blocks(ws, n)->Some_0.len() == n,
        blocks(read_blocks(ws, n)->Some_0) == ws,
    decreases n,
{
    let rows = read_blocks(ws, n)->Some_0;
    if n == 0 {
        assert(blocks(rows) =~= ws);
    } else {
        let len = ws[0] as int;
        let tail = ws.subrange(1 + len, ws.len() as int);
        lemma_blocks_of_read(tail, (n - 1) as nat);
        let rest = read_blocks(tail, (n - 1) as nat)->Some_0;
        let r = ws.subrange(1, 1 + len);
        assert(rows == seq![r] + rest);
        assert(rows[0] == r);
        assert(rows.drop_first() =~= rest);
        assert(block(r) =~= ws.subrange(0, 1 + len));
        assert(blocks(rows) =~= ws);
        assert forall|i: int| 0 <= i < n implies #[trigger] rows[i].len() <= u32::MAX by {
            if i > 0 {
                assert(rows[i] == rest[i - 1]);
            }
        }
    }
}

/// Reading the image of a store gives the store back, bit for bit.
pub proof fn lemma_cache_round_trip(rows: Seq<Seq<u32>>)
    requires
        fits(rows),
    ensures
        read_image(cache_image(rows)) == Some(rows),
{
    let ws = image_words(rows);
    lemma_words_of_bytes(ws);
    assert(ws.drop_first() =~= blocks(rows));
    lemma_read_blocks_of(rows);
}

/// Whatever is read from an image encodes back to exactly that image.
pub proof fn lemma_cache_read_exact(b: Seq<u8>)
    requires
        read_image(b) is Some,
    ensures
        fits(read_image(b)->Some_0),
        cache_image(read_image(b)->Some_0) == b,
{
    let ws = words_of(b);
    lemma_blocks_of_read(ws.drop_first(), ws[0] as nat);
    let rows = read_image(b)->Some_0;
    assert(image_words(rows) =~= ws);
    lemma_bytes_of_words(b);
}

/// A byte sequence is read as a store exactly when it is the image of one.
pub proof fn lemma_cache_read_iff_image(b: Seq<u8>)
    ensures
        read_image(b) is Some <==> exists|rows: Seq<Seq<u32>>| fits(rows) && cache_image(rows) == b,
{
    if read_image(b) is Some {
        lemma_cache_read_exact(b);
    }
    if exists|rows: Seq<Seq<u32>>| fits(rows) && cache_image(rows) == b {
        let rows = choose|rows: Seq<Seq<u32>>| fits(rows) && cache_image(rows) == b;
        lemma_cache_round_trip(rows);
    }
}

/// `o` followed by what `r` holds, if it holds anything.
pub open spec fn prepend(o: Seq<Seq<u32>>, r: Option<Seq<Seq<u32>>>) -> Option<Seq<Seq<u32>>> {
    match r {
        Some(x) => Some(o + x),
        None => None,
    }
}

/// The views of a store's embeddings.
pub open spec fn rows_view(rows: Seq<Vec<u32>>) -> Seq<Seq<u32>> {
    rows.map_values(|e: Vec<u32>| e@)
}

/// Whether the count and every length of `rows` fit in a word.
pub fn image_fits(rows: &Vec<Vec<u32>>) -> (r: bool)
    ensures
        r == fits(rows_view(rows@)),
{
    if rows.len() > u32::MAX as usize {
        return false;
    }
    let mut k: usize = 0;
    while k < rows.len()
        invariant
            k <= rows@.len(),
            forall|i: int| 0 <= i < k ==> #[trigger] rows@[i]@.len() <= u32::MAX,
        decreases rows@.len() - k,
    {
        if rows[k].len() > u32::MAX as usize {
            assert(rows_view(rows@)[k as int].len() > u32::MAX);
            return false;
        }
        k = k + 1;
    }
    assert forall|i: int| 0 <= i < rows_view(rows@).len() implies #[trigger] rows_view(rows@)[i].len()
        <= u32::MAX by {
        assert(rows@[i]@.len() <= u32::MAX);
    }
    true
}

fn image_word_vec(rows: &Vec<Vec<u32>>) -> (r: Vec<u32>)
    requires
        fits(rows_view(rows@)),
    ensures
        r@ == image_words(rows_view(rows@)),
{
    let ghost view = rows_view(rows@);
    let mut out: Vec<u32> = Vec::new();
    out.push(rows.len() as u32);
    let mut k: usize = 0;
    while k < rows.len()
        invariant
            k <= rows@.len(),
            view == rows_view(rows@),
            fits(view),
            out@ == seq![rows@.len() as u32] + blocks(view.subrange(0, k as int)),
        decreases rows@.len() - k,
    {
        let row = &rows[k];
        assert(view[k as int] == row@);
        assert(row@.len() <= u32::MAX);
        let ghost start = out@;
        out.push(row.len() as u32);
        let mut j: usize = 0;
        while j < row.len()
            invariant
                j <= row@.len(),
                out@ == start + seq![row@.len() as u32] + row@.subrange(0, j as int),
            decreases row@.len() - j,
        {
            out.push(row[j]);
            j = j + 1;
            assert(out@ =~= start + seq![row@.len() as u32] + row@.subrange(0, j as int));
        }
        proof {
            lemma_blocks_push(view.subrange(0, k as int), view[k as int]);
            assert(view.subrange(0, k + 1) =~= view.subrange(0, k as int).push(view[k as int]));
            assert(row@.subrange(0, j as int) =~= row@);
            assert(out@ =~= seq![rows@.len() as u32] + blocks(view.subrange(0, k + 1)));
        }
        k = k + 1;
    }
    assert(view.subrange(0, k as int) =~= view);
    out
}

fn bytes_from_words(ws: &Vec<u32>) -> (r: Vec<u8>)
    ensures
        r@ == bytes_of(ws@),
{
    let mut out: Vec<u8> = Vec::new();
    let mut i: usize = 0;
    while i < ws.len()
        invariant
            i <= ws@.len(),
            out@ == bytes_of(ws@.subrange(0, i as int)),
        decreases ws@.len() - i,
    {
        let w = ws[i];
        let ghost before = out@;
        out.push((w & 0xff) as u8);
        out.push(((w >> 8u32) & 0xff) as u8);
        out.push(((w >> 16u32) & 0xff) as u8);
        out.push(((w >> 24u32) & 0xff) as u8);
        proof {
            let next = ws@.subrange(0, i + 1);
            assert forall|j: int| 0 <= j < out@.len() implies #[trigger] out@[j] == bytes_of(next)[j] by {
                if j < 4 * i {
                    assert(before[j] == bytes_of(ws@.subrange(0, i as int))[j]);
                    assert(j / 4 < i);
                } else {
                    assert(j / 4 == i);
                    assert(next[j / 4] == w);
                }
            }
            assert(out@ =~= bytes_of(next));
        }
        i = i + 1;
    }
    assert(ws@.subrange(0, i as int) =~= ws@);
    out
}

/// The image of a store, as bytes.
pub fn encode_image(rows: &Vec<Vec<u32>>) -> (r: Vec<u8>)
    requires
        fits(rows_view(rows@)),
    ensures
        r@ == cache_image(rows_view(rows@)),
{
    let words = image_word_vec(rows);
    bytes_from_words(&words)
}

fn words_from_bytes(b: &[u8]) -> (r: Vec<u32>)
    requires
        b@.len() % 4 == 0,
    ensures
        r@ == words_of(b@),
{
    let mut out: Vec<u32> = Vec::new();
    let mut pos: usize = 0;
    while pos < b.len()
        invariant
            b@.len() % 4 == 0,
            pos % 4 == 0,
            pos <= b@.len(),
            out@ == words_of(b@).subrange(0, pos as int / 4),
        decreases b@.len() - pos,
    {
        assert(pos + 4 <= b@.len());
        let w: u32 = (b[pos] as u32) | ((b[pos + 1] as u32) << 8u32) | ((b[pos + 2] as u32) << 16u32)
            | ((b[pos + 3] as u32) << 24u32);
        out.push(w);
        proof {
            let q = pos as int / 4;
            assert(4 * q == pos);
            assert(words_of(b@)[q] == w);
            assert(out@ =~= words_of(b@).subrange(0, (pos + 4) as int / 4));
        }
        pos = pos + 4;
    }
    assert(words_of(b@).subrange(0, pos as int / 4) =~= words_of(b@));
    out
}

fn read_word_vec(ws: &Vec<u32>) -> (r: Option<Vec<Vec<u32>>>)
    ensures
        match r {
            Some(v) => read_words(ws@) == Some(rows_view(v@)),
            None => read_words(ws@) is None,
        },
{
    let len = ws.len();
    if len == 0 {
        return None;
    }
    let n = ws[0];
    let ghost all = ws@.subrange(1, len as int);
    assert(all =~= ws@.drop_first());
    let mut out: Vec<Vec<u32>> = Vec::new();
    let mut pos: usize = 1;
    let mut k: u32 = 0;
    while k < n
        invariant
            len == ws@.len(),
            len > 0,
            n == ws@[0],
            all == ws@.drop_first(),
            1 <= pos <= len,
            k <= n,
            read_blocks(all, n as nat) == prepend(
                rows_view(out@),
                read_blocks(ws@.subrange(pos as int, len as int), (n - k) as nat),
            ),
        decreases n - k,
    {
        let ghost suffix = ws@.subrange(pos as int, len as int);
        if pos >= len {
            assert(suffix.len() == 0);
            assert(read_blocks(suffix, (n - k) as nat) is None);
            return None;
        }
        let l = ws[pos];
        assert(suffix[0] == l);
        if ((len - pos - 1) as u64) < (l as u64) {
            assert(suffix.len() < 1 + suffix[0]);
            assert(read_blocks(suffix, (n - k) as nat) is None);
            return None;
        }
        let lu = l as usize;
        let mut row: Vec<u32> = Vec::new();
        let mut j: usize = 0;
        while j < lu
            invariant
                len == ws@.len(),
                pos + 1 + lu <= len,
                j <= lu,
                row@ == ws@.subrange(pos + 1, pos + 1 + j),
            decreases lu - j,
        {
            row.push(ws[pos + 1 + j]);
            j = j + 1;
            assert(row@ =~= ws@.subrange(pos + 1, pos + 1 + j));
        }
        proof {
            let rest_ws = suffix.subrange(1 + l as int, suffix.len() as int);
            assert(rest_ws =~= ws@.subrange(pos + 1 + lu, len as int));
            assert(suffix.subrange(1, 1 + l as int) =~= row@);
            let tail = read_blocks(rest_ws, (n - k - 1) as nat);
            assert(read_blocks(suffix, (n - k) as nat) == prepend(seq![row@], tail));
            let ghost old_view = rows_view(out@);
            assert(rows_view(out@.push(row)) =~= old_view.push(row@));
            match tail {
                Some(x) => {
                    assert(old_view + (seq![row@] + x) =~= old_view.push(row@) + x);
                },
                None => {},
            }
        }
        out.push(row);
        pos = pos + 1 + lu;
        k = k + 1;
    }
    if pos != len {
        let ghost suffix = ws@.subrange(pos as int, len as int);
        assert(suffix.len() > 0);
        return None;
    }
    assert(ws@.subrange(pos as int, len as int) =~= Seq::<u32>::empty());
    assert(rows_view(out@) + Seq::<Seq<u32>>::empty() =~= rows_view(out@));
    Some(out)
}

/// Reads a store from its image; `None` when the bytes are not an image.
pub fn decode_image(b: &[u8]) -> (r: Option<Vec<Vec<u32>>>)
    ensures
        match r {
            Some(v) => read_image(b@) == Some(rows_view(v@)),
            None => read_image(b@) is None,
        },
{
    if b.len() % 4 != 0 {
        return None;
    }
    let words = words_from_bytes(b);
    read_word_vec(&words)
}

} // verus!
