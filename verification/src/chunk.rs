//! Chunked transport: splitting a text into byte-bounded windows that never
//! cut a character in two, so that every chunk is valid UTF-8 on its own and
//! the chunks concatenate back to the original text.

use vstd::prelude::*;

verus! {

/// Byte length of one character when written as UTF-8.
pub open spec fn utf8_len_spec(c: char) -> int {
    if (c as u32) < 0x80 {
        1
    } else if (c as u32) < 0x800 {
        2
    } else if (c as u32) < 0x10000 {
        3
    } else {
        4
    }
}

/// Byte length of a character sequence when written as UTF-8.
pub open spec fn utf8_byte_len(s: Seq<char>) -> int
    decreases s.len(),
{
    if s.len() == 0 {
        0
    } else {
        utf8_byte_len(s.drop_last()) + utf8_len_spec(s.last())
    }
}

/// The texts a list of chunks holds.
pub open spec fn chunk_views(cs: Seq<Vec<char>>) -> Seq<Seq<char>>
    decreases cs,
{
    if cs.len() == 0 {
        Seq::empty()
    } else {
        chunk_views(cs.drop_last()).push(cs.last()@)
    }
}

/// The chunks joined back together, in order.
pub open spec fn concat_chunks(cs: Seq<Seq<char>>) -> Seq<char>
    decreases cs.len(),
{
    if cs.len() == 0 {
        Seq::empty()
    } else {
        concat_chunks(cs.drop_last()) + cs.last()
    }
}

pub proof fn lemma_chunk_views(cs: Seq<Vec<char>>)
    ensures
        chunk_views(cs).len() == cs.len(),
        forall|k: int| 0 <= k < cs.len() ==> chunk_views(cs)[k] == cs[k]@,
    decreases cs.len(),
{
    if cs.len() > 0 {
        lemma_chunk_views(cs.drop_last());
    }
}

/// Number of bytes one character occupies when written as UTF-8.
pub fn utf8_len(c: char) -> (n: usize)
    ensures
        n == utf8_len_spec(c),
        1 <= n <= 4,
{
    let code = c as u32;
    if code < 0x80 {
        1
    } else if code < 0x800 {
        2
    } else if code < 0x10000 {
        3
    } else {
        4
    }
}

/// What it means for `chunks` to be the chunking of `text` at `window`
/// bytes: they concatenate back to `text` in order, none is empty or over
/// the window, and each is as full as it can be — the character opening
/// the next chunk would not have fit. These conditions determine the
/// chunks uniquely: see `lemma_chunking_unique`.
pub open spec fn is_chunking(chunks: Seq<Seq<char>>, text: Seq<char>, window: int) -> bool {
    &&& concat_chunks(chunks) == text
    &&& (text.len() == 0 <==> chunks.len() == 0)
    &&& (forall|k: int| 0 <= k < chunks.len() ==> utf8_byte_len(#[trigger] chunks[k]) <= window)
    &&& (forall|k: int| 0 <= k < chunks.len() ==> (#[trigger] chunks[k]).len() > 0)
    &&& (forall|k: int|
        0 <= k < chunks.len() - 1 ==> utf8_byte_len(#[trigger] chunks[k]) + utf8_len_spec(
            chunks[k + 1][0],
        ) > window)
}

/// Splits `s` into chunks of at most `window` UTF-8 bytes each, cutting only
/// between characters. Chunks are as full as they can be: no character that
/// opens a chunk would still have fit in the one before it. Joining the
/// chunks in order gives back `s` exactly, and an empty text yields no
/// chunks.
pub fn chunk_text(s: &Vec<char>, window: usize) -> (chunks: Vec<Vec<char>>)
    requires
        4 <= window <= usize::MAX - 4,
    ensures
        is_chunking(chunk_views(chunks@), s@, window as int),
{
    proof {
        lemma_chunk_views(Seq::<Vec<char>>::empty());
    }
    let mut chunks: Vec<Vec<char>> = Vec::new();
    let mut cur: Vec<char> = Vec::new();
    let mut cur_bytes: usize = 0;
    let n = s.len();
    let mut i: usize = 0;
    while i < n
        invariant
            n == s@.len(),
            i <= n,
            cur_bytes == utf8_byte_len(cur@),
            cur_bytes <= window,
            4 <= window <= usize::MAX - 4,
            concat_chunks(chunk_views(chunks@)) + cur@ == s@.take(i as int),
            i > 0 ==> cur@.len() > 0,
            i == 0 ==> cur@.len() == 0 && chunks@.len() == 0,
            forall|k: int|
                0 <= k < chunks@.len() ==> utf8_byte_len(#[trigger] chunks@[k]@) <= window,
            forall|k: int| 0 <= k < chunks@.len() ==> (#[trigger] chunks@[k]@).len() > 0,
            forall|k: int|
                0 <= k < chunks@.len() - 1 ==> utf8_byte_len(#[trigger] chunks@[k]@)
                    + utf8_len_spec(chunks@[k + 1]@[0]) > window,
            chunks@.len() > 0 && cur@.len() > 0 ==> utf8_byte_len(
                chunks@[chunks@.len() - 1]@,
            ) + utf8_len_spec(cur@[0]) > window,
        decreases n - i,
    {
        let c = s[i];
        let b = utf8_len(c);
        if cur_bytes + b > window {
            let ghost old_chunks = chunks@;
            let ghost old_cur = cur@;
            let full = cur;
            chunks.push(full);
            cur = Vec::new();
            cur_bytes = 0;
            proof {
                assert(chunks@.drop_last() =~= old_chunks);
                assert(chunk_views(chunks@).drop_last() =~= chunk_views(old_chunks));
                assert(concat_chunks(chunk_views(chunks@)) =~= concat_chunks(
                    chunk_views(old_chunks),
                ) + old_cur);
            }
        }
        let ghost cur0 = cur@;
        cur.push(c);
        cur_bytes = cur_bytes + b;
        proof {
            assert(cur@.drop_last() =~= cur0);
            assert(cur@.last() == c);
            assert(utf8_byte_len(Seq::<char>::empty()) == 0);
            assert(utf8_byte_len(cur@) == utf8_byte_len(cur0) + utf8_len_spec(c));
            assert(s@.take(i + 1) =~= s@.take(i as int).push(c));
            assert(concat_chunks(chunk_views(chunks@)) + cur@ =~= (concat_chunks(
                chunk_views(chunks@),
            ) + cur0).push(c));
        }
        i = i + 1;
    }
    if cur.len() > 0 {
        let ghost old_chunks = chunks@;
        let ghost old_cur = cur@;
        chunks.push(cur);
        proof {
            assert(chunks@.drop_last() =~= old_chunks);
            assert(chunk_views(chunks@).drop_last() =~= chunk_views(old_chunks));
            assert(concat_chunks(chunk_views(chunks@)) =~= concat_chunks(
                chunk_views(old_chunks),
            ) + old_cur);
            assert(s@.take(n as int) =~= s@);
        }
    } else {
        proof {
            assert(s@.take(n as int) =~= s@);
            assert(concat_chunks(chunk_views(chunks@)) + cur@ =~= concat_chunks(
                chunk_views(chunks@),
            ));
        }
    }
    proof {
        lemma_chunk_views(chunks@);
    }
    chunks
}

// ---------------------------------------------------------------------------
// The chunking is unique.
// ---------------------------------------------------------------------------

proof fn lemma_utf8_byte_len_nonneg(s: Seq<char>)
    ensures
        utf8_byte_len(s) >= s.len(),
    decreases s.len(),
{
    if s.len() > 0 {
        lemma_utf8_byte_len_nonneg(s.drop_last());
    }
}

proof fn lemma_utf8_byte_len_concat(a: Seq<char>, b: Seq<char>)
    ensures
        utf8_byte_len(a + b) == utf8_byte_len(a) + utf8_byte_len(b),
    decreases b.len(),
{
    if b.len() == 0 {
        assert(a + b =~= a);
    } else {
        lemma_utf8_byte_len_concat(a, b.drop_last());
        assert((a + b).drop_last() =~= a + b.drop_last());
        assert((a + b).last() == b.last());
        assert(b.drop_last().push(b.last()) =~= b);
    }
}

proof fn lemma_concat_chunks_front(cs: Seq<Seq<char>>)
    requires
        cs.len() > 0,
    ensures
        concat_chunks(cs) == cs[0] + concat_chunks(cs.skip(1)),
    decreases cs.len(),
{
    if cs.len() == 1 {
        assert(cs.drop_last() =~= Seq::<Seq<char>>::empty());
        assert(cs.skip(1) =~= Seq::<Seq<char>>::empty());
        assert(concat_chunks(cs) =~= cs[0] + concat_chunks(cs.skip(1)));
    } else {
        lemma_concat_chunks_front(cs.drop_last());
        assert(cs.skip(1).drop_last() =~= cs.drop_last().skip(1));
        assert(cs.skip(1).last() == cs.last());
        assert(cs.drop_last()[0] == cs[0]);
        assert(concat_chunks(cs.skip(1)) == concat_chunks(cs.drop_last().skip(1)) + cs.last());
        assert(concat_chunks(cs) == (cs[0] + concat_chunks(cs.drop_last().skip(1))) + cs.last());
        assert(concat_chunks(cs) =~= cs[0] + concat_chunks(cs.skip(1)));
    }
}

/// If both lists chunk the same text and the first's opening chunk is no
/// longer than the second's, the two opening chunks are the same.
proof fn lemma_first_chunk_le(c1: Seq<Seq<char>>, c2: Seq<Seq<char>>, t: Seq<char>, w: int)
    requires
        is_chunking(c1, t, w),
        is_chunking(c2, t, w),
        t.len() > 0,
        c1[0].len() <= c2[0].len(),
    ensures
        c1[0] == c2[0],
{
    lemma_concat_chunks_front(c1);
    lemma_concat_chunks_front(c2);
    let a = c1[0];
    let b = c2[0];
    let la = a.len() as int;
    // both opening chunks are prefixes of the text, so the shorter is a
    // prefix of the longer
    assert(forall|k: int| 0 <= k < la ==> t[k] == a[k]);
    assert(forall|k: int| 0 <= k < b.len() ==> t[k] == b[k]);
    if a.len() < b.len() {
        // the character after `a` in the text
        let r1 = concat_chunks(c1.skip(1));
        assert(t.len() == a.len() + r1.len());
        if c1.len() == 1 {
            assert(c1.skip(1) =~= Seq::<Seq<char>>::empty());
            assert(r1.len() == 0);
            assert(b.len() <= t.len());
            assert(false);
        } else {
            lemma_concat_chunks_front(c1.skip(1));
            assert(c1.skip(1)[0] == c1[1]);
            assert(c1[1].len() > 0);
            let c = c1[1][0];
            assert(r1[0] == c);
            assert(t[la] == (a + r1)[la]);
            assert(t[la] == c);
            // `a` is full: `c` would not have fit
            assert(utf8_byte_len(a) + utf8_len_spec(c) > w);
            // yet `b` holds `a`, then `c`, then possibly more
            assert(b[la] == c);
            assert(b.take(la) =~= a);
            assert(b.take(la + 1).drop_last() =~= a);
            assert(b.take(la + 1).last() == c);
            assert(utf8_byte_len(b.take(la + 1)) == utf8_byte_len(a) + utf8_len_spec(c));
            assert(b =~= b.take(la + 1) + b.skip(la + 1));
            lemma_utf8_byte_len_concat(b.take(la + 1), b.skip(la + 1));
            lemma_utf8_byte_len_nonneg(b.skip(la + 1));
            assert(utf8_byte_len(b) > w);
            assert(false);
        }
    } else {
        assert(a =~= b);
    }
}

/// One text, one chunking: any two lists that both satisfy `is_chunking`
/// for the same text and window are equal. With `chunk_text`'s
/// postcondition, this pins the transport's chunks down completely.
#[verifier::rlimit(60)]
pub proof fn lemma_chunking_unique(c1: Seq<Seq<char>>, c2: Seq<Seq<char>>, t: Seq<char>, w: int)
    requires
        is_chunking(c1, t, w),
        is_chunking(c2, t, w),
    ensures
        c1 == c2,
    decreases c1.len(),
{
    if t.len() == 0 {
        assert(c1 =~= c2);
    } else {
        assert(c1.len() > 0 && c2.len() > 0);
        if c1[0].len() <= c2[0].len() {
            lemma_first_chunk_le(c1, c2, t, w);
        } else {
            lemma_first_chunk_le(c2, c1, t, w);
        }
        assert(c1[0] == c2[0]);
        lemma_concat_chunks_front(c1);
        lemma_concat_chunks_front(c2);
        let rest = concat_chunks(c1.skip(1));
        lemma_concat_cancel(c1[0], rest, concat_chunks(c2.skip(1)));
        assert(concat_chunks(c2.skip(1)) == rest);
        assert(is_chunking(c1.skip(1), rest, w)) by {
            lemma_chunking_shift(c1, t, w);
        }
        assert(is_chunking(c2.skip(1), rest, w)) by {
            lemma_chunking_shift(c2, t, w);
        }
        lemma_chunking_unique(c1.skip(1), c2.skip(1), rest, w);
        lemma_eq_from_head_and_tail(c1, c2);
    }
}

proof fn lemma_eq_from_head_and_tail(c1: Seq<Seq<char>>, c2: Seq<Seq<char>>)
    requires
        c1.len() > 0,
        c2.len() > 0,
        c1[0] == c2[0],
        c1.skip(1) == c2.skip(1),
    ensures
        c1 == c2,
{
    assert(c1.skip(1).len() == c1.len() - 1);
    assert(c2.skip(1).len() == c2.len() - 1);
    assert(c1.len() == c2.len());
    assert(forall|k: int|
        1 <= k < c1.len() ==> #[trigger] c1[k] == c1.skip(1)[k - 1] && c2[k] == c2.skip(1)[k - 1]);
    assert(c1 =~= c2);
}

proof fn lemma_concat_cancel(a: Seq<char>, x: Seq<char>, y: Seq<char>)
    requires
        a + x == a + y,
    ensures
        x == y,
{
    assert((a + x).len() == a.len() + x.len());
    assert((a + y).len() == a.len() + y.len());
    assert(x.len() == y.len());
    assert forall|k: int| 0 <= k < x.len() implies x[k] == y[k] by {
        assert((a + x)[a.len() + k] == x[k]);
        assert((a + y)[a.len() + k] == y[k]);
    }
    assert(x =~= y);
}

/// Dropping the first chunk chunks the remaining text.
proof fn lemma_chunking_shift(cs: Seq<Seq<char>>, t: Seq<char>, w: int)
    requires
        is_chunking(cs, t, w),
        cs.len() > 0,
    ensures
        is_chunking(cs.skip(1), concat_chunks(cs.skip(1)), w),
{
    let rest = cs.skip(1);
    assert(forall|k: int| 0 <= k < rest.len() ==> rest[k] == cs[k + 1]);
    if rest.len() > 0 {
        lemma_concat_chunks_front(rest);
        lemma_utf8_byte_len_nonneg(rest[0]);
        lemma_utf8_byte_len_nonneg(concat_chunks(rest.skip(1)));
        assert(concat_chunks(rest).len() >= rest[0].len()) by {
            assert(concat_chunks(rest) == rest[0] + concat_chunks(rest.skip(1)));
        }
        assert(concat_chunks(rest).len() > 0);
    }
    assert(forall|k: int|
        0 <= k < rest.len() - 1 ==> utf8_byte_len(#[trigger] rest[k]) + utf8_len_spec(
            rest[k + 1][0],
        ) > w) by {
        assert(forall|k: int|
            0 <= k < cs.len() - 1 ==> utf8_byte_len(#[trigger] cs[k]) + utf8_len_spec(
                cs[k + 1][0],
            ) > w);
        assert(forall|k: int|
            0 <= k < rest.len() - 1 ==> #[trigger] rest[k] == cs[k + 1] && rest[k + 1] == cs[k
                + 2]);
    }
}

} // verus!
