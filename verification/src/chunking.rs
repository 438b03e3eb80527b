use vstd::prelude::*;

use vstd::string::StringSliceAdditionalSpecFns;
use vstd::utf8::is_char_boundary;

verus! {

/// Sizes, in bytes, for splitting a text into overlapping chunks.
pub struct ChunkingConfig {
    pub chunk_size: usize,
    pub chunk_overlap: usize,
    pub min_chunk_size: usize,
}

impl ChunkingConfig {
    /// Chunks of 512 bytes overlapping by 50; chunks under 100 bytes are
    /// dropped.
    pub fn default() -> (c: Self)
        ensures
            c.chunk_size == 512,
            c.chunk_overlap == 50,
            c.min_chunk_size == 100,
    {
        ChunkingConfig { chunk_size: 512, chunk_overlap: 50, min_chunk_size: 100 }
    }
}

/// The byte is one after which a chunk may end as it is.
pub open spec fn is_break_byte(b: u8) -> bool {
    b == 32 || b == 46 || b == 33 || b == 63
}

/// The last position of a space byte in `b[start..end)`, if any.
pub open spec fn last_space(b: Seq<u8>, start: int, end: int) -> Option<int>
    decreases end - start,
{
    if end <= start {
        None
    } else if b[end - 1] == 32 {
        Some(end - 1)
    } else {
        last_space(b, start, end - 1)
    }
}

/// The end of the window that starts at `start`.
pub open spec fn window_end(len: int, start: int, size: int) -> int {
    if start + size <= len { start + size } else { len }
}

/// The byte range of the chunk that starts at `start`: the window of
/// `size` bytes (cut at the end of the text); when the window ends inside
/// the text, not after a space, `.`, `!` or `?`, it is cut back to its last
/// space, if it has one.
pub open spec fn chunk_at(b: Seq<u8>, start: int, size: int) -> (int, int) {
    let end = window_end(b.len() as int, start, size);
    if end < b.len() && !is_break_byte(b[end - 1]) {
        match last_space(b, start, end) {
            Some(p) => (start, p),
            None => (start, end),
        }
    } else {
        (start, end)
    }
}

/// The chunks of `b` from byte `start` on: one window every `size - overlap`
/// bytes, each kept when it has at least `min` bytes.
pub open spec fn chunks_from(b: Seq<u8>, start: int, c: ChunkingConfig) -> Seq<(int, int)>
    decreases if start < b.len() { b.len() - start } else { 0 },
{
    if start >= b.len() || c.chunk_overlap >= c.chunk_size || start < 0 {
        Seq::empty()
    } else {
        let r = chunk_at(b, start, c.chunk_size as int);
        let rest = chunks_from(b, start + c.chunk_size - c.chunk_overlap, c);
        if r.1 - r.0 >= c.min_chunk_size {
            seq![r] + rest
        } else {
            rest
        }
    }
}

/// Every window from `start` on begins and ends on a character boundary of
/// the UTF-8 text `b`, and no position overflows.
pub open spec fn windows_on_boundaries(b: Seq<u8>, start: int, c: ChunkingConfig) -> bool
    decreases if start < b.len() { b.len() - start } else { 0 },
{
    if start >= b.len() || c.chunk_overlap >= c.chunk_size || start < 0 {
        true
    } else {
        &&& start + c.chunk_size <= usize::MAX
        &&& is_char_boundary(b, start)
        &&& is_char_boundary(b, window_end(b.len() as int, start, c.chunk_size as int))
        &&& windows_on_boundaries(b, start + c.chunk_size - c.chunk_overlap, c)
    }
}

/// A text can be split with `c`: it is empty or the overlap is smaller
/// than the chunk size, and every window falls on character boundaries.
pub open spec fn can_split(text: &str, c: ChunkingConfig) -> bool {
    &&& (text.spec_bytes().len() == 0 || c.chunk_overlap < c.chunk_size)
    &&& windows_on_boundaries(text.spec_bytes(), 0, c)
}

fn find_last_space(b: &[u8], start: usize, end: usize) -> (r: Option<usize>)
    requires
        start <= end <= b@.len(),
    ensures
        match r {
            Some(p) => last_space(b@, start as int, end as int) == Some(p as int) && start <= p < end,
            None => last_space(b@, start as int, end as int).is_none(),
        },
    decreases end - start,
{
    if end <= start {
        None
    } else if b[end - 1] == 32 {
        Some(end - 1)
    } else {
        find_last_space(b, start, end - 1)
    }
}

/// The byte ranges of the chunks of `text`.
#[verifier::spinoff_prover]
pub fn chunk_ranges(text: &str, config: &ChunkingConfig) -> (r: Vec<(usize, usize)>)
    requires
        can_split(text, *config),
    ensures
        r@.len() == chunks_from(text.spec_bytes(), 0, *config).len(),
        forall|i: int| 0 <= i < r@.len() ==> #[trigger] r@[i].0 as int == chunks_from(text.spec_bytes(), 0, *config)[i].0
            && r@[i].1 as int == chunks_from(text.spec_bytes(), 0, *config)[i].1,
        forall|i: int| 0 <= i < r@.len() ==> ends_at_last_space(
            text.spec_bytes(),
            config.chunk_size as int,
            (#[trigger] r@[i].0 as int, r@[i].1 as int),
        ) && r@[i].1 - r@[i].0 >= config.min_chunk_size,
        config.chunk_overlap < config.chunk_size ==> {
            &&& forall|i: int, j: int| 0 <= i < j < r@.len() ==> (#[trigger] r@[i]).0 < (#[trigger] r@[j]).0
            &&& forall|i: int| 0 <= i < r@.len() ==> on_step(0, (#[trigger] r@[i]).0 as int, config.chunk_size - config.chunk_overlap)
            &&& forall|k: nat, e: int| #![trigger ends_at_last_space(text.spec_bytes(), config.chunk_size as int, (step_start(0, k, config.chunk_size - config.chunk_overlap), e))]
                step_start(0, k, config.chunk_size - config.chunk_overlap) < text.spec_bytes().len()
                && ends_at_last_space(text.spec_bytes(), config.chunk_size as int, (step_start(0, k, config.chunk_size - config.chunk_overlap), e))
                && e - step_start(0, k, config.chunk_size - config.chunk_overlap) >= config.min_chunk_size
                ==> exists|i: int| 0 <= i < r@.len() && #[trigger] r@[i].0 == step_start(0, k, config.chunk_size - config.chunk_overlap)
        },
{
    proof {
        lemma_chunks_end_at_last_space(text.spec_bytes(), 0, *config);
        if config.chunk_overlap < config.chunk_size {
            lemma_chunks_start_on_steps(text.spec_bytes(), 0, *config);
            lemma_chunks_start_every_step(text.spec_bytes(), 0, *config);
        }
    }
    let b = text.as_bytes();
    let ghost bs = text.spec_bytes();
    let text_len = b.len();
    let mut out: Vec<(usize, usize)> = Vec::new();
    let ghost mut done: Seq<(int, int)> = Seq::empty();
    let mut start: usize = 0;
    if text_len == 0 {
        return out;
    }
    while start < text_len
        invariant
            b@ == bs,
            text_len == bs.len(),
            config.chunk_overlap < config.chunk_size,
            windows_on_boundaries(bs, start as int, *config),
            done + chunks_from(bs, start as int, *config) == chunks_from(bs, 0, *config),
            out@.len() == done.len(),
            forall|i: int| 0 <= i < out@.len() ==> #[trigger] out@[i].0 as int == done[i].0 && out@[i].1 as int == done[i].1,
        decreases if start < text_len { text_len - start } else { 0 },
    {
        let end = if start + config.chunk_size <= text_len { start + config.chunk_size } else { text_len };
        let mut chunk_end = end;
        if end < text_len && !(b[end - 1] == 32 || b[end - 1] == 46 || b[end - 1] == 33 || b[end - 1] == 63) {
            match find_last_space(b, start, end) {
                Some(p) => {
                    chunk_end = p;
                },
                None => {},
            }
        }
        let ghost r = chunk_at(bs, start as int, config.chunk_size as int);
        let ghost rest = chunks_from(bs, start + config.chunk_size - config.chunk_overlap, *config);
        assert(r == (start as int, chunk_end as int));
        if chunk_end - start >= config.min_chunk_size {
            let ghost old_out = out@;
            out.push((start, chunk_end));
            proof {
                assert(done.push(r) + rest =~= done + (seq![r] + rest));
                done = done.push(r);
                assert forall|i: int| 0 <= i < out@.len() implies #[trigger] out@[i].0 as int == done[i].0 && out@[i].1 as int == done[i].1 by {
                    if i < old_out.len() {
                        assert(out@[i] == old_out[i]);
                    }
                }
            }
        }
        start = start + (config.chunk_size - config.chunk_overlap);
    }
    proof {
        assert(chunks_from(bs, start as int, *config) =~= Seq::<(int, int)>::empty());
        assert(done =~= chunks_from(bs, 0, *config));
        assert forall|i: int| 0 <= i < out@.len() implies ends_at_last_space(
            bs,
            config.chunk_size as int,
            (#[trigger] out@[i].0 as int, out@[i].1 as int),
        ) && out@[i].1 - out@[i].0 >= config.min_chunk_size by {
            assert(chunks_from(bs, 0, *config)[i] == (out@[i].0 as int, out@[i].1 as int));
        }
        if config.chunk_overlap < config.chunk_size {
            let ch = chunks_from(bs, 0, *config);
            assert forall|i: int, j: int| 0 <= i < j < out@.len() implies (#[trigger] out@[i]).0 < (#[trigger] out@[j]).0 by {
                assert(ch[i].0 < ch[j].0);
            }
            assert forall|i: int| 0 <= i < out@.len() implies on_step(0, (#[trigger] out@[i]).0 as int, config.chunk_size - config.chunk_overlap) by {
                assert(ch[i].0 == out@[i].0);
            }
            assert forall|k: nat, e: int| #![trigger ends_at_last_space(bs, config.chunk_size as int, (step_start(0, k, config.chunk_size - config.chunk_overlap), e))]
                step_start(0, k, config.chunk_size - config.chunk_overlap) < bs.len()
                && ends_at_last_space(bs, config.chunk_size as int, (step_start(0, k, config.chunk_size - config.chunk_overlap), e))
                && e - step_start(0, k, config.chunk_size - config.chunk_overlap) >= config.min_chunk_size
                implies exists|i: int| 0 <= i < out@.len() && #[trigger] out@[i].0 == step_start(0, k, config.chunk_size - config.chunk_overlap) by {
                let i = choose|i: int| 0 <= i < ch.len() && #[trigger] ch[i].0 == step_start(0, k, config.chunk_size - config.chunk_overlap);
                assert(out@[i].0 == ch[i].0);
            }
        }
    }
    out
}

proof fn lemma_last_space_boundary(b: Seq<u8>, start: int, end: int)
    requires
        vstd::utf8::valid_utf8(b),
        0 <= start <= end <= b.len(),
    ensures
        last_space(b, start, end) matches Some(p) ==> start <= p < end && is_char_boundary(b, p),
    decreases end - start,
{
    if end > start {
        if b[end - 1] == 32 {
            vstd::utf8::is_char_boundary_iff_is_leading_byte(b, end - 1);
        } else {
            lemma_last_space_boundary(b, start, end - 1);
        }
    }
}

/// Every chunk from `start` on begins and ends on a character boundary.
proof fn lemma_chunks_on_boundaries(b: Seq<u8>, start: int, c: ChunkingConfig)
    requires
        vstd::utf8::valid_utf8(b),
        windows_on_boundaries(b, start, c),
    ensures
        forall|i: int| 0 <= i < chunks_from(b, start, c).len() ==> {
            let r = #[trigger] chunks_from(b, start, c)[i];
            0 <= r.0 <= r.1 <= b.len() && is_char_boundary(b, r.0) && is_char_boundary(b, r.1)
        },
    decreases if start < b.len() { b.len() - start } else { 0 },
{
    if !(start >= b.len() || c.chunk_overlap >= c.chunk_size || start < 0) {
        let next = start + c.chunk_size - c.chunk_overlap;
        lemma_chunks_on_boundaries(b, next, c);
        let end = window_end(b.len() as int, start, c.chunk_size as int);
        lemma_last_space_boundary(b, start, end);
        let r = chunk_at(b, start, c.chunk_size as int);
        let rest = chunks_from(b, next, c);
        assert forall|i: int| 0 <= i < chunks_from(b, start, c).len() implies {
            let q = #[trigger] chunks_from(b, start, c)[i];
            0 <= q.0 <= q.1 <= b.len() && is_char_boundary(b, q.0) && is_char_boundary(b, q.1)
        } by {
            if r.1 - r.0 >= c.min_chunk_size {
                if i > 0 {
                    assert(chunks_from(b, start, c)[i] == rest[i - 1]);
                }
            } else {
                assert(chunks_from(b, start, c)[i] == rest[i]);
            }
        }
    }
}

/// The chunks of `text`: windows of `chunk_size` bytes every
/// `chunk_size - chunk_overlap` bytes, each cut back to its last space when
/// it ends inside the text and not after a space or `.`, `!`, `?`; chunks
/// shorter than `min_chunk_size` bytes are dropped.
pub fn split_into_chunks(text: &str, config: &ChunkingConfig) -> (r: Vec<String>)
    requires
        can_split(text, *config),
    ensures
        r@.len() == chunks_from(text.spec_bytes(), 0, *config).len(),
        forall|i: int| 0 <= i < r@.len() ==> vstd::utf8::encode_utf8(#[trigger] r@[i]@) == text.spec_bytes().subrange(
            chunks_from(text.spec_bytes(), 0, *config)[i].0,
            chunks_from(text.spec_bytes(), 0, *config)[i].1,
        ),
{
    let ranges = chunk_ranges(text, config);
    let ghost cs = chunks_from(text.spec_bytes(), 0, *config);
    proof {
        vstd::utf8::encode_utf8_valid_utf8(text@);
        lemma_chunks_on_boundaries(text.spec_bytes(), 0, *config);
    }
    let mut out: Vec<String> = Vec::new();
    let mut i: usize = 0;
    while i < ranges.len()
        invariant
            i <= ranges@.len(),
            ranges@.len() == cs.len(),
            cs == chunks_from(text.spec_bytes(), 0, *config),
            forall|k: int| 0 <= k < ranges@.len() ==> #[trigger] ranges@[k].0 as int == cs[k].0 && ranges@[k].1 as int == cs[k].1,
            forall|k: int| 0 <= k < cs.len() ==> {
                let q = #[trigger] cs[k];
                0 <= q.0 <= q.1 <= text.spec_bytes().len() && is_char_boundary(text.spec_bytes(), q.0)
                    && is_char_boundary(text.spec_bytes(), q.1)
            },
            out@.len() == i,
            forall|k: int| 0 <= k < i ==> vstd::utf8::encode_utf8(#[trigger] out@[k]@) == text.spec_bytes().subrange(cs[k].0, cs[k].1),
        decreases ranges@.len() - i,
    {
        let (a, b) = ranges[i];
        assert(cs[i as int] == (a as int, b as int));
        let piece = byte_slice(text, a, b);
        out.push(piece);
        i += 1;
    }
    out
}

/// The text of bytes `a..b` of `s`, both on character boundaries (a slice
/// of `str`, then `to_owned`).
#[verifier::external_body]
pub(crate) fn byte_slice(s: &str, a: usize, b: usize) -> (r: String)
    requires
        a <= b <= s.spec_bytes().len(),
        is_char_boundary(s.spec_bytes(), a as int),
        is_char_boundary(s.spec_bytes(), b as int),
    ensures
        vstd::utf8::encode_utf8(r@) == s.spec_bytes().subrange(a as int, b as int),
{
    s[a..b].to_owned()
}

/// A chunk `(s, e)` of `b` for chunks of `size` bytes ends where it should:
/// its window runs `size` bytes from `s` (stopping at the end of the text);
/// when the window ends inside the text after a byte other than a space,
/// `.`, `!` or `?`, and the window holds a space, the chunk ends at the
/// last space of the window (leaving that space out); otherwise it ends
/// with its window.
pub open spec fn ends_at_last_space(b: Seq<u8>, size: int, r: (int, int)) -> bool {
    let s = r.0;
    let e = r.1;
    let w = if s + size <= b.len() { s + size } else { b.len() as int };
    let cut = w < b.len() && b[w - 1] != 32u8 && b[w - 1] != 46u8 && b[w - 1] != 33u8 && b[w - 1] != 63u8;
    &&& 0 <= s <= e <= w
    &&& if cut && exists|q: int| s <= q < w && b[q] == 32u8 {
        &&& e < w
        &&& b[e] == 32u8
        &&& forall|q: int| e < q < w ==> b[q] != 32u8
    } else {
        e == w
    }
}

proof fn lemma_last_space_is_last(b: Seq<u8>, start: int, end: int)
    requires
        0 <= start,
        end <= b.len(),
    ensures
        match last_space(b, start, end) {
            Some(p) => start <= p < end && b[p] == 32u8 && forall|q: int| p < q < end ==> b[q] != 32u8,
            None => forall|q: int| start <= q < end ==> b[q] != 32u8,
        },
    decreases end - start,
{
    if end > start && b[end - 1] != 32u8 {
        lemma_last_space_is_last(b, start, end - 1);
    }
}

/// Every chunk is cut back to the last space of its window, if at all (see
/// `ends_at_last_space`), and is at least `min_chunk_size` bytes long.
pub proof fn lemma_chunks_end_at_last_space(b: Seq<u8>, start: int, c: ChunkingConfig)
    ensures
        forall|i: int| #![trigger chunks_from(b, start, c)[i]] 0 <= i < chunks_from(b, start, c).len() ==> {
            &&& ends_at_last_space(b, c.chunk_size as int, chunks_from(b, start, c)[i])
            &&& chunks_from(b, start, c)[i].1 - chunks_from(b, start, c)[i].0 >= c.min_chunk_size
            &&& start <= chunks_from(b, start, c)[i].0 < b.len()
        },
    decreases if start < b.len() { b.len() - start } else { 0 },
{
    if !(start >= b.len() || c.chunk_overlap >= c.chunk_size || start < 0) {
        let next = start + c.chunk_size - c.chunk_overlap;
        lemma_chunks_end_at_last_space(b, next, c);
        let r = chunk_at(b, start, c.chunk_size as int);
        let end = window_end(b.len() as int, start, c.chunk_size as int);
        lemma_last_space_is_last(b, start, end);
        assert(ends_at_last_space(b, c.chunk_size as int, r)) by {
            let w = end;
            if w < b.len() && !is_break_byte(b[w - 1]) {
                match last_space(b, start, end) {
                    Some(p) => {
                        assert(start <= p < w && b[p] == 32u8);
                    },
                    None => {
                        assert(!(exists|q: int| start <= q < w && b[q] == 32u8));
                    },
                }
            }
        }
        let rest = chunks_from(b, next, c);
        let all = chunks_from(b, start, c);
        assert forall|i: int| #![trigger all[i]] 0 <= i < all.len() implies {
            &&& ends_at_last_space(b, c.chunk_size as int, all[i])
            &&& all[i].1 - all[i].0 >= c.min_chunk_size
            &&& start <= all[i].0 < b.len()
        } by {
            if r.1 - r.0 >= c.min_chunk_size {
                if i == 0 {
                    assert(all[i] == r);
                } else {
                    assert(all[i] == rest[i - 1]);
                }
            } else {
                assert(all[i] == rest[i]);
            }
        }
    }
}

/// A chunk start has one end only.
proof fn lemma_end_unique(b: Seq<u8>, size: int, s: int, e1: int, e2: int)
    requires
        ends_at_last_space(b, size, (s, e1)),
        ends_at_last_space(b, size, (s, e2)),
    ensures
        e1 == e2,
{
    if e1 < e2 {
        let w = if s + size <= b.len() { s + size } else { b.len() as int };
        assert(e2 < w);
        assert(b[e2] == 32u8);
    } else if e2 < e1 {
        let w = if s + size <= b.len() { s + size } else { b.len() as int };
        assert(e1 < w);
        assert(b[e1] == 32u8);
    }
}

/// The start of the `k`-th window from `start`, windows `step` bytes apart.
pub open spec fn step_start(start: int, k: nat, step: int) -> int {
    start + k * step
}

/// `x` lies a whole number of steps after `start`.
pub open spec fn on_step(start: int, x: int, step: int) -> bool {
    exists|k: nat| x == #[trigger] step_start(start, k, step)
}

proof fn lemma_chunks_split(b: Seq<u8>, start: int, c: ChunkingConfig)
    requires
        0 <= start < b.len(),
        c.chunk_overlap < c.chunk_size,
    ensures
        ({
            let all = chunks_from(b, start, c);
            let r = chunk_at(b, start, c.chunk_size as int);
            let rest = chunks_from(b, start + c.chunk_size - c.chunk_overlap, c);
            if r.1 - r.0 >= c.min_chunk_size {
                all.len() == rest.len() + 1 && all[0] == r && forall|i: int| 0 < i < all.len() ==> #[trigger] all[i] == rest[i - 1]
            } else {
                all == rest
            }
        }),
{
}

/// The chunks start in order, each a whole number of steps
/// (`chunk_size - chunk_overlap` bytes) after `start`.
pub proof fn lemma_chunks_start_on_steps(b: Seq<u8>, start: int, c: ChunkingConfig)
    requires
        0 <= start,
        c.chunk_overlap < c.chunk_size,
    ensures
        forall|i: int, j: int| 0 <= i < j < chunks_from(b, start, c).len()
            ==> (#[trigger] chunks_from(b, start, c)[i]).0 < (#[trigger] chunks_from(b, start, c)[j]).0,
        forall|i: int| #![trigger chunks_from(b, start, c)[i]] 0 <= i < chunks_from(b, start, c).len()
            ==> on_step(start, chunks_from(b, start, c)[i].0, c.chunk_size - c.chunk_overlap),
    decreases if start < b.len() { b.len() - start } else { 0 },
{
    if start < b.len() {
        let step = c.chunk_size - c.chunk_overlap;
        let next = start + step;
        let all = chunks_from(b, start, c);
        let rest = chunks_from(b, next, c);
        let r = chunk_at(b, start, c.chunk_size as int);
        lemma_chunks_start_on_steps(b, next, c);
        lemma_chunks_end_at_last_space(b, next, c);
        lemma_chunks_split(b, start, c);
        let kept = r.1 - r.0 >= c.min_chunk_size;
        assert forall|i: int, j: int| 0 <= i < j < all.len() implies (#[trigger] all[i]).0 < (#[trigger] all[j]).0 by {
            if kept {
                if i == 0 {
                    assert(all[j] == rest[j - 1]);
                    assert(next <= rest[j - 1].0);
                } else {
                    assert(all[i] == rest[i - 1] && all[j] == rest[j - 1]);
                }
            }
        }
        assert forall|i: int| #![trigger all[i]] 0 <= i < all.len()
            implies on_step(start, all[i].0, c.chunk_size - c.chunk_overlap) by {
            if kept && i == 0 {
                assert(all[i].0 == step_start(start, 0nat, c.chunk_size - c.chunk_overlap));
            } else {
                let i2 = if kept { i - 1 } else { i };
                assert(all[i] == rest[i2]);
                assert(on_step(next, rest[i2].0, c.chunk_size - c.chunk_overlap));
                let k2 = choose|k: nat| rest[i2].0 == #[trigger] step_start(next, k, c.chunk_size - c.chunk_overlap);
                assert(start + (k2 + 1) * step == next + k2 * step) by (nonlinear_arith)
                    requires
                        next == start + step,
                ;
                assert(all[i].0 == step_start(start, (k2 + 1) as nat, c.chunk_size - c.chunk_overlap));
            }
        }
    } else {
        assert(chunks_from(b, start, c).len() == 0);
    }
}

/// Every position a whole number of steps after `start` inside the text
/// starts a chunk, unless the chunk it would start (ending as
/// `ends_at_last_space` says) is shorter than `min_chunk_size`.
pub proof fn lemma_chunks_start_every_step(b: Seq<u8>, start: int, c: ChunkingConfig)
    requires
        0 <= start,
        c.chunk_overlap < c.chunk_size,
    ensures
        forall|k: nat, e: int| #![trigger ends_at_last_space(b, c.chunk_size as int, (step_start(start, k, c.chunk_size - c.chunk_overlap), e))]
            step_start(start, k, c.chunk_size - c.chunk_overlap) < b.len()
            && ends_at_last_space(b, c.chunk_size as int, (step_start(start, k, c.chunk_size - c.chunk_overlap), e))
            && e - step_start(start, k, c.chunk_size - c.chunk_overlap) >= c.min_chunk_size
            ==> exists|i: int| 0 <= i < chunks_from(b, start, c).len()
                && #[trigger] chunks_from(b, start, c)[i].0 == step_start(start, k, c.chunk_size - c.chunk_overlap),
    decreases if start < b.len() { b.len() - start } else { 0 },
{
    let step = c.chunk_size - c.chunk_overlap;
    let all = chunks_from(b, start, c);
    if start < b.len() {
        let next = start + step;
        let rest = chunks_from(b, next, c);
        let r = chunk_at(b, start, c.chunk_size as int);
        lemma_chunks_start_every_step(b, next, c);
        lemma_chunks_split(b, start, c);
        let kept = r.1 - r.0 >= c.min_chunk_size;
        assert forall|k: nat, e: int| #![trigger ends_at_last_space(b, c.chunk_size as int, (step_start(start, k, step), e))]
            step_start(start, k, step) < b.len() && ends_at_last_space(b, c.chunk_size as int, (step_start(start, k, step), e))
                && e - step_start(start, k, step) >= c.min_chunk_size
            implies exists|i: int| 0 <= i < all.len() && #[trigger] all[i].0 == step_start(start, k, step) by {
            if k == 0 {
                assert(k * step == 0) by (nonlinear_arith)
                    requires
                        k == 0,
                ;
                let end = window_end(b.len() as int, start, c.chunk_size as int);
                lemma_last_space_is_last(b, start, end);
                assert(ends_at_last_space(b, c.chunk_size as int, r)) by {
                    if end < b.len() && !is_break_byte(b[end - 1]) {
                        match last_space(b, start, end) {
                            Some(p) => {
                                assert(start <= p < end && b[p] == 32u8);
                            },
                            None => {
                                assert(!(exists|q: int| start <= q < end && b[q] == 32u8));
                            },
                        }
                    }
                }
                lemma_end_unique(b, c.chunk_size as int, start, r.1, e);
                assert(all[0] == r);
            } else {
                let k1 = (k - 1) as nat;
                assert(start + k * step == next + k1 * step) by (nonlinear_arith)
                    requires
                        next == start + step,
                        k1 == k - 1,
                ;
                assert(step_start(start, k, step) == step_start(next, k1, step));
                assert(ends_at_last_space(b, c.chunk_size as int, (step_start(next, k1, step), e)));
                let j = choose|j: int| 0 <= j < rest.len() && #[trigger] rest[j].0 == step_start(next, k1, step);
                if kept {
                    assert(all[j + 1] == rest[j]);
                } else {
                    assert(all[j] == rest[j]);
                }
            }
        }
    } else {
        assert forall|k: nat, e: int| #![trigger ends_at_last_space(b, c.chunk_size as int, (step_start(start, k, step), e))]
            step_start(start, k, step) < b.len() && ends_at_last_space(b, c.chunk_size as int, (step_start(start, k, step), e))
                && e - step_start(start, k, step) >= c.min_chunk_size
            implies exists|i: int| 0 <= i < all.len() && #[trigger] all[i].0 == step_start(start, k, step) by {
            assert(k * step >= 0) by (nonlinear_arith)
                requires
                    step > 0,
            ;
        }
    }
}

} // verus!
