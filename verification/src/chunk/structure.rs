//! Structure-aware greedy packing of a page's blocks into chunks.
//!
//! Blocks are joined with newlines into a buffer until the next block would
//! push the token estimate past the target (the buffer's and the block's
//! estimates together, or the estimate of the two joined by a newline); then
//! the buffer becomes a chunk. A heading always starts a new chunk. A block that alone exceeds
//! the target is cut into pieces on character boundaries, each its own chunk,
//! except a code block, which is never split. Chunks do not overlap.
use vstd::prelude::*;

use super::chunk_builder::{
    append_state, approx_tokens, flush_state, hard_split_state, lemma_hard_split_pieces,
    lemma_over_target, lemma_split_every_ok, split_every, ChunkBuilder, PackState,
};
use super::{approx_token_count, chunk_texts, divisor, is_chunk_of, Chunk, Chunker};
use crate::source::{BlockKind, SourceDoc, TextBlock};
use crate::text::occurs_in;

verus! {

/// The greedy chunker, aiming at `target_tokens` per chunk.
pub struct StructureChunker {
    target_tokens: usize,
}

/// Whether a block is cut into pieces: it estimates to more tokens than the
/// target and is not a code block.
pub open spec fn is_oversized(block: TextBlock, target: nat) -> bool {
    approx_token_count(block.text@) > target && !(block.kind is Code)
}

/// The buffer is not empty, and adding `text` to it would exceed the target:
/// the two estimates together exceed it, or the estimate of the two joined
/// with a newline does.
pub open spec fn overflows(buf: Seq<char>, text: Seq<char>, target: nat) -> bool {
    &&& buf.len() > 0
    &&& approx_token_count(buf) + approx_token_count(text) > target || approx_token_count(
        buf.push('\n') + text,
    ) > target
}

/// One block's effect on the packing: a heading flushes the buffer; an
/// oversized block flushes it and adds its pieces; any other block flushes
/// the buffer when the two joined would exceed the target, then joins it.
pub open spec fn pack_step(st: PackState, block: TextBlock, target: nat) -> PackState {
    let text = block.text@;
    let st1 = if block.kind.spec_is_heading() && st.buf.len() > 0 {
        flush_state(st)
    } else {
        st
    };
    if is_oversized(block, target) {
        hard_split_state(flush_state(st1), text, target)
    } else {
        let st2 = if overflows(st1.buf, text, target) {
            flush_state(st1)
        } else {
            st1
        };
        append_state(st2, text)
    }
}

/// The packing after the given blocks, in order.
pub open spec fn pack(blocks: Seq<TextBlock>, target: nat) -> PackState
    decreases blocks.len(),
{
    if blocks.len() == 0 {
        PackState { texts: seq![], buf: seq![] }
    } else {
        pack_step(pack(blocks.drop_last(), target), blocks.last(), target)
    }
}

/// The chunk texts of a page: the packing of its blocks, with the buffer flushed.
pub open spec fn structure_chunks(blocks: Seq<TextBlock>, target: nat) -> Seq<Seq<char>> {
    flush_state(pack(blocks, target)).texts
}


// ---------------------------------------------------------------------------
// Laws of the packing
// ---------------------------------------------------------------------------

/// A text without its newline characters.
pub open spec fn without_newlines(s: Seq<char>) -> Seq<char> {
    s.filter(|c: char| c != '\n')
}

/// The blocks' texts, in order.
pub open spec fn block_texts(blocks: Seq<TextBlock>) -> Seq<Seq<char>> {
    blocks.map_values(|b: TextBlock| b.text@)
}

/// Everything the packing holds: the chunks' texts, then the buffer.
pub open spec fn content(st: PackState) -> Seq<char> {
    st.texts.flatten() + st.buf
}

proof fn lemma_singletons_flatten(s: Seq<char>)
    ensures
        s.map_values(|c: char| seq![c]).flatten() == s,
    decreases s.len(),
{
    if s.len() > 0 {
        lemma_singletons_flatten(s.drop_first());
        assert(s.map_values(|c: char| seq![c]).drop_first() =~= s.drop_first().map_values(
            |c: char| seq![c],
        ));
        assert(seq![s[0]] + s.drop_first() =~= s);
    }
}

/// Hard-split pieces put back together give the text.
pub proof fn lemma_split_every_flatten(s: Seq<char>, t: nat)
    ensures
        split_every(s, t).flatten() == s,
{
    lemma_split_every_ok(s, t);
    if s.len() == 0 {
        assert(split_every(s, t).flatten() =~= s);
    } else if t == 0 {
        let singles = s.map_values(|c: char| seq![c]);
        lemma_singletons_flatten(s);
        assert((seq![Seq::<char>::empty()] + singles).drop_first() =~= singles);
        assert(Seq::<char>::empty() + singles.flatten() =~= s);
    }
}

proof fn lemma_newline_dropped()
    ensures
        without_newlines(seq!['\n']) == Seq::<char>::empty(),
{
    reveal(Seq::filter);
    assert(seq!['\n'].drop_last() =~= Seq::<char>::empty());
    assert(without_newlines(Seq::<char>::empty()) =~= Seq::<char>::empty());
}

proof fn lemma_step_keeps_text(st: PackState, block: TextBlock, target: nat)
    ensures
        without_newlines(content(pack_step(st, block, target))) == without_newlines(content(st))
            + without_newlines(block.text@),
{
    broadcast use Seq::filter_distributes_over_add, Seq::lemma_flatten_push;

    let text = block.text@;
    // flushing keeps the content
    assert forall|x: PackState| #[trigger] content(flush_state(x)) == content(x) by {
        if x.buf.len() > 0 {
            x.texts.lemma_flatten_push(x.buf);
            assert(content(flush_state(x)) =~= content(x));
        }
    }
    let st1 = if block.kind.spec_is_heading() && st.buf.len() > 0 {
        flush_state(st)
    } else {
        st
    };
    assert(content(st1) == content(st));
    if is_oversized(block, target) {
        let f = flush_state(st1);
        let ps = split_every(text, target * divisor(text));
        lemma_split_every_flatten(text, target * divisor(text));
        vstd::seq_lib::lemma_flatten_concat(f.texts, ps);
        assert(f.buf.len() == 0);
        assert(content(hard_split_state(f, text, target)) =~= content(f) + text);
    } else {
        let st2 = if overflows(st1.buf, text, target) {
            flush_state(st1)
        } else {
            st1
        };
        assert(content(st2) == content(st));
        if st2.buf.len() == 0 {
            assert(content(append_state(st2, text)) =~= content(st2) + text);
        } else {
            lemma_newline_dropped();
            assert(content(append_state(st2, text)) =~= content(st2) + seq!['\n'] + text);
        }
    }
}

proof fn lemma_pack_keeps_text(blocks: Seq<TextBlock>, target: nat)
    ensures
        without_newlines(content(pack(blocks, target))) == without_newlines(
            block_texts(blocks).flatten(),
        ),
    decreases blocks.len(),
{
    broadcast use Seq::filter_distributes_over_add;

    if blocks.len() == 0 {
        assert(content(pack(blocks, target)) =~= Seq::<char>::empty());
        assert(block_texts(blocks).flatten() =~= Seq::<char>::empty());
    } else {
        let prev = blocks.drop_last();
        lemma_pack_keeps_text(prev, target);
        lemma_step_keeps_text(pack(prev, target), blocks.last(), target);
        assert(block_texts(blocks) =~= block_texts(prev).push(blocks.last().text@));
        block_texts(prev).lemma_flatten_push(blocks.last().text@);
    }
}

/// Chunking loses, duplicates and reorders nothing: the chunks' texts, put
/// together, are the blocks' texts put together, up to the newlines that
/// join blocks within a chunk.
pub proof fn lemma_chunks_keep_text(blocks: Seq<TextBlock>, target: nat)
    ensures
        without_newlines(structure_chunks(blocks, target).flatten()) == without_newlines(
            block_texts(blocks).flatten(),
        ),
{
    let st = pack(blocks, target);
    lemma_pack_keeps_text(blocks, target);
    if st.buf.len() > 0 {
        st.texts.lemma_flatten_push(st.buf);
    } else {
        assert(content(st) =~= st.texts.flatten());
    }
}

proof fn lemma_occurs_in_concat(n: Seq<char>, x: Seq<char>, y: Seq<char>)
    ensures
        occurs_in(n, x) ==> occurs_in(n, x + y),
        occurs_in(n, y) ==> occurs_in(n, x + y),
{
    if occurs_in(n, x) {
        let i = choose|i: int| 0 <= i && i + n.len() <= x.len() && #[trigger] x.subrange(i, i + n.len()) == n;
        assert((x + y).subrange(i, i + n.len()) =~= x.subrange(i, i + n.len()));
    }
    if occurs_in(n, y) {
        let i = choose|i: int| 0 <= i && i + n.len() <= y.len() && #[trigger] y.subrange(i, i + n.len()) == n;
        let j = x.len() + i;
        assert((x + y).subrange(j, j + n.len()) =~= y.subrange(i, i + n.len()));
    }
}

/// `text` occurs in one of the chunks made so far, or in the buffer.
pub open spec fn held_whole(text: Seq<char>, st: PackState) -> bool {
    (exists|i: int| 0 <= i < st.texts.len() && occurs_in(text, #[trigger] st.texts[i])) || occurs_in(
        text,
        st.buf,
    )
}

proof fn lemma_held_whole_flush(text: Seq<char>, st: PackState)
    requires
        text.len() > 0,
        held_whole(text, st),
    ensures
        held_whole(text, flush_state(st)),
        flush_state(st).buf.len() == 0 ==> exists|i: int|
            0 <= i < flush_state(st).texts.len() && occurs_in(text, #[trigger] flush_state(st).texts[i]),
{
    if st.buf.len() > 0 {
        let f = flush_state(st);
        if occurs_in(text, st.buf) {
            assert(f.texts[f.texts.len() - 1] == st.buf);
            assert(occurs_in(text, f.texts[f.texts.len() - 1]));
        } else {
            let i = choose|i: int| 0 <= i < st.texts.len() && occurs_in(text, #[trigger] st.texts[i]);
            assert(f.texts[i] == st.texts[i]);
            assert(occurs_in(text, f.texts[i]));
        }
    } else {
        if occurs_in(text, st.buf) {
            let i = choose|i: int| 0 <= i && i + text.len() <= st.buf.len() && #[trigger] st.buf.subrange(i, i + text.len()) == text;
        }
    }
}

proof fn lemma_held_whole_step(text: Seq<char>, st: PackState, block: TextBlock, target: nat)
    requires
        text.len() > 0,
        held_whole(text, st),
    ensures
        held_whole(text, pack_step(st, block, target)),
{
    let t = block.text@;
    let st1 = if block.kind.spec_is_heading() && st.buf.len() > 0 {
        flush_state(st)
    } else {
        st
    };
    lemma_held_whole_flush(text, st);
    assert(held_whole(text, st1));
    lemma_held_whole_flush(text, st1);
    if is_oversized(block, target) {
        let f = flush_state(st1);
        let h = hard_split_state(f, t, target);
        let i = choose|i: int| 0 <= i < f.texts.len() && occurs_in(text, #[trigger] f.texts[i]);
        assert(h.texts[i] == f.texts[i]);
    } else {
        let st2 = if overflows(st1.buf, t, target) {
            flush_state(st1)
        } else {
            st1
        };
        assert(held_whole(text, st2));
        let a = append_state(st2, t);
        if occurs_in(text, st2.buf) {
            if st2.buf.len() == 0 {
                let i = choose|i: int| 0 <= i && i + text.len() <= st2.buf.len() && #[trigger] st2.buf.subrange(i, i + text.len()) == text;
            }
            lemma_occurs_in_concat(text, st2.buf, seq!['\n'] + t);
            assert(st2.buf.push('\n') + t =~= st2.buf + (seq!['\n'] + t));
        } else {
            let i = choose|i: int| 0 <= i < st2.texts.len() && occurs_in(text, #[trigger] st2.texts[i]);
            assert(a.texts[i] == st2.texts[i]);
        }
    }
}

proof fn lemma_code_block_enters(st: PackState, block: TextBlock, target: nat)
    requires
        block.kind is Code,
    ensures
        held_whole(block.text@, pack_step(st, block, target)),
{
    let t = block.text@;
    assert(!block.kind.spec_is_heading());
    assert(!is_oversized(block, target));
    let st2 = if overflows(st.buf, t, target) {
        flush_state(st)
    } else {
        st
    };
    let a = append_state(st2, t);
    assert(a.buf.subrange(a.buf.len() - t.len(), a.buf.len() - t.len() + t.len()) =~= t);
}

proof fn lemma_code_held_in_pack(blocks: Seq<TextBlock>, target: nat, j: int)
    requires
        0 <= j < blocks.len(),
        blocks[j].kind is Code,
        blocks[j].text@.len() > 0,
    ensures
        held_whole(blocks[j].text@, pack(blocks, target)),
    decreases blocks.len(),
{
    let prev = blocks.drop_last();
    if j == blocks.len() - 1 {
        lemma_code_block_enters(pack(prev, target), blocks.last(), target);
    } else {
        assert(prev[j] == blocks[j]);
        lemma_code_held_in_pack(prev, target, j);
        lemma_held_whole_step(blocks[j].text@, pack(prev, target), blocks.last(), target);
    }
}

/// A code block is never split: its whole text occurs within one chunk.
pub proof fn lemma_code_block_kept_whole(blocks: Seq<TextBlock>, target: nat, j: int)
    requires
        0 <= j < blocks.len(),
        blocks[j].kind is Code,
        blocks[j].text@.len() > 0,
    ensures
        exists|i: int|
            0 <= i < structure_chunks(blocks, target).len() && occurs_in(
                blocks[j].text@,
                #[trigger] structure_chunks(blocks, target)[i],
            ),
{
    lemma_code_held_in_pack(blocks, target, j);
    let st = pack(blocks, target);
    let text = blocks[j].text@;
    lemma_held_whole_flush(text, st);
    lemma_held_whole_flush(text, flush_state(st));
    let f = flush_state(flush_state(st));
    assert(f == flush_state(st));
    let i = choose|i: int| 0 <= i < f.texts.len() && occurs_in(text, #[trigger] f.texts[i]);
    assert(structure_chunks(blocks, target)[i] == f.texts[i]);
}

/// The chunk begins where `text` begins: `text` is a prefix of it, or it is
/// a non-empty prefix of `text` (the first piece of a text cut into pieces).
pub open spec fn starts_at(text: Seq<char>, chunk: Seq<char>) -> bool {
    text.is_prefix_of(chunk) || (chunk.len() > 0 && chunk.is_prefix_of(text))
}

/// A chunk made so far begins where `text` begins, or `text` starts the buffer.
pub open spec fn starts_chunk(text: Seq<char>, st: PackState) -> bool {
    (exists|i: int| 0 <= i < st.texts.len() && starts_at(text, #[trigger] st.texts[i]))
        || text.is_prefix_of(st.buf)
}

proof fn lemma_starts_chunk_flush(text: Seq<char>, st: PackState)
    requires
        text.len() > 0,
        starts_chunk(text, st),
    ensures
        starts_chunk(text, flush_state(st)),
        exists|i: int|
            0 <= i < flush_state(st).texts.len() && starts_at(text, #[trigger] flush_state(st).texts[i]),
{
    let f = flush_state(st);
    if st.buf.len() > 0 {
        if text.is_prefix_of(st.buf) {
            assert(f.texts[f.texts.len() - 1] == st.buf);
        } else {
            let i = choose|i: int| 0 <= i < st.texts.len() && starts_at(text, #[trigger] st.texts[i]);
            assert(f.texts[i] == st.texts[i]);
        }
    }
}

proof fn lemma_starts_chunk_step(text: Seq<char>, st: PackState, block: TextBlock, target: nat)
    requires
        text.len() > 0,
        starts_chunk(text, st),
    ensures
        starts_chunk(text, pack_step(st, block, target)),
{
    let t = block.text@;
    let st1 = if block.kind.spec_is_heading() && st.buf.len() > 0 {
        flush_state(st)
    } else {
        st
    };
    lemma_starts_chunk_flush(text, st);
    assert(starts_chunk(text, st1));
    lemma_starts_chunk_flush(text, st1);
    if is_oversized(block, target) {
        let f = flush_state(st1);
        let h = hard_split_state(f, t, target);
        let i = choose|i: int| 0 <= i < f.texts.len() && starts_at(text, #[trigger] f.texts[i]);
        assert(h.texts[i] == f.texts[i]);
    } else {
        let st2 = if overflows(st1.buf, t, target) {
            flush_state(st1)
        } else {
            st1
        };
        assert(starts_chunk(text, st2));
        let a = append_state(st2, t);
        if text.is_prefix_of(st2.buf) {
            assert(text.is_prefix_of(a.buf));
        } else {
            let i = choose|i: int| 0 <= i < st2.texts.len() && starts_at(text, #[trigger] st2.texts[i]);
            assert(a.texts[i] == st2.texts[i]);
        }
    }
}

proof fn lemma_heading_starts_in_pack(blocks: Seq<TextBlock>, target: nat, j: int)
    requires
        target > 0,
        0 <= j < blocks.len(),
        blocks[j].kind.spec_is_heading(),
        blocks[j].text@.len() > 0,
    ensures
        starts_chunk(blocks[j].text@, pack(blocks, target)),
    decreases blocks.len(),
{
    let prev = blocks.drop_last();
    if j == blocks.len() - 1 {
        let st = pack(prev, target);
        let b = blocks.last();
        let st1 = if st.buf.len() > 0 {
            flush_state(st)
        } else {
            st
        };
        assert(st1.buf.len() == 0);
        let t = b.text@;
        if is_oversized(b, target) {
            // The heading is cut into pieces; its first piece is a chunk of its own.
            let cut = target * divisor(t);
            assert(cut > 0) by (nonlinear_arith)
                requires
                    target > 0,
                    cut == target * divisor(t),
                    divisor(t) >= 3,
            ;
            let f = flush_state(st1);
            let ps = split_every(t, cut);
            let first = if t.len() <= cut {
                t
            } else {
                t.take(cut as int)
            };
            assert(ps[0] == first);
            let h = hard_split_state(f, t, target);
            assert(h.texts[f.texts.len() as int] == first);
            assert(first.is_prefix_of(t));
            assert(starts_at(t, h.texts[f.texts.len() as int]));
        } else {
            assert(append_state(st1, t).buf == t);
            assert(t.is_prefix_of(t));
        }
    } else {
        assert(prev[j] == blocks[j]);
        lemma_heading_starts_in_pack(prev, target, j);
        lemma_starts_chunk_step(blocks[j].text@, pack(prev, target), blocks.last(), target);
    }
}

/// A heading always begins a chunk, however much room is left: no text
/// before it is packed into the chunk that starts with it. A heading within
/// the target starts its chunk; a heading over the target is cut into
/// pieces, the first of which is a chunk of its own.
pub proof fn lemma_heading_starts_chunk(blocks: Seq<TextBlock>, target: nat, j: int)
    requires
        target > 0,
        0 <= j < blocks.len(),
        blocks[j].kind.spec_is_heading(),
        blocks[j].text@.len() > 0,
    ensures
        exists|i: int|
            0 <= i < structure_chunks(blocks, target).len() && starts_at(
                blocks[j].text@,
                #[trigger] structure_chunks(blocks, target)[i],
            ),
{
    lemma_heading_starts_in_pack(blocks, target, j);
    let st = pack(blocks, target);
    let text = blocks[j].text@;
    lemma_starts_chunk_flush(text, st);
    let f = flush_state(st);
    let i = choose|i: int| 0 <= i < f.texts.len() && starts_at(text, #[trigger] f.texts[i]);
    assert(structure_chunks(blocks, target)[i] == f.texts[i]);
}

/// No text is empty.
pub open spec fn all_nonempty(texts: Seq<Seq<char>>) -> bool {
    forall|i: int| 0 <= i < texts.len() ==> (#[trigger] texts[i]).len() > 0
}

proof fn lemma_flush_nonempty(x: PackState)
    requires
        all_nonempty(x.texts),
    ensures
        all_nonempty(flush_state(x).texts),
{
    if x.buf.len() > 0 {
        assert forall|i: int| 0 <= i < flush_state(x).texts.len() implies (#[trigger] flush_state(
            x,
        ).texts[i]).len() > 0 by {
            if i < x.texts.len() {
                assert(flush_state(x).texts[i] == x.texts[i]);
            }
        }
    }
}

proof fn lemma_pack_nonempty(blocks: Seq<TextBlock>, target: nat)
    requires
        target > 0,
    ensures
        all_nonempty(pack(blocks, target).texts),
    decreases blocks.len(),
{
    if blocks.len() > 0 {
        let prev = blocks.drop_last();
        lemma_pack_nonempty(prev, target);
        let st = pack(prev, target);
        let b = blocks.last();
        let t = b.text@;
        let st1 = if b.kind.spec_is_heading() && st.buf.len() > 0 {
            flush_state(st)
        } else {
            st
        };
        lemma_flush_nonempty(st);
        lemma_flush_nonempty(st1);
        if !is_oversized(b, target) {
            let st2 = if overflows(st1.buf, t, target) {
                flush_state(st1)
            } else {
                st1
            };
            assert(all_nonempty(st2.texts));
            assert(append_state(st2, t).texts == st2.texts);
        }
        if is_oversized(b, target) {
            let d = divisor(t);
            assert(target * d > 0) by (nonlinear_arith)
                requires
                    target > 0,
                    d >= 3,
            ;
            lemma_split_every_ok(t, target * d);
            let f = flush_state(st1);
            let ps = split_every(t, target * d);
            let h = hard_split_state(f, t, target);
            assert forall|i: int| 0 <= i < h.texts.len() implies (#[trigger] h.texts[i]).len() > 0 by {
                if i >= f.texts.len() {
                    assert(h.texts[i] == ps[i - f.texts.len()]);
                } else {
                    assert(h.texts[i] == f.texts[i]);
                }
            }
        }
    }
}

/// With a positive target no chunk is empty.
pub proof fn lemma_no_empty_chunk(blocks: Seq<TextBlock>, target: nat)
    requires
        target > 0,
    ensures
        forall|i: int|
            0 <= i < structure_chunks(blocks, target).len() ==> (#[trigger] structure_chunks(
                blocks,
                target,
            )[i]).len() > 0,
{
    lemma_pack_nonempty(blocks, target);
    let st = pack(blocks, target);
    if st.buf.len() > 0 {
        assert forall|i: int| 0 <= i < structure_chunks(blocks, target).len() implies (#[trigger] structure_chunks(
            blocks,
            target,
        )[i]).len() > 0 by {
            if i < st.texts.len() {
                assert(structure_chunks(blocks, target)[i] == st.texts[i]);
            }
        }
    }
}

/// `s` is the text of a code block that alone exceeds the target.
pub open spec fn oversized_code(s: Seq<char>, blocks: Seq<TextBlock>, target: nat) -> bool {
    exists|j: int|
        0 <= j < blocks.len() && (#[trigger] blocks[j]).kind is Code && blocks[j].text@ == s
            && approx_token_count(s) > target
}

/// A chunk text within the target: it estimates to at most `target` tokens,
/// or it is a code block that alone exceeds the target (kept whole, alone).
pub open spec fn within_target(s: Seq<char>, blocks: Seq<TextBlock>, target: nat) -> bool {
    approx_token_count(s) <= target || oversized_code(s, blocks, target)
}

spec fn sizes_ok(st: PackState, blocks: Seq<TextBlock>, target: nat) -> bool {
    &&& forall|i: int| 0 <= i < st.texts.len() ==> within_target(#[trigger] st.texts[i], blocks, target)
    &&& within_target(st.buf, blocks, target)
}

proof fn lemma_sizes_flush(st: PackState, blocks: Seq<TextBlock>, target: nat)
    requires
        sizes_ok(st, blocks, target),
    ensures
        sizes_ok(flush_state(st), blocks, target),
{
    let f = flush_state(st);
    if st.buf.len() > 0 {
        assert forall|i: int| 0 <= i < f.texts.len() implies within_target(#[trigger] f.texts[i], blocks, target) by {
            if i < st.texts.len() {
                assert(f.texts[i] == st.texts[i]);
            }
        }
        assert(approx_token_count(f.buf) == 0);
    }
}

proof fn lemma_sizes_widen(st: PackState, blocks: Seq<TextBlock>, target: nat)
    requires
        blocks.len() > 0,
        sizes_ok(st, blocks.drop_last(), target),
    ensures
        sizes_ok(st, blocks, target),
{
    let prev = blocks.drop_last();
    assert forall|s: Seq<char>| oversized_code(s, prev, target) implies oversized_code(s, blocks, target) by {
        let j = choose|j: int|
            0 <= j < prev.len() && (#[trigger] prev[j]).kind is Code && prev[j].text@ == s
                && approx_token_count(s) > target;
        assert(blocks[j] == prev[j]);
    }
}

proof fn lemma_sizes_step(st: PackState, blocks: Seq<TextBlock>, target: nat)
    requires
        target > 0,
        blocks.len() > 0,
        sizes_ok(st, blocks, target),
    ensures
        sizes_ok(pack_step(st, blocks.last(), target), blocks, target),
{
    let block = blocks.last();
    let t = block.text@;
    let st1 = if block.kind.spec_is_heading() && st.buf.len() > 0 {
        flush_state(st)
    } else {
        st
    };
    lemma_sizes_flush(st, blocks, target);
    lemma_sizes_flush(st1, blocks, target);
    if is_oversized(block, target) {
        let f = flush_state(st1);
        let ps = split_every(t, target * divisor(t));
        let h = hard_split_state(f, t, target);
        lemma_hard_split_pieces(t, target);
        assert forall|i: int| 0 <= i < h.texts.len() implies within_target(#[trigger] h.texts[i], blocks, target) by {
            if i < f.texts.len() {
                assert(h.texts[i] == f.texts[i]);
            } else {
                assert(h.texts[i] == ps[i - f.texts.len()]);
            }
        }
    } else {
        let st2 = if overflows(st1.buf, t, target) {
            flush_state(st1)
        } else {
            st1
        };
        assert(sizes_ok(st2, blocks, target));
        let a = append_state(st2, t);
        assert(a.texts == st2.texts);
        if block.kind is Code && approx_token_count(t) > target {
            assert(blocks[blocks.len() - 1] == block);
            assert(oversized_code(t, blocks, target));
        }
        if st2.buf.len() == 0 {
            assert(a.buf == t);
        } else {
            // Not flushed: the joined text fits.
            assert(!overflows(st2.buf, t, target));
        }
    }
}

proof fn lemma_pack_sizes(blocks: Seq<TextBlock>, target: nat)
    requires
        target > 0,
    ensures
        sizes_ok(pack(blocks, target), blocks, target),
    decreases blocks.len(),
{
    if blocks.len() == 0 {
        assert(approx_token_count(seq![]) == 0);
    } else {
        let prev = blocks.drop_last();
        lemma_pack_sizes(prev, target);
        lemma_sizes_widen(pack(prev, target), blocks, target);
        lemma_sizes_step(pack(prev, target), blocks, target);
    }
}

/// Chunks stay within the token target: with a positive target, every chunk
/// estimates to at most `target` tokens, newlines that join blocks included,
/// except a code block that alone exceeds the target, which then forms a
/// chunk of its own, exactly its text.
pub proof fn lemma_chunk_token_bound(blocks: Seq<TextBlock>, target: nat)
    requires
        target > 0,
    ensures
        forall|i: int|
            0 <= i < structure_chunks(blocks, target).len() ==> within_target(
                #[trigger] structure_chunks(blocks, target)[i],
                blocks,
                target,
            ),
{
    lemma_pack_sizes(blocks, target);
    lemma_sizes_flush(pack(blocks, target), blocks, target);
    let f = flush_state(pack(blocks, target));
    assert forall|i: int| 0 <= i < structure_chunks(blocks, target).len() implies within_target(
        #[trigger] structure_chunks(blocks, target)[i],
        blocks,
        target,
    ) by {
        assert(within_target(f.texts[i], blocks, target));
    }
}

/// The blocks' texts joined by newlines.
pub open spec fn join_texts(bs: Seq<TextBlock>) -> Seq<char>
    decreases bs.len(),
{
    if bs.len() == 0 {
        seq![]
    } else if bs.len() == 1 {
        bs[0].text@
    } else {
        join_texts(bs.drop_last()).push('\n') + bs.last().text@
    }
}

/// The chunks a run `blocks[a..e]` gives: a run of one oversized block gives
/// its hard-split pieces; any other run gives one chunk, its texts joined.
pub open spec fn run_chunks(blocks: Seq<TextBlock>, a: int, e: int, target: nat) -> Seq<Seq<char>> {
    if e == a + 1 && is_oversized(blocks[a], target) {
        split_every(blocks[a].text@, target * divisor(blocks[a].text@))
    } else {
        seq![join_texts(blocks.subrange(a, e))]
    }
}

/// The chunks of the runs between consecutive cuts, in order.
pub open spec fn runs_chunks(blocks: Seq<TextBlock>, cuts: Seq<int>, target: nat) -> Seq<Seq<char>>
    decreases cuts.len(),
{
    if cuts.len() < 2 {
        seq![]
    } else {
        runs_chunks(blocks, cuts.drop_last(), target) + run_chunks(
            blocks,
            cuts[cuts.len() - 2],
            cuts.last(),
            target,
        )
    }
}

/// `cuts` splits `0..n` into consecutive non-empty runs.
pub open spec fn cuts_of(cuts: Seq<int>, n: int) -> bool {
    &&& cuts.len() >= 1
    &&& cuts[0] == 0
    &&& cuts.last() == n
    &&& forall|i: int, j: int| 0 <= i < j < cuts.len() ==> #[trigger] cuts[i] < #[trigger] cuts[j]
}

/// Why the run ending at cut `m` was closed before block `cuts[m]`: that
/// block is a heading or is oversized, the run was an oversized block cut
/// into pieces, or joining that block would have exceeded the target.
pub open spec fn closed_for_cause(blocks: Seq<TextBlock>, cuts: Seq<int>, m: int, target: nat) -> bool {
    let a = cuts[m - 1];
    let c = cuts[m];
    ||| blocks[c].kind.spec_is_heading()
    ||| is_oversized(blocks[c], target)
    ||| (c == a + 1 && is_oversized(blocks[a], target))
    ||| overflows(join_texts(blocks.subrange(a, c)), blocks[c].text@, target)
}

spec fn runs_inv(blocks: Seq<TextBlock>, target: nat, k: int, cuts: Seq<int>, st: PackState) -> bool {
    &&& cuts_of(cuts, cuts.last())
    &&& cuts.last() <= k <= blocks.len()
    &&& runs_chunks(blocks, cuts, target) == st.texts
    &&& st.buf == join_texts(blocks.subrange(cuts.last(), k))
    &&& forall|i: int| cuts.last() <= i < k ==> !is_oversized(#[trigger] blocks[i], target)
    &&& forall|m: int| 1 <= m < cuts.len() ==> #[trigger] closed_for_cause(blocks, cuts, m, target)
    &&& forall|j: int| 0 < j < k && (#[trigger] blocks[j]).kind.spec_is_heading() ==> cuts.contains(j)
}

proof fn lemma_contains_push(cuts: Seq<int>, c: int, j: int)
    requires
        cuts.contains(j),
    ensures
        cuts.push(c).contains(j),
{
    let i = choose|i: int| 0 <= i < cuts.len() && cuts[i] == j;
    assert(cuts.push(c)[i] == j);
}

proof fn lemma_run_nonempty(blocks: Seq<TextBlock>, a: int, e: int)
    requires
        0 <= a < e <= blocks.len(),
        blocks[e - 1].text@.len() > 0,
    ensures
        join_texts(blocks.subrange(a, e)).len() > 0,
{
    assert(blocks.subrange(a, e).last() == blocks[e - 1]);
}

proof fn lemma_runs_push(blocks: Seq<TextBlock>, cuts: Seq<int>, c: int, target: nat)
    requires
        cuts.len() >= 1,
    ensures
        runs_chunks(blocks, cuts.push(c), target) == runs_chunks(blocks, cuts, target) + run_chunks(
            blocks,
            cuts.last(),
            c,
            target,
        ),
{
    assert(cuts.push(c).drop_last() =~= cuts);
}

/// Closing the run at block `k` (the buffer holds `blocks[s..k]`, `s < k`).
proof fn lemma_runs_flush(blocks: Seq<TextBlock>, target: nat, k: int, cuts: Seq<int>, st: PackState)
    requires
        forall|i: int| 0 <= i < blocks.len() ==> (#[trigger] blocks[i]).text@.len() > 0,
        runs_inv(blocks, target, k, cuts, st),
        k < blocks.len(),
        cuts.last() < k,
        closed_for_cause(blocks, cuts.push(k), cuts.len() as int, target),
    ensures
        runs_inv(blocks, target, k, cuts.push(k), flush_state(st)),
{
    let s = cuts.last();
    let c2 = cuts.push(k);
    lemma_run_nonempty(blocks, s, k);
    lemma_runs_push(blocks, cuts, k, target);
    if k == s + 1 {
        assert(!is_oversized(blocks[s], target));
    }
    assert(flush_state(st).texts == st.texts.push(st.buf));
    assert(run_chunks(blocks, s, k, target) == seq![st.buf]);
    assert(st.texts + seq![st.buf] =~= st.texts.push(st.buf));
    assert forall|i: int, j: int| 0 <= i < j < c2.len() implies #[trigger] c2[i] < #[trigger] c2[j] by {
        if j < cuts.len() {
            assert(c2[i] == cuts[i] && c2[j] == cuts[j]);
        } else {
            assert(c2[i] == cuts[i]);
            assert(cuts[i] <= s) by {
                if i < cuts.len() - 1 {
                    assert(cuts[i] < cuts[cuts.len() - 1]);
                }
            }
        }
    }
    assert forall|m: int| 1 <= m < c2.len() implies #[trigger] closed_for_cause(blocks, c2, m, target) by {
        if m < cuts.len() {
            assert(c2[m] == cuts[m] && c2[m - 1] == cuts[m - 1]);
            assert(closed_for_cause(blocks, cuts, m, target));
        }
    }
    assert forall|j: int| 0 < j < k && (#[trigger] blocks[j]).kind.spec_is_heading() implies c2.contains(j) by {
        lemma_contains_push(cuts, k, j);
    }
    assert(blocks.subrange(k, k) =~= Seq::<TextBlock>::empty());
}

proof fn lemma_runs_step(blocks: Seq<TextBlock>, target: nat, k: int, cuts: Seq<int>)
    -> (cuts2: Seq<int>)
    requires
        runs_inv(blocks, target, k, cuts, pack(blocks.take(k), target)),
        k < blocks.len(),
        forall|i: int| 0 <= i < blocks.len() ==> (#[trigger] blocks[i]).text@.len() > 0,
    ensures
        runs_inv(blocks, target, k + 1, cuts2, pack(blocks.take(k + 1), target)),
{
    let st = pack(blocks.take(k), target);
    let block = blocks[k];
    let t = block.text@;
    assert(blocks.take(k + 1).drop_last() =~= blocks.take(k));
    assert(blocks.take(k + 1).last() == block);
    assert(pack(blocks.take(k + 1), target) == pack_step(st, block, target));
    let s = cuts.last();
    if s < k {
        lemma_run_nonempty(blocks, s, k);
    } else {
        assert(blocks.subrange(s, k) =~= Seq::<TextBlock>::empty());
    }
    // The heading flush.
    let heading_flush = block.kind.spec_is_heading() && st.buf.len() > 0;
    let st1 = if heading_flush {
        flush_state(st)
    } else {
        st
    };
    let cuts1 = if heading_flush {
        cuts.push(k)
    } else {
        cuts
    };
    if heading_flush {
        assert(cuts.push(k)[cuts.len() as int] == k);
        lemma_runs_flush(blocks, target, k, cuts, st);
    }
    assert(runs_inv(blocks, target, k, cuts1, st1));
    // A heading past the first block is where a run starts.
    assert(k > 0 && block.kind.spec_is_heading() ==> cuts1.contains(k)) by {
        if k > 0 && block.kind.spec_is_heading() {
            if heading_flush {
                assert(cuts1[cuts.len() as int] == k);
            } else {
                assert(s == k);
                assert(cuts[cuts.len() - 1] == k);
            }
        }
    }
    assert forall|j: int| 0 < j < k + 1 && (#[trigger] blocks[j]).kind.spec_is_heading() implies cuts1.contains(
        j,
    ) by {
        if j == k {
            assert(blocks[j] == block);
        }
    }
    let s1 = cuts1.last();
    if is_oversized(block, target) {
        let f_cuts = if st1.buf.len() > 0 {
            cuts1.push(k)
        } else {
            cuts1
        };
        let f = flush_state(st1);
        if st1.buf.len() > 0 {
            assert(cuts1.push(k)[cuts1.len() as int] == k);
            lemma_runs_flush(blocks, target, k, cuts1, st1);
        } else {
            assert(s1 == k) by {
                if s1 < k {
                    lemma_run_nonempty(blocks, s1, k);
                }
            }
        }
        assert(runs_inv(blocks, target, k, f_cuts, f));
        assert(f_cuts.last() == k);
        let c2 = f_cuts.push(k + 1);
        lemma_runs_push(blocks, f_cuts, k + 1, target);
        let h = hard_split_state(f, t, target);
        assert(run_chunks(blocks, k, k + 1, target) == split_every(t, target * divisor(t)));
        assert forall|i: int, j: int| 0 <= i < j < c2.len() implies #[trigger] c2[i] < #[trigger] c2[j] by {
            if j < f_cuts.len() {
                assert(c2[i] == f_cuts[i] && c2[j] == f_cuts[j]);
            } else {
                assert(c2[i] == f_cuts[i]);
                if i < f_cuts.len() - 1 {
                    assert(f_cuts[i] < f_cuts[f_cuts.len() - 1]);
                }
            }
        }
        assert forall|m: int| 1 <= m < c2.len() implies #[trigger] closed_for_cause(blocks, c2, m, target) by {
            if m < f_cuts.len() {
                assert(c2[m] == f_cuts[m] && c2[m - 1] == f_cuts[m - 1]);
                assert(closed_for_cause(blocks, f_cuts, m, target));
            } else {
                assert(c2[m] == k + 1 && c2[m - 1] == k);
            }
        }
        assert(blocks.subrange(k + 1, k + 1) =~= Seq::<TextBlock>::empty());
        assert forall|j: int| 0 < j < k + 1 && (#[trigger] blocks[j]).kind.spec_is_heading() implies c2.contains(
            j,
        ) by {
            assert(cuts1.contains(j));
            if st1.buf.len() > 0 {
                lemma_contains_push(cuts1, k, j);
            }
            lemma_contains_push(f_cuts, k + 1, j);
        }
        assert(runs_inv(blocks, target, k + 1, c2, h));
        c2
    } else {
        let flush = overflows(st1.buf, t, target);
        let st2 = if flush {
            flush_state(st1)
        } else {
            st1
        };
        let cuts2 = if flush {
            cuts1.push(k)
        } else {
            cuts1
        };
        if flush {
            assert(cuts1.push(k)[cuts1.len() as int] == k);
            assert(cuts1.push(k)[cuts1.len() - 1] == s1);
            assert(st1.buf.len() > 0);
            assert(s1 < k) by {
                if s1 == k {
                    assert(blocks.subrange(s1, k) =~= Seq::<TextBlock>::empty());
                }
            }
            lemma_runs_flush(blocks, target, k, cuts1, st1);
        }
        assert(runs_inv(blocks, target, k, cuts2, st2));
        let s2 = cuts2.last();
        let a = append_state(st2, t);
        let sub = blocks.subrange(s2, k + 1);
        if s2 < k {
            lemma_run_nonempty(blocks, s2, k);
            assert(sub.drop_last() =~= blocks.subrange(s2, k));
            assert(sub.last() == block);
            assert(a.buf == join_texts(sub));
        } else {
            assert(blocks.subrange(s2, k) =~= Seq::<TextBlock>::empty());
            assert(sub =~= seq![block]);
            assert(a.buf == join_texts(sub));
        }
        assert forall|i: int| s2 <= i < k + 1 implies !is_oversized(#[trigger] blocks[i], target) by {
            if i < k {
                assert(!is_oversized(blocks[i], target));
            }
        }
        assert forall|j: int| 0 < j < k + 1 && (#[trigger] blocks[j]).kind.spec_is_heading() implies cuts2.contains(
            j,
        ) by {
            assert(cuts1.contains(j));
            if flush {
                lemma_contains_push(cuts1, k, j);
            }
        }
        assert(runs_inv(blocks, target, k + 1, cuts2, a));
        cuts2
    }
}

proof fn lemma_pack_runs(blocks: Seq<TextBlock>, target: nat, k: int) -> (cuts: Seq<int>)
    requires
        0 <= k <= blocks.len(),
        forall|i: int| 0 <= i < blocks.len() ==> (#[trigger] blocks[i]).text@.len() > 0,
    ensures
        runs_inv(blocks, target, k, cuts, pack(blocks.take(k), target)),
    decreases k,
{
    if k == 0 {
        let cuts = seq![0int];
        assert(blocks.take(0) =~= Seq::<TextBlock>::empty());
        assert(blocks.subrange(0, 0) =~= Seq::<TextBlock>::empty());
        assert(runs_chunks(blocks, cuts, target) =~= Seq::<Seq<char>>::empty());
        cuts
    } else {
        let cuts = lemma_pack_runs(blocks, target, k - 1);
        lemma_runs_step(blocks, target, k - 1, cuts)
    }
}

/// Chunking cuts the blocks into consecutive runs, in order, each block in
/// exactly one run: a run of one oversized block (not code) gives that
/// block's hard-split pieces; any other run gives one chunk, its blocks'
/// texts joined by newlines. So nothing is lost, repeated or reordered. A
/// run is closed early only for a cause: the next block is a heading or
/// oversized, the run was an oversized block, or adding the next block
/// would have exceeded the target (greedy packing). Every heading after the
/// first block starts a run, however much room is left: no run holds a
/// heading after its first block.
pub proof fn lemma_chunks_are_runs(blocks: Seq<TextBlock>, target: nat)
    requires
        forall|i: int| 0 <= i < blocks.len() ==> (#[trigger] blocks[i]).text@.len() > 0,
    ensures
        exists|cuts: Seq<int>|
            #![trigger runs_chunks(blocks, cuts, target)]
            {
                &&& cuts_of(cuts, blocks.len() as int)
                &&& runs_chunks(blocks, cuts, target) == structure_chunks(blocks, target)
                &&& forall|m: int| 1 <= m < cuts.len() - 1 ==> #[trigger] closed_for_cause(blocks, cuts, m, target)
                &&& forall|j: int|
                    0 < j < blocks.len() && (#[trigger] blocks[j]).kind.spec_is_heading() ==> cuts.contains(j)
            },
{
    let n = blocks.len() as int;
    let cuts = lemma_pack_runs(blocks, target, n);
    assert(blocks.take(n) =~= blocks);
    let st = pack(blocks, target);
    let s = cuts.last();
    if s < n {
        let c2 = cuts.push(n);
        lemma_run_nonempty(blocks, s, n);
        lemma_runs_push(blocks, cuts, n, target);
        if n == s + 1 {
            assert(!is_oversized(blocks[s], target));
        }
        assert(run_chunks(blocks, s, n, target) == seq![st.buf]);
        assert(st.texts + seq![st.buf] =~= st.texts.push(st.buf));
        assert forall|i: int, j: int| 0 <= i < j < c2.len() implies #[trigger] c2[i] < #[trigger] c2[j] by {
            if j < cuts.len() {
                assert(c2[i] == cuts[i] && c2[j] == cuts[j]);
            } else {
                assert(c2[i] == cuts[i]);
                if i < cuts.len() - 1 {
                    assert(cuts[i] < cuts[cuts.len() - 1]);
                }
            }
        }
        assert forall|m: int| 1 <= m < c2.len() - 1 implies #[trigger] closed_for_cause(blocks, c2, m, target) by {
            assert(c2[m] == cuts[m] && c2[m - 1] == cuts[m - 1]);
            assert(closed_for_cause(blocks, cuts, m, target));
        }
        assert forall|j: int| 0 < j < blocks.len() && (#[trigger] blocks[j]).kind.spec_is_heading() implies c2.contains(
            j,
        ) by {
            lemma_contains_push(cuts, n, j);
        }
        assert(runs_chunks(blocks, c2, target) == structure_chunks(blocks, target));
    } else {
        assert(blocks.subrange(s, n) =~= Seq::<TextBlock>::empty());
        assert forall|m: int| 1 <= m < cuts.len() - 1 implies #[trigger] closed_for_cause(blocks, cuts, m, target) by {
        }
        assert(runs_chunks(blocks, cuts, target) == structure_chunks(blocks, target));
    }
}

impl StructureChunker {
    /// The target chunk size, in estimated tokens.
    pub closed spec fn target(&self) -> nat {
        self.target_tokens as nat
    }

    /// A chunker aiming at `target_tokens` per chunk.
    pub fn new(target_tokens: usize) -> (c: Self)
        ensures
            c.target() == target_tokens,
    {
        Self { target_tokens }
    }
}

fn is_code(kind: &BlockKind) -> (r: bool)
    ensures
        r == (*kind is Code),
{
    match kind {
        BlockKind::Code => true,
        _ => false,
    }
}

impl Chunker for StructureChunker {
    /// The chunks of `doc`, numbered `0..` in order: their texts are
    /// `structure_chunks` of the document's blocks, and each carries the
    /// document's page id, title and URL and the id `{page_id}#{ordinal}`.
    fn chunk(&self, doc: &SourceDoc) -> (chunks: Vec<Chunk>)
        ensures
            chunk_texts(chunks@) == structure_chunks(doc.blocks@, self.target()),
            forall|i: int|
                0 <= i < chunks@.len() ==> is_chunk_of(
                    #[trigger] chunks@[i],
                    *doc,
                    i as nat,
                    chunks@[i].text@,
                ),
            self.target() > 0 ==> forall|i: int|
                0 <= i < chunks@.len() ==> within_target(#[trigger] chunks@[i].text@, doc.blocks@, self.target()),
    {
        let target = self.target_tokens;
        let mut b = ChunkBuilder::new(doc, target);
        let n = doc.blocks.len();
        for i in 0..n
            invariant
                n == doc.blocks@.len(),
                target == self.target(),
                b.well_formed(),
                b.doc() == *doc,
                b.target() == target,
                b@ == pack(doc.blocks@.take(i as int), target as nat),
        {
            let block = &doc.blocks[i];
            let ghost st = b@;
            assert(doc.blocks@.take(i + 1).drop_last() =~= doc.blocks@.take(i as int));
            assert(doc.blocks@.take(i + 1).last() == *block);

            // a heading starts a new chunk
            if block.kind.is_heading() && b.has_buffered_text() {
                b.flush();
            }
            let block_tokens = approx_tokens(block.text.as_str());

            // an oversized block (other than code) is cut into pieces
            if block_tokens > target && !is_code(&block.kind) {
                proof {
                    lemma_over_target(block.text@, target as nat);
                }
                b.flush();
                b.push_hard_split(block.text.as_str());
            } else {
                // flush when buffer and block together exceed the target
                if b.has_buffered_text() && ((b.buffer_tokens() as u128) + (block_tokens as u128)
                    > (target as u128) || b.join_exceeds(block.text.as_str())) {
                    b.flush();
                }
                b.append(block.text.as_str());
            }
        }
        assert(doc.blocks@.take(n as int) =~= doc.blocks@);
        proof {
            if target > 0 {
                lemma_chunk_token_bound(doc.blocks@, target as nat);
            }
        }
        let chunks = b.finish();
        assert(forall|i: int| 0 <= i < chunks@.len() ==> #[trigger] chunks@[i].text@ == chunk_texts(chunks@)[i]);
        chunks
    }
}

} // verus!
