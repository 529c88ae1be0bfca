//! Token estimates, hard splitting of oversized text, and a builder that
//! accumulates a page's chunks.
use vstd::prelude::*;

use super::{
    approx_token_count, ceil_div, chunk_id_for, divisor, has_cjk, is_chunk_of, cjk_ideograph, views,
    Chunk,
};
use crate::source::SourceDoc;
use crate::text::{decimal_string, occurs_in, push_char};

verus! {

fn is_cjk(c: char) -> (r: bool)
    ensures
        r == cjk_ideograph(c),
{
    ('\u{3400}' <= c && c <= '\u{4DBF}') || ('\u{4E00}' <= c && c <= '\u{9FFF}')
}

/// Whether the text holds a CJK ideograph.
fn text_has_cjk(text: &str) -> (r: bool)
    ensures
        r == has_cjk(text@),
{
    for c in it: text.chars()
        invariant
            it.seq() == text@,
            forall|j: int| 0 <= j < it.index() ==> !cjk_ideograph(#[trigger] text@[j]),
    {
        if is_cjk(c) {
            assert(cjk_ideograph(text@[it.index() as int]));
            return true;
        }
    }
    false
}

/// A newline join holds a CJK ideograph exactly when one of its parts does.
proof fn lemma_join_cjk(a: Seq<char>, b: Seq<char>)
    ensures
        has_cjk(a.push('\n') + b) == (has_cjk(a) || has_cjk(b)),
{
    let j = a.push('\n') + b;
    if has_cjk(a) {
        let i = choose|i: int| 0 <= i < a.len() && #[trigger] cjk_ideograph(a[i]);
        assert(j[i] == a[i]);
    }
    if has_cjk(b) {
        let i = choose|i: int| 0 <= i < b.len() && #[trigger] cjk_ideograph(b[i]);
        assert(j[a.len() + 1 + i] == b[i]);
    }
    if has_cjk(j) {
        let k = choose|k: int| 0 <= k < j.len() && #[trigger] cjk_ideograph(j[k]);
        if k < a.len() {
            assert(j[k] == a[k]);
        } else if k > a.len() {
            assert(j[k] == b[k - a.len() - 1]);
        }
    }
}

fn divisor_of(text: &str) -> (d: usize)
    ensures
        d == divisor(text@),
{
    if text_has_cjk(text) {
        3
    } else {
        4
    }
}

/// An approximate token count for `text`: its character count divided by 3
/// when it holds a CJK ideograph, by 4 otherwise, rounded up.
pub fn approx_tokens(text: &str) -> (n: usize)
    ensures
        n == approx_token_count(text@),
        text@.len() <= usize::MAX,
{
    let divisor = divisor_of(text);
    let count = text.unicode_len();
    count / divisor + if count % divisor == 0 {
        0
    } else {
        1
    }
}

/// More than `target` estimated tokens means more than `target * divisor` characters.
pub proof fn lemma_over_target(s: Seq<char>, target: nat)
    requires
        approx_token_count(s) > target,
    ensures
        target * divisor(s) < s.len(),
{
    let d = divisor(s);
    let n = s.len();
    assert(target + 1 <= n / d + (if n % d == 0 { 0nat } else { 1nat }));
    assert(n == d * (n / d) + n % d) by (nonlinear_arith)
        requires
            d > 0,
    ;
    assert(target * d < n) by (nonlinear_arith)
        requires
            target + 1 <= n / d + (if n % d == 0 { 0nat } else { 1nat }),
            n == d * (n / d) + n % d,
            0 <= n % d < d,
            d > 0,
    ;
}

/// The pieces of `s` when it is cut every `t` characters: runs of exactly
/// `t` characters, the last one shorter or equal; nothing for an empty text.
/// With `t == 0`, an empty piece followed by one piece per character.
pub open spec fn pieces_ok(s: Seq<char>, t: nat, ps: Seq<Seq<char>>) -> bool {
    if s.len() == 0 {
        ps.len() == 0
    } else if t == 0 {
        ps == seq![Seq::<char>::empty()] + s.map_values(|c: char| seq![c])
    } else {
        &&& ps.flatten() == s
        &&& ps.len() >= 1
        &&& forall|i: int| 0 <= i < ps.len() - 1 ==> (#[trigger] ps[i]).len() == t
        &&& 1 <= ps.last().len() <= t
    }
}

/// `s` cut every `t` characters.
pub open spec fn split_every(s: Seq<char>, t: nat) -> Seq<Seq<char>>
    decreases s.len(),
{
    if s.len() == 0 {
        seq![]
    } else if t == 0 {
        seq![Seq::<char>::empty()] + s.map_values(|c: char| seq![c])
    } else if s.len() <= t {
        seq![s]
    } else {
        seq![s.take(t as int)] + split_every(s.skip(t as int), t)
    }
}

proof fn lemma_flatten_len_ge_last(ps: Seq<Seq<char>>)
    requires
        ps.len() >= 1,
    ensures
        ps.flatten().len() >= ps.last().len(),
{
    ps.lemma_flatten_length_ge_single_element_length(ps.len() - 1);
    ps.lemma_flatten_and_flatten_alt_are_equivalent();
}

/// `split_every` cuts as `pieces_ok` describes.
pub proof fn lemma_split_every_ok(s: Seq<char>, t: nat)
    ensures
        pieces_ok(s, t, split_every(s, t)),
    decreases s.len(),
{
    if s.len() > 0 && t > 0 {
        let ps = split_every(s, t);
        if s.len() <= t {
            assert(ps.flatten() == s) by {
                ps.lemma_flatten_one_element();
            }
        } else {
            let rest = split_every(s.skip(t as int), t);
            lemma_split_every_ok(s.skip(t as int), t);
            assert(ps.drop_first() =~= rest);
            assert(ps.flatten() == s.take(t as int) + rest.flatten());
            assert(s.take(t as int) + s.skip(t as int) =~= s);
            assert(ps.last() == rest.last());
            assert forall|i: int| 0 <= i < ps.len() - 1 implies (#[trigger] ps[i]).len() == t by {
                if i > 0 {
                    assert(ps[i] == rest[i - 1]);
                }
            }
        }
    }
}

/// Cutting every `t > 0` characters gives `ceil(len / t)` pieces.
pub proof fn lemma_split_every_count(s: Seq<char>, t: nat)
    requires
        t > 0,
    ensures
        split_every(s, t).len() == ceil_div(s.len(), t),
    decreases s.len(),
{
    if s.len() == 0 {
    } else if s.len() <= t {
        assert(ceil_div(s.len(), t) == 1) by (nonlinear_arith)
            requires
                0 < s.len() <= t,
        ;
    } else {
        lemma_split_every_count(s.skip(t as int), t);
        let n = s.len();
        assert(ceil_div(n, t) == ceil_div((n - t) as nat, t) + 1) by (nonlinear_arith)
            requires
                n > t,
                t > 0,
        ;
    }
}

/// There is one way to cut a text every `t` characters.
pub proof fn lemma_pieces_unique(s: Seq<char>, t: nat, ps1: Seq<Seq<char>>, ps2: Seq<Seq<char>>)
    requires
        pieces_ok(s, t, ps1),
        pieces_ok(s, t, ps2),
    ensures
        ps1 == ps2,
    decreases s.len(),
{
    if s.len() == 0 {
        assert(ps1 =~= ps2);
    } else if t == 0 {
    } else {
        if ps1.len() == 1 {
            ps1.lemma_flatten_one_element();
            if ps2.len() >= 2 {
                lemma_flatten_len_ge_last(ps2.drop_first());
                assert(ps2.drop_first().last() == ps2.last());
                assert(ps2.flatten() == ps2[0] + ps2.drop_first().flatten());
                assert(ps2[0].len() == t);
            }
            ps2.lemma_flatten_one_element();
            assert(ps1 =~= ps2);
        } else {
            lemma_flatten_len_ge_last(ps1.drop_first());
            assert(ps1.drop_first().last() == ps1.last());
            assert(ps1.flatten() == ps1[0] + ps1.drop_first().flatten());
            assert(ps1[0].len() == t);
            if ps2.len() == 1 {
                ps2.lemma_flatten_one_element();
            }
            lemma_flatten_len_ge_last(ps2.drop_first());
            assert(ps2.drop_first().last() == ps2.last());
            assert(ps2.flatten() == ps2[0] + ps2.drop_first().flatten());
            assert(ps2[0].len() == t);
            assert(ps1[0] =~= s.take(t as int));
            assert(ps2[0] =~= s.take(t as int));
            let r1 = ps1.drop_first();
            let r2 = ps2.drop_first();
            let rest = s.skip(t as int);
            assert(r1.flatten() =~= rest);
            assert(r2.flatten() =~= rest);
            assert forall|i: int| 0 <= i < r1.len() - 1 implies (#[trigger] r1[i]).len() == t by {
                assert(r1[i] == ps1[i + 1]);
            }
            assert forall|i: int| 0 <= i < r2.len() - 1 implies (#[trigger] r2[i]).len() == t by {
                assert(r2[i] == ps2[i + 1]);
            }
            lemma_pieces_unique(rest, t, r1, r2);
            assert(ps1 =~= seq![ps1[0]] + r1);
            assert(ps2 =~= seq![ps2[0]] + r2);
        }
    }
}

/// Cuts `text` into runs of `target_tokens * divisor` characters, the last
/// run holding what is left; character boundaries are never broken.
pub fn hard_split(text: &str, target_tokens: usize) -> (pieces: Vec<String>)
    requires
        target_tokens * divisor(text@) <= usize::MAX,
    ensures
        views(pieces@) == split_every(text@, target_tokens as nat * divisor(text@)),
        target_tokens > 0 ==> pieces_ok(text@, target_tokens as nat * divisor(text@), views(pieces@)),
        target_tokens > 0 ==> pieces@.len() == ceil_div(text@.len(), target_tokens as nat * divisor(text@)),
{
    let divisor = divisor_of(text);
    let target_chars = target_tokens * divisor;
    let ghost t = target_chars as nat;
    let ghost s = text@;

    let mut pieces: Vec<String> = Vec::new();
    let mut current = String::new();
    let mut current_chars: usize = 0;

    for c in it: text.chars()
        invariant
            it.seq() == s,
            target_chars == t,
            current_chars == current@.len(),
            current_chars <= it.index(),
            it.index() == 0 ==> pieces@.len() == 0 && current@.len() == 0,
            t > 0 ==> views(pieces@).flatten() + current@ == s.take(it.index() as int),
            t > 0 ==> forall|i: int| 0 <= i < pieces@.len() ==> (#[trigger] pieces@[i])@.len() == t,
            t > 0 && it.index() > 0 ==> 1 <= current@.len() <= t,
            it.index() > 0 ==> current@.len() >= 1,
            t == 0 && it.index() > 0 ==> views(pieces@).push(current@) == seq![Seq::<char>::empty()]
                + s.take(it.index() as int).map_values(|c: char| seq![c]),
    {
        let ghost k = it.index();
        let ghost before = views(pieces@);
        let ghost cur0 = current@;
        if current_chars >= target_chars {
            pieces.push(current);
            current = String::new();
            current_chars = 0;
            assert(views(pieces@) =~= before.push(cur0));
        }
        push_char(&mut current, c);
        current_chars = current_chars + 1;
        assert(s[k as int] == c);
        proof {
            assert(s.take(k + 1) =~= s.take(k as int).push(c));
            if t > 0 {
                if cur0.len() >= t {
                    assert(views(pieces@).flatten() == before.flatten() + cur0) by {
                        before.lemma_flatten_push(cur0);
                    }
                    assert(views(pieces@).flatten() + current@ =~= s.take(k + 1));
                    assert forall|i: int| 0 <= i < pieces@.len() implies (#[trigger] pieces@[i])@.len() == t by {
                        if i < pieces@.len() - 1 {
                            assert(views(pieces@)[i] == before[i]);
                        }
                    }
                } else {
                    assert(views(pieces@).flatten() + current@ =~= s.take(k + 1));
                }
            } else {
                assert(current@ =~= seq![c]);
                if k == 0 {
                    assert(cur0 =~= Seq::<char>::empty());
                    assert(views(pieces@).push(current@) =~~= seq![Seq::<char>::empty()] + s.take(
                        1,
                    ).map_values(|c: char| seq![c]));
                } else {
                    assert(views(pieces@).push(current@) =~~= seq![Seq::<char>::empty()] + s.take(
                        k + 1,
                    ).map_values(|c: char| seq![c]));
                }
            }
        }
    }
    assert(s.take(s.len() as int) =~= s);
    let ghost before = views(pieces@);
    let ghost cur0 = current@;
    if current_chars > 0 {
        pieces.push(current);
        assert(views(pieces@) =~= before.push(cur0));
        proof {
            if t > 0 {
                before.lemma_flatten_push(cur0);
                assert(views(pieces@).flatten() =~= s);
                assert forall|i: int| 0 <= i < views(pieces@).len() - 1 implies (#[trigger] views(
                    pieces@,
                )[i]).len() == t by {
                    assert(views(pieces@)[i] == before[i]);
                }
            }
        }
    } else {
        assert(views(pieces@) =~= seq![]);
    }
    proof {
        lemma_split_every_ok(s, t);
        lemma_pieces_unique(s, t, views(pieces@), split_every(s, t));
        if target_tokens > 0 {
            assert(t > 0) by (nonlinear_arith)
                requires
                    t == target_tokens * divisor,
                    target_tokens > 0,
                    divisor >= 3,
            ;
            lemma_split_every_count(s, t);
        }
    }
    pieces
}

/// Every run cut from a text by `hard_split` estimates to at most `target`
/// tokens, and the runs put back together give the text.
pub proof fn lemma_hard_split_pieces(s: Seq<char>, target: nat)
    requires
        target > 0,
    ensures
        split_every(s, target * divisor(s)).flatten() == s,
        forall|i: int|
            0 <= i < split_every(s, target * divisor(s)).len() ==> approx_token_count(
                #[trigger] split_every(s, target * divisor(s))[i],
            ) <= target,
{
    let d = divisor(s);
    let t = target * d;
    assert(target * d > 0) by (nonlinear_arith)
        requires
            target > 0,
            d >= 3,
    ;
    let ps = split_every(s, t);
    lemma_split_every_ok(s, t);
    if s.len() == 0 {
        assert(ps.flatten() =~= s);
    }
    assert forall|i: int| 0 <= i < ps.len() implies approx_token_count(#[trigger] ps[i]) <= target by {
        let p = ps[i];
        assert(p.len() <= t);
        lemma_piece_in_flatten(ps, i);
        let dp = divisor(p);
        if has_cjk(p) {
            let j = choose|j: int| 0 <= j < p.len() && #[trigger] cjk_ideograph(p[j]);
            let off = choose|off: int| 0 <= off && off + p.len() <= s.len() && #[trigger] s.subrange(off, off + p.len()) == p;
            assert(s[off + j] == p[j]);
            assert(has_cjk(s));
        }
        assert(dp >= d || dp == 4);
        assert(ceil_div(p.len(), dp) <= target) by (nonlinear_arith)
            requires
                p.len() <= target * d,
                d == 3 || d == 4,
                dp == 3 || dp == 4,
                d == 3 || dp == 4,
        ;
    }
}

proof fn lemma_piece_in_flatten(ps: Seq<Seq<char>>, i: int)
    requires
        0 <= i < ps.len(),
    ensures
        occurs_in(ps[i], ps.flatten()),
    decreases ps.len(),
{
    let f = ps.flatten();
    assert(f == ps[0] + ps.drop_first().flatten());
    if i == 0 {
        assert(f.subrange(0, 0 + ps[0].len() as int) =~= ps[0]);
    } else {
        assert(ps.drop_first()[i - 1] == ps[i]);
        lemma_piece_in_flatten(ps.drop_first(), i - 1);
        let g = ps.drop_first().flatten();
        let off = choose|off: int| 0 <= off && off + ps[i].len() <= g.len() && #[trigger] g.subrange(off, off + ps[i].len()) == ps[i];
        let o = ps[0].len() + off;
        assert(f.subrange(o, o + ps[i].len()) =~= g.subrange(off, off + ps[i].len()));
    }
}

/// Collects a page's chunks: text accumulates in a buffer (blocks joined by
/// newlines) until it is flushed into a chunk; oversized text can be pushed
/// as hard-split pieces. Chunks are numbered in the order they are made.
pub struct ChunkBuilder<'a> {
    doc: &'a SourceDoc,
    target_tokens: usize,
    chunks: Vec<Chunk>,
    buffer: String,
    ordinal: usize,
}

/// The builder's content: the texts of the chunks made so far, and the buffer.
pub struct PackState {
    pub texts: Seq<Seq<char>>,
    pub buf: Seq<char>,
}

/// Flushing makes the buffer a chunk, unless it is empty.
pub open spec fn flush_state(st: PackState) -> PackState {
    if st.buf.len() == 0 {
        st
    } else {
        PackState { texts: st.texts.push(st.buf), buf: seq![] }
    }
}

/// A second flush does nothing: flushing twice is flushing once.
pub proof fn lemma_flush_idempotent(st: PackState)
    ensures
        flush_state(flush_state(st)) == flush_state(st),
{
}

/// Appending adds a text to the buffer, after a newline unless the buffer is empty.
pub open spec fn append_state(st: PackState, text: Seq<char>) -> PackState {
    PackState {
        texts: st.texts,
        buf: if st.buf.len() == 0 {
            text
        } else {
            st.buf.push('\n') + text
        },
    }
}

/// Pushing hard-split pieces adds them as chunks; the buffer is left as it is.
pub open spec fn hard_split_state(st: PackState, text: Seq<char>, target: nat) -> PackState {
    PackState { texts: st.texts + split_every(text, target * divisor(text)), buf: st.buf }
}

impl<'a> View for ChunkBuilder<'a> {
    type V = PackState;

    closed spec fn view(&self) -> PackState {
        PackState { texts: super::chunk_texts(self.chunks@), buf: self.buffer@ }
    }
}

impl<'a> ChunkBuilder<'a> {
    /// The document whose chunks are being built.
    pub closed spec fn doc(&self) -> SourceDoc {
        *self.doc
    }

    /// The target chunk size, in estimated tokens.
    pub closed spec fn target(&self) -> nat {
        self.target_tokens as nat
    }

    /// The chunks made so far are numbered `0..` and carry the document's metadata.
    pub closed spec fn well_formed(&self) -> bool {
        &&& self.ordinal == self.chunks@.len()
        &&& forall|i: int|
            0 <= i < self.chunks@.len() ==> is_chunk_of(
                #[trigger] self.chunks@[i],
                *self.doc,
                i as nat,
                self.chunks@[i].text@,
            )
    }

    /// A builder for the chunks of `doc`, with nothing made yet.
    pub fn new(doc: &'a SourceDoc, target_tokens: usize) -> (b: Self)
        ensures
            b.well_formed(),
            b.doc() == *doc,
            b.target() == target_tokens,
            b@ == (PackState { texts: seq![], buf: seq![] }),
    {
        let b = Self { doc, target_tokens, chunks: Vec::new(), buffer: String::new(), ordinal: 0 };
        assert(b@.texts =~= seq![]);
        b
    }

    /// The approximate token count of the buffer.
    pub fn buffer_tokens(&self) -> (n: usize)
        ensures
            n == approx_token_count(self@.buf),
            self@.buf.len() <= usize::MAX,
    {
        approx_tokens(self.buffer.as_str())
    }

    /// Whether the buffer holds any text.
    pub(crate) fn has_buffered_text(&self) -> (r: bool)
        ensures
            r == (self@.buf.len() > 0),
    {
        !self.buffer.as_str().is_empty()
    }

    /// Whether the buffer and `text`, joined by a newline, estimate to more
    /// tokens than the target.
    pub(crate) fn join_exceeds(&self, text: &str) -> (r: bool)
        ensures
            r == (approx_token_count(self@.buf.push('\n') + text@) > self.target()),
    {
        let buf = self.buffer.as_str();
        let cjk = text_has_cjk(buf) || text_has_cjk(text);
        let d: u128 = if cjk {
            3
        } else {
            4
        };
        let n: u128 = buf.unicode_len() as u128 + 1 + text.unicode_len() as u128;
        let tokens: u128 = n / d + if n % d == 0 {
            0
        } else {
            1
        };
        proof {
            lemma_join_cjk(self@.buf, text@);
        }
        tokens > self.target_tokens as u128
    }

    /// Adds `text` to the buffer, after a newline unless the buffer is empty.
    pub fn append(&mut self, text: &str)
        requires
            old(self).well_formed(),
        ensures
            final(self).well_formed(),
            final(self).doc() == old(self).doc(),
            final(self).target() == old(self).target(),
            final(self)@ == append_state(old(self)@, text@),
    {
        if !self.buffer.as_str().is_empty() {
            push_char(&mut self.buffer, '\n');
        }
        self.buffer.append(text);
    }

    /// Makes the buffer a chunk, unless it is empty.
    pub fn flush(&mut self)
        requires
            old(self).well_formed(),
        ensures
            final(self).well_formed(),
            final(self).doc() == old(self).doc(),
            final(self).target() == old(self).target(),
            final(self)@ == flush_state(old(self)@),
    {
        if self.buffer.as_str().is_empty() {
            return;
        }
        let mut text = String::new();
        std::mem::swap(&mut text, &mut self.buffer);
        self.make_and_push(text);
        assert(self@.buf =~= seq![]);
    }

    /// Adds the hard-split pieces of `text` as chunks.
    pub fn push_hard_split(&mut self, text: &str)
        requires
            old(self).well_formed(),
            old(self).target() * divisor(text@) <= usize::MAX,
        ensures
            final(self).well_formed(),
            final(self).doc() == old(self).doc(),
            final(self).target() == old(self).target(),
            final(self)@ == hard_split_state(old(self)@, text@, old(self).target()),
    {
        let pieces = hard_split(text, self.target_tokens);
        let ghost texts0 = self@.texts;
        let ghost ps = views(pieces@);
        let mut pieces = pieces;
        let mut rev: Vec<String> = Vec::new();
        // move the pieces out in order
        while pieces.len() > 0
            invariant
                views(rev@) == ps.skip(pieces@.len() as int).reverse(),
                views(pieces@) == ps.take(pieces@.len() as int),
                pieces@.len() <= ps.len(),
            decreases pieces.len(),
        {
            let ghost k = pieces@.len();
            let ghost before = pieces@;
            let ghost rev0 = rev@;
            let p = pieces.pop().unwrap();
            assert(p@ == views(before)[k - 1]);
            assert(views(before)[k - 1] == ps.take(k as int)[k - 1]);
            rev.push(p);
            assert(views(rev@) =~= views(rev0).push(p@));
            assert(views(rev@) =~= ps.skip(k - 1).reverse());
            assert(views(pieces@) =~= ps.take(k - 1));
        }
        let n = rev.len();
        let mut i: usize = 0;
        while rev.len() > 0
            invariant
                self.well_formed(),
                self.doc() == old(self).doc(),
                self.target() == old(self).target(),
                self@.buf == old(self)@.buf,
                n == ps.len(),
                i + rev@.len() == n,
                views(rev@) == ps.skip(i as int).reverse(),
                self@.texts == texts0 + ps.take(i as int),
            decreases rev.len(),
        {
            let ghost before = rev@;
            let p = rev.pop().unwrap();
            assert(p@ == ps[i as int]) by {
                assert(views(before)[before.len() - 1] == ps.skip(i as int).reverse()[before.len() - 1]);
            }
            assert(views(rev@) =~= views(before).drop_last());
            self.make_and_push(p);
            assert(self@.texts =~= texts0 + ps.take(i + 1));
            assert(views(rev@) =~= ps.skip(i + 1).reverse());
            i = i + 1;
        }
        assert(ps.skip(0) =~= ps);
        assert(ps.take(n as int) =~= ps);
    }

    /// The chunks, after flushing the buffer.
    pub fn finish(self) -> (chunks: Vec<Chunk>)
        requires
            self.well_formed(),
        ensures
            super::chunk_texts(chunks@) == flush_state(self@).texts,
            forall|i: int|
                0 <= i < chunks@.len() ==> is_chunk_of(
                    #[trigger] chunks@[i],
                    self.doc(),
                    i as nat,
                    chunks@[i].text@,
                ),
    {
        let mut b = self;
        b.flush();
        b.chunks
    }

    /// Makes the next chunk of `text` and adds it.
    fn make_and_push(&mut self, text: String)
        requires
            old(self).well_formed(),
        ensures
            final(self).well_formed(),
            final(self).doc() == old(self).doc(),
            final(self).target() == old(self).target(),
            final(self)@ == (PackState { texts: old(self)@.texts.push(text@), buf: old(self)@.buf }),
    {
        let chunk = self.make_chunk(text);
        self.chunks.push(chunk);
        self.ordinal = self.chunks.len();
        assert(self@.texts =~= old(self)@.texts.push(text@));
    }

    fn make_chunk(&self, text: String) -> (c: Chunk)
        ensures
            is_chunk_of(c, *self.doc, self.ordinal as nat, text@),
    {
        let mut id = self.doc.page_id.clone();
        push_char(&mut id, '#');
        let n = decimal_string(self.ordinal);
        id.append(n.as_str());
        assert(id@ =~= chunk_id_for(self.doc.page_id@, self.ordinal as nat));
        Chunk {
            chunk_id: id,
            page_id: self.doc.page_id.clone(),
            title: self.doc.title.clone(),
            url: self.doc.url.clone(),
            text,
        }
    }
}

} // verus!
