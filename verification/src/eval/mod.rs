//! Retrieval quality against a hand-written gold set.
use vstd::prelude::*;

use crate::text::{string_from_chars, trim_chars, trimmed};

pub mod recall;

verus! {

/// One question of the gold set (one line of `eval/gold.jsonl`).
///
/// `answer_span` is optional: when present, a hit requires the retrieved
/// chunk's text to contain it (chunk-level relevance); when absent,
/// page-level relevance is used and the entry counts as a loose-rule entry.
#[derive(Debug)]
pub struct GoldEntry {
    pub q: String,
    pub relevant_page_ids: Vec<String>,
    pub answer_span: Option<String>,
}

/// The lines of a text: the runs between `'\n'` characters (so a text
/// ending in a newline ends with an empty line, and the empty text is one
/// empty line).
pub open spec fn split_lines(s: Seq<char>) -> Seq<Seq<char>>
    decreases s.len(),
{
    if s.len() == 0 {
        seq![seq![]]
    } else {
        let r = split_lines(s.drop_last());
        if s.last() == '\n' {
            r.push(seq![])
        } else {
            r.update(r.len() - 1, r.last().push(s.last()))
        }
    }
}

/// The lines that are not blank, trimmed, each with its number (from 1).
pub open spec fn numbered_nonblank(lines: Seq<Seq<char>>) -> Seq<(nat, Seq<char>)>
    decreases lines.len(),
{
    if lines.len() == 0 {
        seq![]
    } else {
        let r = numbered_nonblank(lines.drop_last());
        let t = trimmed(lines.last());
        if t.len() > 0 {
            r.push((lines.len(), t))
        } else {
            r
        }
    }
}

/// Numbered lines as plain values.
pub open spec fn numbered_views(v: Seq<(usize, String)>) -> Seq<(nat, Seq<char>)> {
    v.map_values(|p: (usize, String)| (p.0 as nat, p.1@))
}

proof fn lemma_split_lines_nonempty(s: Seq<char>)
    ensures
        split_lines(s).len() >= 1,
        split_lines(s).len() <= s.len() + 1,
    decreases s.len(),
{
    if s.len() > 0 {
        lemma_split_lines_nonempty(s.drop_last());
    }
}

fn push_if_nonblank(out: &mut Vec<(usize, String)>, line: &Vec<char>, number: usize)
    ensures
        numbered_views(final(out)@) == if trimmed(line@).len() > 0 {
            numbered_views(old(out)@).push((number as nat, trimmed(line@)))
        } else {
            numbered_views(old(out)@)
        },
{
    let t = trim_chars(line);
    if t.len() > 0 {
        let ghost before = out@;
        out.push((number, string_from_chars(&t)));
        assert(numbered_views(out@) =~= numbered_views(before).push((number as nat, trimmed(line@))));
    }
}

/// The non-blank lines of a gold file, trimmed, with their line numbers
/// (from 1): what is parsed as one gold entry each.
pub fn gold_lines(content: &str) -> (out: Vec<(usize, String)>)
    requires
        content@.len() < usize::MAX,
    ensures
        numbered_views(out@) == numbered_nonblank(split_lines(content@)),
{
    let mut out: Vec<(usize, String)> = Vec::new();
    let mut current: Vec<char> = Vec::new();
    let mut number: usize = 1;
    for c in it: content.chars()
        invariant
            it.seq() == content@,
            content@.len() < usize::MAX,
            number == split_lines(content@.take(it.index() as int)).len(),
            number <= it.index() + 1,
            current@ == split_lines(content@.take(it.index() as int)).last(),
            numbered_views(out@) == numbered_nonblank(
                split_lines(content@.take(it.index() as int)).drop_last(),
            ),
    {
        let ghost k = it.index();
        let ghost p = content@.take(k as int);
        let ghost lines = split_lines(p);
        proof {
            lemma_split_lines_nonempty(p);
            assert(content@.take(k + 1) =~= p.push(c));
            assert(content@.take(k + 1).drop_last() =~= p);
        }
        if c == '\n' {
            push_if_nonblank(&mut out, &current, number);
            current = Vec::new();
            number = number + 1;
            proof {
                let lines2 = split_lines(p.push(c));
                assert(lines2 == lines.push(seq![]));
                assert(lines2.drop_last() =~= lines);
                assert(current@ =~= lines2.last());
            }
        } else {
            current.push(c);
            proof {
                let lines2 = split_lines(p.push(c));
                assert(lines2.drop_last() =~= lines.drop_last());
                assert(current@ =~= lines2.last());
            }
        }
    }
    proof {
        assert(content@.take(content@.len() as int) =~= content@);
        lemma_split_lines_nonempty(content@);
    }
    push_if_nonblank(&mut out, &current, number);
    out
}

} // verus!
