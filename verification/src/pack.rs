//! Greedy packing and merging of text chunks under a length budget.
//!
//! Texts are sequences of characters, so every length below is a character
//! count.  Both routines split on the sentence terminator and accumulate
//! pieces into buffers that are flushed around a length limit; their exact
//! behaviour, quirks of the greedy rules included, is given by the spec
//! functions `optimize_spec` and `merge_spec`.

use vstd::prelude::*;

verus! {

/// The sentence terminator on which long texts are split.
pub const SENTENCE_END: char = '\u{3002}';

/// Whether `c` is Unicode whitespace; the meaning of `char::is_whitespace`.
pub uninterp spec fn is_whitespace_char(c: char) -> bool;

/// Relies on `char::is_whitespace`: the Unicode whitespace classification,
/// a function of the character alone.
#[verifier::external_body]
fn char_is_whitespace(c: char) -> (r: bool)
    ensures
        r == is_whitespace_char(c),
{
    c.is_whitespace()
}

/// `s` without its trailing whitespace.
pub open spec fn trim_end_spec(s: Seq<char>) -> Seq<char>
    decreases s.len(),
{
    if s.len() == 0 {
        s
    } else if is_whitespace_char(s.last()) {
        trim_end_spec(s.drop_last())
    } else {
        s
    }
}

/// `s` without its leading whitespace.
pub open spec fn trim_start_spec(s: Seq<char>) -> Seq<char>
    decreases s.len(),
{
    if s.len() == 0 {
        s
    } else if is_whitespace_char(s[0]) {
        trim_start_spec(s.drop_first())
    } else {
        s
    }
}

/// `s` without leading and trailing whitespace.
pub open spec fn trim_spec(s: Seq<char>) -> Seq<char> {
    trim_start_spec(trim_end_spec(s))
}

/// Index of the first sentence terminator in `s`, or `s.len()` if none.
pub open spec fn first_term_index(s: Seq<char>) -> int
    decreases s.len(),
{
    if s.len() == 0 {
        0
    } else if s[0] == SENTENCE_END {
        0
    } else {
        1 + first_term_index(s.drop_first())
    }
}

pub proof fn lemma_first_term_index_range(s: Seq<char>)
    ensures
        0 <= first_term_index(s) <= s.len(),
        first_term_index(s) < s.len() ==> s[first_term_index(s)] == SENTENCE_END,
        forall|k: int| 0 <= k < first_term_index(s) ==> s[k] != SENTENCE_END,
    decreases s.len(),
{
    if s.len() > 0 && s[0] != SENTENCE_END {
        lemma_first_term_index_range(s.drop_first());
        let f = first_term_index(s);
        assert(f == 1 + first_term_index(s.drop_first()));
        if f < s.len() {
            assert(s.drop_first()[f - 1] == s[f]);
        }
        assert forall|k: int| 0 <= k < f implies s[k] != SENTENCE_END by {
            if k > 0 {
                assert(s.drop_first()[k - 1] == s[k]);
            }
        }
    }
}

/// The segments of `s` between sentence terminators, in order.  A text with
/// `k` terminators yields `k + 1` segments; empty segments are kept, exactly
/// as with `str::split` on a single character.
pub open spec fn split_term(s: Seq<char>) -> Seq<Seq<char>>
    decreases s.len(),
    via split_term_decreases
{
    let i = first_term_index(s);
    if i == s.len() {
        seq![s]
    } else {
        seq![s.take(i)] + split_term(s.skip(i + 1))
    }
}

#[via_fn]
proof fn split_term_decreases(s: Seq<char>) {
    lemma_first_term_index_range(s);
}

/// If no terminator stands before `m` and either `m` is the length or a
/// terminator stands at `m`, then `m` is the first terminator index.
proof fn lemma_first_term_index_at(s: Seq<char>, m: int)
    requires
        0 <= m <= s.len(),
        forall|k: int| 0 <= k < m ==> s[k] != SENTENCE_END,
        m < s.len() ==> s[m] == SENTENCE_END,
    ensures
        first_term_index(s) == m,
    decreases m,
{
    if m > 0 {
        assert(s[0] != SENTENCE_END);
        assert forall|k: int| 0 <= k < m - 1 implies s.drop_first()[k] != SENTENCE_END by {
            assert(s.drop_first()[k] == s[k + 1]);
        }
        assert(m - 1 < s.drop_first().len() ==> s.drop_first()[m - 1] == SENTENCE_END);
        lemma_first_term_index_at(s.drop_first(), m - 1);
    }
}

/// The character sequences held by a sequence of character vectors.
pub open spec fn views_of(v: Seq<Vec<char>>) -> Seq<Seq<char>> {
    Seq::new(v.len(), |i: int| v[i]@)
}

/// Copies `src` onto the end of `dst`.
fn push_all(dst: &mut Vec<char>, src: &Vec<char>)
    ensures
        final(dst)@ == old(dst)@ + src@,
{
    let mut i: usize = 0;
    while i < src.len()
        invariant
            i <= src@.len(),
            dst@ == old(dst)@ + src@.take(i as int),
        decreases src@.len() - i,
    {
        dst.push(src[i]);
        proof {
            assert(old(dst)@ + src@.take(i as int) + seq![src@[i as int]] =~= old(dst)@
                + src@.take(i + 1));
        }
        i += 1;
    }
    proof {
        assert(src@.take(src@.len() as int) =~= src@);
    }
}

/// `s` without its trailing whitespace, as `str::trim_end` trims.
fn trim_end_chars(s: &Vec<char>) -> (r: Vec<char>)
    ensures
        r@ == trim_end_spec(s@),
{
    let mut hi: usize = s.len();
    proof {
        assert(s@.take(s@.len() as int) =~= s@);
    }
    while hi > 0 && char_is_whitespace(s[hi - 1])
        invariant
            hi <= s@.len(),
            trim_end_spec(s@) == trim_end_spec(s@.take(hi as int)),
        decreases hi,
    {
        proof {
            let cur = s@.take(hi as int);
            assert(cur.last() == s@[hi - 1]);
            assert(cur.drop_last() =~= s@.take(hi - 1));
        }
        hi -= 1;
    }
    proof {
        let cur = s@.take(hi as int);
        if hi > 0 {
            assert(cur.last() == s@[hi - 1]);
        }
        assert(trim_end_spec(s@) == cur);
    }
    let mut r: Vec<char> = Vec::new();
    let mut i: usize = 0;
    while i < hi
        invariant
            i <= hi <= s@.len(),
            r@ == s@.take(i as int),
        decreases hi - i,
    {
        r.push(s[i]);
        proof {
            assert(s@.take(i as int) + seq![s@[i as int]] =~= s@.take(i + 1));
        }
        i += 1;
    }
    r
}

/// `s` without leading and trailing whitespace, as `str::trim` trims.
fn trim_chars(s: &Vec<char>) -> (r: Vec<char>)
    ensures
        r@ == trim_spec(s@),
{
    let mut hi: usize = s.len();
    proof {
        assert(s@.take(s@.len() as int) =~= s@);
    }
    while hi > 0 && char_is_whitespace(s[hi - 1])
        invariant
            hi <= s@.len(),
            trim_end_spec(s@) == trim_end_spec(s@.take(hi as int)),
        decreases hi,
    {
        proof {
            let cur = s@.take(hi as int);
            assert(cur.last() == s@[hi - 1]);
            assert(cur.drop_last() =~= s@.take(hi - 1));
        }
        hi -= 1;
    }
    proof {
        let cur = s@.take(hi as int);
        if hi > 0 {
            assert(cur.last() == s@[hi - 1]);
        }
        assert(trim_end_spec(s@) == cur);
    }
    let mut lo: usize = 0;
    while lo < hi && char_is_whitespace(s[lo])
        invariant
            lo <= hi <= s@.len(),
            trim_end_spec(s@) == s@.take(hi as int),
            trim_start_spec(s@.take(hi as int)) == trim_start_spec(
                s@.subrange(lo as int, hi as int),
            ),
        decreases hi - lo,
    {
        proof {
            let cur = s@.subrange(lo as int, hi as int);
            assert(cur[0] == s@[lo as int]);
            assert(cur.drop_first() =~= s@.subrange(lo + 1, hi as int));
        }
        lo += 1;
    }
    proof {
        let cur = s@.subrange(lo as int, hi as int);
        if lo < hi {
            assert(cur[0] == s@[lo as int]);
        }
        assert(trim_spec(s@) == cur);
    }
    let mut r: Vec<char> = Vec::new();
    let mut i: usize = lo;
    while i < hi
        invariant
            lo <= i <= hi <= s@.len(),
            r@ == s@.subrange(lo as int, i as int),
        decreases hi - i,
    {
        r.push(s[i]);
        proof {
            assert(s@.subrange(lo as int, i as int) + seq![s@[i as int]] =~= s@.subrange(
                lo as int,
                i + 1,
            ));
        }
        i += 1;
    }
    r
}

/// The segments of `s` between sentence terminators, matching `split_term`.
fn split_chars(s: &Vec<char>) -> (r: Vec<Vec<char>>)
    ensures
        views_of(r@) == split_term(s@),
{
    let mut segs: Vec<Vec<char>> = Vec::new();
    let mut cur: Vec<char> = Vec::new();
    let mut i: usize = 0;
    let ghost mut seg_start: int = 0;
    proof {
        assert(s@.skip(0) =~= s@);
        assert(views_of(segs@) + split_term(s@) =~= split_term(s@));
    }
    while i < s.len()
        invariant
            0 <= seg_start <= i <= s@.len(),
            cur@ == s@.subrange(seg_start, i as int),
            forall|k: int| seg_start <= k < i ==> s@[k] != SENTENCE_END,
            split_term(s@) == views_of(segs@) + split_term(s@.skip(seg_start)),
        decreases s@.len() - i,
    {
        let c = s[i];
        if c == SENTENCE_END {
            let ghost cur_v = cur@;
            let ghost pre_segs = views_of(segs@);
            proof {
                let tail = s@.skip(seg_start);
                assert forall|k: int| 0 <= k < i - seg_start implies tail[k] != SENTENCE_END by {
                    assert(tail[k] == s@[seg_start + k]);
                }
                assert(tail[i - seg_start] == s@[i as int]);
                lemma_first_term_index_at(tail, i - seg_start);
                assert(tail.take(i - seg_start) =~= s@.subrange(seg_start, i as int));
                assert(tail.skip(i - seg_start + 1) =~= s@.skip(i + 1));
                assert(split_term(tail) == seq![cur_v] + split_term(s@.skip(i + 1)));
            }
            segs.push(cur);
            cur = Vec::new();
            proof {
                seg_start = i + 1;
                assert(views_of(segs@) =~= pre_segs.push(cur_v));
                assert(pre_segs + (seq![cur_v] + split_term(s@.skip(seg_start))) =~=
                    pre_segs.push(cur_v) + split_term(s@.skip(seg_start)));
                assert(cur@ =~= s@.subrange(seg_start, i + 1));
            }
        } else {
            cur.push(c);
            proof {
                assert(s@.subrange(seg_start, i as int) + seq![s@[i as int]] =~= s@.subrange(
                    seg_start,
                    i + 1,
                ));
            }
        }
        i += 1;
    }
    let ghost cur_v = cur@;
    let ghost pre_segs = views_of(segs@);
    proof {
        let tail = s@.skip(seg_start);
        assert forall|k: int| 0 <= k < tail.len() implies tail[k] != SENTENCE_END by {
            assert(tail[k] == s@[seg_start + k]);
        }
        lemma_first_term_index_at(tail, tail.len() as int);
        assert(tail =~= cur_v);
        assert(split_term(tail) == seq![cur_v]);
    }
    segs.push(cur);
    proof {
        assert(views_of(segs@) =~= pre_segs.push(cur_v));
        assert(pre_segs + seq![cur_v] =~= pre_segs.push(cur_v));
    }
    segs
}

/// One piece strictly shorter than the limit: append it to the buffer; once
/// the buffer has reached the limit, flush it to the result, trimming its
/// trailing whitespace only when `trim` is set.
pub open spec fn pack_short(
    result: Seq<Seq<char>>,
    buffer: Seq<char>,
    piece: Seq<char>,
    limit: nat,
    trim: bool,
) -> (Seq<Seq<char>>, Seq<char>) {
    let buf2 = buffer + piece;
    if buf2.len() >= limit {
        (result.push(if trim { trim_end_spec(buf2) } else { buf2 }), Seq::<char>::empty())
    } else {
        (result, buf2)
    }
}

/// The sentences of one long text, processed in order: every sentence but the
/// last gets its terminator back; a sentence shorter than the limit is
/// buffered (flushed without trimming), one at or above the limit is emitted
/// standalone.
pub open spec fn pack_sentences(
    result: Seq<Seq<char>>,
    buffer: Seq<char>,
    segs: Seq<Seq<char>>,
    limit: nat,
) -> (Seq<Seq<char>>, Seq<char>)
    decreases segs.len(),
{
    if segs.len() == 0 {
        (result, buffer)
    } else {
        let cur = if segs.len() > 1 {
            segs[0].push(SENTENCE_END)
        } else {
            segs[0]
        };
        let st = if cur.len() < limit {
            pack_short(result, buffer, cur, limit, false)
        } else {
            (result.push(cur), buffer)
        };
        pack_sentences(st.0, st.1, segs.drop_first(), limit)
    }
}

/// One input text: short texts are buffered whole; texts at or above the
/// limit are split into sentences first.
pub open spec fn pack_one(
    result: Seq<Seq<char>>,
    buffer: Seq<char>,
    text: Seq<char>,
    limit: nat,
) -> (Seq<Seq<char>>, Seq<char>) {
    if text.len() < limit {
        pack_short(result, buffer, text, limit, true)
    } else {
        pack_sentences(result, buffer, split_term(text), limit)
    }
}

pub open spec fn pack_all(
    result: Seq<Seq<char>>,
    buffer: Seq<char>,
    texts: Seq<Seq<char>>,
    limit: nat,
) -> (Seq<Seq<char>>, Seq<char>)
    decreases texts.len(),
{
    if texts.len() == 0 {
        (result, buffer)
    } else {
        let st = pack_one(result, buffer, texts[0], limit);
        pack_all(st.0, st.1, texts.drop_first(), limit)
    }
}

/// The packed texts: the fold of `pack_one` over the inputs, with a final
/// flush of any non-empty leftover buffer.
pub open spec fn optimize_spec(texts: Seq<Seq<char>>, limit: nat) -> Seq<Seq<char>> {
    let st = pack_all(Seq::<Seq<char>>::empty(), Seq::<char>::empty(), texts, limit);
    if st.1.len() > 0 {
        st.0.push(st.1)
    } else {
        st.0
    }
}

/// Buffers one piece that is strictly shorter than the limit, flushing the
/// buffer when it fills, exactly as `pack_short` describes.
fn pack_piece(
    result: &mut Vec<Vec<char>>,
    buffer: &mut Vec<char>,
    piece: &Vec<char>,
    limit: usize,
    trim: bool,
)
    ensures
        views_of(final(result)@) == pack_short(
            views_of(old(result)@),
            old(buffer)@,
            piece@,
            limit as nat,
            trim,
        ).0,
        final(buffer)@ == pack_short(
            views_of(old(result)@),
            old(buffer)@,
            piece@,
            limit as nat,
            trim,
        ).1,
{
    push_all(buffer, piece);
    if buffer.len() >= limit {
        let ghost pre = views_of(result@);
        let out = if trim {
            trim_end_chars(buffer)
        } else {
            let mut copy: Vec<char> = Vec::new();
            push_all(&mut copy, buffer);
            proof {
                assert(Seq::<char>::empty() + buffer@ =~= buffer@);
            }
            copy
        };
        result.push(out);
        buffer.clear();
        proof {
            assert(views_of(result@) =~= pre.push(
                if trim {
                    trim_end_spec(old(buffer)@ + piece@)
                } else {
                    old(buffer)@ + piece@
                },
            ));
        }
    }
}

/// Packs the texts into chunks around the length limit: texts shorter than
/// the limit accumulate in a buffer that is flushed (end-trimmed) when full;
/// longer texts are split into sentences and each sentence is buffered or
/// emitted standalone; a non-empty leftover buffer is flushed at the end.
pub fn optimize_length(texts: Vec<Vec<char>>, limit: usize) -> (result: Vec<Vec<char>>)
    ensures
        views_of(result@) == optimize_spec(views_of(texts@), limit as nat),
{
    let ghost all = views_of(texts@);
    let mut result: Vec<Vec<char>> = Vec::new();
    let mut buffer: Vec<char> = Vec::new();
    let mut ti: usize = 0;
    proof {
        assert(all.skip(0) =~= all);
        assert(views_of(result@) =~= Seq::<Seq<char>>::empty());
    }
    while ti < texts.len()
        invariant
            ti <= texts@.len(),
            all == views_of(texts@),
            pack_all(Seq::<Seq<char>>::empty(), Seq::<char>::empty(), all, limit as nat)
                == pack_all(views_of(result@), buffer@, all.skip(ti as int), limit as nat),
        decreases texts@.len() - ti,
    {
        let ghost pre_r = views_of(result@);
        let ghost pre_b = buffer@;
        let ghost tis = ti as int;
        let t = &texts[ti];
        proof {
            assert(all[tis] == t@);
        }
        if t.len() < limit {
            pack_piece(&mut result, &mut buffer, t, limit, true);
        } else {
            let segs = split_chars(t);
            let ghost segviews = views_of(segs@);
            let mut si: usize = 0;
            proof {
                assert(segviews.skip(0) =~= segviews);
            }
            while si < segs.len()
                invariant
                    si <= segs@.len(),
                    segviews == views_of(segs@),
                    limit <= t@.len(),
                    pack_sentences(pre_r, pre_b, segviews, limit as nat) == pack_sentences(
                        views_of(result@),
                        buffer@,
                        segviews.skip(si as int),
                        limit as nat,
                    ),
                decreases segs@.len() - si,
            {
                let ghost sis = si as int;
                let ghost step_r = views_of(result@);
                let ghost step_b = buffer@;
                let mut cur: Vec<char> = Vec::new();
                push_all(&mut cur, &segs[si]);
                proof {
                    assert(Seq::<char>::empty() + segs@[sis]@ =~= segs@[sis]@);
                    assert(segviews.skip(sis)[0] == segviews[sis]);
                }
                if si + 1 < segs.len() {
                    cur.push(SENTENCE_END);
                }
                let ghost spec_cur = (if segviews.skip(sis).len() > 1 {
                    segviews.skip(sis)[0].push(SENTENCE_END)
                } else {
                    segviews.skip(sis)[0]
                });
                proof {
                    assert(cur@ == spec_cur);
                }
                if cur.len() < limit {
                    pack_piece(&mut result, &mut buffer, &cur, limit, false);
                } else {
                    result.push(cur);
                    proof {
                        assert(views_of(result@) =~= step_r.push(spec_cur));
                    }
                }
                proof {
                    assert(segviews.skip(sis).drop_first() =~= segviews.skip(sis + 1));
                    assert(pack_sentences(step_r, step_b, segviews.skip(sis), limit as nat)
                        == pack_sentences(
                        views_of(result@),
                        buffer@,
                        segviews.skip(sis + 1),
                        limit as nat,
                    ));
                }
                si += 1;
            }
            proof {
                assert(segviews.skip(segviews.len() as int) =~= Seq::<Seq<char>>::empty());
            }
        }
        proof {
            assert((views_of(result@), buffer@) == pack_one(pre_r, pre_b, all[tis], limit as nat));
            assert(all.skip(tis)[0] == all[tis]);
            assert(all.skip(tis).drop_first() =~= all.skip(tis + 1));
            assert(pack_all(pre_r, pre_b, all.skip(tis), limit as nat) == pack_all(
                views_of(result@),
                buffer@,
                all.skip(tis + 1),
                limit as nat,
            ));
        }
        ti += 1;
    }
    proof {
        assert(all.skip(all.len() as int) =~= Seq::<Seq<char>>::empty());
    }
    if buffer.len() > 0 {
        let ghost pre = views_of(result@);
        let ghost bv = buffer@;
        result.push(buffer);
        proof {
            assert(views_of(result@) =~= pre.push(bv));
        }
    }
    result
}


/// The trimmed, non-empty fragments of the given segments, in order.
pub open spec fn clean_chunks(segs: Seq<Seq<char>>) -> Seq<Seq<char>>
    decreases segs.len(),
{
    if segs.len() == 0 {
        Seq::empty()
    } else {
        let t = trim_spec(segs[0]);
        let rest = clean_chunks(segs.drop_first());
        if t.len() > 0 {
            seq![t] + rest
        } else {
            rest
        }
    }
}

/// All the input texts split on the terminator, each fragment trimmed, empty
/// fragments dropped, in input order.
pub open spec fn chunks_of(texts: Seq<Seq<char>>) -> Seq<Seq<char>>
    decreases texts.len(),
{
    if texts.len() == 0 {
        Seq::empty()
    } else {
        clean_chunks(split_term(texts[0])) + chunks_of(texts.drop_first())
    }
}

/// A chunk with the sentence terminator restored at its end.
pub open spec fn with_terminator(chunk: Seq<char>) -> Seq<char> {
    if chunk.len() > 0 && chunk.last() == SENTENCE_END {
        chunk
    } else {
        chunk.push(SENTENCE_END)
    }
}

/// One step of the merge accumulation over the state (emitted buffers,
/// running buffer, first-exceed flag): a chunk that keeps the buffer strictly
/// under the limit is appended; one that lands exactly on the limit is
/// appended and flushes; the first chunk that overshoots is still appended,
/// while a later overshooting chunk flushes the buffer and starts a new one.
pub open spec fn merge_step(
    st: (Seq<Seq<char>>, Seq<char>, bool),
    chunk: Seq<char>,
    limit: nat,
) -> (Seq<Seq<char>>, Seq<char>, bool) {
    if st.1.len() + chunk.len() < limit {
        (st.0, st.1 + chunk, st.2)
    } else if st.1.len() + chunk.len() == limit {
        (st.0.push(st.1 + chunk), Seq::<char>::empty(), true)
    } else if st.2 {
        (st.0, st.1 + chunk, false)
    } else {
        ((if st.1.len() > 0 {
            st.0.push(st.1)
        } else {
            st.0
        }), chunk, true)
    }
}

pub open spec fn merge_fold(
    st: (Seq<Seq<char>>, Seq<char>, bool),
    chunks: Seq<Seq<char>>,
    limit: nat,
) -> (Seq<Seq<char>>, Seq<char>, bool)
    decreases chunks.len(),
{
    if chunks.len() == 0 {
        st
    } else {
        merge_fold(merge_step(st, with_terminator(chunks[0]), limit), chunks.drop_first(), limit)
    }
}

/// The merged texts: the fold of `merge_step` over the cleaned, terminated
/// chunks of all inputs, with a final flush of a non-empty leftover buffer.
pub open spec fn merge_spec(texts: Seq<Seq<char>>, limit: nat) -> Seq<Seq<char>> {
    let st = merge_fold(
        (Seq::<Seq<char>>::empty(), Seq::<char>::empty(), true),
        chunks_of(texts),
        limit,
    );
    if st.1.len() > 0 {
        st.0.push(st.1)
    } else {
        st.0
    }
}

/// Splits every text on the sentence terminator, trims each fragment, drops
/// the empty ones, re-terminates each survivor, and greedily merges the
/// chunks into buffers around the length limit, exactly as `merge_spec`
/// describes.
pub fn merge(texts: Vec<Vec<char>>, limit: usize) -> (result: Vec<Vec<char>>)
    ensures
        views_of(result@) == merge_spec(views_of(texts@), limit as nat),
{
    let ghost all = views_of(texts@);
    let mut chunks: Vec<Vec<char>> = Vec::new();
    let mut ti: usize = 0;
    proof {
        assert(all.skip(0) =~= all);
        assert(views_of(chunks@) =~= Seq::<Seq<char>>::empty());
        assert(Seq::<Seq<char>>::empty() + chunks_of(all) =~= chunks_of(all));
    }
    while ti < texts.len()
        invariant
            ti <= texts@.len(),
            all == views_of(texts@),
            chunks_of(all) == views_of(chunks@) + chunks_of(all.skip(ti as int)),
        decreases texts@.len() - ti,
    {
        let ghost tis = ti as int;
        let ghost pre_chunks = views_of(chunks@);
        proof {
            assert(all[tis] == texts@[tis]@);
        }
        let segs = split_chars(&texts[ti]);
        let ghost segviews = views_of(segs@);
        let mut si: usize = 0;
        proof {
            assert(segviews.skip(0) =~= segviews);
            assert(pre_chunks + clean_chunks(segviews) =~= pre_chunks + clean_chunks(segviews));
        }
        while si < segs.len()
            invariant
                si <= segs@.len(),
                segviews == views_of(segs@),
                pre_chunks + clean_chunks(segviews) == views_of(chunks@) + clean_chunks(
                    segviews.skip(si as int),
                ),
            decreases segs@.len() - si,
        {
            let ghost sis = si as int;
            let ghost step_chunks = views_of(chunks@);
            let t = trim_chars(&segs[si]);
            proof {
                assert(segviews.skip(sis)[0] == segs@[sis]@);
                assert(segviews.skip(sis).drop_first() =~= segviews.skip(sis + 1));
            }
            if t.len() > 0 {
                let ghost tv = t@;
                chunks.push(t);
                proof {
                    assert(views_of(chunks@) =~= step_chunks.push(tv));
                    assert(step_chunks + (seq![tv] + clean_chunks(segviews.skip(sis + 1))) =~=
                        step_chunks.push(tv) + clean_chunks(segviews.skip(sis + 1)));
                }
            }
            si += 1;
        }
        proof {
            assert(segviews.skip(segviews.len() as int) =~= Seq::<Seq<char>>::empty());
            assert(clean_chunks(Seq::<Seq<char>>::empty()) == Seq::<Seq<char>>::empty());
            assert(views_of(chunks@) + Seq::<Seq<char>>::empty() =~= views_of(chunks@));
            assert(views_of(chunks@) == pre_chunks + clean_chunks(segviews));
            assert(all.skip(tis).drop_first() =~= all.skip(tis + 1));
            assert(chunks_of(all.skip(tis)) == clean_chunks(split_term(all[tis])) + chunks_of(
                all.skip(tis + 1),
            ));
            assert(pre_chunks + (clean_chunks(segviews) + chunks_of(all.skip(tis + 1))) =~= (
            pre_chunks + clean_chunks(segviews)) + chunks_of(all.skip(tis + 1)));
        }
        ti += 1;
    }
    proof {
        assert(all.skip(all.len() as int) =~= Seq::<Seq<char>>::empty());
        assert(views_of(chunks@) + Seq::<Seq<char>>::empty() =~= views_of(chunks@));
        assert(views_of(chunks@) == chunks_of(all));
    }

    let ghost chv = views_of(chunks@);
    let mut result: Vec<Vec<char>> = Vec::new();
    let mut current: Vec<char> = Vec::new();
    let mut first_exceed = true;
    let mut ci: usize = 0;
    proof {
        assert(chv.skip(0) =~= chv);
        assert(views_of(result@) =~= Seq::<Seq<char>>::empty());
    }
    while ci < chunks.len()
        invariant
            ci <= chunks@.len(),
            chv == views_of(chunks@),
            merge_fold(
                (Seq::<Seq<char>>::empty(), Seq::<char>::empty(), true),
                chv,
                limit as nat,
            ) == merge_fold(
                (views_of(result@), current@, first_exceed),
                chv.skip(ci as int),
                limit as nat,
            ),
        decreases chunks@.len() - ci,
    {
        let ghost cis = ci as int;
        let ghost pre_st = (views_of(result@), current@, first_exceed);
        let mut chunk: Vec<char> = Vec::new();
        push_all(&mut chunk, &chunks[ci]);
        proof {
            assert(Seq::<char>::empty() + chunks@[cis]@ =~= chunks@[cis]@);
            assert(chv.skip(cis)[0] == chv[cis]);
        }
        let needs_term = chunk.len() == 0 || chunk[chunk.len() - 1] != SENTENCE_END;
        if needs_term {
            chunk.push(SENTENCE_END);
        }
        proof {
            assert(chunk@ == with_terminator(chv[cis]));
        }
        let total = (current.len() as u128) + (chunk.len() as u128);
        let lim = limit as u128;
        if total < lim {
            push_all(&mut current, &chunk);
        } else if total == lim {
            push_all(&mut current, &chunk);
            let ghost pre_r = views_of(result@);
            let ghost cv = current@;
            result.push(current);
            current = Vec::new();
            first_exceed = true;
            proof {
                assert(views_of(result@) =~= pre_r.push(cv));
            }
        } else {
            if first_exceed {
                first_exceed = false;
                push_all(&mut current, &chunk);
            } else {
                if current.len() > 0 {
                    let ghost pre_r = views_of(result@);
                    let ghost cv = current@;
                    result.push(current);
                    proof {
                        assert(views_of(result@) =~= pre_r.push(cv));
                    }
                }
                current = chunk;
                first_exceed = true;
            }
        }
        proof {
            assert((views_of(result@), current@, first_exceed) == merge_step(
                pre_st,
                with_terminator(chv[cis]),
                limit as nat,
            ));
            assert(chv.skip(cis).drop_first() =~= chv.skip(cis + 1));
            assert(merge_fold(pre_st, chv.skip(cis), limit as nat) == merge_fold(
                (views_of(result@), current@, first_exceed),
                chv.skip(cis + 1),
                limit as nat,
            ));
        }
        ci += 1;
    }
    proof {
        assert(chv.skip(chv.len() as int) =~= Seq::<Seq<char>>::empty());
    }
    if current.len() > 0 {
        let ghost pre_r = views_of(result@);
        let ghost cv = current@;
        result.push(current);
        proof {
            assert(views_of(result@) =~= pre_r.push(cv));
        }
    }
    result
}

} // verus!
