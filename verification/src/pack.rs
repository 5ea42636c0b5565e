//! Packing whole text units into chunks bounded by a number of words.

use crate::chars::{append_chars, char_texts, from_chars, lemma_texts_push, texts, to_chars};
use crate::words::{
    all_tokens, is_token, join, join_range, lemma_blank_is_space, lemma_trimmed_len,
    lemma_words_are_tokens, lemma_words_of_join, lemma_words_of_trimmed, lemma_words_spaced,
    split_words, trim, trimmed, word_count, words,
};
use vstd::prelude::*;
use vstd::seq_lib::lemma_multiset_commutative;

verus! {

/// The words `ws` in groups of `size`, each group joined into one text. The
/// last group holds what is left, which may be fewer.
pub open spec fn word_groups(ws: Seq<Seq<char>>, size: nat) -> Seq<Seq<char>>
    decreases ws.len(),
{
    if size == 0 || ws.len() == 0 {
        Seq::empty()
    } else if ws.len() <= size {
        seq![join(ws)]
    } else {
        seq![join(ws.take(size as int))] + word_groups(ws.skip(size as int), size)
    }
}

/// The pending text with `unit` added: behind one space, or alone where
/// nothing is pending.
pub open spec fn glued(pending: Seq<char>, unit: Seq<char>) -> Seq<char> {
    if pending.len() == 0 {
        unit
    } else {
        pending + seq![' '] + unit
    }
}

/// One step of packing. The state is the chunks completed so far and the
/// pending text; `unit` is trimmed first.
///
/// A unit of more than `chunk_size` words goes out at once, in groups of
/// `chunk_size` words, and leaves the pending text as it is. A unit that fits
/// beside the pending words joins them. Any other unit completes the pending
/// text, trimmed, and becomes the new pending text.
pub open spec fn pack_step(
    state: (Seq<Seq<char>>, Seq<char>),
    unit: Seq<char>,
    chunk_size: nat,
) -> (Seq<Seq<char>>, Seq<char>) {
    let (done, pending) = state;
    let u = trimmed(unit);
    if word_count(u) > chunk_size {
        (done + word_groups(words(u), chunk_size), pending)
    } else if word_count(pending) + word_count(u) <= chunk_size {
        (done, glued(pending, u))
    } else {
        (done.push(trimmed(pending)), u)
    }
}

/// The state after packing `units` in order, starting with nothing.
pub open spec fn pack_fold(units: Seq<Seq<char>>, chunk_size: nat) -> (Seq<Seq<char>>, Seq<char>)
    decreases units.len(),
{
    if units.len() == 0 {
        (Seq::empty(), Seq::empty())
    } else {
        pack_step(pack_fold(units.drop_last(), chunk_size), units.last(), chunk_size)
    }
}

/// The chunks that packing `units` gives: those completed on the way, then
/// the pending text, trimmed, unless that is empty.
pub open spec fn packed(units: Seq<Seq<char>>, chunk_size: nat) -> Seq<Seq<char>> {
    let (done, pending) = pack_fold(units, chunk_size);
    if trimmed(pending).len() == 0 {
        done
    } else {
        done.push(trimmed(pending))
    }
}

/// The words of all the texts of `list`, in order.
pub open spec fn all_words(list: Seq<Seq<char>>) -> Seq<Seq<char>>
    decreases list.len(),
{
    if list.len() == 0 {
        Seq::empty()
    } else {
        all_words(list.drop_last()) + words(list.last())
    }
}

/// No unit of more than `chunk_size` words arrives while words are pending.
/// Such a unit goes out before the pending words, though it came after them.
pub open spec fn nothing_overtaken(units: Seq<Seq<char>>, chunk_size: nat) -> bool {
    forall|i: int|
        0 <= i < units.len() && word_count(#[trigger] units[i]) > chunk_size ==> word_count(
            pack_fold(units.take(i), chunk_size).1,
        ) == 0
}

/// Every text of `list` has at least one word and at most `chunk_size`.
pub open spec fn all_within(list: Seq<Seq<char>>, chunk_size: nat) -> bool {
    forall|i: int| 0 <= i < list.len() ==> 1 <= word_count(#[trigger] list[i]) <= chunk_size
}

/// The words of a list with one more text.
pub proof fn lemma_all_words_push(list: Seq<Seq<char>>, s: Seq<char>)
    ensures
        all_words(list.push(s)) == all_words(list) + words(s),
{
    assert(list.push(s).drop_last() == list);
}

/// The words of two lists in a row.
pub proof fn lemma_all_words_concat(a: Seq<Seq<char>>, b: Seq<Seq<char>>)
    ensures
        all_words(a + b) == all_words(a) + all_words(b),
    decreases b.len(),
{
    if b.len() == 0 {
        assert(a + b == a);
    } else {
        lemma_all_words_concat(a, b.drop_last());
        assert((a + b).drop_last() == a + b.drop_last());
        assert((a + b).last() == b.last());
    }
}

/// Adding a unit to the pending text adds its words.
pub proof fn lemma_words_of_glued(pending: Seq<char>, unit: Seq<char>)
    ensures
        words(glued(pending, unit)) == words(pending) + words(unit),
{
    if pending.len() == 0 {
        assert(words(pending) + words(unit) == words(unit));
    } else {
        lemma_blank_is_space();
        lemma_words_spaced(pending, ' ', unit);
    }
}

/// Groups of tokens hold between one and `size` words each, and all of the
/// tokens in order.
pub proof fn lemma_word_groups(ws: Seq<Seq<char>>, size: nat)
    requires
        size > 0,
        all_tokens(ws),
    ensures
        all_within(word_groups(ws, size), size),
        all_words(word_groups(ws, size)) == ws,
    decreases ws.len(),
{
    if ws.len() == 0 {
    } else if ws.len() <= size {
        lemma_words_of_join(ws);
        lemma_all_words_push(Seq::empty(), join(ws));
        assert(Seq::<Seq<char>>::empty().push(join(ws)) == seq![join(ws)]);
    } else {
        let head = ws.take(size as int);
        let tail = ws.skip(size as int);
        assert(all_tokens(head)) by {
            assert forall|i: int| 0 <= i < head.len() implies is_token(#[trigger] head[i]) by {
                assert(head[i] == ws[i]);
            }
        }
        assert(all_tokens(tail)) by {
            assert forall|i: int| 0 <= i < tail.len() implies is_token(#[trigger] tail[i]) by {
                assert(tail[i] == ws[i + size]);
            }
        }
        lemma_word_groups(tail, size);
        lemma_words_of_join(head);
        lemma_all_words_push(Seq::empty(), join(head));
        assert(Seq::<Seq<char>>::empty().push(join(head)) == seq![join(head)]);
        lemma_all_words_concat(seq![join(head)], word_groups(tail, size));
        assert(head + tail == ws);
        let groups = word_groups(ws, size);
        assert forall|i: int| 0 <= i < groups.len() implies 1 <= word_count(#[trigger] groups[i])
            <= size by {
            if i > 0 {
                assert(groups[i] == word_groups(tail, size)[i - 1]);
            }
        }
    }
}

/// While packing, the completed chunks hold between one and `chunk_size`
/// words each, and the pending text at most `chunk_size`.
pub proof fn lemma_pack_fold_within(units: Seq<Seq<char>>, chunk_size: nat)
    requires
        chunk_size > 0,
    ensures
        all_within(pack_fold(units, chunk_size).0, chunk_size),
        word_count(pack_fold(units, chunk_size).1) <= chunk_size,
    decreases units.len(),
{
    if units.len() > 0 {
        lemma_pack_fold_within(units.drop_last(), chunk_size);
        let (done, pending) = pack_fold(units.drop_last(), chunk_size);
        let u = trimmed(units.last());
        let after = pack_fold(units, chunk_size).0;
        if word_count(u) > chunk_size {
            lemma_words_are_tokens(u);
            lemma_word_groups(words(u), chunk_size);
            let groups = word_groups(words(u), chunk_size);
            assert forall|i: int| 0 <= i < after.len() implies 1 <= word_count(#[trigger] after[i])
                <= chunk_size by {
                if i < done.len() {
                    assert(after[i] == done[i]);
                } else {
                    assert(after[i] == groups[i - done.len()]);
                }
            }
        } else if word_count(pending) + word_count(u) <= chunk_size {
            lemma_words_of_glued(pending, u);
        } else {
            lemma_words_of_trimmed(pending);
            assert forall|i: int| 0 <= i < after.len() implies 1 <= word_count(#[trigger] after[i])
                <= chunk_size by {
                if i < done.len() {
                    assert(after[i] == done[i]);
                }
            }
        }
    }
}

/// Every chunk that packing gives has at least one word, so it is not empty,
/// and at most `chunk_size` words.
pub proof fn lemma_packed_within(units: Seq<Seq<char>>, chunk_size: nat)
    requires
        chunk_size > 0,
    ensures
        all_within(packed(units, chunk_size), chunk_size),
{
    lemma_pack_fold_within(units, chunk_size);
    let (done, pending) = pack_fold(units, chunk_size);
    lemma_words_of_trimmed(pending);
    lemma_trimmed_len(pending);
    let chunks = packed(units, chunk_size);
    assert forall|i: int| 0 <= i < chunks.len() implies 1 <= word_count(#[trigger] chunks[i])
        <= chunk_size by {
        if i < done.len() {
            assert(chunks[i] == done[i]);
        }
    }
}

/// While packing with nothing overtaken, the words of the completed chunks and
/// then of the pending text are the words of the units, in order.
pub proof fn lemma_pack_fold_in_order(units: Seq<Seq<char>>, chunk_size: nat)
    requires
        chunk_size > 0,
        nothing_overtaken(units, chunk_size),
    ensures
        all_words(pack_fold(units, chunk_size).0) + words(pack_fold(units, chunk_size).1)
            == all_words(units),
    decreases units.len(),
{
    if units.len() > 0 {
        let init = units.drop_last();
        assert(nothing_overtaken(init, chunk_size)) by {
            assert forall|i: int|
                0 <= i < init.len() && word_count(#[trigger] init[i]) > chunk_size implies word_count(
                pack_fold(init.take(i), chunk_size).1,
            ) == 0 by {
                assert(init[i] == units[i]);
                assert(init.take(i) == units.take(i));
            }
        }
        lemma_pack_fold_in_order(init, chunk_size);
        let (done, pending) = pack_fold(init, chunk_size);
        let u = trimmed(units.last());
        lemma_words_of_trimmed(units.last());
        if word_count(u) > chunk_size {
            assert(units[units.len() - 1] == units.last());
            assert(units.take(units.len() - 1) == init);
            assert(words(pending) == Seq::<Seq<char>>::empty());
            lemma_words_are_tokens(u);
            lemma_word_groups(words(u), chunk_size);
            lemma_all_words_concat(done, word_groups(words(u), chunk_size));
        } else if word_count(pending) + word_count(u) <= chunk_size {
            lemma_words_of_glued(pending, u);
        } else {
            lemma_words_of_trimmed(pending);
            lemma_all_words_push(done, trimmed(pending));
        }
    }
}

/// Where nothing is overtaken, the chunks hold the words of the units in
/// order: none is missing, none is there twice, none has moved.
pub proof fn lemma_packed_in_order(units: Seq<Seq<char>>, chunk_size: nat)
    requires
        chunk_size > 0,
        nothing_overtaken(units, chunk_size),
    ensures
        all_words(packed(units, chunk_size)) == all_words(units),
{
    lemma_pack_fold_in_order(units, chunk_size);
    let (done, pending) = pack_fold(units, chunk_size);
    lemma_words_of_trimmed(pending);
    lemma_trimmed_len(pending);
    if trimmed(pending).len() == 0 {
        assert(all_words(done) + words(pending) == all_words(done));
    } else {
        lemma_all_words_push(done, trimmed(pending));
    }
}

/// While packing, the completed chunks and the pending text together hold
/// each word of the units as often as the units do.
pub proof fn lemma_pack_fold_keeps_words(units: Seq<Seq<char>>, chunk_size: nat)
    requires
        chunk_size > 0,
    ensures
        (all_words(pack_fold(units, chunk_size).0) + words(
            pack_fold(units, chunk_size).1,
        )).to_multiset() == all_words(units).to_multiset(),
    decreases units.len(),
{
    if units.len() == 0 {
        assert(Seq::<Seq<char>>::empty() + Seq::<Seq<char>>::empty() == Seq::<Seq<char>>::empty());
    } else {
        let init = units.drop_last();
        lemma_pack_fold_keeps_words(init, chunk_size);
        let (done, pending) = pack_fold(init, chunk_size);
        let u = trimmed(units.last());
        lemma_words_of_trimmed(units.last());
        let d = all_words(done);
        let p = words(pending);
        let w = words(u);
        lemma_multiset_commutative(all_words(init), w);
        lemma_multiset_commutative(d + p, w);
        if word_count(u) > chunk_size {
            lemma_words_are_tokens(u);
            lemma_word_groups(w, chunk_size);
            lemma_all_words_concat(done, word_groups(w, chunk_size));
            lemma_multiset_commutative(d, p);
            lemma_multiset_commutative(d, w);
            lemma_multiset_commutative(d + w, p);
            assert(d.to_multiset().add(w.to_multiset()).add(p.to_multiset()) == d.to_multiset().add(
                p.to_multiset(),
            ).add(w.to_multiset()));
        } else if word_count(pending) + word_count(u) <= chunk_size {
            lemma_words_of_glued(pending, u);
            assert(d + (p + w) == (d + p) + w);
        } else {
            lemma_words_of_trimmed(pending);
            lemma_all_words_push(done, trimmed(pending));
        }
    }
}

/// The chunks hold each word of the units as often as the units do: none is
/// missing and none is there twice, whatever the order.
pub proof fn lemma_packed_keeps_words(units: Seq<Seq<char>>, chunk_size: nat)
    requires
        chunk_size > 0,
    ensures
        all_words(packed(units, chunk_size)).to_multiset() == all_words(units).to_multiset(),
{
    lemma_pack_fold_keeps_words(units, chunk_size);
    let (done, pending) = pack_fold(units, chunk_size);
    lemma_words_of_trimmed(pending);
    lemma_trimmed_len(pending);
    if trimmed(pending).len() == 0 {
        assert(all_words(done) + words(pending) == all_words(done));
    } else {
        lemma_all_words_push(done, trimmed(pending));
    }
}

/// `input` without its leading and trailing whitespace.
pub fn clean_input(input: String) -> (r: String)
    ensures
        r@ == trimmed(input@),
{
    let chars = to_chars(input.as_str());
    from_chars(&trim(&chars))
}

/// Appends to `chunks` the words `ws` in groups of `size`.
fn push_groups(ws: &Vec<Vec<char>>, size: usize, chunks: &mut Vec<String>)
    requires
        size > 0,
    ensures
        texts(final(chunks)@) == texts(old(chunks)@) + word_groups(char_texts(ws@), size as nat),
{
    let ghost all = char_texts(ws@);
    let ghost start = texts(chunks@);
    let n: usize = ws.len();
    let mut from: usize = 0;
    proof {
        assert(all.skip(0) == all);
    }
    while from < n
        invariant
            size > 0,
            n == ws.len(),
            all == char_texts(ws@),
            from <= n,
            texts(chunks@) + word_groups(all.skip(from as int), size as nat) == start + word_groups(
                all,
                size as nat,
            ),
        decreases n - from,
    {
        let to: usize = if size < n - from {
            from + size
        } else {
            n
        };
        let group = join_range(ws, from, to);
        let text = from_chars(&group);
        let ghost before = chunks@;
        chunks.push(text);
        proof {
            let rest = all.skip(from as int);
            lemma_texts_push(before, text);
            if rest.len() <= size {
                assert(all.subrange(from as int, to as int) == rest);
                assert(all.skip(to as int).len() == 0);
                assert(texts(before) + seq![join(rest)] == texts(before).push(join(rest)));
                assert(texts(chunks@) + Seq::<Seq<char>>::empty() == texts(chunks@));
            } else {
                assert(all.subrange(from as int, to as int) == rest.take(size as int));
                assert(all.skip(to as int) == rest.skip(size as int));
                let head = join(rest.take(size as int));
                let more = word_groups(rest.skip(size as int), size as nat);
                assert(texts(before) + (seq![head] + more) == texts(before).push(head) + more);
            }
        }
        from = to;
    }
    proof {
        assert(texts(chunks@) + Seq::<Seq<char>>::empty() == texts(chunks@));
    }
}

/// Packs `input` into chunks of at most `chunk_size` words.
///
/// Each unit is trimmed. A unit of more than `chunk_size` words is cut into
/// chunks of `chunk_size` words, the last of which may hold fewer; these go
/// out at once, before what is pending. Other units are collected, separated
/// by one space, as long as the collected words stay within `chunk_size`; a
/// unit that no longer fits completes the pending chunk and starts the next.
/// The chunk that is pending at the end is completed too. No chunk is empty.
pub fn get_chunks(input: Vec<String>, chunk_size: usize) -> (r: Vec<String>)
    requires
        chunk_size > 0,
    ensures
        texts(r@) == packed(texts(input@), chunk_size as nat),
        all_within(texts(r@), chunk_size as nat),
        all_words(texts(r@)).to_multiset() == all_words(texts(input@)).to_multiset(),
        nothing_overtaken(texts(input@), chunk_size as nat) ==> all_words(texts(r@)) == all_words(
            texts(input@),
        ),
{
    let ghost units = texts(input@);
    proof {
        lemma_packed_within(units, chunk_size as nat);
        lemma_packed_keeps_words(units, chunk_size as nat);
        if nothing_overtaken(units, chunk_size as nat) {
            lemma_packed_in_order(units, chunk_size as nat);
        }
    }
    let mut chunks: Vec<String> = Vec::new();
    let mut pending: Vec<char> = Vec::new();
    let mut pending_words: usize = 0;
    let mut i: usize = 0;
    while i < input.len()
        invariant
            chunk_size > 0,
            units == texts(input@),
            i <= input.len(),
            texts(chunks@) == pack_fold(units.take(i as int), chunk_size as nat).0,
            pending@ == pack_fold(units.take(i as int), chunk_size as nat).1,
            pending_words == word_count(pending@),
            pending_words <= chunk_size,
        decreases input.len() - i,
    {
        let raw = to_chars(input[i].as_str());
        let unit = trim(&raw);
        let ws = split_words(&unit);
        let count: usize = ws.len();
        proof {
            assert(units.take(i as int + 1).drop_last() == units.take(i as int));
            assert(units.take(i as int + 1).last() == input@[i as int]@);
        }
        if count > chunk_size {
            push_groups(&ws, chunk_size, &mut chunks);
        } else if count <= chunk_size - pending_words {
            proof {
                lemma_words_of_glued(pending@, unit@);
            }
            if pending.len() > 0 {
                pending.push(' ');
            }
            append_chars(&mut pending, &unit);
            pending_words = pending_words + count;
        } else {
            let done = trim(&pending);
            let text = from_chars(&done);
            proof {
                lemma_texts_push(chunks@, text);
            }
            chunks.push(text);
            pending = unit;
            pending_words = count;
        }
        i = i + 1;
    }
    proof {
        assert(units.take(i as int) == units);
    }
    let tail = trim(&pending);
    if tail.len() > 0 {
        let text = from_chars(&tail);
        proof {
            lemma_texts_push(chunks@, text);
        }
        chunks.push(text);
    }
    chunks
}

} // verus!
