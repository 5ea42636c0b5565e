//! Packing text units into chunks bounded both by a number of words and by a
//! number of bytes, breaking up a unit that is too large on its own.

use crate::chars::{
    all_to_chars, append_chars, byte_len, byte_len_within, char_texts, from_chars,
    lemma_byte_len_concat, lemma_byte_len_single, lemma_char_texts_push, lemma_texts_push, texts,
};
use crate::pack::{glued, lemma_words_of_glued};
use crate::words::{
    all_tokens, count_words, is_token, lemma_words_are_tokens, lemma_words_of_token, split_words,
    word_count, words,
};
use vstd::prelude::*;

verus! {

/// The largest number of bytes that a chunk may take.
pub const BYTE_CEILING: usize = 2048;

/// How finely the units at hand have been cut already.
#[derive(Debug, Clone, Copy, PartialEq, Eq, Structural)]
pub enum Granularity {
    /// Units as the caller gave them.
    Paragraph,
    /// Pieces of a paragraph between sentence-ending punctuation.
    Sentence,
    /// Single words of a sentence.
    Word,
}

/// The number of times that units of this granularity can still be cut.
pub open spec fn cuts_left(level: Granularity) -> nat {
    match level {
        Granularity::Paragraph => 2,
        Granularity::Sentence => 1,
        Granularity::Word => 0,
    }
}

/// Whether `c` ends a sentence.
pub open spec fn is_terminator(c: char) -> bool {
    c == '.' || c == '!' || c == '?'
}

/// The pieces of `s` between sentence-ending characters, which themselves are
/// left out. There is one piece more than there are such characters; a piece
/// may be empty.
pub open spec fn sentences(s: Seq<char>) -> Seq<Seq<char>>
    decreases s.len(),
{
    if s.len() == 0 {
        seq![Seq::empty()]
    } else {
        let before = sentences(s.drop_last());
        let c = s.last();
        if is_terminator(c) {
            before.push(Seq::empty())
        } else {
            before.drop_last().push(before.last().push(c))
        }
    }
}

/// Whether `text` may stand as one chunk: it takes no more than the byte
/// ceiling and holds no more than `chunk_size` words.
pub open spec fn fits(text: Seq<char>, chunk_size: nat) -> bool {
    byte_len(text) <= BYTE_CEILING && word_count(text) <= chunk_size
}

/// `list`, with `current` behind it unless that is empty.
pub open spec fn flushed(list: Seq<Seq<char>>, current: Seq<char>) -> Seq<Seq<char>> {
    if current.len() == 0 {
        list
    } else {
        list.push(current)
    }
}

/// The chunks made of a unit that does not fit on its own: a paragraph is cut
/// into sentences and a sentence into words, which are then packed in turn; a
/// word cannot be cut and stands as it is.
pub open spec fn broken(level: Granularity, unit: Seq<char>, chunk_size: nat) -> Seq<Seq<char>>
    decreases cuts_left(level), 0nat, 1nat,
{
    match level {
        Granularity::Paragraph => split_all(Granularity::Sentence, sentences(unit), chunk_size),
        Granularity::Sentence => split_all(Granularity::Word, words(unit), chunk_size),
        Granularity::Word => seq![unit],
    }
}

/// One step of packing. The state is the chunks completed so far and the
/// current chunk.
///
/// The unit joins the current chunk, behind one space, where the two together
/// fit. Where they do not, the current chunk is completed and the unit is
/// tried alone: it becomes the current chunk where it fits, and is broken up
/// where it does not.
pub open spec fn split_step(
    level: Granularity,
    state: (Seq<Seq<char>>, Seq<char>),
    unit: Seq<char>,
    chunk_size: nat,
) -> (Seq<Seq<char>>, Seq<char>)
    decreases cuts_left(level), 0nat, 2nat,
{
    let (done, current) = state;
    if fits(glued(current, unit), chunk_size) {
        (done, glued(current, unit))
    } else if fits(unit, chunk_size) {
        (flushed(done, current), unit)
    } else {
        (flushed(done, current) + broken(level, unit, chunk_size), Seq::empty())
    }
}

/// The state after packing `units` in order, starting with nothing.
pub open spec fn split_fold(level: Granularity, units: Seq<Seq<char>>, chunk_size: nat) -> (
    Seq<Seq<char>>,
    Seq<char>,
)
    decreases cuts_left(level), units.len(), 0nat,
{
    if units.len() == 0 {
        (Seq::empty(), Seq::empty())
    } else {
        split_step(
            level,
            split_fold(level, units.drop_last(), chunk_size),
            units.last(),
            chunk_size,
        )
    }
}

/// The chunks that packing `units` gives: those completed on the way, then the
/// current chunk unless it is empty.
pub open spec fn split_all(level: Granularity, units: Seq<Seq<char>>, chunk_size: nat) -> Seq<
    Seq<char>,
>
    decreases cuts_left(level), units.len(), 1nat,
{
    let (done, current) = split_fold(level, units, chunk_size);
    flushed(done, current)
}

/// What holds of a chunk: it is not empty, and it fits unless it is a single
/// token, which could not be cut.
pub open spec fn sound_chunk(chunk: Seq<char>, chunk_size: nat) -> bool {
    chunk.len() > 0 && (fits(chunk, chunk_size) || is_token(chunk))
}

/// Every chunk of `list` is sound.
pub open spec fn all_sound(list: Seq<Seq<char>>, chunk_size: nat) -> bool {
    forall|i: int| 0 <= i < list.len() ==> sound_chunk(#[trigger] list[i], chunk_size)
}

/// What the units have to be for every chunk to be sound: tokens at the level
/// of words, where a unit that does not fit is passed on as it is, and
/// anything above it.
pub open spec fn cut_here(level: Granularity, units: Seq<Seq<char>>) -> bool {
    level == Granularity::Word ==> all_tokens(units)
}

/// The empty text fits.
pub proof fn lemma_empty_fits(chunk_size: nat)
    ensures
        fits(Seq::empty(), chunk_size),
{
    assert(vstd::utf8::encode_utf8(Seq::<char>::empty()).len() == 0);
}

/// Two sound lists in a row are sound.
pub proof fn lemma_all_sound_concat(a: Seq<Seq<char>>, b: Seq<Seq<char>>, chunk_size: nat)
    requires
        all_sound(a, chunk_size),
        all_sound(b, chunk_size),
    ensures
        all_sound(a + b, chunk_size),
{
    assert forall|i: int| 0 <= i < (a + b).len() implies sound_chunk(
        #[trigger] (a + b)[i],
        chunk_size,
    ) by {
        if i < a.len() {
            assert((a + b)[i] == a[i]);
        } else {
            assert((a + b)[i] == b[i - a.len()]);
        }
    }
}

/// A sound list with a sound chunk, or nothing, behind it is sound.
pub proof fn lemma_all_sound_flushed(list: Seq<Seq<char>>, current: Seq<char>, chunk_size: nat)
    requires
        all_sound(list, chunk_size),
        fits(current, chunk_size),
    ensures
        all_sound(flushed(list, current), chunk_size),
{
    let out = flushed(list, current);
    assert forall|i: int| 0 <= i < out.len() implies sound_chunk(#[trigger] out[i], chunk_size) by {
        if i < list.len() {
            assert(out[i] == list[i]);
        }
    }
}

/// While packing, every completed chunk is sound and the current chunk fits.
pub proof fn lemma_split_fold_sound(level: Granularity, units: Seq<Seq<char>>, chunk_size: nat)
    requires
        cut_here(level, units),
    ensures
        all_sound(split_fold(level, units, chunk_size).0, chunk_size),
        fits(split_fold(level, units, chunk_size).1, chunk_size),
    decreases cuts_left(level), units.len(),
{
    reveal_with_fuel(split_fold, 3);
    if units.len() == 0 {
        lemma_empty_fits(chunk_size);
    } else {
        let init = units.drop_last();
        let unit = units.last();
        assert(cut_here(level, init)) by {
            if level == Granularity::Word {
                assert forall|i: int| 0 <= i < init.len() implies is_token(#[trigger] init[i]) by {
                    assert(init[i] == units[i]);
                }
            }
        }
        lemma_split_fold_sound(level, init, chunk_size);
        let (done, current) = split_fold(level, init, chunk_size);
        lemma_all_sound_flushed(done, current, chunk_size);
        if fits(glued(current, unit), chunk_size) {
        } else if fits(unit, chunk_size) {
        } else {
            lemma_empty_fits(chunk_size);
            assert(unit.len() > 0);
            lemma_broken_sound(level, unit, chunk_size);
            lemma_all_sound_concat(
                flushed(done, current),
                broken(level, unit, chunk_size),
                chunk_size,
            );
        }
    }
}

/// The chunks made of a unit that does not fit are sound.
pub proof fn lemma_broken_sound(level: Granularity, unit: Seq<char>, chunk_size: nat)
    requires
        level == Granularity::Word ==> is_token(unit),
    ensures
        all_sound(broken(level, unit, chunk_size), chunk_size),
    decreases cuts_left(level), 0nat,
{
    match level {
        Granularity::Paragraph => {
            lemma_split_all_sound(Granularity::Sentence, sentences(unit), chunk_size);
        },
        Granularity::Sentence => {
            lemma_words_are_tokens(unit);
            lemma_split_all_sound(Granularity::Word, words(unit), chunk_size);
        },
        Granularity::Word => {},
    }
}

/// Every chunk that packing gives is not empty, and takes no more than the
/// byte ceiling and holds no more than `chunk_size` words unless it is a
/// single token, which could not be cut.
pub proof fn lemma_split_all_sound(level: Granularity, units: Seq<Seq<char>>, chunk_size: nat)
    requires
        cut_here(level, units),
    ensures
        all_sound(split_all(level, units, chunk_size), chunk_size),
    decreases cuts_left(level), units.len() + 1,
{
    lemma_split_fold_sound(level, units, chunk_size);
    let (done, current) = split_fold(level, units, chunk_size);
    lemma_all_sound_flushed(done, current, chunk_size);
}

/// A chunk of more than the byte ceiling, among those that packing paragraphs
/// gives, is a single token; where `chunk_size` is not zero, only such a chunk
/// can fail to fit.
pub proof fn lemma_over_ceiling_is_token(
    units: Seq<Seq<char>>,
    chunk_size: nat,
    i: int,
)
    requires
        0 <= i < split_all(Granularity::Paragraph, units, chunk_size).len(),
    ensures
        ({
            let chunk = split_all(Granularity::Paragraph, units, chunk_size)[i];
            &&& chunk.len() > 0
            &&& byte_len(chunk) > BYTE_CEILING ==> is_token(chunk)
            &&& word_count(chunk) > chunk_size ==> is_token(chunk) && chunk_size == 0
        }),
{
    lemma_split_all_sound(Granularity::Paragraph, units, chunk_size);
    let chunk = split_all(Granularity::Paragraph, units, chunk_size)[i];
    assert(sound_chunk(chunk, chunk_size));
    if is_token(chunk) {
        lemma_words_of_token(chunk);
    }
}

/// How one more character changes the sentences of a text.
pub proof fn lemma_sentences_push(s: Seq<char>, c: char)
    ensures
        sentences(s).len() > 0,
        is_terminator(c) ==> sentences(s.push(c)) == sentences(s).push(Seq::empty()),
        !is_terminator(c) ==> sentences(s.push(c)) == sentences(s).drop_last().push(
            sentences(s).last().push(c),
        ),
    decreases s.len(),
{
    assert(s.push(c).drop_last() == s);
    if s.len() > 0 {
        lemma_sentences_push(s.drop_last(), s.last());
    }
}

/// The byte length and the word count of a unit put behind the current chunk.
pub proof fn lemma_glued_size(current: Seq<char>, unit: Seq<char>)
    ensures
        byte_len(glued(current, unit)) == if current.len() == 0 {
            byte_len(unit)
        } else {
            byte_len(current) + 1 + byte_len(unit)
        },
        word_count(glued(current, unit)) == word_count(current) + word_count(unit),
{
    lemma_words_of_glued(current, unit);
    if current.len() > 0 {
        lemma_byte_len_concat(current, seq![' ']);
        lemma_byte_len_concat(current + seq![' '], unit);
        lemma_byte_len_single(' ');
    }
}

/// Tells whether `c` ends a sentence.
pub fn ends_sentence(c: char) -> (r: bool)
    ensures
        r == is_terminator(c),
{
    c == '.' || c == '!' || c == '?'
}

/// Cuts `s` at every sentence-ending character and leaves those characters
/// out.
pub fn split_sentences(s: &Vec<char>) -> (r: Vec<Vec<char>>)
    ensures
        char_texts(r@) == sentences(s@),
{
    let mut done: Vec<Vec<char>> = Vec::new();
    let mut cur: Vec<char> = Vec::new();
    let mut i: usize = 0;
    while i < s.len()
        invariant
            i <= s.len(),
            sentences(s@.take(i as int)) == char_texts(done@).push(cur@),
        decreases s.len() - i,
    {
        let c = s[i];
        proof {
            let prefix = s@.take(i as int);
            assert(s@.take(i as int + 1) == prefix.push(c));
            lemma_sentences_push(prefix, c);
            assert(char_texts(done@).push(cur@).drop_last() == char_texts(done@));
        }
        if ends_sentence(c) {
            proof {
                lemma_char_texts_push(done@, cur);
            }
            done.push(cur);
            cur = Vec::new();
        } else {
            cur.push(c);
        }
        i = i + 1;
    }
    proof {
        assert(s@.take(i as int) == s@);
        lemma_char_texts_push(done@, cur);
    }
    done.push(cur);
    done
}

/// Packs `elements` into chunks and appends them to `chunks`.
///
/// Elements are collected, separated by one space, as long as the collected
/// text takes no more than `BYTE_CEILING` bytes and holds no more than
/// `chunk_size` words. An element that no longer fits completes the current
/// chunk and is tried alone. One that does not fit alone is cut further,
/// according to `level`, and its pieces are packed in the same way: a
/// paragraph at sentence ends, a sentence at whitespace. A word is not cut: it
/// becomes a chunk as it is.
pub fn process_elements(
    elements: &Vec<Vec<char>>,
    chunk_size: usize,
    chunks: &mut Vec<String>,
    level: Granularity,
)
    ensures
        texts(final(chunks)@) == texts(old(chunks)@) + split_all(
            level,
            char_texts(elements@),
            chunk_size as nat,
        ),
    decreases cuts_left(level),
{
    let ghost units = char_texts(elements@);
    let ghost start = texts(chunks@);
    let ghost size = chunk_size as nat;
    let mut current: Vec<char> = Vec::new();
    let mut current_words: usize = 0;
    let mut current_bytes: usize = 0;
    let mut i: usize = 0;
    proof {
        lemma_empty_fits(size);
        assert(start + Seq::<Seq<char>>::empty() == start);
    }
    while i < elements.len()
        invariant
            units == char_texts(elements@),
            size == chunk_size as nat,
            i <= elements.len(),
            texts(chunks@) == start + split_fold(level, units.take(i as int), size).0,
            current@ == split_fold(level, units.take(i as int), size).1,
            current_words == word_count(current@),
            current_words <= chunk_size,
            current_bytes == byte_len(current@),
            current_bytes <= BYTE_CEILING,
        decreases elements.len() - i,
    {
        let unit = &elements[i];
        let unit_words: usize = count_words(unit);
        let unit_bytes = byte_len_within(unit, BYTE_CEILING);
        let gap: usize = if current.len() > 0 {
            1
        } else {
            0
        };
        let ghost before = split_fold(level, units.take(i as int), size);
        proof {
            reveal_with_fuel(split_fold, 3);
            assert(units.take(i as int + 1).drop_last() == units.take(i as int));
            assert(units.take(i as int + 1).last() == unit@);
            lemma_glued_size(current@, unit@);
            lemma_empty_fits(size);
        }
        let joint = match unit_bytes {
            Some(n) => n <= BYTE_CEILING - current_bytes && gap <= BYTE_CEILING - current_bytes - n
                && unit_words <= chunk_size - current_words,
            None => false,
        };
        if joint {
            if gap == 1 {
                current.push(' ');
            }
            append_chars(&mut current, unit);
            current_words = current_words + unit_words;
            current_bytes = current_bytes + gap + unit_bytes.unwrap();
            proof {
                assert(current@ == glued(before.1, unit@));
                assert(start + before.0 == texts(chunks@));
            }
        } else {
            if current.len() > 0 {
                let text = from_chars(&current);
                proof {
                    lemma_texts_push(chunks@, text);
                }
                chunks.push(text);
                current = Vec::new();
                current_words = 0;
                current_bytes = 0;
            }
            proof {
                assert(texts(chunks@) == start + flushed(before.0, before.1));
            }
            let alone = unit_bytes.is_some() && unit_words <= chunk_size;
            if alone {
                append_chars(&mut current, unit);
                current_words = unit_words;
                current_bytes = unit_bytes.unwrap();
                proof {
                    assert(current@ == unit@);
                }
            } else {
                let ghost mid = texts(chunks@);
                match level {
                    Granularity::Paragraph => {
                        let pieces = split_sentences(unit);
                        process_elements(&pieces, chunk_size, chunks, Granularity::Sentence);
                    },
                    Granularity::Sentence => {
                        let pieces = split_words(unit);
                        process_elements(&pieces, chunk_size, chunks, Granularity::Word);
                    },
                    Granularity::Word => {
                        let text = from_chars(unit);
                        proof {
                            lemma_texts_push(chunks@, text);
                        }
                        chunks.push(text);
                    },
                }
                proof {
                    let cut = broken(level, unit@, size);
                    assert(texts(chunks@) == mid + cut);
                    assert((start + flushed(before.0, before.1)) + cut == start + (flushed(
                        before.0,
                        before.1,
                    ) + cut));
                }
            }
        }
        i = i + 1;
    }
    proof {
        assert(units.take(i as int) == units);
    }
    if current.len() > 0 {
        let text = from_chars(&current);
        proof {
            lemma_texts_push(chunks@, text);
            let last = split_fold(level, units, size);
            assert(start + last.0.push(last.1) == (start + last.0).push(last.1));
        }
        chunks.push(text);
    }
}

/// Packs `contents` into chunks of at most `chunk_size` words and at most
/// `BYTE_CEILING` bytes.
///
/// A paragraph that is too large on its own is cut into sentences, and a
/// sentence that is too large into words, which are packed in the same way. A
/// single word that is too large becomes a chunk as it is: no other chunk
/// exceeds either bound, whatever the input. No chunk is empty.
pub fn adaptive_split(contents: Vec<String>, chunk_size: usize) -> (r: Vec<String>)
    ensures
        texts(r@) == split_all(Granularity::Paragraph, texts(contents@), chunk_size as nat),
        all_sound(texts(r@), chunk_size as nat),
{
    let units = all_to_chars(&contents);
    let mut chunks: Vec<String> = Vec::new();
    process_elements(&units, chunk_size, &mut chunks, Granularity::Paragraph);
    proof {
        let made = split_all(Granularity::Paragraph, texts(contents@), chunk_size as nat);
        assert(Seq::<Seq<char>>::empty() + made == made);
        lemma_split_all_sound(Granularity::Paragraph, texts(contents@), chunk_size as nat);
    }
    chunks
}

/// Whether `text` takes more than the byte ceiling.
pub open spec fn over_ceiling(text: Seq<char>) -> bool {
    byte_len(text) > BYTE_CEILING
}

/// The chunks of `chunks` that take more than `BYTE_CEILING` bytes, in order:
/// among the chunks that `adaptive_split` gives, the words that could not be
/// cut.
pub fn oversized_chunks(chunks: &Vec<String>) -> (r: Vec<String>)
    ensures
        texts(r@) == texts(chunks@).filter(|c: Seq<char>| over_ceiling(c)),
{
    let ghost over = |c: Seq<char>| over_ceiling(c);
    let mut found: Vec<String> = Vec::new();
    let mut i: usize = 0;
    proof {
        reveal(Seq::filter);
        assert(texts(chunks@).take(0) == Seq::<Seq<char>>::empty());
    }
    while i < chunks.len()
        invariant
            i <= chunks.len(),
            over == |c: Seq<char>| over_ceiling(c),
            texts(found@) == texts(chunks@).take(i as int).filter(over),
        decreases chunks.len() - i,
    {
        let chunk = &chunks[i];
        proof {
            let seen = texts(chunks@).take(i as int);
            assert(texts(chunks@).take(i as int + 1) == seen.push(chunk@));
            seen.lemma_filter_push(chunk@, over);
        }
        if chunk.as_str().as_bytes().len() > BYTE_CEILING {
            let copy = chunk.clone();
            proof {
                lemma_texts_push(found@, copy);
            }
            found.push(copy);
        }
        i = i + 1;
    }
    proof {
        assert(texts(chunks@).take(i as int) == texts(chunks@));
    }
    found
}

/// Packs `contents` as `adaptive_split` does and gives, beside the chunks,
/// those among them that take more than `BYTE_CEILING` bytes: each is a
/// single word that could not be cut.
pub fn adaptive_split_with_warnings(contents: Vec<String>, chunk_size: usize) -> (r: (
    Vec<String>,
    Vec<String>,
))
    ensures
        texts(r.0@) == split_all(Granularity::Paragraph, texts(contents@), chunk_size as nat),
        all_sound(texts(r.0@), chunk_size as nat),
        texts(r.1@) == texts(r.0@).filter(|c: Seq<char>| over_ceiling(c)),
        forall|i: int| 0 <= i < r.1@.len() ==> is_token(#[trigger] texts(r.1@)[i]),
{
    let chunks = adaptive_split(contents, chunk_size);
    let warnings = oversized_chunks(&chunks);
    proof {
        let over = |c: Seq<char>| over_ceiling(c);
        let all = texts(chunks@);
        let found = texts(warnings@);
        assert forall|i: int| 0 <= i < warnings@.len() implies is_token(#[trigger] found[i]) by {
            all.lemma_filter_pred(over, i);
            assert(found.contains(found[i]));
            all.lemma_filter_contains_rev(over, found[i]);
            let j = choose|j: int| 0 <= j < all.len() && all[j] == found[i];
            assert(sound_chunk(all[j], chunk_size as nat));
        }
    }
    (chunks, warnings)
}

} // verus!
