//! Words: the maximal runs of non-whitespace characters of a text, and the
//! operations built on them: counting, splitting, joining, trimming and
//! whitespace normalization.

use crate::chars::{char_texts, is_space, is_whitespace};
use vstd::prelude::*;

verus! {

/// A token is a non-empty text that holds no whitespace.
pub open spec fn is_token(s: Seq<char>) -> bool {
    s.len() > 0 && forall|i: int| 0 <= i < s.len() ==> !is_space(#[trigger] s[i])
}

/// Every element of `ws` is a token.
pub open spec fn all_tokens(ws: Seq<Seq<char>>) -> bool {
    forall|i: int| 0 <= i < ws.len() ==> is_token(#[trigger] ws[i])
}

/// The words of `s`: its maximal runs of non-whitespace characters, in order.
///
/// Defined by the last character: whitespace adds nothing, a character that
/// follows a non-whitespace character extends the last word, and any other
/// character starts a new word.
pub open spec fn words(s: Seq<char>) -> Seq<Seq<char>>
    decreases s.len(),
{
    if s.len() == 0 {
        Seq::empty()
    } else {
        let before = words(s.drop_last());
        let c = s.last();
        if is_space(c) {
            before
        } else if s.len() >= 2 && !is_space(s[s.len() - 2]) {
            before.drop_last().push(before.last().push(c))
        } else {
            before.push(seq![c])
        }
    }
}

/// The number of words of `s`.
pub open spec fn word_count(s: Seq<char>) -> nat {
    words(s).len()
}

/// The texts of `parts` with `sep` between neighbours.
pub open spec fn separated(parts: Seq<Seq<char>>, sep: char) -> Seq<char>
    decreases parts.len(),
{
    if parts.len() == 0 {
        Seq::empty()
    } else if parts.len() == 1 {
        parts[0]
    } else {
        separated(parts.drop_last(), sep) + seq![sep] + parts.last()
    }
}

/// The texts of `parts` with one space between neighbours.
pub open spec fn join(parts: Seq<Seq<char>>) -> Seq<char> {
    separated(parts, ' ')
}

/// `s` with every run of whitespace replaced by one space, and without
/// leading or trailing whitespace.
pub open spec fn normalized(s: Seq<char>) -> Seq<char> {
    join(words(s))
}

/// `s` without its leading whitespace.
pub open spec fn strip_start(s: Seq<char>) -> Seq<char>
    decreases s.len(),
{
    if s.len() > 0 && is_space(s[0]) {
        strip_start(s.drop_first())
    } else {
        s
    }
}

/// `s` without its trailing whitespace.
pub open spec fn strip_end(s: Seq<char>) -> Seq<char>
    decreases s.len(),
{
    if s.len() > 0 && is_space(s.last()) {
        strip_end(s.drop_last())
    } else {
        s
    }
}

/// `s` without its leading and trailing whitespace.
pub open spec fn trimmed(s: Seq<char>) -> Seq<char> {
    strip_end(strip_start(s))
}

/// How one more character changes the words of a text.
pub proof fn lemma_words_push(s: Seq<char>, c: char)
    ensures
        is_space(c) ==> words(s.push(c)) == words(s),
        !is_space(c) && s.len() > 0 && !is_space(s.last()) ==> words(s.push(c)) == words(
            s,
        ).drop_last().push(words(s).last().push(c)),
        !is_space(c) && (s.len() == 0 || is_space(s.last())) ==> words(s.push(c)) == words(
            s,
        ).push(seq![c]),
{
    assert(s.push(c).drop_last() == s);
}

/// A text that ends in a non-whitespace character has a last word, and that
/// word is a token.
pub proof fn lemma_words_open_tail(s: Seq<char>)
    requires
        s.len() > 0,
        !is_space(s.last()),
    ensures
        words(s).len() > 0,
    decreases s.len(),
{
    if s.len() >= 2 && !is_space(s[s.len() - 2]) {
        lemma_words_open_tail(s.drop_last());
    }
}

/// Every word is a token.
pub proof fn lemma_words_are_tokens(s: Seq<char>)
    ensures
        all_tokens(words(s)),
    decreases s.len(),
{
    if s.len() > 0 {
        let before = words(s.drop_last());
        let c = s.last();
        lemma_words_are_tokens(s.drop_last());
        if is_space(c) {
        } else if s.len() >= 2 && !is_space(s[s.len() - 2]) {
            lemma_words_open_tail(s.drop_last());
            let w = before.last().push(c);
            assert(is_token(before.last()));
            assert(is_token(w));
            assert forall|i: int| 0 <= i < words(s).len() implies is_token(
                #[trigger] words(s)[i],
            ) by {
                if i < before.len() - 1 {
                    assert(words(s)[i] == before[i]);
                }
            }
        } else {
            assert(is_token(seq![c]));
            assert forall|i: int| 0 <= i < words(s).len() implies is_token(
                #[trigger] words(s)[i],
            ) by {
                if i < before.len() {
                    assert(words(s)[i] == before[i]);
                }
            }
        }
    }
}

/// The words hold the non-whitespace characters of the text, in order, and
/// nothing else.
pub proof fn lemma_words_hold_the_text(s: Seq<char>)
    ensures
        words(s).flatten() == s.filter(|c: char| !is_space(c)),
    decreases s.len(),
{
    reveal(Seq::filter);
    if s.len() > 0 {
        lemma_words_hold_the_text(s.drop_last());
        let before = words(s.drop_last());
        let c = s.last();
        if is_space(c) {
        } else if s.len() >= 2 && !is_space(s[s.len() - 2]) {
            lemma_words_open_tail(s.drop_last());
            let init = before.drop_last();
            let w = before.last();
            assert(init.push(w) == before);
            init.lemma_flatten_push(w);
            init.lemma_flatten_push(w.push(c));
            assert(init.flatten() + w.push(c) == (init.flatten() + w).push(c));
        } else {
            before.lemma_flatten_push(seq![c]);
            assert(before.flatten() + seq![c] == before.flatten().push(c));
        }
    }
}

/// The words of a concatenation are the words of the parts, where whitespace
/// or an end of text stands at the seam.
pub proof fn lemma_words_concat(a: Seq<char>, b: Seq<char>)
    requires
        a.len() == 0 || is_space(a.last()) || b.len() == 0 || is_space(b[0]),
    ensures
        words(a + b) == words(a) + words(b),
    decreases b.len(),
{
    if b.len() == 0 {
        assert(a + b == a);
        assert(words(a) + words(b) == words(a));
    } else {
        let rest = b.drop_last();
        let c = b.last();
        assert(a + b == (a + rest).push(c));
        assert(b == rest.push(c));
        lemma_words_concat(a, rest);
        lemma_words_push(a + rest, c);
        lemma_words_push(rest, c);
        if is_space(c) {
        } else if rest.len() > 0 {
            assert((a + rest).last() == rest.last());
            if !is_space(rest.last()) {
                lemma_words_open_tail(rest);
                let x = words(a);
                let y = words(rest);
                assert((x + y).drop_last() == x + y.drop_last());
                assert((x + y).last() == y.last());
                assert((x + y.drop_last()).push(y.last().push(c)) == x + y.drop_last().push(
                    y.last().push(c),
                ));
            } else {
                assert((words(a) + words(rest)).push(seq![c]) == words(a) + words(rest).push(
                    seq![c],
                ));
            }
        } else {
            assert(a + rest == a);
            assert(words(rest) == Seq::<Seq<char>>::empty());
            assert(words(a).push(seq![c]) == words(a) + Seq::<Seq<char>>::empty().push(seq![c]));
        }
    }
}

/// The words of two texts put together with one whitespace character between
/// them are the words of the first, then those of the second.
pub proof fn lemma_words_spaced(a: Seq<char>, sep: char, b: Seq<char>)
    requires
        is_space(sep),
    ensures
        words(a + seq![sep] + b) == words(a) + words(b),
{
    lemma_words_push(a, sep);
    assert(a + seq![sep] == a.push(sep));
    lemma_words_concat(a + seq![sep], b);
}

/// A token is its own single word.
pub proof fn lemma_words_of_token(w: Seq<char>)
    requires
        is_token(w),
    ensures
        words(w) == seq![w],
    decreases w.len(),
{
    let rest = w.drop_last();
    let c = w.last();
    assert(w == rest.push(c));
    lemma_words_push(rest, c);
    if rest.len() == 0 {
        assert(words(rest) == Seq::<Seq<char>>::empty());
        assert(seq![c] == w);
        assert(Seq::<Seq<char>>::empty().push(seq![c]) == seq![w]);
    } else {
        assert(is_token(rest)) by {
            assert forall|i: int| 0 <= i < rest.len() implies !is_space(#[trigger] rest[i]) by {
                assert(rest[i] == w[i]);
            }
        }
        lemma_words_of_token(rest);
        assert(rest.last() == w[w.len() - 2]);
        assert(seq![rest].drop_last().push(seq![rest].last().push(c)) == seq![w]);
    }
}

/// The space between joined parts is whitespace.
pub proof fn lemma_blank_is_space()
    ensures
        is_space(' '),
{
}

/// Putting one more part behind the others.
pub proof fn lemma_separated_push(parts: Seq<Seq<char>>, w: Seq<char>, sep: char)
    ensures
        separated(parts.push(w), sep) == if parts.len() == 0 {
            w
        } else {
            separated(parts, sep) + seq![sep] + w
        },
{
    assert(parts.push(w).drop_last() == parts);
}

/// Joining with one more part.
pub proof fn lemma_join_push(parts: Seq<Seq<char>>, w: Seq<char>)
    ensures
        join(parts.push(w)) == if parts.len() == 0 {
            w
        } else {
            join(parts) + seq![' '] + w
        },
{
    lemma_separated_push(parts, w, ' ');
}

/// Joined tokens are empty only when there are none.
pub proof fn lemma_join_len(parts: Seq<Seq<char>>)
    requires
        all_tokens(parts),
    ensures
        join(parts).len() == 0 <==> parts.len() == 0,
{
    if parts.len() == 1 {
        assert(is_token(parts[0]));
    } else if parts.len() > 1 {
        assert(is_token(parts.last()));
    }
}

/// Splitting what was joined gives the parts back, when the parts are tokens.
pub proof fn lemma_words_of_join(parts: Seq<Seq<char>>)
    requires
        all_tokens(parts),
    ensures
        words(join(parts)) == parts,
    decreases parts.len(),
{
    if parts.len() == 0 {
    } else if parts.len() == 1 {
        assert(is_token(parts[0]));
        lemma_words_of_token(parts[0]);
        assert(seq![parts[0]] == parts);
    } else {
        let init = parts.drop_last();
        let w = parts.last();
        assert(all_tokens(init)) by {
            assert forall|i: int| 0 <= i < init.len() implies is_token(#[trigger] init[i]) by {
                assert(init[i] == parts[i]);
            }
        }
        assert(is_token(w));
        lemma_words_of_join(init);
        lemma_words_of_token(w);
        lemma_words_spaced(join(init), ' ', w);
        assert(init + seq![w] == parts);
    }
}

/// Normalizing keeps the words.
pub proof fn lemma_words_of_normalized(s: Seq<char>)
    ensures
        words(normalized(s)) == words(s),
{
    lemma_words_are_tokens(s);
    lemma_words_of_join(words(s));
}

/// Normalizing twice gives what normalizing once gives.
pub proof fn lemma_normalized_idempotent(s: Seq<char>)
    ensures
        normalized(normalized(s)) == normalized(s),
{
    lemma_words_of_normalized(s);
}

/// Stripping leading whitespace keeps the words.
pub proof fn lemma_words_of_strip_start(s: Seq<char>)
    ensures
        words(strip_start(s)) == words(s),
    decreases s.len(),
{
    if s.len() > 0 && is_space(s[0]) {
        lemma_words_of_strip_start(s.drop_first());
        let head = seq![s[0]];
        assert(head + s.drop_first() == s);
        lemma_words_concat(head, s.drop_first());
        lemma_words_push(Seq::<char>::empty(), s[0]);
        assert(Seq::<char>::empty().push(s[0]) == head);
        assert(words(head) + words(s.drop_first()) == words(s.drop_first()));
    }
}

/// Stripping trailing whitespace keeps the words.
pub proof fn lemma_words_of_strip_end(s: Seq<char>)
    ensures
        words(strip_end(s)) == words(s),
    decreases s.len(),
{
    if s.len() > 0 && is_space(s.last()) {
        lemma_words_of_strip_end(s.drop_last());
    }
}

/// Trimming keeps the words.
pub proof fn lemma_words_of_trimmed(s: Seq<char>)
    ensures
        words(trimmed(s)) == words(s),
{
    lemma_words_of_strip_start(s);
    lemma_words_of_strip_end(strip_start(s));
}

/// A text without words trims to nothing, and a text with words does not.
pub proof fn lemma_trimmed_len(s: Seq<char>)
    ensures
        trimmed(s).len() == 0 <==> word_count(s) == 0,
{
    lemma_words_of_trimmed(s);
    let t = trimmed(s);
    lemma_strip_end_tail(strip_start(s));
    if t.len() > 0 {
        lemma_words_open_tail(t);
    }
}

/// What is left after stripping trailing whitespace does not end in whitespace.
pub proof fn lemma_strip_end_tail(s: Seq<char>)
    ensures
        strip_end(s).len() > 0 ==> !is_space(strip_end(s).last()),
        strip_end(s).len() <= s.len(),
        strip_end(s) == s.take(strip_end(s).len() as int),
    decreases s.len(),
{
    if s.len() > 0 && is_space(s.last()) {
        lemma_strip_end_tail(s.drop_last());
        let n = strip_end(s).len() as int;
        assert(s.drop_last().take(n) == s.take(n));
    } else {
        assert(s.take(s.len() as int) == s);
    }
}

/// Counts the words of `s`.
pub fn count_words(s: &Vec<char>) -> (r: usize)
    ensures
        r == word_count(s@),
{
    let mut count: usize = 0;
    let mut in_word = false;
    let mut i: usize = 0;
    while i < s.len()
        invariant
            i <= s.len(),
            count == word_count(s@.take(i as int)),
            count <= i,
            in_word <==> i > 0 && !is_space(s@[i - 1]),
        decreases s.len() - i,
    {
        let c = s[i];
        proof {
            let prefix = s@.take(i as int);
            assert(s@.take(i as int + 1) == prefix.push(c));
            lemma_words_push(prefix, c);
            if in_word {
                lemma_words_open_tail(prefix);
            }
        }
        if is_whitespace(c) {
            in_word = false;
        } else {
            if !in_word {
                count = count + 1;
            }
            in_word = true;
        }
        i = i + 1;
    }
    proof {
        assert(s@.take(i as int) == s@);
    }
    count
}

/// Splits `s` into its words.
pub fn split_words(s: &Vec<char>) -> (r: Vec<Vec<char>>)
    ensures
        char_texts(r@) == words(s@),
{
    let mut done: Vec<Vec<char>> = Vec::new();
    let mut cur: Vec<char> = Vec::new();
    let mut i: usize = 0;
    while i < s.len()
        invariant
            i <= s.len(),
            cur@.len() > 0 <==> i > 0 && !is_space(s@[i - 1]),
            words(s@.take(i as int)) == if cur@.len() > 0 {
                char_texts(done@).push(cur@)
            } else {
                char_texts(done@)
            },
        decreases s.len() - i,
    {
        let c = s[i];
        proof {
            let prefix = s@.take(i as int);
            assert(s@.take(i as int + 1) == prefix.push(c));
            lemma_words_push(prefix, c);
        }
        if is_whitespace(c) {
            if cur.len() > 0 {
                let ghost before = char_texts(done@);
                let ghost word = cur@;
                done.push(cur);
                cur = Vec::new();
                proof {
                    assert(char_texts(done@) == before.push(word));
                }
            }
        } else {
            let ghost word = cur@;
            cur.push(c);
            proof {
                let d = char_texts(done@);
                if word.len() > 0 {
                    assert(d.push(word).drop_last() == d);
                } else {
                    assert(cur@ == seq![c]);
                }
            }
        }
        i = i + 1;
    }
    proof {
        assert(s@.take(i as int) == s@);
    }
    if cur.len() > 0 {
        let ghost before = char_texts(done@);
        let ghost word = cur@;
        done.push(cur);
        proof {
            assert(char_texts(done@) == before.push(word));
        }
    }
    done
}

/// The text of `parts[from..to]` with `sep` between neighbours.
pub fn separated_range(parts: &Vec<Vec<char>>, from: usize, to: usize, sep: char) -> (r: Vec<char>)
    requires
        from <= to <= parts.len(),
    ensures
        r@ == separated(char_texts(parts@).subrange(from as int, to as int), sep),
{
    let mut out: Vec<char> = Vec::new();
    let mut i: usize = from;
    while i < to
        invariant
            from <= i <= to <= parts.len(),
            out@ == separated(char_texts(parts@).subrange(from as int, i as int), sep),
        decreases to - i,
    {
        let ghost sofar = char_texts(parts@).subrange(from as int, i as int);
        let ghost glued = out@;
        if i > from {
            out.push(sep);
        }
        let part = &parts[i];
        let mut j: usize = 0;
        while j < part.len()
            invariant
                j <= part.len(),
                out@ == (if i > from {
                    glued.push(sep)
                } else {
                    glued
                }) + part@.take(j as int),
            decreases part.len() - j,
        {
            out.push(part[j]);
            j = j + 1;
            proof {
                assert(part@.take(j as int) == part@.take(j - 1).push(part@[j - 1]));
            }
        }
        proof {
            assert(part@.take(j as int) == part@);
            assert(char_texts(parts@).subrange(from as int, i as int + 1) == sofar.push(part@));
            lemma_separated_push(sofar, part@, sep);
            assert(glued.push(sep) + part@ == glued + seq![sep] + part@);
        }
        i = i + 1;
    }
    out
}

/// The text of `parts[from..to]` joined with single spaces.
pub fn join_range(parts: &Vec<Vec<char>>, from: usize, to: usize) -> (r: Vec<char>)
    requires
        from <= to <= parts.len(),
    ensures
        r@ == join(char_texts(parts@).subrange(from as int, to as int)),
{
    separated_range(parts, from, to, ' ')
}

/// `s` without its leading and trailing whitespace.
pub fn trim(s: &Vec<char>) -> (r: Vec<char>)
    ensures
        r@ == trimmed(s@),
{
    let mut start: usize = 0;
    proof {
        assert(s@.skip(0) == s@);
    }
    while start < s.len() && is_whitespace(s[start])
        invariant
            start <= s.len(),
            strip_start(s@) == strip_start(s@.skip(start as int)),
        decreases s.len() - start,
    {
        proof {
            assert(s@.skip(start as int).drop_first() == s@.skip(start as int + 1));
        }
        start = start + 1;
    }
    let mut end: usize = s.len();
    proof {
        assert(s@.subrange(start as int, end as int) == s@.skip(start as int));
    }
    while end > start && is_whitespace(s[end - 1])
        invariant
            start <= end <= s.len(),
            strip_start(s@) == strip_start(s@.skip(start as int)),
            start < s.len() ==> !is_space(s@[start as int]),
            trimmed(s@) == strip_end(s@.subrange(start as int, end as int)),
        decreases end,
    {
        proof {
            assert(s@.subrange(start as int, end as int).drop_last() == s@.subrange(
                start as int,
                end - 1,
            ));
        }
        end = end - 1;
    }
    let mut out: Vec<char> = Vec::new();
    let mut i: usize = start;
    while i < end
        invariant
            start <= i <= end <= s.len(),
            out@ == s@.subrange(start as int, i as int),
        decreases end - i,
    {
        out.push(s[i]);
        i = i + 1;
        proof {
            assert(s@.subrange(start as int, i as int) == s@.subrange(start as int, i - 1).push(
                s@[i - 1],
            ));
        }
    }
    out
}

/// Replaces every run of whitespace of `s` by one space and removes leading
/// and trailing whitespace. What comes out is left as it is when it goes in
/// again.
pub fn trim_whitespace(s: &str) -> (r: String)
    ensures
        r@ == normalized(s@),
        normalized(r@) == r@,
{
    proof {
        lemma_normalized_idempotent(s@);
    }
    let mut out = String::new();
    let mut in_word = false;
    let mut any = false;
    let chars_it = s.chars();
    for c in it: chars_it
        invariant
            it.seq() == s@,
            out@ == normalized(it.seq().take(it.index())),
            in_word <==> it.index() > 0 && !is_space(it.seq()[it.index() - 1]),
            any <==> words(it.seq().take(it.index())).len() > 0,
    {
        proof {
            let prefix = it.seq().take(it.index());
            assert(it.seq().take(it.index() + 1) == prefix.push(c));
            lemma_words_push(prefix, c);
            let ws = words(prefix);
            if !is_space(c) {
                if in_word {
                    lemma_words_open_tail(prefix);
                    lemma_join_push(ws.drop_last(), ws.last());
                    assert(ws.drop_last().push(ws.last()) == ws);
                    lemma_join_push(ws.drop_last(), ws.last().push(c));
                    assert(join(ws.drop_last()) + seq![' '] + ws.last().push(c) == (join(
                        ws.drop_last(),
                    ) + seq![' '] + ws.last()).push(c));
                } else {
                    lemma_join_push(ws, seq![c]);
                    assert(join(ws) + seq![' '] + seq![c] == join(ws).push(' ').push(c));
                    assert(Seq::<char>::empty().push(c) == seq![c]);
                    lemma_words_are_tokens(prefix);
                    lemma_join_len(ws);
                }
            }
        }
        if is_whitespace(c) {
            in_word = false;
        } else {
            if !in_word && any {
                out.push(' ');
            }
            out.push(c);
            in_word = true;
            any = true;
        }
    }
    proof {
        assert(s@.take(s@.len() as int) == s@);
    }
    out
}

} // verus!
