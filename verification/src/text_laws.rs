//! What taking texts apart and putting them together keeps.
use vstd::prelude::*;
use crate::text::{
    decimal, decimal_two, first_sentence, joined, sentence_end, sentences, trimmed, trimmed_end,
    trimmed_start, white, word_count,
};

verus! {

/// A text that is not empty and has no white space at its ends.
pub open spec fn clean(t: Seq<char>) -> bool {
    t.len() > 0 && !white(t[0]) && !white(t.last())
}

/// What is left of a text without any white space.
pub open spec fn solid(s: Seq<char>) -> Seq<char>
    decreases s.len(),
{
    if s.len() == 0 {
        s
    } else if white(s.last()) {
        solid(s.drop_last())
    } else {
        solid(s.drop_last()).push(s.last())
    }
}

proof fn lemma_trimmed_start(s: Seq<char>)
    ensures
        trimmed_start(s).len() > 0 ==> !white(trimmed_start(s)[0]),
    decreases s.len(),
{
    if s.len() > 0 && white(s[0]) {
        lemma_trimmed_start(s.skip(1));
    }
}

proof fn lemma_trimmed_end(s: Seq<char>)
    ensures
        trimmed_end(s).len() > 0 ==> !white(trimmed_end(s).last()) && trimmed_end(s)[0] == s[0],
    decreases s.len(),
{
    if s.len() > 0 && white(s.last()) {
        lemma_trimmed_end(s.drop_last());
    }
}

proof fn lemma_trimmed_clean(s: Seq<char>)
    requires
        trimmed(s).len() > 0,
    ensures
        clean(trimmed(s)),
{
    lemma_trimmed_start(s);
    lemma_trimmed_end(trimmed_start(s));
    assert(trimmed_start(s).len() > 0) by {
        if trimmed_start(s).len() == 0 {
            assert(trimmed_end(trimmed_start(s)).len() == 0);
        }
    }
}

/// Sentences are not empty and have no white space at their ends.
pub proof fn lemma_sentences_clean(s: Seq<char>)
    ensures
        forall|i: int| 0 <= i < sentences(s).len() ==> clean(#[trigger] sentences(s)[i]),
    decreases s.len(),
{
    let k = first_sentence(s);
    if s.len() == 0 || k == 0 || k > s.len() {
    } else {
        let t = trimmed(s.take(k as int));
        let rest = sentences(s.skip(k as int));
        lemma_sentences_clean(s.skip(k as int));
        if t.len() > 0 {
            lemma_trimmed_clean(s.take(k as int));
            assert forall|i: int| 0 <= i < sentences(s).len() implies clean(
                #[trigger] sentences(s)[i],
            ) by {
                if i > 0 {
                    assert(sentences(s)[i] == rest[i - 1]);
                }
            }
        }
    }
}

/// Clean parts, joined, are clean.
pub proof fn lemma_joined_clean(parts: Seq<Seq<char>>)
    requires
        parts.len() > 0,
        forall|i: int| #![trigger parts[i]] 0 <= i < parts.len() ==> clean(parts[i]),
    ensures
        clean(joined(parts)),
    decreases parts.len(),
{
    if parts.len() > 1 {
        let front = parts.drop_last();
        lemma_joined_clean(front);
        assert(clean(parts.last()));
        let a = joined(front).push(' ');
        let all = a + parts.last();
        assert(all[0] == joined(front)[0]);
        assert(all.last() == parts.last().last());
    } else {
        assert(clean(parts[0]));
    }
}

/// Parts are joined in the same way in one go and in two.
pub proof fn lemma_joined_append(a: Seq<Seq<char>>, b: Seq<Seq<char>>)
    requires
        a.len() > 0,
        b.len() > 0,
    ensures
        joined(a + b) == joined(a).push(' ') + joined(b),
    decreases b.len(),
{
    if b.len() == 1 {
        assert((a + b).drop_last() =~= a);
    } else {
        assert((a + b).drop_last() =~= a + b.drop_last());
        lemma_joined_append(a, b.drop_last());
        assert((joined(a).push(' ') + joined(b.drop_last())).push(' ') + b.last() =~= joined(
            a,
        ).push(' ') + (joined(b.drop_last()).push(' ') + b.last()));
    }
}

pub proof fn lemma_solid_append(a: Seq<char>, b: Seq<char>)
    ensures
        solid(a + b) == solid(a) + solid(b),
    decreases b.len(),
{
    if b.len() == 0 {
        assert(a + b =~= a);
        assert(solid(a) + solid(b) =~= solid(a));
    } else {
        assert((a + b).drop_last() =~= a + b.drop_last());
        lemma_solid_append(a, b.drop_last());
        if !white(b.last()) {
            assert((solid(a) + solid(b.drop_last())).push(b.last()) =~= solid(a) + solid(
                b.drop_last(),
            ).push(b.last()));
        }
    }
}

proof fn lemma_solid_start(s: Seq<char>)
    ensures
        solid(trimmed_start(s)) == solid(s),
    decreases s.len(),
{
    if s.len() > 0 && white(s[0]) {
        lemma_solid_start(s.skip(1));
        lemma_solid_append(s.take(1), s.skip(1));
        assert(s.take(1) + s.skip(1) =~= s);
        assert(s.take(1).drop_last() =~= Seq::empty());
        assert(solid(s.take(1).drop_last()) =~= Seq::empty());
        assert(s.take(1).last() == s[0]);
        assert(Seq::<char>::empty() + solid(s.skip(1)) =~= solid(s.skip(1)));
    }
}

proof fn lemma_solid_end(s: Seq<char>)
    ensures
        solid(trimmed_end(s)) == solid(s),
    decreases s.len(),
{
    if s.len() > 0 && white(s.last()) {
        lemma_solid_end(s.drop_last());
    }
}

proof fn lemma_first_sentence(s: Seq<char>)
    requires
        s.len() > 0,
    ensures
        1 <= first_sentence(s) <= s.len(),
    decreases s.len(),
{
    if !sentence_end(s[0]) {
        if s.len() > 1 {
            lemma_first_sentence(s.skip(1));
        } else {
            assert(first_sentence(s.skip(1)) == 0);
        }
    }
}

/// Taking a text apart into sentences and joining them loses nothing but white space.
pub proof fn law_sentences_keep_words(s: Seq<char>)
    ensures
        solid(joined(sentences(s))) == solid(s),
    decreases s.len(),
{
    if s.len() > 0 {
        lemma_first_sentence(s);
        let k = first_sentence(s) as int;
        let t = trimmed(s.take(k));
        let rest = sentences(s.skip(k));
        law_sentences_keep_words(s.skip(k));
        lemma_solid_start(s.take(k));
        lemma_solid_end(trimmed_start(s.take(k)));
        lemma_solid_append(s.take(k), s.skip(k));
        assert(s.take(k) + s.skip(k) =~= s);
        if t.len() == 0 {
            assert(Seq::<char>::empty() + solid(s.skip(k)) =~= solid(s.skip(k)));
        } else if rest.len() == 0 {
            assert(seq![t] + rest =~= seq![t]);
            assert(solid(s.take(k)) + Seq::<char>::empty() =~= solid(s.take(k)));
        } else {
            lemma_joined_append(seq![t], rest);
            lemma_solid_append(t.push(' '), joined(rest));
            assert(t.push(' ').drop_last() =~= t);
            assert(solid(t.push(' ')) == solid(t));
        }
    }
}

/// All of a text is white space.
pub open spec fn blank(s: Seq<char>) -> bool {
    forall|i: int| #![trigger s[i]] 0 <= i < s.len() ==> white(s[i])
}

proof fn lemma_start_of(s: Seq<char>) -> (i: int)
    ensures
        0 <= i <= s.len(),
        trimmed_start(s) == s.skip(i),
        blank(s.take(i)),
    decreases s.len(),
{
    if s.len() > 0 && white(s[0]) {
        let j = lemma_start_of(s.skip(1));
        assert(s.skip(1).skip(j) =~= s.skip(j + 1));
        assert forall|x: int| #![trigger s.take(j + 1)[x]] 0 <= x < j + 1 implies white(
            s.take(j + 1)[x],
        ) by {
            if x > 0 {
                assert(white(s.skip(1).take(j)[x - 1]));
            }
        }
        j + 1
    } else {
        assert(s.skip(0) =~= s);
        0
    }
}

proof fn lemma_end_of(s: Seq<char>) -> (j: int)
    ensures
        0 <= j <= s.len(),
        trimmed_end(s) == s.take(j),
        blank(s.skip(j)),
    decreases s.len(),
{
    if s.len() > 0 && white(s.last()) {
        let j = lemma_end_of(s.drop_last());
        assert(s.drop_last().take(j) =~= s.take(j));
        assert forall|x: int| #![trigger s.skip(j)[x]] 0 <= x < s.len() - j implies white(
            s.skip(j)[x],
        ) by {
            if x < s.len() - 1 - j {
                assert(white(s.drop_last().skip(j)[x]));
            }
        }
        j
    } else {
        assert(s.take(s.len() as int) =~= s);
        s.len() as int
    }
}

/// Trimming takes white space away at both ends and nothing else: what is left stands in the
/// text from `r.0` to `r.1`, has no white space at its ends, and around it is only white
/// space. Nothing is left exactly of a text that is all white space.
pub proof fn law_trimming_takes_white_space_only(s: Seq<char>) -> (r: (int, int))
    ensures
        0 <= r.0 <= r.1 <= s.len(),
        trimmed(s) == s.subrange(r.0, r.1),
        blank(s.take(r.0)),
        blank(s.skip(r.1)),
        trimmed(s).len() > 0 ==> clean(trimmed(s)),
        trimmed(s).len() == 0 <==> blank(s),
{
    let i = lemma_start_of(s);
    let t = trimmed_start(s);
    let j = lemma_end_of(t);
    assert(t.take(j) =~= s.subrange(i, i + j));
    assert(t.skip(j) =~= s.skip(i + j));
    if trimmed(s).len() > 0 {
        lemma_trimmed_clean(s);
        assert(!white(trimmed(s)[0]));
        assert(trimmed(s)[0] == s[i]);
    } else {
        assert forall|x: int| #![trigger s[x]] 0 <= x < s.len() implies white(s[x]) by {
            if x < i {
                assert(white(s.take(i)[x]));
            } else {
                assert(j == 0);
                assert(white(s.skip(i + j)[x - i - j]));
            }
        }
    }
    (i, i + j)
}

/// A full stop, an exclamation mark or a question mark.
pub open spec fn stop(c: char) -> bool {
    c == '.' || c == '!' || c == '?'
}

/// One sentence: no stop but perhaps at the end.
pub open spec fn one_sentence(t: Seq<char>) -> bool {
    forall|j: int| #![trigger t[j]] 0 <= j < t.len() - 1 ==> !stop(t[j])
}

proof fn lemma_first_sentence_stops(s: Seq<char>)
    requires
        s.len() > 0,
    ensures
        1 <= first_sentence(s) <= s.len(),
        one_sentence(s.take(first_sentence(s) as int)),
        first_sentence(s) < s.len() ==> stop(s[first_sentence(s) - 1]),
    decreases s.len(),
{
    lemma_first_sentence(s);
    let k = first_sentence(s) as int;
    if !sentence_end(s[0]) && s.len() > 1 {
        let rest = s.skip(1);
        lemma_first_sentence_stops(rest);
        assert forall|j: int| #![trigger s.take(k)[j]] 0 <= j < k - 1 implies !stop(
            s.take(k)[j],
        ) by {
            if j > 0 {
                assert(rest.take(k - 1)[j - 1] == s.take(k)[j]);
            }
        }
        if k < s.len() {
            assert(rest[k - 2] == s[k - 1]);
        }
    }
}

proof fn lemma_trimmed_sentence(t: Seq<char>)
    requires
        one_sentence(t),
    ensures
        one_sentence(trimmed(t)),
        t.len() > 0 && stop(t.last()) ==> trimmed(t).len() > 0 && stop(trimmed(t).last()),
{
    let (a, b) = law_trimming_takes_white_space_only(t);
    let u = trimmed(t);
    assert forall|j: int| #![trigger u[j]] 0 <= j < u.len() - 1 implies !stop(u[j]) by {
        assert(u[j] == t[a + j]);
    }
    if t.len() > 0 && stop(t.last()) {
        assert(!white(t[t.len() - 1]));
        assert(b == t.len()) by {
            if b < t.len() {
                assert(white(t.skip(b)[t.len() - 1 - b]));
            }
        }
        assert(a < t.len()) by {
            if a >= t.len() {
                assert(white(t.take(a)[t.len() - 1]));
            }
        }
        assert(u.last() == t[t.len() - 1]);
    }
}

/// A text is taken apart at its stops: every sentence has no stop but at its end, and every
/// sentence but the last one ends with one.
pub proof fn law_sentences_end_at_stops(s: Seq<char>)
    ensures
        forall|i: int|
            #![trigger sentences(s)[i]]
            0 <= i < sentences(s).len() ==> one_sentence(sentences(s)[i]) && (i + 1
                < sentences(s).len() ==> stop(sentences(s)[i].last())),
    decreases s.len(),
{
    if s.len() > 0 {
        let k = first_sentence(s) as int;
        lemma_first_sentence_stops(s);
        let head = s.take(k);
        let t = trimmed(head);
        let rest = sentences(s.skip(k));
        law_sentences_end_at_stops(s.skip(k));
        lemma_trimmed_sentence(head);
        let all = sentences(s);
        assert forall|i: int| #![trigger all[i]] 0 <= i < all.len() implies one_sentence(all[i])
            && (i + 1 < all.len() ==> stop(all[i].last())) by {
            if t.len() == 0 {
                assert(all[i] == rest[i]);
            } else if i > 0 {
                assert(all[i] == rest[i - 1]);
            } else if all.len() > 1 {
                assert(rest.len() > 0);
                assert(s.skip(k).len() > 0);
                assert(head.last() == s[k - 1]);
            }
        }
    }
}

/// The words on both sides of a white space add up, and what has no white space in it is one
/// word.
pub proof fn law_words_are_parted_by_white_space(a: Seq<char>, c: char, b: Seq<char>)
    requires
        white(c),
    ensures
        word_count(a.push(c) + b) == word_count(a) + word_count(b),
        b.len() > 0 && (forall|i: int| #![trigger b[i]] 0 <= i < b.len() ==> !white(b[i]))
            ==> word_count(b) == 1,
    decreases b.len(),
{
    let s = a.push(c) + b;
    if b.len() == 0 {
        assert(s =~= a.push(c));
        assert(a.push(c).drop_last() =~= a);
    } else {
        let front = b.drop_last();
        law_words_are_parted_by_white_space(a, c, front);
        assert(s.drop_last() =~= a.push(c) + front);
        assert(s.last() == b.last());
        if b.len() == 1 {
            assert(s[s.len() - 2] == c);
            assert(word_count(front) == 0);
        } else {
            assert(s[s.len() - 2] == b[b.len() - 2]);
            if forall|i: int| #![trigger b[i]] 0 <= i < b.len() ==> !white(b[i]) {
                assert forall|i: int| #![trigger front[i]] 0 <= i < front.len() implies !white(
                    front[i],
                ) by {
                    assert(front[i] == b[i]);
                }
                assert(!white(b[b.len() - 2]));
            }
        }
    }
}

/// Texts are joined with one space between two of them.
pub proof fn law_texts_are_joined_with_spaces(a: Seq<Seq<char>>, b: Seq<Seq<char>>)
    ensures
        a.len() > 0 && b.len() > 0 ==> joined(a + b) == joined(a).push(' ') + joined(b),
        a.len() == 1 ==> joined(a) == a[0],
        a.len() == 0 ==> joined(a).len() == 0,
{
    if a.len() > 0 && b.len() > 0 {
        lemma_joined_append(a, b);
    }
}

/// The number that digits stand for.
pub open spec fn number_of(s: Seq<char>) -> int
    decreases s.len(),
{
    if s.len() == 0 {
        0
    } else {
        10 * number_of(s.drop_last()) + (s.last() as int - '0' as int)
    }
}

proof fn lemma_decimal(n: nat)
    ensures
        number_of(decimal(n)) == n,
        n >= 10 ==> decimal(n).len() >= 2,
        n < 100 ==> decimal(n).len() <= 2,
    decreases n,
{
    reveal_with_fuel(number_of, 2);
    if n >= 10 {
        lemma_decimal(n / 10);
        assert(decimal(n).drop_last() =~= decimal(n / 10));
        if n < 100 {
            assert(decimal(n / 10).len() == 1);
        }
    } else {
        assert(decimal(n).drop_last() =~= Seq::empty());
    }
}

/// A number is written with at least two digits, with no more than it takes beyond that, and
/// the digits stand for it.
pub proof fn law_numbers_are_written_with_two_digits(n: nat)
    ensures
        number_of(decimal_two(n)) == n,
        decimal_two(n).len() >= 2,
        n < 100 ==> decimal_two(n).len() == 2,
{
    lemma_decimal(n);
    if n < 10 {
        reveal_with_fuel(number_of, 3);
        assert(decimal_two(n).drop_last() =~= seq!['0']);
        assert(seq!['0'].drop_last() =~= Seq::empty());
    }
}

proof fn lemma_first_of_two(a: Seq<char>, b: Seq<char>)
    requires
        a.len() > 0,
        stop(a.last()),
    ensures
        first_sentence(a + b) == first_sentence(a),
        1 <= first_sentence(a) <= a.len(),
    decreases a.len(),
{
    let s = a + b;
    lemma_first_sentence(a);
    assert(s[0] == a[0]);
    if !sentence_end(a[0]) {
        assert(a.len() > 1);
        assert(s.skip(1) =~= a.skip(1) + b);
        lemma_first_of_two(a.skip(1), b);
    }
}

/// A text that ends with a stop and another text are taken apart one behind the other, and a
/// text without a stop, but perhaps at its end, is one sentence as it stands, without the
/// white space around it; none where it is blank.
pub proof fn law_texts_are_taken_apart_one_by_one(a: Seq<char>, b: Seq<char>)
    ensures
        a.len() > 0 && stop(a.last()) ==> sentences(a + b) == sentences(a) + sentences(b),
        one_sentence(b) ==> sentences(b) == if blank(b) {
            Seq::empty()
        } else {
            seq![trimmed(b)]
        },
    decreases a.len(),
{
    if a.len() > 0 && stop(a.last()) {
        let s = a + b;
        lemma_first_of_two(a, b);
        let k = first_sentence(a) as int;
        assert(s.take(k) =~= a.take(k));
        assert(s.skip(k) =~= a.skip(k) + b);
        let rest = a.skip(k);
        if rest.len() > 0 {
            assert(rest.last() == a.last());
            law_texts_are_taken_apart_one_by_one(rest, b);
        } else {
            assert(s.skip(k) =~= b);
            assert(sentences(rest) =~= Seq::empty());
            assert(Seq::<Seq<char>>::empty() + sentences(b) =~= sentences(b));
        }
        let t = trimmed(a.take(k));
        if t.len() > 0 {
            assert((seq![t] + sentences(rest)) + sentences(b) =~= seq![t] + (sentences(rest)
                + sentences(b)));
        }
    }
    if one_sentence(b) {
        lemma_one_sentence(b);
    }
}

proof fn lemma_one_sentence(b: Seq<char>)
    requires
        one_sentence(b),
    ensures
        sentences(b) == if blank(b) {
            Seq::empty()
        } else {
            seq![trimmed(b)]
        },
{
    let r = law_trimming_takes_white_space_only(b);
    if b.len() > 0 {
        lemma_first_sentence_stops(b);
        let k = first_sentence(b) as int;
        assert(k == b.len()) by {
            if k < b.len() {
                assert(stop(b[k - 1]));
            }
        }
        assert(b.take(k) =~= b);
        assert(b.skip(k) =~= Seq::empty());
        assert(sentences(b.skip(k)) =~= Seq::empty());
        assert(seq![trimmed(b)] + Seq::<Seq<char>>::empty() =~= seq![trimmed(b)]);
    }
}

/// Spaces, tabs and the ends of lines are white space; what can be seen of ASCII is not.
pub proof fn law_white_space_cannot_be_seen(c: char)
    ensures
        c == ' ' || c == '\t' || c == '\n' || c == '\r' ==> white(c),
        0x21 <= c as u32 <= 0x7e ==> !white(c),
        stop(c) ==> !white(c),
{
}

} // verus!
