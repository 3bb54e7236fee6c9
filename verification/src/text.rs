//! Text handling: white space, words, sentences, labels.
use vstd::prelude::*;
use vstd::string::{StrSliceExecFns, StringExecFns};

verus! {

/// White space, as Unicode defines it.
pub open spec fn white(c: char) -> bool {
    ||| 0x09 <= c as u32 <= 0x0d
    ||| c as u32 == 0x20
    ||| c as u32 == 0x85
    ||| c as u32 == 0xa0
    ||| c as u32 == 0x1680
    ||| 0x2000 <= c as u32 <= 0x200a
    ||| c as u32 == 0x2028
    ||| c as u32 == 0x2029
    ||| c as u32 == 0x202f
    ||| c as u32 == 0x205f
    ||| c as u32 == 0x3000
}

/// `s` without the white space at its start.
pub open spec fn trimmed_start(s: Seq<char>) -> Seq<char>
    decreases s.len(),
{
    if s.len() > 0 && white(s[0]) {
        trimmed_start(s.skip(1))
    } else {
        s
    }
}

/// `s` without the white space at its end.
pub open spec fn trimmed_end(s: Seq<char>) -> Seq<char>
    decreases s.len(),
{
    if s.len() > 0 && white(s.last()) {
        trimmed_end(s.drop_last())
    } else {
        s
    }
}

/// `s` without the white space at both ends.
pub open spec fn trimmed(s: Seq<char>) -> Seq<char> {
    trimmed_end(trimmed_start(s))
}

/// The number of words: of places where a character that is not white space stands at
/// the start or behind white space.
pub open spec fn word_count(s: Seq<char>) -> nat
    decreases s.len(),
{
    if s.len() == 0 {
        0
    } else {
        let starts = !white(s.last()) && (s.len() == 1 || white(s[s.len() - 2]));
        word_count(s.drop_last()) + if starts {
            1nat
        } else {
            0nat
        }
    }
}

/// Whether a character ends a sentence.
pub open spec fn sentence_end(c: char) -> bool {
    c == '.' || c == '!' || c == '?'
}

/// The length of the part of `s` up to and with the first end of a sentence.
pub open spec fn first_sentence(s: Seq<char>) -> nat
    decreases s.len(),
{
    if s.len() == 0 {
        0
    } else if sentence_end(s[0]) {
        1
    } else {
        1 + first_sentence(s.skip(1))
    }
}

/// The sentences of a text, without the white space around them; what is left behind
/// the last end of a sentence counts as one. Blank ones are left out.
pub open spec fn sentences(s: Seq<char>) -> Seq<Seq<char>>
    decreases s.len(),
{
    let k = first_sentence(s);
    if s.len() == 0 || k == 0 || k > s.len() {
        Seq::empty()
    } else {
        let t = trimmed(s.take(k as int));
        let rest = sentences(s.skip(k as int));
        if t.len() == 0 {
            rest
        } else {
            seq![t] + rest
        }
    }
}

/// The parts one behind the other, with a space between two.
pub open spec fn joined(parts: Seq<Seq<char>>) -> Seq<char>
    decreases parts.len(),
{
    if parts.len() == 0 {
        Seq::empty()
    } else if parts.len() == 1 {
        parts[0]
    } else {
        joined(parts.drop_last()).push(' ') + parts.last()
    }
}

/// The characters of each text.
pub open spec fn texts(v: Seq<String>) -> Seq<Seq<char>> {
    v.map_values(|t: String| t@)
}

pub open spec fn digit(d: nat) -> char {
    if d == 0 {
        '0'
    } else if d == 1 {
        '1'
    } else if d == 2 {
        '2'
    } else if d == 3 {
        '3'
    } else if d == 4 {
        '4'
    } else if d == 5 {
        '5'
    } else if d == 6 {
        '6'
    } else if d == 7 {
        '7'
    } else if d == 8 {
        '8'
    } else {
        '9'
    }
}

/// `n` in decimal notation.
pub open spec fn decimal(n: nat) -> Seq<char>
    decreases n,
{
    if n < 10 {
        seq![digit(n)]
    } else {
        decimal(n / 10).push(digit(n % 10))
    }
}

/// `n` in decimal notation, with at least two digits.
pub open spec fn decimal_two(n: nat) -> Seq<char> {
    if n < 10 {
        seq!['0', digit(n)]
    } else {
        decimal(n)
    }
}

pub fn is_white(c: char) -> (r: bool)
    ensures
        r == white(c),
{
    let u: u32 = c as u32;
    (0x09 <= u && u <= 0x0d) || u == 0x20 || u == 0x85 || u == 0xa0 || u == 0x1680 || (0x2000 <= u
        && u <= 0x200a) || u == 0x2028 || u == 0x2029 || u == 0x202f || u == 0x205f || u == 0x3000
}

fn is_sentence_end(c: char) -> (r: bool)
    ensures
        r == sentence_end(c),
{
    c == '.' || c == '!' || c == '?'
}

/// The characters of a text.
fn chars_of(s: &str) -> (r: Vec<char>)
    ensures
        r@ == s@,
{
    let mut v: Vec<char> = Vec::new();
    for c in it: s.chars()
        invariant
            v@ == it.seq().take(it.index() as int),
            it.seq() == s@,
    {
        v.push(c);
    }
    v
}

/// The bounds of what is left of `s[from..to]` without the white space at both ends.
fn trim_bounds(s: &Vec<char>, from: usize, to: usize) -> (r: (usize, usize))
    requires
        from <= to <= s.len(),
    ensures
        from <= r.0 <= r.1 <= to,
        s@.subrange(r.0 as int, r.1 as int) == trimmed(s@.subrange(from as int, to as int)),
{
    let mut a: usize = from;
    while a < to && is_white(s[a])
        invariant
            from <= a <= to <= s.len(),
            trimmed_start(s@.subrange(a as int, to as int)) == trimmed_start(
                s@.subrange(from as int, to as int),
            ),
        decreases to - a,
    {
        assert(s@.subrange(a as int, to as int).skip(1) =~= s@.subrange(a + 1, to as int));
        a = a + 1;
    }
    let ghost left = s@.subrange(a as int, to as int);
    assert(trimmed_start(s@.subrange(from as int, to as int)) == left);
    let mut b: usize = to;
    while b > a && is_white(s[b - 1])
        invariant
            a <= b <= to <= s.len(),
            trimmed_end(s@.subrange(a as int, b as int)) == trimmed_end(left),
        decreases b - a,
    {
        assert(s@.subrange(a as int, b as int).drop_last() =~= s@.subrange(a as int, b - 1));
        b = b - 1;
    }
    (a, b)
}

/// A text without the white space at both ends.
pub fn trim(s: &str) -> (r: String)
    ensures
        r@ == trimmed(s@),
{
    let v: Vec<char> = chars_of(s);
    let (a, b) = trim_bounds(&v, 0, v.len());
    assert(v@.subrange(0, v.len() as int) =~= s@);
    s.substring_char(a, b).to_owned()
}

/// Whether a text reads like another.
pub fn same_text(a: &String, b: &str) -> (r: bool)
    ensures
        r == (a@ == b@),
{
    *a == b.to_owned()
}

/// The number of words of a text.
pub fn count_words(s: &str) -> (r: usize)
    ensures
        r == word_count(s@),
        r <= s@.len(),
{
    let v: Vec<char> = chars_of(s);
    let mut n: usize = 0;
    let mut i: usize = 0;
    while i < v.len()
        invariant
            i <= v.len(),
            v@ == s@,
            n == word_count(s@.take(i as int)),
            n <= i,
        decreases v.len() - i,
    {
        assert(s@.take(i + 1).drop_last() =~= s@.take(i as int));
        if !is_white(v[i]) && (i == 0 || is_white(v[i - 1])) {
            n = n + 1;
        }
        i = i + 1;
    }
    assert(s@.take(i as int) =~= s@);
    n
}

/// The sentences of a text.
pub fn sentence_chunks(s: &str) -> (r: Vec<String>)
    ensures
        texts(r@) == sentences(s@),
{
    let v: Vec<char> = chars_of(s);
    let mut out: Vec<String> = Vec::new();
    let mut start: usize = 0;
    assert(s@.skip(0) =~= s@);
    assert(texts(out@) + sentences(s@) =~= sentences(s@));
    while start < v.len()
        invariant
            start <= v.len(),
            v@ == s@,
            texts(out@) + sentences(s@.skip(start as int)) == sentences(s@),
        decreases v.len() - start,
    {
        let mut end: usize = start;
        let ghost rest = s@.skip(start as int);
        assert(rest.skip(0) =~= rest);
        while end < v.len() && !is_sentence_end(v[end])
            invariant
                start <= end <= v.len(),
                v@ == s@,
                rest == s@.skip(start as int),
                first_sentence(rest) == end - start + first_sentence(rest.skip(end - start)),
            decreases v.len() - end,
        {
            assert(rest.skip(end - start).skip(1) =~= rest.skip(end + 1 - start));
            end = end + 1;
        }
        if end < v.len() {
            end = end + 1;
        }
        assert(first_sentence(rest) == end - start);
        let (a, b) = trim_bounds(&v, start, end);
        assert(rest.take(end - start) =~= s@.subrange(start as int, end as int));
        assert(rest.skip(end - start) =~= s@.skip(end as int));
        let ghost before = texts(out@);
        if a < b {
            out.push(s.substring_char(a, b).to_owned());
            proof {
                let t = trimmed(rest.take(end - start));
                assert(texts(out@) =~= before.push(t));
                assert(before.push(t) + sentences(s@.skip(end as int)) =~= before + (seq![t]
                    + sentences(s@.skip(end as int))));
            }
        }
        start = end;
    }
    assert(texts(out@) + sentences(s@.skip(start as int)) =~= texts(out@));
    out
}

/// The texts from `from` up to `to`, with a space between two.
pub fn join_range(parts: &Vec<String>, from: usize, to: usize) -> (r: String)
    requires
        from <= to <= parts.len(),
    ensures
        r@ == joined(texts(parts@).subrange(from as int, to as int)),
{
    let mut out: String = String::new();
    let mut i: usize = from;
    let ghost all = texts(parts@);
    assert(all.subrange(from as int, from as int) =~= Seq::empty());
    while i < to
        invariant
            from <= i <= to <= parts.len(),
            all == texts(parts@),
            out@ == joined(all.subrange(from as int, i as int)),
        decreases to - i,
    {
        let ghost prev = all.subrange(from as int, i as int);
        let ghost next = all.subrange(from as int, i + 1);
        proof {
            assert(next.drop_last() =~= prev);
            assert(next.last() == parts@[i as int]@);
            reveal_strlit(" ");
            assert(" "@ =~= seq![' ']);
            assert(joined(prev).push(' ') =~= joined(prev) + seq![' ']);
        }
        if i > from {
            out.append(" ");
        }
        let ghost mid = out@;
        out.append(parts[i].as_str());
        proof {
            if i == from {
                assert(mid =~= Seq::empty());
                assert(out@ =~= parts@[i as int]@);
                assert(joined(next) == next[0]);
            }
        }
        i = i + 1;
    }
    out
}

fn digit_text(d: u32) -> (r: &'static str)
    requires
        d < 10,
    ensures
        r@ == seq![digit(d as nat)],
{
    proof {
        reveal_strlit("0");
        reveal_strlit("1");
        reveal_strlit("2");
        reveal_strlit("3");
        reveal_strlit("4");
        reveal_strlit("5");
        reveal_strlit("6");
        reveal_strlit("7");
        reveal_strlit("8");
        reveal_strlit("9");
    }
    let r: &'static str = if d == 0 {
        "0"
    } else if d == 1 {
        "1"
    } else if d == 2 {
        "2"
    } else if d == 3 {
        "3"
    } else if d == 4 {
        "4"
    } else if d == 5 {
        "5"
    } else if d == 6 {
        "6"
    } else if d == 7 {
        "7"
    } else if d == 8 {
        "8"
    } else {
        "9"
    };
    assert(r@ =~= seq![digit(d as nat)]);
    r
}

/// `n` in decimal notation.
fn decimal_text(n: u32) -> (r: String)
    ensures
        r@ == decimal(n as nat),
    decreases n,
{
    if n < 10 {
        digit_text(n).to_owned()
    } else {
        let mut s: String = decimal_text(n / 10);
        s.append(digit_text(n % 10));
        assert(s@ =~= decimal((n / 10) as nat).push(digit((n % 10) as nat)));
        s
    }
}

/// `n` in decimal notation, with at least two digits.
pub fn two_digits(n: u32) -> (r: String)
    ensures
        r@ == decimal_two(n as nat),
{
    if n < 10 {
        let mut s: String = digit_text(0).to_owned();
        s.append(digit_text(n));
        assert(s@ =~= seq!['0', digit(n as nat)]);
        s
    } else {
        decimal_text(n)
    }
}

} // verus!
