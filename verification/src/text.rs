//! Character sequences: counting a delimiter and cutting a sequence at each
//! occurrence of it.

use vstd::prelude::*;

verus! {

/// How often `c` occurs in `s`.
pub open spec fn count(s: Seq<char>, c: char) -> nat
    decreases s.len(),
{
    if s.len() == 0 {
        0
    } else {
        count(s.drop_last(), c) + if s.last() == c {
            1nat
        } else {
            0nat
        }
    }
}

/// The pieces of `s` between the occurrences of `sep`, in order. There is
/// one piece more than there are occurrences; a piece is empty where two
/// occurrences meet or where `s` begins or ends with one.
pub open spec fn split(s: Seq<char>, sep: char) -> Seq<Seq<char>>
    decreases s.len(),
{
    if s.len() == 0 {
        seq![Seq::<char>::empty()]
    } else {
        let before = split(s.drop_last(), sep);
        if s.last() == sep {
            before.push(Seq::<char>::empty())
        } else {
            before.update(before.len() - 1, before.last().push(s.last()))
        }
    }
}

/// Four pieces joined by a delimiter.
pub open spec fn join4(a: Seq<char>, b: Seq<char>, c: Seq<char>, d: Seq<char>, sep: char) -> Seq<
    char,
> {
    a + seq![sep] + b + seq![sep] + c + seq![sep] + d
}

/// The characters of `s`, in order.
pub fn chars_of(s: &str) -> (v: Vec<char>)
    ensures
        v@ == s@,
{
    let mut v: Vec<char> = Vec::new();
    for c in it: s.chars()
        invariant
            it.seq() == s@,
            v@ == s@.take(it.index() as int),
    {
        v.push(c);
    }
    v
}

/// Counts the occurrences of `c` in `s`.
pub fn count_char(s: &[char], c: char) -> (n: usize)
    ensures
        n == count(s@, c),
{
    let mut n: usize = 0;
    let mut i: usize = 0;
    while i < s.len()
        invariant
            i <= s.len(),
            n <= i,
            n == count(s@.take(i as int), c),
        decreases s.len() - i,
    {
        proof {
            assert(s@.take(i + 1).drop_last() == s@.take(i as int));
        }
        if s[i] == c {
            n = n + 1;
        }
        i = i + 1;
    }
    proof {
        assert(s@.take(i as int) == s@);
    }
    n
}

/// Cuts `s` at each occurrence of `sep` and returns, for each piece, where
/// it starts and where it ends in `s`.
pub fn piece_bounds(s: &[char], sep: char) -> (bounds: Vec<(usize, usize)>)
    ensures
        bounds@.len() == split(s@, sep).len(),
        forall|k: int|
            0 <= k < bounds@.len() ==> {
                &&& (#[trigger] bounds@[k]).0 <= bounds@[k].1 <= s@.len()
                &&& split(s@, sep)[k] == s@.subrange(bounds@[k].0 as int, bounds@[k].1 as int)
            },
{
    let mut bounds: Vec<(usize, usize)> = Vec::new();
    let mut start: usize = 0;
    let mut i: usize = 0;
    while i < s.len()
        invariant
            start <= i <= s.len(),
            split(s@.take(i as int), sep).len() == bounds@.len() + 1,
            split(s@.take(i as int), sep).last() == s@.subrange(start as int, i as int),
            forall|k: int|
                0 <= k < bounds@.len() ==> {
                    &&& (#[trigger] bounds@[k]).0 <= bounds@[k].1 <= s@.len()
                    &&& split(s@.take(i as int), sep)[k] == s@.subrange(
                        bounds@[k].0 as int,
                        bounds@[k].1 as int,
                    )
                },
        decreases s.len() - i,
    {
        proof {
            assert(s@.take(i + 1).drop_last() == s@.take(i as int));
            assert(s@.subrange(start as int, i + 1) == s@.subrange(start as int, i as int).push(
                s@[i as int],
            ));
            assert(s@.subrange(i + 1, i + 1) == Seq::<char>::empty());
        }
        if s[i] == sep {
            bounds.push((start, i));
            start = i + 1;
        }
        i = i + 1;
    }
    proof {
        assert(s@.take(i as int) == s@);
    }
    bounds.push((start, i));
    bounds
}

/// Cutting at a delimiter gives one piece more than there are occurrences of it.
pub proof fn lemma_split_len(s: Seq<char>, sep: char)
    ensures
        split(s, sep).len() == count(s, sep) + 1,
    decreases s.len(),
{
    if s.len() > 0 {
        lemma_split_len(s.drop_last(), sep);
    }
}

/// A character that does not occur is counted zero times, and the other way round.
pub proof fn lemma_count_zero(s: Seq<char>, c: char)
    ensures
        count(s, c) == 0 <==> !s.contains(c),
    decreases s.len(),
{
    if s.len() > 0 {
        lemma_count_zero(s.drop_last(), c);
        if s.last() == c {
            assert(s[s.len() - 1] == c);
        } else if s.contains(c) {
            let i = choose|i: int| 0 <= i < s.len() && s[i] == c;
            assert(s.drop_last()[i] == c);
        } else if s.drop_last().contains(c) {
            let i = choose|i: int| 0 <= i < s.drop_last().len() && s.drop_last()[i] == c;
            assert(s[i] == c);
        }
    }
}

/// A sequence of one character holds that character once and no other.
pub proof fn lemma_count_single(c: char, ch: char)
    ensures
        count(seq![c], ch) == if c == ch {
            1nat
        } else {
            0nat
        },
{
    assert(seq![c].drop_last() == Seq::<char>::empty());
    assert(count(seq![c].drop_last(), ch) == 0);
}

/// The occurrences in a concatenation are those in its two parts.
pub proof fn lemma_count_concat(x: Seq<char>, y: Seq<char>, c: char)
    ensures
        count(x + y, c) == count(x, c) + count(y, c),
    decreases y.len(),
{
    if y.len() == 0 {
        assert(x + y == x);
    } else {
        lemma_count_concat(x, y.drop_last(), c);
        assert((x + y).drop_last() == x + y.drop_last());
    }
}

/// The occurrences of a character in two sequences joined by a delimiter.
pub proof fn lemma_count_joined(x: Seq<char>, sep: char, y: Seq<char>, ch: char)
    ensures
        count(x + seq![sep] + y, ch) == count(x, ch) + count(y, ch) + if sep == ch {
            1nat
        } else {
            0nat
        },
{
    lemma_count_single(sep, ch);
    lemma_count_concat(x, seq![sep], ch);
    lemma_count_concat(x + seq![sep], y, ch);
}

/// The occurrences of a character in four joined pieces are those in the
/// pieces, and three more where the character is the delimiter.
pub proof fn lemma_count_join4(
    a: Seq<char>,
    b: Seq<char>,
    c: Seq<char>,
    d: Seq<char>,
    sep: char,
    ch: char,
)
    ensures
        count(join4(a, b, c, d, sep), ch) == count(a, ch) + count(b, ch) + count(c, ch) + count(
            d,
            ch,
        ) + if sep == ch {
            3nat
        } else {
            0nat
        },
{
    lemma_count_joined(a, sep, b, ch);
    lemma_count_joined(a + seq![sep] + b, sep, c, ch);
    lemma_count_joined(a + seq![sep] + b + seq![sep] + c, sep, d, ch);
}

/// A sequence without the delimiter is a single piece.
pub proof fn lemma_split_whole(s: Seq<char>, sep: char)
    requires
        count(s, sep) == 0,
    ensures
        split(s, sep) == seq![s],
    decreases s.len(),
{
    if s.len() == 0 {
        assert(s == Seq::<char>::empty());
    } else {
        lemma_split_whole(s.drop_last(), sep);
        assert(seq![s.drop_last()].update(0, s.drop_last().push(s.last())) == seq![s]) by {
            assert(s.drop_last().push(s.last()) == s);
        }
    }
}

/// Cutting two sequences joined by the delimiter gives the pieces of the
/// first, then those of the second.
pub proof fn lemma_split_concat(x: Seq<char>, y: Seq<char>, sep: char)
    ensures
        split(x + seq![sep] + y, sep) == split(x, sep) + split(y, sep),
    decreases y.len(),
{
    let whole = x + seq![sep] + y;
    lemma_split_len(x, sep);
    lemma_split_len(y, sep);
    if y.len() == 0 {
        assert(whole.drop_last() == x);
        assert(split(x, sep).push(Seq::<char>::empty()) == split(x, sep) + split(y, sep));
    } else {
        let rest = y.drop_last();
        lemma_split_concat(x, rest, sep);
        lemma_split_len(rest, sep);
        assert(whole.drop_last() == x + seq![sep] + rest);
        let a = split(x, sep);
        let b = split(rest, sep);
        if y.last() == sep {
            assert((a + b).push(Seq::<char>::empty()) == a + b.push(Seq::<char>::empty()));
        } else {
            assert((a + b).update((a + b).len() - 1, (a + b).last().push(y.last())) == a
                + b.update(b.len() - 1, b.last().push(y.last())));
        }
    }
}

/// Cutting four joined pieces that are free of the delimiter gives the pieces back.
pub proof fn lemma_split_join4(a: Seq<char>, b: Seq<char>, c: Seq<char>, d: Seq<char>, sep: char)
    requires
        count(a, sep) == 0,
        count(b, sep) == 0,
        count(c, sep) == 0,
        count(d, sep) == 0,
    ensures
        split(join4(a, b, c, d, sep), sep) == seq![a, b, c, d],
{
    lemma_split_whole(a, sep);
    lemma_split_whole(b, sep);
    lemma_split_whole(c, sep);
    lemma_split_whole(d, sep);
    lemma_split_concat(a, b, sep);
    lemma_split_concat(a + seq![sep] + b, c, sep);
    lemma_split_concat(a + seq![sep] + b + seq![sep] + c, d, sep);
    assert(seq![a] + seq![b] + seq![c] + seq![d] == seq![a, b, c, d]);
}

/// A character other than the delimiter that occurs in a sequence occurs in
/// one of its pieces; the lemma returns which.
pub proof fn lemma_piece_holds(s: Seq<char>, sep: char, c: char) -> (k: int)
    requires
        c != sep,
        s.contains(c),
    ensures
        0 <= k < split(s, sep).len(),
        split(s, sep)[k].contains(c),
    decreases s.len(),
{
    lemma_split_len(s, sep);
    let before = split(s.drop_last(), sep);
    lemma_split_len(s.drop_last(), sep);
    if s.last() == c {
        let grown = before.last().push(c);
        assert(grown[grown.len() - 1] == c);
        before.len() - 1
    } else {
        let i = choose|i: int| 0 <= i < s.len() && s[i] == c;
        assert(s.drop_last()[i] == c);
        let k = lemma_piece_holds(s.drop_last(), sep, c);
        if s.last() != sep && k == before.len() - 1 {
            let j = choose|j: int| 0 <= j < before[k].len() && before[k][j] == c;
            assert(before[k].push(s.last())[j] == c);
        }
        k
    }
}

} // verus!
