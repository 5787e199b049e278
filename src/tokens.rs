//! Splitting a response into whitespace-separated tokens, and reading a
//! multi-word field value that ends where the next field's name begins.
use vstd::prelude::*;

use crate::text::{
    chars_of, contains, find, find_exec, find_from, is_space, is_space_char, lemma_find_from_occurs,
    occurs_at,
};

verus! {

/// The tokens of `s[i..]`, where `cur` holds the characters of the token
/// that is being read when `i` is reached.
pub open spec fn tokens_from(s: Seq<char>, i: int, cur: Seq<char>) -> Seq<Seq<char>>
    decreases s.len() - i,
{
    if i < 0 || i >= s.len() {
        if cur.len() > 0 {
            seq![cur]
        } else {
            seq![]
        }
    } else if is_space(s[i]) {
        (if cur.len() > 0 {
            seq![cur]
        } else {
            seq![]
        }) + tokens_from(s, i + 1, Seq::empty())
    } else {
        tokens_from(s, i + 1, cur.push(s[i]))
    }
}

/// The maximal runs of non-whitespace characters of `s`, in order.
pub open spec fn tokens(s: Seq<char>) -> Seq<Seq<char>> {
    tokens_from(s, 0, Seq::empty())
}

/// Splits `s` at whitespace into its tokens.
pub fn split_tokens(s: &str) -> (r: Vec<Vec<char>>)
    ensures
        r@.map_values(|t: Vec<char>| t@) == tokens(s@),
{
    let cs = chars_of(s);
    let mut out: Vec<Vec<char>> = Vec::new();
    let mut cur: Vec<char> = Vec::new();
    for i in 0..cs.len()
        invariant
            cs@ == s@,
            tokens(s@) == out@.map_values(|t: Vec<char>| t@) + tokens_from(s@, i as int, cur@),
    {
        let c = cs[i];
        let ghost old_out = out@.map_values(|t: Vec<char>| t@);
        assert(s@[i as int] == c);
        if is_space_char(c) {
            assert(tokens_from(s@, i as int, cur@) == (if cur@.len() > 0 {
                seq![cur@]
            } else {
                seq![]
            }) + tokens_from(s@, i + 1, Seq::empty()));
            if cur.len() > 0 {
                let ghost t = cur@;
                out.push(cur);
                cur = Vec::new();
                assert(out@.map_values(|t: Vec<char>| t@) == old_out.push(t));
                assert(old_out + (seq![t] + tokens_from(s@, i + 1, Seq::empty())) == old_out.push(
                    t,
                ) + tokens_from(s@, i + 1, Seq::empty()));
                assert(tokens(s@) == out@.map_values(|t: Vec<char>| t@) + tokens_from(s@, i + 1, cur@));
            } else {
                assert(seq![] + tokens_from(s@, i + 1, Seq::empty()) == tokens_from(
                    s@,
                    i + 1,
                    Seq::empty(),
                ));
                assert(cur@ == Seq::<char>::empty());
                assert(tokens(s@) == out@.map_values(|t: Vec<char>| t@) + tokens_from(s@, i + 1, cur@));
            }
        } else {
            assert(tokens_from(s@, i as int, cur@) == tokens_from(s@, i + 1, cur@.push(c)));
            cur.push(c);
            assert(tokens(s@) == out@.map_values(|t: Vec<char>| t@) + tokens_from(s@, i + 1, cur@));
        }
    }
    let ghost old_out = out@.map_values(|t: Vec<char>| t@);
    if cur.len() > 0 {
        let ghost t = cur@;
        out.push(cur);
        assert(out@.map_values(|t: Vec<char>| t@) == old_out.push(t));
    } else {
        assert(old_out + seq![] == old_out);
    }
    out
}

/// The words of `pieces` joined by single spaces.
pub open spec fn join(pieces: Seq<Seq<char>>) -> Seq<char>
    decreases pieces.len(),
{
    if pieces.len() == 0 {
        Seq::empty()
    } else if pieces.len() == 1 {
        pieces[0]
    } else {
        join(pieces.drop_last()) + seq![' '] + pieces.last()
    }
}

/// The pieces of a field value that starts at token `i`, and the index of the
/// token where it stops: the first token at `i` or after that holds `sentinel`
/// (what it holds before `sentinel` is the last piece, when not empty), or the
/// end of `toks`.
pub open spec fn read_until(toks: Seq<Seq<char>>, i: int, sentinel: Seq<char>) -> (Seq<
    Seq<char>,
>, int)
    decreases toks.len() - i,
{
    if i < 0 || i >= toks.len() {
        (seq![], i)
    } else {
        match find(toks[i], sentinel) {
            Some(k) => (
                if k > 0 {
                    seq![toks[i].take(k)]
                } else {
                    seq![]
                },
                i,
            ),
            None => {
                let (rest, j) = read_until(toks, i + 1, sentinel);
                (seq![toks[i]] + rest, j)
            },
        }
    }
}

/// The value that `read_until` reads: its pieces joined by spaces.
pub open spec fn value_until(toks: Seq<Seq<char>>, i: int, sentinel: Seq<char>) -> Seq<char> {
    join(read_until(toks, i, sentinel).0)
}

/// The token index where `read_until` stops.
pub open spec fn end_until(toks: Seq<Seq<char>>, i: int, sentinel: Seq<char>) -> int {
    read_until(toks, i, sentinel).1
}

proof fn lemma_join_push(ps: Seq<Seq<char>>, p: Seq<char>)
    ensures
        join(ps.push(p)) == if ps.len() == 0 {
            p
        } else {
            join(ps) + seq![' '] + p
        },
{
    assert(ps.push(p).drop_last() == ps);
}

/// Reads tokens from `*pos` on and joins them with single spaces, stopping at
/// the first token that holds `next_line`. Of that token only the part before
/// `next_line` is taken, and `*pos` is left on it so that it can be read again.
pub fn peek_until_newline(tokens: &Vec<Vec<char>>, pos: &mut usize, next_line: &Vec<char>) -> (r:
    Vec<char>)
    requires
        *old(pos) <= tokens@.len(),
    ensures
        r@ == value_until(tokens@.map_values(|t: Vec<char>| t@), *old(pos) as int, next_line@),
        *final(pos) as int == end_until(
            tokens@.map_values(|t: Vec<char>| t@),
            *old(pos) as int,
            next_line@,
        ),
        *old(pos) <= *final(pos) <= tokens@.len(),
{
    let ghost toks = tokens@.map_values(|t: Vec<char>| t@);
    let ghost start = *pos as int;
    let ghost mut pieces: Seq<Seq<char>> = seq![];
    let mut result: Vec<char> = Vec::new();
    let mut started = false;
    while *pos < tokens.len()
        invariant
            started == (pieces.len() > 0),
            start == *old(pos) as int,
            toks == tokens@.map_values(|t: Vec<char>| t@),
            start <= *pos <= tokens@.len(),
            result@ == join(pieces),
            read_until(toks, start, next_line@) == (
                pieces + read_until(toks, *pos as int, next_line@).0,
                read_until(toks, *pos as int, next_line@).1,
            ),
        decreases tokens@.len() - *pos,
    {
        let word = &tokens[*pos];
        let ghost old_pieces = pieces;
        let found = find_exec(word, next_line);
        assert(toks[*pos as int] == word@);
        proof {
            lemma_find_from_occurs(word@, next_line@, 0);
        }
        match found {
            Some(k) => {
                if k > 0 {
                    let ghost piece = word@.take(k as int);
                    if started {
                        result.push(' ');
                    }
                    let mut j: usize = 0;
                    let ghost before = result@;
                    while j < k
                        invariant
                            k <= word@.len(),
                            result@ == before + word@.take(j as int),
                            j <= k,
                        decreases k - j,
                    {
                        result.push(word[j]);
                        assert(word@.take(j + 1) == word@.take(j as int).push(word@[j as int]));
                        j = j + 1;
                    }
                    proof {
                        lemma_join_push(pieces, piece);
                        pieces = pieces.push(piece);
                    }
                }
                assert(read_until(toks, *pos as int, next_line@).1 == *pos as int);
                if k > 0 {
                    assert(old_pieces + read_until(toks, *pos as int, next_line@).0 == pieces);
                } else {
                    assert(old_pieces + read_until(toks, *pos as int, next_line@).0 == pieces);
                }
                return result;
            },
            None => {
                let ghost piece = word@;
                if started {
                    result.push(' ');
                }
                let mut j: usize = 0;
                let ghost before = result@;
                while j < word.len()
                    invariant
                        result@ == before + word@.take(j as int),
                        j <= word@.len(),
                    decreases word@.len() - j,
                {
                    result.push(word[j]);
                    assert(word@.take(j + 1) == word@.take(j as int).push(word@[j as int]));
                    j = j + 1;
                }
                assert(word@.take(word@.len() as int) == word@);
                proof {
                    lemma_join_push(pieces, piece);
                    assert(pieces.push(piece) + read_until(toks, *pos + 1, next_line@).0 == pieces
                        + (seq![piece] + read_until(toks, *pos + 1, next_line@).0));
                    pieces = pieces.push(piece);
                }
                started = true;
                *pos = *pos + 1;
            },
        }
    }
    assert(pieces + seq![] == pieces);
    result
}

proof fn lemma_find_first(s: Seq<char>, p: Seq<char>, m: int, i: int)
    requires
        0 <= i <= m,
        occurs_at(s, p, m),
        forall|k: int| 0 <= k < m ==> !occurs_at(s, p, k),
    ensures
        find_from(s, p, i) == Some(m),
    decreases m - i,
{
    if i < m {
        lemma_find_first(s, p, m, i + 1);
    }
}

/// A value whose last word runs into the next field's name with no space
/// between them is read whole: the words before that token, then the part of
/// the token before the name. The reader stops on that token, which is left
/// to be read again.
pub proof fn lemma_glued_sentinel(
    toks: Seq<Seq<char>>,
    i: int,
    words: Seq<Seq<char>>,
    v: Seq<char>,
    sentinel: Seq<char>,
)
    requires
        0 <= i,
        i + words.len() < toks.len(),
        forall|j: int| 0 <= j < words.len() ==> toks[i + j] == #[trigger] words[j],
        forall|j: int| 0 <= j < words.len() ==> !contains(#[trigger] words[j], sentinel),
        v.len() > 0,
        toks[i + words.len()].len() >= v.len() + sentinel.len(),
        toks[i + words.len()].take((v.len() + sentinel.len()) as int) == v + sentinel,
        forall|k: int| 0 <= k < v.len() ==> !#[trigger] occurs_at(toks[i + words.len()], sentinel, k),
    ensures
        read_until(toks, i, sentinel) == (words.push(v), i + words.len()),
        value_until(toks, i, sentinel) == join(words.push(v)),
        end_until(toks, i, sentinel) == i + words.len(),
    decreases words.len(),
{
    if words.len() == 0 {
        let g = toks[i];
        let m = v.len() as int;
        let t = g.take(m + sentinel.len());
        assert(g.subrange(m, m + sentinel.len()) == t.subrange(m, m + sentinel.len()));
        assert(t.subrange(m, m + sentinel.len()) == (v + sentinel).subrange(m, m + sentinel.len()));
        assert((v + sentinel).subrange(m, m + sentinel.len()) == sentinel);
        assert(occurs_at(g, sentinel, m));
        lemma_find_first(g, sentinel, m, 0);
        assert(g.take(m) == t.take(m));
        assert(t.take(m) == (v + sentinel).take(m));
        assert((v + sentinel).take(m) == v);
        assert(words.push(v) == seq![v]);
    } else {
        let rest = words.drop_first();
        assert forall|j: int| 0 <= j < rest.len() implies toks[i + 1 + j] == #[trigger] rest[j] by {
            assert(toks[i + (j + 1)] == words[j + 1]);
        }
        assert(toks[i] == words[0]);
        assert(toks[i + 1 + rest.len()] == toks[i + words.len()]);
        lemma_glued_sentinel(toks, i + 1, rest, v, sentinel);
        assert(seq![words[0]] + rest.push(v) == words.push(v));
    }
}

} // verus!
