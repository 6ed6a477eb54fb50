use vstd::prelude::*;

use crate::util::chars::is_space_char;

verus! {

/// The view of each string in a sequence, in order.
pub open spec fn seq_views(v: Seq<String>) -> Seq<Seq<char>> {
    Seq::new(v.len(), |i: int| v[i]@)
}

/// A token: at least one character, none of them white space.
pub open spec fn valid_token(t: Seq<char>) -> bool {
    t.len() > 0 && forall|i: int| 0 <= i < t.len() ==> !is_space_char(#[trigger] t[i])
}

/// Every element is a token.
pub open spec fn valid_toks(ts: Seq<Seq<char>>) -> bool {
    forall|i: int| 0 <= i < ts.len() ==> valid_token(#[trigger] ts[i])
}

/// One splitting step: a white-space character closes the pending token,
/// any other character extends it.
pub open spec fn tok_step(acc: (Seq<Seq<char>>, Seq<char>), c: char) -> (Seq<Seq<char>>, Seq<char>) {
    if is_space_char(c) {
        if acc.1.len() > 0 {
            (acc.0.push(acc.1), Seq::empty())
        } else {
            acc
        }
    } else {
        (acc.0, acc.1.push(c))
    }
}

/// The splitting step folded over a string, left to right: the finished
/// tokens, and the pending token that no white space has closed yet.
pub open spec fn tok_fold(s: Seq<char>) -> (Seq<Seq<char>>, Seq<char>)
    decreases s.len(),
{
    if s.len() == 0 {
        (Seq::empty(), Seq::empty())
    } else {
        tok_step(tok_fold(s.drop_last()), s.last())
    }
}

/// The tokens of a path string: maximal runs of non-white-space characters,
/// in order; leading and trailing white space contributes nothing.
pub open spec fn tokenize(s: Seq<char>) -> Seq<Seq<char>> {
    let acc = tok_fold(s);
    if acc.1.len() > 0 {
        acc.0.push(acc.1)
    } else {
        acc.0
    }
}

/// Tokens joined with single spaces: the canonical string form of a path.
pub open spec fn join_toks(ts: Seq<Seq<char>>) -> Seq<char>
    decreases ts.len(),
{
    if ts.len() == 0 {
        Seq::empty()
    } else if ts.len() == 1 {
        ts[0]
    } else {
        join_toks(ts.drop_last()) + seq![' '] + ts.last()
    }
}

/// The canonical form of a path string: its tokens rejoined.
pub open spec fn canon(s: Seq<char>) -> Seq<char> {
    join_toks(tokenize(s))
}

/// A string that is the canonical form of some non-empty path.
pub open spec fn canon_str(s: Seq<char>) -> bool {
    tokenize(s).len() > 0 && s == join_toks(tokenize(s))
}

/// Every non-empty leading prefix of a token sequence, in increasing length,
/// each in canonical string form.
pub open spec fn hier_of(ts: Seq<Seq<char>>) -> Seq<Seq<char>> {
    Seq::new(ts.len(), |i: int| join_toks(ts.take(i + 1)))
}

/// Splitting only ever yields tokens: no white space survives inside one.
pub proof fn lemma_tok_fold_valid(s: Seq<char>)
    ensures
        valid_toks(tok_fold(s).0),
        forall|i: int| 0 <= i < tok_fold(s).1.len() ==> !is_space_char(#[trigger] tok_fold(s).1[i]),
    decreases s.len(),
{
    if s.len() == 0 {
    } else {
        lemma_tok_fold_valid(s.drop_last());
        let acc = tok_fold(s.drop_last());
        let c = s.last();
        if is_space_char(c) && acc.1.len() > 0 {
            assert(valid_token(acc.1));
            assert forall|i: int| 0 <= i < tok_fold(s).0.len() implies valid_token(
                #[trigger] tok_fold(s).0[i],
            ) by {
                if i < acc.0.len() {
                    assert(tok_fold(s).0[i] == acc.0[i]);
                }
            }
        }
    }
}

/// The tokens of any string are valid tokens.
pub proof fn lemma_tokenize_valid(s: Seq<char>)
    ensures
        valid_toks(tokenize(s)),
{
    lemma_tok_fold_valid(s);
    let acc = tok_fold(s);
    if acc.1.len() > 0 {
        assert(valid_token(acc.1));
        assert forall|i: int| 0 <= i < tokenize(s).len() implies valid_token(
            #[trigger] tokenize(s)[i],
        ) by {
            if i < acc.0.len() {
                assert(tokenize(s)[i] == acc.0[i]);
            }
        }
    }
}

/// Appending characters that are not white space only extends the pending token.
pub proof fn lemma_tok_fold_append_nonspace(s: Seq<char>, t: Seq<char>)
    requires
        forall|i: int| 0 <= i < t.len() ==> !is_space_char(#[trigger] t[i]),
    ensures
        tok_fold(s + t) == (tok_fold(s).0, tok_fold(s).1 + t),
    decreases t.len(),
{
    if t.len() == 0 {
        assert(s + t =~= s);
        assert(tok_fold(s).1 + t =~= tok_fold(s).1);
    } else {
        let t0 = t.drop_last();
        assert(forall|i: int| 0 <= i < t0.len() ==> !is_space_char(#[trigger] t0[i]));
        lemma_tok_fold_append_nonspace(s, t0);
        assert((s + t).drop_last() =~= s + t0);
        assert((s + t).len() > 0);
        assert((s + t).last() == t.last());
        assert(!is_space_char(t.last()));
        assert((tok_fold(s).1 + t0).push(t.last()) =~= tok_fold(s).1 + t);
    }
}

/// A white-space character closes the pending token: what stands finished
/// afterwards is exactly the tokens of the string so far.
pub proof fn lemma_tok_fold_append_space(s: Seq<char>, c: char)
    requires
        is_space_char(c),
    ensures
        tok_fold(s.push(c)) == (tokenize(s), Seq::<char>::empty()),
{
    assert(s.push(c).drop_last() =~= s);
    assert(s.push(c).last() == c);
}

/// Splitting the canonical join of tokens gives those tokens back.
pub proof fn lemma_tokenize_join(ts: Seq<Seq<char>>)
    requires
        valid_toks(ts),
    ensures
        tokenize(join_toks(ts)) == ts,
    decreases ts.len(),
{
    if ts.len() == 0 {
        assert(tokenize(join_toks(ts)) =~= ts);
    } else if ts.len() == 1 {
        assert(valid_token(ts[0]));
        lemma_tok_fold_append_nonspace(Seq::empty(), ts[0]);
        assert(Seq::<char>::empty() + ts[0] =~= ts[0]);
        assert(Seq::<char>::empty() + ts[0] =~= join_toks(ts));
        assert(tok_fold(join_toks(ts)) == (Seq::<Seq<char>>::empty(), ts[0]));
        assert(tokenize(join_toks(ts)) =~= ts);
    } else {
        let dl = ts.drop_last();
        assert(forall|i: int| 0 <= i < dl.len() ==> valid_token(#[trigger] dl[i]));
        lemma_tokenize_join(dl);
        let j = join_toks(dl);
        lemma_tok_fold_append_space(j, ' ');
        assert(valid_token(ts.last()));
        lemma_tok_fold_append_nonspace(j.push(' '), ts.last());
        assert(join_toks(ts) =~= j.push(' ') + ts.last());
        assert(tok_fold(join_toks(ts)).0 == dl);
        assert(tok_fold(join_toks(ts)).1 =~= ts.last());
        assert(ts.last().len() > 0);
        assert(tokenize(join_toks(ts)) =~= ts);
    }
}

/// The canonical join of a non-empty token sequence is a canonical string.
pub proof fn lemma_canon_join(ts: Seq<Seq<char>>)
    requires
        valid_toks(ts),
        ts.len() > 0,
    ensures
        canon_str(join_toks(ts)),
        tokenize(join_toks(ts)) == ts,
{
    lemma_tokenize_join(ts);
}

/// Joining is injective on token sequences.
pub proof fn lemma_join_injective(a: Seq<Seq<char>>, b: Seq<Seq<char>>)
    requires
        valid_toks(a),
        valid_toks(b),
        join_toks(a) == join_toks(b),
    ensures
        a == b,
{
    lemma_tokenize_join(a);
    lemma_tokenize_join(b);
}

} // verus!
