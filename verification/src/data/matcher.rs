use vstd::prelude::*;

use crate::data::pathtree::{spec_path_exists, PathTree};
use crate::util::string::str_eq;
use crate::util::toks::{join_toks, seq_views, tokenize, valid_toks};
use crate::util::treepath::{arg_token, join_slice, TreePath};

verus! {

/// One step of the single-token walk: extending the matched template with
/// the literal token wins over extending it with a placeholder; if neither
/// extension is a known prefix, the whole match fails.
pub open spec fn sw_step<T>(
    m: Map<Seq<Seq<char>>, T>,
    tp: Seq<Seq<char>>,
    ag: Seq<Seq<char>>,
    t: Seq<char>,
) -> Option<(Seq<Seq<char>>, Seq<Seq<char>>)> {
    if spec_path_exists(m, tp.push(t)) {
        Some((tp.push(t), ag))
    } else if spec_path_exists(m, tp.push(arg_token())) {
        Some((tp.push(arg_token()), ag.push(t)))
    } else {
        None
    }
}

/// The single-token walk over the first `k` input tokens.
pub open spec fn sw_walk<T>(m: Map<Seq<Seq<char>>, T>, its: Seq<Seq<char>>, k: int) -> Option<
    (Seq<Seq<char>>, Seq<Seq<char>>),
>
    decreases k,
{
    if k <= 0 {
        Some((Seq::empty(), Seq::empty()))
    } else {
        match sw_walk(m, its, k - 1) {
            None => None,
            Some(s) => sw_step(m, s.0, s.1, its[k - 1]),
        }
    }
}

/// Single-token incremental extraction: walk the whole input, then fail if
/// any captured argument is a bare quotation mark or the final template has
/// no registered value.
pub open spec fn single_word_match<T>(m: Map<Seq<Seq<char>>, T>, its: Seq<Seq<char>>) -> Option<
    (Seq<Seq<char>>, Seq<Seq<char>>),
> {
    match sw_walk(m, its, its.len() as int) {
        None => None,
        Some(s) => if s.1.contains(seq!['"']) {
            None
        } else if !m.contains_key(s.0) {
            None
        } else {
            Some(s)
        },
    }
}

/// Whether a token opens a quoted span.
pub open spec fn is_quote_start(t: Seq<char>) -> bool {
    t.len() > 0 && t[0] == '"'
}

/// Whether a token closes a quoted span.
pub open spec fn is_quote_end(t: Seq<char>) -> bool {
    t.len() > 0 && t.last() == '"'
}

/// The indices of span-opening tokens among the first `k`.
pub open spec fn qstarts(its: Seq<Seq<char>>, k: int) -> Seq<int>
    decreases k,
{
    if k <= 0 {
        Seq::empty()
    } else {
        let r = qstarts(its, k - 1);
        if is_quote_start(its[k - 1]) {
            r.push(k - 1)
        } else {
            r
        }
    }
}

/// The indices of span-closing tokens among the first `k`.
pub open spec fn qends(its: Seq<Seq<char>>, k: int) -> Seq<int>
    decreases k,
{
    if k <= 0 {
        Seq::empty()
    } else {
        let r = qends(its, k - 1);
        if is_quote_end(its[k - 1]) {
            r.push(k - 1)
        } else {
            r
        }
    }
}

/// Paired spans must be well-formed: each opens no later than it closes,
/// and none opens before the previous one has closed.
pub open spec fn spans_ok(ss: Seq<int>, es: Seq<int>) -> bool {
    forall|j: int|
        0 <= j < ss.len() ==> (#[trigger] ss[j]) <= es[j] && (j > 0 ==> ss[j] >= es[j - 1])
}

/// The argument a span captures: the spanned tokens joined, with the
/// opening and closing quotation marks stripped.
pub open spec fn span_arg(its: Seq<Seq<char>>, lo: int, hi: int) -> Seq<char> {
    let joined = join_toks(its.subrange(lo, hi + 1));
    joined.subrange(1, joined.len() - 1)
}

/// All captured arguments, in span order.
pub open spec fn mw_args(its: Seq<Seq<char>>, ss: Seq<int>, es: Seq<int>) -> Seq<Seq<char>> {
    Seq::new(ss.len(), |j: int| span_arg(its, ss[j], es[j]))
}

/// The candidate template after the first `k` tokens, with the flag that
/// says whether a span is open: a span-opening token contributes one
/// placeholder, tokens inside a span contribute nothing, and tokens outside
/// every span are kept as they stand.
pub open spec fn mwt(its: Seq<Seq<char>>, k: int) -> (Seq<Seq<char>>, bool)
    decreases k,
{
    if k <= 0 {
        (Seq::empty(), false)
    } else {
        let acc = mwt(its, k - 1);
        let t = its[k - 1];
        let started1 = if is_quote_start(t) {
            true
        } else {
            acc.1
        };
        let acc1 = if is_quote_start(t) {
            acc.0.push(arg_token())
        } else if !is_quote_end(t) && !started1 {
            acc.0.push(t)
        } else {
            acc.0
        };
        let started2 = if is_quote_end(t) {
            false
        } else {
            started1
        };
        (acc1, started2)
    }
}

/// Quoted multi-word extraction: fails on a bare quotation-mark token, on
/// unbalanced or misordered spans, or when the candidate template has no
/// registered value.
pub open spec fn multiword_match<T>(m: Map<Seq<Seq<char>>, T>, its: Seq<Seq<char>>) -> Option<
    (Seq<Seq<char>>, Seq<Seq<char>>),
> {
    let ss = qstarts(its, its.len() as int);
    let es = qends(its, its.len() as int);
    if exists|i: int| 0 <= i < its.len() && #[trigger] its[i] == seq!['"'] {
        None
    } else if ss.len() == 0 || es.len() == 0 {
        None
    } else if ss.len() != es.len() {
        None
    } else if !spans_ok(ss, es) {
        None
    } else {
        let tp = mwt(its, its.len() as int).0;
        if m.contains_key(tp) {
            Some((tp, mw_args(its, ss, es)))
        } else {
            None
        }
    }
}

/// What the matcher resolves a raw input to: quoted multi-word extraction
/// first, single-token extraction as the fallback.
pub open spec fn resolve_match<T>(m: Map<Seq<Seq<char>>, T>, its: Seq<Seq<char>>) -> Option<
    (Seq<Seq<char>>, Seq<Seq<char>>),
> {
    match multiword_match(m, its) {
        Some(s) => Some(s),
        None => single_word_match(m, its),
    }
}

/// The views of a sequence of machine integers.
pub open spec fn usvals(v: Seq<usize>) -> Seq<int> {
    Seq::new(v.len(), |i: int| v[i] as int)
}

/// Span indices point into the input.
pub proof fn lemma_q_bounds(its: Seq<Seq<char>>, k: int)
    requires
        k <= its.len(),
    ensures
        forall|j: int|
            0 <= j < qstarts(its, k).len() ==> 0 <= #[trigger] qstarts(its, k)[j] < k
                && is_quote_start(its[qstarts(its, k)[j]]),
        forall|j: int|
            0 <= j < qends(its, k).len() ==> 0 <= #[trigger] qends(its, k)[j] < k && is_quote_end(
                its[qends(its, k)[j]],
            ),
    decreases k,
{
    if k > 0 {
        lemma_q_bounds(its, k - 1);
        assert forall|j: int| 0 <= j < qstarts(its, k).len() implies 0 <= #[trigger] qstarts(
            its,
            k,
        )[j] < k && is_quote_start(its[qstarts(its, k)[j]]) by {
            if j < qstarts(its, k - 1).len() {
                assert(qstarts(its, k)[j] == qstarts(its, k - 1)[j]);
            }
        }
        assert forall|j: int| 0 <= j < qends(its, k).len() implies 0 <= #[trigger] qends(
            its,
            k,
        )[j] < k && is_quote_end(its[qends(its, k)[j]]) by {
            if j < qends(its, k - 1).len() {
                assert(qends(its, k)[j] == qends(its, k - 1)[j]);
            }
        }
    }
}

impl<T> PathTree<T> {
    /// Quoted multi-word extraction against this registry.
    fn attempt_multiword_parsing(&self, path: &str) -> (r: Option<(String, Vec<String>)>)
        requires
            self.wf(),
        ensures
            match r {
                Some(p) => match multiword_match(self@, tokenize(path@)) {
                    Some(q) => p.0@ == join_toks(q.0) && tokenize(p.0@) == q.0 && seq_views(p.1@)
                        == q.1,
                    None => false,
                },
                None => multiword_match(self@, tokenize(path@)) is None,
            },
    {
        let nodes = TreePath::create_path(path);
        let ghost its = tokenize(path@);
        let ghost m = self@;
        proof {
            crate::util::toks::lemma_tokenize_valid(path@);
        }
        let n = nodes.len();
        let mut starts: Vec<usize> = Vec::new();
        let mut ends: Vec<usize> = Vec::new();
        let mut i: usize = 0;
        proof {
            assert(usvals(starts@) =~= qstarts(its, 0));
            assert(usvals(ends@) =~= qends(its, 0));
        }
        while i < n
            invariant
                its == tokenize(path@),
                m == self@,
                self.wf(),
                seq_views(nodes@) == its,
                nodes@.len() == its.len(),
                valid_toks(its),
                n == its.len(),
                i <= n,
                usvals(starts@) == qstarts(its, i as int),
                usvals(ends@) == qends(its, i as int),
                forall|x: int| 0 <= x < i ==> #[trigger] its[x] != seq!['"'],
            decreases n - i,
        {
            let tok = nodes[i].as_str();
            proof {
                assert(nodes@[i as int]@ == its[i as int]);
                assert(crate::util::toks::valid_token(its[i as int]));
                reveal_strlit("\"");
                assert("\""@ =~= seq!['"']);
            }
            if str_eq(tok, "\"") {
                proof {
                    assert(its[i as int] == seq!['"']);
                }
                return None;
            }
            let ln = tok.unicode_len();
            let c0 = tok.get_char(0);
            let cl = tok.get_char(ln - 1);
            if c0 == '"' {
                starts.push(i);
            }
            if cl == '"' {
                ends.push(i);
            }
            proof {
                assert(its[i as int] != seq!['"']);
                assert(c0 == its[i as int][0]);
                assert(cl == its[i as int].last());
                if is_quote_start(its[i as int]) {
                    assert(usvals(starts@) =~= qstarts(its, i as int).push(i as int));
                } else {
                    assert(usvals(starts@) =~= qstarts(its, i as int));
                }
                if is_quote_end(its[i as int]) {
                    assert(usvals(ends@) =~= qends(its, i as int).push(i as int));
                } else {
                    assert(usvals(ends@) =~= qends(its, i as int));
                }
            }
            i += 1;
        }
        let ghost ss = qstarts(its, its.len() as int);
        let ghost es = qends(its, its.len() as int);
        proof {
            assert(usvals(starts@) == ss);
            assert(usvals(ends@) == es);
            assert(starts@.len() == ss.len());
            assert(ends@.len() == es.len());
            if exists|x: int| 0 <= x < its.len() && #[trigger] its[x] == seq!['"'] {
                assert(false);
            }
            lemma_q_bounds(its, its.len() as int);
        }
        if starts.len() == 0 || ends.len() == 0 {
            return None;
        }
        if starts.len() != ends.len() {
            return None;
        }
        let cnt = starts.len();
        let mut prev_end: usize = 0;
        let mut j: usize = 0;
        while j < cnt
            invariant
                its == tokenize(path@),
                m == self@,
                self.wf(),
                usvals(starts@) == ss,
                usvals(ends@) == es,
                ss == qstarts(its, its.len() as int),
                es == qends(its, its.len() as int),
                cnt == starts@.len(),
                cnt == ends@.len(),
                j <= cnt,
                forall|x: int|
                    0 <= x < j ==> (#[trigger] ss[x]) <= es[x] && (x > 0 ==> ss[x] >= es[x - 1]),
                j > 0 ==> prev_end as int == es[j - 1],
                j == 0 ==> prev_end == 0,
            decreases cnt - j,
        {
            let sj = starts[j];
            let ej = ends[j];
            proof {
                assert(sj as int == ss[j as int]);
                assert(ej as int == es[j as int]);
            }
            if sj > ej || sj < prev_end {
                proof {
                    if sj > ej {
                        assert(!spans_ok(ss, es));
                    } else {
                        assert(j > 0);
                        assert(ss[j as int] < es[j as int - 1]);
                        assert(!spans_ok(ss, es));
                    }
                }
                return None;
            }
            prev_end = ej;
            j += 1;
        }
        proof {
            assert(spans_ok(ss, es));
        }
        // capture the arguments, one per span
        let mut args: Vec<String> = Vec::new();
        let mut j2: usize = 0;
        proof {
            assert(seq_views(args@) =~= mw_args(its, ss, es).take(0));
        }
        while j2 < cnt
            invariant
                its == tokenize(path@),
                m == self@,
                self.wf(),
                seq_views(nodes@) == its,
                nodes@.len() == its.len(),
                valid_toks(its),
                n == its.len(),
                usvals(starts@) == ss,
                usvals(ends@) == es,
                ss == qstarts(its, its.len() as int),
                es == qends(its, its.len() as int),
                cnt == starts@.len(),
                cnt == ends@.len(),
                spans_ok(ss, es),
                forall|x: int| 0 <= x < its.len() ==> #[trigger] its[x] != seq!['"'],
                j2 <= cnt,
                seq_views(args@) == mw_args(its, ss, es).take(j2 as int),
            decreases cnt - j2,
        {
            let lo = starts[j2];
            let hi = ends[j2];
            proof {
                lemma_q_bounds(its, its.len() as int);
                assert(lo as int == ss[j2 as int]);
                assert(hi as int == es[j2 as int]);
                assert(0 <= ss[j2 as int] < its.len());
                assert(0 <= es[j2 as int] < its.len());
                assert(ss[j2 as int] <= es[j2 as int]);
            }
            let mut piece = String::new();
            let mut x = lo;
            proof {
                assert(piece@ =~= join_toks(its.subrange(lo as int, lo as int)));
            }
            while x <= hi
                invariant
                    seq_views(nodes@) == its,
                    nodes@.len() == its.len(),
                    n == its.len(),
                    lo <= x <= hi + 1,
                    hi < n,
                    piece@ == join_toks(its.subrange(lo as int, x as int)),
                decreases hi + 1 - x,
            {
                if x > lo {
                    piece.append(" ");
                }
                piece.append(nodes[x].as_str());
                proof {
                    reveal_strlit(" ");
                    let sub = its.subrange(lo as int, x + 1);
                    assert(sub.drop_last() =~= its.subrange(lo as int, x as int));
                    assert(sub.last() == its[x as int]);
                    assert(nodes@[x as int]@ == its[x as int]);
                    if x == lo {
                        assert(piece@ =~= its[x as int]);
                        assert(join_toks(sub) == sub[0]);
                        assert(sub[0] == its[x as int]);
                    } else {
                        assert(piece@ =~= join_toks(its.subrange(lo as int, x as int))
                            + seq![' '] + its[x as int]);
                        assert(piece@ == join_toks(sub));
                    }
                }
                x += 1;
            }
            let pl = piece.unicode_len();
            proof {
                let sub = its.subrange(lo as int, hi + 1);
                assert(sub.len() >= 1);
                lemma_join_len_first(sub);
                assert(sub[0] == its[lo as int]);
                assert(is_quote_start(its[lo as int]));
                assert(its[lo as int] != seq!['"']);
                if its[lo as int].len() == 1 {
                    assert(its[lo as int] =~= seq!['"']);
                    assert(false);
                }
                assert(its[lo as int].len() >= 2);
                assert(pl >= 2);
            }
            let stripped = piece.substring_char(1, pl - 1).to_owned();
            args.push(stripped);
            proof {
                assert(stripped@ == span_arg(its, ss[j2 as int], es[j2 as int]));
                assert(mw_args(its, ss, es).take(j2 + 1).drop_last() =~= mw_args(
                    its,
                    ss,
                    es,
                ).take(j2 as int));
                assert(mw_args(its, ss, es).take(j2 + 1).last() == span_arg(
                    its,
                    ss[j2 as int],
                    es[j2 as int],
                ));
                assert(seq_views(args@) =~= mw_args(its, ss, es).take(j2 + 1));
            }
            j2 += 1;
        }
        proof {
            assert(mw_args(its, ss, es).take(cnt as int) =~= mw_args(its, ss, es));
        }
        // build the candidate template
        let mut resulting: Vec<String> = Vec::new();
        let mut started = false;
        let mut i2: usize = 0;
        proof {
            assert(seq_views(resulting@) =~= mwt(its, 0).0);
        }
        while i2 < n
            invariant
                its == tokenize(path@),
                m == self@,
                self.wf(),
                seq_views(nodes@) == its,
                nodes@.len() == its.len(),
                valid_toks(its),
                n == its.len(),
                i2 <= n,
                seq_views(resulting@) == mwt(its, i2 as int).0,
                started == mwt(its, i2 as int).1,
                valid_toks(seq_views(resulting@)),
            decreases n - i2,
        {
            let tok = nodes[i2].as_str();
            proof {
                assert(nodes@[i2 as int]@ == its[i2 as int]);
                assert(crate::util::toks::valid_token(its[i2 as int]));
                crate::util::treepath::lemma_arg_token_valid();
                reveal_strlit("<ARG>");
            }
            let ln = tok.unicode_len();
            let c0 = tok.get_char(0);
            let cl = tok.get_char(ln - 1);
            let ghost pre_r = seq_views(resulting@);
            if c0 == '"' {
                started = true;
                resulting.push(String::from_str("<ARG>"));
            }
            if c0 != '"' && cl != '"' && !started {
                resulting.push(nodes[i2].clone());
            }
            if cl == '"' {
                started = false;
            }
            proof {
                assert(c0 == its[i2 as int][0]);
                assert(cl == its[i2 as int].last());
                let st1 = if is_quote_start(its[i2 as int]) {
                    true
                } else {
                    mwt(its, i2 as int).1
                };
                if is_quote_start(its[i2 as int]) {
                    assert(seq_views(resulting@) =~= pre_r.push(arg_token()));
                } else if !is_quote_end(its[i2 as int]) && !st1 {
                    assert(seq_views(resulting@) =~= pre_r.push(its[i2 as int]));
                } else {
                    assert(seq_views(resulting@) =~= pre_r);
                }
                assert(seq_views(resulting@) == mwt(its, i2 + 1).0);
                assert(started == mwt(its, i2 + 1).1);
                assert forall|y: int|
                    0 <= y < seq_views(resulting@).len() implies crate::util::toks::valid_token(
                    #[trigger] seq_views(resulting@)[y],
                ) by {
                    if y < pre_r.len() {
                        assert(seq_views(resulting@)[y] == pre_r[y]);
                    }
                }
            }
            i2 += 1;
        }
        let template = join_slice(resulting.as_slice());
        let ghost tp = mwt(its, its.len() as int).0;
        proof {
            assert(template@ == join_toks(tp));
            if tp.len() > 0 {
                crate::util::toks::lemma_canon_join(tp);
                assert(tokenize(template@) == tp);
            } else {
                assert(tp =~= Seq::<Seq<char>>::empty());
                assert(join_toks(tp) =~= Seq::<char>::empty());
                assert(tokenize(template@) =~= tp);
            }
        }
        if self.does_node_contain_value(template.as_str()) {
            proof {
                assert(m.contains_key(tp));
                assert(multiword_match(m, its) == Some((tp, mw_args(its, ss, es))));
            }
            Some((template, args))
        } else {
            proof {
                assert(!m.contains_key(tp));
                assert(multiword_match(m, its) is None);
            }
            None
        }
    }
}

impl<T> PathTree<T> {
    /// Single-token incremental extraction against this registry.
    fn attempt_single_word_parsing(&self, path: &str) -> (r: Option<(String, Vec<String>)>)
        requires
            self.wf(),
        ensures
            match r {
                Some(p) => match single_word_match(self@, tokenize(path@)) {
                    Some(q) => p.0@ == join_toks(q.0) && tokenize(p.0@) == q.0 && seq_views(p.1@)
                        == q.1,
                    None => false,
                },
                None => single_word_match(self@, tokenize(path@)) is None,
            },
    {
        let pathvec = TreePath::create_path(path);
        let ghost its = tokenize(path@);
        let ghost m = self@;
        proof {
            crate::util::toks::lemma_tokenize_valid(path@);
            crate::util::treepath::lemma_arg_token_valid();
        }
        let n = pathvec.len();
        let mut argumented: Vec<String> = Vec::new();
        let mut args: Vec<String> = Vec::new();
        let mut k: usize = 0;
        proof {
            assert(seq_views(argumented@) =~= Seq::<Seq<char>>::empty());
            assert(seq_views(args@) =~= Seq::<Seq<char>>::empty());
        }
        while k < n
            invariant
                its == tokenize(path@),
                m == self@,
                self.wf(),
                seq_views(pathvec@) == its,
                pathvec@.len() == its.len(),
                valid_toks(its),
                n == its.len(),
                k <= n,
                sw_walk(m, its, k as int) == Some(
                    (seq_views(argumented@), seq_views(args@)),
                ),
                valid_toks(seq_views(argumented@)),
            decreases n - k,
        {
            proof {
                assert(pathvec@[k as int]@ == its[k as int]);
                assert(crate::util::toks::valid_token(its[k as int]));
                crate::util::treepath::lemma_arg_token_valid();
            }
            let ghost tpv = seq_views(argumented@);
            let ghost agv = seq_views(args@);
            let lit_cand = TreePath::append_path_node(argumented.as_slice(), pathvec[k].as_str());
            proof {
                assert(lit_cand@ == join_toks(tpv.push(its[k as int])));
                assert forall|y: int|
                    0 <= y < tpv.push(its[k as int]).len() implies crate::util::toks::valid_token(
                    #[trigger] tpv.push(its[k as int])[y],
                ) by {
                    if y < tpv.len() {
                        assert(tpv.push(its[k as int])[y] == tpv[y]);
                    }
                }
                crate::util::toks::lemma_canon_join(tpv.push(its[k as int]));
                assert(tokenize(lit_cand@) == tpv.push(its[k as int]));
            }
            if self.does_path_exist(lit_cand.as_str()) {
                argumented.push(pathvec[k].clone());
                proof {
                    assert(seq_views(argumented@) =~= tpv.push(its[k as int]));
                    assert(sw_step(m, tpv, agv, its[k as int]) == Some(
                        (tpv.push(its[k as int]), agv),
                    ));
                }
            } else {
                let arg_cand = TreePath::append_path_node(argumented.as_slice(), "<ARG>");
                proof {
                    reveal_strlit("<ARG>");
                    assert(arg_cand@ == join_toks(tpv.push(arg_token())));
                    assert forall|y: int|
                        0 <= y < tpv.push(arg_token()).len()
                        implies crate::util::toks::valid_token(
                        #[trigger] tpv.push(arg_token())[y],
                    ) by {
                        if y < tpv.len() {
                            assert(tpv.push(arg_token())[y] == tpv[y]);
                        }
                    }
                    crate::util::toks::lemma_canon_join(tpv.push(arg_token()));
                    assert(tokenize(arg_cand@) == tpv.push(arg_token()));
                }
                if self.does_path_exist(arg_cand.as_str()) {
                    argumented.push(String::from_str("<ARG>"));
                    args.push(pathvec[k].clone());
                    proof {
                        reveal_strlit("<ARG>");
                        assert(seq_views(argumented@) =~= tpv.push(arg_token()));
                        assert(seq_views(args@) =~= agv.push(its[k as int]));
                        assert(sw_step(m, tpv, agv, its[k as int]) == Some(
                            (tpv.push(arg_token()), agv.push(its[k as int])),
                        ));
                    }
                } else {
                    proof {
                        assert(sw_step(m, tpv, agv, its[k as int]) is None);
                        assert(sw_walk(m, its, k + 1) is None);
                        lemma_sw_walk_none(m, its, k + 1, its.len() as int);
                        assert(single_word_match(m, its) is None);
                    }
                    return None;
                }
            }
            proof {
                assert forall|y: int|
                    0 <= y < seq_views(argumented@).len() implies crate::util::toks::valid_token(
                    #[trigger] seq_views(argumented@)[y],
                ) by {
                    if y < tpv.len() {
                        assert(seq_views(argumented@)[y] == tpv[y]);
                    }
                }
            }
            k += 1;
        }
        let ghost tpv = seq_views(argumented@);
        let ghost agv = seq_views(args@);
        // a bare quotation mark among the arguments means the quoted form
        // was malformed: fail rather than guess
        let mut a: usize = 0;
        let alen = args.len();
        while a < alen
            invariant
                its == tokenize(path@),
                m == self@,
                self.wf(),
                alen == args@.len(),
                a <= alen,
                seq_views(args@) == agv,
                seq_views(argumented@) == tpv,
                valid_toks(tpv),
                sw_walk(m, its, its.len() as int) == Some((tpv, agv)),
                forall|y: int| 0 <= y < a ==> #[trigger] agv[y] != seq!['"'],
            decreases alen - a,
        {
            proof {
                reveal_strlit("\"");
                assert("\""@ =~= seq!['"']);
                assert(args@[a as int]@ == agv[a as int]);
            }
            if str_eq(args[a].as_str(), "\"") {
                proof {
                    assert(agv[a as int] == seq!['"']);
                    assert(agv.contains(seq!['"']));
                }
                return None;
            }
            a += 1;
        }
        proof {
            if agv.contains(seq!['"']) {
                let y = choose|y: int| 0 <= y < agv.len() && agv[y] == seq!['"'];
                assert(false);
            }
        }
        let template = join_slice(argumented.as_slice());
        proof {
            assert(template@ == join_toks(tpv));
            if tpv.len() > 0 {
                crate::util::toks::lemma_canon_join(tpv);
                assert(tokenize(template@) == tpv);
            } else {
                assert(join_toks(tpv) =~= Seq::<char>::empty());
                assert(tokenize(template@) =~= tpv);
            }
        }
        if self.does_node_contain_value(template.as_str()) {
            proof {
                assert(single_word_match(m, its) == Some((tpv, agv)));
            }
            Some((template, args))
        } else {
            None
        }
    }

    /// Resolves a raw input path against this registry: the best-matching
    /// registered template, and the argument values its placeholders
    /// captured, in order. Quoted multi-word extraction is tried first,
    /// single-token extraction second; `None` when neither strategy finds a
    /// registered template.
    pub fn get_command_and_args_from_path(&self, path: &str) -> (r: Option<(String, Vec<String>)>)
        requires
            self.wf(),
        ensures
            match r {
                Some(p) => match resolve_match(self@, tokenize(path@)) {
                    Some(q) => p.0@ == join_toks(q.0) && tokenize(p.0@) == q.0 && seq_views(p.1@)
                        == q.1 && self@.contains_key(q.0),
                    None => false,
                },
                None => resolve_match(self@, tokenize(path@)) is None,
            },
    {
        match self.attempt_multiword_parsing(path) {
            Some(mw) => {
                proof {
                    match multiword_match(self@, tokenize(path@)) {
                        Some(q) => {
                            assert(self@.contains_key(q.0));
                        },
                        None => {
                            assert(false);
                        },
                    }
                }
                Some(mw)
            },
            None => {
                let r = self.attempt_single_word_parsing(path);
                proof {
                    if r is Some {
                        match single_word_match(self@, tokenize(path@)) {
                            Some(q) => {
                                assert(self@.contains_key(q.0));
                            },
                            None => {
                                assert(false);
                            },
                        }
                    }
                }
                r
            },
        }
    }
}

/// At every step of the single-token walk, the literal token wins over the
/// wildcard interpretation whenever both extensions are known prefixes.
pub proof fn lemma_literal_wins<T>(
    m: Map<Seq<Seq<char>>, T>,
    tp: Seq<Seq<char>>,
    ag: Seq<Seq<char>>,
    t: Seq<char>,
)
    requires
        spec_path_exists(m, tp.push(t)),
    ensures
        sw_step(m, tp, ag, t) == Some((tp.push(t), ag)),
{
}

/// A failed step fails the whole walk.
pub proof fn lemma_sw_walk_none<T>(m: Map<Seq<Seq<char>>, T>, its: Seq<Seq<char>>, k: int, n: int)
    requires
        0 <= k <= n,
        sw_walk(m, its, k) is None,
    ensures
        sw_walk(m, its, n) is None,
    decreases n - k,
{
    if k < n {
        lemma_sw_walk_none(m, its, k + 1, n);
    }
}

/// The joined form of a non-empty token sequence is at least as long as its
/// first token.
pub proof fn lemma_join_len_first(ts: Seq<Seq<char>>)
    requires
        ts.len() >= 1,
    ensures
        join_toks(ts).len() >= ts[0].len(),
    decreases ts.len(),
{
    if ts.len() == 1 {
    } else {
        lemma_join_len_first(ts.drop_last());
        assert(ts.drop_last()[0] == ts[0]);
    }
}

} // verus!
