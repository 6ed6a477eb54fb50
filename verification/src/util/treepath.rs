use vstd::prelude::*;

use crate::util::chars::is_space;
use crate::util::string::str_eq;
use crate::util::digits::dec_rep;
use crate::util::digits::usize_to_decimal;
use crate::util::toks::{canon, hier_of, join_toks, seq_views, tok_fold, tokenize, valid_toks};

verus! {

/// How many of the tokens equal `x`.
pub open spec fn count_matching(ts: Seq<Seq<char>>, x: Seq<char>) -> nat
    decreases ts.len(),
{
    if ts.len() == 0 {
        0
    } else {
        count_matching(ts.drop_last(), x) + if ts.last() == x {
            1nat
        } else {
            0nat
        }
    }
}

/// The reserved placeholder token.
pub open spec fn arg_token() -> Seq<char> {
    "<ARG>"@
}

/// An argument value wrapped in quotation marks.
pub open spec fn quoted(a: Seq<char>) -> Seq<char> {
    seq!['"'] + a + seq!['"']
}

/// Tokens of a rewritten path: each placeholder replaced, in order, by the
/// matching argument wrapped in quotes; every other token kept as it is.
pub open spec fn subst_toks(ts: Seq<Seq<char>>, args: Seq<Seq<char>>) -> Seq<Seq<char>>
    decreases ts.len(),
{
    if ts.len() == 0 {
        Seq::empty()
    } else {
        let rest = subst_toks(ts.drop_last(), args);
        let k = count_matching(ts.drop_last(), arg_token());
        rest.push(
            if ts.last() == arg_token() {
                quoted(args[k as int])
            } else {
                ts.last()
            },
        )
    }
}

/// The acronym characters of a path: the first character of each token,
/// with `a` standing in for a placeholder.
pub open spec fn initials(ts: Seq<Seq<char>>) -> Seq<char> {
    Seq::new(
        ts.len(),
        |i: int|
            if ts[i] == arg_token() {
                'a'
            } else {
                ts[i][0]
            },
    )
}

/// The bracketed acronym token of a shortcut; serials other than 1 are
/// written out before the closing bracket.
pub open spec fn shortcut_head(ts: Seq<Seq<char>>, serial: nat) -> Seq<char> {
    seq!['['] + initials(ts) + (if serial == 1 {
        Seq::<char>::empty()
    } else {
        crate::util::digits::dec_rep(serial)
    }) + seq![']']
}

/// The tokens of a shortcut: the acronym token followed by one placeholder
/// per placeholder of the original path.
pub open spec fn shortcut_toks(ts: Seq<Seq<char>>, serial: nat) -> Seq<Seq<char>> {
    seq![shortcut_head(ts, serial)] + Seq::new(
        count_matching(ts, arg_token()),
        |i: int| arg_token(),
    )
}

/// Whether a token sequence begins with a bracketed acronym token.
pub open spec fn is_shortcut_path(ts: Seq<Seq<char>>) -> bool
    recommends
        ts.len() > 0,
        valid_toks(ts),
{
    ts[0][0] == '[' && ts[0].last() == ']'
}

/// `count_matching` adds up over concatenation.
pub proof fn lemma_count_matching_append(a: Seq<Seq<char>>, b: Seq<Seq<char>>, x: Seq<char>)
    ensures
        count_matching(a + b, x) == count_matching(a, x) + count_matching(b, x),
    decreases b.len(),
{
    if b.len() == 0 {
        assert(a + b =~= a);
    } else {
        lemma_count_matching_append(a, b.drop_last(), x);
        assert((a + b).drop_last() =~= a + b.drop_last());
        assert((a + b).last() == b.last());
    }
}

/// A prefix never holds more matches than the whole.
pub proof fn lemma_count_matching_take(ts: Seq<Seq<char>>, x: Seq<char>, i: int)
    requires
        0 <= i <= ts.len(),
    ensures
        count_matching(ts.take(i), x) <= count_matching(ts, x),
{
    lemma_count_matching_append(ts.take(i), ts.skip(i), x);
    assert(ts.take(i) + ts.skip(i) =~= ts);
}

/// A path of `n` tokens has exactly `n` non-empty leading prefixes, and the
/// last of them is the whole path in canonical form.
pub proof fn lemma_hierarchy_shape(ts: Seq<Seq<char>>)
    ensures
        hier_of(ts).len() == ts.len(),
        ts.len() > 0 ==> hier_of(ts).last() == join_toks(ts),
{
    if ts.len() > 0 {
        assert(hier_of(ts)[ts.len() - 1] == join_toks(ts.take(ts.len() as int)));
        assert(ts.take(ts.len() as int) =~= ts);
    }
}

/// The placeholder token is a token, and never starts with a bracket.
pub proof fn lemma_arg_token_valid()
    ensures
        crate::util::toks::valid_token(arg_token()),
        arg_token().len() == 5,
{
    reveal_strlit("<ARG>");
    assert forall|i: int| 0 <= i < arg_token().len() implies !crate::util::chars::is_space_char(
        #[trigger] arg_token()[i],
    ) by {
        assert(arg_token()[0] == '<' && arg_token()[1] == 'A' && arg_token()[2] == 'R'
            && arg_token()[3] == 'G' && arg_token()[4] == '>');
    }
}

/// The tokens of a shortcut are tokens.
pub proof fn lemma_shortcut_toks_valid(ts: Seq<Seq<char>>, serial: nat)
    requires
        valid_toks(ts),
        ts.len() > 0,
    ensures
        valid_toks(shortcut_toks(ts, serial)),
        shortcut_toks(ts, serial).len() > 0,
{
    lemma_arg_token_valid();
    let head = shortcut_head(ts, serial);
    let ini = initials(ts);
    let d = if serial == 1 {
        Seq::<char>::empty()
    } else {
        dec_rep(serial)
    };
    crate::util::digits::lemma_dec_rep_digits(serial);
    assert(head.len() == 2 + ini.len() + d.len());
    assert forall|i: int| 0 <= i < head.len() implies !crate::util::chars::is_space_char(
        #[trigger] head[i],
    ) by {
        if i == 0 {
            assert(head[i] == '[');
        } else if i < 1 + ini.len() {
            assert(head[i] == ini[i - 1]);
            let j = i - 1;
            assert(crate::util::toks::valid_token(ts[j]));
            if ts[j] == arg_token() {
                assert(ini[j] == 'a');
            } else {
                assert(ini[j] == ts[j][0]);
                assert(!crate::util::chars::is_space_char(ts[j][0]));
            }
        } else if i < 1 + ini.len() + d.len() {
            assert(head[i] == d[i - 1 - ini.len()]);
            assert(crate::util::digits::is_digit_char(d[i - 1 - ini.len()]));
        } else {
            assert(head[i] == ']');
        }
    }
    assert(crate::util::toks::valid_token(head));
    let sct = shortcut_toks(ts, serial);
    assert forall|i: int| 0 <= i < sct.len() implies crate::util::toks::valid_token(
        #[trigger] sct[i],
    ) by {
        if i == 0 {
            assert(sct[i] == head);
        } else {
            assert(sct[i] == arg_token());
        }
    }
}

/// Shortcuts of paths with different placeholder counts never collide,
/// whatever their serials: their placeholder tails differ in length, so the
/// full shortcut paths differ.
pub proof fn lemma_shortcut_arity_disjoint(
    ts1: Seq<Seq<char>>,
    ts2: Seq<Seq<char>>,
    n1: nat,
    n2: nat,
)
    requires
        count_matching(ts1, arg_token()) != count_matching(ts2, arg_token()),
    ensures
        shortcut_toks(ts1, n1) != shortcut_toks(ts2, n2),
{
    assert(shortcut_toks(ts1, n1).len() == 1 + count_matching(ts1, arg_token()));
    assert(shortcut_toks(ts2, n2).len() == 1 + count_matching(ts2, arg_token()));
}

/// Different serials make different shortcuts for the same path.
pub proof fn lemma_shortcut_injective(ts: Seq<Seq<char>>, a: nat, b: nat)
    requires
        valid_toks(ts),
        ts.len() > 0,
        a >= 1,
        b >= 1,
        a != b,
    ensures
        shortcut_toks(ts, a) != shortcut_toks(ts, b),
{
    if shortcut_toks(ts, a) == shortcut_toks(ts, b) {
        assert(shortcut_toks(ts, a)[0] == shortcut_head(ts, a));
        assert(shortcut_toks(ts, b)[0] == shortcut_head(ts, b));
        let ha = shortcut_head(ts, a);
        let hb = shortcut_head(ts, b);
        assert(ha == hb);
        let l = initials(ts).len();
        crate::util::digits::lemma_dec_rep_len(a);
        crate::util::digits::lemma_dec_rep_len(b);
        if a == 1 {
            assert(ha.len() == 2 + l);
            assert(hb.len() == 2 + l + dec_rep(b).len());
            assert(false);
        } else if b == 1 {
            assert(hb.len() == 2 + l);
            assert(ha.len() == 2 + l + dec_rep(a).len());
            assert(false);
        } else {
            assert(ha.len() == 2 + l + dec_rep(a).len());
            assert(hb.len() == 2 + l + dec_rep(b).len());
            assert(dec_rep(a).len() == dec_rep(b).len());
            assert forall|i: int| 0 <= i < dec_rep(a).len() implies #[trigger] dec_rep(a)[i]
                == dec_rep(b)[i] by {
                assert(ha[1 + l + i] == dec_rep(a)[i]);
                assert(hb[1 + l + i] == dec_rep(b)[i]);
            }
            assert(dec_rep(a) =~= dec_rep(b));
            crate::util::digits::lemma_dec_rep_injective(a, b);
            assert(false);
        }
    }
}

/// Mid-scan state of the tokenizer: either no token is pending and `tv`
/// holds the finished tokens, or the scan stands at the end of the string
/// and `tv` already includes the final, unclosed token.
pub open spec fn scan_ok(s: Seq<char>, i: int, tv: Seq<Seq<char>>) -> bool {
    let acc = tok_fold(s.take(i));
    if acc.1.len() == 0 {
        tv == acc.0
    } else {
        i == s.len() && tv == acc.0.push(acc.1)
    }
}

pub struct TreePath;

impl TreePath {
    /// Splits a raw string into its white-space-delimited tokens.
    pub fn create_path(pathify_this: &str) -> (r: Vec<String>)
        ensures
            seq_views(r@) == tokenize(pathify_this@),
    {
        let n = pathify_this.unicode_len();
        let mut toks: Vec<String> = Vec::new();
        let mut i: usize = 0;
        proof {
            assert(pathify_this@.take(0) =~= Seq::<char>::empty());
            assert(seq_views(toks@) =~= tok_fold(pathify_this@.take(0)).0);
        }
        while i < n
            invariant
                n == pathify_this@.len(),
                i <= n,
                scan_ok(pathify_this@, i as int, seq_views(toks@)),
            decreases n - i,
        {
            let s = pathify_this;
            let c = s.get_char(i);
            if is_space(c) {
                proof {
                    assert(s@.take(i + 1).drop_last() =~= s@.take(i as int));
                    assert(s@.take(i + 1).last() == s@[i as int]);
                }
                i += 1;
            } else {
                let start = i;
                i += 1;
                while i < n && !is_space(s.get_char(i))
                    invariant
                        n == s@.len(),
                        start < i <= n,
                        forall|j: int| start <= j < i ==> !is_space_at(s@, j),
                    decreases n - i,
                {
                    i += 1;
                }
                let tokstr = s.substring_char(start, i);
                toks.push(tokstr.to_owned());
                proof {
                    let pre = s@.take(start as int);
                    let sub = s@.subrange(start as int, i as int);
                    assert forall|j: int| 0 <= j < sub.len() implies !crate::util::chars::is_space_char(
                        #[trigger] sub[j],
                    ) by {
                        assert(sub[j] == s@[start + j]);
                        assert(!is_space_at(s@, start + j));
                    }
                    crate::util::toks::lemma_tok_fold_append_nonspace(pre, sub);
                    assert(s@.take(i as int) =~= pre + sub);
                    assert(tok_fold(pre).1 + sub =~= sub);
                    assert(tok_fold(s@.take(i as int)) == (tok_fold(pre).0, sub));
                    assert(seq_views(toks@) =~= tok_fold(pre).0.push(sub));
                }
                if i < n {
                    proof {
                        let upto = s@.take(i as int);
                        crate::util::toks::lemma_tok_fold_append_space(upto, s@[i as int]);
                        assert(s@.take(i + 1) =~= upto.push(s@[i as int]));
                        assert(tokenize(upto) == seq_views(toks@));
                    }
                    i += 1;
                }
            }
        }
        proof {
            assert(pathify_this@.take(n as int) =~= pathify_this@);
        }
        toks
    }

    /// The canonical string of `path`: tokens joined by single spaces, all
    /// original white space normalized away.
    pub fn prettify(path: &str) -> (r: String)
        ensures
            r@ == canon(path@),
    {
        let toks = TreePath::create_path(path);
        join_slice(toks.as_slice())
    }

    /// Every non-empty leading prefix of the path, shortest first, each in
    /// canonical string form.
    pub fn get_path_hierarchy(path: &str) -> (r: Vec<String>)
        ensures
            seq_views(r@) == hier_of(tokenize(path@)),
    {
        let toks = TreePath::create_path(path);
        let ghost ts = tokenize(path@);
        let mut hierarchy: Vec<String> = Vec::new();
        let mut cur = String::new();
        let mut i: usize = 0;
        while i < toks.len()
            invariant
                seq_views(toks@) == ts,
                toks@.len() == ts.len(),
                i <= ts.len(),
                cur@ == join_toks(ts.take(i as int)),
                seq_views(hierarchy@) == hier_of(ts).take(i as int),
            decreases ts.len() - i,
        {
            if i > 0 {
                cur.append(" ");
            }
            cur.append(toks[i].as_str());
            proof {
                reveal_strlit(" ");
                assert(toks@[i as int]@ == ts[i as int]);
                assert(ts.take(i + 1).drop_last() =~= ts.take(i as int));
                assert(ts.take(i + 1).last() == ts[i as int]);
                if i == 0 {
                    assert(cur@ =~= ts[0]);
                    assert(join_toks(ts.take(1)) == ts.take(1)[0]);
                    assert(ts.take(1)[0] == ts[0]);
                } else {
                    assert(cur@ =~= join_toks(ts.take(i as int)) + seq![' '] + ts[i as int]);
                }
                assert(cur@ == join_toks(ts.take(i + 1)));
            }
            let ghost pre_h = hierarchy@;
            hierarchy.push(cur.clone());
            proof {
                assert(seq_views(pre_h).len() == i as int);
                assert(pre_h.len() == i as int);
                assert(hierarchy@.len() == i + 1);
                assert forall|j: int| 0 <= j <= i implies seq_views(hierarchy@)[j] == hier_of(
                    ts,
                ).take(i + 1)[j] by {
                    if j < i {
                        assert(hierarchy@[j] == pre_h[j]);
                        assert(seq_views(pre_h)[j] == hier_of(ts).take(i as int)[j]);
                    } else {
                        assert(hierarchy@[j]@ == cur@);
                    }
                }
                assert(seq_views(hierarchy@) =~= hier_of(ts).take(i + 1));
            }
            i += 1;
        }
        proof {
            assert(hier_of(ts).take(ts.len() as int) =~= hier_of(ts));
        }
        hierarchy
    }

    /// The canonical string of `path` with one more token at its end.
    pub fn append_path_node(path: &[String], node_to_append: &str) -> (r: String)
        ensures
            r@ == join_toks(seq_views(path@).push(node_to_append@)),
    {
        let mut s = join_slice(path);
        if path.len() > 0 {
            s.append(" ");
        }
        s.append(node_to_append);
        proof {
            reveal_strlit(" ");
            let sv = seq_views(path@);
            assert(sv.push(node_to_append@).drop_last() =~= sv);
            assert(sv.push(node_to_append@).last() == node_to_append@);
            if sv.len() == 0 {
                assert(s@ =~= join_toks(sv.push(node_to_append@)));
            } else {
                assert(s@ =~= join_toks(sv) + seq![' '] + node_to_append@);
            }
        }
        s
    }

    /// The last token of the path, if the path holds any token at all.
    pub fn get_last_node(of_path: &str) -> (r: Option<String>)
        ensures
            match r {
                Some(s) => tokenize(of_path@).len() > 0 && s@ == tokenize(of_path@).last(),
                None => tokenize(of_path@).len() == 0,
            },
    {
        let toks = TreePath::create_path(of_path);
        if toks.len() == 0 {
            None
        } else {
            let s = toks[toks.len() - 1].clone();
            proof {
                assert(seq_views(toks@)[toks@.len() - 1] == toks@[toks@.len() - 1]@);
            }
            Some(s)
        }
    }

    /// How many tokens of `path` equal the token `x_node`.
    pub fn count_x_nodes_for_path(path: &str, x_node: &str) -> (r: usize)
        ensures
            r as nat == count_matching(tokenize(path@), x_node@),
    {
        let toks = TreePath::create_path(path);
        let ghost ts = tokenize(path@);
        let mut count: usize = 0;
        let mut i: usize = 0;
        while i < toks.len()
            invariant
                seq_views(toks@) == ts,
                toks@.len() == ts.len(),
                i <= ts.len(),
                count <= i,
                count as nat == count_matching(ts.take(i as int), x_node@),
            decreases ts.len() - i,
        {
            proof {
                assert(ts.take(i + 1).drop_last() =~= ts.take(i as int));
                assert(ts.take(i + 1).last() == ts[i as int]);
                assert(toks@[i as int]@ == ts[i as int]);
            }
            if str_eq(toks[i].as_str(), x_node) {
                count += 1;
            }
            i += 1;
        }
        proof {
            assert(ts.take(ts.len() as int) =~= ts);
        }
        count
    }

    /// Rewrites a template path literally: each placeholder token is replaced,
    /// left to right, by the matching argument in quotation marks. Fails only
    /// when the placeholder count and the argument count disagree.
    pub fn reconstruct_argumented_path(path_to_reconstruct: &str, args: Vec<String>) -> (r: Option<
        String,
    >)
        ensures
            match r {
                Some(s) => {
                    &&& count_matching(tokenize(path_to_reconstruct@), arg_token())
                        == args@.len()
                    &&& s@ == join_toks(
                        subst_toks(tokenize(path_to_reconstruct@), seq_views(args@)),
                    )
                },
                None => count_matching(tokenize(path_to_reconstruct@), arg_token())
                    != args@.len(),
            },
    {
        let toks = TreePath::create_path(path_to_reconstruct);
        let ghost ts = tokenize(path_to_reconstruct@);
        let ghost av = seq_views(args@);
        let mut out: Vec<String> = Vec::new();
        let mut ai: usize = 0;
        let mut i: usize = 0;
        while i < toks.len()
            invariant
                ts == tokenize(path_to_reconstruct@),
                seq_views(toks@) == ts,
                toks@.len() == ts.len(),
                seq_views(args@) == av,
                i <= ts.len(),
                ai <= args@.len(),
                ai as nat == count_matching(ts.take(i as int), arg_token()),
                seq_views(out@) == subst_toks(ts.take(i as int), av),
            decreases ts.len() - i,
        {
            proof {
                assert(ts.take(i + 1).drop_last() =~= ts.take(i as int));
                assert(ts.take(i + 1).last() == ts[i as int]);
                assert(toks@[i as int]@ == ts[i as int]);
            }
            let ghost pre_out = out@;
            if str_eq(toks[i].as_str(), "<ARG>") {
                if ai >= args.len() {
                    proof {
                        assert(ts[i as int] == arg_token());
                        assert(count_matching(ts.take(i + 1), arg_token()) == ai + 1);
                        lemma_count_matching_take(ts, arg_token(), i + 1);
                        assert(count_matching(ts, arg_token()) >= ai + 1);
                        assert(ai == args@.len());
                        assert(count_matching(tokenize(path_to_reconstruct@), arg_token())
                            != args@.len());
                    }
                    return None;
                }
                let mut piece = String::from_str("\"");
                piece.append(args[ai].as_str());
                piece.append("\"");
                proof {
                    reveal_strlit("\"");
                    assert(piece@ =~= quoted(av[ai as int]));
                    assert(av[ai as int] == args@[ai as int]@);
                }
                out.push(piece);
                ai += 1;
            } else {
                let t = toks[i].clone();
                out.push(t);
            }
            proof {
                assert(seq_views(out@) =~= subst_toks(ts.take(i + 1), av));
            }
            i += 1;
        }
        proof {
            assert(ts.take(ts.len() as int) =~= ts);
        }
        if ai != args.len() {
            return None;
        }
        let joined = join_slice(out.as_slice());
        Some(joined)
    }

    /// Builds the bracketed acronym shortcut of a path: `[`, the first
    /// character of every token (`a` for a placeholder), the serial when it
    /// is not 1, `]`, then one placeholder token per placeholder of the path.
    pub fn create_shortcut(path: &str, serial: usize) -> (r: String)
        requires
            tokenize(path@).len() > 0,
        ensures
            r@ == join_toks(shortcut_toks(tokenize(path@), serial as nat)),
    {
        let toks = TreePath::create_path(path);
        let ghost ts = tokenize(path@);
        proof {
            crate::util::toks::lemma_tokenize_valid(path@);
        }
        let mut head = String::from_str("[");
        proof {
            reveal_strlit("[");
            assert(head@ =~= seq!['['] + initials(ts).take(0));
        }
        let mut argc: usize = 0;
        let mut i: usize = 0;
        while i < toks.len()
            invariant
                seq_views(toks@) == ts,
                toks@.len() == ts.len(),
                valid_toks(ts),
                i <= ts.len(),
                argc <= i,
                argc as nat == count_matching(ts.take(i as int), arg_token()),
                head@ == seq!['['] + initials(ts).take(i as int),
            decreases ts.len() - i,
        {
            proof {
                assert(ts.take(i + 1).drop_last() =~= ts.take(i as int));
                assert(ts.take(i + 1).last() == ts[i as int]);
                assert(toks@[i as int]@ == ts[i as int]);
                assert(valid_toks(ts) ==> crate::util::toks::valid_token(ts[i as int]));
            }
            if str_eq(toks[i].as_str(), "<ARG>") {
                head.append("a");
                argc += 1;
                proof {
                    reveal_strlit("a");
                    assert(initials(ts)[i as int] == 'a');
                    assert(head@ =~= seq!['['] + initials(ts).take(i + 1));
                }
            } else {
                let tok = toks[i].as_str();
                let first = tok.substring_char(0, 1);
                head.append(first);
                proof {
                    assert(first@ =~= seq![ts[i as int][0]]);
                    assert(initials(ts)[i as int] == ts[i as int][0]);
                    assert(head@ =~= seq!['['] + initials(ts).take(i + 1));
                }
            }
            i += 1;
        }
        proof {
            assert(initials(ts).take(ts.len() as int) =~= initials(ts));
        }
        if serial != 1 {
            let ds = usize_to_decimal(serial);
            head.append(ds.as_str());
        }
        head.append("]");
        proof {
            reveal_strlit("]");
            assert(head@ =~= shortcut_head(ts, serial as nat));
        }
        let ghost sct = shortcut_toks(ts, serial as nat);
        proof {
            assert(ts.take(ts.len() as int) =~= ts);
            assert(argc as nat == count_matching(ts, arg_token()));
            assert(sct.len() == 1 + argc);
            assert(sct[0] == shortcut_head(ts, serial as nat));
            assert(sct.take(1) =~= seq![shortcut_head(ts, serial as nat)]);
            assert(join_toks(sct.take(1)) == sct.take(1)[0]);
            assert(head@ == join_toks(sct.take(1)));
        }
        let mut k: usize = 0;
        while k < argc
            invariant
                k <= argc,
                sct == shortcut_toks(ts, serial as nat),
                sct.len() == 1 + argc,
                head@ == join_toks(sct.take(k + 1)),
            decreases argc - k,
        {
            head.append(" <ARG>");
            proof {
                reveal_strlit(" <ARG>");
                reveal_strlit("<ARG>");
                assert(" <ARG>"@ =~= seq![' '] + arg_token());
                assert(sct.take(k + 2).drop_last() =~= sct.take(k + 1));
                assert(sct[k + 1] == arg_token());
                assert(sct.take(k + 2).last() == arg_token());
                assert(head@ =~= join_toks(sct.take(k + 1)) + seq![' '] + arg_token());
                assert(head@ == join_toks(sct.take(k + 2)));
            }
            k += 1;
        }
        proof {
            assert(sct.take(1 + argc) =~= sct);
        }
        head
    }

    /// Whether the path's first token is a bracketed acronym.
    pub fn is_path_a_shortcut(path: &str) -> (r: bool)
        requires
            tokenize(path@).len() > 0,
        ensures
            r == is_shortcut_path(tokenize(path@)),
    {
        let toks = TreePath::create_path(path);
        proof {
            crate::util::toks::lemma_tokenize_valid(path@);
            assert(toks@[0]@ == tokenize(path@)[0]);
            assert(crate::util::toks::valid_token(tokenize(path@)[0]));
        }
        let first = &toks[0];
        let n = first.as_str().unicode_len();
        let c0 = first.as_str().get_char(0);
        let cl = first.as_str().get_char(n - 1);
        c0 == '[' && cl == ']'
    }
}

/// Whether the character at position `j` of `s` is white space.
pub open spec fn is_space_at(s: Seq<char>, j: int) -> bool {
    crate::util::chars::is_space_char(s[j])
}

/// Joins the strings of a slice with single spaces.
pub fn join_slice(v: &[String]) -> (r: String)
    ensures
        r@ == join_toks(seq_views(v@)),
{
    let mut s = String::new();
    let mut i: usize = 0;
    while i < v.len()
        invariant
            i <= v@.len(),
            s@ == join_toks(seq_views(v@).take(i as int)),
        decreases v@.len() - i,
    {
        if i > 0 {
            s.append(" ");
        }
        s.append(v[i].as_str());
        proof {
            reveal_strlit(" ");
            let sv = seq_views(v@);
            assert(v@[i as int]@ == sv[i as int]);
            assert(sv.take(i + 1).drop_last() =~= sv.take(i as int));
            assert(sv.take(i + 1).last() == sv[i as int]);
            if i == 0 {
                assert(s@ =~= join_toks(sv.take(1)));
            } else {
                assert(s@ =~= join_toks(sv.take(i as int)) + seq![' '] + sv[i as int]);
            }
        }
        i += 1;
    }
    proof {
        assert(seq_views(v@).take(v@.len() as int) =~= seq_views(v@));
    }
    s
}

} // verus!
