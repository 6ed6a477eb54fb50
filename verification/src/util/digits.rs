use vstd::prelude::*;

verus! {

/// The character for one decimal digit.
pub open spec fn digit_char(d: nat) -> char {
    if d == 0 {
        '0'
    } else if d == 1 {
        '1'
    } else if d == 2 {
        '2'
    } else if d == 3 {
        '3'
    } else if d == 4 {
        '4'
    } else if d == 5 {
        '5'
    } else if d == 6 {
        '6'
    } else if d == 7 {
        '7'
    } else if d == 8 {
        '8'
    } else {
        '9'
    }
}

pub open spec fn is_digit_char(c: char) -> bool {
    ||| c == '0'
    ||| c == '1'
    ||| c == '2'
    ||| c == '3'
    ||| c == '4'
    ||| c == '5'
    ||| c == '6'
    ||| c == '7'
    ||| c == '8'
    ||| c == '9'
}

/// The decimal representation of `n`, most significant digit first,
/// without leading zeroes (a single `0` for zero itself).
pub open spec fn dec_rep(n: nat) -> Seq<char>
    decreases n,
{
    if n < 10 {
        seq![digit_char(n)]
    } else {
        dec_rep(n / 10).push(digit_char(n % 10))
    }
}

pub proof fn lemma_dec_rep_len(n: nat)
    ensures
        dec_rep(n).len() >= 1,
    decreases n,
{
    if n >= 10 {
        lemma_dec_rep_len(n / 10);
    }
}

pub proof fn lemma_dec_rep_digits(n: nat)
    ensures
        forall|i: int| 0 <= i < dec_rep(n).len() ==> is_digit_char(#[trigger] dec_rep(n)[i]),
    decreases n,
{
    if n < 10 {
        assert(is_digit_char(digit_char(n)));
        assert(dec_rep(n) =~= seq![digit_char(n)]);
    } else {
        lemma_dec_rep_digits(n / 10);
        assert(is_digit_char(digit_char(n % 10)));
        assert forall|i: int| 0 <= i < dec_rep(n).len() implies is_digit_char(
            #[trigger] dec_rep(n)[i],
        ) by {
            if i < dec_rep(n / 10).len() {
                assert(dec_rep(n)[i] == dec_rep(n / 10)[i]);
            } else {
                assert(dec_rep(n)[i] == digit_char(n % 10));
            }
        }
    }
}

/// Distinct numbers never share a decimal representation.
pub proof fn lemma_dec_rep_injective(a: nat, b: nat)
    requires
        dec_rep(a) == dec_rep(b),
    ensures
        a == b,
    decreases a,
{
    lemma_dec_rep_len(a);
    lemma_dec_rep_len(b);
    if a < 10 && b < 10 {
        assert(dec_rep(a)[0] == digit_char(a));
        assert(dec_rep(b)[0] == digit_char(b));
        assert(digit_char(a) == digit_char(b));
        if a != b {
            assert(false);
        }
    } else if a < 10 && b >= 10 {
        lemma_dec_rep_len(b / 10);
        assert(dec_rep(b).len() == dec_rep(b / 10).len() + 1);
        assert(dec_rep(a).len() == 1);
    } else if a >= 10 && b < 10 {
        lemma_dec_rep_len(a / 10);
        assert(dec_rep(a).len() == dec_rep(a / 10).len() + 1);
        assert(dec_rep(b).len() == 1);
    } else {
        assert(dec_rep(a).last() == digit_char(a % 10));
        assert(dec_rep(b).last() == digit_char(b % 10));
        assert(digit_char(a % 10) == digit_char(b % 10));
        if a % 10 != b % 10 {
            assert(false);
        }
        assert(dec_rep(a).drop_last() =~= dec_rep(a / 10));
        assert(dec_rep(b).drop_last() =~= dec_rep(b / 10));
        lemma_dec_rep_injective(a / 10, b / 10);
        assert(a == 10 * (a / 10) + a % 10);
        assert(b == 10 * (b / 10) + b % 10);
    }
}

fn digit_str(d: usize) -> (r: &'static str)
    requires
        d < 10,
    ensures
        r@ == seq![digit_char(d as nat)],
{
    let r: &'static str = if d == 0 {
        "0"
    } else if d == 1 {
        "1"
    } else if d == 2 {
        "2"
    } else if d == 3 {
        "3"
    } else if d == 4 {
        "4"
    } else if d == 5 {
        "5"
    } else if d == 6 {
        "6"
    } else if d == 7 {
        "7"
    } else if d == 8 {
        "8"
    } else {
        "9"
    };
    proof {
        reveal_strlit("0");
        reveal_strlit("1");
        reveal_strlit("2");
        reveal_strlit("3");
        reveal_strlit("4");
        reveal_strlit("5");
        reveal_strlit("6");
        reveal_strlit("7");
        reveal_strlit("8");
        reveal_strlit("9");
        assert(r@ =~= seq![digit_char(d as nat)]);
    }
    r
}

/// Writes `n` in decimal.
pub fn usize_to_decimal(n: usize) -> (r: String)
    ensures
        r@ == dec_rep(n as nat),
    decreases n,
{
    let d = n % 10;
    let ds = digit_str(d);
    if n < 10 {
        let r = ds.to_owned();
        proof {
            assert(r@ =~= dec_rep(n as nat));
        }
        r
    } else {
        let mut s = usize_to_decimal(n / 10);
        s.append(ds);
        proof {
            assert(dec_rep((n / 10) as nat) + seq![digit_char((n % 10) as nat)] =~= dec_rep(
                n as nat,
            ));
        }
        s
    }
}

} // verus!
