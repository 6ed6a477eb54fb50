use vstd::prelude::*;

verus! {

/// Character-wise equality of two string slices.
pub fn str_eq(a: &str, b: &str) -> (r: bool)
    ensures
        r == (a@ == b@),
{
    let alen = a.unicode_len();
    let blen = b.unicode_len();
    if alen != blen {
        return false;
    }
    let mut i: usize = 0;
    while i < alen
        invariant
            alen == a@.len(),
            blen == b@.len(),
            alen == blen,
            i <= alen,
            forall|j: int| 0 <= j < i ==> a@[j] == b@[j],
        decreases alen - i,
    {
        let ca = a.get_char(i);
        let cb = b.get_char(i);
        if ca != cb {
            return false;
        }
        i += 1;
    }
    proof {
        assert(a@ =~= b@);
    }
    true
}

pub uninterp spec fn upper_chars_of(c: char) -> Seq<char>;

/// Relies on `char::to_uppercase`: the Unicode uppercase mapping of one
/// character, a function of that character alone, as zero or more characters.
#[verifier::external_body]
fn char_to_uppercase(c: char) -> (r: String)
    ensures
        r@ == upper_chars_of(c),
{
    c.to_uppercase().collect::<String>()
}

/// A copy of `original` whose first character is replaced by its uppercase form.
pub fn clone_uppercased(original: &str) -> (r: String)
    ensures
        original@.len() == 0 ==> r@ == Seq::<char>::empty(),
        original@.len() > 0 ==> r@ == upper_chars_of(original@[0]) + original@.skip(1),
{
    let n = original.unicode_len();
    if n == 0 {
        String::new()
    } else {
        let first = original.get_char(0);
        let mut s = char_to_uppercase(first);
        let rest = original.substring_char(1, n);
        s.append(rest);
        proof {
            assert(original@.subrange(1, n as int) =~= original@.skip(1));
        }
        s
    }
}

} // verus!
