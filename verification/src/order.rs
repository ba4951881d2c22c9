//! Lexicographic order on strings, the order in which tag names are listed,
//! together with a verified comparison and sorted insertion.

use vstd::prelude::*;
use vstd::string::StrSliceExecFns;

verus! {

/// Lexicographic order on character sequences, by code point.
pub open spec fn lex_le(a: Seq<char>, b: Seq<char>) -> bool
    decreases a.len(),
{
    if a.len() == 0 {
        true
    } else if b.len() == 0 {
        false
    } else if (a[0] as u32) < (b[0] as u32) {
        true
    } else if (a[0] as u32) > (b[0] as u32) {
        false
    } else {
        lex_le(a.skip(1), b.skip(1))
    }
}

/// `lex_le` is total.
pub proof fn lemma_lex_le_total(a: Seq<char>, b: Seq<char>)
    ensures
        lex_le(a, b) || lex_le(b, a),
    decreases a.len(),
{
    if a.len() == 0 {
    } else if b.len() == 0 {
    } else if (a[0] as u32) == (b[0] as u32) {
        lemma_lex_le_total(a.skip(1), b.skip(1));
    }
}

/// `lex_le` is transitive.
pub proof fn lemma_lex_le_trans(a: Seq<char>, b: Seq<char>, c: Seq<char>)
    requires
        lex_le(a, b),
        lex_le(b, c),
    ensures
        lex_le(a, c),
    decreases a.len(),
{
    if a.len() == 0 {
    } else if b.len() == 0 {
    } else if c.len() == 0 {
    } else if (a[0] as u32) == (b[0] as u32) && (b[0] as u32) == (c[0] as u32) {
        lemma_lex_le_trans(a.skip(1), b.skip(1), c.skip(1));
    }
}

/// A name occurs in a vector of strings.
pub open spec fn name_in(v: Seq<String>, n: Seq<char>) -> bool {
    exists|i: int| 0 <= i < v.len() && v[i]@ == n
}

/// The names of a vector of strings, as a set of character sequences.
pub open spec fn names_set(v: Seq<String>) -> Set<Seq<char>> {
    Set::new(|n: Seq<char>| name_in(v, n))
}

/// The strings are in (non-strict) alphabetical order.
pub open spec fn sorted_names(v: Seq<String>) -> bool {
    forall|i: int, j: int| 0 <= i < j < v.len() ==> lex_le(#[trigger] v[i]@, #[trigger] v[j]@)
}

/// No two strings read the same.
pub open spec fn distinct_names(v: Seq<String>) -> bool {
    forall|i: int, j: int| 0 <= i < j < v.len() ==> #[trigger] v[i]@ != #[trigger] v[j]@
}

/// Compares two strings in lexicographic order, character by character.
pub fn str_le(a: &str, b: &str) -> (r: bool)
    ensures
        r == lex_le(a@, b@),
{
    let alen = a.unicode_len();
    let blen = b.unicode_len();
    proof {
        assert(a@.skip(0) =~= a@);
        assert(b@.skip(0) =~= b@);
    }
    let mut i: usize = 0;
    loop
        invariant
            i <= alen,
            i <= blen,
            alen == a@.len(),
            blen == b@.len(),
            lex_le(a@, b@) == lex_le(a@.skip(i as int), b@.skip(i as int)),
        decreases alen - i,
    {
        if i == alen {
            return true;
        }
        if i == blen {
            return false;
        }
        let ca = a.get_char(i);
        let cb = b.get_char(i);
        if (ca as u32) < (cb as u32) {
            return true;
        }
        if (ca as u32) > (cb as u32) {
            return false;
        }
        proof {
            assert(a@.skip(i as int).skip(1) =~= a@.skip(i as int + 1));
            assert(b@.skip(i as int).skip(1) =~= b@.skip(i as int + 1));
        }
        i = i + 1;
    }
}

/// The index before which a new name belongs in a sorted vector.
fn lower_bound(v: &Vec<String>, x: &str) -> (k: usize)
    ensures
        k <= v@.len(),
        forall|i: int| 0 <= i < k ==> lex_le(#[trigger] v@[i]@, x@),
        k < v@.len() ==> !lex_le(v@[k as int]@, x@),
{
    let mut k: usize = 0;
    while k < v.len()
        invariant
            k <= v@.len(),
            forall|i: int| 0 <= i < k ==> lex_le(#[trigger] v@[i]@, x@),
        decreases v@.len() - k,
    {
        if !str_le(v[k].as_str(), x) {
            return k;
        }
        k = k + 1;
    }
    k
}

/// Inserts a fresh name into an alphabetically sorted vector, keeping it
/// sorted.
pub fn insert_name_sorted(v: &mut Vec<String>, x: String)
    requires
        sorted_names(old(v)@),
        distinct_names(old(v)@),
        !name_in(old(v)@, x@),
    ensures
        sorted_names(final(v)@),
        distinct_names(final(v)@),
        final(v)@.len() == old(v)@.len() + 1,
        forall|n: Seq<char>| name_in(final(v)@, n) <==> name_in(old(v)@, n) || n == x@,
{
    let k = lower_bound(v, x.as_str());
    proof {
        if k < v@.len() {
            lemma_lex_le_total(v@[k as int]@, x@);
            assert forall|j: int| k <= j < v@.len() implies lex_le(x@, #[trigger] v@[j]@) by {
                if j > k {
                    lemma_lex_le_trans(x@, v@[k as int]@, v@[j]@);
                }
            }
        }
    }
    let ghost before = v@;
    v.insert(k, x);
    proof {
        assert(forall|i: int| 0 <= i < k ==> v@[i] == before[i]);
        assert(v@[k as int]@ == x@);
        assert(forall|i: int| k < i < v@.len() ==> v@[i] == before[i - 1]);
        assert forall|i: int, j: int| 0 <= i < j < v@.len() implies lex_le(
            #[trigger] v@[i]@,
            #[trigger] v@[j]@,
        ) by {
            if i == k {
                assert(lex_le(x@, before[j - 1]@));
            } else if j == k {
                assert(lex_le(before[i]@, x@));
            } else if i < k && j > k {
                assert(lex_le(before[i]@, before[j - 1]@));
            }
        }
        assert forall|i: int, j: int| 0 <= i < j < v@.len() implies #[trigger] v@[i]@
            != #[trigger] v@[j]@ by {
            if i == k {
                assert(before[j - 1]@ != x@) by {
                    assert(name_in(before, before[j - 1]@));
                }
            } else if j == k {
                assert(before[i]@ != x@) by {
                    assert(name_in(before, before[i]@));
                }
            }
        }
        assert forall|n: Seq<char>| name_in(v@, n) implies name_in(before, n) || n == x@ by {
            let i = choose|i: int| 0 <= i < v@.len() && v@[i]@ == n;
            if i < k {
                assert(before[i]@ == n);
            } else if i > k {
                assert(before[i - 1]@ == n);
            }
        }
        assert forall|n: Seq<char>| name_in(before, n) implies name_in(v@, n) by {
            let i = choose|i: int| 0 <= i < before.len() && before[i]@ == n;
            if i < k {
                assert(v@[i]@ == n);
            } else {
                assert(v@[i + 1]@ == n);
            }
        }
        assert(name_in(v@, x@)) by {
            assert(v@[k as int]@ == x@);
        }
    }
}

} // verus!
