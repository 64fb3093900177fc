//! The index enumerator: a mixed-radix bijection between integers and
//! fixed-width strings over an alphabet.
//!
//! A string of width `w` over an alphabet of `k` characters is read as a
//! base-`k` number, most significant digit first. [`nth_seq`] maps an index to
//! the string; [`rank`] maps a string back to its index. The lemmas below show
//! that the two are inverse to each other on `[0, pow(k, w))`, that the map is
//! injective, and that it enumerates the strings in lexicographic order.

use vstd::prelude::*;
use vstd::arithmetic::power::{pow, lemma_pow0, lemma_pow_positive};
use vstd::arithmetic::div_mod::{
    lemma_fundamental_div_mod, lemma_fundamental_div_mod_converse, lemma_multiply_divide_lt,
    lemma_div_is_ordered, lemma_div_basics, lemma_div_denominator,
};

verus! {

/// An alphabet is usable when no character occurs twice.
pub open spec fn distinct_chars(alpha: Seq<char>) -> bool {
    forall|i: int, j: int| 0 <= i < j < alpha.len() ==> alpha[i] != alpha[j]
}

/// The string of length `width` over `alpha` whose characters, read left to
/// right as digits of a base-`alpha.len()` number (most significant first),
/// encode `n`.
pub open spec fn nth_seq(alpha: Seq<char>, width: nat, n: nat) -> Seq<char>
    decreases width,
{
    if width == 0 {
        Seq::empty()
    } else {
        nth_seq(alpha, (width - 1) as nat, n / alpha.len()).push(alpha[(n % alpha.len()) as int])
    }
}

/// The position of `c` in `alpha`, when `c` occurs there.
pub open spec fn char_index(alpha: Seq<char>, c: char) -> int {
    choose|i: int| 0 <= i < alpha.len() && alpha[i] == c
}

/// The index that [`nth_seq`] maps to `s`: the value of `s` read as a
/// base-`alpha.len()` number, most significant digit first.
pub open spec fn rank(alpha: Seq<char>, s: Seq<char>) -> int
    decreases s.len(),
{
    if s.len() == 0 {
        0
    } else {
        rank(alpha, s.drop_last()) * alpha.len() + char_index(alpha, s.last())
    }
}

/// `s` sorts strictly before `t` in the lexicographic order induced by the
/// positions of the characters in `alpha`.
pub open spec fn lex_before(alpha: Seq<char>, s: Seq<char>, t: Seq<char>) -> bool {
    exists|j: int|
        0 <= j < s.len() && j < t.len() && s.take(j) == t.take(j) && char_index(alpha, s[j])
            < char_index(alpha, t[j])
}

/// The enumerated string always has exactly the requested width.
pub proof fn lemma_nth_seq_len(alpha: Seq<char>, width: nat, n: nat)
    requires
        alpha.len() >= 1,
    ensures
        nth_seq(alpha, width, n).len() == width,
    decreases width,
{
    if width > 0 {
        lemma_nth_seq_len(alpha, (width - 1) as nat, n / alpha.len());
    }
}

/// Every character of an enumerated string is drawn from the alphabet.
pub proof fn lemma_nth_seq_in_alpha(alpha: Seq<char>, width: nat, n: nat)
    requires
        alpha.len() >= 1,
    ensures
        forall|i: int| 0 <= i < nth_seq(alpha, width, n).len() ==> alpha.contains(
            #[trigger] nth_seq(alpha, width, n)[i],
        ),
    decreases width,
{
    if width > 0 {
        lemma_nth_seq_in_alpha(alpha, (width - 1) as nat, n / alpha.len());
        lemma_nth_seq_len(alpha, (width - 1) as nat, n / alpha.len());
        let s = nth_seq(alpha, width, n);
        let d = (n % alpha.len()) as int;
        assert(alpha[d] == s[width - 1]);
        assert(alpha.contains(alpha[d]));
    }
}

/// The digit formula: at position `i` counted from the right (0-indexed),
/// the enumerated string holds the alphabet entry `(n / k^i) % k`.
pub proof fn lemma_nth_seq_digit(alpha: Seq<char>, width: nat, n: nat, i: nat)
    requires
        alpha.len() >= 1,
        i < width,
    ensures
        nth_seq(alpha, width, n)[width - 1 - i] == alpha[(n as int / pow(alpha.len() as int, i))
            % (alpha.len() as int)],
    decreases width,
{
    let k = alpha.len() as int;
    lemma_nth_seq_len(alpha, (width - 1) as nat, n / alpha.len());
    if i == 0 {
        lemma_pow0(k);
        lemma_div_basics(n as int);
    } else {
        lemma_nth_seq_digit(alpha, (width - 1) as nat, n / alpha.len(), (i - 1) as nat);
        assert(pow(k, i) == k * pow(k, (i - 1) as nat)) by {
            reveal(pow);
        }
        lemma_pow_positive(k, (i - 1) as nat);
        lemma_div_denominator(n as int, k, pow(k, (i - 1) as nat));
        assert(((n / alpha.len()) as int) / pow(k, (i - 1) as nat) == n as int / pow(k, i));
        assert(nth_seq(alpha, width, n)[width - 1 - i] == nth_seq(alpha, (width - 1) as nat, n
            / alpha.len())[width - 2 - (i - 1)]);
    }
}

/// In a distinct alphabet, looking up the position of `alpha[d]` gives `d`.
pub proof fn lemma_char_index_of(alpha: Seq<char>, d: int)
    requires
        distinct_chars(alpha),
        0 <= d < alpha.len(),
    ensures
        char_index(alpha, alpha[d]) == d,
{
    assert(0 <= d < alpha.len() && alpha[d] == alpha[d]);
    let i = char_index(alpha, alpha[d]);
    assert(0 <= i < alpha.len() && alpha[i] == alpha[d]);
}

/// For a character of the alphabet, `char_index` returns a valid position
/// holding that character.
pub proof fn lemma_char_index_contains(alpha: Seq<char>, c: char)
    requires
        alpha.contains(c),
    ensures
        0 <= char_index(alpha, c) < alpha.len(),
        alpha[char_index(alpha, c)] == c,
{
    let w = choose|i: int| 0 <= i < alpha.len() && alpha[i] == c;
    assert(0 <= w < alpha.len() && alpha[w] == c);
}

/// Reading the enumerated string back as a number recovers the index:
/// `rank` is a left inverse of `nth_seq` on `[0, pow(k, width))`.
pub proof fn lemma_rank_nth_seq(alpha: Seq<char>, width: nat, n: nat)
    requires
        distinct_chars(alpha),
        alpha.len() >= 1,
        n < pow(alpha.len() as int, width),
    ensures
        rank(alpha, nth_seq(alpha, width, n)) == n,
    decreases width,
{
    let k = alpha.len() as int;
    if width == 0 {
        lemma_pow0(k);
    } else {
        let prefix = nth_seq(alpha, (width - 1) as nat, n / alpha.len());
        let d = (n % alpha.len()) as int;
        let s = nth_seq(alpha, width, n);
        lemma_nth_seq_len(alpha, (width - 1) as nat, n / alpha.len());
        assert(s.drop_last() =~= prefix);
        assert(s.last() == alpha[d]);
        assert(pow(k, width) == k * pow(k, (width - 1) as nat)) by {
            reveal(pow);
        }
        lemma_multiply_divide_lt(n as int, k, pow(k, (width - 1) as nat));
        lemma_rank_nth_seq(alpha, (width - 1) as nat, n / alpha.len());
        lemma_char_index_of(alpha, d);
        lemma_fundamental_div_mod(n as int, k);
        assert(rank(alpha, s) == (n / alpha.len()) * k + d);
    }
}

/// The rank of a string over the alphabet is a valid index: it lies in
/// `[0, pow(k, s.len()))`.
pub proof fn lemma_rank_bound(alpha: Seq<char>, s: Seq<char>)
    requires
        alpha.len() >= 1,
        forall|i: int| 0 <= i < s.len() ==> alpha.contains(#[trigger] s[i]),
    ensures
        0 <= rank(alpha, s) < pow(alpha.len() as int, s.len()),
    decreases s.len(),
{
    let k = alpha.len() as int;
    if s.len() == 0 {
        lemma_pow0(k);
    } else {
        let t = s.drop_last();
        assert(forall|i: int| 0 <= i < t.len() ==> alpha.contains(#[trigger] t[i])) by {
            assert(forall|i: int| 0 <= i < t.len() ==> t[i] == s[i]);
        }
        lemma_rank_bound(alpha, t);
        assert(alpha.contains(s.last()));
        lemma_char_index_contains(alpha, s.last());
        let q = rank(alpha, t);
        let d = char_index(alpha, s.last());
        assert(pow(k, s.len()) == k * pow(k, (s.len() - 1) as nat)) by {
            reveal(pow);
        }
        assert(q * k + d < pow(k, (s.len() - 1) as nat) * k) by (nonlinear_arith)
            requires
                q < pow(k, (s.len() - 1) as nat),
                d < k,
                0 <= q,
                0 <= d,
                k >= 1,
        ;
        assert(q * k + d >= 0) by (nonlinear_arith)
            requires
                0 <= q,
                0 <= d,
                k >= 1,
        ;
        assert(rank(alpha, s) == q * k + d);
        assert(pow(k, (s.len() - 1) as nat) * k == k * pow(k, (s.len() - 1) as nat)) by (nonlinear_arith);
    }
}

/// Enumerating at the rank of a string gives the string back: `rank` is a
/// right inverse of `nth_seq`, so every string of width `s.len()` over the
/// alphabet is reached by some index.
pub proof fn lemma_nth_seq_rank(alpha: Seq<char>, s: Seq<char>)
    requires
        distinct_chars(alpha),
        alpha.len() >= 1,
        forall|i: int| 0 <= i < s.len() ==> alpha.contains(#[trigger] s[i]),
    ensures
        nth_seq(alpha, s.len(), rank(alpha, s) as nat) == s,
    decreases s.len(),
{
    let k = alpha.len() as int;
    if s.len() > 0 {
        let t = s.drop_last();
        assert(forall|i: int| 0 <= i < t.len() ==> alpha.contains(#[trigger] t[i])) by {
            assert(forall|i: int| 0 <= i < t.len() ==> t[i] == s[i]);
        }
        assert(alpha.contains(s.last()));
        lemma_char_index_contains(alpha, s.last());
        lemma_rank_bound(alpha, t);
        let q = rank(alpha, t);
        let d = char_index(alpha, s.last());
        let n = rank(alpha, s);
        assert(n == q * k + d);
        lemma_fundamental_div_mod_converse(n, k, q, d);
        assert(n / k == q);
        assert(n % k == d);
        lemma_nth_seq_rank(alpha, t);
        let w = s.len();
        assert((n as nat) / alpha.len() == q as nat);
        assert(((n as nat) % alpha.len()) as int == d);
        assert(nth_seq(alpha, w, n as nat) =~= s) by {
            assert(nth_seq(alpha, (w - 1) as nat, q as nat) == t);
            assert(alpha[d] == s.last());
        }
    }
}

/// No two distinct indices in range enumerate the same string.
pub proof fn lemma_nth_seq_injective(alpha: Seq<char>, width: nat, n1: nat, n2: nat)
    requires
        distinct_chars(alpha),
        alpha.len() >= 1,
        n1 < pow(alpha.len() as int, width),
        n2 < pow(alpha.len() as int, width),
        n1 != n2,
    ensures
        nth_seq(alpha, width, n1) != nth_seq(alpha, width, n2),
{
    if nth_seq(alpha, width, n1) == nth_seq(alpha, width, n2) {
        lemma_rank_nth_seq(alpha, width, n1);
        lemma_rank_nth_seq(alpha, width, n2);
    }
}

/// Every string of width `s.len()` over the alphabet is enumerated by exactly
/// one index in range, namely its rank.
pub proof fn lemma_nth_seq_surjective(alpha: Seq<char>, s: Seq<char>)
    requires
        distinct_chars(alpha),
        alpha.len() >= 1,
        forall|i: int| 0 <= i < s.len() ==> alpha.contains(#[trigger] s[i]),
    ensures
        0 <= rank(alpha, s) < pow(alpha.len() as int, s.len()),
        nth_seq(alpha, s.len(), rank(alpha, s) as nat) == s,
        forall|n: nat|
            n < pow(alpha.len() as int, s.len()) && nth_seq(alpha, s.len(), n) == s ==> n == rank(
                alpha,
                s,
            ),
{
    lemma_rank_bound(alpha, s);
    lemma_nth_seq_rank(alpha, s);
    assert forall|n: nat|
        n < pow(alpha.len() as int, s.len()) && nth_seq(alpha, s.len(), n) == s implies n == rank(
        alpha,
        s,
    ) by {
        lemma_rank_nth_seq(alpha, s.len(), n);
    }
}

/// Enumeration order is lexicographic: a smaller index in range gives a string
/// that sorts strictly before, by the alphabet's character order.
pub proof fn lemma_nth_seq_lex_order(alpha: Seq<char>, width: nat, n1: nat, n2: nat)
    requires
        distinct_chars(alpha),
        alpha.len() >= 1,
        n1 < n2,
        n2 < pow(alpha.len() as int, width),
    ensures
        lex_before(alpha, nth_seq(alpha, width, n1), nth_seq(alpha, width, n2)),
    decreases width,
{
    let k = alpha.len() as int;
    let kn = alpha.len();
    if width == 0 {
        lemma_pow0(k);
    } else {
        let w1 = (width - 1) as nat;
        let q1 = n1 / kn;
        let q2 = n2 / kn;
        let d1 = (n1 % kn) as int;
        let d2 = (n2 % kn) as int;
        let a1 = nth_seq(alpha, w1, q1);
        let a2 = nth_seq(alpha, w1, q2);
        let s = nth_seq(alpha, width, n1);
        let t = nth_seq(alpha, width, n2);
        lemma_nth_seq_len(alpha, w1, q1);
        lemma_nth_seq_len(alpha, w1, q2);
        lemma_nth_seq_len(alpha, width, n1);
        lemma_nth_seq_len(alpha, width, n2);
        lemma_fundamental_div_mod(n1 as int, k);
        lemma_fundamental_div_mod(n2 as int, k);
        lemma_div_is_ordered(n1 as int, n2 as int, k);
        if q1 == q2 {
            assert(a1 == a2);
            assert(d1 < d2) by {
                assert(n1 as int == q1 * k + d1);
                assert(n2 as int == q2 * k + d2);
            }
            lemma_char_index_of(alpha, d1);
            lemma_char_index_of(alpha, d2);
            let j = width - 1;
            assert(s.take(j) =~= t.take(j));
            assert(s[j] == alpha[d1]);
            assert(t[j] == alpha[d2]);
            assert(0 <= j < s.len() && j < t.len() && s.take(j) == t.take(j) && char_index(
                alpha,
                s[j],
            ) < char_index(alpha, t[j]));
        } else {
            assert(q1 < q2);
            assert(pow(k, width) == k * pow(k, w1)) by {
                reveal(pow);
            }
            lemma_multiply_divide_lt(n2 as int, k, pow(k, w1));
            lemma_nth_seq_lex_order(alpha, w1, q1, q2);
            let j = choose|j: int|
                0 <= j < a1.len() && j < a2.len() && a1.take(j) == a2.take(j) && char_index(
                    alpha,
                    a1[j],
                ) < char_index(alpha, a2[j]);
            assert(s.take(j) =~= a1.take(j));
            assert(t.take(j) =~= a2.take(j));
            assert(s[j] == a1[j]);
            assert(t[j] == a2[j]);
            assert(0 <= j < s.len() && j < t.len() && s.take(j) == t.take(j) && char_index(
                alpha,
                s[j],
            ) < char_index(alpha, t[j]));
        }
    }
}

/// Builds the characters of the string that [`nth_seq`] assigns to index `n`.
fn nth_chars(char_set: &[char], width: u32, n: usize) -> (r: Vec<char>)
    requires
        char_set@.len() >= 1,
    ensures
        r@ == nth_seq(char_set@, width as nat, n as nat),
    decreases width,
{
    if width == 0 {
        let r: Vec<char> = Vec::new();
        assert(r@ =~= nth_seq(char_set@, 0, n as nat));
        r
    } else {
        let k = char_set.len();
        let mut r = nth_chars(char_set, width - 1, n / k);
        let c = char_set[n % k];
        r.push(c);
        assert(r@ =~= nth_seq(char_set@, width as nat, n as nat));
        r
    }
}

/// Relies on `String`'s `FromIterator<char>` impl: collecting characters
/// yields the string of exactly those characters, in order.
#[verifier::external_body]
pub(crate) fn chars_to_string(chars: Vec<char>) -> (r: String)
    ensures
        r@ == chars@,
{
    chars.into_iter().collect()
}

/// The `n`th password of the given width over `char_set`: the unique string
/// whose characters, read as base-`char_set.len()` digits (most significant
/// first), encode `n`.
pub fn nth_password(char_set: &[char], width: u32, n: usize) -> (r: String)
    requires
        char_set@.len() >= 1,
        width >= 1,
    ensures
        r@ == nth_seq(char_set@, width as nat, n as nat),
        r@.len() == width,
{
    proof {
        lemma_nth_seq_len(char_set@, width as nat, n as nat);
    }
    let chars = nth_chars(char_set, width, n);
    chars_to_string(chars)
}

} // verus!
