//! Random password and passphrase generation, behind trusted wrappers around
//! the outside `rand` crate. The draws are random, so the contracts state
//! only what holds of every outcome.

use vstd::prelude::*;
use crate::enumerator::chars_to_string;

verus! {

#[verifier::external_type_specification]
#[verifier::external_body]
pub struct ExThreadRng(rand::rngs::ThreadRng);

/// Relies on `rand::rng`: a handle to the thread-local generator.
#[verifier::external_body]
fn new_rng() -> rand::rngs::ThreadRng {
    rand::rng()
}

/// `c` is one of the 62 ASCII alphanumeric characters.
pub open spec fn alphanumeric_char(c: char) -> bool {
    ('a' <= c && c <= 'z') || ('A' <= c && c <= 'Z') || ('0' <= c && c <= '9')
}

/// Relies on `Rng::sample` with the `Alphanumeric` distribution: every draw
/// is one of the 62 ASCII alphanumeric characters.
#[verifier::external_body]
fn sample_alphanumeric(rng: &mut rand::rngs::ThreadRng) -> (c: char)
    ensures
        alphanumeric_char(c),
{
    rand::Rng::sample(rng, rand::distr::Alphanumeric) as char
}

/// A password of `len` characters drawn at random: every character of the
/// result is ASCII alphanumeric.
pub fn random(len: usize) -> (r: String)
    ensures
        r@.len() == len,
        forall|i: int| 0 <= i < r@.len() ==> alphanumeric_char(#[trigger] r@[i]),
{
    let mut rng = new_rng();
    let mut chars: Vec<char> = Vec::new();
    let mut i: usize = 0;
    while i < len
        invariant
            i <= len,
            chars@.len() == i,
            forall|j: int| 0 <= j < chars@.len() ==> alphanumeric_char(#[trigger] chars@[j]),
        decreases len - i,
    {
        let c = sample_alphanumeric(&mut rng);
        chars.push(c);
        i = i + 1;
    }
    chars_to_string(chars)
}

/// `sel` is a sample of `ws` without replacement: each element comes from a
/// position of `ws` of its own, no position used twice.
pub open spec fn distinct_sample(sel: Seq<Seq<char>>, ws: Seq<Seq<char>>) -> bool {
    exists|idx: Seq<int>|
        {
            &&& idx.len() == sel.len()
            &&& forall|i: int|
                0 <= i < sel.len() ==> 0 <= #[trigger] idx[i] < ws.len() && sel[i] == ws[idx[i]]
            &&& forall|i: int, j: int| 0 <= i < j < sel.len() ==> idx[i] != idx[j]
        }
}

/// Relies on `IteratorRandom::choose_multiple`: the sample holds
/// `min(amount, words.len())` of the given words, drawn without replacement
/// (reservoir sampling keeps one source position per slot); when the whole
/// list fits the amount, it is returned unchanged, in order.
#[verifier::external_body]
fn choose_words(words: &Vec<String>, rng: &mut rand::rngs::ThreadRng, amount: usize) -> (r: Vec<
    String,
>)
    ensures
        r.deep_view().len() == if amount as int <= words.deep_view().len() {
            amount as int
        } else {
            words.deep_view().len() as int
        },
        distinct_sample(r.deep_view(), words.deep_view()),
        words.deep_view().len() <= amount ==> r.deep_view() == words.deep_view(),
{
    rand::seq::IteratorRandom::choose_multiple(words.iter().cloned(), rng, amount)
}

/// The words joined with single hyphens between them.
pub open spec fn hyphen_joined(ws: Seq<Seq<char>>) -> Seq<char>
    decreases ws.len(),
{
    if ws.len() == 0 {
        Seq::empty()
    } else if ws.len() == 1 {
        ws[0]
    } else {
        hyphen_joined(ws.drop_last()) + seq!['-'] + ws.last()
    }
}

/// Joins the words with hyphens, as the passphrase is printed.
fn join_hyphen(words: &Vec<String>) -> (r: String)
    ensures
        r@ == hyphen_joined(words.deep_view()),
{
    let dash = "-";
    proof {
        reveal_strlit("-");
        assert(dash@ =~= seq!['-']);
    }
    let mut r = String::new();
    let mut i: usize = 0;
    while i < words.len()
        invariant
            i <= words@.len(),
            words.deep_view().len() == words@.len(),
            dash@ == seq!['-'],
            r@ == hyphen_joined(words.deep_view().take(i as int)),
        decreases words@.len() - i,
    {
        if i > 0 {
            r.append(dash);
        }
        r.append(words[i].as_str());
        proof {
            let dv = words.deep_view();
            assert(dv.take(i + 1).drop_last() =~= dv.take(i as int));
            assert(dv.take(i + 1).last() == dv[i as int]);
            assert(dv[i as int] == words@[i as int]@);
            if i == 0 {
                assert(hyphen_joined(dv.take(1)) == dv.take(1)[0]);
                assert(r@ =~= hyphen_joined(dv.take(i + 1)));
            } else {
                assert(dv.take(i + 1).len() >= 2);
                assert(hyphen_joined(dv.take(i + 1)) == hyphen_joined(dv.take(i as int))
                    + seq!['-'] + dv[i as int]);
            }
        }
        i = i + 1;
    }
    proof {
        assert(words.deep_view().take(words@.len() as int) =~= words.deep_view());
    }
    r
}

/// A passphrase of `len` words chosen at random from `words`, joined with
/// hyphens: the result is the hyphen-joining of some `min(len, words.len())`
/// of the words, sampled without replacement; when `len` covers the whole
/// list, of every word exactly once, in order.
pub fn phrase(words: &Vec<String>, len: usize) -> (r: String)
    ensures
        exists|sel: Seq<Seq<char>>|
            {
                &&& sel.len() == if len as int <= words.deep_view().len() {
                    len as int
                } else {
                    words.deep_view().len() as int
                }
                &&& distinct_sample(sel, words.deep_view())
                &&& words.deep_view().len() <= len ==> sel == words.deep_view()
                &&& r@ == hyphen_joined(sel)
            },
{
    let mut rng = new_rng();
    let chosen = choose_words(words, &mut rng, len);
    let r = join_hyphen(&chosen);
    proof {
        let sel = chosen.deep_view();
        assert((sel.len() == if len as int <= words.deep_view().len() {
            len as int
        } else {
            words.deep_view().len() as int
        }) && distinct_sample(sel, words.deep_view()) && (words.deep_view().len() <= len ==> sel
            == words.deep_view()) && r@ == hyphen_joined(sel));
    }
    r
}

} // verus!
