//! Exhaustive MD5 search over the fixed alphanumeric alphabet.

use vstd::prelude::*;
use vstd::arithmetic::power::{pow, lemma_pow_increases};
use crate::enumerator::{distinct_chars, nth_seq, nth_password, lemma_nth_seq_in_alpha};
use crate::digest::{ascii_bytes, md5_hex_of, md5_hex};

verus! {

/// The character at position `i` of the search alphabet: the lowercase
/// letters, then the uppercase letters, then the digits.
pub open spec fn alphabet_char(i: int) -> char {
    if i < 26 {
        (('a' as u8) + i) as char
    } else if i < 52 {
        (('A' as u8) + (i - 26)) as char
    } else {
        (('0' as u8) + (i - 52)) as char
    }
}

/// The fixed search alphabet `[a-zA-Z0-9]`, in that order.
pub open spec fn std_alphabet() -> Seq<char> {
    Seq::new(62, |i: int| alphabet_char(i))
}

/// The search alphabet has 62 distinct ASCII characters.
pub proof fn lemma_std_alphabet_wf()
    ensures
        std_alphabet().len() == 62,
        distinct_chars(std_alphabet()),
        forall|i: int| 0 <= i < 62 ==> '\0' <= #[trigger] std_alphabet()[i] <= '\u{7f}',
{
    assert forall|i: int, j: int| 0 <= i < j < 62 implies std_alphabet()[i]
        != std_alphabet()[j] by {
        assert(std_alphabet()[i] == alphabet_char(i));
        assert(std_alphabet()[j] == alphabet_char(j));
        assert(alphabet_char(i) as int != alphabet_char(j) as int);
    }
    assert forall|i: int| 0 <= i < 62 implies '\0' <= #[trigger] std_alphabet()[i] <= '\u{7f}' by {
        assert(std_alphabet()[i] == alphabet_char(i));
    }
}

/// Builds the search alphabet as a vector.
fn std_charset() -> (r: Vec<char>)
    ensures
        r@ == std_alphabet(),
{
    let mut r: Vec<char> = Vec::new();
    let mut b: u8 = 97;
    while b <= 122
        invariant
            97 <= b <= 123,
            r@.len() == b - 97,
            forall|i: int| 0 <= i < r@.len() ==> r@[i] == alphabet_char(i),
        decreases 123 - b,
    {
        r.push(b as char);
        b = b + 1;
    }
    let mut b: u8 = 65;
    while b <= 90
        invariant
            65 <= b <= 91,
            r@.len() == 26 + (b - 65),
            forall|i: int| 0 <= i < r@.len() ==> r@[i] == alphabet_char(i),
        decreases 91 - b,
    {
        r.push(b as char);
        b = b + 1;
    }
    let mut b: u8 = 48;
    while b <= 57
        invariant
            48 <= b <= 58,
            r@.len() == 52 + (b - 48),
            forall|i: int| 0 <= i < r@.len() ==> r@[i] == alphabet_char(i),
        decreases 58 - b,
    {
        r.push(b as char);
        b = b + 1;
    }
    assert(r@ =~= std_alphabet());
    r
}

/// `base` to the power `exp`, when it fits the machine word.
fn pow_usize(base: usize, exp: u32) -> (r: usize)
    requires
        base >= 1,
        pow(base as int, exp as nat) <= usize::MAX,
    ensures
        r == pow(base as int, exp as nat),
{
    let mut r: usize = 1;
    let mut i: u32 = 0;
    assert(pow(base as int, 0) == 1) by {
        reveal(pow);
    }
    while i < exp
        invariant
            base >= 1,
            i <= exp,
            r == pow(base as int, i as nat),
            pow(base as int, exp as nat) <= usize::MAX,
        decreases exp - i,
    {
        proof {
            assert(pow(base as int, (i + 1) as nat) == base * pow(base as int, i as nat)) by {
                reveal(pow);
            }
            lemma_pow_increases(base as nat, (i + 1) as nat, exp as nat);
        }
        r = r * base;
        i = i + 1;
    }
    r
}

/// Index `n` of width `w` is a hit: the MD5 digest of the `n`th candidate of
/// that width equals the target.
pub open spec fn hits(target: Seq<char>, w: nat, n: nat) -> bool {
    md5_hex_of(ascii_bytes(nth_seq(std_alphabet(), w, n))) == target
}

/// Candidate `(w1, n1)` is tried before candidate `(w2, n2)`: widths grow
/// outward, and indices grow within one width.
pub open spec fn tried_before(w1: nat, n1: nat, w2: nat, n2: nat) -> bool {
    w1 < w2 || (w1 == w2 && n1 < n2)
}

/// No candidate of any width up to `maxw` hashes to the target.
pub open spec fn no_hit_up_to(target: Seq<char>, maxw: nat) -> bool {
    forall|w: nat, n: nat| 1 <= w <= maxw && n < pow(62, w) ==> !#[trigger] hits(target, w, n)
}

/// Exhaustive MD5 search: tries every candidate of widths `1..=length` over
/// the alphanumeric alphabet, in enumeration order, and returns the first one
/// whose digest equals `hash`, or `None` after the whole space is exhausted.
pub fn bruteforce(hash: &str, length: u32) -> (r: Option<String>)
    requires
        pow(62, length as nat) <= usize::MAX,
    ensures
        match r {
            Some(p) => exists|w: nat, n: nat|
                {
                    &&& 1 <= w <= length
                    &&& n < pow(62, w)
                    &&& p@ == nth_seq(std_alphabet(), w, n)
                    &&& #[trigger] hits(hash@, w, n)
                    &&& forall|w2: nat, n2: nat|
                        1 <= w2 && n2 < pow(62, w2) && tried_before(w2, n2, w, n)
                            ==> !#[trigger] hits(hash@, w2, n2)
                },
            None => no_hit_up_to(hash@, length as nat),
        },
{
    let char_set = std_charset();
    let target: String = hash.to_owned();
    proof {
        lemma_std_alphabet_wf();
        if length > 10 {
            lemma_pow_increases(62, 11, length as nat);
            assert(pow(62, 11) == 52036560683837093888) by {
                reveal_with_fuel(pow, 12);
            }
        }
        assert(length <= 10);
    }
    let mut width: u32 = 1;
    while width <= length
        invariant
            char_set@ == std_alphabet(),
            target@ == hash@,
            1 <= width,
            length <= 10,
            width <= length + 1,
            pow(62, length as nat) <= usize::MAX,
            no_hit_up_to(hash@, (width - 1) as nat),
        decreases length + 1 - width,
    {
        proof {
            lemma_pow_increases(62, width as nat, length as nat);
        }
        let count = pow_usize(62, width);
        let mut n: usize = 0;
        while n < count
            invariant
                char_set@ == std_alphabet(),
                target@ == hash@,
                1 <= width <= length,
                count == pow(62, width as nat),
                count <= usize::MAX,
                n <= count,
                pow(62, length as nat) <= usize::MAX,
                no_hit_up_to(hash@, (width - 1) as nat),
                forall|m: nat| m < n ==> !#[trigger] hits(hash@, width as nat, m),
            decreases count - n,
        {
            let pass = nth_password(char_set.as_slice(), width, n);
            proof {
                lemma_std_alphabet_wf();
                lemma_nth_seq_in_alpha(std_alphabet(), width as nat, n as nat);
                assert forall|i: int| 0 <= i < pass@.len() implies '\0' <= #[trigger] pass@[i]
                    <= '\u{7f}' by {
                    assert(std_alphabet().contains(pass@[i]));
                    let w = choose|w: int|
                        0 <= w < std_alphabet().len() && std_alphabet()[w] == pass@[i];
                    assert('\0' <= std_alphabet()[w] <= '\u{7f}');
                }
                assert(vstd::utf8::is_ascii_chars(pass@));
            }
            let pass_str = pass.as_str();
            proof {
                vstd::string::is_ascii_spec_bytes(pass_str);
            }
            let bytes = pass_str.as_bytes();
            proof {
                assert(bytes@ =~= ascii_bytes(pass@));
            }
            let pass_hash = md5_hex(bytes);
            if pass_hash == target {
                proof {
                    assert(hits(hash@, width as nat, n as nat));
                    assert forall|w2: nat, n2: nat|
                        1 <= w2 && n2 < pow(62, w2) && tried_before(w2, n2, width as nat, n as nat)
                            implies !#[trigger] hits(hash@, w2, n2) by {
                        if w2 < width as nat {
                            assert(!hits(hash@, w2, n2));
                        } else {
                            assert(w2 == width as nat && n2 < n as nat);
                        }
                    }
                }
                return Some(pass);
            }
            n = n + 1;
        }
        proof {
            assert forall|w: nat, m: nat|
                1 <= w <= width as nat && m < pow(62, w) implies !#[trigger] hits(
                hash@,
                w,
                m,
            ) by {
                if w < width as nat {
                    assert(!hits(hash@, w, m));
                }
            }
            assert(no_hit_up_to(hash@, width as nat));
        }
        width = width + 1;
    }
    None
}

/// A line with its terminator removed: a trailing line feed goes first, then
/// a trailing carriage return, so `\n` and `\r\n` endings compare equal.
pub open spec fn stripped(line: Seq<u8>) -> Seq<u8> {
    let no_lf = if line.len() > 0 && line.last() == 10u8 {
        line.drop_last()
    } else {
        line
    };
    if no_lf.len() > 0 && no_lf.last() == 13u8 {
        no_lf.drop_last()
    } else {
        no_lf
    }
}

/// The line without its terminator.
fn stripped_slice(line: &[u8]) -> (r: &[u8])
    ensures
        r@ == stripped(line@),
{
    let mut end = line.len();
    if end > 0 && line[end - 1] == 10 {
        end = end - 1;
    }
    if end > 0 && line[end - 1] == 13 {
        end = end - 1;
    }
    let r = &line[0..end];
    proof {
        assert(r@ =~= stripped(line@));
    }
    r
}

/// Dictionary MD5 search: hashes each line in turn, terminator stripped, and
/// returns the first line whose digest equals `hash` together with its
/// position, or `None` once every line has been tried.
pub fn wordlist(lines: &Vec<Vec<u8>>, hash: &str) -> (r: Option<(usize, Vec<u8>)>)
    ensures
        match r {
            Some((i, p)) => {
                &&& i < lines@.len()
                &&& p@ == stripped(lines@[i as int]@)
                &&& md5_hex_of(p@) == hash@
                &&& forall|j: int|
                    0 <= j < i ==> #[trigger] md5_hex_of(stripped(lines@[j]@)) != hash@
            },
            None => forall|j: int|
                0 <= j < lines@.len() ==> #[trigger] md5_hex_of(stripped(lines@[j]@)) != hash@,
        },
{
    let target: String = hash.to_owned();
    let mut i: usize = 0;
    while i < lines.len()
        invariant
            target@ == hash@,
            i <= lines@.len(),
            forall|j: int| 0 <= j < i ==> #[trigger] md5_hex_of(stripped(lines@[j]@)) != hash@,
        decreases lines@.len() - i,
    {
        let line = &lines[i];
        let s = stripped_slice(line.as_slice());
        let pass_hash = md5_hex(s);
        if pass_hash == target {
            let p = vstd::slice::slice_to_vec(s);
            return Some((i, p));
        }
        i = i + 1;
    }
    None
}

} // verus!
