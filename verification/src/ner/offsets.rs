//! Places in a text, counted in bytes and in characters.
use crate::text;
use vstd::prelude::*;

verus! {

/// How many bytes the first `k` characters take.
pub open spec fn byte_at(s: Seq<char>, k: int) -> nat {
    vstd::utf8::encode_utf8(s.take(k)).len()
}

/// A character begins or the text ends at this byte.
pub open spec fn is_place(s: Seq<char>, b: nat) -> bool {
    exists|k: int| 0 <= k <= s.len() && #[trigger] byte_at(s, k) == b
}

/// How many characters stand before this byte.
pub open spec fn place_in(s: Seq<char>, b: nat) -> int {
    choose|k: int| 0 <= k <= s.len() && #[trigger] byte_at(s, k) == b
}

proof fn lemma_one_more_char(s: Seq<char>, k: int)
    requires
        0 <= k < s.len(),
    ensures
        byte_at(s, k + 1) == byte_at(s, k) + vstd::utf8::encode_utf8(seq![s[k]]).len(),
        byte_at(s, k + 1) > byte_at(s, k),
{
    assert(s.take(k + 1) =~= s.take(k) + seq![s[k]]);
    text::lemma_bytes_of_concat(s.take(k), seq![s[k]]);
    let one = seq![s[k]];
    assert(one[0] == s[k]);
    assert(vstd::utf8::encode_utf8(one) == vstd::utf8::encode_scalar(one[0] as u32)
        + vstd::utf8::encode_utf8(one.drop_first()));
    vstd::utf8::char_is_scalar(s[k]);
    assert(vstd::utf8::encode_scalar(s[k] as u32).len() >= 1);
}

/// A later character begins at a later byte.
pub proof fn lemma_bytes_increase(s: Seq<char>, i: int, j: int)
    requires
        0 <= i < j <= s.len(),
    ensures
        byte_at(s, i) < byte_at(s, j),
    decreases j - i,
{
    lemma_one_more_char(s, j - 1);
    if i < j - 1 {
        lemma_bytes_increase(s, i, j - 1);
    }
}

/// The place of a byte is the only one that begins there.
pub proof fn lemma_place_in(s: Seq<char>, k: int)
    requires
        0 <= k <= s.len(),
    ensures
        place_in(s, byte_at(s, k)) == k,
        is_place(s, byte_at(s, k)),
{
    let p = place_in(s, byte_at(s, k));
    assert(byte_at(s, p) == byte_at(s, k));
    if p < k {
        lemma_bytes_increase(s, p, k);
    } else if k < p {
        lemma_bytes_increase(s, k, p);
    }
}

/// The byte at which each character of a text begins, and the byte at which the text ends.
pub fn byte_places(s: &str) -> (r: Vec<usize>)
    ensures
        r@.len() == s@.len() + 1,
        forall|k: int| 0 <= k <= s@.len() ==> #[trigger] r@[k] == byte_at(s@, k),
{
    let v = text::chars_of(s);
    let n: usize = text::byte_len(s);
    let mut r: Vec<usize> = Vec::new();
    let mut b: usize = 0;
    assert(s@.take(0) =~= Seq::empty());
    assert(s@.take(s@.len() as int) =~= s@);
    r.push(0);
    let mut i: usize = 0;
    while i < v.len()
        invariant
            v@ == s@,
            n == byte_at(s@, s@.len() as int),
            i <= v@.len(),
            b == byte_at(s@, i as int),
            r@.len() == i + 1,
            forall|k: int| 0 <= k <= i ==> #[trigger] r@[k] == byte_at(s@, k),
        decreases v@.len() - i,
    {
        let mut one = String::new();
        one.push(v[i]);
        let w: usize = text::byte_len(one.as_str());
        proof {
            assert(one@ =~= seq![s@[i as int]]);
            lemma_one_more_char(s@, i as int);
            if i + 1 < s@.len() {
                lemma_bytes_increase(s@, i + 1, s@.len() as int);
            }
        }
        b = b + w;
        r.push(b);
        i += 1;
    }
    r
}

/// How many characters stand before a byte at which one begins or the text ends.
pub fn find_place(places: &Vec<usize>, b: usize, s: &str) -> (r: usize)
    requires
        places@.len() == s@.len() + 1,
        forall|k: int| 0 <= k <= s@.len() ==> #[trigger] places@[k] == byte_at(s@, k),
        is_place(s@, b as nat),
    ensures
        r == place_in(s@, b as nat),
        r <= s@.len(),
        byte_at(s@, r as int) == b,
{
    let ghost p = place_in(s@, b as nat);
    let mut i: usize = 0;
    while i < places.len()
        invariant
            places@.len() == s@.len() + 1,
            forall|k: int| 0 <= k <= s@.len() ==> #[trigger] places@[k] == byte_at(s@, k),
            p == place_in(s@, b as nat),
            0 <= p <= s@.len(),
            byte_at(s@, p) == b,
            i <= p,
        decreases places@.len() - i,
    {
        if places[i] == b {
            proof {
                lemma_place_in(s@, i as int);
            }
            return i;
        }
        proof {
            assert(places@[p] == b);
        }
        i += 1;
    }
    i
}

} // verus!
