//! The order of words and the search of a sorted word list.
//!
//! Words are ordered as strings are: lexicographically by the bytes of their
//! UTF-8 encoding. A word list is sorted when no word comes before one that
//! stands earlier in the list.

use vstd::prelude::*;
use vstd::utf8::{encode_utf8, encode_utf8_decode_utf8};

verus! {

/// `a` comes strictly before `b`: at the first place where the two differ,
/// `a` has ended or holds the smaller byte.
pub open spec fn bytes_before(a: Seq<u8>, b: Seq<u8>) -> bool {
    exists|k: int|
        0 <= k <= a.len() && k < b.len() && #[trigger] a.take(k) == b.take(k) && (k == a.len()
            || a[k] < b[k])
}

/// The word `a` comes strictly before the word `b`.
pub open spec fn precedes(a: Seq<char>, b: Seq<char>) -> bool {
    bytes_before(encode_utf8(a), encode_utf8(b))
}

/// No word of the list comes before a word that stands earlier in it.
pub open spec fn sorted(words: Seq<Seq<char>>) -> bool {
    forall|i: int, j: int|
        0 <= i < j < words.len() ==> !precedes(#[trigger] words[j], #[trigger] words[i])
}

/// The words of a list as sequences of letters.
pub open spec fn texts(words: Seq<String>) -> Seq<Seq<char>> {
    Seq::new(words.len(), |i: int| words[i]@)
}

/// Where one word stands relative to another.
#[derive(Clone, Copy, Debug, PartialEq, Eq, Structural)]
pub enum Place {
    /// The first word comes strictly before the second.
    Before,
    /// The two words are the same.
    Same,
    /// The second word comes strictly before the first.
    After,
}

proof fn lemma_not_both_before(a: Seq<u8>, b: Seq<u8>)
    ensures
        !(bytes_before(a, b) && bytes_before(b, a)),
{
    if bytes_before(a, b) && bytes_before(b, a) {
        let k = choose|k: int|
            0 <= k <= a.len() && k < b.len() && #[trigger] a.take(k) == b.take(k) && (k == a.len()
                || a[k] < b[k]);
        let m = choose|m: int|
            0 <= m <= b.len() && m < a.len() && #[trigger] b.take(m) == a.take(m) && (m == b.len()
                || b[m] < a[m]);
        if k < m {
            assert(a.take(m)[k] == b.take(m)[k]);
        } else if m < k {
            assert(a.take(k)[m] == b.take(k)[m]);
        }
    }
}

proof fn lemma_before_transitive(a: Seq<u8>, b: Seq<u8>, c: Seq<u8>)
    requires
        bytes_before(a, b),
        bytes_before(b, c),
    ensures
        bytes_before(a, c),
{
    let k = choose|k: int|
        0 <= k <= a.len() && k < b.len() && #[trigger] a.take(k) == b.take(k) && (k == a.len()
            || a[k] < b[k]);
    let m = choose|m: int|
        0 <= m <= b.len() && m < c.len() && #[trigger] b.take(m) == c.take(m) && (m == b.len()
            || b[m] < c[m]);
    let w = if k <= m {
        k
    } else {
        m
    };
    assert forall|x: int| 0 <= x < w implies a[x] == c[x] by {
        assert(a.take(k)[x] == b.take(k)[x]);
        assert(b.take(m)[x] == c.take(m)[x]);
    }
    assert(a.take(w) =~= c.take(w));
    if k < m {
        assert(b.take(m)[k] == c.take(m)[k]);
    } else if m < k {
        assert(a.take(k)[m] == b.take(k)[m]);
    }
}

/// Two byte strings that agree on their first `i` bytes are equal, or one
/// comes before the other.
proof fn lemma_before_total(a: Seq<u8>, b: Seq<u8>, i: int)
    requires
        0 <= i <= a.len(),
        i <= b.len(),
        a.take(i) == b.take(i),
    ensures
        bytes_before(a, b) || a == b || bytes_before(b, a),
    decreases a.len() - i,
{
    if i == a.len() {
        if i == b.len() {
            assert(a.take(i) =~= a);
            assert(b.take(i) =~= b);
        }
    } else if i == b.len() {
        assert(b.take(i) == a.take(i));
    } else if a[i] < b[i] {
    } else if b[i] < a[i] {
        assert(b.take(i) == a.take(i));
    } else {
        assert forall|x: int| 0 <= x < i + 1 implies a[x] == b[x] by {
            if x < i {
                assert(a.take(i)[x] == a[x]);
                assert(b.take(i)[x] == b[x]);
            } else {
                assert(x == i);
                assert(a[i] == b[i]);
            }
        }
        assert(a.take(i + 1) =~= b.take(i + 1));
        lemma_before_total(a, b, i + 1);
    }
}

/// A word that comes before none of two words in turn does not come before
/// the last when it does not come before the first: "not after" is transitive.
proof fn lemma_not_after_transitive(a: Seq<char>, b: Seq<char>, c: Seq<char>)
    requires
        !precedes(b, a),
        !precedes(c, b),
    ensures
        !precedes(c, a),
{
    let x = encode_utf8(a);
    let y = encode_utf8(b);
    let z = encode_utf8(c);
    if bytes_before(z, x) {
        assert(x.take(0) =~= y.take(0));
        lemma_before_total(x, y, 0);
        assert(y.take(0) =~= z.take(0));
        lemma_before_total(y, z, 0);
        if x == y {
        } else if y == z {
        } else {
            lemma_before_transitive(x, y, z);
            lemma_not_both_before(x, z);
        }
    }
}

/// A list whose neighbours are in order is sorted.
proof fn lemma_neighbours_sorted(words: Seq<Seq<char>>, i: int, j: int)
    requires
        forall|k: int| 0 <= k < words.len() - 1 ==> !precedes(#[trigger] words[k + 1], words[k]),
        0 <= i < j < words.len(),
    ensures
        !precedes(words[j], words[i]),
    decreases j - i,
{
    if j == i + 1 {
        assert(!precedes(words[i + 1], words[i]));
    } else {
        lemma_neighbours_sorted(words, i, j - 1);
        assert(!precedes(words[(j - 1) + 1], words[j - 1]));
        lemma_not_after_transitive(words[i], words[j - 1], words[j]);
    }
}

/// Compares two byte strings.
fn place_bytes(x: &[u8], y: &[u8]) -> (p: Place)
    ensures
        p == Place::Before <==> bytes_before(x@, y@),
        p == Place::Same <==> x@ == y@,
        p == Place::After <==> bytes_before(y@, x@),
{
    proof {
        lemma_not_both_before(x@, y@);
    }
    let mut i: usize = 0;
    while i < x.len() && i < y.len()
        invariant
            i <= x@.len(),
            i <= y@.len(),
            x@.take(i as int) == y@.take(i as int),
            !(bytes_before(x@, y@) && bytes_before(y@, x@)),
        decreases x@.len() - i,
    {
        if x[i] < y[i] {
            return Place::Before;
        }
        if y[i] < x[i] {
            assert(y@.take(i as int) == x@.take(i as int));
            return Place::After;
        }
        proof {
            assert forall|k: int| 0 <= k < i + 1 implies x@[k] == y@[k] by {
                if k < i {
                    assert(x@.take(i as int)[k] == y@.take(i as int)[k]);
                }
            }
            assert(x@.take(i + 1) =~= y@.take(i + 1));
        }
        i += 1;
    }
    if x.len() < y.len() {
        Place::Before
    } else if y.len() < x.len() {
        assert(y@.take(i as int) == x@.take(i as int));
        Place::After
    } else {
        proof {
            assert(x@.take(i as int) =~= x@);
            assert(y@.take(i as int) =~= y@);
        }
        Place::Same
    }
}

/// Compares two words.
pub fn place(a: &str, b: &str) -> (p: Place)
    ensures
        p == Place::Before <==> precedes(a@, b@),
        p == Place::Same <==> a@ == b@,
        p == Place::After <==> precedes(b@, a@),
{
    proof {
        encode_utf8_decode_utf8(a@);
        encode_utf8_decode_utf8(b@);
    }
    place_bytes(a.as_bytes(), b.as_bytes())
}

/// Tells whether a word list is sorted.
pub fn is_sorted(words: &Vec<String>) -> (ok: bool)
    ensures
        ok == sorted(texts(words@)),
{
    if words.len() < 2 {
        return true;
    }
    let ghost list = texts(words@);
    let mut i: usize = 0;
    while i < words.len() - 1
        invariant
            2 <= words@.len(),
            i <= words@.len() - 1,
            list == texts(words@),
            forall|k: int| 0 <= k < i ==> !precedes(#[trigger] list[k + 1], list[k]),
        decreases words@.len() - i,
    {
        if place(words[i].as_str(), words[i + 1].as_str()) == Place::After {
            assert(precedes(list[i + 1], list[i as int]));
            return false;
        }
        i += 1;
    }
    proof {
        assert forall|a: int, b: int| 0 <= a < b < list.len() implies !precedes(
            #[trigger] list[b],
            #[trigger] list[a],
        ) by {
            lemma_neighbours_sorted(list, a, b);
        }
    }
    true
}

/// Searches a sorted word list for a word, halving the range that may hold
/// it at every step.
pub fn find(words: &Vec<String>, word: &str) -> (found: Option<usize>)
    requires
        sorted(texts(words@)),
    ensures
        match found {
            Some(i) => i < words@.len() && words@[i as int]@ == word@,
            None => !texts(words@).contains(word@),
        },
{
    let ghost list = texts(words@);
    let mut lo: usize = 0;
    let mut hi: usize = words.len();
    while lo < hi
        invariant
            lo <= hi <= words@.len(),
            list == texts(words@),
            sorted(list),
            forall|k: int| 0 <= k < lo ==> #[trigger] list[k] != word@,
            forall|k: int| hi <= k < list.len() ==> #[trigger] list[k] != word@,
        decreases hi - lo,
    {
        let mid = lo + (hi - lo) / 2;
        match place(words[mid].as_str(), word) {
            Place::Same => {
                return Some(mid);
            },
            Place::Before => {
                assert forall|k: int| 0 <= k < mid + 1 implies #[trigger] list[k] != word@ by {
                    if list[k] == word@ {
                        assert(list[mid as int] == words@[mid as int]@);
                        if k < mid {
                            assert(!precedes(list[mid as int], list[k]));
                        }
                    }
                }
                lo = mid + 1;
            },
            Place::After => {
                assert forall|k: int| mid <= k < list.len() implies #[trigger] list[k] != word@ by {
                    if list[k] == word@ {
                        assert(list[mid as int] == words@[mid as int]@);
                        if mid < k {
                            assert(!precedes(list[k], list[mid as int]));
                        }
                    }
                }
                hi = mid;
            },
        }
    }
    assert forall|k: int| 0 <= k < list.len() implies list[k] != word@ by {}
    None
}

} // verus!
