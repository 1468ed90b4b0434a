use vstd::prelude::*;
use vstd::utf8::char_u32_cast;

verus! {

/// `a` comes before `b` in dictionary order of code points: at the first
/// place where they differ `a` has the smaller character, or `a` is a proper
/// prefix of `b`.
pub open spec fn lex_less(a: Seq<char>, b: Seq<char>) -> bool {
    ||| exists|i: int|
        0 <= i < a.len() && i < b.len() && (forall|k: int| 0 <= k < i ==> a[k] == b[k]) && (
        #[trigger] a[i] as u32) < (b[i] as u32)
    ||| (a.len() < b.len() && a.is_prefix_of(b))
}

/// The order of the search results: longer words first, words of equal
/// length in dictionary order.
pub open spec fn ranks_before(a: Seq<char>, b: Seq<char>) -> bool {
    a.len() > b.len() || (a.len() == b.len() && lex_less(a, b))
}

/// Every element ranks strictly before every later one.
pub open spec fn ranked(s: Seq<Seq<char>>) -> bool {
    forall|i: int, j: int| 0 <= i < j < s.len() ==> ranks_before(s[i], s[j])
}

/// The character sequences held by a vector of words.
pub open spec fn texts(ws: Seq<Vec<char>>) -> Seq<Seq<char>> {
    ws.map_values(|v: Vec<char>| v@)
}

/// The result order is transitive.
pub proof fn lemma_ranks_transitive(a: Seq<char>, b: Seq<char>, c: Seq<char>)
    requires
        ranks_before(a, b),
        ranks_before(b, c),
    ensures
        ranks_before(a, c),
{
    if a.len() == b.len() && b.len() == c.len() {
        let i = choose|i: int|
            0 <= i < a.len() && i < b.len() && (forall|k: int| 0 <= k < i ==> a[k] == b[k]) && (
            #[trigger] a[i] as u32) < (b[i] as u32);
        let j = choose|j: int|
            0 <= j < b.len() && j < c.len() && (forall|k: int| 0 <= k < j ==> b[k] == c[k]) && (
            #[trigger] b[j] as u32) < (c[j] as u32);
        let m = if i < j {
            i
        } else {
            j
        };
        assert(forall|k: int| 0 <= k < m ==> a[k] == c[k]);
        assert((a[m] as u32) < (c[m] as u32));
    }
}

/// A ranked sequence holds each word at most once.
pub proof fn lemma_ranked_distinct(s: Seq<Seq<char>>, i: int, j: int)
    requires
        ranked(s),
        0 <= i < s.len(),
        0 <= j < s.len(),
        i != j,
    ensures
        s[i] != s[j],
{
    if i < j {
        assert(ranks_before(s[i], s[j]));
    } else {
        assert(ranks_before(s[j], s[i]));
    }
}

/// Compares two words in the result order: `-1` when `a` ranks first, `1`
/// when `b` does, `0` when they are equal.
pub fn compare_rank(a: &Vec<char>, b: &Vec<char>) -> (r: i8)
    ensures
        r == -1 ==> ranks_before(a@, b@),
        r == 0 ==> a@ == b@,
        r == 1 ==> ranks_before(b@, a@),
        r == -1 || r == 0 || r == 1,
{
    if a.len() > b.len() {
        return -1;
    }
    if a.len() < b.len() {
        return 1;
    }
    let mut i: usize = 0;
    while i < a.len()
        invariant
            a@.len() == b@.len(),
            i <= a@.len(),
            forall|k: int| 0 <= k < i ==> a@[k] == b@[k],
        decreases a@.len() - i,
    {
        if a[i] != b[i] {
            if (a[i] as u32) < (b[i] as u32) {
                assert((a@[i as int] as u32) < (b@[i as int] as u32));
                return -1;
            } else {
                proof {
                    char_u32_cast(a@[i as int], a@[i as int] as u32);
                    char_u32_cast(b@[i as int], b@[i as int] as u32);
                }
                assert((b@[i as int] as u32) < (a@[i as int] as u32));
                return 1;
            }
        }
        i = i + 1;
    }
    assert(a@ =~= b@);
    0
}

/// Adds `w` to a ranked vector of words, keeping it ranked; a word already
/// there is not added again.
pub fn record(words: &mut Vec<Vec<char>>, w: Vec<char>)
    requires
        ranked(texts(old(words)@)),
    ensures
        ranked(texts(final(words)@)),
        forall|x: Seq<char>|
            #[trigger] texts(final(words)@).contains(x) == (texts(old(words)@).contains(x) || x
                == w@),
{
    let ghost s = texts(words@);
    let mut k: usize = 0;
    while k < words.len()
        invariant
            words@ == old(words)@,
            s == texts(words@),
            ranked(s),
            k <= words@.len(),
            forall|j: int| 0 <= j < k ==> ranks_before(#[trigger] s[j], w@),
        decreases words@.len() - k,
    {
        let o = compare_rank(&words[k], &w);
        if o == 0 {
            assert(s[k as int] == w@);
            return;
        }
        if o == 1 {
            let ghost wv = w@;
            words.insert(k, w);
            proof {
                let t = texts(words@);
                assert(t =~= s.insert(k as int, wv));
                assert forall|i: int, j: int| 0 <= i < j < t.len() implies ranks_before(
                    t[i],
                    t[j],
                ) by {
                    if j == k as int {
                    } else if i == k as int {
                        assert(ranks_before(wv, s[k as int]));
                        if j - 1 > k as int {
                            lemma_ranks_transitive(wv, s[k as int], s[j - 1]);
                        }
                    } else if i > k as int {
                    } else if j > k as int {
                    }
                }
                assert forall|x: Seq<char>| #[trigger]
                    t.contains(x) == (s.contains(x) || x == wv) by {
                    if t.contains(x) {
                        let i = choose|i: int| 0 <= i < t.len() && t[i] == x;
                        if i < k {
                            assert(s[i] == x);
                        } else if i > k {
                            assert(s[i - 1] == x);
                        }
                    }
                    if s.contains(x) {
                        let i = choose|i: int| 0 <= i < s.len() && s[i] == x;
                        if i < k {
                            assert(t[i] == x);
                        } else {
                            assert(t[i + 1] == x);
                        }
                    }
                    if x == wv {
                        assert(t[k as int] == x);
                    }
                }
            }
            return;
        }
        k = k + 1;
    }
    let ghost wv = w@;
    words.push(w);
    proof {
        let t = texts(words@);
        assert(t =~= s.push(wv));
        assert forall|x: Seq<char>| #[trigger] t.contains(x) == (s.contains(x) || x == wv) by {
            if t.contains(x) {
                let i = choose|i: int| 0 <= i < t.len() && t[i] == x;
                if i < s.len() {
                    assert(s[i] == x);
                }
            }
            if s.contains(x) {
                let i = choose|i: int| 0 <= i < s.len() && s[i] == x;
                assert(t[i] == x);
            }
            if x == wv {
                assert(t[s.len() as int] == x);
            }
        }
    }
}

} // verus!
