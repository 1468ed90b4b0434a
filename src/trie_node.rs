use vstd::prelude::*;
use vstd::string::*;

verus! {

/// True when `s` begins some word of `words`.
pub open spec fn begins_some(words: Set<Seq<char>>, s: Seq<char>) -> bool {
    exists|w: Seq<char>| words.contains(w) && s.is_prefix_of(w)
}

/// The characters of `s`, in order.
pub fn chars_of(s: &str) -> (r: Vec<char>)
    ensures
        r@ == s@,
{
    let n = s.unicode_len();
    let mut v: Vec<char> = Vec::new();
    let mut i: usize = 0;
    while i < n
        invariant
            n == s@.len(),
            i <= n,
            v@ == s@.take(i as int),
        decreases n - i,
    {
        v.push(s.get_char(i));
        i = i + 1;
        assert(v@ =~= s@.take(i as int));
    }
    assert(v@ =~= s@);
    v
}

/// Relies on `String`'s `FromIterator<&char>`: the string holds the
/// characters in order.
#[verifier::external_body]
pub(crate) fn text_of(v: &Vec<char>) -> (r: String)
    ensures
        r@ == v@,
{
    v.iter().collect()
}

/// A prefix tree over characters. Each edge carries one character; a node
/// marks whether the characters on the way down to it spell a stored word.
pub struct TrieNode {
    children: Vec<(char, TrieNode)>,
    is_word: bool,
}

impl View for TrieNode {
    type V = Set<Seq<char>>;

    /// The set of stored words.
    closed spec fn view(&self) -> Set<Seq<char>> {
        Set::new(|w: Seq<char>| self.holds(w))
    }
}

impl TrieNode {
    /// `w` is spelled by a path from this node that ends on a word mark.
    pub closed spec fn holds(self, w: Seq<char>) -> bool
        decreases w.len(),
    {
        if w.len() == 0 {
            self.is_word
        } else {
            exists|i: int|
                0 <= i < self.children@.len() && (#[trigger] self.children@[i]).0 == w[0]
                    && self.children@[i].1.holds(w.drop_first())
        }
    }

    /// `s` is spelled by some path from this node.
    pub closed spec fn reaches(self, s: Seq<char>) -> bool
        decreases s.len(),
    {
        if s.len() == 0 {
            true
        } else {
            exists|i: int|
                0 <= i < self.children@.len() && (#[trigger] self.children@[i]).0 == s[0]
                    && self.children@[i].1.reaches(s.drop_first())
        }
    }

    /// Edge characters are unique among siblings, and every child leads to
    /// at least one stored word.
    pub closed spec fn wf(self) -> bool
        decreases self,
    {
        &&& forall|i: int, j: int|
            0 <= i < j < self.children@.len() ==> self.children@[i].0 != self.children@[j].0
        &&& forall|i: int|
            0 <= i < self.children@.len() ==> (#[trigger] self.children@[i]).1.wf()
        &&& forall|i: int|
            0 <= i < self.children@.len() ==> (#[trigger] self.children@[i]).1.live()
    }

    /// At least one word is stored below this node.
    pub closed spec fn live(self) -> bool {
        exists|u: Seq<char>| self.holds(u)
    }

    /// An empty tree.
    pub fn new() -> (r: TrieNode)
        ensures
            r.wf(),
            r@ == Set::<Seq<char>>::empty(),
    {
        let r = TrieNode { children: Vec::new(), is_word: false };
        assert(r@ =~= Set::<Seq<char>>::empty());
        r
    }

    proof fn lemma_child_holds(self, x: Seq<char>, i: int)
        requires
            self.wf(),
            x.len() > 0,
            0 <= i < self.children@.len(),
            self.children@[i].0 == x[0],
        ensures
            self.holds(x) == self.children@[i].1.holds(x.drop_first()),
            self.reaches(x) == self.children@[i].1.reaches(x.drop_first()),
    {
    }

    /// A word below a node makes each of its prefixes reachable.
    proof fn lemma_holds_reaches(self, s: Seq<char>, u: Seq<char>)
        requires
            self.holds(s + u),
        ensures
            self.reaches(s),
        decreases s.len(),
    {
        if s.len() > 0 {
            let x = s + u;
            assert(x.drop_first() =~= s.drop_first() + u);
            let i = choose|i: int|
                0 <= i < self.children@.len() && (#[trigger] self.children@[i]).0 == x[0]
                    && self.children@[i].1.holds(x.drop_first());
            self.children@[i].1.lemma_holds_reaches(s.drop_first(), u);
        }
    }

    /// In a well-formed tree every reachable nonempty path extends to a word.
    proof fn lemma_reaches_holds(self, s: Seq<char>)
        requires
            self.wf(),
            self.reaches(s),
            s.len() > 0,
        ensures
            exists|u: Seq<char>| self.holds(s + u),
        decreases s.len(),
    {
        let i = choose|i: int|
            0 <= i < self.children@.len() && (#[trigger] self.children@[i]).0 == s[0]
                && self.children@[i].1.reaches(s.drop_first());
        let child = self.children@[i].1;
        let rest = s.drop_first();
        let u = if rest.len() == 0 {
            assert(child.live());
            let u = choose|u: Seq<char>| child.holds(u);
            assert(rest + u =~= u);
            u
        } else {
            child.lemma_reaches_holds(rest);
            choose|u: Seq<char>| child.holds(rest + u)
        };
        assert((s + u).drop_first() =~= rest + u);
        assert(self.holds(s + u));
    }

    /// What `reaches` means in terms of the stored words.
    proof fn lemma_reaches_iff(self, s: Seq<char>)
        requires
            self.wf(),
        ensures
            self.reaches(s) == (s.len() == 0 || begins_some(self@, s)),
    {
        if s.len() > 0 {
            if self.reaches(s) {
                self.lemma_reaches_holds(s);
                let u = choose|u: Seq<char>| self.holds(s + u);
                assert(s.is_prefix_of(s + u));
                assert(self@.contains(s + u));
            }
            if begins_some(self@, s) {
                let w = choose|w: Seq<char>| self@.contains(w) && s.is_prefix_of(w);
                let u = w.skip(s.len() as int);
                assert(s + u =~= w);
                self.lemma_holds_reaches(s, u);
            }
        }
    }

    /// Position of the child on the edge `c`, or the number of children.
    fn find_child(&self, c: char) -> (r: usize)
        ensures
            r <= self.children@.len(),
            r < self.children@.len() ==> self.children@[r as int].0 == c,
            r == self.children@.len() ==> forall|j: int|
                0 <= j < self.children@.len() ==> (#[trigger] self.children@[j]).0 != c,
    {
        let mut i: usize = 0;
        while i < self.children.len()
            invariant
                i <= self.children@.len(),
                forall|j: int| 0 <= j < i ==> (#[trigger] self.children@[j]).0 != c,
            decreases self.children@.len() - i,
        {
            if self.children[i].0 == c {
                return i;
            }
            i = i + 1;
        }
        i
    }

    /// Adds the word `w@.skip(start)` below this node.
    fn insert_from(&mut self, w: &Vec<char>, start: usize)
        requires
            old(self).wf(),
            start <= w.len(),
        ensures
            final(self).wf(),
            forall|x: Seq<char>|
                #[trigger] final(self).holds(x) == (old(self).holds(x) || x == w@.skip(
                    start as int,
                )),
        decreases w.len() - start,
    {
        if start == w.len() {
            self.is_word = true;
            assert(self.children == old(self).children);
            assert(self.wf());
            proof {
                assert forall|x: Seq<char>|
                    #[trigger] self.holds(x) == (old(self).holds(x) || x == w@.skip(
                        start as int,
                    )) by {
                    if x.len() > 0 {
                        assert(x != w@.skip(start as int));
                    } else {
                        assert(x =~= w@.skip(start as int));
                    }
                }
            }
            return;
        }
        let c = w[start];
        let i = self.find_child(c);
        let ghost before = *self;
        if i == self.children.len() {
            self.children.push((c, TrieNode::new()));
        }
        let ghost mid = *self;
        let ghost old_child = self.children@[i as int].1;
        assert(old_child.wf());
        let (k, mut child) = self.children.remove(i);
        child.insert_from(w, start + 1);
        self.children.insert(i, (k, child));
        assert(self.children@ =~= mid.children@.update(i as int, (c, child)));
        let ghost new_child = self.children@[i as int].1;
        proof {
            let rest = w@.skip(start as int + 1);
            assert(new_child.holds(rest));
            assert forall|j: int| 0 <= j < self.children@.len() implies (
            #[trigger] self.children@[j]).1.live() by {
                if j == i as int {
                    assert(self.children@[j].1.holds(rest));
                } else {
                    assert(self.children@[j] == mid.children@[j]);
                }
            }
            assert forall|j: int| 0 <= j < self.children@.len() implies (
            #[trigger] self.children@[j]).1.wf() by {
                if j != i as int {
                    assert(self.children@[j] == before.children@[j]);
                }
            }
            assert forall|j: int, k: int|
                0 <= j < k < self.children@.len() implies self.children@[j].0
                != self.children@[k].0 by {
                if k != i as int && j != i as int {
                    assert(self.children@[j] == before.children@[j]);
                    assert(self.children@[k] == before.children@[k]);
                } else if k == i as int {
                    assert(self.children@[j] == before.children@[j]);
                } else {
                    assert(self.children@[k] == before.children@[k]);
                }
            }
            assert(self.children@[i as int].0 == c);
            assert(self.wf());
            assert forall|x: Seq<char>|
                #[trigger] self.holds(x) == (before.holds(x) || x == w@.skip(start as int)) by {
                if x.len() > 0 {
                    let tail = x.drop_first();
                    if x[0] == c {
                        self.lemma_child_holds(x, i as int);
                        if i < before.children@.len() {
                            before.lemma_child_holds(x, i as int);
                        } else {
                            assert(!old_child@.contains(tail));
                        }
                        assert(new_child.holds(tail) == (old_child.holds(tail) || tail == rest));
                        if tail == rest {
                            assert forall|k: int| 0 <= k < x.len() implies x[k] == w@.skip(
                                start as int,
                            )[k] by {
                                if k > 0 {
                                    assert(x[k] == tail[k - 1]);
                                }
                            }
                            assert(x =~= w@.skip(start as int));
                        }
                        if x == w@.skip(start as int) {
                            assert(tail =~= rest);
                        }
                    } else {
                        assert(x != w@.skip(start as int));
                        if self.holds(x) {
                            let j = choose|j: int|
                                0 <= j < self.children@.len() && (#[trigger] self.children@[j]).0
                                    == x[0] && self.children@[j].1.holds(tail);
                            assert(self.children@[j] == before.children@[j]);
                        }
                        if before.holds(x) {
                            let j = choose|j: int|
                                0 <= j < before.children@.len() && (
                                #[trigger] before.children@[j]).0 == x[0]
                                    && before.children@[j].1.holds(tail);
                            assert(self.children@[j] == before.children@[j]);
                        }
                    }
                } else {
                    assert(x != w@.skip(start as int));
                }
            }
        }
    }

    /// The node that `s` leads to, if any.
    fn descend(&self, s: &Vec<char>) -> (r: Option<&TrieNode>)
        requires
            self.wf(),
        ensures
            r is Some == self.reaches(s@),
            r is Some ==> r.unwrap().wf() && forall|x: Seq<char>|
                #[trigger] r.unwrap().holds(x) == self.holds(s@ + x),
    {
        let mut node: &TrieNode = self;
        let mut k: usize = 0;
        assert forall|x: Seq<char>| #[trigger] node.holds(x) == self.holds(s@.take(0) + x) by {
            assert(s@.take(0) + x =~= x);
        }
        assert(s@.skip(0) =~= s@);
        while k < s.len()
            invariant
                k <= s@.len(),
                node.wf(),
                self.reaches(s@) == node.reaches(s@.skip(k as int)),
                forall|x: Seq<char>| #[trigger] node.holds(x) == self.holds(s@.take(k as int) + x),
            decreases s@.len() - k,
        {
            let j = node.find_child(s[k]);
            let ghost rest = s@.skip(k as int);
            if j == node.children.len() {
                assert(!node.reaches(rest));
                return None;
            }
            proof {
                node.lemma_child_holds(rest, j as int);
                assert(rest.drop_first() =~= s@.skip(k as int + 1));
                assert forall|x: Seq<char>|
                    #[trigger] node.children@[j as int].1.holds(x) == self.holds(
                        s@.take(k as int + 1) + x,
                    ) by {
                    let y = seq![s@[k as int]] + x;
                    node.lemma_child_holds(y, j as int);
                    assert(y.drop_first() =~= x);
                    assert(s@.take(k as int) + y =~= s@.take(k as int + 1) + x);
                }
            }
            node = &node.children[j].1;
            k = k + 1;
        }
        assert(s@.take(k as int) =~= s@);
        assert forall|x: Seq<char>| #[trigger] node.holds(x) == self.holds(s@ + x) by {
            assert(s@.take(k as int) + x == s@ + x);
        }
        Some(node)
    }

    /// Whether `s` begins some stored word; the empty string always does.
    pub fn has_prefix_chars(&self, s: &Vec<char>) -> (r: bool)
        requires
            self.wf(),
        ensures
            r == (s@.len() == 0 || begins_some(self@, s@)),
    {
        proof {
            self.lemma_reaches_iff(s@);
        }
        self.descend(s).is_some()
    }

    /// Whether `s` is a stored word.
    pub fn is_word_chars(&self, s: &Vec<char>) -> (r: bool)
        requires
            self.wf(),
        ensures
            r == self@.contains(s@),
    {
        match self.descend(s) {
            Some(node) => {
                assert(s@ + Seq::<char>::empty() =~= s@);
                assert(node.holds(Seq::<char>::empty()) == node.is_word);
                node.is_word
            },
            None => {
                proof {
                    if self.holds(s@) {
                        assert(s@ + Seq::<char>::empty() =~= s@);
                        self.lemma_holds_reaches(s@, Seq::<char>::empty());
                    }
                }
                false
            },
        }
    }

    /// Stores `word`, one edge per character.
    pub fn insert(&mut self, word: &str)
        requires
            old(self).wf(),
        ensures
            final(self).wf(),
            final(self)@ == old(self)@.insert(word@),
    {
        let w = chars_of(word);
        self.insert_from(&w, 0);
        assert(w@.skip(0) =~= w@);
        assert(self@ =~= old(self)@.insert(word@));
    }

    /// Whether `s` begins some stored word; the empty string always does.
    pub fn has_prefix(&self, s: &str) -> (r: bool)
        requires
            self.wf(),
        ensures
            r == (s@.len() == 0 || begins_some(self@, s@)),
    {
        let v = chars_of(s);
        self.has_prefix_chars(&v)
    }

    /// Whether `s` is a stored word.
    pub fn is_word(&self, s: &str) -> (r: bool)
        requires
            self.wf(),
        ensures
            r == self@.contains(s@),
    {
        let v = chars_of(s);
        self.is_word_chars(&v)
    }

    /// An independent copy of this tree.
    fn copy_tree(&self) -> (r: TrieNode)
        ensures
            forall|x: Seq<char>| #[trigger] r.holds(x) == self.holds(x),
            self.wf() ==> r.wf(),
        decreases self,
    {
        let mut children: Vec<(char, TrieNode)> = Vec::new();
        let mut i: usize = 0;
        while i < self.children.len()
            invariant
                i <= self.children@.len(),
                children@.len() == i,
                forall|j: int|
                    0 <= j < i ==> (#[trigger] children@[j]).0 == self.children@[j].0,
                forall|j: int, x: Seq<char>|
                    0 <= j < i ==> #[trigger] children@[j].1.holds(x)
                        == self.children@[j].1.holds(x),
                forall|j: int|
                    0 <= j < i ==> self.children@[j].1.wf() ==> (
                    #[trigger] children@[j]).1.wf(),
            decreases self.children@.len() - i,
        {
            let sub = self.children[i].1.copy_tree();
            children.push((self.children[i].0, sub));
            i = i + 1;
        }
        let r = TrieNode { children, is_word: self.is_word };
        assert forall|x: Seq<char>| #[trigger] r.holds(x) == self.holds(x) by {
            if x.len() > 0 {
                if r.holds(x) {
                    let j = choose|j: int|
                        0 <= j < r.children@.len() && (#[trigger] r.children@[j]).0 == x[0]
                            && r.children@[j].1.holds(x.drop_first());
                    assert(self.children@[j].1.holds(x.drop_first()));
                }
                if self.holds(x) {
                    let j = choose|j: int|
                        0 <= j < self.children@.len() && (#[trigger] self.children@[j]).0 == x[0]
                            && self.children@[j].1.holds(x.drop_first());
                    assert(r.children@[j].1.holds(x.drop_first()));
                }
            }
        }
        proof {
          if self.wf() {
            assert forall|j: int| 0 <= j < r.children@.len() implies (
            #[trigger] r.children@[j]).1.live() by {
                assert(self.children@[j].1.live());
                let u = choose|u: Seq<char>| self.children@[j].1.holds(u);
                assert(r.children@[j].1.holds(u));
            }
            assert(r.wf());
          }
        }
        r
    }
}

/// Storing a word a second time changes nothing: every query answers as
/// after the first time.
pub proof fn lemma_insert_idempotent(base: TrieNode, once: TrieNode, twice: TrieNode, w: Seq<char>)
    requires
        once@ == base@.insert(w),
        twice@ == once@.insert(w),
    ensures
        twice@ == once@,
        forall|s: Seq<char>|
            begins_some(twice@, s) == begins_some(once@, s) && twice@.contains(s)
                == once@.contains(s),
{
    assert(twice@ =~= once@);
}

/// A string that begins no stored word cannot be extended into one that does.
pub proof fn lemma_prefix_monotone(words: Set<Seq<char>>, s: Seq<char>, t: Seq<char>)
    requires
        !(s.len() == 0 || begins_some(words, s)),
    ensures
        !((s + t).len() == 0 || begins_some(words, s + t)),
{
    if begins_some(words, s + t) {
        let w = choose|w: Seq<char>| words.contains(w) && (s + t).is_prefix_of(w);
        assert(s =~= w.subrange(0, s.len() as int)) by {
            assert forall|k: int| 0 <= k < s.len() implies s[k] == w[k] by {
                assert((s + t)[k] == s[k]);
            }
        }
        assert(s.is_prefix_of(w));
    }
}

/// Every stored word begins a stored word: itself.
pub proof fn lemma_word_is_prefix(words: Set<Seq<char>>, s: Seq<char>)
    requires
        words.contains(s),
    ensures
        s.len() == 0 || begins_some(words, s),
{
    assert(s.is_prefix_of(s));
}

impl Clone for TrieNode {
    /// A deep copy: no node is shared with `self`.
    fn clone(&self) -> (r: Self)
        ensures
            r@ == self@,
            self.wf() ==> r.wf(),
    {
        let r = self.copy_tree();
        assert(r@ =~= self@);
        r
    }
}

} // verus!
