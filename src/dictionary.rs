use vstd::prelude::*;

use crate::trie_node::{chars_of, text_of, TrieNode};

verus! {

/// What `str::to_lowercase` makes of a string.
pub uninterp spec fn lower_of(s: Seq<char>) -> Seq<char>;

/// Relies on `str::to_lowercase`: the result depends on the characters
/// alone.
#[verifier::external_body]
fn lowercase(s: &str) -> (r: String)
    ensures
        r@ == lower_of(s@),
{
    s.to_lowercase()
}

/// Where the line that is open after the first `n` characters of `s` begins.
pub open spec fn line_start(s: Seq<char>, n: int) -> int
    decreases n,
{
    if n <= 0 {
        0
    } else if s[n - 1] == '\n' {
        n
    } else {
        line_start(s, n - 1)
    }
}

/// A line without the carriage return that ends it, if any.
pub open spec fn strip_cr(l: Seq<char>) -> Seq<char> {
    if l.len() > 0 && l.last() == '\r' {
        l.drop_last()
    } else {
        l
    }
}

/// The lines ended by a line feed among the first `n` characters of `s`.
pub open spec fn closed_lines(s: Seq<char>, n: int) -> Seq<Seq<char>>
    decreases n,
{
    if n <= 0 {
        Seq::empty()
    } else if s[n - 1] == '\n' {
        closed_lines(s, n - 1).push(strip_cr(s.subrange(line_start(s, n - 1), n - 1)))
    } else {
        closed_lines(s, n - 1)
    }
}

/// The lines of `s`: split at each line feed, a carriage return before it
/// dropped; text after the last line feed is a last line.
pub open spec fn lines_of(s: Seq<char>) -> Seq<Seq<char>> {
    let k = line_start(s, s.len() as int);
    if k < s.len() {
        closed_lines(s, s.len() as int).push(s.subrange(k, s.len() as int))
    } else {
        closed_lines(s, s.len() as int)
    }
}

/// The lowercased forms of the nonempty lines among `lines`.
pub open spec fn entries(lines: Seq<Seq<char>>) -> Set<Seq<char>> {
    Set::new(
        |w: Seq<char>|
            exists|k: int| 0 <= k < lines.len() && lines[k].len() > 0 && w == lower_of(#[trigger] lines[k]),
    )
}

proof fn lemma_entries_push(lines: Seq<Seq<char>>, l: Seq<char>)
    ensures
        entries(lines.push(l)) == if l.len() > 0 {
            entries(lines).insert(lower_of(l))
        } else {
            entries(lines)
        },
{
    let t = lines.push(l);
    assert forall|w: Seq<char>| #[trigger] entries(t).contains(w) == (entries(lines).contains(w) || (
    l.len() > 0 && w == lower_of(l))) by {
        if entries(t).contains(w) {
            let k = choose|k: int| 0 <= k < t.len() && t[k].len() > 0 && w == lower_of(#[trigger] t[k]);
            if k < lines.len() {
                assert(lines[k] == t[k]);
            }
        }
        if entries(lines).contains(w) {
            let k = choose|k: int|
                0 <= k < lines.len() && lines[k].len() > 0 && w == lower_of(#[trigger] lines[k]);
            assert(t[k] == lines[k]);
        }
        if l.len() > 0 && w == lower_of(l) {
            assert(t[lines.len() as int] == l);
        }
    }
    if l.len() > 0 {
        assert(entries(t) =~= entries(lines).insert(lower_of(l)));
    } else {
        assert(entries(t) =~= entries(lines));
    }
}

/// Stores the lowercased form of `line` unless the line is empty.
fn add_line(dictionary: &mut TrieNode, line: &Vec<char>)
    requires
        old(dictionary).wf(),
    ensures
        final(dictionary).wf(),
        final(dictionary)@ == if line@.len() > 0 {
            old(dictionary)@.insert(lower_of(line@))
        } else {
            old(dictionary)@
        },
{
    if line.len() > 0 {
        let text = text_of(line);
        let lower = lowercase(text.as_str());
        dictionary.insert(lower.as_str());
    }
}

/// Stores in `dictionary` the lowercased form of each nonempty line of
/// `contents`.
pub fn load_words(dictionary: &mut TrieNode, contents: &str)
    requires
        old(dictionary).wf(),
    ensures
        final(dictionary).wf(),
        final(dictionary)@ == old(dictionary)@.union(entries(lines_of(contents@))),
{
    let text = chars_of(contents);
    let ghost s = text@;
    let mut line: Vec<char> = Vec::new();
    let mut i: usize = 0;
    assert(entries(closed_lines(s, 0)) =~= Set::<Seq<char>>::empty());
    assert(s.subrange(0, 0) =~= line@);
    while i < text.len()
        invariant
            s == text@,
            s == contents@,
            i <= s.len(),
            dictionary.wf(),
            dictionary@ == old(dictionary)@.union(entries(closed_lines(s, i as int))),
            line@ == s.subrange(line_start(s, i as int), i as int),
            0 <= line_start(s, i as int) <= i,
        decreases s.len() - i,
    {
        let c = text[i];
        if c == '\n' {
            let ghost full = line@;
            if line.len() > 0 && line[line.len() - 1] == '\r' {
                line.pop();
            }
            assert(line@ =~= strip_cr(full));
            add_line(dictionary, &line);
            proof {
                lemma_entries_push(closed_lines(s, i as int), line@);
                assert(closed_lines(s, i as int + 1) == closed_lines(s, i as int).push(line@));
                if line@.len() > 0 {
                    assert(dictionary@ =~= old(dictionary)@.union(
                        entries(closed_lines(s, i as int + 1)),
                    ));
                } else {
                    assert(dictionary@ =~= old(dictionary)@.union(
                        entries(closed_lines(s, i as int + 1)),
                    ));
                }
            }
            line = Vec::new();
            i = i + 1;
            assert(line@ =~= s.subrange(line_start(s, i as int), i as int));
        } else {
            line.push(c);
            i = i + 1;
            assert(line@ =~= s.subrange(line_start(s, i as int), i as int));
        }
    }
    if line.len() > 0 {
        add_line(dictionary, &line);
        proof {
            lemma_entries_push(closed_lines(s, s.len() as int), line@);
            assert(dictionary@ =~= old(dictionary)@.union(entries(lines_of(s))));
        }
    } else {
        assert(lines_of(s) == closed_lines(s, s.len() as int));
    }
}

} // verus!
