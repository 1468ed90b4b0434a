use vstd::prelude::*;

use crate::ranking::{lemma_ranked_distinct, ranked, ranks_before, record, texts};
use crate::trie_node::{chars_of, text_of, TrieNode};

verus! {

/// The shortest word that a search reports.
pub const MIN_WORD_LEN: usize = 3;

/// `p` names a cell of the board (rows may differ in length).
pub open spec fn on_board(board: Seq<Vec<String>>, p: (int, int)) -> bool {
    0 <= p.0 < board.len() && 0 <= p.1 < board[p.0]@.len()
}

/// Two different cells that touch, diagonals included.
pub open spec fn adjacent(a: (int, int), b: (int, int)) -> bool {
    a != b && -1 <= a.0 - b.0 <= 1 && -1 <= a.1 - b.1 <= 1
}

/// Cells `i` and `i + 1` of `p` touch.
pub open spec fn touching(p: Seq<(int, int)>, i: int) -> bool {
    adjacent(p[i], p[i + 1])
}

/// A sequence of board cells, each touching the next, none repeated.
pub open spec fn is_path(board: Seq<Vec<String>>, p: Seq<(int, int)>) -> bool {
    &&& forall|i: int| 0 <= i < p.len() ==> on_board(board, #[trigger] p[i])
    &&& forall|i: int| 0 <= i < p.len() - 1 ==> #[trigger] touching(p, i)
    &&& forall|i: int, j: int| 0 <= i < j < p.len() ==> p[i] != p[j]
}

/// The characters of the cell at `p`.
pub open spec fn tile(board: Seq<Vec<String>>, p: (int, int)) -> Seq<char> {
    board[p.0]@[p.1]@
}

/// The cells' characters along `p`, one after another.
pub open spec fn spelled(board: Seq<Vec<String>>, p: Seq<(int, int)>) -> Seq<char>
    decreases p.len(),
{
    if p.len() == 0 {
        Seq::empty()
    } else {
        spelled(board, p.drop_last()) + tile(board, p.last())
    }
}

/// Some nonempty path of the board spells `w`.
pub open spec fn traceable(board: Seq<Vec<String>>, w: Seq<char>) -> bool {
    exists|p: Seq<(int, int)>| p.len() > 0 && is_path(board, p) && #[trigger] spelled(board, p) == w
}

/// `w` belongs in the result of a search of `board` against `dict`.
pub open spec fn reported(dict: Set<Seq<char>>, board: Seq<Vec<String>>, w: Seq<char>) -> bool {
    w.len() >= MIN_WORD_LEN && dict.contains(w) && traceable(board, w)
}

/// The character sequences held by a vector of strings.
pub open spec fn strs(v: Seq<String>) -> Seq<Seq<char>> {
    v.map_values(|s: String| s@)
}

/// `w` is a word of `dict` spelled by `path` followed by a continuation that
/// starts at `start`.
spec fn extends_to(
    board: Seq<Vec<String>>,
    dict: Set<Seq<char>>,
    path: Seq<(int, int)>,
    start: (int, int),
    w: Seq<char>,
) -> bool {
    exists|ext: Seq<(int, int)>|
        ext.len() > 0 && ext[0] == start && is_path(board, path + ext) && #[trigger] spelled(
            board,
            path + ext,
        ) == w && dict.contains(w)
}

/// The values of a grid of flags.
spec fn grid(v: Seq<Vec<bool>>) -> Seq<Seq<bool>> {
    v.map_values(|r: Vec<bool>| r@)
}

/// `g` has the board's shape and flags exactly the cells of `path`.
spec fn marks(board: Seq<Vec<String>>, g: Seq<Seq<bool>>, path: Seq<(int, int)>) -> bool {
    &&& g.len() == board.len()
    &&& forall|r: int| 0 <= r < g.len() ==> (#[trigger] g[r]).len() == board[r]@.len()
    &&& forall|r: int, c: int| on_board(board, (r, c)) ==> g[r][c] == path.contains((r, c))
}

spec fn falses(row: Seq<bool>) -> nat
    decreases row.len(),
{
    if row.len() == 0 {
        0
    } else {
        falses(row.drop_last()) + if row.last() {
            0nat
        } else {
            1nat
        }
    }
}

/// How many cells are not flagged.
spec fn open_cells(g: Seq<Seq<bool>>) -> nat
    decreases g.len(),
{
    if g.len() == 0 {
        0
    } else {
        open_cells(g.drop_last()) + falses(g.last())
    }
}

proof fn lemma_falses_mark(row: Seq<bool>, c: int)
    requires
        0 <= c < row.len(),
        !row[c],
    ensures
        falses(row.update(c, true)) + 1 == falses(row),
    decreases row.len(),
{
    let u = row.update(c, true);
    if c == row.len() - 1 {
        assert(u.drop_last() =~= row.drop_last());
    } else {
        assert(u.drop_last() =~= row.drop_last().update(c, true));
        lemma_falses_mark(row.drop_last(), c);
    }
}

proof fn lemma_open_mark(g: Seq<Seq<bool>>, r: int, c: int)
    requires
        0 <= r < g.len(),
        0 <= c < g[r].len(),
        !g[r][c],
    ensures
        open_cells(g.update(r, g[r].update(c, true))) + 1 == open_cells(g),
    decreases g.len(),
{
    let x = g[r].update(c, true);
    let u = g.update(r, x);
    if r == g.len() - 1 {
        lemma_falses_mark(g[r], c);
        assert(u.drop_last() =~= g.drop_last());
    } else {
        assert(u.drop_last() =~= g.drop_last().update(r, x));
        lemma_open_mark(g.drop_last(), r, c);
    }
}

/// What a path spells begins what any longer path spells.
proof fn lemma_spelled_prefix(board: Seq<Vec<String>>, p: Seq<(int, int)>, q: Seq<(int, int)>)
    ensures
        spelled(board, p).is_prefix_of(spelled(board, p + q)),
    decreases q.len(),
{
    if q.len() == 0 {
        assert(p + q =~= p);
    } else {
        assert((p + q).drop_last() =~= p + q.drop_last());
        lemma_spelled_prefix(board, p, q.drop_last());
        let a = spelled(board, p);
        let b = spelled(board, p + q.drop_last());
        let c = spelled(board, p + q);
        assert(c == b + tile(board, (p + q).last()));
        assert(a =~= c.subrange(0, a.len() as int)) by {
            assert(a =~= b.subrange(0, a.len() as int));
        }
    }
}

/// A path grows into a path by a cell that touches its end and is new.
proof fn lemma_push_path(board: Seq<Vec<String>>, path: Seq<(int, int)>, start: (int, int))
    requires
        is_path(board, path),
        on_board(board, start),
        !path.contains(start),
        path.len() > 0 ==> adjacent(path.last(), start),
    ensures
        is_path(board, path.push(start)),
{
    let q = path.push(start);
    assert forall|i: int| 0 <= i < q.len() - 1 implies #[trigger] touching(q, i) by {
        if i < path.len() - 1 {
            assert(touching(path, i));
        }
    }
    assert forall|i: int, j: int| 0 <= i < j < q.len() implies q[i] != q[j] by {
        if j == path.len() {
            assert(q[i] == path[i]);
        }
    }
}

/// Nothing continues from a cell off the board or already on the path.
proof fn lemma_extends_off(
    board: Seq<Vec<String>>,
    dict: Set<Seq<char>>,
    path: Seq<(int, int)>,
    start: (int, int),
    w: Seq<char>,
)
    requires
        !on_board(board, start) || path.contains(start),
    ensures
        !extends_to(board, dict, path, start, w),
{
    if extends_to(board, dict, path, start, w) {
        let ext = choose|ext: Seq<(int, int)>|
            ext.len() > 0 && ext[0] == start && is_path(board, path + ext) && #[trigger] spelled(
                board,
                path + ext,
            ) == w && dict.contains(w);
        let q = path + ext;
        assert(q[path.len() as int] == start);
        if path.contains(start) {
            let i = choose|i: int| 0 <= i < path.len() && path[i] == start;
            assert(q[i] == start);
        }
    }
}

/// A word found by continuing the path is a stored word that begins with
/// what the path, grown by `start`, spells.
proof fn lemma_extends_prefix(
    board: Seq<Vec<String>>,
    dict: Set<Seq<char>>,
    path: Seq<(int, int)>,
    start: (int, int),
    w: Seq<char>,
)
    requires
        extends_to(board, dict, path, start, w),
    ensures
        dict.contains(w),
        spelled(board, path.push(start)).is_prefix_of(w),
{
    let ext = choose|ext: Seq<(int, int)>|
        ext.len() > 0 && ext[0] == start && is_path(board, path + ext) && #[trigger] spelled(
            board,
            path + ext,
        ) == w && dict.contains(w);
    assert(path + ext =~= path.push(start) + ext.drop_first());
    lemma_spelled_prefix(board, path.push(start), ext.drop_first());
}

/// A continuation from `start` that goes on reaches a neighbour of `start`.
proof fn lemma_extends_split(
    board: Seq<Vec<String>>,
    dict: Set<Seq<char>>,
    path: Seq<(int, int)>,
    start: (int, int),
    w: Seq<char>,
)
    requires
        extends_to(board, dict, path, start, w),
    ensures
        (spelled(board, path.push(start)) == w && dict.contains(w)) || exists|nb: (int, int)|
            adjacent(start, nb) && #[trigger] extends_to(board, dict, path.push(start), nb, w),
{
    let next = path.push(start);
    let ext = choose|ext: Seq<(int, int)>|
        ext.len() > 0 && ext[0] == start && is_path(board, path + ext) && #[trigger] spelled(
            board,
            path + ext,
        ) == w && dict.contains(w);
    if ext.len() == 1 {
        assert(path + ext =~= next);
    } else {
        let e2 = ext.drop_first();
        let q = path + ext;
        assert(q =~= next + e2);
        let nb = e2[0];
        assert(q[path.len() as int + 1] == nb);
        assert(q[path.len() as int] == start);
        assert(touching(q, path.len() as int));
        assert(extends_to(board, dict, next, nb, w));
    }
}

/// The grown path itself is a continuation.
proof fn lemma_extends_here(
    board: Seq<Vec<String>>,
    dict: Set<Seq<char>>,
    path: Seq<(int, int)>,
    start: (int, int),
)
    requires
        is_path(board, path.push(start)),
        dict.contains(spelled(board, path.push(start))),
    ensures
        extends_to(board, dict, path, start, spelled(board, path.push(start))),
{
    let ext = seq![start];
    assert(path + ext =~= path.push(start));
}

/// A continuation from a neighbour of `start` continues from `start`.
proof fn lemma_extends_join(
    board: Seq<Vec<String>>,
    dict: Set<Seq<char>>,
    path: Seq<(int, int)>,
    start: (int, int),
    nb: (int, int),
    w: Seq<char>,
)
    requires
        extends_to(board, dict, path.push(start), nb, w),
    ensures
        extends_to(board, dict, path, start, w),
{
    let next = path.push(start);
    let e2 = choose|ext: Seq<(int, int)>|
        ext.len() > 0 && ext[0] == nb && is_path(board, next + ext) && #[trigger] spelled(
            board,
            next + ext,
        ) == w && dict.contains(w);
    let ext = seq![start] + e2;
    let q = next + e2;
    assert(path + ext =~= q);
    assert(is_path(board, path + ext));
    assert(spelled(board, path + ext) == w);
    assert(ext[0] == start);
}

/// Continuations from `start` either stop there or go on to a neighbour.
proof fn lemma_extends_step(
    board: Seq<Vec<String>>,
    dict: Set<Seq<char>>,
    path: Seq<(int, int)>,
    start: (int, int),
    w: Seq<char>,
)
    requires
        is_path(board, path),
        on_board(board, start),
        !path.contains(start),
        path.len() > 0 ==> adjacent(path.last(), start),
    ensures
        extends_to(board, dict, path, start, w) == ((spelled(board, path.push(start)) == w
            && dict.contains(w)) || exists|nb: (int, int)|
            adjacent(start, nb) && #[trigger] extends_to(board, dict, path.push(start), nb, w)),
{
    let next = path.push(start);
    lemma_push_path(board, path, start);
    if extends_to(board, dict, path, start, w) {
        lemma_extends_split(board, dict, path, start, w);
    }
    if spelled(board, next) == w && dict.contains(w) {
        lemma_extends_here(board, dict, path, start);
    }
    if exists|nb: (int, int)|
        adjacent(start, nb) && #[trigger] extends_to(board, dict, next, nb, w) {
        let nb = choose|nb: (int, int)|
            adjacent(start, nb) && #[trigger] extends_to(board, dict, next, nb, w);
        lemma_extends_join(board, dict, path, start, nb, w);
    }
}

proof fn lemma_push_contains(s: Seq<Seq<char>>, v: Seq<char>, x: Seq<char>)
    ensures
        s.push(v).contains(x) == (s.contains(x) || x == v),
{
    let t = s.push(v);
    if t.contains(x) {
        let n = choose|n: int| 0 <= n < t.len() && t[n] == x;
        if n < s.len() {
            assert(s[n] == x);
        }
    }
    if s.contains(x) {
        let n = choose|n: int| 0 <= n < s.len() && s[n] == x;
        assert(t[n] == x);
    }
    if x == v {
        assert(t[s.len() as int] == x);
    }
}

/// A search result never holds a word shorter than `MIN_WORD_LEN`, even one
/// of the dictionary that the board spells.
pub proof fn lemma_results_long(dict: Set<Seq<char>>, board: Seq<Vec<String>>, r: Seq<Seq<char>>)
    requires
        forall|w: Seq<char>| #[trigger] r.contains(w) == reported(dict, board, w),
    ensures
        forall|i: int| 0 <= i < r.len() ==> (#[trigger] r[i]).len() >= MIN_WORD_LEN,
{
    assert forall|i: int| 0 <= i < r.len() implies (#[trigger] r[i]).len() >= MIN_WORD_LEN by {
        assert(r.contains(r[i]));
    }
}

/// Each word of a search result is spelled by a path that uses no cell
/// twice.
pub proof fn lemma_results_simple_paths(
    dict: Set<Seq<char>>,
    board: Seq<Vec<String>>,
    r: Seq<Seq<char>>,
    i: int,
)
    requires
        forall|w: Seq<char>| #[trigger] r.contains(w) == reported(dict, board, w),
        0 <= i < r.len(),
    ensures
        exists|p: Seq<(int, int)>|
            p.len() > 0 && (forall|a: int, b: int| 0 <= a < b < p.len() ==> p[a] != p[b])
                && is_path(board, p) && #[trigger] spelled(board, p) == r[i],
{
    assert(r.contains(r[i]));
}

/// A ranked search result holds each word once, however many paths spell
/// it.
pub proof fn lemma_results_once(r: Seq<Seq<char>>, i: int, j: int)
    requires
        ranked(r),
        0 <= i < r.len(),
        0 <= j < r.len(),
        r[i] == r[j],
    ensures
        i == j,
{
    if i != j {
        lemma_ranked_distinct(r, i, j);
    }
}

/// Against an empty dictionary a search finds nothing.
pub proof fn lemma_empty_dictionary(board: Seq<Vec<String>>, r: Seq<Seq<char>>)
    requires
        forall|w: Seq<char>| #[trigger] r.contains(w) == reported(Set::empty(), board, w),
    ensures
        r.len() == 0,
{
    if r.len() > 0 {
        assert(r.contains(r[0]));
    }
}

/// A word search over one snapshot of a dictionary.
pub struct Solver {
    word_trie: TrieNode,
}

impl Solver {
    /// The words the solver searches for.
    pub closed spec fn dictionary(&self) -> Set<Seq<char>> {
        self.word_trie@
    }

    /// The solver's tree is well formed.
    pub closed spec fn wf(&self) -> bool {
        self.word_trie.wf()
    }

    /// A solver over a private copy of `dictionary`.
    pub fn new(dictionary: &TrieNode) -> (r: Solver)
        requires
            dictionary.wf(),
        ensures
            r.wf(),
            r.dictionary() == dictionary@,
    {
        Solver { word_trie: dictionary.clone() }
    }

    /// Every word of the dictionary, at least `MIN_WORD_LEN` characters
    /// long, that a path of touching cells spells, each once, longest first
    /// and words of equal length in dictionary order.
    pub fn find_all_words(&self, board: &[Vec<String>]) -> (r: Vec<String>)
        requires
            self.wf(),
        ensures
            ranked(strs(r@)),
            forall|w: Seq<char>|
                #[trigger] strs(r@).contains(w) == reported(self.dictionary(), board@, w),
    {
        let ghost dict = self.dictionary();
        let mut words: Vec<Vec<char>> = Vec::new();
        let mut visited: Vec<Vec<bool>> = Vec::new();
        let nrows = board.len();
        let mut i: usize = 0;
        while i < nrows
            invariant
                nrows == board@.len(),
                i <= nrows,
                visited@.len() == i,
                forall|r: int|
                    0 <= r < i ==> (#[trigger] visited@[r])@ == Seq::new(
                        board@[r]@.len(),
                        |c: int| false,
                    ),
            decreases nrows - i,
        {
            let mut flags: Vec<bool> = Vec::new();
            let mut j: usize = 0;
            while j < board[i].len()
                invariant
                    nrows == board@.len(),
                    i < nrows,
                    j <= board@[i as int]@.len(),
                    flags@ == Seq::new(j as nat, |c: int| false),
                decreases board@[i as int]@.len() - j,
            {
                flags.push(false);
                j = j + 1;
                assert(flags@ =~= Seq::new(j as nat, |c: int| false));
            }
            visited.push(flags);
            i = i + 1;
        }
        let ghost g = grid(visited@);
        let ghost empty = Seq::<(int, int)>::empty();
        proof {
            assert forall|r: int| 0 <= r < g.len() implies (#[trigger] g[r]).len()
                == board@[r]@.len() by {
                assert(g[r] == visited@[r]@);
            }
            assert forall|r: int, c: int| on_board(board@, (r, c)) implies g[r][c]
                == empty.contains((r, c)) by {
                assert(g[r] == visited@[r]@);
            }
        }
        let mut current: Vec<char> = Vec::new();
        let mut row: usize = 0;
        while row < nrows
            invariant
                self.wf(),
                dict == self.dictionary(),
                nrows == board@.len(),
                row <= nrows,
                empty == Seq::<(int, int)>::empty(),
                marks(board@, g, empty),
                grid(visited@) == g,
                current@ == Seq::<char>::empty(),
                ranked(texts(words@)),
                forall|w: Seq<char>|
                    #[trigger] texts(words@).contains(w) == exists|p: (int, int)|
                        p.0 < row && #[trigger] extends_to(board@, dict, empty, p, w),
            decreases nrows - row,
        {
            let mut col: usize = 0;
            proof {
                assert forall|w: Seq<char>| #[trigger]
                    texts(words@).contains(w) == exists|p: (int, int)|
                        (p.0 < row || (p.0 == row && p.1 < 0)) && #[trigger] extends_to(
                            board@,
                            dict,
                            empty,
                            p,
                            w,
                        ) by {
                    if texts(words@).contains(w) {
                        let p = choose|p: (int, int)|
                            p.0 < row && #[trigger] extends_to(board@, dict, empty, p, w);
                        assert(p.0 < row || (p.0 == row && p.1 < 0));
                    }
                    if exists|p: (int, int)|
                        (p.0 < row || (p.0 == row && p.1 < 0)) && #[trigger] extends_to(
                            board@,
                            dict,
                            empty,
                            p,
                            w,
                        ) {
                        let p = choose|p: (int, int)|
                            (p.0 < row || (p.0 == row && p.1 < 0)) && #[trigger] extends_to(
                                board@,
                                dict,
                                empty,
                                p,
                                w,
                            );
                        if p.0 == row {
                            lemma_extends_off(board@, dict, empty, p, w);
                        }
                    }
                }
            }
            while col < board[row].len()
                invariant
                    self.wf(),
                    dict == self.dictionary(),
                    nrows == board@.len(),
                    row < nrows,
                    col <= board@[row as int]@.len(),
                    empty == Seq::<(int, int)>::empty(),
                    marks(board@, g, empty),
                    grid(visited@) == g,
                    current@ == Seq::<char>::empty(),
                    ranked(texts(words@)),
                    forall|w: Seq<char>|
                        #[trigger] texts(words@).contains(w) == exists|p: (int, int)|
                            (p.0 < row || (p.0 == row && p.1 < col)) && #[trigger] extends_to(
                                board@,
                                dict,
                                empty,
                                p,
                                w,
                            ),
                decreases board@[row as int]@.len() - col,
            {
                let ghost prior = texts(words@);
                assert(spelled(board@, empty) == Seq::<char>::empty());
                self.visit(board, row, col, &mut visited, &mut current, &mut words, Ghost(empty));
                col = col + 1;
                proof {
                    assert forall|w: Seq<char>| #[trigger]
                        texts(words@).contains(w) == exists|p: (int, int)|
                            (p.0 < row || (p.0 == row && p.1 < col)) && #[trigger] extends_to(
                                board@,
                                dict,
                                empty,
                                p,
                                w,
                            ) by {
                        let here = (row as int, col as int - 1);
                        if prior.contains(w) {
                            let p = choose|p: (int, int)|
                                (p.0 < row || (p.0 == row && p.1 < col - 1)) && #[trigger] extends_to(
                                    board@,
                                    dict,
                                    empty,
                                    p,
                                    w,
                                );
                            assert(p.0 < row || (p.0 == row && p.1 < col));
                        }
                        if extends_to(board@, dict, empty, here, w) {
                            assert(here.0 < row || (here.0 == row && here.1 < col));
                        }
                    }
                }
            }
            row = row + 1;
            proof {
                assert forall|w: Seq<char>| #[trigger]
                    texts(words@).contains(w) == exists|p: (int, int)|
                        p.0 < row && #[trigger] extends_to(board@, dict, empty, p, w) by {
                    if exists|p: (int, int)|
                        p.0 < row && #[trigger] extends_to(board@, dict, empty, p, w) {
                        let p = choose|p: (int, int)|
                            p.0 < row && #[trigger] extends_to(board@, dict, empty, p, w);
                        if p.0 == row - 1 && p.1 >= board@[p.0]@.len() {
                            lemma_extends_off(board@, dict, empty, p, w);
                        }
                    }
                }
            }
        }
        let ghost ws = texts(words@);
        proof {
            assert forall|w: Seq<char>| #[trigger] ws.contains(w) == (dict.contains(w)
                && traceable(board@, w)) by {
                if ws.contains(w) {
                    let p = choose|p: (int, int)|
                        p.0 < row && #[trigger] extends_to(board@, dict, empty, p, w);
                    let ext = choose|ext: Seq<(int, int)>|
                        ext.len() > 0 && ext[0] == p && is_path(board@, empty + ext)
                            && #[trigger] spelled(board@, empty + ext) == w && dict.contains(w);
                    assert(empty + ext =~= ext);
                }
                if dict.contains(w) && traceable(board@, w) {
                    let q = choose|q: Seq<(int, int)>|
                        q.len() > 0 && is_path(board@, q) && #[trigger] spelled(board@, q) == w;
                    assert(empty + q =~= q);
                    assert(extends_to(board@, dict, empty, q[0], w));
                    assert(on_board(board@, q[0]));
                }
            }
        }
        let mut out: Vec<String> = Vec::new();
        let mut k: usize = 0;
        while k < words.len()
            invariant
                ws == texts(words@),
                ranked(ws),
                k <= ws.len(),
                ranked(strs(out@)),
                forall|m: int, n: int|
                    0 <= m < out@.len() && k <= n < ws.len() ==> ranks_before(
                        #[trigger] strs(out@)[m],
                        #[trigger] ws[n],
                    ),
                forall|x: Seq<char>|
                    #[trigger] strs(out@).contains(x) == (x.len() >= MIN_WORD_LEN && ws.take(
                        k as int,
                    ).contains(x)),
            decreases ws.len() - k,
        {
            let ghost before = strs(out@);
            let ghost prev = ws.take(k as int);
            let ghost cur = ws[k as int];
            let long = words[k].len() >= MIN_WORD_LEN;
            if long {
                let text = text_of(&words[k]);
                out.push(text);
                proof {
                    assert(strs(out@) =~= before.push(cur));
                    assert forall|m: int| 0 <= m < before.len() implies ranks_before(
                        #[trigger] before[m],
                        cur,
                    ) by {
                        assert(ranks_before(before[m], ws[k as int]));
                    }
                }
            }
            k = k + 1;
            proof {
                assert(ws.take(k as int) =~= prev.push(cur));
                assert forall|x: Seq<char>| #[trigger] strs(out@).contains(x) == (x.len()
                    >= MIN_WORD_LEN && ws.take(k as int).contains(x)) by {
                    lemma_push_contains(prev, cur, x);
                    if long {
                        lemma_push_contains(before, cur, x);
                    }
                }
            }
        }
        assert(ws.take(k as int) =~= ws);
        out
    }

    /// Continues the search at cell (`row`, `col`) from the path `path`,
    /// whose cells `visited` flags and whose characters `current` holds.
    /// Every word of the dictionary that the path and a continuation from
    /// this cell spell is added to `words`; `visited` and `current` come back
    /// as they were.
    fn visit(
        &self,
        board: &[Vec<String>],
        row: usize,
        col: usize,
        visited: &mut Vec<Vec<bool>>,
        current: &mut Vec<char>,
        words: &mut Vec<Vec<char>>,
        Ghost(path): Ghost<Seq<(int, int)>>,
    )
        requires
            self.wf(),
            is_path(board@, path),
            marks(board@, grid(old(visited)@), path),
            old(current)@ == spelled(board@, path),
            path.len() > 0 ==> adjacent(path.last(), (row as int, col as int)),
            ranked(texts(old(words)@)),
        ensures
            grid(final(visited)@) == grid(old(visited)@),
            final(current)@ == old(current)@,
            ranked(texts(final(words)@)),
            forall|w: Seq<char>|
                #[trigger] texts(final(words)@).contains(w) == (texts(old(words)@).contains(w)
                    || extends_to(board@, self.dictionary(), path, (row as int, col as int), w)),
        decreases open_cells(grid(old(visited)@)),
    {
        let ghost dict = self.dictionary();
        let ghost cell = (row as int, col as int);
        let ghost g0 = grid(visited@);
        let nrows = board.len();
        if row >= nrows || col >= board[row].len() || {
            assert(g0[row as int] == visited@[row as int]@);
            visited[row][col]
        } {
            proof {
                assert forall|w: Seq<char>| !extends_to(board@, dict, path, cell, w) by {
                    lemma_extends_off(board@, dict, path, cell, w);
                }
            }
            return;
        }
        let ncols = board[row].len();
        visited[row][col] = true;
        let ghost g1 = grid(visited@);
        let ghost next = path.push(cell);
        proof {
            assert(g1 =~= g0.update(row as int, g0[row as int].update(col as int, true)));
            lemma_open_mark(g0, row as int, col as int);
            lemma_push_path(board@, path, cell);
            assert forall|r: int, c: int| on_board(board@, (r, c)) implies g1[r][c]
                == next.contains((r, c)) by {
                if (r, c) != cell {
                    if next.contains((r, c)) {
                        let k = choose|k: int| 0 <= k < next.len() && next[k] == (r, c);
                        assert(path[k] == (r, c));
                    }
                    if path.contains((r, c)) {
                        let k = choose|k: int| 0 <= k < path.len() && path[k] == (r, c);
                        assert(next[k] == (r, c));
                    }
                } else {
                    assert(next[path.len() as int] == cell);
                }
            }
            assert(marks(board@, g1, next));
        }
        let piece = chars_of(board[row][col].as_str());
        let ghost base = current@;
        let mut t: usize = 0;
        while t < piece.len()
            invariant
                t <= piece@.len(),
                current@ == base + piece@.take(t as int),
            decreases piece@.len() - t,
        {
            current.push(piece[t]);
            t = t + 1;
            assert(current@ =~= base + piece@.take(t as int));
        }
        assert(piece@.take(t as int) =~= piece@);
        assert(next.drop_last() =~= path);
        assert(current@ == spelled(board@, next));
        if self.word_trie.has_prefix_chars(current) {
            let ghost before = texts(words@);
            if self.word_trie.is_word_chars(current) {
                record(words, current.clone());
            }
            let ghost start_words = texts(words@);
            let mut a: usize = 0;
            while a < 3
                invariant
                    self.wf(),
                    dict == self.dictionary(),
                    a <= 3,
                    nrows == board@.len(),
                    ncols == board@[row as int]@.len(),
                    row < nrows,
                    col < ncols,
                    next == path.push(cell),
                    cell == (row as int, col as int),
                    is_path(board@, next),
                    marks(board@, g1, next),
                    grid(visited@) == g1,
                    open_cells(g1) < open_cells(g0),
                    g0 == grid(old(visited)@),
                    current@ == spelled(board@, next),
                    ranked(texts(words@)),
                    forall|w: Seq<char>|
                        #[trigger] texts(words@).contains(w) == (start_words.contains(w)
                            || exists|nb: (int, int)|
                            adjacent(cell, nb) && nb.0 - cell.0 + 1 < a
                                && #[trigger] extends_to(board@, dict, next, nb, w)),
                decreases 3 - a,
            {
                let mut b: usize = 0;
                while b < 3
                    invariant
                        self.wf(),
                        dict == self.dictionary(),
                        a < 3,
                        b <= 3,
                        nrows == board@.len(),
                        ncols == board@[row as int]@.len(),
                        row < nrows,
                        col < ncols,
                        next == path.push(cell),
                        cell == (row as int, col as int),
                    cell == (row as int, col as int),
                        is_path(board@, next),
                        marks(board@, g1, next),
                        grid(visited@) == g1,
                        open_cells(g1) < open_cells(g0),
                        g0 == grid(old(visited)@),
                    g0 == grid(old(visited)@),
                        current@ == spelled(board@, next),
                        ranked(texts(words@)),
                        forall|w: Seq<char>|
                            #[trigger] texts(words@).contains(w) == (start_words.contains(w)
                                || exists|nb: (int, int)|
                                adjacent(cell, nb) && (nb.0 - cell.0 + 1 < a || (nb.0 - cell.0
                                    + 1 == a && nb.1 - cell.1 + 1 < b))
                                    && #[trigger] extends_to(board@, dict, next, nb, w)),
                    decreases 3 - b,
                {
                    let ghost prior = texts(words@);
                    let ghost target = (row as int + a as int - 1, col as int + b as int - 1);
                    let ghost mut called = false;
                    if !(a == 1 && b == 1) && (a > 0 || row > 0) && (b > 0 || col > 0) {
                        let r2 = if a == 0 {
                            row - 1
                        } else {
                            row + (a - 1)
                        };
                        let c2 = if b == 0 {
                            col - 1
                        } else {
                            col + (b - 1)
                        };
                        assert(target == (r2 as int, c2 as int));
                        assert(r2 != row || c2 != col);
                        assert(adjacent(cell, target));
                        assert(open_cells(grid(visited@)) < open_cells(grid(old(visited)@)));
                        self.visit(board, r2, c2, visited, current, words, Ghost(next));
                        proof {
                            called = true;
                        }
                    } else {
                        proof {
                            assert forall|w: Seq<char>|
                                !adjacent(cell, target) || !extends_to(
                                    board@,
                                    dict,
                                    next,
                                    target,
                                    w,
                                ) by {
                                if adjacent(cell, target) {
                                    lemma_extends_off(board@, dict, next, target, w);
                                }
                            }
                        }
                    }
                    b = b + 1;
                    proof {
                        assert forall|w: Seq<char>| #[trigger]
                            texts(words@).contains(w) == (start_words.contains(w)
                                || exists|nb: (int, int)|
                                adjacent(cell, nb) && (nb.0 - cell.0 + 1 < a || (nb.0 - cell.0
                                    + 1 == a && nb.1 - cell.1 + 1 < b))
                                    && #[trigger] extends_to(board@, dict, next, nb, w)) by {
                            assert(called ==> texts(words@).contains(w) == (prior.contains(w)
                                || extends_to(board@, dict, next, target, w)));
                            assert(!called ==> texts(words@) == prior);
                            if exists|nb: (int, int)|
                                adjacent(cell, nb) && (nb.0 - cell.0 + 1 < a || (nb.0 - cell.0
                                    + 1 == a && nb.1 - cell.1 + 1 < b))
                                    && #[trigger] extends_to(board@, dict, next, nb, w) {
                                let nb = choose|nb: (int, int)|
                                    adjacent(cell, nb) && (nb.0 - cell.0 + 1 < a || (nb.0
                                        - cell.0 + 1 == a && nb.1 - cell.1 + 1 < b))
                                        && #[trigger] extends_to(board@, dict, next, nb, w);
                                if nb != target {
                                    assert(prior.contains(w));
                                } else {
                                    assert(called);
                                }
                            }
                            if prior.contains(w) && !start_words.contains(w) {
                                let nb = choose|nb: (int, int)|
                                    adjacent(cell, nb) && (nb.0 - cell.0 + 1 < a || (nb.0
                                        - cell.0 + 1 == a && nb.1 - cell.1 + 1 < b - 1))
                                        && #[trigger] extends_to(board@, dict, next, nb, w);
                                assert(adjacent(cell, nb) && (nb.0 - cell.0 + 1 < a || (nb.0
                                    - cell.0 + 1 == a && nb.1 - cell.1 + 1 < b)));
                            }
                            if called && extends_to(board@, dict, next, target, w) {
                                assert(adjacent(cell, target));
                                assert(target.0 - cell.0 + 1 == a && target.1 - cell.1 + 1 < b);
                            }
                        }
                    }
                }
                a = a + 1;
            }
            proof {
                assert forall|w: Seq<char>| #[trigger]
                    texts(words@).contains(w) == (texts(old(words)@).contains(w)
                        || extends_to(board@, dict, path, cell, w)) by {
                    lemma_extends_step(board@, dict, path, cell, w);
                }
            }
        } else {
            proof {
                assert forall|w: Seq<char>| !extends_to(board@, dict, path, cell, w) by {
                    if extends_to(board@, dict, path, cell, w) {
                        lemma_extends_prefix(board@, dict, path, cell, w);
                    }
                }
            }
        }
        let ghost vmid = visited@;
        assert(grid(vmid) == g1);
        assert(vmid[row as int]@ == g1[row as int]);
        visited[row][col] = false;
        proof {
            assert forall|r: int| 0 <= r < g0.len() && r != row implies grid(visited@)[r]
                == g0[r] by {
                assert(visited@[r] == vmid[r]);
                assert(grid(vmid)[r] == g1[r]);
            }
            assert(visited@[row as int]@ =~= g0[row as int]);
            assert(grid(visited@)[row as int] =~= g0[row as int]);
            assert(grid(visited@) =~= g0);
        }
        current.truncate(current.len() - piece.len());
        assert(current@ =~= base);
    }
}

} // verus!
