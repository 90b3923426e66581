use vstd::prelude::*;

use crate::board::{rectangular, Board};
use crate::trie::{has_extension, is_prefix, Trie};
use vstd::set_lib::{lemma_int_range, lemma_len_subset, set_int_range};

verus! {

/// Relies on `String::push`: the character is appended at the end.
pub assume_specification[ String::push ](s: &mut String, ch: char)
    ensures
        final(s)@ == old(s)@.push(ch),
;

/// A found word with the cells that spell it.
pub type Entry = (String, Vec<(usize, usize)>);

/// The cell lies on the grid.
pub open spec fn in_bounds(g: Seq<Seq<char>>, p: (usize, usize)) -> bool {
    p.0 < g.len() && p.1 < g[0].len()
}

/// Two distinct cells whose row and column each differ by at most one.
pub open spec fn adjacent(a: (usize, usize), b: (usize, usize)) -> bool {
    &&& a != b
    &&& a.0 <= b.0 + 1
    &&& b.0 <= a.0 + 1
    &&& a.1 <= b.1 + 1
    &&& b.1 <= a.1 + 1
}

/// A non-empty sequence of distinct cells on the grid, each adjacent to the next.
pub open spec fn valid_path(g: Seq<Seq<char>>, path: Seq<(usize, usize)>) -> bool {
    &&& path.len() >= 1
    &&& path.no_duplicates()
    &&& forall|i: int| 0 <= i < path.len() ==> in_bounds(g, #[trigger] path[i])
    &&& forall|i: int| 0 <= i < path.len() - 1 ==> adjacent(#[trigger] path[i], path[i + 1])
}

/// The characters under the cells of `path`, in order.
pub open spec fn spell(g: Seq<Seq<char>>, path: Seq<(usize, usize)>) -> Seq<char> {
    path.map_values(|p: (usize, usize)| g[p.0 as int][p.1 as int])
}

/// `q` starts with `p`.
pub open spec fn extends(q: Seq<(usize, usize)>, p: Seq<(usize, usize)>) -> bool {
    p.len() <= q.len() && q.subrange(0, p.len() as int) == p
}

/// Some entry of `f` has the word `w`.
pub open spec fn has_key(f: Seq<Entry>, w: Seq<char>) -> bool {
    exists|i: int| 0 <= i < f.len() && (#[trigger] f[i]).0@ == w
}

/// Every entry is a word of `dict` spelled by a valid path, and no word has
/// two entries.
pub open spec fn sound(g: Seq<Seq<char>>, dict: Set<Seq<char>>, f: Seq<Entry>) -> bool {
    &&& forall|i: int|
        0 <= i < f.len() ==> {
            &&& valid_path(g, (#[trigger] f[i]).1@)
            &&& spell(g, f[i].1@) == f[i].0@
            &&& dict.contains(f[i].0@)
        }
    &&& forall|i: int, j: int| 0 <= i < j < f.len() ==> (#[trigger] f[i]).0@ != (#[trigger] f[j]).0@
}

/// Every word of `dict` spelled by a valid path that starts with `p` has an entry.
pub open spec fn covers(
    g: Seq<Seq<char>>,
    dict: Set<Seq<char>>,
    f: Seq<Entry>,
    p: Seq<(usize, usize)>,
) -> bool {
    forall|q: Seq<(usize, usize)>|
        #[trigger] extends(q, p) && valid_path(g, q) && dict.contains(spell(g, q)) ==> has_key(
            f,
            spell(g, q),
        )
}

/// Every word of `dict` spelled by some valid path has an entry.
pub open spec fn complete(g: Seq<Seq<char>>, dict: Set<Seq<char>>, f: Seq<Entry>) -> bool {
    forall|q: Seq<(usize, usize)>|
        #[trigger] valid_path(g, q) && dict.contains(spell(g, q)) ==> has_key(f, spell(g, q))
}

/// `f2` keeps the entries of `f1`, in place, and may add more after them.
pub open spec fn grows(f1: Seq<Entry>, f2: Seq<Entry>) -> bool {
    f1.len() <= f2.len() && forall|i: int| 0 <= i < f1.len() ==> #[trigger] f2[i] == f1[i]
}

/// The words of a list, as a set.
pub open spec fn word_set(words: Seq<String>) -> Set<Seq<char>> {
    Set::new(|w: Seq<char>| exists|i: int| 0 <= i < words.len() && (#[trigger] words[i])@ == w)
}

/// Position of `n` among the eight neighbours of `c` (row offset, then column offset).
pub open spec fn offset(c: (usize, usize), n: (usize, usize)) -> int {
    (n.0 - c.0 + 1) * 3 + (n.1 - c.1 + 1)
}

/// The word and the path of each entry.
pub open spec fn entries(f: Seq<Entry>) -> Seq<(Seq<char>, Seq<(usize, usize)>)> {
    f.map_values(|e: Entry| (e.0@, e.1@))
}

/// Some entry of `acc` has the word `w`.
pub open spec fn keyed(acc: Seq<(Seq<char>, Seq<(usize, usize)>)>, w: Seq<char>) -> bool {
    exists|i: int| 0 <= i < acc.len() && (#[trigger] acc[i]).0 == w
}

/// `acc` with `(w, path)` appended, unless `w` already has an entry: the
/// first path found for a word is kept.
pub open spec fn add_first(
    acc: Seq<(Seq<char>, Seq<(usize, usize)>)>,
    w: Seq<char>,
    path: Seq<(usize, usize)>,
) -> Seq<(Seq<char>, Seq<(usize, usize)>)> {
    if keyed(acc, w) {
        acc
    } else {
        acc.push((w, path))
    }
}

/// Number of cells of the grid.
pub open spec fn cell_count(g: Seq<Seq<char>>) -> int {
    (g.len() * g[0].len()) as int
}

/// The neighbour of the last cell of `p` in direction `d` (row offset
/// `d / 3 - 1`, column offset `d % 3 - 1`), when it lies on the grid and is
/// not in `p`.
pub open spec fn neighbor(g: Seq<Seq<char>>, p: Seq<(usize, usize)>, d: int) -> Option<
    (usize, usize),
> {
    let r = p.last().0 + d / 3 - 1;
    let c = p.last().1 + d % 3 - 1;
    if d != 4 && 0 <= r < g.len() && 0 <= c < g[0].len() && !p.contains((r as usize, c as usize)) {
        Some((r as usize, c as usize))
    } else {
        None
    }
}

/// The entries after the depth-first exploration of the extensions of `p`,
/// starting from the entries `acc`: pruned where no word starts with the
/// characters of `p`, recording the word of `p` if it is one, then trying the
/// eight directions in order.
pub open spec fn explore(
    g: Seq<Seq<char>>,
    dict: Set<Seq<char>>,
    p: Seq<(usize, usize)>,
    acc: Seq<(Seq<char>, Seq<(usize, usize)>)>,
) -> Seq<(Seq<char>, Seq<(usize, usize)>)>
    decreases cell_count(g) - p.len(), 10int,
{
    if !has_extension(dict, spell(g, p)) {
        acc
    } else {
        let acc1 = if dict.contains(spell(g, p)) {
            add_first(acc, spell(g, p), p)
        } else {
            acc
        };
        explore_from(g, dict, p, 0, acc1)
    }
}

/// The entries after trying directions `d` to 8 from the last cell of `p`.
pub open spec fn explore_from(
    g: Seq<Seq<char>>,
    dict: Set<Seq<char>>,
    p: Seq<(usize, usize)>,
    d: int,
    acc: Seq<(Seq<char>, Seq<(usize, usize)>)>,
) -> Seq<(Seq<char>, Seq<(usize, usize)>)>
    decreases cell_count(g) - p.len(), 9 - d,
{
    if d < 0 || d >= 9 {
        acc
    } else {
        let acc2 = match neighbor(g, p, d) {
            Some(n) => if p.len() < cell_count(g) {
                explore(g, dict, p.push(n), acc)
            } else {
                acc
            },
            None => acc,
        };
        explore_from(g, dict, p, d + 1, acc2)
    }
}

pub(crate) proof fn lemma_grows_keys(f1: Seq<Entry>, f2: Seq<Entry>, w: Seq<char>)
    requires
        grows(f1, f2),
        has_key(f1, w),
    ensures
        has_key(f2, w),
{
    let i = choose|i: int| 0 <= i < f1.len() && (#[trigger] f1[i]).0@ == w;
    assert(f2[i] == f1[i]);
}

proof fn lemma_cell_index(g: Seq<Seq<char>>, a: (usize, usize), b: (usize, usize))
    requires
        rectangular(g),
        in_bounds(g, a),
        in_bounds(g, b),
        a.0 * g[0].len() + a.1 == b.0 * g[0].len() + b.1,
    ensures
        a == b,
{
    let w = g[0].len() as int;
    let (r1, c1) = (a.0 as int, a.1 as int);
    let (r2, c2) = (b.0 as int, b.1 as int);
    if r1 < r2 {
        assert(r1 * w + w <= r2 * w) by (nonlinear_arith)
            requires
                r1 < r2,
                w >= 0,
        ;
    } else if r2 < r1 {
        assert(r2 * w + w <= r1 * w) by (nonlinear_arith)
            requires
                r2 < r1,
                w >= 0,
        ;
    }
}

/// A valid path visits each cell at most once, so it is no longer than the
/// grid has cells.
proof fn lemma_path_len(g: Seq<Seq<char>>, q: Seq<(usize, usize)>)
    requires
        rectangular(g),
        valid_path(g, q),
    ensures
        q.len() <= g.len() * g[0].len(),
{
    let w = g[0].len() as int;
    let n = g.len() * w;
    let f = |p: (usize, usize)| p.0 * w + p.1;
    let m = q.map_values(f);
    assert forall|i: int, j: int| 0 <= i < m.len() && 0 <= j < m.len() && i != j implies m[i]
        != m[j] by {
        assert(in_bounds(g, q[i]));
        assert(in_bounds(g, q[j]));
        if m[i] == m[j] {
            lemma_cell_index(g, q[i], q[j]);
        }
    }
    assert(m.no_duplicates());
    m.unique_seq_to_set();
    assert forall|x: int| m.to_set().contains(x) implies set_int_range(0, n).contains(x) by {
        let i = choose|i: int| 0 <= i < m.len() && m[i] == x;
        assert(in_bounds(g, q[i]));
        let (r, c) = (q[i].0 as int, q[i].1 as int);
        assert(r * w + c < n) by (nonlinear_arith)
            requires
                0 <= r < g.len(),
                0 <= c < w,
                n == g.len() * w,
        ;
        assert(0 <= r * w) by (nonlinear_arith)
            requires
                0 <= r,
                0 <= w,
        ;
    }
    lemma_int_range(0, n);
    lemma_len_subset(m.to_set(), set_int_range(0, n));
}

proof fn lemma_spell_prefix(g: Seq<Seq<char>>, q: Seq<(usize, usize)>, p: Seq<(usize, usize)>)
    requires
        extends(q, p),
    ensures
        is_prefix(spell(g, p), spell(g, q)),
{
    assert(spell(g, q).subrange(0, p.len() as int) =~= spell(g, p));
}

/// Appending a cell adjacent to the last one and not yet visited keeps a
/// path valid.
proof fn lemma_extend_path(g: Seq<Seq<char>>, p: Seq<(usize, usize)>, n: (usize, usize))
    requires
        valid_path(g, p),
        in_bounds(g, n),
        !p.contains(n),
        adjacent(p.last(), n),
    ensures
        valid_path(g, p.push(n)),
{
    let p1 = p.push(n);
    assert forall|i: int| 0 <= i < p1.len() - 1 implies adjacent(#[trigger] p1[i], p1[i + 1]) by {
        if i < p1.len() - 2 {
            assert(p[i] == p1[i]);
            assert(p[i + 1] == p1[i + 1]);
        }
    }
    assert forall|i: int, j: int| 0 <= i < j < p1.len() implies p1[i] != p1[j] by {
        if j == p1.len() - 1 {
            assert(p.contains(p1[i]) || i == j);
        } else {
            assert(p[i] != p[j]);
        }
    }
}

/// The cell that follows `p` on a valid path extending `p`: adjacent to the
/// last cell of `p`, on the grid, not in `p`, and `q` extends `p` with it.
proof fn lemma_next_cell(g: Seq<Seq<char>>, p: Seq<(usize, usize)>, q: Seq<(usize, usize)>)
    requires
        valid_path(g, p),
        valid_path(g, q),
        extends(q, p),
        q.len() > p.len(),
    ensures
        adjacent(p.last(), q[p.len() as int]),
        0 <= offset(p.last(), q[p.len() as int]) < 9,
        offset(p.last(), q[p.len() as int]) != 4,
        in_bounds(g, q[p.len() as int]),
        !p.contains(q[p.len() as int]),
        extends(q, p.push(q[p.len() as int])),
        q[p.len() as int].0 == p.last().0 + offset(p.last(), q[p.len() as int]) / 3 - 1,
        q[p.len() as int].1 == p.last().1 + offset(p.last(), q[p.len() as int]) % 3 - 1,
{
    let last = p.len() - 1;
    let n = q[p.len() as int];
    assert(q[last] == q.subrange(0, p.len() as int)[last]);
    assert(adjacent(q[last], q[last + 1]));
    if p.contains(n) {
        let i = choose|i: int| 0 <= i < p.len() && p[i] == n;
        assert(q[i] == q.subrange(0, p.len() as int)[i]);
    }
    assert(q.subrange(0, p.len() + 1int) =~= p.push(n));
    let a = n.0 - p.last().0 + 1;
    let b = n.1 - p.last().1 + 1;
    assert(0 <= a < 3 && 0 <= b < 3);
    assert((a * 3 + b) / 3 == a && (a * 3 + b) % 3 == b) by (nonlinear_arith)
        requires
            0 <= a < 3,
            0 <= b < 3,
    ;
}

/// The coordinate `v + delta - 1`, if it lies in `[0, bound)`.
fn step(v: usize, delta: usize, bound: usize) -> (r: Option<usize>)
    requires
        v < bound,
        delta < 3,
    ensures
        match r {
            Some(x) => x == v + delta - 1 && x < bound,
            None => v + delta - 1 < 0 || v + delta - 1 >= bound,
        },
{
    if delta == 0 {
        if v == 0 {
            None
        } else {
            Some(v - 1)
        }
    } else if delta == 1 {
        Some(v)
    } else if v + 1 < bound {
        Some(v + 1)
    } else {
        None
    }
}

/// Whether `path` holds `p`.
fn path_contains(path: &Vec<(usize, usize)>, p: (usize, usize)) -> (r: bool)
    ensures
        r == path@.contains(p),
{
    let mut i: usize = 0;
    while i < path.len()
        invariant
            0 <= i <= path@.len(),
            forall|k: int| 0 <= k < i ==> path@[k] != p,
        decreases path@.len() - i,
    {
        let (r, c) = path[i];
        if r == p.0 && c == p.1 {
            return true;
        }
        i = i + 1;
    }
    false
}

/// A copy of `path`.
fn copy_path(path: &Vec<(usize, usize)>) -> (r: Vec<(usize, usize)>)
    ensures
        r@ == path@,
{
    let mut r: Vec<(usize, usize)> = Vec::new();
    let mut i: usize = 0;
    while i < path.len()
        invariant
            0 <= i <= path@.len(),
            r@ == path@.subrange(0, i as int),
        decreases path@.len() - i,
    {
        r.push(path[i]);
        i = i + 1;
        assert(r@ =~= path@.subrange(0, i as int));
    }
    assert(r@ =~= path@);
    r
}

/// The search over one board with one dictionary: the board, the prefix tree
/// built from the words, and the words found so far with one path each.
pub struct BoggleHelper {
    board: Board,
    word_trie: Trie,
    found: Vec<Entry>,
}

impl BoggleHelper {
    /// The board's characters.
    pub closed spec fn grid(&self) -> Seq<Seq<char>> {
        self.board@
    }

    /// The dictionary's words.
    pub closed spec fn dict(&self) -> Set<Seq<char>> {
        self.word_trie@
    }

    /// The words found so far, each with its path.
    pub closed spec fn results(&self) -> Seq<Entry> {
        self.found@
    }

    pub closed spec fn wf(&self) -> bool {
        &&& self.board.wf()
        &&& self.word_trie.wf()
        &&& sound(self.board@, self.word_trie@, self.found@)
    }

    /// Builds the prefix tree from `words`; nothing is found yet.
    pub fn new(board: Board, words: &Vec<String>) -> (r: BoggleHelper)
        requires
            board.wf(),
        ensures
            r.wf(),
            r.grid() == board@,
            r.dict() == word_set(words@),
            r.results() == Seq::<Entry>::empty(),
    {
        let mut word_trie = Trie::new();
        let mut k: usize = 0;
        while k < words.len()
            invariant
                word_trie.wf(),
                0 <= k <= words@.len(),
                word_trie@ == word_set(words@.subrange(0, k as int)),
            decreases words@.len() - k,
        {
            let ghost before = word_trie@;
            word_trie.insert(words[k].as_str());
            proof {
                let s0 = words@.subrange(0, k as int);
                let s1 = words@.subrange(0, k + 1);
                assert forall|w: Seq<char>| #[trigger]
                    word_set(s1).contains(w) == before.insert(words@[k as int]@).contains(w) by {
                    if word_set(s1).contains(w) {
                        let i = choose|i: int| 0 <= i < s1.len() && (#[trigger] s1[i])@ == w;
                        if i < k {
                            assert(s0[i] == s1[i]);
                        }
                    }
                    if before.contains(w) {
                        let i = choose|i: int| 0 <= i < s0.len() && (#[trigger] s0[i])@ == w;
                        assert(s0[i] == s1[i]);
                    }
                    if w == words@[k as int]@ {
                        assert(s1[k as int] == words@[k as int]);
                    }
                }
                assert(word_set(s1) =~= before.insert(words@[k as int]@));
            }
            k = k + 1;
        }
        assert(words@.subrange(0, words@.len() as int) =~= words@);
        BoggleHelper { board, word_trie, found: Vec::new() }
    }

    /// Records `word` with `path`, unless the word already has an entry.
    fn record(&mut self, word: &str, path: &Vec<(usize, usize)>)
        requires
            old(self).wf(),
            valid_path(old(self).grid(), path@),
            word@ == spell(old(self).grid(), path@),
            old(self).dict().contains(word@),
        ensures
            final(self).wf(),
            final(self).grid() == old(self).grid(),
            final(self).dict() == old(self).dict(),
            grows(old(self).results(), final(self).results()),
            has_key(final(self).results(), word@),
            entries(final(self).results()) == add_first(entries(old(self).results()), word@, path@),
    {
        let owned = word.to_owned();
        let mut i: usize = 0;
        let mut present = false;
        while i < self.found.len() && !present
            invariant
                self.wf(),
                owned@ == word@,
                0 <= i <= self.found@.len(),
                present ==> 0 < i && self.found@[i - 1].0@ == word@,
                forall|k: int| 0 <= k < i && !present ==> (#[trigger] self.found@[k]).0@ != word@,
            decreases self.found@.len() - i,
        {
            present = self.found[i].0 == owned;
            i = i + 1;
        }
        let ghost acc = entries(self.found@);
        if !present {
            assert forall|k: int| 0 <= k < acc.len() implies (#[trigger] acc[k]).0 != word@ by {
                assert(self.found@[k].0@ != word@);
            }
            let cells = copy_path(path);
            self.found.push((owned, cells));
            assert(self.found@[self.found@.len() - 1].0@ == word@);
            assert(entries(self.found@) =~= acc.push((word@, path@)));
        } else {
            assert(acc[i - 1].0 == word@);
        }
    }

    /// Explores every extension of `path`, whose characters are
    /// `current_word` and whose last cell is `current_point`; the branch is
    /// abandoned as soon as no word starts with the characters so far.
    pub fn seek(
        &mut self,
        current_word: &str,
        current_point: (usize, usize),
        path: Vec<(usize, usize)>,
    )
        requires
            old(self).wf(),
            valid_path(old(self).grid(), path@),
            current_word@ == spell(old(self).grid(), path@),
            current_point == path@.last(),
        ensures
            final(self).wf(),
            final(self).grid() == old(self).grid(),
            final(self).dict() == old(self).dict(),
            grows(old(self).results(), final(self).results()),
            covers(final(self).grid(), final(self).dict(), final(self).results(), path@),
            entries(final(self).results()) == explore(
                old(self).grid(),
                old(self).dict(),
                path@,
                entries(old(self).results()),
            ),
        decreases old(self).grid().len() * old(self).grid()[0].len() - path@.len(),
    {
        let ghost g = self.grid();
        let ghost dict = self.dict();
        let ghost p0 = path@;
        let ghost f0 = self.found@;
        proof {
            self.board.lemma_rectangular();
            lemma_path_len(g, p0);
        }
        if !self.word_trie.is_prefix_or_word(current_word) {
            assert forall|q: Seq<(usize, usize)>|
                #[trigger] extends(q, p0) && valid_path(g, q) && dict.contains(
                    spell(g, q),
                ) implies has_key(self.found@, spell(g, q)) by {
                lemma_spell_prefix(g, q, p0);
            }
            return;
        }
        if self.word_trie.is_word(current_word) {
            self.record(current_word, &path);
        }
        let rows = self.board.rows();
        let cols = self.board.cols();
        let mut d: usize = 0;
        while d < 9
            invariant
                self.wf(),
                path@ == p0,
                g == old(self).grid(),
                self.grid() == g,
                self.dict() == dict,
                rows == g.len(),
                cols == g[0].len(),
                rectangular(g),
                valid_path(g, p0),
                current_word@ == spell(g, p0),
                current_point == p0.last(),
                p0.len() <= g.len() * g[0].len(),
                grows(f0, self.found@),
                0 <= d <= 9,
                dict.contains(spell(g, p0)) ==> has_key(self.found@, spell(g, p0)),
                explore_from(g, dict, p0, d as int, entries(self.found@)) == explore(
                    g,
                    dict,
                    p0,
                    entries(f0),
                ),
                forall|q: Seq<(usize, usize)>|
                    #[trigger] extends(q, p0) && valid_path(g, q) && dict.contains(spell(g, q))
                        && q.len() > p0.len() && offset(current_point, q[p0.len() as int]) < d
                        ==> has_key(self.found@, spell(g, q)),
            decreases 9 - d,
        {
            let ghost fa = self.found@;
            assert(in_bounds(g, p0[p0.len() - 1]));
            let ghost target = explore_from(g, dict, p0, d as int, entries(fa));
            let dy = d / 3;
            let dx = d % 3;
            let ry = step(current_point.0, dy, rows);
            let rx = step(current_point.1, dx, cols);
            let mut next: Option<(usize, usize)> = None;
            if d != 4 {
                if let (Some(ny), Some(nx)) = (ry, rx) {
                    if !path_contains(&path, (ny, nx)) {
                        next = Some((ny, nx));
                    }
                }
            }
            let ghost dd = d as int;
            assert(next == neighbor(g, p0, dd));
            match next {
                Some(np) => {
                    assert(adjacent(p0.last(), np));
                    let c = self.board.at(np.0, np.1);
                    let mut new_word = current_word.to_owned();
                    new_word.push(c);
                    let mut new_path = copy_path(&path);
                    new_path.push(np);
                    let ghost p1 = new_path@;
                    proof {
                        lemma_extend_path(g, p0, np);
                        lemma_path_len(g, p1);
                        assert(spell(g, p1) =~= spell(g, p0).push(c));
                    }
                    self.seek(new_word.as_str(), np, new_path);
                    proof {
                        assert(p0.len() < cell_count(g));
                        assert(target == explore_from(g, dict, p0, dd + 1, entries(self.found@)));
                        if dict.contains(spell(g, p0)) {
                            lemma_grows_keys(fa, self.found@, spell(g, p0));
                        }
                        assert forall|q: Seq<(usize, usize)>|
                            #[trigger] extends(q, p0) && valid_path(g, q) && dict.contains(
                                spell(g, q),
                            ) && q.len() > p0.len() && offset(current_point, q[p0.len() as int])
                                < dd + 1 implies has_key(self.found@, spell(g, q)) by {
                            if offset(current_point, q[p0.len() as int]) < dd {
                                lemma_grows_keys(fa, self.found@, spell(g, q));
                            } else {
                                lemma_next_cell(g, p0, q);
                                assert(q.subrange(0, p1.len() as int) =~= p1);
                            }
                        }
                    }
                },
                None => {
                    proof {
                        assert(target == explore_from(g, dict, p0, dd + 1, entries(self.found@)));
                        assert forall|q: Seq<(usize, usize)>|
                            #[trigger] extends(q, p0) && valid_path(g, q) && dict.contains(
                                spell(g, q),
                            ) && q.len() > p0.len() && offset(current_point, q[p0.len() as int])
                                < dd + 1 implies has_key(self.found@, spell(g, q)) by {
                            if offset(current_point, q[p0.len() as int]) == dd {
                                lemma_next_cell(g, p0, q);
                            }
                        }
                    }
                },
            }
            d = d + 1;
        }
        proof {
            assert forall|q: Seq<(usize, usize)>|
                #[trigger] extends(q, p0) && valid_path(g, q) && dict.contains(
                    spell(g, q),
                ) implies has_key(self.found@, spell(g, q)) by {
                if q.len() == p0.len() {
                    assert(q =~= p0);
                } else {
                    lemma_next_cell(g, p0, q);
                }
            }
        }
    }

    /// Explores every path that starts at `start_point`.
    pub fn search(&mut self, start_point: (usize, usize))
        requires
            old(self).wf(),
            in_bounds(old(self).grid(), start_point),
        ensures
            final(self).wf(),
            final(self).grid() == old(self).grid(),
            final(self).dict() == old(self).dict(),
            grows(old(self).results(), final(self).results()),
            covers(final(self).grid(), final(self).dict(), final(self).results(), seq![start_point]),
            entries(final(self).results()) == explore(
                old(self).grid(),
                old(self).dict(),
                seq![start_point],
                entries(old(self).results()),
            ),
    {
        let start_char = self.board.at(start_point.0, start_point.1);
        let mut start_word = String::new();
        start_word.push(start_char);
        let mut path: Vec<(usize, usize)> = Vec::new();
        path.push(start_point);
        assert(path@ =~= seq![start_point]);
        assert(spell(self.grid(), path@) =~= seq![start_char]);
        self.seek(start_word.as_str(), start_point, path);
    }

    /// The words found, each with its path.
    pub fn into_found(self) -> (r: Vec<Entry>)
        requires
            self.wf(),
        ensures
            r@ == self.results(),
            sound(self.grid(), self.dict(), r@),
    {
        self.found
    }
}

} // verus!
