use vstd::prelude::*;

use crate::board::{board_error, rows_view, Board, BoardError};
use crate::search::{
    complete, entries, explore, extends, has_key, in_bounds, lemma_grows_keys, sound, spell,
    valid_path, word_set, BoggleHelper, Entry,
};

verus! {

/// `f` is a full answer for grid `g` and dictionary `dict`: its entries are
/// sound and every word of `dict` that a valid path spells has one.
pub open spec fn solves(g: Seq<Seq<char>>, dict: Set<Seq<char>>, f: Seq<Entry>) -> bool {
    sound(g, dict, f) && complete(g, dict, f)
}

/// The entries after exploring from the cells `(y, x)`, `(y, x + 1)`, ...
/// of row `y`, starting from `acc`.
pub open spec fn scan_row(
    g: Seq<Seq<char>>,
    dict: Set<Seq<char>>,
    y: int,
    x: int,
    acc: Seq<(Seq<char>, Seq<(usize, usize)>)>,
) -> Seq<(Seq<char>, Seq<(usize, usize)>)>
    decreases g[0].len() - x,
{
    if x < 0 || x >= g[0].len() {
        acc
    } else {
        scan_row(g, dict, y, x + 1, explore(g, dict, seq![(y as usize, x as usize)], acc))
    }
}

/// The entries after exploring from every cell of rows `y`, `y + 1`, ...,
/// in row-major order, starting from `acc`.
pub open spec fn scan(
    g: Seq<Seq<char>>,
    dict: Set<Seq<char>>,
    y: int,
    acc: Seq<(Seq<char>, Seq<(usize, usize)>)>,
) -> Seq<(Seq<char>, Seq<(usize, usize)>)>
    decreases g.len() - y,
{
    if y < 0 || y >= g.len() {
        acc
    } else {
        scan(g, dict, y + 1, scan_row(g, dict, y, 0, acc))
    }
}

/// The answer for grid `g` and dictionary `dict`: the entries of the
/// exploration from every cell in row-major order, the first path found for
/// a word being kept.
pub open spec fn solution(g: Seq<Seq<char>>, dict: Set<Seq<char>>) -> Seq<
    (Seq<char>, Seq<(usize, usize)>),
> {
    scan(g, dict, 0, Seq::empty())
}

/// Finds every word of `words` on the board whose rows are `board`, each with
/// one path that spells it; starting cells are taken in row-major order and
/// the first path found for a word is kept. A malformed board is refused
/// before any search.
pub fn boggle(board: &Vec<String>, words: &Vec<String>) -> (r: Result<Vec<Entry>, BoardError>)
    ensures
        match r {
            Ok(f) => board_error(rows_view(board@)) == None::<BoardError> && solves(
                rows_view(board@),
                word_set(words@),
                f@,
            ) && entries(f@) == solution(rows_view(board@), word_set(words@)),
            Err(e) => board_error(rows_view(board@)) == Some(e),
        },
{
    let b = match Board::from_rows(board) {
        Ok(b) => b,
        Err(e) => {
            return Err(e);
        },
    };
    let ghost g = b@;
    proof {
        b.lemma_rectangular();
    }
    let rows = b.rows();
    let cols = b.cols();
    let mut helper = BoggleHelper::new(b, words);
    let ghost dict = helper.dict();
    assert(entries(helper.results()) =~= Seq::<(Seq<char>, Seq<(usize, usize)>)>::empty());
    let mut y: usize = 0;
    while y < rows
        invariant
            helper.wf(),
            helper.grid() == g,
            helper.dict() == dict,
            dict == word_set(words@),
            g == rows_view(board@),
            board_error(g) == None::<BoardError>,
            rows == g.len(),
            cols == g[0].len(),
            0 <= y <= rows,
            scan(g, dict, y as int, entries(helper.results())) == solution(g, dict),
            forall|q: Seq<(usize, usize)>|
                #[trigger] valid_path(g, q) && dict.contains(spell(g, q)) && q[0].0 < y ==> has_key(
                    helper.results(),
                    spell(g, q),
                ),
        decreases rows - y,
    {
        let mut x: usize = 0;
        while x < cols
            invariant
                helper.wf(),
                helper.grid() == g,
                helper.dict() == dict,
                dict == word_set(words@),
                g == rows_view(board@),
                board_error(g) == None::<BoardError>,
                rows == g.len(),
                cols == g[0].len(),
                0 <= y < rows,
                0 <= x <= cols,
                scan(g, dict, y + 1, scan_row(g, dict, y as int, x as int, entries(helper.results())))
                    == solution(g, dict),
                forall|q: Seq<(usize, usize)>|
                    #[trigger] valid_path(g, q) && dict.contains(spell(g, q)) && (q[0].0 < y || (
                    q[0].0 == y && q[0].1 < x)) ==> has_key(helper.results(), spell(g, q)),
            decreases cols - x,
        {
            let ghost f0 = helper.results();
            helper.search((y, x));
            proof {
                assert forall|q: Seq<(usize, usize)>|
                    #[trigger] valid_path(g, q) && dict.contains(spell(g, q)) && (q[0].0 < y || (
                    q[0].0 == y && q[0].1 < x + 1)) implies has_key(
                    helper.results(),
                    spell(g, q),
                ) by {
                    if q[0].0 == y && q[0].1 == x {
                        assert(q.subrange(0, 1) =~= seq![(y, x)]);
                        assert(extends(q, seq![(y, x)]));
                    } else {
                        lemma_grows_keys(f0, helper.results(), spell(g, q));
                    }
                }
            }
            x = x + 1;
        }
        assert(scan_row(g, dict, y as int, x as int, entries(helper.results())) == entries(
            helper.results(),
        ));
        y = y + 1;
    }
    proof {
        assert forall|q: Seq<(usize, usize)>|
            #[trigger] valid_path(g, q) && dict.contains(spell(g, q)) implies has_key(
            helper.results(),
            spell(g, q),
        ) by {
            assert(in_bounds(g, q[0]));
        }
        assert(g == rows_view(board@));
    }
    assert(scan(g, dict, y as int, entries(helper.results())) == entries(helper.results()));
    Ok(helper.into_found())
}

/// Every answer for one board and one dictionary holds the same words:
/// solving twice yields the same word set.
pub proof fn lemma_same_words(
    g: Seq<Seq<char>>,
    dict: Set<Seq<char>>,
    f1: Seq<Entry>,
    f2: Seq<Entry>,
    w: Seq<char>,
)
    requires
        solves(g, dict, f1),
        solves(g, dict, f2),
    ensures
        has_key(f1, w) <==> has_key(f2, w),
{
    if has_key(f1, w) {
        let i = choose|i: int| 0 <= i < f1.len() && (#[trigger] f1[i]).0@ == w;
        assert(valid_path(g, f1[i].1@));
    }
    if has_key(f2, w) {
        let i = choose|i: int| 0 <= i < f2.len() && (#[trigger] f2[i]).0@ == w;
        assert(valid_path(g, f2[i].1@));
    }
}

/// Solving is deterministic: two answers that both equal the solution for
/// the same board and dictionary have the same words, the same paths, in the
/// same order.
pub proof fn lemma_deterministic(
    board: Seq<String>,
    words: Seq<String>,
    f1: Seq<Entry>,
    f2: Seq<Entry>,
)
    requires
        entries(f1) == solution(rows_view(board), word_set(words)),
        entries(f2) == solution(rows_view(board), word_set(words)),
    ensures
        f1.len() == f2.len(),
        forall|i: int| 0 <= i < f1.len() ==> (#[trigger] f1[i]).0@ == f2[i].0@ && f1[i].1@ == f2[i].1@,
{
    assert(entries(f1).len() == f1.len());
    assert forall|i: int| 0 <= i < f1.len() implies (#[trigger] f1[i]).0@ == f2[i].0@ && f1[i].1@
        == f2[i].1@ by {
        assert(entries(f1)[i] == entries(f2)[i]);
    }
}

/// The found words in order, separated by a comma and a space.
pub open spec fn joined(f: Seq<Entry>) -> Seq<char>
    decreases f.len(),
{
    if f.len() == 0 {
        Seq::empty()
    } else if f.len() == 1 {
        f[0].0@
    } else {
        joined(f.drop_last()) + seq![',', ' '] + f.last().0@
    }
}

/// The found words of `f`, separated by a comma and a space.
pub fn join_words(f: &Vec<Entry>) -> (r: String)
    ensures
        r@ == joined(f@),
{
    let mut s = String::new();
    let mut i: usize = 0;
    while i < f.len()
        invariant
            0 <= i <= f@.len(),
            s@ == joined(f@.subrange(0, i as int)),
        decreases f@.len() - i,
    {
        let ghost before = f@.subrange(0, i as int);
        let ghost after = f@.subrange(0, i + 1);
        assert(after.drop_last() =~= before);
        if i > 0 {
            let sep = ", ";
            proof {
                reveal_strlit(", ");
            }
            s.append(sep);
            assert(sep@ =~= seq![',', ' ']);
        } else {
            assert(before.len() == 0);
        }
        s.append(f[i].0.as_str());
        i = i + 1;
    }
    assert(f@.subrange(0, f@.len() as int) =~= f@);
    s
}

/// A board and a dictionary, and the words found on that board once solved.
pub struct BoggleSolver {
    board: Vec<String>,
    dictionary: Vec<String>,
    results: Vec<Entry>,
}

impl BoggleSolver {
    /// The board's rows.
    pub closed spec fn rows(&self) -> Seq<String> {
        self.board@
    }

    /// The dictionary's words.
    pub closed spec fn words(&self) -> Seq<String> {
        self.dictionary@
    }

    /// The words found by the last solve, each with its path.
    pub closed spec fn found(&self) -> Seq<Entry> {
        self.results@
    }

    /// Takes the board, one string per row, and the dictionary; nothing is
    /// found yet.
    pub fn new(board: Vec<String>, dictionary: Vec<String>) -> (r: BoggleSolver)
        ensures
            r.rows() == board@,
            r.words() == dictionary@,
            r.found() == Seq::<Entry>::empty(),
    {
        BoggleSolver { board, dictionary, results: Vec::new() }
    }

    /// Finds the dictionary's words on the board and returns them separated
    /// by a comma and a space; a malformed board is refused and nothing is
    /// found.
    pub fn solve(&mut self) -> (r: Result<String, BoardError>)
        ensures
            final(self).rows() == old(self).rows(),
            final(self).words() == old(self).words(),
            match r {
                Ok(s) => board_error(rows_view(old(self).rows())) == None::<BoardError> && solves(
                    rows_view(old(self).rows()),
                    word_set(old(self).words()),
                    final(self).found(),
                ) && entries(final(self).found()) == solution(
                    rows_view(old(self).rows()),
                    word_set(old(self).words()),
                ) && s@ == joined(final(self).found()),
                Err(e) => board_error(rows_view(old(self).rows())) == Some(e) && final(self).found()
                    == old(self).found(),
            },
    {
        match boggle(&self.board, &self.dictionary) {
            Ok(f) => {
                let s = join_words(&f);
                self.results = f;
                Ok(s)
            },
            Err(e) => Err(e),
        }
    }

    /// The words found by the last solve, each with its path.
    pub fn results(&self) -> (r: &Vec<Entry>)
        ensures
            r@ == self.found(),
    {
        &self.results
    }
}

} // verus!
