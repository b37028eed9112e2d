use vstd::prelude::*;
use crate::grid::{step, Direction, Grid, Point};
use crate::text::{all_letters, fold_word, is_letter};
use crate::trie::{DictionaryError, Trie};
use crate::word_set::WordSet;

verus! {

/// The moves a search may take: the four orthogonal ones, and with
/// `diagonal` the four diagonal ones after them.
pub open spec fn direction_set(diagonal: bool) -> Seq<Direction> {
    if diagonal {
        seq![
            Direction::Down,
            Direction::Right,
            Direction::Up,
            Direction::Left,
            Direction::LowerRight,
            Direction::LowerLeft,
            Direction::UpperRight,
            Direction::UpperLeft,
        ]
    } else {
        seq![Direction::Down, Direction::Right, Direction::Up, Direction::Left]
    }
}

/// `b` is one move of `dirs` away from `a`.
pub open spec fn adjacent(dirs: Seq<Direction>, a: (int, int), b: (int, int)) -> bool {
    exists|k: int| 0 <= k < dirs.len() && step(a, #[trigger] dirs[k]) == b
}

/// A path through the grid: cells inside it, each one move from the one
/// before, none visited twice.
pub open spec fn is_trail(g: Grid, dirs: Seq<Direction>, q: Seq<(int, int)>) -> bool {
    &&& forall|i: int| 0 <= i < q.len() ==> g.in_bounds(#[trigger] q[i])
    &&& forall|i: int| 0 < i < q.len() ==> adjacent(dirs, q[i - 1], #[trigger] q[i])
    &&& q.no_duplicates()
}

/// The letters along a path.
pub open spec fn spell(g: Grid, q: Seq<(int, int)>) -> Seq<char> {
    q.map_values(|p: (int, int)| g.letter(p))
}

/// `w` is a dictionary word spelled by all but the last cell of some trail.
/// The search reads a word when it is about to step onto a further cell, so
/// a word is found where its trail can be continued by one cell.
pub open spec fn grid_words(dict: Set<Seq<char>>, g: Grid, dirs: Seq<Direction>) -> Set<Seq<char>> {
    Set::new(
        |w: Seq<char>|
            exists|q: Seq<(int, int)>|
                #[trigger] is_trail(g, dirs, q) && q.len() == w.len() + 1 && spell(g, q.drop_last())
                    == w && dict.contains(fold_word(w)),
    )
}

/// `w` is found by a trail that begins with `start`.
pub open spec fn found_from(
    dict: Set<Seq<char>>,
    g: Grid,
    dirs: Seq<Direction>,
    start: Seq<(int, int)>,
    w: Seq<char>,
) -> bool {
    exists|q: Seq<(int, int)>|
        #[trigger] is_trail(g, dirs, q) && start.is_prefix_of(q) && q.len() >= 1 && spell(
            g,
            q.drop_last(),
        ) == w && dict.contains(fold_word(w))
}

/// `w` is found by a trail that begins with `start` and goes on along the
/// move `dirs[j]`.
pub open spec fn found_via(
    dict: Set<Seq<char>>,
    g: Grid,
    dirs: Seq<Direction>,
    start: Seq<(int, int)>,
    j: int,
    w: Seq<char>,
) -> bool {
    let n = step(start.last(), dirs[j]);
    &&& g.in_bounds(n)
    &&& !start.contains(n)
    &&& found_from(dict, g, dirs, start.push(n), w)
}

/// The number of cells not yet visited.
pub open spec fn unmarked(s: Seq<bool>) -> nat
    decreases s.len(),
{
    if s.len() == 0 {
        0
    } else {
        unmarked(s.drop_last()) + if s.last() {
            0nat
        } else {
            1nat
        }
    }
}

proof fn lemma_unmarked_none(s: Seq<bool>)
    requires
        forall|i: int| 0 <= i < s.len() ==> !s[i],
    ensures
        unmarked(s) == s.len(),
    decreases s.len(),
{
    if s.len() > 0 {
        lemma_unmarked_none(s.drop_last());
    }
}

proof fn lemma_mark(s: Seq<bool>, i: int)
    requires
        0 <= i < s.len(),
        !s[i],
    ensures
        unmarked(s.update(i, true)) + 1 == unmarked(s),
    decreases s.len(),
{
    if i == s.len() - 1 {
        assert(s.update(i, true).drop_last() =~= s.drop_last());
    } else {
        lemma_mark(s.drop_last(), i);
        assert(s.update(i, true).drop_last() =~= s.drop_last().update(i, true));
    }
}

/// The visit marks are set exactly on the cells of `path`.
pub open spec fn marks_path(g: Grid, visited: Seq<bool>, path: Seq<(int, int)>) -> bool {
    &&& visited.len() == g.capacity()
    &&& forall|p: (int, int)| g.in_bounds(p) ==> visited[g.index(p)] == #[trigger] path.contains(p)
}

proof fn lemma_two_cells(g: Grid, a: (int, int), b: (int, int))
    requires
        g.in_bounds(a),
        g.in_bounds(b),
        a != b,
    ensures
        g.capacity() >= 2,
{
    let h = g.height();
    let w = g.width();
    assert(h * w >= 2) by (nonlinear_arith)
        requires
            h >= 1,
            w >= 1,
            h >= 2 || w >= 2,
    ;
}

/// A trail's first cells, one short of its end, spell a word whose prefixes
/// are the spellings of the trail's own beginnings.
proof fn lemma_spell_prefix(g: Grid, path: Seq<(int, int)>, q: Seq<(int, int)>)
    requires
        path.is_prefix_of(q),
    ensures
        spell(g, path).is_prefix_of(spell(g, q)),
{
    assert(spell(g, path) =~= spell(g, q).subrange(0, path.len() as int));
}

/// The trails that begin with `start` are `start` itself and those that go
/// on along one of the moves.
proof fn lemma_found_split(
    dict: Set<Seq<char>>,
    g: Grid,
    dirs: Seq<Direction>,
    start: Seq<(int, int)>,
    w: Seq<char>,
)
    requires
        is_trail(g, dirs, start),
        start.len() >= 1,
    ensures
        found_from(dict, g, dirs, start, w) <==> (w == spell(g, start.drop_last())
            && dict.contains(fold_word(w))) || exists|j: int|
            0 <= j < dirs.len() && #[trigger] found_via(dict, g, dirs, start, j, w),
{
    if found_from(dict, g, dirs, start, w) {
        let q = choose|q: Seq<(int, int)>|
            #[trigger] is_trail(g, dirs, q) && start.is_prefix_of(q) && q.len() >= 1 && spell(
                g,
                q.drop_last(),
            ) == w && dict.contains(fold_word(w));
        if q.len() == start.len() {
            assert(q =~= start);
        } else {
            let i = start.len() as int;
            let n = q[i];
            assert(adjacent(dirs, q[i - 1], q[i]));
            assert(q[i - 1] == start.last());
            let j = choose|j: int| 0 <= j < dirs.len() && step(q[i - 1], #[trigger] dirs[j]) == n;
            assert(!start.contains(n)) by {
                if start.contains(n) {
                    let k = choose|k: int| 0 <= k < start.len() && start[k] == n;
                    assert(q[k] == n);
                }
            }
            assert(start.push(n).is_prefix_of(q)) by {
                assert(q.subrange(0, i + 1) =~= start.push(n));
            }
            assert(g.in_bounds(q[i]));
            assert(found_via(dict, g, dirs, start, j, w));
        }
    }
    if w == spell(g, start.drop_last()) && dict.contains(fold_word(w)) {
        assert(start.is_prefix_of(start)) by {
            assert(start.subrange(0, start.len() as int) =~= start);
        }
        assert(is_trail(g, dirs, start));
    }
    if exists|j: int| 0 <= j < dirs.len() && #[trigger] found_via(dict, g, dirs, start, j, w) {
        let j = choose|j: int| 0 <= j < dirs.len() && #[trigger] found_via(dict, g, dirs, start, j, w);
        let n = step(start.last(), dirs[j]);
        let q = choose|q: Seq<(int, int)>|
            #[trigger] is_trail(g, dirs, q) && start.push(n).is_prefix_of(q) && q.len() >= 1
                && spell(g, q.drop_last()) == w && dict.contains(fold_word(w));
        assert(start.is_prefix_of(q)) by {
            assert(q.subrange(0, start.len() as int) =~= start.push(n).subrange(
                0,
                start.len() as int,
            ));
            assert(start.push(n).subrange(0, start.len() as int) =~= start);
        }
    }
}

/// Grids of one size with the same letters give the same words.
pub proof fn lemma_grid_words_by_letters(
    dict: Set<Seq<char>>,
    g1: Grid,
    g2: Grid,
    dirs: Seq<Direction>,
)
    requires
        g1.height() == g2.height(),
        g1.width() == g2.width(),
        forall|p: (int, int)| g1.in_bounds(p) ==> #[trigger] g1.letter(p) == g2.letter(p),
    ensures
        grid_words(dict, g1, dirs) == grid_words(dict, g2, dirs),
{
    assert forall|q: Seq<(int, int)>|
        #[trigger] is_trail(g1, dirs, q) && q.len() >= 1 ==> is_trail(g2, dirs, q) && spell(
            g1,
            q.drop_last(),
        ) == spell(g2, q.drop_last()) by {
        if is_trail(g1, dirs, q) && q.len() >= 1 {
            let t = q.drop_last();
            assert forall|i: int| 0 <= i < t.len() implies g1.letter(#[trigger] t[i]) == g2.letter(
                t[i],
            ) by {
                assert(t[i] == q[i]);
                assert(g1.in_bounds(q[i]));
            }
            assert(spell(g1, t) =~= spell(g2, t));
        }
    }
    assert forall|q: Seq<(int, int)>| #[trigger] is_trail(g2, dirs, q) implies is_trail(g1, dirs, q)
        by {
    }
    assert(grid_words(dict, g1, dirs) =~= grid_words(dict, g2, dirs));
}

/// The found words are those found from some cell of the grid.
proof fn lemma_words_by_start(dict: Set<Seq<char>>, g: Grid, dirs: Seq<Direction>, w: Seq<char>)
    ensures
        grid_words(dict, g, dirs).contains(w) <==> exists|s: (int, int)|
            g.in_bounds(s) && #[trigger] found_from(dict, g, dirs, Seq::empty().push(s), w),
{
    if grid_words(dict, g, dirs).contains(w) {
        let q = choose|q: Seq<(int, int)>|
            #[trigger] is_trail(g, dirs, q) && q.len() == w.len() + 1 && spell(g, q.drop_last())
                == w && dict.contains(fold_word(w));
        let s = q[0];
        assert(Seq::empty().push(s).is_prefix_of(q)) by {
            assert(q.subrange(0, 1) =~= Seq::empty().push(s));
        }
        assert(g.in_bounds(q[0]));
        assert(found_from(dict, g, dirs, Seq::empty().push(s), w));
    }
    if exists|s: (int, int)|
        g.in_bounds(s) && #[trigger] found_from(dict, g, dirs, Seq::empty().push(s), w) {
        let s = choose|s: (int, int)|
            g.in_bounds(s) && #[trigger] found_from(dict, g, dirs, Seq::empty().push(s), w);
        let q = choose|q: Seq<(int, int)>|
            #[trigger] is_trail(g, dirs, q) && Seq::empty().push(s).is_prefix_of(q) && q.len() >= 1
                && spell(g, q.drop_last()) == w && dict.contains(fold_word(w));
        assert(q.len() == w.len() + 1);
    }
}

/// Every word the grid search reports is a dictionary word, once folded to
/// lower case, and is spelled along a trail: a path of distinct cells, each
/// one move of `dirs` away from the one before.
pub proof fn lemma_found_words_traceable(
    dict: Set<Seq<char>>,
    g: Grid,
    dirs: Seq<Direction>,
    w: Seq<char>,
)
    requires
        grid_words(dict, g, dirs).contains(w),
    ensures
        dict.contains(fold_word(w)),
        exists|t: Seq<(int, int)>| #[trigger] is_trail(g, dirs, t) && spell(g, t) == w,
{
    let q = choose|q: Seq<(int, int)>|
        #[trigger] is_trail(g, dirs, q) && q.len() == w.len() + 1 && spell(g, q.drop_last()) == w
            && dict.contains(fold_word(w));
    let t = q.drop_last();
    assert forall|i: int| 0 <= i < t.len() implies g.in_bounds(#[trigger] t[i]) by {
        assert(t[i] == q[i]);
    }
    assert forall|i: int| 0 < i < t.len() implies adjacent(dirs, t[i - 1], #[trigger] t[i]) by {
        assert(t[i] == q[i] && t[i - 1] == q[i - 1]);
    }
    assert(t.no_duplicates()) by {
        assert forall|a: int, b: int| 0 <= a < t.len() && 0 <= b < t.len() && a != b implies t[a]
            != t[b] by {
            assert(t[a] == q[a] && t[b] == q[b]);
        }
    }
    assert(is_trail(g, dirs, t));
}

/// Searching the same grid with the same dictionary and moves twice gives the
/// same words.
pub proof fn lemma_grid_search_deterministic(
    dict: Set<Seq<char>>,
    g: Grid,
    dirs: Seq<Direction>,
    first: WordSet,
    second: WordSet,
)
    requires
        first@ == grid_words(dict, g, dirs),
        second@ == grid_words(dict, g, dirs),
    ensures
        first@ == second@,
{
}

/// Finds the dictionary words that can be traced through a grid.
pub struct GridWordFinder<'a> {
    dictionary: &'a Trie,
    directions: Vec<Direction>,
}

impl<'a> GridWordFinder<'a> {
    pub closed spec fn dictionary(self) -> Trie {
        *self.dictionary
    }

    pub closed spec fn directions(self) -> Seq<Direction> {
        self.directions@
    }

    /// A finder that moves orthogonally, and with `diagonal` diagonally too.
    pub fn new(dictionary: &'a Trie, diagonal: bool) -> (r: GridWordFinder<'a>)
        ensures
            r.dictionary() == *dictionary,
            r.directions() == direction_set(diagonal),
    {
        let mut directions: Vec<Direction> = Vec::new();
        directions.push(Direction::Down);
        directions.push(Direction::Right);
        directions.push(Direction::Up);
        directions.push(Direction::Left);
        if diagonal {
            directions.push(Direction::LowerRight);
            directions.push(Direction::LowerLeft);
            directions.push(Direction::UpperRight);
            directions.push(Direction::UpperLeft);
        }
        let r = GridWordFinder { dictionary, directions };
        assert(r.directions() =~= direction_set(diagonal));
        r
    }

    /// The words of the dictionary that the grid spells along its trails,
    /// each recorded once. Where the grid has two cells or more, a cell that
    /// is not an ASCII letter is refused.
    pub fn search(&self, grid: &Grid) -> (r: Result<WordSet, DictionaryError>)
        requires
            self.dictionary().wf(),
            grid.wf(),
        ensures
            grid.capacity() >= 2 && !grid.letters_only() ==> r == Err::<WordSet, _>(
                DictionaryError::InvalidCharacter,
            ),
            grid.capacity() <= 1 || grid.letters_only() ==> (r matches Ok(ws) && ws.wf() && ws@
                == grid_words(self.dictionary()@, *grid, self.directions())),
    {
        let ghost dict = self.dictionary()@;
        let ghost dirs = self.directions();
        let capacity = grid.get_capacity();
        if capacity >= 2 && !grid.has_only_letters() {
            return Err(DictionaryError::InvalidCharacter);
        }
        let mut visited: Vec<bool> = Vec::new();
        let mut c: usize = 0;
        while c < capacity
            invariant
                c <= capacity,
                visited@.len() == c,
                forall|i: int| 0 <= i < c ==> !#[trigger] visited@[i],
            decreases capacity - c,
        {
            visited.push(false);
            c = c + 1;
        }
        proof {
            lemma_unmarked_none(visited@);
        }
        let mut current: Vec<char> = Vec::new();
        let mut words = WordSet::new();
        let height = grid.get_height();
        let width = grid.get_width();
        let mut i: usize = 0;
        while i < height
            invariant
                self.dictionary().wf(),
                dict == self.dictionary()@,
                dirs == self.directions(),
                grid.wf(),
                grid.capacity() <= 1 || grid.letters_only(),
                height == grid.height(),
                width == grid.width(),
                i <= height,
                visited@.len() == grid.capacity(),
                unmarked(visited@) == grid.capacity(),
                forall|k: int| 0 <= k < visited@.len() ==> !#[trigger] visited@[k],
                current@ == Seq::<char>::empty(),
                words.wf(),
                forall|w: Seq<char>|
                    #[trigger] words@.contains(w) <==> exists|s: (int, int)|
                        grid.in_bounds(s) && s.0 < i && #[trigger] found_from(
                            dict,
                            *grid,
                            dirs,
                            Seq::empty().push(s),
                            w,
                        ),
            decreases height - i,
        {
            let mut j: usize = 0;
            while j < width
                invariant
                    self.dictionary().wf(),
                    dict == self.dictionary()@,
                    dirs == self.directions(),
                    grid.wf(),
                    grid.capacity() <= 1 || grid.letters_only(),
                    height == grid.height(),
                    width == grid.width(),
                    i < height,
                    j <= width,
                    visited@.len() == grid.capacity(),
                    unmarked(visited@) == grid.capacity(),
                    forall|k: int| 0 <= k < visited@.len() ==> !#[trigger] visited@[k],
                    current@ == Seq::<char>::empty(),
                    words.wf(),
                    forall|w: Seq<char>|
                        #[trigger] words@.contains(w) <==> exists|s: (int, int)|
                            grid.in_bounds(s) && (s.0 < i || (s.0 == i && s.1 < j))
                                && #[trigger] found_from(dict, *grid, dirs, Seq::empty().push(s), w),
                decreases width - j,
            {
                let ghost pt = (i as int, j as int);
                let ghost before = words@;
                proof {
                    let q = Seq::<(int, int)>::empty().push(pt);
                    assert(q.no_duplicates());
                    assert(current@ =~= spell(*grid, Seq::empty()));
                    assert forall|p: (int, int)| grid.in_bounds(p) implies visited@[grid.index(p)]
                        == #[trigger] Seq::<(int, int)>::empty().contains(p) by {
                        grid.lemma_index(p, p);
                    }
                }
                self.traverse((i, j), Ghost(Seq::empty()), &mut current, &mut visited, &mut words, grid);
                proof {
                    assert forall|w: Seq<char>|
                        #[trigger] words@.contains(w) <==> exists|s: (int, int)|
                            grid.in_bounds(s) && (s.0 < i || (s.0 == i && s.1 < j + 1))
                                && #[trigger] found_from(dict, *grid, dirs, Seq::empty().push(s), w) by {
                        if found_from(dict, *grid, dirs, Seq::empty().push(pt), w) {
                            assert(grid.in_bounds(pt));
                        }
                        if exists|s: (int, int)|
                            grid.in_bounds(s) && (s.0 < i || (s.0 == i && s.1 < j + 1))
                                && #[trigger] found_from(dict, *grid, dirs, Seq::empty().push(s), w) {
                            let s = choose|s: (int, int)|
                                grid.in_bounds(s) && (s.0 < i || (s.0 == i && s.1 < j + 1))
                                    && #[trigger] found_from(dict, *grid, dirs, Seq::empty().push(s), w);
                            if s != pt {
                                assert(before.contains(w));
                            }
                        }
                    }
                }
                j = j + 1;
            }
            proof {
                assert forall|w: Seq<char>|
                    #[trigger] words@.contains(w) <==> exists|s: (int, int)|
                        grid.in_bounds(s) && s.0 < i + 1 && #[trigger] found_from(
                            dict,
                            *grid,
                            dirs,
                            Seq::empty().push(s),
                            w,
                        ) by {
                    if exists|s: (int, int)|
                        grid.in_bounds(s) && s.0 < i + 1 && #[trigger] found_from(
                            dict,
                            *grid,
                            dirs,
                            Seq::empty().push(s),
                            w,
                        ) {
                        let s = choose|s: (int, int)|
                            grid.in_bounds(s) && s.0 < i + 1 && #[trigger] found_from(
                                dict,
                                *grid,
                                dirs,
                                Seq::empty().push(s),
                                w,
                            );
                        assert(s.0 < i || (s.0 == i && s.1 < width));
                    }
                }
            }
            i = i + 1;
        }
        proof {
            assert forall|w: Seq<char>|
                #[trigger] words@.contains(w) == grid_words(dict, *grid, dirs).contains(w) by {
                lemma_words_by_start(dict, *grid, dirs, w);
            }
            assert(words@ =~= grid_words(dict, *grid, dirs));
        }
        Ok(words)
    }

    /// Depth-first search from `point`, reached by the trail `path` whose
    /// letters are `current`: records every word found by a trail that
    /// begins with `path` and then `point`.
    fn traverse(
        &self,
        point: Point,
        path: Ghost<Seq<(int, int)>>,
        current: &mut Vec<char>,
        visited: &mut Vec<bool>,
        words: &mut WordSet,
        grid: &Grid,
    )
        requires
            self.dictionary().wf(),
            grid.wf(),
            grid.capacity() <= 1 || grid.letters_only(),
            is_trail(*grid, self.directions(), path@.push((point.0 as int, point.1 as int))),
            old(current)@ == spell(*grid, path@),
            marks_path(*grid, old(visited)@, path@),
            unmarked(old(visited)@) + path@.len() == grid.capacity(),
            old(words).wf(),
        ensures
            final(current)@ == old(current)@,
            final(visited)@ == old(visited)@,
            final(words).wf(),
            forall|w: Seq<char>|
                #[trigger] final(words)@.contains(w) <==> old(words)@.contains(w) || found_from(
                    self.dictionary()@,
                    *grid,
                    self.directions(),
                    path@.push((point.0 as int, point.1 as int)),
                    w,
                ),
        decreases grid.capacity() - path@.len(),
    {
        let ghost dict = self.dictionary()@;
        let ghost dirs = self.directions();
        let ghost pt = (point.0 as int, point.1 as int);
        let ghost start = path@.push(pt);
        let ghost before = words@;
        let ghost unvisited = visited@;
        assert(grid.in_bounds(start[start.len() - 1]));
        assert(start.drop_last() =~= path@);
        assert(all_letters(current@)) by {
            if path@.len() > 0 {
                assert(start[0] != start[start.len() - 1]);
                lemma_two_cells(*grid, start[0], pt);
                assert forall|i: int| 0 <= i < current@.len() implies is_letter(
                    #[trigger] current@[i],
                ) by {
                    assert(grid.in_bounds(start[i]));
                }
            }
        }
        if !self.dictionary.has_prefix_letters(current.as_slice()) {
            proof {
                assert forall|w: Seq<char>|
                    !found_from(dict, *grid, dirs, start, w) by {
                    if found_from(dict, *grid, dirs, start, w) {
                        let q = choose|q: Seq<(int, int)>|
                            #[trigger] is_trail(*grid, dirs, q) && start.is_prefix_of(q) && q.len()
                                >= 1 && spell(*grid, q.drop_last()) == w && dict.contains(
                                fold_word(w),
                            );
                        assert(path@.is_prefix_of(q.drop_last())) by {
                            assert(q.drop_last().subrange(0, path@.len() as int) =~= start.subrange(
                                0,
                                path@.len() as int,
                            ));
                            assert(start.subrange(0, path@.len() as int) =~= path@);
                        }
                        lemma_spell_prefix(*grid, path@, q.drop_last());
                        assert(fold_word(current@) =~= fold_word(w).subrange(
                            0,
                            current@.len() as int,
                        ));
                        self.dictionary().lemma_prefix_of_word(fold_word(w), fold_word(current@));
                    }
                }
            }
            return;
        }
        if self.dictionary.contains_letters(current.as_slice()) {
            words.insert_chars(current.as_slice());
        }
        let ghost mid = words@;
        assert(forall|w: Seq<char>|
            #[trigger] mid.contains(w) <==> before.contains(w) || (w == spell(*grid, path@)
                && dict.contains(fold_word(w))));
        let idx = grid.index_of(point);
        proof {
            assert(!path@.contains(pt)) by {
                if path@.contains(pt) {
                    let k = choose|k: int| 0 <= k < path@.len() && path@[k] == pt;
                    assert(start[k] == start[start.len() - 1]);
                }
            }
            assert(!visited@[idx as int]);
            lemma_mark(visited@, idx as int);
        }
        visited.set(idx, true);
        current.push(grid.get_letter(point));
        let ghost marked = visited@;
        proof {
            assert(current@ =~= spell(*grid, start));
            assert forall|p: (int, int)| grid.in_bounds(p) implies visited@[grid.index(p)]
                == #[trigger] start.contains(p) by {
                grid.lemma_index(p, pt);
                assert(path@.contains(p) ==> start.contains(p)) by {
                    if path@.contains(p) {
                        let k = choose|k: int| 0 <= k < path@.len() && path@[k] == p;
                        assert(start[k] == p);
                    }
                }
                assert(start.contains(p) && p != pt ==> path@.contains(p)) by {
                    if start.contains(p) && p != pt {
                        let k = choose|k: int| 0 <= k < start.len() && start[k] == p;
                        assert(path@[k] == p);
                    }
                }
                assert(start[start.len() - 1] == pt);
            }
        }
        let mut k: usize = 0;
        while k < self.directions.len()
            invariant
                self.dictionary().wf(),
                dict == self.dictionary()@,
                dirs == self.directions(),
                grid.wf(),
                grid.capacity() <= 1 || grid.letters_only(),
                is_trail(*grid, dirs, start),
                start == path@.push(pt),
                pt == (point.0 as int, point.1 as int),
                current@ == spell(*grid, start),
                visited@ == marked,
                marks_path(*grid, marked, start),
                unmarked(marked) + 1 == unmarked(unvisited),
                unmarked(unvisited) + path@.len() == grid.capacity(),
                k <= dirs.len(),
                words.wf(),
                forall|w: Seq<char>|
                    #[trigger] words@.contains(w) <==> mid.contains(w) || exists|j: int|
                        0 <= j < k && #[trigger] found_via(dict, *grid, dirs, start, j, w),
            decreases dirs.len() - k,
        {
            let ghost here = words@;
            let ghost n = step(pt, dirs[k as int]);
            match grid.next(point, &self.directions[k]) {
                Some(next_point) => {
                    let ni = grid.index_of(next_point);
                    if !visited[ni] {
                        proof {
                            assert(!start.contains(n));
                            let q = start.push(n);
                            assert(adjacent(dirs, q[q.len() - 2], q[q.len() - 1]));
                            assert forall|i: int| 0 < i < q.len() implies adjacent(
                                dirs,
                                q[i - 1],
                                #[trigger] q[i],
                            ) by {
                                if i < q.len() - 1 {
                                    assert(q[i] == start[i]);
                                    assert(q[i - 1] == start[i - 1]);
                                }
                            }
                            assert forall|i: int| 0 <= i < q.len() implies grid.in_bounds(
                                #[trigger] q[i],
                            ) by {
                                if i < q.len() - 1 {
                                    assert(q[i] == start[i]);
                                }
                            }
                            assert(q.no_duplicates()) by {
                                assert forall|a: int, b: int|
                                    0 <= a < q.len() && 0 <= b < q.len() && a != b implies q[a]
                                    != q[b] by {
                                    if a < q.len() - 1 && b < q.len() - 1 {
                                        assert(q[a] == start[a] && q[b] == start[b]);
                                    } else if a < q.len() - 1 {
                                        assert(q[a] == start[a]);
                                    } else if b < q.len() - 1 {
                                        assert(q[b] == start[b]);
                                    }
                                }
                            }
                        }
                        self.traverse(next_point, Ghost(start), current, visited, words, grid);
                    } else {
                        proof {
                            assert(start.contains(n));
                        }
                    }
                },
                None => {},
            }
            proof {
                assert forall|w: Seq<char>|
                    #[trigger] words@.contains(w) <==> mid.contains(w) || exists|j: int|
                        0 <= j < k + 1 && #[trigger] found_via(dict, *grid, dirs, start, j, w) by {
                    if exists|j: int|
                        0 <= j < k + 1 && #[trigger] found_via(dict, *grid, dirs, start, j, w) {
                        let j = choose|j: int|
                            0 <= j < k + 1 && #[trigger] found_via(dict, *grid, dirs, start, j, w);
                        if j < k {
                            assert(exists|j: int|
                                0 <= j < k && #[trigger] found_via(dict, *grid, dirs, start, j, w));
                        }
                    }
                    if exists|j: int|
                        0 <= j < k && #[trigger] found_via(dict, *grid, dirs, start, j, w) {
                        let j = choose|j: int|
                            0 <= j < k && #[trigger] found_via(dict, *grid, dirs, start, j, w);
                        assert(0 <= j < k + 1 && found_via(dict, *grid, dirs, start, j, w));
                    }
                    if found_via(dict, *grid, dirs, start, k as int, w) {
                        assert(0 <= k < k + 1);
                    }
                    assert(start.last() == pt);
                }
            }
            k = k + 1;
        }
        current.pop();
        visited.set(idx, false);
        proof {
            assert(current@ =~= path@.map_values(|p: (int, int)| grid.letter(p)));
            assert(visited@ =~= unvisited);
            assert forall|w: Seq<char>|
                #[trigger] words@.contains(w) <==> before.contains(w) || found_from(
                    dict,
                    *grid,
                    dirs,
                    start,
                    w,
                ) by {
                lemma_found_split(dict, *grid, dirs, start, w);
            }
        }
    }
}

} // verus!
