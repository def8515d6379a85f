use crate::board::{after_move, flippable, has_move, legal, legal_moves, lemma_legal_moves, positions, ArrayBasedBoard};
use crate::point::Point;
use crate::stone::Stone;
use vstd::prelude::*;

verus! {

// ---------------------------------------------------------------------------
// Choosing among scored moves.
// ---------------------------------------------------------------------------

/// `i` is the first position of a greatest value of `s`.
pub open spec fn is_first_max(s: Seq<int>, i: int) -> bool {
    &&& 0 <= i < s.len()
    &&& forall|j: int| 0 <= j < s.len() ==> #[trigger] s[j] <= s[i]
    &&& forall|j: int| 0 <= j < i ==> #[trigger] s[j] < s[i]
}

/// The move at position `i` of `moves`, for some `i` that is the first
/// position of a greatest score in `s`.
pub open spec fn chooses_first_max(moves: Seq<(int, int)>, s: Seq<int>, q: (int, int)) -> bool {
    exists|i: int| is_first_max(s, i) && #[trigger] moves[i] == q
}

/// The number of stones each legal move of `c` turns over, in the order of
/// `legal_moves`.
pub open spec fn flip_scores(g: Seq<Seq<Option<Stone>>>, c: Stone) -> Seq<int> {
    legal_moves(g, c).map_values(|q: (int, int)| flippable(g, q.0, q.1, c).len() as int)
}

/// The positional weight of cell `(x, y)` on an 8 by 8 board. The table is
/// symmetric about both middle lines; by quadrant (row, then column):
///
/// ```text
///  150  -50   20   10
///  -50  -70   -3   -3
///   20   -3    3    3
///   10   -3    3    1
/// ```
///
/// Corners are worth most, the cells next to them cost, edges gain.
pub open spec fn weight(x: int, y: int) -> int {
    let a = if x < 4 { x } else { 7 - x };
    let b = if y < 4 { y } else { 7 - y };
    if b == 0 {
        if a == 0 { 150 } else if a == 1 { -50 } else if a == 2 { 20 } else { 10 }
    } else if b == 1 {
        if a == 0 { -50 } else if a == 1 { -70 } else { -3 }
    } else if b == 2 {
        if a == 0 { 20 } else if a == 1 { -3 } else { 3 }
    } else {
        if a == 0 { 10 } else if a == 1 { -3 } else if a == 2 { 3 } else { 1 }
    }
}

/// What cell `(x, y)` holding `v` is worth to `c`: its weight for a stone of
/// `c`, minus it for an opponent stone.
pub open spec fn cell_score(v: Option<Stone>, c: Stone, x: int, y: int) -> int {
    match v {
        Some(s) => if s == c { weight(x, y) } else { -weight(x, y) },
        None => 0,
    }
}

/// The first `k` cells of row `y` of `h`, scored for `c`.
pub open spec fn row_score(h: Seq<Seq<Option<Stone>>>, c: Stone, y: int, k: int) -> int
    decreases k,
{
    if k <= 0 {
        0
    } else {
        row_score(h, c, y, k - 1) + cell_score(h[y][k - 1], c, k - 1, y)
    }
}

/// The first `r` rows of `h`, scored for `c`.
pub open spec fn rows_score(h: Seq<Seq<Option<Stone>>>, c: Stone, r: int) -> int
    decreases r,
{
    if r <= 0 {
        0
    } else {
        rows_score(h, c, r - 1) + row_score(h, c, r - 1, h.len() as int)
    }
}

/// The weights of the cells `c` holds on `h`, minus those the opponent holds.
pub open spec fn position_score(h: Seq<Seq<Option<Stone>>>, c: Stone) -> int {
    rows_score(h, c, h.len() as int)
}

/// The score for `c` of the position after each legal move of `c`, in the
/// order of `legal_moves`.
pub open spec fn weighted_scores(g: Seq<Seq<Option<Stone>>>, c: Stone) -> Seq<int> {
    legal_moves(g, c).map_values(|q: (int, int)| position_score(after_move(g, q.0, q.1, c), c))
}

// ---------------------------------------------------------------------------
// The strategies.
// ---------------------------------------------------------------------------

/// Relies on `rand::random::<usize>`: some `usize`, drawn at random.
#[verifier::external_body]
fn random_usize() -> usize {
    rand::random::<usize>()
}

/// Plays a legal move drawn at random.
pub struct RandomComputer {
    color: Stone,
}

impl RandomComputer {
    pub fn new(color: Stone) -> (r: Self)
        ensures
            r.side() == color,
    {
        Self { color }
    }

    pub closed spec fn side(&self) -> Stone {
        self.color
    }

    pub fn color(&self) -> (r: Stone)
        ensures
            r == self.side(),
    {
        self.color
    }

    /// The legal move whose place in `legal_moves` is `draw` modulo their number.
    pub fn decide_with(&self, board: &ArrayBasedBoard, draw: usize) -> (r: Point)
        requires
            board.wf(),
            has_move(board@, self.side()),
        ensures
            ({
                let moves = legal_moves(board@, self.side());
                r.pos() == moves[draw as int % moves.len() as int]
            }),
    {
        let moves = board.get_can_put_stones(self.color);
        proof {
            lemma_legal_moves(board@, self.color);
        }
        let index = draw % moves.len();
        moves[index]
    }

    /// A legal move of its side, drawn at random.
    pub fn decide(&self, board: &ArrayBasedBoard) -> (r: Point)
        requires
            board.wf(),
            has_move(board@, self.side()),
        ensures
            legal(board@, r.x as int, r.y as int, self.side()),
    {
        let draw = random_usize();
        let r = self.decide_with(board, draw);
        proof {
            lemma_legal_moves(board@, self.color);
            let moves = legal_moves(board@, self.color);
            let q = moves[draw as int % moves.len() as int];
            assert(legal(board@, q.0, q.1, self.color));
        }
        r
    }
}

/// Plays the legal move that turns over the most stones; of several such, the
/// first in row-major order.
pub struct SimpleComputer {
    color: Stone,
}

impl SimpleComputer {
    pub fn new(color: Stone) -> (r: Self)
        ensures
            r.side() == color,
    {
        Self { color }
    }

    pub closed spec fn side(&self) -> Stone {
        self.color
    }

    pub fn color(&self) -> (r: Stone)
        ensures
            r == self.side(),
    {
        self.color
    }

    pub fn decide(&self, board: &ArrayBasedBoard) -> (r: Point)
        requires
            board.wf(),
            has_move(board@, self.side()),
        ensures
            legal(board@, r.x as int, r.y as int, self.side()),
            chooses_first_max(legal_moves(board@, self.side()), flip_scores(board@, self.side()), r.pos()),
    {
        let ghost g = board@;
        let ghost s = flip_scores(g, self.color);
        let moves = board.get_can_put_stones(self.color);
        proof {
            lemma_legal_moves(g, self.color);
        }
        let mut max_count: usize = 0;
        let mut max_index: usize = 0;
        let mut i: usize = 0;
        while i < moves.len()
            invariant
                board.wf(),
                g == board@,
                s == flip_scores(g, self.color),
                positions(moves@) == legal_moves(g, self.color),
                s.len() == moves@.len(),
                moves@.len() > 0,
                i <= moves@.len(),
                i == 0 ==> max_index == 0 && max_count == 0,
                i > 0 ==> max_index < i && s[max_index as int] == max_count,
                forall|j: int| 0 <= j < i ==> #[trigger] s[j] <= max_count,
                forall|j: int| 0 <= j < max_index ==> #[trigger] s[j] < max_count,
            decreases moves@.len() - i,
        {
            let p = moves[i];
            proof {
                lemma_legal_moves(g, self.color);
                let q = legal_moves(g, self.color)[i as int];
                assert(q == p.pos());
                assert(legal(g, q.0, q.1, self.color));
            }
            let count = board.count_flippable(p.x, p.y, self.color);
            assert(s[i as int] == count);
            if count > max_count {
                max_count = count;
                max_index = i;
            }
            i += 1;
        }
        assert(is_first_max(s, max_index as int));
        assert(legal_moves(g, self.color)[max_index as int] == moves@[max_index as int].pos());
        proof {
            lemma_legal_moves(g, self.color);
            let q = legal_moves(g, self.color)[max_index as int];
            assert(legal(g, q.0, q.1, self.color));
        }
        moves[max_index]
    }
}

/// The weight of cell `(x, y)` of an 8 by 8 board.
fn weight_at(x: usize, y: usize) -> (r: i64)
    requires
        x < 8,
        y < 8,
    ensures
        r == weight(x as int, y as int),
        -70 <= r <= 150,
{
    let a = if x < 4 { x } else { 7 - x };
    let b = if y < 4 { y } else { 7 - y };
    if b == 0 {
        if a == 0 { 150 } else if a == 1 { -50 } else if a == 2 { 20 } else { 10 }
    } else if b == 1 {
        if a == 0 { -50 } else if a == 1 { -70 } else { -3 }
    } else if b == 2 {
        if a == 0 { 20 } else if a == 1 { -3 } else { 3 }
    } else {
        if a == 0 { 10 } else if a == 1 { -3 } else if a == 2 { 3 } else { 1 }
    }
}

/// The positional score of `board` for `color`.
fn score_position(board: &ArrayBasedBoard, color: Stone) -> (r: i64)
    requires
        board.wf(),
        board@.len() <= 8,
    ensures
        r == position_score(board@, color),
        -9600 <= r <= 9600,
{
    let n = board.size();
    let ghost g = board@;
    let mut total: i64 = 0;
    let mut y: usize = 0;
    while y < n
        invariant
            board.wf(),
            g == board@,
            n == g.len(),
            n <= 8,
            y <= n,
            total == rows_score(g, color, y as int),
            -1200 * (y as int) <= total <= 1200 * (y as int),
        decreases n - y,
    {
        let mut x: usize = 0;
        while x < n
            invariant
                board.wf(),
                g == board@,
                n == g.len(),
                n <= 8,
                y < n,
                x <= n,
                total == rows_score(g, color, y as int) + row_score(g, color, y as int, x as int),
                -150 * (8 * (y as int) + (x as int)) <= total <= 150 * (8 * (y as int) + (x as int)),
            decreases n - x,
        {
            let w = weight_at(x, y);
            match board.get_at(x, y) {
                Some(s) => {
                    if s == color {
                        total += w;
                    } else {
                        total -= w;
                    }
                },
                None => {},
            }
            x += 1;
        }
        y += 1;
    }
    total
}

/// Plays the legal move after which the weights of its own stones, less those
/// of the opponent's, are greatest (looking one move ahead); of several such,
/// the first in row-major order.
pub struct WeightedComputer {
    color: Stone,
}

impl WeightedComputer {
    pub fn new(color: Stone) -> (r: Self)
        ensures
            r.side() == color,
    {
        Self { color }
    }

    pub closed spec fn side(&self) -> Stone {
        self.color
    }

    pub fn color(&self) -> (r: Stone)
        ensures
            r == self.side(),
    {
        self.color
    }

    /// Each candidate is tried on a copy of `board`; `board` itself is only read.
    pub fn decide(&self, board: &ArrayBasedBoard) -> (r: Point)
        requires
            board.wf(),
            board@.len() <= 8,
            has_move(board@, self.side()),
        ensures
            legal(board@, r.x as int, r.y as int, self.side()),
            chooses_first_max(legal_moves(board@, self.side()), weighted_scores(board@, self.side()), r.pos()),
    {
        let ghost g = board@;
        let ghost s = weighted_scores(g, self.color);
        let moves = board.get_can_put_stones(self.color);
        proof {
            lemma_legal_moves(g, self.color);
        }
        let mut max_count: i64 = i64::MIN;
        let mut max_index: usize = 0;
        let mut i: usize = 0;
        while i < moves.len()
            invariant
                board.wf(),
                g == board@,
                g.len() <= 8,
                s == weighted_scores(g, self.color),
                positions(moves@) == legal_moves(g, self.color),
                s.len() == moves@.len(),
                moves@.len() > 0,
                i <= moves@.len(),
                i == 0 ==> max_index == 0 && max_count == i64::MIN,
                i > 0 ==> max_index < i && s[max_index as int] == max_count,
                forall|j: int| 0 <= j < i ==> #[trigger] s[j] <= max_count,
                forall|j: int| 0 <= j < max_index ==> #[trigger] s[j] < max_count,
            decreases moves@.len() - i,
        {
            let p = moves[i];
            proof {
                lemma_legal_moves(g, self.color);
                let q = legal_moves(g, self.color)[i as int];
                assert(q == p.pos());
                assert(legal(g, q.0, q.1, self.color));
            }
            let mut sim = board.snapshot();
            let _ = sim.put_stone(p.x, p.y, self.color);
            let diff = score_position(&sim, self.color);
            assert(s[i as int] == diff);
            if diff > max_count {
                max_count = diff;
                max_index = i;
            }
            i += 1;
        }
        assert(is_first_max(s, max_index as int));
        assert(legal_moves(g, self.color)[max_index as int] == moves@[max_index as int].pos());
        proof {
            lemma_legal_moves(g, self.color);
            let q = legal_moves(g, self.color)[max_index as int];
            assert(legal(g, q.0, q.1, self.color));
        }
        moves[max_index]
    }
}

/// One of the automated strategies.
pub enum Computer {
    Random(RandomComputer),
    Simple(SimpleComputer),
    Weighted(WeightedComputer),
}

impl Computer {
    /// The side the strategy plays for.
    pub open spec fn side(&self) -> Stone {
        match self {
            Computer::Random(c) => c.side(),
            Computer::Simple(c) => c.side(),
            Computer::Weighted(c) => c.side(),
        }
    }

    /// The strategy can choose on `g`: its side has a legal move, and the
    /// weighted one only reads boards that its table covers.
    pub open spec fn can_decide(&self, g: Seq<Seq<Option<Stone>>>) -> bool {
        &&& has_move(g, self.side())
        &&& (self is Weighted ==> g.len() <= 8)
    }

    pub fn color(&self) -> (r: Stone)
        ensures
            r == self.side(),
    {
        match self {
            Computer::Random(c) => c.color(),
            Computer::Simple(c) => c.color(),
            Computer::Weighted(c) => c.color(),
        }
    }

    /// A legal move of the strategy's side, as the strategy chooses it.
    pub fn decide(&self, board: &ArrayBasedBoard) -> (r: Point)
        requires
            board.wf(),
            self.can_decide(board@),
        ensures
            legal(board@, r.x as int, r.y as int, self.side()),
            self is Simple ==> chooses_first_max(legal_moves(board@, self.side()), flip_scores(board@, self.side()), r.pos()),
            self is Weighted ==> chooses_first_max(legal_moves(board@, self.side()), weighted_scores(board@, self.side()), r.pos()),
    {
        match self {
            Computer::Random(c) => c.decide(board),
            Computer::Simple(c) => c.decide(board),
            Computer::Weighted(c) => c.decide(board),
        }
    }
}

} // verus!
