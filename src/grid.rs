use vstd::prelude::*;

verus! {

/// The marker of a cell that holds no letter yet.
pub const EMPTY: char = '\0';

/// One of the four directions a word can run in, with its ordinal 0 to 3.
#[derive(Clone, Copy, Debug, PartialEq, Eq, Structural)]
pub enum Orientation {
    /// Along +x.
    Horizontal,
    /// Along +y.
    Vertical,
    /// Along +x and +y.
    DiagonalDown,
    /// Along +x and -y.
    DiagonalUp,
}

impl Orientation {
    pub open spec fn ordinal(self) -> int {
        match self {
            Orientation::Horizontal => 0,
            Orientation::Vertical => 1,
            Orientation::DiagonalDown => 2,
            Orientation::DiagonalUp => 3,
        }
    }

    /// The orientation with the given ordinal.
    pub fn from_ordinal(i: usize) -> (o: Orientation)
        requires
            i < 4,
        ensures
            o.ordinal() == i,
    {
        if i == 0 {
            Orientation::Horizontal
        } else if i == 1 {
            Orientation::Vertical
        } else if i == 2 {
            Orientation::DiagonalDown
        } else {
            Orientation::DiagonalUp
        }
    }
}

/// The grid as columns of letters: `g[x][y]`.
pub open spec fn grid_view(field: Seq<Vec<char>>) -> Seq<Seq<char>> {
    field.map_values(|col: Vec<char>| col@)
}

/// `g` is a rectangle of `w` columns of `h` cells each.
pub open spec fn is_grid(g: Seq<Seq<char>>, w: int, h: int) -> bool {
    &&& w >= 1
    &&& h >= 1
    &&& g.len() == w
    &&& forall|a: int| 0 <= a < w ==> (#[trigger] g[a]).len() == h
}

/// The cell that the `i`-th letter of a word started at `(x, y)` occupies.
pub open spec fn path_cell(o: Orientation, x: int, y: int, i: int) -> (int, int) {
    match o {
        Orientation::Horizontal => (x + i, y),
        Orientation::Vertical => (x, y + i),
        Orientation::DiagonalDown => (x + i, y + i),
        Orientation::DiagonalUp => (x + i, y - i),
    }
}

/// Which letter of a word started at `(x, y)` lies on cell `(a, b)`: the
/// index `i` with `path_cell(o, x, y, i) == (a, b)`, or -1 where the line
/// misses the cell.
pub open spec fn path_index(o: Orientation, x: int, y: int, a: int, b: int) -> int {
    match o {
        Orientation::Horizontal => if b == y { a - x } else { -1 },
        Orientation::Vertical => if a == x { b - y } else { -1 },
        Orientation::DiagonalDown => if a - x == b - y { a - x } else { -1 },
        Orientation::DiagonalUp => if a - x == y - b { a - x } else { -1 },
    }
}

/// The margin rule: the start lies in the grid and the word ends strictly
/// before the last cell along each axis it moves on.
pub open spec fn within_margin(o: Orientation, x: int, y: int, len: int, w: int, h: int) -> bool {
    &&& 0 <= x < w
    &&& 0 <= y < h
    &&& match o {
        Orientation::Horizontal => x + len < w,
        Orientation::Vertical => y + len < h,
        Orientation::DiagonalDown => x + len < w && y + len < h,
        Orientation::DiagonalUp => x + len < w && y - len >= 0,
    }
}

/// A cell can take letter `l` when it is empty or already holds `l`.
pub open spec fn agrees(c: char, l: char) -> bool {
    c == EMPTY || c == l
}

/// `word` may be written from `(x, y)` along `o` without a conflict.
pub open spec fn can_place(
    g: Seq<Seq<char>>,
    w: int,
    h: int,
    word: Seq<char>,
    x: int,
    y: int,
    o: Orientation,
) -> bool {
    &&& within_margin(o, x, y, word.len() as int, w, h)
    &&& forall|i: int|
        0 <= i < word.len() ==> agrees(
            g[path_cell(o, x, y, i).0][path_cell(o, x, y, i).1],
            #[trigger] word[i],
        )
}

/// The grid after `word` is written from `(x, y)` along `o`.
pub open spec fn placed(g: Seq<Seq<char>>, word: Seq<char>, x: int, y: int, o: Orientation) -> Seq<
    Seq<char>,
> {
    Seq::new(
        g.len(),
        |a: int|
            Seq::new(
                g[a].len(),
                |b: int|
                    {
                        let i = path_index(o, x, y, a, b);
                        if 0 <= i < word.len() {
                            word[i]
                        } else {
                            g[a][b]
                        }
                    },
            ),
    )
}

/// Every letter of `g` stands unchanged in `g2`: only empty cells differ.
pub open spec fn keeps_letters(g: Seq<Seq<char>>, g2: Seq<Seq<char>>, w: int, h: int) -> bool {
    forall|a: int, b: int| 0 <= a < w && 0 <= b < h && #[trigger] g[a][b] != EMPTY ==> g2[a][b] == g[a][b]
}

/// Writing a word where it can be placed never overwrites a letter.
pub proof fn lemma_placed_keeps_letters(
    g: Seq<Seq<char>>,
    w: int,
    h: int,
    word: Seq<char>,
    x: int,
    y: int,
    o: Orientation,
)
    requires
        is_grid(g, w, h),
        can_place(g, w, h, word, x, y, o),
    ensures
        keeps_letters(g, placed(g, word, x, y, o), w, h),
{
    let g2 = placed(g, word, x, y, o);
    assert forall|a: int, b: int| 0 <= a < w && 0 <= b < h && #[trigger] g[a][b] != EMPTY implies g2[a][b]
        == g[a][b] by {
        assert(g[a].len() == h);
        let i = path_index(o, x, y, a, b);
        if 0 <= i < word.len() {
            assert(path_cell(o, x, y, i) == (a, b));
            assert(agrees(g[a][b], word[i]));
        }
    }
}

/// A fresh grid of `width` columns of `height` empty cells.
pub fn new_field(width: usize, height: usize) -> (field: Vec<Vec<char>>)
    requires
        width >= 1,
        height >= 1,
    ensures
        is_grid(grid_view(field@), width as int, height as int),
        forall|a: int, b: int|
            0 <= a < width && 0 <= b < height ==> #[trigger] field@[a]@[b] == EMPTY,
{
    let mut field: Vec<Vec<char>> = Vec::new();
    let mut x: usize = 0;
    while x < width
        invariant
            x <= width,
            field@.len() == x,
            forall|a: int| 0 <= a < x ==> (#[trigger] field@[a])@.len() == height,
            forall|a: int, b: int| 0 <= a < x && 0 <= b < height ==> #[trigger] field@[a]@[b] == EMPTY,
        decreases width - x,
    {
        let mut col: Vec<char> = Vec::new();
        let mut y: usize = 0;
        while y < height
            invariant
                y <= height,
                col@.len() == y,
                forall|b: int| 0 <= b < y ==> #[trigger] col@[b] == EMPTY,
            decreases height - y,
        {
            col.push(EMPTY);
            y = y + 1;
        }
        field.push(col);
        x = x + 1;
    }
    field
}

/// Writes `word` from `(x, y)` along `o` into a copy of `field`; `None`,
/// with `field` untouched, when the margin rule or a letter already there
/// forbids it.
pub fn try_add(field: &Vec<Vec<char>>, word: &Vec<char>, x: usize, y: usize, o: Orientation) -> (r:
    Option<Vec<Vec<char>>>)
    requires
        field@.len() >= 1,
        is_grid(grid_view(field@), field@.len() as int, field@[0]@.len() as int),
        x < field@.len(),
        y < field@[0]@.len(),
    ensures
        r is Some <==> can_place(
            grid_view(field@),
            field@.len() as int,
            field@[0]@.len() as int,
            word@,
            x as int,
            y as int,
            o,
        ),
        r is Some ==> grid_view(r->0@) == placed(
            grid_view(field@),
            word@,
            x as int,
            y as int,
            o,
        ),
        r is Some ==> keeps_letters(
            grid_view(field@),
            grid_view(r->0@),
            field@.len() as int,
            field@[0]@.len() as int,
        ),
{
    let ghost g = grid_view(field@);
    let w = field.len();
    let h = field[0].len();
    let len = word.len();
    let fits = match o {
        Orientation::Horizontal => len < w - x,
        Orientation::Vertical => len < h - y,
        Orientation::DiagonalDown => len < w - x && len < h - y,
        Orientation::DiagonalUp => len < w - x && len <= y,
    };
    if !fits {
        return None;
    }
    let mut i: usize = 0;
    while i < len
        invariant
            i <= len,
            len == word@.len(),
            w == g.len(),
            h == g[0].len(),
            g == grid_view(field@),
            is_grid(g, w as int, h as int),
            within_margin(o, x as int, y as int, len as int, w as int, h as int),
            forall|k: int|
                0 <= k < i ==> agrees(
                    g[path_cell(o, x as int, y as int, k).0][path_cell(o, x as int, y as int, k).1],
                    #[trigger] word@[k],
                ),
        decreases len - i,
    {
        let (a, b) = match o {
            Orientation::Horizontal => (x + i, y),
            Orientation::Vertical => (x, y + i),
            Orientation::DiagonalDown => (x + i, y + i),
            Orientation::DiagonalUp => (x + i, y - i),
        };
        assert(g[a as int] == field@[a as int]@);
        let c = field[a][b];
        if c != EMPTY && c != word[i] {
            return None;
        }
        i = i + 1;
    }
    let ghost target = placed(g, word@, x as int, y as int, o);
    let mut out: Vec<Vec<char>> = Vec::new();
    let mut a: usize = 0;
    while a < w
        invariant
            a <= w,
            len == word@.len(),
            w == g.len(),
            h == g[0].len(),
            g == grid_view(field@),
            is_grid(g, w as int, h as int),
            target == placed(g, word@, x as int, y as int, o),
            within_margin(o, x as int, y as int, len as int, w as int, h as int),
            out@.len() == a,
            forall|k: int| 0 <= k < a ==> (#[trigger] out@[k])@ == target[k],
        decreases w - a,
    {
        let mut col: Vec<char> = Vec::new();
        let mut b: usize = 0;
        assert(g[a as int] == field@[a as int]@);
        while b < h
            invariant
                a < w,
                b <= h,
                len == word@.len(),
                w == g.len(),
                h == g[0].len(),
                g == grid_view(field@),
                is_grid(g, w as int, h as int),
                target == placed(g, word@, x as int, y as int, o),
                within_margin(o, x as int, y as int, len as int, w as int, h as int),
                field@[a as int]@.len() == h,
                g[a as int] == field@[a as int]@,
                col@.len() == b,
                forall|k: int| 0 <= k < b ==> #[trigger] col@[k] == target[a as int][k],
            decreases h - b,
        {
            let step: Option<usize> = match o {
                Orientation::Horizontal => if b == y && a >= x {
                    Some(a - x)
                } else {
                    None
                },
                Orientation::Vertical => if a == x && b >= y {
                    Some(b - y)
                } else {
                    None
                },
                Orientation::DiagonalDown => if a >= x && b >= y && a - x == b - y {
                    Some(a - x)
                } else {
                    None
                },
                Orientation::DiagonalUp => if a >= x && b <= y && a - x == y - b {
                    Some(a - x)
                } else {
                    None
                },
            };
            let c = match step {
                Some(s) => if s < len {
                    word[s]
                } else {
                    field[a][b]
                },
                None => field[a][b],
            };
            col.push(c);
            b = b + 1;
        }
        assert(col@ =~= target[a as int]);
        out.push(col);
        a = a + 1;
    }
    assert(grid_view(out@) =~= target);
    proof {
        lemma_placed_keeps_letters(g, w as int, h as int, word@, x as int, y as int, o);
    }
    Some(out)
}

} // verus!
