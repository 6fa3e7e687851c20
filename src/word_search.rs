use vstd::prelude::*;
use crate::grid::{
    agrees,
    can_place,
    grid_view,
    is_grid,
    new_field,
    path_cell,
    path_index,
    placed,
    try_add,
    within_margin,
    Orientation,
    EMPTY,
};
use crate::progress::Progress;
use crate::random::Dice;

verus! {

/// The number of placement calls one build may make before it gives up.
pub const MAX_PLACEMENT_CALLS: u32 = 1000;

/// Where a word was written: its start cell, its direction and the letters
/// as they stand in the grid (reversed where the word was reversed).
#[derive(Clone, Debug)]
pub struct Placement {
    pub x: usize,
    pub y: usize,
    pub orientation: Orientation,
    pub letters: Vec<char>,
}

/// A filled grid and the words hidden in it, in the order they were placed.
#[derive(Clone, Debug)]
pub struct WordSearch {
    pub field: Vec<Vec<char>>,
    pub word_list: Vec<String>,
    pub placements: Vec<Placement>,
}

/// The letters of `p`, read from its start cell along its orientation,
/// stand in `g`, and the margin rule holds.
pub open spec fn reads_word(g: Seq<Seq<char>>, w: int, h: int, p: Placement) -> bool {
    &&& within_margin(p.orientation, p.x as int, p.y as int, p.letters@.len() as int, w, h)
    &&& forall|i: int|
        0 <= i < p.letters@.len() ==> g[path_cell(p.orientation, p.x as int, p.y as int, i).0][path_cell(
            p.orientation,
            p.x as int,
            p.y as int,
            i,
        ).1] == #[trigger] p.letters@[i]
}

pub open spec fn has_no_empty(s: Seq<char>) -> bool {
    forall|i: int| 0 <= i < s.len() ==> #[trigger] s[i] != EMPTY
}

pub open spec fn is_letter(c: char) -> bool {
    'A' <= c <= 'Z'
}

/// Cell `(a, b)` lies on the path of one of `ps`.
pub open spec fn covered(ps: Seq<Placement>, a: int, b: int) -> bool {
    exists|k: int, i: int|
        0 <= k < ps.len() && 0 <= i < ps[k].letters@.len() && #[trigger] path_cell(
            ps[k].orientation,
            ps[k].x as int,
            ps[k].y as int,
            i,
        ) == (a, b)
}

/// The characters of `s` without its spaces.
pub open spec fn without_spaces(s: Seq<char>) -> Seq<char>
    decreases s.len(),
{
    if s.len() == 0 {
        Seq::empty()
    } else {
        let rest = without_spaces(s.drop_last());
        if s.last() == ' ' {
            rest
        } else {
            rest.push(s.last())
        }
    }
}

pub open spec fn reversed(s: Seq<char>) -> Seq<char> {
    Seq::new(s.len(), |i: int| s[s.len() - 1 - i])
}

/// What `str::to_uppercase` makes of a string.
pub uninterp spec fn upper_of(s: Seq<char>) -> Seq<char>;

/// A word fits the grid's filter when it is no longer than either side.
pub open spec fn fits_grid(s: Seq<char>, w: int, h: int) -> bool {
    s.len() <= w && s.len() <= h
}

/// `display` and `letters` are what a build makes of the source word `src`:
/// its upper-case form, and that form without spaces, perhaps reversed.
pub open spec fn made_from(src: Seq<char>, display: Seq<char>, letters: Seq<char>, w: int, h: int) -> bool {
    &&& fits_grid(src, w, h)
    &&& display == upper_of(src)
    &&& (letters == without_spaces(upper_of(src)) || letters == reversed(
        without_spaces(upper_of(src)),
    ))
}

/// Relies on `str::to_uppercase`: the result depends on the characters alone.
#[verifier::external_body]
fn to_upper(s: &str) -> (r: String)
    ensures
        r@ == upper_of(s@),
{
    s.to_uppercase()
}

/// The characters of `s`.
pub fn chars_of(s: &str) -> (r: Vec<char>)
    ensures
        r@ == s@,
{
    let n = s.unicode_len();
    let mut out: Vec<char> = Vec::new();
    let mut i: usize = 0;
    while i < n
        invariant
            i <= n,
            n == s@.len(),
            out@ == s@.subrange(0, i as int),
        decreases n - i,
    {
        let c = s.get_char(i);
        out.push(c);
        i = i + 1;
        assert(out@ =~= s@.subrange(0, i as int));
    }
    assert(out@ =~= s@);
    out
}

/// `s` without its spaces.
pub fn strip_spaces(s: &Vec<char>) -> (r: Vec<char>)
    ensures
        r@ == without_spaces(s@),
{
    let mut out: Vec<char> = Vec::new();
    let mut i: usize = 0;
    while i < s.len()
        invariant
            i <= s@.len(),
            out@ == without_spaces(s@.subrange(0, i as int)),
        decreases s@.len() - i,
    {
        assert(s@.subrange(0, i as int + 1).drop_last() =~= s@.subrange(0, i as int));
        if s[i] != ' ' {
            out.push(s[i]);
        }
        i = i + 1;
    }
    assert(s@.subrange(0, s@.len() as int) =~= s@);
    out
}

/// `s` back to front.
pub fn reverse(s: &Vec<char>) -> (r: Vec<char>)
    ensures
        r@ == reversed(s@),
{
    let mut out: Vec<char> = Vec::new();
    let n = s.len();
    let mut i: usize = 0;
    while i < n
        invariant
            i <= n,
            n == s@.len(),
            out@.len() == i,
            forall|k: int| 0 <= k < i ==> #[trigger] out@[k] == s@[n - 1 - k],
        decreases n - i,
    {
        out.push(s[n - 1 - i]);
        i = i + 1;
    }
    assert(out@ =~= reversed(s@));
    out
}

/// No start cell in columns `x0..x1` and rows `y0..y1` takes `word` along `o`.
pub open spec fn no_fit_in(
    g: Seq<Seq<char>>,
    w: int,
    h: int,
    word: Seq<char>,
    o: Orientation,
    x0: int,
    x1: int,
    y0: int,
    y1: int,
) -> bool {
    forall|x: int, y: int| x0 <= x < x1 && y0 <= y < y1 ==> !#[trigger] can_place(g, w, h, word, x, y, o)
}

/// No start cell of that block that the scan visits before `(x, y)`,
/// column by column and row by row within a column, takes `word` along `o`.
pub open spec fn no_fit_before(
    g: Seq<Seq<char>>,
    w: int,
    h: int,
    word: Seq<char>,
    o: Orientation,
    x0: int,
    x1: int,
    y0: int,
    y1: int,
    x: int,
    y: int,
) -> bool {
    forall|x2: int, y2: int|
        x0 <= x2 < x1 && y0 <= y2 < y1 && (x2 < x || (x2 == x && y2 < y)) ==> !#[trigger] can_place(
            g,
            w,
            h,
            word,
            x2,
            y2,
            o,
        )
}

/// The scan from `(sx, sy)` finds no start cell for `word` along `o`: none
/// from the start cell to the far corner, none from the origin up to it.
pub open spec fn no_fit_from(g: Seq<Seq<char>>, w: int, h: int, word: Seq<char>, o: Orientation, sx: int, sy: int) -> bool {
    no_fit_in(g, w, h, word, o, sx, w, sy, h) && no_fit_in(g, w, h, word, o, 0, sx, 0, sy)
}

/// `(x, y)` is the first start cell for `word` along `o` that the scan from
/// `(sx, sy)` finds.
pub open spec fn first_fit(
    g: Seq<Seq<char>>,
    w: int,
    h: int,
    word: Seq<char>,
    o: Orientation,
    sx: int,
    sy: int,
    x: int,
    y: int,
) -> bool {
    &&& can_place(g, w, h, word, x, y, o)
    &&& {
        ||| sx <= x < w && sy <= y < h && no_fit_before(g, w, h, word, o, sx, w, sy, h, x, y)
        ||| 0 <= x < sx && 0 <= y < sy && no_fit_in(g, w, h, word, o, sx, w, sy, h) && no_fit_before(
            g,
            w,
            h,
            word,
            o,
            0,
            sx,
            0,
            sy,
            x,
            y,
        )
    }
}

/// The orientation with ordinal `i`, for `i` in 0..4.
pub open spec fn orientation_of(i: int) -> Orientation {
    if i == 0 {
        Orientation::Horizontal
    } else if i == 1 {
        Orientation::Vertical
    } else if i == 2 {
        Orientation::DiagonalDown
    } else {
        Orientation::DiagonalUp
    }
}

/// Looks for a conflict-free start cell for `word` along `o` among columns
/// `x0..x1` and rows `y0..y1`, column by column; the first found wins.
fn scan(
    field: &Vec<Vec<char>>,
    word: &Vec<char>,
    x0: usize,
    x1: usize,
    y0: usize,
    y1: usize,
    o: Orientation,
) -> (r: Option<(Vec<Vec<char>>, usize, usize)>)
    requires
        field@.len() >= 1,
        is_grid(grid_view(field@), field@.len() as int, field@[0]@.len() as int),
        x1 <= field@.len(),
        y1 <= field@[0]@.len(),
    ensures
        r is None ==> no_fit_in(
            grid_view(field@),
            field@.len() as int,
            field@[0]@.len() as int,
            word@,
            o,
            x0 as int,
            x1 as int,
            y0 as int,
            y1 as int,
        ),
        r matches Some((g2, x, y)) ==> {
            &&& x0 <= x < x1
            &&& y0 <= y < y1
            &&& can_place(
                grid_view(field@),
                field@.len() as int,
                field@[0]@.len() as int,
                word@,
                x as int,
                y as int,
                o,
            )
            &&& no_fit_before(
                grid_view(field@),
                field@.len() as int,
                field@[0]@.len() as int,
                word@,
                o,
                x0 as int,
                x1 as int,
                y0 as int,
                y1 as int,
                x as int,
                y as int,
            )
            &&& grid_view(g2@) == placed(grid_view(field@), word@, x as int, y as int, o)
        },
{
    let ghost g = grid_view(field@);
    let ghost w = field@.len() as int;
    let ghost h = field@[0]@.len() as int;
    let mut x = x0;
    while x < x1
        invariant
            field@.len() >= 1,
            is_grid(grid_view(field@), field@.len() as int, field@[0]@.len() as int),
            g == grid_view(field@),
            w == field@.len(),
            h == field@[0]@.len(),
            x0 <= x,
            x1 <= field@.len(),
            y1 <= field@[0]@.len(),
            no_fit_in(g, w, h, word@, o, x0 as int, x as int, y0 as int, y1 as int),
        decreases x1 - x,
    {
        let mut y = y0;
        while y < y1
            invariant
                field@.len() >= 1,
                is_grid(grid_view(field@), field@.len() as int, field@[0]@.len() as int),
                g == grid_view(field@),
                w == field@.len(),
                h == field@[0]@.len(),
                x0 <= x < x1,
                y0 <= y,
                x1 <= field@.len(),
                y1 <= field@[0]@.len(),
                no_fit_in(g, w, h, word@, o, x0 as int, x as int, y0 as int, y1 as int),
                forall|y2: int| y0 <= y2 < y ==> !#[trigger] can_place(g, w, h, word@, x as int, y2, o),
            decreases y1 - y,
        {
            match try_add(field, word, x, y, o) {
                Some(g2) => {
                    assert(no_fit_before(
                        g,
                        w,
                        h,
                        word@,
                        o,
                        x0 as int,
                        x1 as int,
                        y0 as int,
                        y1 as int,
                        x as int,
                        y as int,
                    )) by {
                        assert forall|x2: int, y2: int|
                            x0 <= x2 < x1 && y0 <= y2 < y1 && (x2 < x || (x2 == x && y2 < y)) implies !#[trigger] can_place(
                            g,
                            w,
                            h,
                            word@,
                            x2,
                            y2,
                            o,
                        ) by {
                            if x2 < x {
                                assert(no_fit_in(g, w, h, word@, o, x0 as int, x as int, y0 as int, y1 as int));
                            }
                        }
                    }
                    return Some((g2, x, y));
                },
                None => {},
            }
            y = y + 1;
        }
        assert(no_fit_in(g, w, h, word@, o, x0 as int, x as int + 1, y0 as int, y1 as int)) by {
            assert forall|x2: int, y2: int|
                x0 <= x2 < x + 1 && y0 <= y2 < y1 implies !#[trigger] can_place(g, w, h, word@, x2, y2, o) by {
                if x2 < x {
                    assert(no_fit_in(g, w, h, word@, o, x0 as int, x as int, y0 as int, y1 as int));
                }
            }
        }
        x = x + 1;
    }
    None
}

/// The search of one placement call, for given draws: the four orientations
/// in turn from ordinal `offset`, each scanned from `(sx, sy)` to the far
/// corner and then from the origin up to `(sx, sy)`; the first start cell
/// that takes `word` wins. Returns the new grid and where the word went, or
/// `None` when no scanned cell takes it in any orientation.
pub fn place_from(field: &Vec<Vec<char>>, word: &Vec<char>, offset: usize, sx: usize, sy: usize) -> (r:
    Option<(Vec<Vec<char>>, Placement)>)
    requires
        field@.len() >= 1,
        is_grid(grid_view(field@), field@.len() as int, field@[0]@.len() as int),
        offset < 4,
        sx < field@.len(),
        sy < field@[0]@.len(),
    ensures
        r is None <==> forall|k: int|
            0 <= k < 4 ==> #[trigger] no_fit_from(
                grid_view(field@),
                field@.len() as int,
                field@[0]@.len() as int,
                word@,
                orientation_of((offset + k) % 4),
                sx as int,
                sy as int,
            ),
        r matches Some((g2, p)) ==> {
            &&& p.letters@ == word@
            &&& first_fit(
                grid_view(field@),
                field@.len() as int,
                field@[0]@.len() as int,
                word@,
                p.orientation,
                sx as int,
                sy as int,
                p.x as int,
                p.y as int,
            )
            &&& forall|k: int|
                0 <= k < (p.orientation.ordinal() - offset + 4) % 4 ==> #[trigger] no_fit_from(
                    grid_view(field@),
                    field@.len() as int,
                    field@[0]@.len() as int,
                    word@,
                    orientation_of((offset + k) % 4),
                    sx as int,
                    sy as int,
                )
            &&& grid_view(g2@) == placed(
                grid_view(field@),
                word@,
                p.x as int,
                p.y as int,
                p.orientation,
            )
        },
{
    let ghost g = grid_view(field@);
    let ghost w = field@.len() as int;
    let ghost h = field@[0]@.len() as int;
    let width = field.len();
    let height = field[0].len();
    let mut k: usize = 0;
    while k < 4
        invariant
            field@.len() >= 1,
            is_grid(grid_view(field@), field@.len() as int, field@[0]@.len() as int),
            g == grid_view(field@),
            w == width,
            h == height,
            width == field@.len(),
            height == field@[0]@.len(),
            sx < width,
            sy < height,
            offset < 4,
            k <= 4,
            forall|j: int|
                0 <= j < k ==> #[trigger] no_fit_from(
                    g,
                    w,
                    h,
                    word@,
                    orientation_of((offset + j) % 4),
                    sx as int,
                    sy as int,
                ),
        decreases 4 - k,
    {
        let o = Orientation::from_ordinal((offset + k) % 4);
        assert(o == orientation_of((offset + k) % 4 as int));
        let found = match scan(field, word, sx, width, sy, height, o) {
            Some(f) => Some(f),
            None => scan(field, word, 0, sx, 0, sy, o),
        };
        match found {
            Some((g2, x, y)) => {
                let letters = word.clone();
                assert(letters@ =~= word@);
                assert((o.ordinal() - offset + 4) % 4 == k);
                assert(!no_fit_from(g, w, h, word@, orientation_of((offset + k) % 4 as int), sx as int, sy as int)) by {
                    assert(can_place(g, w, h, word@, x as int, y as int, o));
                }
                return Some((g2, Placement { x, y, orientation: o, letters }));
            },
            None => {},
        }
        k = k + 1;
    }
    proof {
        assert forall|j: int| 0 <= j < 4 implies #[trigger] no_fit_from(
            g,
            w,
            h,
            word@,
            orientation_of((offset + j) % 4),
            sx as int,
            sy as int,
        ) by {}
    }
    None
}

/// The search from `(sx, sy)` with orientation offset `offset` finds no
/// start cell for `word` in any of the four orientations.
pub open spec fn fails_from(
    g: Seq<Seq<char>>,
    w: int,
    h: int,
    word: Seq<char>,
    offset: int,
    sx: int,
    sy: int,
) -> bool {
    forall|k: int|
        0 <= k < 4 ==> #[trigger] no_fit_from(g, w, h, word, orientation_of((offset + k) % 4), sx, sy)
}

/// Every cell of `g` is empty.
pub open spec fn all_empty(g: Seq<Seq<char>>, w: int, h: int) -> bool {
    forall|a: int, b: int| 0 <= a < w && 0 <= b < h ==> #[trigger] g[a][b] == EMPTY
}

/// On an empty grid the search finds a place for a word shorter than both
/// sides, whatever the start cell and the orientation offset.
pub proof fn lemma_empty_grid_never_fails(
    g: Seq<Seq<char>>,
    w: int,
    h: int,
    word: Seq<char>,
    offset: int,
    sx: int,
    sy: int,
)
    requires
        is_grid(g, w, h),
        all_empty(g, w, h),
        word.len() < w,
        word.len() < h,
        0 <= offset < 4,
        0 <= sx < w,
        0 <= sy < h,
    ensures
        !fails_from(g, w, h, word, offset, sx, sy),
{
    // Horizontal from column 0 works in either block unless the scan starts
    // in row 0 past column 0; then vertical from the start cell works.
    let (k, x, y) = if sy == 0 && sx > 0 {
        ((5 - offset) % 4, sx, 0int)
    } else if sx == 0 {
        ((4 - offset) % 4, 0int, sy)
    } else {
        ((4 - offset) % 4, 0int, 0int)
    };
    let o = orientation_of((offset + k) % 4);
    assert forall|i: int| 0 <= i < word.len() implies agrees(
        g[path_cell(o, x, y, i).0][path_cell(o, x, y, i).1],
        #[trigger] word[i],
    ) by {
        let c = path_cell(o, x, y, i);
        assert(g[c.0][c.1] == EMPTY);
    }
    assert(can_place(g, w, h, word, x, y, o));
    assert(!no_fit_from(g, w, h, word, o, sx, sy));
}

/// One placement call: draws an orientation offset and a start cell, counts
/// itself against `calls`, fails at once when that exceeds the budget, and
/// otherwise searches as `place_from` does. `field` itself is never changed.
pub fn add_word(field: &Vec<Vec<char>>, word: &Vec<char>, dice: &mut Dice, calls: &mut u32) -> (r:
    Option<(Vec<Vec<char>>, Placement)>)
    requires
        field@.len() >= 1,
        is_grid(grid_view(field@), field@.len() as int, field@[0]@.len() as int),
        *old(calls) < u32::MAX,
    ensures
        *final(calls) == *old(calls) + 1,
        *final(calls) > MAX_PLACEMENT_CALLS ==> r is None,
        r is None ==> *final(calls) > MAX_PLACEMENT_CALLS || exists|off: int, sx: int, sy: int|
            0 <= off < 4 && 0 <= sx < field@.len() && 0 <= sy < field@[0]@.len() && #[trigger] fails_from(
                grid_view(field@),
                field@.len() as int,
                field@[0]@.len() as int,
                word@,
                off,
                sx,
                sy,
            ),
        *final(calls) <= MAX_PLACEMENT_CALLS && all_empty(
            grid_view(field@),
            field@.len() as int,
            field@[0]@.len() as int,
        ) && word@.len() < field@.len() && word@.len() < field@[0]@.len() ==> r is Some,
        r matches Some((g2, p)) ==> {
            &&& p.letters@ == word@
            &&& can_place(
                grid_view(field@),
                field@.len() as int,
                field@[0]@.len() as int,
                word@,
                p.x as int,
                p.y as int,
                p.orientation,
            )
            &&& grid_view(g2@) == placed(
                grid_view(field@),
                word@,
                p.x as int,
                p.y as int,
                p.orientation,
            )
        },
{
    let ghost g = grid_view(field@);
    let w = field.len();
    let h = field[0].len();
    let offset = dice.below(4);
    let sx = dice.below(w);
    let sy = dice.below(h);
    *calls = *calls + 1;
    if *calls > MAX_PLACEMENT_CALLS {
        return None;
    }
    let r = place_from(field, word, offset, sx, sy);
    proof {
        if r is None {
            assert(fails_from(g, w as int, h as int, word@, offset as int, sx as int, sy as int));
            if all_empty(g, w as int, h as int) && word@.len() < w && word@.len() < h {
                lemma_empty_grid_never_fails(g, w as int, h as int, word@, offset as int, sx as int, sy as int);
            }
        }
    }
    r
}

/// Writing a word leaves a grid of the same shape.
pub proof fn lemma_placed_shape(g: Seq<Seq<char>>, w: int, h: int, word: Seq<char>, x: int, y: int, o: Orientation)
    requires
        is_grid(g, w, h),
    ensures
        is_grid(placed(g, word, x, y, o), w, h),
{
    let g2 = placed(g, word, x, y, o);
    assert forall|a: int| 0 <= a < w implies (#[trigger] g2[a]).len() == h by {
        assert(g[a].len() == h);
    }
}

/// A word written where it can be placed reads back from its start cell
/// along its orientation, within the margin rule.
pub proof fn lemma_placed_reads(g: Seq<Seq<char>>, w: int, h: int, p: Placement)
    requires
        is_grid(g, w, h),
        can_place(g, w, h, p.letters@, p.x as int, p.y as int, p.orientation),
    ensures
        reads_word(placed(g, p.letters@, p.x as int, p.y as int, p.orientation), w, h, p),
{
    let g2 = placed(g, p.letters@, p.x as int, p.y as int, p.orientation);
    assert forall|i: int| 0 <= i < p.letters@.len() implies g2[path_cell(
        p.orientation,
        p.x as int,
        p.y as int,
        i,
    ).0][path_cell(p.orientation, p.x as int, p.y as int, i).1] == #[trigger] p.letters@[i] by {
        let c = path_cell(p.orientation, p.x as int, p.y as int, i);
        assert(g[c.0].len() == h);
        assert(path_index(p.orientation, p.x as int, p.y as int, c.0, c.1) == i);
    }
}

/// A word already in the grid, with no empty marker among its letters,
/// still reads back after another word is written where it can be placed.
pub proof fn lemma_placed_keeps(
    g: Seq<Seq<char>>,
    w: int,
    h: int,
    q: Placement,
    word: Seq<char>,
    x: int,
    y: int,
    o: Orientation,
)
    requires
        is_grid(g, w, h),
        reads_word(g, w, h, q),
        has_no_empty(q.letters@),
        can_place(g, w, h, word, x, y, o),
    ensures
        reads_word(placed(g, word, x, y, o), w, h, q),
{
    let g2 = placed(g, word, x, y, o);
    assert forall|i: int| 0 <= i < q.letters@.len() implies g2[path_cell(
        q.orientation,
        q.x as int,
        q.y as int,
        i,
    ).0][path_cell(q.orientation, q.x as int, q.y as int, i).1] == #[trigger] q.letters@[i] by {
        let c = path_cell(q.orientation, q.x as int, q.y as int, i);
        assert(g[c.0].len() == h);
        assert(q.letters@[i] != EMPTY);
        let j = path_index(o, x, y, c.0, c.1);
        if 0 <= j < word.len() {
            assert(path_cell(o, x, y, j) == c);
            assert(agrees(g[c.0][c.1], word[j]));
        }
    }
}

/// Two words that read back from one grid agree on every cell they share.
pub proof fn lemma_no_overwrite(g: Seq<Seq<char>>, w: int, h: int, p: Placement, q: Placement, i: int, j: int)
    requires
        reads_word(g, w, h, p),
        reads_word(g, w, h, q),
        0 <= i < p.letters@.len(),
        0 <= j < q.letters@.len(),
        path_cell(p.orientation, p.x as int, p.y as int, i) == path_cell(
            q.orientation,
            q.x as int,
            q.y as int,
            j,
        ),
    ensures
        p.letters@[i] == q.letters@[j],
{
    assert(p.letters@[i] == g[path_cell(p.orientation, p.x as int, p.y as int, i).0][path_cell(
        p.orientation,
        p.x as int,
        p.y as int,
        i,
    ).1]);
    assert(q.letters@[j] == g[path_cell(q.orientation, q.x as int, q.y as int, j).0][path_cell(
        q.orientation,
        q.x as int,
        q.y as int,
        j,
    ).1]);
}

/// Every cell of `g` is empty or on the path of one of `ps`.
pub open spec fn empty_or_covered(g: Seq<Seq<char>>, w: int, h: int, ps: Seq<Placement>) -> bool {
    forall|a: int, b: int|
        0 <= a < w && 0 <= b < h ==> #[trigger] g[a][b] == EMPTY || covered(ps, a, b)
}

proof fn lemma_covered_after_place(g: Seq<Seq<char>>, w: int, h: int, ps: Seq<Placement>, p: Placement)
    requires
        is_grid(g, w, h),
        empty_or_covered(g, w, h, ps),
    ensures
        empty_or_covered(
            placed(g, p.letters@, p.x as int, p.y as int, p.orientation),
            w,
            h,
            ps.push(p),
        ),
{
    let g2 = placed(g, p.letters@, p.x as int, p.y as int, p.orientation);
    let ps2 = ps.push(p);
    assert forall|a: int, b: int| 0 <= a < w && 0 <= b < h implies #[trigger] g2[a][b] == EMPTY
        || covered(ps2, a, b) by {
        assert(g[a].len() == h);
        let j = path_index(p.orientation, p.x as int, p.y as int, a, b);
        if 0 <= j < p.letters@.len() {
            assert(ps2[ps.len() as int] == p);
            assert(path_cell(p.orientation, p.x as int, p.y as int, j) == (a, b));
        } else if g[a][b] != EMPTY {
            assert(covered(ps, a, b));
            let (k, i) = choose|k: int, i: int|
                0 <= k < ps.len() && 0 <= i < ps[k].letters@.len() && #[trigger] path_cell(
                    ps[k].orientation,
                    ps[k].x as int,
                    ps[k].y as int,
                    i,
                ) == (a, b);
            assert(ps2[k] == ps[k]);
            assert(path_cell(ps2[k].orientation, ps2[k].x as int, ps2[k].y as int, i) == (a, b));
        }
    }
}

/// A letter from `A` to `Z`, drawn uniformly.
fn random_letter(dice: &mut Dice) -> (c: char)
    ensures
        is_letter(c),
{
    let n = dice.below(26);
    ((65 + n) as u8) as char
}

/// A copy of `field` in which each empty cell holds a random letter.
fn fill_empty(field: &Vec<Vec<char>>, w: usize, h: usize, dice: &mut Dice) -> (r: Vec<Vec<char>>)
    requires
        is_grid(grid_view(field@), w as int, h as int),
    ensures
        is_grid(grid_view(r@), w as int, h as int),
        forall|a: int, b: int|
            0 <= a < w && 0 <= b < h ==> {
                &&& #[trigger] r@[a]@[b] != EMPTY
                &&& field@[a]@[b] != EMPTY ==> r@[a]@[b] == field@[a]@[b]
                &&& field@[a]@[b] == EMPTY ==> is_letter(r@[a]@[b])
            },
{
    let ghost g = grid_view(field@);
    let mut out: Vec<Vec<char>> = Vec::new();
    let mut a: usize = 0;
    while a < w
        invariant
            a <= w,
            g == grid_view(field@),
            is_grid(g, w as int, h as int),
            out@.len() == a,
            forall|k: int| 0 <= k < a ==> (#[trigger] out@[k])@.len() == h,
            forall|k: int, b: int|
                0 <= k < a && 0 <= b < h ==> {
                    &&& #[trigger] out@[k]@[b] != EMPTY
                    &&& field@[k]@[b] != EMPTY ==> out@[k]@[b] == field@[k]@[b]
                    &&& field@[k]@[b] == EMPTY ==> is_letter(out@[k]@[b])
                },
        decreases w - a,
    {
        assert(g[a as int] == field@[a as int]@);
        let mut col: Vec<char> = Vec::new();
        let mut b: usize = 0;
        while b < h
            invariant
                a < w,
                b <= h,
                g == grid_view(field@),
                is_grid(g, w as int, h as int),
                field@[a as int]@.len() == h,
                col@.len() == b,
                forall|k: int|
                    0 <= k < b ==> {
                        &&& #[trigger] col@[k] != EMPTY
                        &&& field@[a as int]@[k] != EMPTY ==> col@[k] == field@[a as int]@[k]
                        &&& field@[a as int]@[k] == EMPTY ==> is_letter(col@[k])
                    },
            decreases h - b,
        {
            let c = field[a][b];
            if c == EMPTY {
                let l = random_letter(dice);
                col.push(l);
            } else {
                col.push(c);
            }
            b = b + 1;
        }
        out.push(col);
        a = a + 1;
    }
    proof {
        assert forall|k: int| 0 <= k < w implies (#[trigger] grid_view(out@)[k]).len() == h by {
            assert(grid_view(out@)[k] == out@[k]@);
        }
    }
    out
}

/// `idx` maps each placed word, in order, to the entry of `words` it was
/// made from. The entries are taken in increasing order, so each at most once.
pub open spec fn indexed_by(
    words: Seq<String>,
    list: Seq<String>,
    ps: Seq<Placement>,
    idx: Seq<int>,
    w: int,
    h: int,
) -> bool {
    &&& idx.len() == list.len()
    &&& forall|k: int| 0 <= k < idx.len() ==> 0 <= #[trigger] idx[k] < words.len()
    &&& forall|k1: int, k2: int| 0 <= k1 < k2 < idx.len() ==> #[trigger] idx[k1] < #[trigger] idx[k2]
    &&& forall|k: int|
        0 <= k < idx.len() ==> made_from(words[idx[k]]@, (#[trigger] list[k])@, ps[k].letters@, w, h)
}

/// The placed words of `list`, with the letters of `ps`, are made from
/// entries of `words` in increasing order, each entry used at most once.
pub open spec fn drawn_in_order(words: Seq<String>, list: Seq<String>, ps: Seq<Placement>, w: int, h: int) -> bool {
    exists|idx: Seq<int>| #[trigger] indexed_by(words, list, ps, idx, w, h)
}

proof fn lemma_indexed_push(
    words: Seq<String>,
    list: Seq<String>,
    ps: Seq<Placement>,
    idx: Seq<int>,
    d: String,
    p: Placement,
    j: int,
    w: int,
    h: int,
)
    requires
        indexed_by(words, list, ps, idx, w, h),
        list.len() == ps.len(),
        0 <= j < words.len(),
        forall|k: int| 0 <= k < idx.len() ==> #[trigger] idx[k] < j,
        made_from(words[j]@, d@, p.letters@, w, h),
    ensures
        indexed_by(words, list.push(d), ps.push(p), idx.push(j), w, h),
{
    let list2 = list.push(d);
    let ps2 = ps.push(p);
    let idx2 = idx.push(j);
    assert forall|k: int| 0 <= k < idx2.len() implies made_from(
        words[idx2[k]]@,
        (#[trigger] list2[k])@,
        ps2[k].letters@,
        w,
        h,
    ) by {
        if k < list.len() {
            assert(list2[k] == list[k]);
            assert(ps2[k] == ps[k]);
            assert(idx2[k] == idx[k]);
        }
    }
    assert forall|k1: int, k2: int| 0 <= k1 < k2 < idx2.len() implies #[trigger] idx2[k1] < #[trigger] idx2[k2] by {
        assert(idx2[k1] == idx[k1]);
        if k2 < idx.len() {
            assert(idx2[k2] == idx[k2]);
        }
    }
}

/// How many entries of `words` pass the grid's size filter.
pub open spec fn count_fitting(words: Seq<String>, w: int, h: int) -> int
    decreases words.len(),
{
    if words.len() == 0 {
        0
    } else {
        count_fitting(words.drop_last(), w, h) + if fits_grid(words.last()@, w, h) {
            1int
        } else {
            0
        }
    }
}

proof fn lemma_count_prefix(words: Seq<String>, i: int, w: int, h: int)
    requires
        0 <= i <= words.len(),
    ensures
        0 <= count_fitting(words.subrange(0, i), w, h) <= count_fitting(words, w, h),
    decreases words.len(),
{
    if i == words.len() {
        assert(words.subrange(0, i) =~= words);
        lemma_count_nonneg(words, w, h);
    } else {
        lemma_count_prefix(words.drop_last(), i, w, h);
        assert(words.drop_last().subrange(0, i) =~= words.subrange(0, i));
    }
}

proof fn lemma_count_nonneg(words: Seq<String>, w: int, h: int)
    ensures
        count_fitting(words, w, h) >= 0,
    decreases words.len(),
{
    if words.len() > 0 {
        lemma_count_nonneg(words.drop_last(), w, h);
    }
}

/// The length of the letters a build writes for the source word `src`.
pub open spec fn letters_len(src: Seq<char>) -> int {
    without_spaces(upper_of(src)).len() as int
}

/// `src` passes the size filter and, once normalised, is shorter than both
/// sides, so that it fits an empty grid from any draw.
pub open spec fn placeable_alone(src: Seq<char>, w: int, h: int) -> bool {
    fits_grid(src, w, h) && letters_len(src) < w && letters_len(src) < h
}

/// `src`, once normalised, is at least as long as both sides, so that no
/// orientation admits it under the margin rule.
pub open spec fn never_placeable(src: Seq<char>, w: int, h: int) -> bool {
    letters_len(src) >= w && letters_len(src) >= h
}

/// The shape of a finished puzzle: a `width` by `height` grid with no empty
/// cell, in which every cell off the placed paths holds a letter from `A`
/// to `Z`; at most `max_count` placed words, one record each; and each
/// record with no empty marker among its letters reads back from the grid.
pub open spec fn is_puzzle(ws: WordSearch, max_count: int, width: int, height: int) -> bool {
    let g = grid_view(ws.field@);
    &&& is_grid(g, width, height)
    &&& forall|a: int, b: int| 0 <= a < width && 0 <= b < height ==> #[trigger] g[a][b] != EMPTY
    &&& forall|a: int, b: int|
        0 <= a < width && 0 <= b < height ==> is_letter(#[trigger] g[a][b]) || covered(
            ws.placements@,
            a,
            b,
        )
    &&& ws.word_list@.len() == ws.placements@.len()
    &&& ws.word_list@.len() <= max_count
    &&& forall|k: int|
        0 <= k < ws.placements@.len() && has_no_empty(#[trigger] ws.placements@[k].letters@)
            ==> reads_word(g, width, height, ws.placements@[k])
}

/// What a finished build promises: a puzzle whose words come, in order,
/// from distinct entries of `words` that fit the grid.
pub open spec fn is_build_of(ws: WordSearch, words: Seq<String>, max_count: int, width: int, height: int) -> bool {
    &&& is_puzzle(ws, max_count, width, height)
    &&& drawn_in_order(words, ws.word_list@, ws.placements@, width, height)
}

/// Builds one puzzle. The words of `word_list` that fit the grid are taken
/// in order until `max_count` are placed or the list ends: each is
/// upper-cased, stripped of spaces, reversed with probability 1/4 and handed
/// to `add_word`; each word placed is counted in `progress`. When the
/// placement calls exceed `MAX_PLACEMENT_CALLS` the whole build is dropped
/// and `None` returned; otherwise the empty cells are filled with random
/// letters.
pub fn generate(
    word_list: &Vec<String>,
    max_count: usize,
    width: usize,
    height: usize,
    dice: &mut Dice,
    progress: &Progress,
) -> (r: Option<WordSearch>)
    requires
        width >= 1,
        height >= 1,
    ensures
        r matches Some(ws) ==> is_build_of(ws, word_list@, max_count as int, width as int, height as int),
        r is None ==> count_fitting(word_list@, width as int, height as int) > MAX_PLACEMENT_CALLS,
        max_count >= 1 && count_fitting(word_list@, width as int, height as int) <= MAX_PLACEMENT_CALLS
            && (exists|j: int|
            0 <= j < word_list@.len() && #[trigger] placeable_alone(
                word_list@[j]@,
                width as int,
                height as int,
            )) ==> (r matches Some(ws) && ws.word_list@.len() >= 1),
        max_count >= 1 && count_fitting(word_list@, width as int, height as int) > MAX_PLACEMENT_CALLS
            && (forall|j: int|
            0 <= j < word_list@.len() && fits_grid(#[trigger] word_list@[j]@, width as int, height as int)
                ==> never_placeable(word_list@[j]@, width as int, height as int)) ==> r is None,
{
    let ghost w = width as int;
    let ghost h = height as int;
    let ghost total = count_fitting(word_list@, w, h);
    let ghost hopeless = forall|j: int|
        0 <= j < word_list@.len() && fits_grid(#[trigger] word_list@[j]@, w, h) ==> never_placeable(
            word_list@[j]@,
            w,
            h,
        );
    let mut field = new_field(width, height);
    let mut search_list: Vec<String> = Vec::new();
    let mut placements: Vec<Placement> = Vec::new();
    let mut calls: u32 = 0;
    let ghost mut idx: Seq<int> = Seq::empty();
    proof {
        assert forall|a: int, b: int| 0 <= a < w && 0 <= b < h implies #[trigger] grid_view(
            field@,
        )[a][b] == EMPTY || covered(placements@, a, b) by {
            assert(grid_view(field@)[a] == field@[a]@);
        }
        assert forall|a: int, b: int| 0 <= a < w && 0 <= b < h implies #[trigger] grid_view(field@)[a][b]
            == EMPTY by {
            assert(grid_view(field@)[a] == field@[a]@);
        }
        assert(word_list@.subrange(0, 0) =~= Seq::<String>::empty());
        assert(indexed_by(word_list@, search_list@, placements@, idx, w, h));
        lemma_count_nonneg(word_list@, w, h);
    }
    let mut i: usize = 0;
    while i < word_list.len()
        invariant
            i <= word_list@.len(),
            width >= 1,
            height >= 1,
            w == width,
            h == height,
            total == count_fitting(word_list@, w, h),
            total >= 0,
            hopeless == (forall|j: int|
                0 <= j < word_list@.len() && fits_grid(#[trigger] word_list@[j]@, w, h) ==> never_placeable(
                    word_list@[j]@,
                    w,
                    h,
                )),
            field@.len() == width,
            is_grid(grid_view(field@), w, h),
            search_list@.len() == placements@.len(),
            search_list@.len() <= max_count,
            calls <= count_fitting(word_list@.subrange(0, i as int), w, h),
            calls <= MAX_PLACEMENT_CALLS + 1,
            hopeless ==> search_list@.len() == 0 && calls == count_fitting(
                word_list@.subrange(0, i as int),
                w,
                h,
            ),
            search_list@.len() == 0 ==> all_empty(grid_view(field@), w, h),
            max_count >= 1 && total <= MAX_PLACEMENT_CALLS && search_list@.len() == 0 ==> forall|j: int|
                0 <= j < i ==> !#[trigger] placeable_alone(word_list@[j]@, w, h),
            empty_or_covered(grid_view(field@), w, h, placements@),
            forall|k: int|
                0 <= k < placements@.len() && has_no_empty(#[trigger] placements@[k].letters@)
                    ==> reads_word(grid_view(field@), w, h, placements@[k]),
            indexed_by(word_list@, search_list@, placements@, idx, w, h),
            forall|k: int| 0 <= k < idx.len() ==> #[trigger] idx[k] < i,
        ensures
            i == word_list@.len() || search_list@.len() >= max_count,
        decreases word_list@.len() - i,
    {
        proof {
            lemma_count_prefix(word_list@, i as int, w, h);
        }
        if calls > MAX_PLACEMENT_CALLS {
            return None;
        }
        if search_list.len() >= max_count {
            break;
        }
        proof {
            assert(word_list@.subrange(0, i as int + 1).drop_last() =~= word_list@.subrange(0, i as int));
            assert(word_list@.subrange(0, i as int + 1).last() == word_list@[i as int]);
            lemma_count_prefix(word_list@, i as int + 1, w, h);
        }
        let raw = word_list[i].as_str();
        let n = raw.unicode_len();
        if n <= width && n <= height {
            let upper = to_upper(raw);
            let upper_chars = chars_of(upper.as_str());
            let stripped = strip_spaces(&upper_chars);
            let letters = if dice.below(4) == 0 {
                reverse(&stripped)
            } else {
                stripped
            };
            assert(letters@.len() == letters_len(word_list@[i as int]@));
            assert(grid_view(field@)[0] == field@[0]@);
            let ghost g = grid_view(field@);
            let ghost old_placements = placements@;
            let ghost old_list = search_list@;
            match add_word(&field, &letters, dice, &mut calls) {
                Some((g2, p)) => {
                    proof {
                        lemma_placed_shape(g, w, h, letters@, p.x as int, p.y as int, p.orientation);
                        lemma_placed_reads(g, w, h, p);
                        lemma_covered_after_place(g, w, h, old_placements, p);
                        assert forall|k: int|
                            0 <= k < old_placements.len() && has_no_empty(
                                #[trigger] old_placements[k].letters@,
                            ) implies reads_word(
                            placed(g, letters@, p.x as int, p.y as int, p.orientation),
                            w,
                            h,
                            old_placements[k],
                        ) by {
                            lemma_placed_keeps(
                                g,
                                w,
                                h,
                                old_placements[k],
                                letters@,
                                p.x as int,
                                p.y as int,
                                p.orientation,
                            );
                        }
                        assert(made_from(word_list@[i as int]@, upper@, letters@, w, h));
                        lemma_indexed_push(
                            word_list@,
                            old_list,
                            old_placements,
                            idx,
                            upper,
                            p,
                            i as int,
                            w,
                            h,
                        );
                        if hopeless {
                            assert(never_placeable(word_list@[i as int]@, w, h));
                        }
                    }
                    progress.record_placement();
                    field = g2;
                    search_list.push(upper);
                    placements.push(p);
                    proof {
                        idx = idx.push(i as int);
                        assert(grid_view(field@).len() == field@.len());
                        assert forall|k: int|
                            0 <= k < placements@.len() && has_no_empty(
                                #[trigger] placements@[k].letters@,
                            ) implies reads_word(grid_view(field@), w, h, placements@[k]) by {
                            if k < old_placements.len() {
                                assert(placements@[k] == old_placements[k]);
                            }
                        }
                        assert(search_list@ == old_list.push(upper));
                        assert(placements@ == old_placements.push(p));
                        assert forall|k: int| 0 <= k < idx.len() implies #[trigger] idx[k] < i + 1 by {
                            if k < idx.len() - 1 {
                                assert(idx[k] == idx.drop_last()[k]);
                            }
                        }
                    }
                },
                None => {
                    proof {
                        if max_count >= 1 && total <= MAX_PLACEMENT_CALLS && old_list.len() == 0 {
                            if placeable_alone(word_list@[i as int]@, w, h) {
                                assert(all_empty(g, w, h));
                                assert(false);
                            }
                        }
                    }
                },
            }
        } else {
            proof {
                assert(!fits_grid(word_list@[i as int]@, w, h));
            }
        }
        i = i + 1;
    }
    proof {
        lemma_count_prefix(word_list@, i as int, w, h);
        assert(word_list@.subrange(0, word_list@.len() as int) =~= word_list@);
    }
    if calls > MAX_PLACEMENT_CALLS {
        return None;
    }
    proof {
        assert(word_list@.subrange(0, word_list@.len() as int) =~= word_list@);
    }
    let ghost g = grid_view(field@);
    let filled = fill_empty(&field, width, height, dice);
    proof {
        let g2 = grid_view(filled@);
        assert forall|a: int, b: int| 0 <= a < w && 0 <= b < h implies #[trigger] g2[a][b] != EMPTY by {
            assert(g2[a] == filled@[a]@);
        }
        assert forall|a: int, b: int| 0 <= a < w && 0 <= b < h implies is_letter(#[trigger] g2[a][b])
            || covered(placements@, a, b) by {
            assert(g2[a] == filled@[a]@);
            assert(g[a] == field@[a]@);
        }
        assert forall|k: int|
            0 <= k < placements@.len() && has_no_empty(#[trigger] placements@[k].letters@)
                implies reads_word(g2, w, h, placements@[k]) by {
            let q = placements@[k];
            assert(reads_word(g, w, h, q));
            assert forall|t: int| 0 <= t < q.letters@.len() implies g2[path_cell(
                q.orientation,
                q.x as int,
                q.y as int,
                t,
            ).0][path_cell(q.orientation, q.x as int, q.y as int, t).1] == #[trigger] q.letters@[t] by {
                let c = path_cell(q.orientation, q.x as int, q.y as int, t);
                assert(g2[c.0] == filled@[c.0]@);
                assert(g[c.0] == field@[c.0]@);
                assert(q.letters@[t] != EMPTY);
            }
        }
        assert(drawn_in_order(word_list@, search_list@, placements@, w, h));
    }
    Some(WordSearch { field: filled, word_list: search_list, placements })
}

} // verus!
