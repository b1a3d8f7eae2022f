use vstd::prelude::*;

use super::BoolGridEdgesIrrefutableFacts;
use crate::items::Arrow;

verus! {

/// The direction of a Yajilin clue as stored in a benchmark file.
#[derive(Clone, Copy, Debug, PartialEq, Eq, Structural)]
pub enum YajilinDirection {
    Unspecified,
    Up,
    Down,
    Left,
    Right,
}

/// The arrow that a direction stands for.
pub open spec fn direction_arrow(d: YajilinDirection) -> Arrow {
    match d {
        YajilinDirection::Unspecified => Arrow::Unspecified,
        YajilinDirection::Up => Arrow::Up,
        YajilinDirection::Down => Arrow::Down,
        YajilinDirection::Left => Arrow::Left,
        YajilinDirection::Right => Arrow::Right,
    }
}

impl YajilinDirection {
    pub fn to_cspuz_rs(&self) -> (r: Arrow)
        ensures
            r == direction_arrow(*self),
    {
        match self {
            YajilinDirection::Unspecified => Arrow::Unspecified,
            YajilinDirection::Up => Arrow::Up,
            YajilinDirection::Down => Arrow::Down,
            YajilinDirection::Left => Arrow::Left,
            YajilinDirection::Right => Arrow::Right,
        }
    }

    pub fn from_cspuz_rs(direction: Arrow) -> (r: Self)
        ensures
            direction_arrow(r) == direction,
    {
        match direction {
            Arrow::Unspecified => YajilinDirection::Unspecified,
            Arrow::Up => YajilinDirection::Up,
            Arrow::Down => YajilinDirection::Down,
            Arrow::Left => YajilinDirection::Left,
            Arrow::Right => YajilinDirection::Right,
        }
    }
}

/// Directions and arrows correspond one to one: converting either way and
/// back gives the value back.
pub proof fn lemma_direction_round_trip(d: YajilinDirection, a: Arrow)
    ensures
        (forall|e: YajilinDirection| direction_arrow(e) == direction_arrow(d) ==> e == d),
        (exists|e: YajilinDirection| direction_arrow(e) == a),
{
    match a {
        Arrow::Unspecified => assert(direction_arrow(YajilinDirection::Unspecified) == a),
        Arrow::Up => assert(direction_arrow(YajilinDirection::Up) == a),
        Arrow::Down => assert(direction_arrow(YajilinDirection::Down) == a),
        Arrow::Left => assert(direction_arrow(YajilinDirection::Left) == a),
        Arrow::Right => assert(direction_arrow(YajilinDirection::Right) == a),
    }
}

/// Expected facts of a Yajilin puzzle: the loop and the black cells.
pub struct YajilinIrrefutableFacts {
    pub is_line: BoolGridEdgesIrrefutableFacts,
    pub is_black: Vec<Vec<Option<bool>>>,
}

/// A Yajilin puzzle: whether clues may point outside, and the clue of each
/// cell.
pub struct YajilinTask {
    pub outside: bool,
    pub clues: Vec<Vec<Option<(YajilinDirection, i32)>>>,
    pub expectation: Option<YajilinIrrefutableFacts>,
}

/// The clue as the solver library represents it.
pub open spec fn clue_arrow(c: Option<(YajilinDirection, i32)>) -> Option<(Arrow, i32)> {
    match c {
        Some((d, n)) => Some((direction_arrow(d), n)),
        None => None,
    }
}

/// Converts the clues of a task to the solver library's arrows.
pub fn clues_to_cspuz_rs(clues: &Vec<Vec<Option<(YajilinDirection, i32)>>>) -> (r: Vec<Vec<Option<(Arrow, i32)>>>)
    ensures
        r@.len() == clues@.len(),
        forall|y: int| 0 <= y < r@.len() ==> (#[trigger] r@[y])@.len() == clues@[y]@.len(),
        forall|y: int, x: int|
            0 <= y < r@.len() && 0 <= x < r@[y]@.len() ==> (#[trigger] r@[y]@[x]) == clue_arrow(clues@[y]@[x]),
{
    let mut r: Vec<Vec<Option<(Arrow, i32)>>> = Vec::new();
    let mut y: usize = 0;
    while y < clues.len()
        invariant
            y <= clues@.len(),
            r@.len() == y,
            forall|k: int| 0 <= k < y ==> (#[trigger] r@[k])@.len() == clues@[k]@.len(),
            forall|k: int, x: int|
                0 <= k < y && 0 <= x < r@[k]@.len() ==> (#[trigger] r@[k]@[x]) == clue_arrow(clues@[k]@[x]),
        decreases clues@.len() - y,
    {
        let row = &clues[y];
        let mut nr: Vec<Option<(Arrow, i32)>> = Vec::new();
        let mut x: usize = 0;
        while x < row.len()
            invariant
                x <= row@.len(),
                nr@.len() == x,
                forall|t: int| 0 <= t < x ==> (#[trigger] nr@[t]) == clue_arrow(row@[t]),
            decreases row@.len() - x,
        {
            let c = match &row[x] {
                Some((d, n)) => Some((d.to_cspuz_rs(), *n)),
                None => None,
            };
            nr.push(c);
            x += 1;
        }
        r.push(nr);
        y += 1;
    }
    r
}

/// Converts clues in the solver library's arrows to the task's form.
pub fn clues_from_cspuz_rs(clues: &Vec<Vec<Option<(Arrow, i32)>>>) -> (r: Vec<Vec<Option<(YajilinDirection, i32)>>>)
    ensures
        r@.len() == clues@.len(),
        forall|y: int| 0 <= y < r@.len() ==> (#[trigger] r@[y])@.len() == clues@[y]@.len(),
        forall|y: int, x: int|
            0 <= y < r@.len() && 0 <= x < r@[y]@.len() ==> clue_arrow(#[trigger] r@[y]@[x]) == clues@[y]@[x],
{
    let mut r: Vec<Vec<Option<(YajilinDirection, i32)>>> = Vec::new();
    let mut y: usize = 0;
    while y < clues.len()
        invariant
            y <= clues@.len(),
            r@.len() == y,
            forall|k: int| 0 <= k < y ==> (#[trigger] r@[k])@.len() == clues@[k]@.len(),
            forall|k: int, x: int|
                0 <= k < y && 0 <= x < r@[k]@.len() ==> clue_arrow(#[trigger] r@[k]@[x]) == clues@[k]@[x],
        decreases clues@.len() - y,
    {
        let row = &clues[y];
        let mut nr: Vec<Option<(YajilinDirection, i32)>> = Vec::new();
        let mut x: usize = 0;
        while x < row.len()
            invariant
                x <= row@.len(),
                nr@.len() == x,
                forall|t: int| 0 <= t < x ==> clue_arrow(#[trigger] nr@[t]) == row@[t],
            decreases row@.len() - x,
        {
            let c = match row[x] {
                Some((d, n)) => Some((YajilinDirection::from_cspuz_rs(d), n)),
                None => None,
            };
            nr.push(c);
            x += 1;
        }
        r.push(nr);
        y += 1;
    }
    r
}

/// The clues that a cell `(y, x)` of a `height` x `width` board may get
/// while generating a puzzle: none, or an arrow with a number of at most
/// half the cells (rounded up) between the cell and the border it points
/// to.
pub open spec fn arrow_candidates(a: Arrow, length: int) -> Seq<Option<(Arrow, i32)>> {
    Seq::new(((length + 1) / 2 + 1) as nat, |n: int| Some((a, n as i32)))
}

pub open spec fn clue_candidates_spec(y: int, x: int, height: int, width: int) -> Seq<Option<(Arrow, i32)>> {
    seq![None] + arrow_candidates(Arrow::Up, y) + arrow_candidates(Arrow::Down, height - y - 1)
        + arrow_candidates(Arrow::Left, x) + arrow_candidates(Arrow::Right, width - x - 1)
}

/// The number of cells between cell `(y, x)` of a `height` x `width` board
/// and the border that arrow `a` points to.
pub open spec fn cells_toward(a: Arrow, y: int, x: int, height: int, width: int) -> int {
    match a {
        Arrow::Up => y,
        Arrow::Down => height - 1 - y,
        Arrow::Left => x,
        Arrow::Right => width - 1 - x,
        Arrow::Unspecified => -1,
    }
}

/// A clue that cell `(y, x)` may get: none, or an arrow pointing up, down,
/// left or right with a number from 0 to half (rounded up) the cells
/// between the cell and the border it points to.
pub open spec fn allowed_clue(c: Option<(Arrow, i32)>, y: int, x: int, height: int, width: int) -> bool {
    match c {
        None => true,
        Some((a, n)) => a != Arrow::Unspecified && 0 <= n <= (cells_toward(a, y, x, height, width) + 1) / 2,
    }
}

/// The candidates for cell `(y, x)` are exactly the allowed clues, each once,
/// the empty clue first.
pub proof fn lemma_clue_candidates(y: int, x: int, height: int, width: int)
    requires
        0 <= y < height < 0x7fff_ffff,
        0 <= x < width < 0x7fff_ffff,
    ensures
        clue_candidates_spec(y, x, height, width)[0] == None::<(Arrow, i32)>,
        forall|c: Option<(Arrow, i32)>| #[trigger] clue_candidates_spec(y, x, height, width).contains(c)
            <==> allowed_clue(c, y, x, height, width),
        clue_candidates_spec(y, x, height, width).no_duplicates(),
{
    let s = clue_candidates_spec(y, x, height, width);
    let up = arrow_candidates(Arrow::Up, y);
    let down = arrow_candidates(Arrow::Down, height - y - 1);
    let left = arrow_candidates(Arrow::Left, x);
    let right = arrow_candidates(Arrow::Right, width - x - 1);
    let o1 = 1 + up.len();
    let o2 = o1 + down.len();
    let o3 = o2 + left.len();
    assert forall|k: int| 0 <= k < s.len() implies allowed_clue(#[trigger] s[k], y, x, height, width)
        && (k == 0 <==> s[k] is None)
        && (s[k] matches Some((a, n)) ==> k == (match a {
            Arrow::Up => 1,
            Arrow::Down => o1,
            Arrow::Left => o2,
            _ => o3,
        }) + n) by {
        if k >= o3 {
            assert(s[k] == right[k - o3]);
        } else if k >= o2 {
            assert(s[k] == left[k - o2]);
        } else if k >= o1 {
            assert(s[k] == down[k - o1]);
        } else if k >= 1 {
            assert(s[k] == up[k - 1]);
        }
    }
    assert forall|c: Option<(Arrow, i32)>| #[trigger] s.contains(c)
        <==> allowed_clue(c, y, x, height, width) by {
        if allowed_clue(c, y, x, height, width) {
            match c {
                None => {
                    assert(s[0] == c);
                },
                Some((a, n)) => {
                    if a == Arrow::Up {
                        assert(s[1 + n] == c);
                    } else if a == Arrow::Down {
                        assert(s[o1 + n] == c);
                    } else if a == Arrow::Left {
                        assert(s[o2 + n] == c);
                    } else {
                        assert(s[o3 + n] == c);
                    }
                },
            }
        }
    }
    assert forall|i: int, j: int| 0 <= i < s.len() && 0 <= j < s.len() && i != j implies s[i] != s[j] by {
        assert(allowed_clue(s[i], y, x, height, width));
        assert(allowed_clue(s[j], y, x, height, width));
    }
}

fn push_arrow_candidates(out: &mut Vec<Option<(Arrow, i32)>>, a: Arrow, length: usize)
    requires
        length < 0x7fff_ffff,
    ensures
        final(out)@ == old(out)@ + arrow_candidates(a, length as int),
{
    let top = (length + 1) / 2;
    let ghost start = old(out)@;
    let mut n: usize = 0;
    while n <= top
        invariant
            top == (length + 1) / 2,
            top < 0x7fff_ffff,
            n <= top + 1,
            out@ == start + arrow_candidates(a, length as int).subrange(0, n as int),
        decreases top + 1 - n,
    {
        out.push(Some((a, n as i32)));
        n += 1;
        assert(arrow_candidates(a, length as int).subrange(0, n as int) =~= arrow_candidates(a, length as int).subrange(0, (n - 1) as int).push(Some((a, (n - 1) as i32))));
    }
    assert(arrow_candidates(a, length as int).subrange(0, n as int) =~= arrow_candidates(a, length as int));
}

pub fn clue_candidates(y: usize, x: usize, height: usize, width: usize) -> (r: Vec<Option<(Arrow, i32)>>)
    requires
        y < height < 0x7fff_ffff,
        x < width < 0x7fff_ffff,
    ensures
        r@ == clue_candidates_spec(y as int, x as int, height as int, width as int),
        r@[0] == None::<(Arrow, i32)>,
        forall|c: Option<(Arrow, i32)>| #[trigger] r@.contains(c) <==> allowed_clue(c, y as int, x as int, height as int, width as int),
        r@.no_duplicates(),
{
    proof {
        lemma_clue_candidates(y as int, x as int, height as int, width as int);
    }
    let mut candidates: Vec<Option<(Arrow, i32)>> = Vec::new();
    candidates.push(None);
    push_arrow_candidates(&mut candidates, Arrow::Up, y);
    push_arrow_candidates(&mut candidates, Arrow::Down, height - y - 1);
    push_arrow_candidates(&mut candidates, Arrow::Left, x);
    push_arrow_candidates(&mut candidates, Arrow::Right, width - x - 1);
    assert(candidates@ =~= clue_candidates_spec(y as int, x as int, height as int, width as int));
    candidates
}

} // verus!
