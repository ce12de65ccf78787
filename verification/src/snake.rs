//! The shape model: an ordered point sequence (tail first, head last), a
//! direction, a block size and a color, together with the movement,
//! growth and steering operations and the laws they obey.

use vstd::prelude::*;
use vstd::string::StrSliceExecFns;

verus! {

/// Mathematical model of a [`Snake`]: the same fields over unbounded integers
/// and sequences, so contracts and laws can be stated without machine limits.
#[verifier::ext_equal]
pub ghost struct SnakeView {
    pub direction: (int, int),
    pub points: Seq<(int, int)>,
    pub size: int,
    pub color: Seq<char>,
}

/// A direction is one of the five deltas the client knows: still, right,
/// left, up or down.
pub open spec fn direction_ok(d: (int, int)) -> bool {
    ||| d == (0int, 0int)
    ||| d == (1int, 0int)
    ||| d == (-1int, 0int)
    ||| d == (0int, -1int)
    ||| d == (0int, 1int)
}

/// A color is six hexadecimal digit characters, as the wire format carries it.
pub open spec fn color_ok(c: Seq<char>) -> bool {
    c.len() == 6 && (forall|i: int| 0 <= i < c.len() ==> is_hex_char(#[trigger] c[i]))
}

/// Hexadecimal digit characters by code point: `0`-`9` (48-57),
/// `A`-`F` (65-70), `a`-`f` (97-102).
pub open spec fn is_hex_char(c: char) -> bool {
    ||| (48 <= c as int && c as int <= 57)
    ||| (65 <= c as int && c as int <= 70)
    ||| (97 <= c as int && c as int <= 102)
}

/// Well-formedness of a shape: non-empty body, a known direction, a
/// non-negative block size and a six-hex-digit color.
pub open spec fn wf(s: SnakeView) -> bool {
    &&& s.points.len() > 0
    &&& direction_ok(s.direction)
    &&& s.size >= 0
    &&& color_ok(s.color)
}

/// The head, or the origin for an empty body.
pub open spec fn head_spec(s: SnakeView) -> (int, int) {
    if s.points.len() == 0 {
        (0int, 0int)
    } else {
        s.points.last()
    }
}

/// Where the head would be after one step in the current direction.
pub open spec fn next_head_spec(s: SnakeView) -> (int, int) {
    (head_spec(s).0 + s.direction.0, head_spec(s).1 + s.direction.1)
}

/// Advancing: append the next head, drop the oldest tail point.  A zero
/// direction is a true no-op; without the guard it would shed the tail while
/// the head stands still, which is treated here as unintended.
pub open spec fn run_spec(s: SnakeView) -> SnakeView {
    if s.direction == (0int, 0int) {
        s
    } else {
        SnakeView { points: s.points.subrange(1, s.points.len() as int).push(next_head_spec(s)), ..s }
    }
}

/// Growing: prepend one point one step behind the current tail, along the
/// current direction.  The current direction is used even though the tail may
/// have been laid down under an older one; that approximation is deliberate.
pub open spec fn add_tail_spec(s: SnakeView) -> SnakeView {
    SnakeView {
        points: seq![(s.points[0].0 - s.direction.0, s.points[0].1 - s.direction.1)] + s.points,
        ..s
    }
}

/// Steering: replace the direction, touch nothing else.
pub open spec fn set_direction_spec(s: SnakeView, d: (int, int)) -> SnakeView {
    SnakeView { direction: d, ..s }
}

/// One received input byte applied to the shape: `w`/`s`/`a`/`d` steer,
/// every other byte leaves the shape unchanged.
pub open spec fn apply_input_spec(s: SnakeView, byte: u8) -> SnakeView {
    if byte == 119 {  // 'w'
        set_direction_spec(s, (0int, -1int))
    } else if byte == 115 {  // 's'
        set_direction_spec(s, (0int, 1int))
    } else if byte == 97 {  // 'a'
        set_direction_spec(s, (-1int, 0int))
    } else if byte == 100 {  // 'd'
        set_direction_spec(s, (1int, 0int))
    } else {
        s
    }
}

/// One movement step, decided by the color found ahead of the head: the
/// food color makes the shape grow first; in every case it then advances.
pub open spec fn step_spec(s: SnakeView, color: Seq<char>) -> SnakeView {
    if color == crate::codec::food_color_spec() {
        run_spec(add_tail_spec(s))
    } else {
        run_spec(s)
    }
}

/// The moving shape: body segments from tail (index 0) to head (last),
/// a direction delta, the rendered block edge length and the draw color.
pub struct Snake {
    pub direction: (i32, i32),
    pub points: Vec<(i32, i32)>,
    pub size: i32,
    pub color: String,
}

impl View for Snake {
    type V = SnakeView;

    open spec fn view(&self) -> SnakeView {
        SnakeView {
            direction: (self.direction.0 as int, self.direction.1 as int),
            points: self.points@.map_values(|p: (i32, i32)| (p.0 as int, p.1 as int)),
            size: self.size as int,
            color: self.color@,
        }
    }
}

impl Snake {
    /// The head point, or the origin if the body is empty.
    pub fn head(&self) -> (r: (i32, i32))
        ensures
            (r.0 as int, r.1 as int) == head_spec(self@),
    {
        match self.points.last() {
            Some(p) => *p,
            None => (0, 0),
        }
    }

    /// The point one step ahead of the head, along the current direction.
    /// Pure: takes the shape by shared reference and mutates nothing.
    pub fn next(&self) -> (r: (i32, i32))
        requires
            i32::MIN <= next_head_spec(self@).0 <= i32::MAX,
            i32::MIN <= next_head_spec(self@).1 <= i32::MAX,
        ensures
            (r.0 as int, r.1 as int) == next_head_spec(self@),
    {
        let (head_x, head_y) = self.head();
        (head_x + self.direction.0, head_y + self.direction.1)
    }

    /// Steer right: direction becomes `(1, 0)`.
    pub fn right(&mut self)
        ensures
            final(self)@ == set_direction_spec(old(self)@, (1int, 0int)),
    {
        self.direction = (1, 0);
        proof {
            assert(self@ =~= set_direction_spec(old(self)@, (1int, 0int)));
        }
    }

    /// Steer left: direction becomes `(-1, 0)`.
    pub fn left(&mut self)
        ensures
            final(self)@ == set_direction_spec(old(self)@, (-1int, 0int)),
    {
        self.direction = (-1, 0);
        proof {
            assert(self@ =~= set_direction_spec(old(self)@, (-1int, 0int)));
        }
    }

    /// Steer up: direction becomes `(0, -1)`.
    pub fn up(&mut self)
        ensures
            final(self)@ == set_direction_spec(old(self)@, (0int, -1int)),
    {
        self.direction = (0, -1);
        proof {
            assert(self@ =~= set_direction_spec(old(self)@, (0int, -1int)));
        }
    }

    /// Steer down: direction becomes `(0, 1)`.
    pub fn down(&mut self)
        ensures
            final(self)@ == set_direction_spec(old(self)@, (0int, 1int)),
    {
        self.direction = (0, 1);
        proof {
            assert(self@ =~= set_direction_spec(old(self)@, (0int, 1int)));
        }
    }

    /// Advance one step: append the next head, shed the oldest tail point.
    /// With a zero direction the shape is left untouched.
    pub fn run(&mut self)
        requires
            wf(old(self)@),
            old(self)@.direction != (0int, 0int) ==> i32::MIN <= next_head_spec(old(self)@).0
                <= i32::MAX && i32::MIN <= next_head_spec(old(self)@).1 <= i32::MAX,
        ensures
            final(self)@ == run_spec(old(self)@),
            wf(final(self)@),
    {
        if self.direction.0 != 0 || self.direction.1 != 0 {
            let snake_head = self.next();
            self.points.push(snake_head);
            self.points.remove(0);
            proof {
                assert(self@.points =~= run_spec(old(self)@).points);
                assert(self@ =~= run_spec(old(self)@));
            }
        } else {
            proof {
                assert(self@ =~= run_spec(old(self)@));
            }
        }
    }

    /// Grow by one: prepend a point one step behind the current tail, along
    /// the current direction.
    pub fn add_tail(&mut self)
        requires
            wf(old(self)@),
            i32::MIN <= old(self)@.points[0].0 - old(self)@.direction.0 <= i32::MAX,
            i32::MIN <= old(self)@.points[0].1 - old(self)@.direction.1 <= i32::MAX,
        ensures
            final(self)@ == add_tail_spec(old(self)@),
            wf(final(self)@),
    {
        let l = self.points[0];
        let tail = (l.0 - self.direction.0, l.1 - self.direction.1);
        self.points.insert(0, tail);
        proof {
            assert(self@.points =~= add_tail_spec(old(self)@).points);
            assert(self@ =~= add_tail_spec(old(self)@));
        }
    }

    /// One movement step, given the color the server reported for the pixel
    /// ahead of the head: grow first if it is the food color, then advance.
    pub fn step(&mut self, color: &str)
        requires
            wf(old(self)@),
            old(self)@.direction != (0int, 0int) ==> i32::MIN <= next_head_spec(old(self)@).0
                <= i32::MAX && i32::MIN <= next_head_spec(old(self)@).1 <= i32::MAX,
            color@ == crate::codec::food_color_spec() ==> i32::MIN <= old(self)@.points[0].0 - old(
                self,
            )@.direction.0 <= i32::MAX && i32::MIN <= old(self)@.points[0].1 - old(
                self,
            )@.direction.1 <= i32::MAX,
        ensures
            final(self)@ == step_spec(old(self)@, color@),
            wf(final(self)@),
    {
        let food = crate::codec::food_color();
        if crate::codec::str_eq(color, food.as_str()) {
            self.add_tail();
            proof {
                let grown = add_tail_spec(old(self)@);
                assert(grown.points.last() == old(self)@.points.last());
                assert(next_head_spec(grown) == next_head_spec(old(self)@));
            }
            self.run();
        } else {
            self.run();
        }
    }

    /// Whether advancing is safe: either the direction is zero, or the next
    /// head position stays within coordinate range.  Callers outside the
    /// proof can test this before [`Self::run`] or [`Self::step`].
    pub fn can_advance(&self) -> (r: bool)
        ensures
            r == (self@.direction == (0int, 0int) || (i32::MIN <= next_head_spec(self@).0
                <= i32::MAX && i32::MIN <= next_head_spec(self@).1 <= i32::MAX)),
    {
        if self.direction.0 == 0 && self.direction.1 == 0 {
            return true;
        }
        let (head_x, head_y) = self.head();
        let nx: i64 = head_x as i64 + self.direction.0 as i64;
        let ny: i64 = head_y as i64 + self.direction.1 as i64;
        -2147483648 <= nx && nx <= 2147483647 && -2147483648 <= ny && ny <= 2147483647
    }

    /// Whether growing is safe: the point one step behind the tail stays
    /// within coordinate range.
    pub fn can_grow(&self) -> (r: bool)
        requires
            self@.points.len() > 0,
        ensures
            r == (i32::MIN <= self@.points[0].0 - self@.direction.0 <= i32::MAX && i32::MIN
                <= self@.points[0].1 - self@.direction.1 <= i32::MAX),
    {
        let (tail_x, tail_y) = self.points[0];
        let tx: i64 = tail_x as i64 - self.direction.0 as i64;
        let ty: i64 = tail_y as i64 - self.direction.1 as i64;
        -2147483648 <= tx && tx <= 2147483647 && -2147483648 <= ty && ty <= 2147483647
    }

    /// Whether the shape is well formed; decided at run time so that
    /// unverified callers can check it before relying on it.
    pub fn is_wf(&self) -> (r: bool)
        ensures
            r == wf(self@),
    {
        let dir_ok = (self.direction.0 == 0 && self.direction.1 == 0) || (self.direction.0 == 1
            && self.direction.1 == 0) || (self.direction.0 == -1 && self.direction.1 == 0) || (
        self.direction.0 == 0 && self.direction.1 == -1) || (self.direction.0 == 0
            && self.direction.1 == 1);
        if self.points.len() == 0 || !dir_ok || self.size < 0 {
            return false;
        }
        let cl = self.color.as_str().unicode_len();
        if cl != 6 {
            return false;
        }
        let mut i: usize = 0;
        while i < cl
            invariant
                i <= cl,
                cl as nat == self@.color.len(),
                forall|j: int| 0 <= j < i ==> is_hex_char(#[trigger] self@.color[j]),
            decreases cl - i,
        {
            let c = self.color.as_str().get_char(i);
            let cv = c as u32;
            if !((48 <= cv && cv <= 57) || (65 <= cv && cv <= 70) || (97 <= cv && cv <= 102)) {
                return false;
            }
            i += 1;
        }
        true
    }

    /// Apply one received input byte: `w`/`s`/`a`/`d` steer the shape up,
    /// down, left or right; every other byte is ignored.
    pub fn apply_input(&mut self, byte: u8)
        ensures
            final(self)@ == apply_input_spec(old(self)@, byte),
    {
        let character = byte as char;
        match character {
            'w' => self.up(),
            's' => self.down(),
            'a' => self.left(),
            'd' => self.right(),
            _ => (),
        }
    }
}

/// Advancing preserves the body length, whatever the direction: a non-zero
/// direction trades the oldest tail point for a new head, and a zero
/// direction leaves the shape untouched.
pub proof fn lemma_advance_preserves_len(s: SnakeView)
    requires
        s.points.len() > 0,
    ensures
        run_spec(s).points.len() == s.points.len(),
{
}

/// Growing lengthens the body by exactly one; the new tail point is one step
/// behind the old tail, against the current direction, and every old point
/// keeps its place one index later.
pub proof fn lemma_grow(s: SnakeView)
    requires
        s.points.len() > 0,
    ensures
        add_tail_spec(s).points.len() == s.points.len() + 1,
        add_tail_spec(s).points[0] == ((s.points[0].0 - s.direction.0, s.points[0].1
            - s.direction.1)),
        forall|i: int| 0 <= i < s.points.len() ==> add_tail_spec(s).points[i + 1] == s.points[i],
{
}

/// Steering is last-writer-wins: after two direction changes only the second
/// one is visible, exactly as if it had been the only one.
pub proof fn lemma_steer_last_wins(s: SnakeView, d1: (int, int), d2: (int, int))
    ensures
        set_direction_spec(set_direction_spec(s, d1), d2) == set_direction_spec(s, d2),
{
    assert(set_direction_spec(set_direction_spec(s, d1), d2) =~= set_direction_spec(s, d2));
}

/// Steering is idempotent: setting the same direction twice is the same as
/// setting it once.
pub proof fn lemma_steer_idempotent(s: SnakeView, d: (int, int))
    ensures
        set_direction_spec(set_direction_spec(s, d), d) == set_direction_spec(s, d),
{
    lemma_steer_last_wins(s, d, d);
}

} // verus!
