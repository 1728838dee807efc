//! The connectivity data model: a 4-bit mask per cell (bit set = open
//! passage), the hex code serialization, and the glyph table for rendering.

use vstd::prelude::*;
use crate::grid::{Direction, Grid, MazeError};

verus! {

/// Whether mask `m` has the passage toward `d` open.
pub open spec fn has_bit(m: u8, d: Direction) -> bool {
    m & d.bit() != 0
}

/// Mutual consistency of a mask mapping: every open bit points to an
/// in-bounds neighbor whose mask has the bit back toward it set.
pub open spec fn sym_ok(masks: Seq<u8>, g: Grid) -> bool {
    forall|i: int, d: Direction|
        0 <= i < masks.len() && #[trigger] has_bit(masks[i], d) ==> {
            &&& g.can_step(i, d)
            &&& 0 <= g.step(i, d) < masks.len()
            &&& has_bit(masks[g.step(i, d)], d.opposite_spec())
        }
}

/// A maze: a total mapping from cell index to connectivity mask.
#[derive(Debug)]
pub struct Maze {
    pub grid: Grid,
    pub masks: Vec<u8>,
}

impl Maze {
    pub open spec fn wf(self) -> bool {
        &&& self.grid.wf()
        &&& self.masks@.len() == self.grid.area()
        &&& forall|i: int| 0 <= i < self.masks@.len() ==> self.masks@[i] < 16
    }

    pub fn mask_at(&self, i: usize) -> (r: u8)
        requires
            self.wf(),
            i < self.grid.area(),
        ensures
            r == self.masks@[i as int],
    {
        self.masks[i]
    }

    /// Whether the passage toward `d` is open at cell `i`.
    pub fn is_open(&self, i: usize, d: Direction) -> (r: bool)
        requires
            self.wf(),
            i < self.grid.area(),
        ensures
            r == has_bit(self.masks@[i as int], d),
    {
        self.masks[i] & d.bit_for() != 0
    }

    /// Decodes a hex code, one digit per cell in index order; digits past
    /// `area` are ignored and cells past the code keep mask 0. Rejected
    /// only when a byte is not a lowercase hex digit.
    pub fn decode(grid: Grid, code: &Vec<u8>) -> (r: Result<Maze, MazeError>)
        requires
            grid.wf(),
        ensures
            match r {
                Ok(m) => {
                    &&& code_wf(code@)
                    &&& m.wf()
                    &&& m.grid == grid
                    &&& m.masks@ == decoded_masks(code@, grid.area() as nat)
                },
                Err(e) => e == MazeError::InvalidHexDigit && !code_wf(code@),
            },
    {
        let n = code.len();
        let mut k: usize = 0;
        while k < n
            invariant
                n == code@.len(),
                k <= n,
                forall|j: int| 0 <= j < k ==> is_hex_digit(code@[j]),
            decreases n - k,
        {
            let b = code[k];
            if !(48 <= b && b <= 57 || 97 <= b && b <= 102) {
                return Err(MazeError::InvalidHexDigit);
            }
            k = k + 1;
        }
        let area = grid.area_exec();
        let mut masks: Vec<u8> = Vec::new();
        let mut i: usize = 0;
        while i < area
            invariant
                grid.wf(),
                area == grid.area(),
                n == code@.len(),
                code_wf(code@),
                i <= area,
                masks@.len() == i,
                forall|j: int|
                    0 <= j < i ==> masks@[j] == (if j < code@.len() {
                        hex_val(code@[j])
                    } else {
                        0u8
                    }),
                forall|j: int| 0 <= j < i ==> masks@[j] < 16,
            decreases area - i,
        {
            if i < n {
                let b = code[i];
                proof {
                    lemma_hex_char_inverse(b);
                }
                masks.push(if b <= 57 {
                    b - 48
                } else {
                    b - 87
                });
            } else {
                masks.push(0);
            }
            i = i + 1;
        }
        proof {
            assert(masks@ =~= decoded_masks(code@, grid.area() as nat));
        }
        Ok(Maze { grid, masks })
    }

    /// Encodes the maze as one hex digit per cell in index order; total.
    pub fn encode(&self) -> (r: Vec<u8>)
        requires
            self.wf(),
        ensures
            r@ == encoded(self.masks@),
    {
        let n = self.masks.len();
        let mut out: Vec<u8> = Vec::new();
        let mut i: usize = 0;
        while i < n
            invariant
                self.wf(),
                n == self.masks@.len(),
                i <= n,
                out@.len() == i,
                forall|j: int| 0 <= j < i ==> out@[j] == hex_chr(self.masks@[j]),
            decreases n - i,
        {
            let m = self.masks[i];
            out.push(if m < 10 {
                m + 48
            } else {
                m + 87
            });
            i = i + 1;
        }
        proof {
            assert(out@ =~= encoded(self.masks@));
        }
        out
    }
}

/// Lowercase hex digit, `'0'..'9'` or `'a'..'f'` as a byte.
pub open spec fn is_hex_digit(b: u8) -> bool {
    (48 <= b && b <= 57) || (97 <= b && b <= 102)
}

/// The mask value of a hex digit byte.
pub open spec fn hex_val(b: u8) -> u8 {
    if 48 <= b && b <= 57 {
        (b - 48) as u8
    } else if 97 <= b && b <= 102 {
        (b - 87) as u8
    } else {
        0
    }
}

/// The hex digit byte of a mask value below 16.
pub open spec fn hex_chr(m: u8) -> u8 {
    if m < 10 {
        (m + 48) as u8
    } else {
        (m + 87) as u8
    }
}

/// Every byte of the code is a lowercase hex digit.
pub open spec fn code_wf(code: Seq<u8>) -> bool {
    forall|i: int| 0 <= i < code.len() ==> is_hex_digit(code[i])
}

/// The masks decoded from a code for a grid of `area` cells: digit `i`
/// for cells the code covers, mask 0 for the rest.
pub open spec fn decoded_masks(code: Seq<u8>, area: nat) -> Seq<u8> {
    Seq::new(area, |i: int| if i < code.len() {
        hex_val(code[i])
    } else {
        0u8
    })
}

/// The hex code of a mask sequence, one digit per cell.
pub open spec fn encoded(masks: Seq<u8>) -> Seq<u8> {
    masks.map_values(|m: u8| hex_chr(m))
}

pub proof fn lemma_hex_inverse(m: u8)
    requires
        m < 16,
    ensures
        is_hex_digit(hex_chr(m)),
        hex_val(hex_chr(m)) == m,
{
}

pub proof fn lemma_hex_char_inverse(b: u8)
    requires
        is_hex_digit(b),
    ensures
        hex_val(b) < 16,
        hex_chr(hex_val(b)) == b,
{
}

/// Round trip: decoding the code of a mask mapping of any size restores
/// the mapping exactly.
pub proof fn lemma_decode_encode(masks: Seq<u8>)
    requires
        forall|i: int| 0 <= i < masks.len() ==> masks[i] < 16,
    ensures
        decoded_masks(encoded(masks), masks.len()) == masks,
{
    let e = encoded(masks);
    assert forall|i: int| 0 <= i < masks.len() implies decoded_masks(e, masks.len())[i]
        == masks[i] by {
        lemma_hex_inverse(masks[i]);
    }
    assert(decoded_masks(e, masks.len()) =~= masks);
}

/// Round trip at the maze level: decoding a well-formed maze's own code
/// over its grid restores its masks exactly.
pub proof fn lemma_maze_round_trip(m: Maze)
    requires
        m.wf(),
    ensures
        decoded_masks(encoded(m.masks@), m.grid.area() as nat) == m.masks@,
{
    lemma_decode_encode(m.masks@);
}

/// Round trip: encoding the masks decoded from a well-formed code of
/// exactly `area` digits reproduces the code exactly.
pub proof fn lemma_encode_decode(code: Seq<u8>, area: nat)
    requires
        code_wf(code),
        code.len() == area,
    ensures
        encoded(decoded_masks(code, area)) == code,
{
    let m = decoded_masks(code, area);
    assert forall|i: int| 0 <= i < code.len() implies encoded(m)[i] == code[i] by {
        lemma_hex_char_inverse(code[i]);
    }
    assert(encoded(m) =~= code);
}

/// The fixed mask-to-glyph table: blank for 0, stubs and straights,
/// corners, T-junctions, and the 4-way cross for 15.
pub open spec fn glyph_of(m: u8) -> char {
    if m == 0 {
        ' '
    } else if m == 1 {
        '\u{2551}'
    } else if m == 2 {
        '\u{255a}'
    } else if m == 3 {
        '\u{2551}'
    } else if m == 4 {
        '\u{255a}'
    } else if m == 5 {
        '\u{2554}'
    } else if m == 6 {
        '\u{255a}'
    } else if m == 7 {
        '\u{2560}'
    } else if m == 8 {
        '\u{255d}'
    } else if m == 9 {
        '\u{2557}'
    } else if m == 10 {
        '\u{255d}'
    } else if m == 11 {
        '\u{2563}'
    } else if m == 12 {
        '\u{2550}'
    } else if m == 13 {
        '\u{2566}'
    } else if m == 14 {
        '\u{2569}'
    } else {
        '\u{256c}'
    }
}

/// The box-drawing glyph for a mask, per the fixed table.
pub fn glyph(m: u8) -> (r: char)
    requires
        m < 16,
    ensures
        r == glyph_of(m),
{
    match m {
        0 => ' ',
        1 => '\u{2551}',
        2 => '\u{255a}',
        3 => '\u{2551}',
        4 => '\u{255a}',
        5 => '\u{2554}',
        6 => '\u{255a}',
        7 => '\u{2560}',
        8 => '\u{255d}',
        9 => '\u{2557}',
        10 => '\u{255d}',
        11 => '\u{2563}',
        12 => '\u{2550}',
        13 => '\u{2566}',
        14 => '\u{2569}',
        _ => '\u{256c}',
    }
}

pub proof fn lemma_or_bits(m: u8, b: u8, c: u8)
    by (bit_vector)
    requires
        m < 16,
        b == 1 || b == 2 || b == 4 || b == 8,
        c == 1 || c == 2 || c == 4 || c == 8,
    ensures
        (m | b) < 16,
        ((m | b) & c != 0) == ((m & c != 0) || b == c),
{
}

pub proof fn lemma_zero_bits(c: u8)
    by (bit_vector)
    requires
        c == 1 || c == 2 || c == 4 || c == 8,
    ensures
        (0u8 & c) == 0,
        (15u8 & c) != 0,
{
}

pub proof fn lemma_dir_bits(d: Direction, c: Direction)
    ensures
        d.bit() == 1 || d.bit() == 2 || d.bit() == 4 || d.bit() == 8,
        (d.bit() == c.bit()) <==> d == c,
{
}

/// Setting the bit of `d` keeps the mask a nibble and adds exactly that bit.
pub proof fn lemma_set_bit(m: u8, d: Direction, c: Direction)
    requires
        m < 16,
    ensures
        (m | d.bit()) < 16,
        has_bit(m | d.bit(), c) == (has_bit(m, c) || c == d),
{
    lemma_dir_bits(d, c);
    lemma_or_bits(m, d.bit(), c.bit());
}

pub proof fn lemma_mask_zero_full(c: Direction)
    ensures
        !has_bit(0u8, c),
        has_bit(15u8, c),
{
    lemma_dir_bits(c, c);
    lemma_zero_bits(c.bit());
}



/// One accepted move: from `a` some direction is in bounds, its passage
/// is open, and it lands on `b`.
pub open spec fn step_ok(masks: Seq<u8>, g: Grid, a: int, b: int) -> bool {
    exists|d: Direction|
        0 <= a < masks.len() && #[trigger] g.can_step(a, d) && has_bit(masks[a], d) && b
            == g.step(a, d)
}

/// The cells of `p` form a chain of accepted moves.
pub open spec fn move_seq_ok(masks: Seq<u8>, g: Grid, p: Seq<int>) -> bool {
    forall|k: int| 0 <= k < p.len() - 1 ==> #[trigger] step_ok(masks, g, p[k], p[k + 1])
}

/// Cell `b` can be reached from cell `a` by finitely many accepted moves.
pub open spec fn reaches(masks: Seq<u8>, g: Grid, a: int, b: int) -> bool {
    exists|p: Seq<int>|
        p.len() >= 1 && p.first() == a && p.last() == b && #[trigger] move_seq_ok(masks, g, p)
}

pub proof fn lemma_reaches_refl(masks: Seq<u8>, g: Grid, a: int)
    requires
        0 <= a < masks.len(),
    ensures
        reaches(masks, g, a, a),
{
    let p = seq![a];
    assert(move_seq_ok(masks, g, p));
    assert(p.len() >= 1 && p.first() == a && p.last() == a);
}

pub proof fn lemma_reaches_step(masks: Seq<u8>, g: Grid, a: int, d: Direction)
    requires
        0 <= a < masks.len(),
        g.can_step(a, d),
        has_bit(masks[a], d),
    ensures
        reaches(masks, g, a, g.step(a, d)),
{
    let b = g.step(a, d);
    let p = seq![a, b];
    assert(step_ok(masks, g, a, b));
    assert forall|k: int| 0 <= k < p.len() - 1 implies #[trigger] step_ok(masks, g, p[k], p[k + 1]) by {
        assert(k == 0);
        assert(p[0] == a && p[1] == b);
    }
    assert(move_seq_ok(masks, g, p));
    assert(p.len() >= 1 && p.first() == a && p.last() == b);
}

/// Chains of accepted moves concatenate.
pub proof fn lemma_reaches_trans(masks: Seq<u8>, g: Grid, a: int, b: int, c: int)
    requires
        reaches(masks, g, a, b),
        reaches(masks, g, b, c),
    ensures
        reaches(masks, g, a, c),
{
    let p1 = choose|p: Seq<int>|
        p.len() >= 1 && p.first() == a && p.last() == b && #[trigger] move_seq_ok(masks, g, p);
    let p2 = choose|p: Seq<int>|
        p.len() >= 1 && p.first() == b && p.last() == c && #[trigger] move_seq_ok(masks, g, p);
    let q = p1 + p2.subrange(1, p2.len() as int);
    assert(q.len() == p1.len() + p2.len() - 1);
    assert(q.first() == a);
    if p2.len() == 1 {
        assert(q =~= p1);
        assert(q.last() == c);
    } else {
        assert(q.last() == p2[p2.len() - 1]);
    }
    assert forall|k: int| 0 <= k < q.len() - 1 implies #[trigger] step_ok(masks, g, q[k], q[k + 1]) by {
        if k < p1.len() - 1 {
            assert(q[k] == p1[k] && q[k + 1] == p1[k + 1]);
            assert(step_ok(masks, g, p1[k], p1[k + 1]));
        } else if k == p1.len() - 1 {
            assert(q[k] == p1[p1.len() - 1] && q[k + 1] == p2[1]);
            assert(step_ok(masks, g, p2[0], p2[1]));
        } else {
            let k2 = k - p1.len() + 1;
            assert(q[k] == p2[k2] && q[k + 1] == p2[k2 + 1]);
            assert(step_ok(masks, g, p2[k2], p2[k2 + 1]));
        }
    }
    assert(move_seq_ok(masks, g, q));
    assert(q.len() >= 1 && q.first() == a && q.last() == c);
}

/// Opening more passages never breaks an existing chain of moves.
pub proof fn lemma_reaches_widen(m0: Seq<u8>, m2: Seq<u8>, g: Grid, a: int, b: int)
    requires
        reaches(m0, g, a, b),
        m2.len() == m0.len(),
        forall|i: int, c: Direction|
            0 <= i < m0.len() && #[trigger] has_bit(m0[i], c) ==> has_bit(m2[i], c),
    ensures
        reaches(m2, g, a, b),
{
    let p = choose|p: Seq<int>|
        p.len() >= 1 && p.first() == a && p.last() == b && #[trigger] move_seq_ok(m0, g, p);
    assert forall|k: int| 0 <= k < p.len() - 1 implies #[trigger] step_ok(m2, g, p[k], p[k + 1]) by {
        assert(step_ok(m0, g, p[k], p[k + 1]));
        let d = choose|d: Direction|
            0 <= p[k] < m0.len() && #[trigger] g.can_step(p[k], d) && has_bit(m0[p[k]], d) && p[k
                + 1] == g.step(p[k], d);
        assert(has_bit(m2[p[k]], d));
    }
    assert(move_seq_ok(m2, g, p));
    assert(p.len() >= 1 && p.first() == a && p.last() == b);
}

/// One link of a chain of accepted moves.
pub proof fn lemma_move_seq_index(masks: Seq<u8>, g: Grid, p: Seq<int>, k: int)
    requires
        move_seq_ok(masks, g, p),
        0 <= k < p.len() - 1,
    ensures
        step_ok(masks, g, p[k], p[k + 1]),
{
}

/// A cell from which a different cell can be reached is not isolated.
pub proof fn lemma_reaching_cell_open(masks: Seq<u8>, g: Grid, a: int, b: int)
    requires
        reaches(masks, g, a, b),
        a != b,
    ensures
        0 <= a < masks.len(),
        masks[a] != 0,
{
    let p = choose|p: Seq<int>|
        p.len() >= 1 && p.first() == a && p.last() == b && #[trigger] move_seq_ok(masks, g, p);
    assert(p.len() >= 2);
    lemma_move_seq_index(masks, g, p, 0);
    assert(step_ok(masks, g, p[0], p[1]));
    let d = choose|d: Direction|
        0 <= p[0] < masks.len() && #[trigger] g.can_step(p[0], d) && has_bit(masks[p[0]], d) && p[1]
            == g.step(p[0], d);
    lemma_mask_zero_full(d);
}


/// How many of the four direction bits are set in a mask.
pub open spec fn nibble_bits(m: u8) -> int {
    (if has_bit(m, Direction::Left) { 1int } else { 0int })
    + (if has_bit(m, Direction::Right) { 1int } else { 0int })
    + (if has_bit(m, Direction::Up) { 1int } else { 0int })
    + (if has_bit(m, Direction::Down) { 1int } else { 0int })
}

/// The total number of set bits over all cells: twice the number of
/// bidirectional edges when the masks are mutually symmetric.
pub open spec fn total_bits(masks: Seq<u8>) -> int
    decreases masks.len(),
{
    if masks.len() == 0 {
        0
    } else {
        total_bits(masks.drop_last()) + nibble_bits(masks.last())
    }
}

pub proof fn lemma_nibble_zero()
    ensures
        nibble_bits(0) == 0,
{
    lemma_mask_zero_full(Direction::Left);
    lemma_mask_zero_full(Direction::Right);
    lemma_mask_zero_full(Direction::Up);
    lemma_mask_zero_full(Direction::Down);
}

/// Setting one absent bit raises the bit count by exactly one.
pub proof fn lemma_nibble_or(m: u8, d: Direction)
    requires
        m < 16,
        !has_bit(m, d),
    ensures
        nibble_bits(m | d.bit()) == nibble_bits(m) + 1,
{
    lemma_set_bit(m, d, Direction::Left);
    lemma_set_bit(m, d, Direction::Right);
    lemma_set_bit(m, d, Direction::Up);
    lemma_set_bit(m, d, Direction::Down);
}

pub proof fn lemma_total_bits_push(masks: Seq<u8>, v: u8)
    ensures
        total_bits(masks.push(v)) == total_bits(masks) + nibble_bits(v),
{
    assert(masks.push(v).drop_last() =~= masks);
}

pub proof fn lemma_total_bits_update(masks: Seq<u8>, i: int, v: u8)
    requires
        0 <= i < masks.len(),
    ensures
        total_bits(masks.update(i, v)) == total_bits(masks) - nibble_bits(masks[i])
            + nibble_bits(v),
    decreases masks.len(),
{
    if i == masks.len() - 1 {
        assert(masks.update(i, v).drop_last() =~= masks.drop_last());
    } else {
        assert(masks.update(i, v).drop_last() =~= masks.drop_last().update(i, v));
        lemma_total_bits_update(masks.drop_last(), i, v);
    }
}

} // verus!
