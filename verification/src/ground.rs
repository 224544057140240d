//! Ground meshes in Wavefront OBJ text.
//!
//! The text is read line by line. A line is split at single spaces. A line
//! whose first word is `v` gives a vertex: its next three words are
//! decimal numbers. A line whose first word is `f` gives a triangle: each of
//! its next three words holds the number of a vertex, counted from one.
//! Every other line is passed over.

use vstd::prelude::*;
use vstd::slice::*;
use vstd::string::StringSliceAdditionalSpecFns;
use vstd::utf8::valid_utf8;
use crate::fixed::{spec_clamp, spec_max, spec_min, COORD_MAX};
use crate::vector::Vector3;

verus! {

/// Digits are summed up to this and no further: it lies beyond every
/// number that is let through.
pub const DIGITS_CAP: u128 = 10_000_000_000_000;

/// Exponents are summed up to this and no further: it lies beyond the
/// number of digits of any text.
pub const PLACES_CAP: u128 = 1_000_000_000_000_000_000_000_000_000_000;

/// Why a text is no mesh.
#[derive(Clone, Copy, PartialEq, Eq, Debug, Structural)]
pub enum ObjError {
    /// The bytes are not UTF-8 text.
    NotText,
    /// A vertex line ends before its third number.
    MissingNumber,
    /// A word of a vertex line is no decimal number, or one beyond the edge
    /// of the world.
    BadNumber,
    /// A triangle line ends before its third vertex.
    MissingIndex,
    /// A word of a triangle line does not hold the number of a vertex.
    BadIndex,
}

/// A triangle: the numbers of its three vertices, counted from zero.
#[derive(Clone, Copy, PartialEq, Eq, Debug, Structural)]
pub struct Face {
    pub a: usize,
    pub b: usize,
    pub c: usize,
}

/// What a mesh holds.
pub struct MeshView {
    pub vertices: Seq<Vector3>,
    pub faces: Seq<Face>,
}

/// A mesh of triangles.
pub struct GroundMesh {
    pub vertices: Vec<Vector3>,
    pub faces: Vec<Face>,
}

impl View for GroundMesh {
    type V = MeshView;

    open spec fn view(&self) -> MeshView {
        MeshView { vertices: self.vertices@, faces: self.faces@ }
    }
}

/// The first place from `from` on, before `end`, where `sep` stands; `end`
/// if it stands nowhere.
pub open spec fn find(data: Seq<u8>, from: int, end: int, sep: u8) -> int
    decreases end - from,
{
    if from >= end {
        end
    } else if data[from] == sep {
        from
    } else {
        find(data, from + 1, end, sep)
    }
}

/// The first place from `from` on, before `end`, where an `e` or an `E`
/// stands; `end` if none stands anywhere.
pub open spec fn find_exponent(data: Seq<u8>, from: int, end: int) -> int
    decreases end - from,
{
    if from >= end {
        end
    } else if data[from] == 101 || data[from] == 69 {
        from
    } else {
        find_exponent(data, from + 1, end)
    }
}

/// The byte is one of the digits `0` to `9`.
pub open spec fn is_digit(b: u8) -> bool {
    48 <= b <= 57
}

/// Nothing but digits stands from `from` up to `to`.
pub open spec fn all_digits(data: Seq<u8>, from: int, to: int) -> bool {
    forall|i: int| from <= i < to ==> is_digit(#[trigger] data[i])
}

/// The number that the digits from `from` up to `to` write.
pub open spec fn digits_value(data: Seq<u8>, from: int, to: int) -> int
    decreases to - from,
{
    if from >= to {
        0
    } else {
        digits_value(data, from, to - 1) * 10 + (data[to - 1] - 48)
    }
}

/// Ten to the power of `n`.
pub open spec fn pow10(n: nat) -> nat
    decreases n,
{
    if n == 0 {
        1
    } else {
        10 * pow10((n - 1) as nat)
    }
}

/// The exponent that stands from `mark` up to `to`: nought where nothing
/// stands there, else an `e`, a sign or none, and digits, at least one.
pub open spec fn exponent(data: Seq<u8>, mark: int, to: int) -> Option<int> {
    if mark >= to {
        Some(0int)
    } else {
        let signed = mark + 1 < to && (data[mark + 1] == 45 || data[mark + 1] == 43);
        let first = if signed {
            mark + 2
        } else {
            mark + 1
        };
        if first < to && all_digits(data, first, to) {
            if data[mark + 1] == 45 {
                Some(-digits_value(data, first, to))
            } else {
                Some(digits_value(data, first, to))
            }
        } else {
            None
        }
    }
}

/// The whole number that the digits before and after a decimal point
/// write once the point has been moved `places` to the right (to the left
/// where `places` is negative), and what then stands after it is dropped.
/// The digits before the point stand from `start` up to `dot`, those after
/// it from `after` up to `mark`.
pub open spec fn shifted(data: Seq<u8>, start: int, dot: int, after: int, mark: int, places: int) -> int {
    if places >= 0 {
        let used = spec_min(places, mark - after);
        digits_value(data, start, dot) * pow10(places as nat) + digits_value(
            data,
            after,
            after + used,
        ) * pow10((places - used) as nat)
    } else {
        digits_value(data, start, spec_max(start, dot + places))
    }
}

/// The decimal number that stands from `from` up to `to`, in millionths,
/// rounded toward nought: a sign or none; digits, and a point with more
/// digits or none, with a digit on at least one side of the point; and an
/// exponent or none. A number beyond the edge of the world is none, and
/// so is every word that names no number, infinity and not-a-number among
/// them.
#[verifier::opaque]
pub open spec fn number(data: Seq<u8>, from: int, to: int) -> Option<int> {
    let signed = from < to && (data[from] == 45 || data[from] == 43);
    let start = if signed {
        from + 1
    } else {
        from
    };
    let mark = find_exponent(data, start, to);
    let dot = find(data, start, mark, 46);
    let after = if dot < mark {
        dot + 1
    } else {
        mark
    };
    let places = exponent(data, mark, to);
    if all_digits(data, start, dot) && all_digits(data, after, mark) && (dot - start) + (mark
        - after) > 0 && places.is_some() && shifted(data, start, dot, after, mark, 6 + places.unwrap())
        <= COORD_MAX {
        let size = shifted(data, start, dot, after, mark, 6 + places.unwrap());
        if from < to && data[from] == 45 {
            Some(-size)
        } else {
            Some(size)
        }
    } else {
        None
    }
}

/// The number of the vertex that a word from `from` up to `to` holds,
/// counted from zero. The number is written with a `+` before it or none,
/// and runs from one up to the largest of thirty-two bits. Where `split`
/// is set the number is what stands before the first `/`; where it is not,
/// the number is the whole word.
#[verifier::opaque]
pub open spec fn index(data: Seq<u8>, from: int, to: int, split: bool) -> Option<int> {
    let slash = if split {
        find(data, from, to, 47)
    } else {
        to
    };
    let start = if from < slash && data[from] == 43 {
        from + 1
    } else {
        from
    };
    if start < slash && all_digits(data, start, slash) && 1 <= digits_value(data, start, slash)
        <= u32::MAX {
        Some(digits_value(data, start, slash) - 1)
    } else {
        None
    }
}

/// The word after the one that ends at `before`, in a line that ends at
/// `end`: where it begins and ends, if there is one.
pub open spec fn next_word(data: Seq<u8>, before: int, end: int) -> Option<(int, int)> {
    if before >= end {
        None
    } else {
        Some((before + 1, find(data, before + 1, end, 32)))
    }
}

/// The vertex that the three words after `before` give.
pub open spec fn vertex(data: Seq<u8>, before: int, end: int) -> Result<Vector3, ObjError> {
    match next_word(data, before, end) {
        None => Err(ObjError::MissingNumber),
        Some(w1) => match number(data, w1.0, w1.1) {
            None => Err(ObjError::BadNumber),
            Some(x) => match next_word(data, w1.1, end) {
                None => Err(ObjError::MissingNumber),
                Some(w2) => match number(data, w2.0, w2.1) {
                    None => Err(ObjError::BadNumber),
                    Some(y) => match next_word(data, w2.1, end) {
                        None => Err(ObjError::MissingNumber),
                        Some(w3) => match number(data, w3.0, w3.1) {
                            None => Err(ObjError::BadNumber),
                            Some(z) => Ok(Vector3 { x: x as i64, y: y as i64, z: z as i64 }),
                        },
                    },
                },
            },
        },
    }
}

/// The triangle that the three words after `before` give.
pub open spec fn face(data: Seq<u8>, before: int, end: int, split: bool) -> Result<Face, ObjError> {
    match next_word(data, before, end) {
        None => Err(ObjError::MissingIndex),
        Some(w1) => match index(data, w1.0, w1.1, split) {
            None => Err(ObjError::BadIndex),
            Some(a) => match next_word(data, w1.1, end) {
                None => Err(ObjError::MissingIndex),
                Some(w2) => match index(data, w2.0, w2.1, split) {
                    None => Err(ObjError::BadIndex),
                    Some(b) => match next_word(data, w2.1, end) {
                        None => Err(ObjError::MissingIndex),
                        Some(w3) => match index(data, w3.0, w3.1, split) {
                            None => Err(ObjError::BadIndex),
                            Some(c) => Ok(Face { a: a as usize, b: b as usize, c: c as usize }),
                        },
                    },
                },
            },
        },
    }
}

/// The mesh with what the line from `start` up to `end` adds to it.
pub open spec fn with_line(data: Seq<u8>, start: int, end: int, mesh: MeshView, split: bool) -> Result<
    MeshView,
    ObjError,
> {
    let word = find(data, start, end, 32);
    if word == start + 1 && data[start] == 118 {
        match vertex(data, word, end) {
            Ok(v) => Ok(MeshView { vertices: mesh.vertices.push(v), ..mesh }),
            Err(e) => Err(e),
        }
    } else if word == start + 1 && data[start] == 102 {
        match face(data, word, end, split) {
            Ok(f) => Ok(MeshView { faces: mesh.faces.push(f), ..mesh }),
            Err(e) => Err(e),
        }
    } else {
        Ok(mesh)
    }
}

/// Where the line that breaks at `stop` ends: before the break, and before
/// a carriage return that stands right before a line feed.
pub open spec fn line_end(data: Seq<u8>, start: int, stop: int) -> int {
    if stop < data.len() && start < stop && data[stop - 1] == 13 {
        stop - 1
    } else {
        stop
    }
}

/// The mesh with what the lines from `start` on add to it.
pub open spec fn with_lines(data: Seq<u8>, start: int, mesh: MeshView, split: bool) -> Result<
    MeshView,
    ObjError,
>
    decreases data.len() + 1 - start,
    via with_lines_decreases
{
    if start >= data.len() {
        Ok(mesh)
    } else {
        let stop = find(data, start, data.len() as int, 10);
        match with_line(data, start, line_end(data, start, stop), mesh, split) {
            Ok(m) => with_lines(data, stop + 1, m, split),
            Err(e) => Err(e),
        }
    }
}

#[via_fn]
proof fn with_lines_decreases(data: Seq<u8>, start: int, mesh: MeshView, split: bool) {
    if start < data.len() {
        lemma_find_bounds(data, start, data.len() as int, 10);
    }
}

/// The mesh that a text describes, or why it describes none, where a
/// triangle names a vertex by what stands before the first `/` of a word.
pub open spec fn parsed(data: Seq<u8>) -> Result<MeshView, ObjError> {
    with_lines(data, 0, MeshView { vertices: Seq::empty(), faces: Seq::empty() }, true)
}

/// The mesh that a text describes, or why it describes none, where a
/// triangle names a vertex by a whole word.
pub open spec fn parsed_whole(data: Seq<u8>) -> Result<MeshView, ObjError> {
    with_lines(data, 0, MeshView { vertices: Seq::empty(), faces: Seq::empty() }, false)
}

/// What is found lies between where the search begins and where it ends.
pub proof fn lemma_find_bounds(data: Seq<u8>, from: int, end: int, sep: u8)
    requires
        from <= end,
    ensures
        from <= find(data, from, end, sep) <= end,
    decreases end - from,
{
    if from < end && data[from] != sep {
        lemma_find_bounds(data, from + 1, end, sep);
    }
}

/// A power of ten is at least one.
pub proof fn lemma_pow10_positive(n: nat)
    ensures
        1 <= pow10(n),
    decreases n,
{
    if n > 0 {
        lemma_pow10_positive((n - 1) as nat);
    }
}

/// A higher power of ten is not less.
pub proof fn lemma_pow10_grows(a: nat, b: nat)
    requires
        a <= b,
    ensures
        1 <= pow10(a) <= pow10(b),
    decreases b,
{
    lemma_pow10_positive(a);
    if a < b {
        lemma_pow10_grows(a, (b - 1) as nat);
    }
}

/// The twelfth and the thirteenth power of ten.
pub proof fn lemma_pow10_values()
    ensures
        pow10(12) == 1_000_000_000_000,
        pow10(13) == 10_000_000_000_000,
{
    assert(pow10(0) == 1);
    assert(pow10(1) == 10);
    assert(pow10(2) == 100);
    assert(pow10(3) == 1_000);
    assert(pow10(4) == 10_000);
    assert(pow10(5) == 100_000);
    assert(pow10(6) == 1_000_000);
    assert(pow10(7) == 10_000_000);
    assert(pow10(8) == 100_000_000);
    assert(pow10(9) == 1_000_000_000);
    assert(pow10(10) == 10_000_000_000);
    assert(pow10(11) == 100_000_000_000);
    assert(pow10(12) == 1_000_000_000_000);
}

/// The first place from `from` on, before `end`, where `sep` stands.
fn scan(data: &[u8], from: usize, end: usize, sep: u8) -> (r: usize)
    requires
        from <= end <= data@.len(),
    ensures
        r == find(data@, from as int, end as int, sep),
        from <= r <= end,
{
    let mut i: usize = from;
    while i < end && data[i] != sep
        invariant
            from <= i <= end <= data@.len(),
            find(data@, i as int, end as int, sep) == find(data@, from as int, end as int, sep),
        decreases end - i,
    {
        i = i + 1;
    }
    i
}

/// The first place from `from` on, before `end`, where an exponent begins.
fn scan_exponent(data: &[u8], from: usize, end: usize) -> (r: usize)
    requires
        from <= end <= data@.len(),
    ensures
        r == find_exponent(data@, from as int, end as int),
        from <= r <= end,
{
    let mut i: usize = from;
    while i < end && data[i] != 101 && data[i] != 69
        invariant
            from <= i <= end <= data@.len(),
            find_exponent(data@, i as int, end as int) == find_exponent(
                data@,
                from as int,
                end as int,
            ),
        decreases end - i,
    {
        i = i + 1;
    }
    i
}

/// The number that the digits from `from` up to `to` write, held at `cap`,
/// if nothing but digits stands there.
fn read_digits(data: &[u8], from: usize, to: usize, cap: u128) -> (r: Option<u128>)
    requires
        from <= to <= data@.len(),
        cap <= PLACES_CAP,
    ensures
        r.is_some() == all_digits(data@, from as int, to as int),
        r.is_some() ==> r.unwrap() == spec_min(
            digits_value(data@, from as int, to as int),
            cap as int,
        ),
        r.is_some() ==> 0 <= digits_value(data@, from as int, to as int),
{
    let mut acc: u128 = 0;
    let mut i: usize = from;
    while i < to
        invariant
            from <= i <= to <= data@.len(),
            cap <= PLACES_CAP,
            all_digits(data@, from as int, i as int),
            acc == spec_min(digits_value(data@, from as int, i as int), cap as int),
            0 <= digits_value(data@, from as int, i as int),
        decreases to - i,
    {
        let b = data[i];
        if b < 48 || b > 57 {
            assert(!is_digit(data@[i as int]));
            return None;
        }
        let next: u128 = acc * 10 + (b - 48) as u128;
        acc = if next > cap {
            cap
        } else {
            next
        };
        i = i + 1;
    }
    Some(acc)
}

/// Ten to the power of `n`.
fn ten_to(n: u8) -> (r: u128)
    requires
        n <= 12,
    ensures
        r == pow10(n as nat),
        1 <= r <= 1_000_000_000_000,
{
    let mut r: u128 = 1;
    let mut i: u8 = 0;
    while i < n
        invariant
            i <= n <= 12,
            r == pow10(i as nat),
            1 <= r <= 1_000_000_000_000,
        decreases n - i,
    {
        proof {
            lemma_pow10_grows((i + 1) as nat, 12);
            lemma_pow10_values();
        }
        r = r * 10;
        i = i + 1;
    }
    r
}

/// The exponent that stands from `mark` up to `to`, held between the
/// negative and the positive of [`PLACES_CAP`].
fn read_exponent(data: &[u8], mark: usize, to: usize) -> (r: Option<i128>)
    requires
        mark <= to <= data@.len(),
    ensures
        r.is_some() == exponent(data@, mark as int, to as int).is_some(),
        r.is_some() ==> r.unwrap() == spec_clamp(
            exponent(data@, mark as int, to as int).unwrap(),
            -(PLACES_CAP as int),
            PLACES_CAP as int,
        ),
{
    if mark >= to {
        return Some(0);
    }
    let signed = mark + 1 < to && (data[mark + 1] == 45 || data[mark + 1] == 43);
    let first: usize = if signed {
        mark + 2
    } else {
        mark + 1
    };
    if first >= to {
        return None;
    }
    match read_digits(data, first, to, PLACES_CAP) {
        Some(v) => {
            if data[mark + 1] == 45 {
                Some(-(v as i128))
            } else {
                Some(v as i128)
            }
        },
        None => None,
    }
}

/// A number of digits, held at [`DIGITS_CAP`], times a power of ten: the
/// product, or none where it lies beyond the edge of the world.
fn times_power(held: u128, power: i128, Ghost(value): Ghost<int>) -> (r: Option<u128>)
    requires
        0 <= value,
        held == spec_min(value, DIGITS_CAP as int),
        0 <= power,
    ensures
        r.is_some() ==> r.unwrap() == value * pow10(power as nat) && r.unwrap()
            <= 1_000_000_000_000 * 1_000_000_000_000,
        r.is_none() ==> value * pow10(power as nat) > COORD_MAX,
{
    let ghost p = pow10(power as nat) as int;
    proof {
        lemma_pow10_positive(power as nat);
        lemma_pow10_values();
    }
    if held == 0 {
        assert(value * p == 0) by (nonlinear_arith)
            requires
                value == 0,
        ;
        Some(0)
    } else if power > 12 {
        proof {
            lemma_pow10_grows(13, power as nat);
        }
        assert(value * p > 1_000_000_000_000) by (nonlinear_arith)
            requires
                value >= 1,
                p >= 10_000_000_000_000,
        ;
        None
    } else if held > 1_000_000_000_000 {
        assert(value * p > 1_000_000_000_000) by (nonlinear_arith)
            requires
                value > 1_000_000_000_000,
                p >= 1,
        ;
        None
    } else {
        let factor = ten_to(power as u8);
        assert(held * factor <= 1_000_000_000_000 * 1_000_000_000_000) by (nonlinear_arith)
            requires
                0 <= held <= 1_000_000_000_000,
                0 <= factor <= 1_000_000_000_000,
        ;
        Some(held * factor)
    }
}

/// The whole number that the digits of a number write once the point has
/// been moved, if it lies inside the world.
fn read_shifted(
    data: &[u8],
    start: usize,
    dot: usize,
    after: usize,
    mark: usize,
    whole: u128,
    part: u128,
    held: i128,
    Ghost(places): Ghost<int>,
) -> (r: Option<u128>)
    requires
        start <= dot <= after <= mark <= data@.len(),
        all_digits(data@, start as int, dot as int),
        all_digits(data@, after as int, mark as int),
        0 <= digits_value(data@, start as int, dot as int),
        0 <= digits_value(data@, after as int, mark as int),
        whole == spec_min(digits_value(data@, start as int, dot as int), DIGITS_CAP as int),
        part == spec_min(digits_value(data@, after as int, mark as int), DIGITS_CAP as int),
        held == spec_clamp(places, -(PLACES_CAP as int), PLACES_CAP as int),
    ensures
        r.is_some() == (shifted(data@, start as int, dot as int, after as int, mark as int, 6 + places)
            <= COORD_MAX),
        r.is_some() ==> r.unwrap() == shifted(
            data@,
            start as int,
            dot as int,
            after as int,
            mark as int,
            6 + places,
        ),
{
    let ghost s = data@;
    let ghost all = shifted(s, start as int, dot as int, after as int, mark as int, 6 + places);
    let ghost first = digits_value(s, start as int, dot as int);
    let ghost second = digits_value(s, after as int, mark as int);
    if held >= PLACES_CAP as i128 {
        // Every digit that is not nought is moved beyond the edge of the world.
        proof {
            let g = 6 + places;
            let used = spec_min(g, mark - after);
            assert(used == mark - after);
            assert(s.subrange(after as int, mark as int) == s.subrange(after as int, after + used));
            lemma_pow10_positive(g as nat);
            lemma_pow10_positive((g - used) as nat);
            lemma_pow10_grows(13, g as nat);
            lemma_pow10_grows(13, (g - used) as nat);
            lemma_pow10_values();
            let p = pow10(g as nat) as int;
            let q = pow10((g - used) as nat) as int;
            assert(all == first * p + second * q);
            if first == 0 && second == 0 {
                assert(first * p + second * q == 0) by (nonlinear_arith)
                    requires
                        first == 0,
                        second == 0,
                ;
            } else {
                assert(first * p + second * q > 1_000_000_000_000) by (nonlinear_arith)
                    requires
                        first >= 0,
                        second >= 0,
                        first >= 1 || second >= 1,
                        p >= 10_000_000_000_000,
                        q >= 10_000_000_000_000,
                ;
            }
        }
        if whole == 0 && part == 0 {
            Some(0)
        } else {
            None
        }
    } else if held <= -(PLACES_CAP as i128) {
        // Every digit is moved behind the point.
        assert(spec_max(start as int, dot + (6 + places)) == start);
        Some(0)
    } else {
        let places_here: i128 = 6 + held;
        if places_here >= 0 {
            let digits: usize = mark - after;
            let used: usize = if places_here >= digits as i128 {
                digits
            } else {
                places_here as usize
            };
            assert(all_digits(s, after as int, after + used)) by {
                assert forall|i: int| after <= i < after + used implies is_digit(#[trigger] s[i]) by {
                }
            }
            let taken = read_digits(data, after, after + used, DIGITS_CAP).unwrap();
            let ghost third = digits_value(s, after as int, after + used);
            let high = times_power(whole, places_here, Ghost(first));
            let low = times_power(taken, places_here - used as i128, Ghost(third));
            proof {
                lemma_pow10_positive(places_here as nat);
                lemma_pow10_positive((places_here - used) as nat);
                let p = pow10(places_here as nat) as int;
                let q = pow10((places_here - used) as nat) as int;
                assert(all == first * p + third * q);
                assert(first * p >= 0) by (nonlinear_arith)
                    requires
                        first >= 0,
                        p >= 1,
                ;
                assert(third * q >= 0) by (nonlinear_arith)
                    requires
                        third >= 0,
                        q >= 1,
                ;
            }
            match (high, low) {
                (Some(a), Some(b)) => {
                    let sum = a + b;
                    if sum > COORD_MAX as u128 {
                        None
                    } else {
                        Some(sum)
                    }
                },
                _ => None,
            }
        } else {
            let cut: i128 = -places_here;
            let digits: usize = dot - start;
            if cut >= digits as i128 {
                assert(spec_max(start as int, dot + (6 + places)) == start);
                Some(0)
            } else {
                let end: usize = dot - cut as usize;
                assert(spec_max(start as int, dot + (6 + places)) == end);
                assert(all_digits(s, start as int, end as int)) by {
                    assert forall|i: int| start <= i < end implies is_digit(#[trigger] s[i]) by {
                    }
                }
                let kept = read_digits(data, start, end, DIGITS_CAP).unwrap();
                if kept > COORD_MAX as u128 {
                    None
                } else {
                    Some(kept)
                }
            }
        }
    }
}

/// The decimal number that stands from `from` up to `to`, in millionths.
fn read_number(data: &[u8], from: usize, to: usize) -> (r: Option<i64>)
    requires
        from <= to <= data@.len(),
    ensures
        match (r, number(data@, from as int, to as int)) {
            (Some(got), Some(want)) => got == want,
            (None, None) => true,
            _ => false,
        },
{
    proof {
        reveal(number);
    }
    let signed = from < to && (data[from] == 45 || data[from] == 43);
    let start: usize = if signed {
        from + 1
    } else {
        from
    };
    let mark = scan_exponent(data, start, to);
    let dot = scan(data, start, mark, 46);
    let after: usize = if dot < mark {
        dot + 1
    } else {
        mark
    };
    let whole = match read_digits(data, start, dot, DIGITS_CAP) {
        Some(w) => w,
        None => {
            return None;
        },
    };
    let part = match read_digits(data, after, mark, DIGITS_CAP) {
        Some(p) => p,
        None => {
            return None;
        },
    };
    if (dot - start) + (mark - after) == 0 {
        return None;
    }
    let held = match read_exponent(data, mark, to) {
        Some(h) => h,
        None => {
            return None;
        },
    };
    let ghost places = exponent(data@, mark as int, to as int).unwrap();
    let size = match read_shifted(data, start, dot, after, mark, whole, part, held, Ghost(places)) {
        Some(s) => s,
        None => {
            return None;
        },
    };
    if data[from] == 45 {
        Some(-(size as i64))
    } else {
        Some(size as i64)
    }
}

/// The number of the vertex that a word holds, counted from zero.
fn read_index(data: &[u8], from: usize, to: usize, split: bool) -> (r: Option<usize>)
    requires
        from <= to <= data@.len(),
    ensures
        match (r, index(data@, from as int, to as int, split)) {
            (Some(got), Some(want)) => got == want,
            (None, None) => true,
            _ => false,
        },
{
    proof {
        reveal(index);
    }
    let slash = if split {
        scan(data, from, to, 47)
    } else {
        to
    };
    let start: usize = if from < slash && data[from] == 43 {
        from + 1
    } else {
        from
    };
    if start >= slash {
        return None;
    }
    match read_digits(data, start, slash, DIGITS_CAP) {
        Some(n) => {
            if 1 <= n && n <= 0xffff_ffff {
                Some((n - 1) as usize)
            } else {
                None
            }
        },
        None => None,
    }
}

/// The vertex that the three words after `before` give.
fn read_vertex(data: &[u8], before: usize, end: usize) -> (r: Result<Vector3, ObjError>)
    requires
        before <= end <= data@.len(),
    ensures
        r == vertex(data@, before as int, end as int),
{
    if before >= end {
        return Err(ObjError::MissingNumber);
    }
    let e1 = scan(data, before + 1, end, 32);
    let x = match read_number(data, before + 1, e1) {
        Some(x) => x,
        None => {
            return Err(ObjError::BadNumber);
        },
    };
    if e1 >= end {
        return Err(ObjError::MissingNumber);
    }
    let e2 = scan(data, e1 + 1, end, 32);
    let y = match read_number(data, e1 + 1, e2) {
        Some(y) => y,
        None => {
            return Err(ObjError::BadNumber);
        },
    };
    if e2 >= end {
        return Err(ObjError::MissingNumber);
    }
    let e3 = scan(data, e2 + 1, end, 32);
    match read_number(data, e2 + 1, e3) {
        Some(z) => Ok(Vector3 { x, y, z }),
        None => Err(ObjError::BadNumber),
    }
}

/// The triangle that the three words after `before` give.
fn read_face(data: &[u8], before: usize, end: usize, split: bool) -> (r: Result<Face, ObjError>)
    requires
        before <= end <= data@.len(),
    ensures
        r == face(data@, before as int, end as int, split),
{
    if before >= end {
        return Err(ObjError::MissingIndex);
    }
    let e1 = scan(data, before + 1, end, 32);
    let a = match read_index(data, before + 1, e1, split) {
        Some(a) => a,
        None => {
            return Err(ObjError::BadIndex);
        },
    };
    if e1 >= end {
        return Err(ObjError::MissingIndex);
    }
    let e2 = scan(data, e1 + 1, end, 32);
    let b = match read_index(data, e1 + 1, e2, split) {
        Some(b) => b,
        None => {
            return Err(ObjError::BadIndex);
        },
    };
    if e2 >= end {
        return Err(ObjError::MissingIndex);
    }
    let e3 = scan(data, e2 + 1, end, 32);
    match read_index(data, e2 + 1, e3, split) {
        Some(c) => Ok(Face { a, b, c }),
        None => Err(ObjError::BadIndex),
    }
}

/// Reads the mesh that the lines of a text describe.
fn read_lines(data: &[u8], split: bool) -> (r: Result<GroundMesh, ObjError>)
    ensures
        match (
            r,
            with_lines(data@, 0, MeshView { vertices: Seq::empty(), faces: Seq::empty() }, split),
        ) {
            (Ok(mesh), Ok(want)) => mesh@ == want,
            (Err(e), Err(want)) => e == want,
            _ => false,
        },
{
    let n = data.len();
    let ghost whole = with_lines(
        data@,
        0,
        MeshView { vertices: Seq::empty(), faces: Seq::empty() },
        split,
    );
    let mut mesh = GroundMesh { vertices: Vec::new(), faces: Vec::new() };
    let mut start: usize = 0;
    while start < n
        invariant
            n == data@.len(),
            start <= n,
            whole == with_lines(
                data@,
                0,
                MeshView { vertices: Seq::empty(), faces: Seq::empty() },
                split,
            ),
            with_lines(data@, start as int, mesh@, split) == whole,
        decreases n - start,
    {
        let stop = scan(data, start, n, 10);
        let end: usize = if stop < n && start < stop && data[stop - 1] == 13 {
            stop - 1
        } else {
            stop
        };
        let word = scan(data, start, end, 32);
        if word == start + 1 && data[start] == 118 {
            match read_vertex(data, word, end) {
                Ok(v) => {
                    mesh.vertices.push(v);
                },
                Err(e) => {
                    return Err(e);
                },
            }
        } else if word == start + 1 && data[start] == 102 {
            match read_face(data, word, end, split) {
                Ok(f) => {
                    mesh.faces.push(f);
                },
                Err(e) => {
                    return Err(e);
                },
            }
        }
        if stop >= n {
            assert(with_lines(data@, stop + 1, mesh@, split) == Ok::<MeshView, ObjError>(mesh@));
            return Ok(mesh);
        }
        start = stop + 1;
    }
    Ok(mesh)
}

/// Reads the mesh that a text describes. A triangle names each vertex by
/// what stands before the first `/` of a word.
pub fn load_obj(data: &str) -> (r: Result<GroundMesh, ObjError>)
    ensures
        match (r, parsed(data.spec_bytes())) {
            (Ok(mesh), Ok(want)) => mesh@ == want,
            (Err(e), Err(want)) => e == want,
            _ => false,
        },
{
    read_lines(data.as_bytes(), true)
}

impl GroundMesh {
    /// The mesh that a text describes, if it describes one. A triangle
    /// names each vertex by a whole word.
    pub fn from_obj(data: &str) -> (r: Option<GroundMesh>)
        ensures
            match (r, parsed_whole(data.spec_bytes())) {
                (Some(mesh), Ok(want)) => mesh@ == want,
                (None, Err(_)) => true,
                _ => false,
            },
    {
        match read_lines(data.as_bytes(), false) {
            Ok(mesh) => Some(mesh),
            Err(_) => None,
        }
    }
}

/// The text that bytes hold, if they hold text.
///
/// This is `std::str::from_utf8`, whose result is not proved here. What is
/// claimed of it is what its documentation says: it hands the bytes back as
/// a string slice when they are well-formed UTF-8, and fails when they are
/// not.
#[verifier::external_body]
fn as_text(bytes: &[u8]) -> (r: Option<&str>)
    ensures
        r.is_some() == valid_utf8(bytes@),
        r.is_some() ==> r.unwrap().spec_bytes() == bytes@,
{
    std::str::from_utf8(bytes).ok()
}

/// Reads ground meshes from OBJ text.
#[derive(Default, Debug)]
pub struct ObjGroundLoader;

impl ObjGroundLoader {
    /// Reads the mesh that `bytes` describe: bytes that are not UTF-8 text
    /// describe none.
    pub fn load(&self, bytes: &[u8]) -> (r: Result<GroundMesh, ObjError>)
        ensures
            !valid_utf8(bytes@) ==> r == Err::<GroundMesh, ObjError>(ObjError::NotText),
            valid_utf8(bytes@) ==> match (r, parsed(bytes@)) {
                (Ok(mesh), Ok(want)) => mesh@ == want,
                (Err(e), Err(want)) => e == want,
                _ => false,
            },
    {
        match as_text(bytes) {
            Some(text) => load_obj(text),
            None => Err(ObjError::NotText),
        }
    }
}

} // verus!
