//! The scene voxelizer: bakes a hierarchical voxel scene — shapes under
//! nested transforms and groups — into the sparse voxel map.
//!
//! A transform carries its attributes as raw text: a whitespace-separated
//! integer triple for the translation and a single decimal byte for the
//! rotation, which encodes one of the 24 axis-permutation-with-sign
//! rotations. Transforms compose rotate-then-translate in parent space;
//! shape voxels are rotated about their model's center, translated, and
//! written through a fixed swap of the y and z axes into engine convention.

use crate::map::VoxelMap;
use crate::math::{lemma_chunk_axis_bounds, Vec3i};
use vstd::prelude::*;

verus! {

// --- attribute text -------------------------------------------------------

/// ASCII whitespace, as it appears in scene attribute strings.
pub open spec fn is_ws(b: u8) -> bool {
    b == 32 || b == 9 || b == 10 || b == 13 || b == 11 || b == 12
}

/// An ASCII decimal digit.
pub open spec fn is_digit(b: u8) -> bool {
    48 <= b <= 57
}

/// Length of the maximal leading run of non-whitespace bytes.
pub open spec fn token_len(s: Seq<u8>) -> int
    decreases s.len(),
{
    if s.len() == 0 || is_ws(s[0]) {
        0
    } else {
        1 + token_len(s.drop_first())
    }
}

proof fn lemma_token_len_bounds(s: Seq<u8>)
    ensures
        0 <= token_len(s) <= s.len(),
        s.len() > 0 && !is_ws(s[0]) ==> token_len(s) >= 1,
    decreases s.len(),
{
    if s.len() > 0 && !is_ws(s[0]) {
        lemma_token_len_bounds(s.drop_first());
    }
}

/// The whitespace-separated tokens of an attribute string, in order.
pub open spec fn split_ws(s: Seq<u8>) -> Seq<Seq<u8>>
    decreases s.len(),
{
    if s.len() == 0 {
        Seq::empty()
    } else if is_ws(s[0]) {
        split_ws(s.drop_first())
    } else {
        let n = token_len(s);
        if 1 <= n <= s.len() {
            seq![s.take(n)] + split_ws(s.skip(n))
        } else {
            Seq::empty()
        }
    }
}

/// The digits of an integer token, after any single leading sign.
pub open spec fn token_digits(s: Seq<u8>) -> Seq<u8> {
    if s.len() > 0 && (s[0] == 43 || s[0] == 45) {
        s.drop_first()
    } else {
        s
    }
}

/// Whether the token is written with a leading minus sign.
pub open spec fn token_negative(s: Seq<u8>) -> bool {
    s.len() > 0 && s[0] == 45
}

/// Every byte is a digit.
pub open spec fn all_digits(s: Seq<u8>) -> bool {
    forall|i: int| 0 <= i < s.len() ==> is_digit(#[trigger] s[i])
}

/// The value of a digit string, most significant first.
pub open spec fn digits_val(s: Seq<u8>) -> int
    decreases s.len(),
{
    if s.len() == 0 {
        0
    } else {
        digits_val(s.drop_last()) * 10 + (s.last() - 48)
    }
}

/// An optionally signed, nonempty digit string.
pub open spec fn valid_int_token(s: Seq<u8>) -> bool {
    token_digits(s).len() > 0 && all_digits(token_digits(s))
}

/// The signed value of a valid integer token.
pub open spec fn int_token_val(s: Seq<u8>) -> int {
    if token_negative(s) {
        -digits_val(token_digits(s))
    } else {
        digits_val(token_digits(s))
    }
}

/// A valid integer token whose value fits an `i32`.
pub open spec fn valid_i32_token(s: Seq<u8>) -> bool {
    valid_int_token(s) && -0x8000_0000 <= int_token_val(s) <= 0x7FFF_FFFF
}

/// What a translation attribute denotes: exactly three integer tokens, each
/// fitting an `i32`; anything else denotes nothing.
pub open spec fn translation_of(s: Seq<u8>) -> Option<Vec3i> {
    let ts = split_ws(s);
    if ts.len() == 3 && valid_i32_token(ts[0]) && valid_i32_token(ts[1]) && valid_i32_token(
        ts[2],
    ) {
        Some(
            Vec3i {
                x: int_token_val(ts[0]) as i32,
                y: int_token_val(ts[1]) as i32,
                z: int_token_val(ts[2]) as i32,
            },
        )
    } else {
        None
    }
}

/// An unsigned token whose value fits a byte: the form a rotation attribute
/// takes after trimming.
pub open spec fn valid_u8_token(s: Seq<u8>) -> bool {
    valid_int_token(s) && !token_negative(s) && int_token_val(s) <= 255
}

/// What a rotation attribute denotes: one unsigned byte-sized token,
/// surrounded by nothing but whitespace.
pub open spec fn rot_byte_of(s: Seq<u8>) -> Option<u8> {
    let ts = split_ws(s);
    if ts.len() == 1 && valid_u8_token(ts[0]) {
        Some(int_token_val(ts[0]) as u8)
    } else {
        None
    }
}

proof fn lemma_digits_val_nonneg(s: Seq<u8>)
    requires
        all_digits(s),
    ensures
        digits_val(s) >= 0,
    decreases s.len(),
{
    if s.len() > 0 {
        assert(all_digits(s.drop_last()));
        lemma_digits_val_nonneg(s.drop_last());
    }
}

/// Parses the decimal digits in `bytes[ds..end]`, reporting the value, or
/// that some byte is not a digit, or that the value exceeds `2^31`.
#[verifier::loop_isolation(false)]
fn parse_digits(bytes: &Vec<u8>, ds: usize, end: usize) -> (r: Option<u64>)
    requires
        ds <= end <= bytes@.len(),
    ensures
        ({
            let core = bytes@.subrange(ds as int, end as int);
            match r {
                Some(v) => all_digits(core) && v == digits_val(core) && v <= 0x8000_0000,
                None => !all_digits(core) || digits_val(core) > 0x8000_0000,
            }
        }),
{
    let ghost core = bytes@.subrange(ds as int, end as int);
    let mut acc: u64 = 0;
    let mut too_big = false;
    let mut i: usize = ds;
    while i < end
        invariant
            ds <= i <= end,
            forall|k: int| 0 <= k < i - ds ==> is_digit(#[trigger] core[k]),
            !too_big ==> acc == digits_val(core.subrange(0, i - ds)) && acc <= 0x8000_0000,
            too_big ==> digits_val(core.subrange(0, i - ds)) > 0x8000_0000 && all_digits(
                core.subrange(0, i - ds),
            ),
        decreases end - i,
    {
        let b = bytes[i];
        proof {
            assert(core[i - ds] == b);
        }
        if b < 48 || b > 57 {
            proof {
                assert(!is_digit(core[i - ds]));
            }
            return None;
        }
        proof {
            assert(core.subrange(0, i + 1 - ds).drop_last() =~= core.subrange(0, i - ds));
            assert(core.subrange(0, i + 1 - ds).last() == b);
        }
        if too_big {
            proof {
                lemma_digits_val_nonneg(core.subrange(0, i - ds));
            }
        } else {
            let next = acc * 10 + ((b - 48) as u64);
            if next > 0x8000_0000 {
                too_big = true;
            } else {
                acc = next;
            }
        }
        i += 1;
    }
    proof {
        assert(core.subrange(0, end - ds) =~= core);
    }
    if too_big {
        None
    } else {
        Some(acc)
    }
}

/// Parses the integer token in `bytes[start..end]` as an `i32`: an optional
/// sign and decimal digits, rejected exactly when malformed or out of range.
fn parse_i32_range(bytes: &Vec<u8>, start: usize, end: usize) -> (r: Option<i32>)
    requires
        start <= end <= bytes@.len(),
    ensures
        ({
            let tok = bytes@.subrange(start as int, end as int);
            match r {
                Some(v) => valid_i32_token(tok) && v == int_token_val(tok),
                None => !valid_i32_token(tok),
            }
        }),
{
    let ghost tok = bytes@.subrange(start as int, end as int);
    if start == end {
        return None;
    }
    let first = bytes[start];
    let neg = first == 45;
    let ds = if first == 45 || first == 43 {
        start + 1
    } else {
        start
    };
    proof {
        if ds > start {
            assert(tok.drop_first() =~= bytes@.subrange(ds as int, end as int));
        } else {
            assert(tok =~= bytes@.subrange(ds as int, end as int));
        }
        assert(token_digits(tok) =~= bytes@.subrange(ds as int, end as int));
        assert(token_negative(tok) == neg);
    }
    if ds == end {
        return None;
    }
    match parse_digits(bytes, ds, end) {
        None => {
            proof {
                if valid_int_token(tok) {
                    lemma_digits_val_nonneg(token_digits(tok));
                }
            }
            None
        },
        Some(v) => {
            if neg {
                if v == 0x8000_0000 {
                    Some(i32::MIN)
                } else {
                    Some(-(v as i32))
                }
            } else {
                if v > 0x7FFF_FFFF {
                    None
                } else {
                    Some(v as i32)
                }
            }
        },
    }
}

/// Parses an unsigned byte-sized token in `bytes[start..end]`.
fn parse_u8_range(bytes: &Vec<u8>, start: usize, end: usize) -> (r: Option<u8>)
    requires
        start <= end <= bytes@.len(),
    ensures
        ({
            let tok = bytes@.subrange(start as int, end as int);
            match r {
                Some(v) => valid_u8_token(tok) && v == int_token_val(tok),
                None => !valid_u8_token(tok),
            }
        }),
{
    let ghost tok = bytes@.subrange(start as int, end as int);
    if start == end {
        return None;
    }
    let first = bytes[start];
    if first == 45 {
        return None;
    }
    let ds = if first == 43 {
        start + 1
    } else {
        start
    };
    proof {
        if ds > start {
            assert(tok.drop_first() =~= bytes@.subrange(ds as int, end as int));
        } else {
            assert(tok =~= bytes@.subrange(ds as int, end as int));
        }
        assert(token_digits(tok) =~= bytes@.subrange(ds as int, end as int));
        assert(!token_negative(tok));
    }
    if ds == end {
        return None;
    }
    match parse_digits(bytes, ds, end) {
        None => {
            proof {
                if valid_int_token(tok) {
                    lemma_digits_val_nonneg(token_digits(tok));
                }
            }
            None
        },
        Some(v) => {
            if v > 255 {
                None
            } else {
                Some(v as u8)
            }
        },
    }
}

/// Finds the end of the whitespace run starting at `from`.
#[verifier::loop_isolation(false)]
fn skip_ws(bytes: &Vec<u8>, from: usize) -> (r: usize)
    requires
        from <= bytes@.len(),
    ensures
        from <= r <= bytes@.len(),
        split_ws(bytes@.skip(from as int)) == split_ws(bytes@.skip(r as int)),
        r < bytes@.len() ==> !is_ws(bytes@[r as int]),
    decreases bytes@.len() - from,
{
    let mut i = from;
    while i < bytes.len()
        invariant
            from <= i <= bytes@.len(),
            split_ws(bytes@.skip(from as int)) == split_ws(bytes@.skip(i as int)),
        decreases bytes@.len() - i,
    {
        if !(bytes[i] == 32 || bytes[i] == 9 || bytes[i] == 10 || bytes[i] == 13 || bytes[i]
            == 11 || bytes[i] == 12) {
            return i;
        }
        proof {
            assert(bytes@.skip(i as int).drop_first() =~= bytes@.skip(i + 1));
        }
        i += 1;
    }
    proof {
        assert(bytes@.skip(i as int).len() == 0);
    }
    i
}

/// Finds the end of the token starting at `from`.
#[verifier::loop_isolation(false)]
fn token_end(bytes: &Vec<u8>, from: usize) -> (r: usize)
    requires
        from < bytes@.len(),
        !is_ws(bytes@[from as int]),
    ensures
        from < r <= bytes@.len(),
        token_len(bytes@.skip(from as int)) == r - from,
{
    let mut i = from;
    while i < bytes.len()
        invariant
            from <= i <= bytes@.len(),
            token_len(bytes@.skip(from as int)) == (i - from) + token_len(
                bytes@.skip(i as int),
            ),
            i == from ==> !is_ws(bytes@[from as int]),
        decreases bytes@.len() - i,
    {
        if bytes[i] == 32 || bytes[i] == 9 || bytes[i] == 10 || bytes[i] == 13 || bytes[i]
            == 11 || bytes[i] == 12 {
            proof {
                assert(is_ws(bytes@.skip(i as int)[0]));
            }
            proof {
                lemma_token_len_bounds(bytes@.skip(from as int));
            }
            return i;
        }
        proof {
            assert(!is_ws(bytes@.skip(i as int)[0]));
            assert(bytes@.skip(i as int).drop_first() =~= bytes@.skip(i + 1));
        }
        i += 1;
    }
    proof {
        assert(bytes@.skip(i as int).len() == 0);
        lemma_token_len_bounds(bytes@.skip(from as int));
    }
    i
}

/// Collects the byte ranges of all whitespace-separated tokens.
#[verifier::loop_isolation(false)]
fn tokenize(bytes: &Vec<u8>) -> (toks: Vec<(usize, usize)>)
    ensures
        toks@.len() == split_ws(bytes@).len(),
        forall|k: int|
            0 <= k < toks@.len() ==> {
                let (a, b) = #[trigger] toks@[k];
                a <= b <= bytes@.len() && split_ws(bytes@)[k] == bytes@.subrange(
                    a as int,
                    b as int,
                )
            },
{
    let mut toks: Vec<(usize, usize)> = Vec::new();
    let ghost full = split_ws(bytes@);
    proof {
        assert(bytes@.skip(0) =~= bytes@);
    }
    let mut i = skip_ws(bytes, 0);
    while i < bytes.len()
        invariant
            i <= bytes@.len(),
            i < bytes@.len() ==> !is_ws(bytes@[i as int]),
            full == split_ws(bytes@),
            full.len() == toks@.len() + split_ws(bytes@.skip(i as int)).len(),
            forall|k: int|
                0 <= k < toks@.len() ==> {
                    let (a, b) = #[trigger] toks@[k];
                    a <= b <= bytes@.len() && full[k] == bytes@.subrange(a as int, b as int)
                },
            forall|k: int|
                toks@.len() <= k < full.len() ==> full[k] == split_ws(
                    bytes@.skip(i as int),
                )[k - toks@.len()],
        decreases bytes@.len() - i,
    {
        let e = token_end(bytes, i);
        proof {
            let rest = bytes@.skip(i as int);
            lemma_token_len_bounds(rest);
            assert(rest.take(e - i) =~= bytes@.subrange(i as int, e as int));
            assert(rest.skip(e - i) =~= bytes@.skip(e as int));
            assert(split_ws(rest) == seq![bytes@.subrange(i as int, e as int)] + split_ws(
                bytes@.skip(e as int),
            ));
        }
        toks.push((i, e));
        i = skip_ws(bytes, e);
    }
    proof {
        assert(bytes@.skip(i as int).len() == 0);
        assert(split_ws(bytes@.skip(i as int)) =~= Seq::<Seq<u8>>::empty());
    }
    toks
}

/// Parses a translation attribute: exactly three whitespace-separated
/// integers, each fitting an `i32`.
pub fn parse_translation(bytes: &Vec<u8>) -> (r: Option<Vec3i>)
    ensures
        r == translation_of(bytes@),
{
    let toks = tokenize(bytes);
    if toks.len() != 3 {
        return None;
    }
    let (a0, b0) = toks[0];
    let (a1, b1) = toks[1];
    let (a2, b2) = toks[2];
    let x = match parse_i32_range(bytes, a0, b0) {
        Some(v) => v,
        None => {
            return None;
        },
    };
    let y = match parse_i32_range(bytes, a1, b1) {
        Some(v) => v,
        None => {
            return None;
        },
    };
    let z = match parse_i32_range(bytes, a2, b2) {
        Some(v) => v,
        None => {
            return None;
        },
    };
    Some(Vec3i::new(x, y, z))
}

/// Parses a rotation attribute: one byte-sized unsigned integer, surrounded
/// only by whitespace.
pub fn parse_rot_byte(bytes: &Vec<u8>) -> (r: Option<u8>)
    ensures
        r == rot_byte_of(bytes@),
{
    let toks = tokenize(bytes);
    if toks.len() != 1 {
        return None;
    }
    let (a0, b0) = toks[0];
    parse_u8_range(bytes, a0, b0)
}


// --- rotations ------------------------------------------------------------

/// One of the 24 axis-permutation-with-sign rotations: output axis `k` takes
/// input axis `i_k`, negated when `s_k` is set.
#[derive(Clone, Copy, PartialEq, Eq, Structural, Debug)]
pub struct Rot {
    pub ix: u8,
    pub iy: u8,
    pub iz: u8,
    pub sx: bool,
    pub sy: bool,
    pub sz: bool,
}

impl Rot {
    /// The three source axes are a permutation of x, y, z.
    pub open spec fn wf(self) -> bool {
        &&& self.ix < 3 && self.iy < 3 && self.iz < 3
        &&& self.ix != self.iy && self.ix != self.iz && self.iy != self.iz
    }

    /// The identity rotation.
    pub open spec fn identity_spec() -> Rot {
        Rot { ix: 0, iy: 1, iz: 2, sx: false, sy: false, sz: false }
    }

    /// Builds the identity rotation.
    pub fn identity() -> (r: Rot)
        ensures
            r == Rot::identity_spec(),
            r.wf(),
    {
        Rot { ix: 0, iy: 1, iz: 2, sx: false, sy: false, sz: false }
    }
}

/// Component `a` of an integer triple.
pub open spec fn axis_of(x: int, y: int, z: int, a: int) -> int {
    if a == 0 {
        x
    } else if a == 1 {
        y
    } else {
        z
    }
}

/// Applying a rotation to an integer triple.
pub open spec fn rot_x(r: Rot, x: int, y: int, z: int) -> int {
    if r.sx {
        -axis_of(x, y, z, r.ix as int)
    } else {
        axis_of(x, y, z, r.ix as int)
    }
}

pub open spec fn rot_y(r: Rot, x: int, y: int, z: int) -> int {
    if r.sy {
        -axis_of(x, y, z, r.iy as int)
    } else {
        axis_of(x, y, z, r.iy as int)
    }
}

pub open spec fn rot_z(r: Rot, x: int, y: int, z: int) -> int {
    if r.sz {
        -axis_of(x, y, z, r.iz as int)
    } else {
        axis_of(x, y, z, r.iz as int)
    }
}

/// What a rotation byte denotes: two 2-bit fields select which output axes
/// receive input x and input y, the remaining axis receives input z, and
/// three bits flip the signs. A byte whose axis fields collide or overflow
/// denotes no rotation.
pub open spec fn rot_of_byte(b: u8) -> Option<Rot> {
    let i0 = b as int % 4;
    let i1 = (b as int / 4) % 4;
    if i0 < 3 && i1 < 3 && i0 != i1 {
        let i2 = 3 - i0 - i1;
        Some(
            Rot {
                ix: i0 as u8,
                iy: i1 as u8,
                iz: i2 as u8,
                sx: (b as int / 16) % 2 == 1,
                sy: (b as int / 32) % 2 == 1,
                sz: (b as int / 64) % 2 == 1,
            },
        )
    } else {
        None
    }
}

/// Decodes a rotation byte; exactly the bytes with two distinct in-range
/// axis fields decode.
pub fn rot_from_byte(b: u8) -> (r: Option<Rot>)
    ensures
        r == rot_of_byte(b),
        r matches Some(q) ==> q.wf(),
{
    let i0 = b % 4;
    let i1 = (b / 4) % 4;
    if i0 < 3 && i1 < 3 && i0 != i1 {
        let i2 = 3 - i0 - i1;
        Some(
            Rot {
                ix: i0,
                iy: i1,
                iz: i2,
                sx: (b / 16) % 2 == 1,
                sy: (b / 32) % 2 == 1,
                sz: (b / 64) % 2 == 1,
            },
        )
    } else {
        None
    }
}

/// The source axis and sign that rotation `b` feeds into its output axis
/// `a`, as a value.
pub open spec fn pick_axis_spec(b: Rot, a: u8) -> (u8, bool) {
    if a == 0 {
        (b.ix, b.sx)
    } else if a == 1 {
        (b.iy, b.sy)
    } else {
        (b.iz, b.sz)
    }
}

/// The composition of two rotations, applying `b` first, then `a`.
pub open spec fn rot_compose_spec(a: Rot, b: Rot) -> Rot {
    Rot {
        ix: pick_axis_spec(b, a.ix).0,
        iy: pick_axis_spec(b, a.iy).0,
        iz: pick_axis_spec(b, a.iz).0,
        sx: a.sx != pick_axis_spec(b, a.ix).1,
        sy: a.sy != pick_axis_spec(b, a.iy).1,
        sz: a.sz != pick_axis_spec(b, a.iz).1,
    }
}

/// Composes two rotations: the result applies `b` first, then `a`.
pub fn rot_compose(a: Rot, b: Rot) -> (r: Rot)
    requires
        a.wf(),
        b.wf(),
    ensures
        r == rot_compose_spec(a, b),
        r.wf(),
        forall|x: int, y: int, z: int|
            {
                let bx = rot_x(b, x, y, z);
                let by = rot_y(b, x, y, z);
                let bz = rot_z(b, x, y, z);
                #[trigger] rot_x(r, x, y, z) == rot_x(a, bx, by, bz) && rot_y(r, x, y, z)
                    == rot_y(a, bx, by, bz) && rot_z(r, x, y, z) == rot_z(a, bx, by, bz)
            },
{
    let (cix, csx) = pick_axis(b, a.ix);
    let (ciy, csy) = pick_axis(b, a.iy);
    let (ciz, csz) = pick_axis(b, a.iz);
    Rot {
        ix: cix,
        iy: ciy,
        iz: ciz,
        sx: a.sx != csx,
        sy: a.sy != csy,
        sz: a.sz != csz,
    }
}

/// The source axis and sign that rotation `b` feeds into its output axis
/// `a`.
fn pick_axis(b: Rot, a: u8) -> (r: (u8, bool))
    requires
        b.wf(),
        a < 3,
    ensures
        r.0 < 3,
        r == pick_axis_spec(b, a),
        forall|x: int, y: int, z: int|
            #[trigger] axis_of(rot_x(b, x, y, z), rot_y(b, x, y, z), rot_z(b, x, y, z), a as int)
                == (if r.1 {
                -axis_of(x, y, z, r.0 as int)
            } else {
                axis_of(x, y, z, r.0 as int)
            }),
{
    if a == 0 {
        (b.ix, b.sx)
    } else if a == 1 {
        (b.iy, b.sy)
    } else {
        (b.iz, b.sz)
    }
}

// --- saturating coordinate arithmetic -------------------------------------

/// Clamp to the `i64` range.
pub open spec fn sat_i64(x: int) -> int {
    if x > i64::MAX {
        i64::MAX as int
    } else if x < i64::MIN {
        i64::MIN as int
    } else {
        x
    }
}

/// Clamp to the `i32` range.
pub open spec fn sat_i32(x: int) -> int {
    if x > i32::MAX {
        i32::MAX as int
    } else if x < i32::MIN {
        i32::MIN as int
    } else {
        x
    }
}

/// Saturating 64-bit addition, used when composing translations so that a
/// scene with absurdly large offsets stays well defined instead of wrapping.
pub fn sat_add64(a: i64, b: i64) -> (r: i64)
    ensures
        r == sat_i64(a + b),
{
    let s: i128 = (a as i128) + (b as i128);
    if s > i64::MAX as i128 {
        i64::MAX
    } else if s < i64::MIN as i128 {
        i64::MIN
    } else {
        s as i64
    }
}

/// Saturating narrowing of a coordinate to the voxel range.
pub fn sat_cast32(x: i64) -> (r: i32)
    ensures
        r == sat_i32(x as int),
{
    if x > i32::MAX as i64 {
        i32::MAX
    } else if x < i32::MIN as i64 {
        i32::MIN
    } else {
        x as i32
    }
}

// --- the scene graph ------------------------------------------------------

/// One voxel of a model: its position inside the model and its palette
/// index.
#[derive(Clone, Copy, PartialEq, Eq, Structural, Debug)]
pub struct SceneVoxel {
    pub pos: Vec3i,
    pub index: u8,
}

/// One dense voxel model: its dimensions and its occupied cells.
pub struct VoxModel {
    pub size: Vec3i,
    pub voxels: Vec<SceneVoxel>,
}

/// A node of the scene graph.
pub enum SceneGraph {
    /// References models of the model table by index.
    Shape { model_ids: Vec<u32> },
    /// Applies an optional translation and rotation, given as raw attribute
    /// text, to its single child.
    Transform { t_attr: Option<Vec<u8>>, r_attr: Option<Vec<u8>>, child: Box<SceneGraph> },
    /// A list of children, visited in order.
    Group { children: Vec<SceneGraph> },
}

/// Every model has nonnegative dimensions.
pub open spec fn models_wf(models: Seq<VoxModel>) -> bool {
    forall|i: int|
        0 <= i < models.len() ==> (#[trigger] models[i]).size.x >= 0 && models[i].size.y >= 0
            && models[i].size.z >= 0
}

/// Every shape references an existing model, and every rotation attribute
/// that parses denotes one of the 24 rotations.
pub open spec fn graph_wf(node: SceneGraph, n_models: int) -> bool
    decreases node,
{
    match node {
        SceneGraph::Shape { model_ids } => forall|i: int|
            0 <= i < model_ids@.len() ==> (#[trigger] model_ids@[i]) < n_models,
        SceneGraph::Transform { t_attr, r_attr, child } => {
            &&& (match r_attr {
                Some(a) => match rot_byte_of(a@) {
                    Some(b) => rot_of_byte(b) is Some,
                    None => true,
                },
                None => true,
            })
            &&& graph_wf(*child, n_models)
        },
        SceneGraph::Group { children } => forall|i: int|
            0 <= i < children@.len() ==> graph_wf(#[trigger] children@[i], n_models),
    }
}

/// Where a model voxel lands in the world: rotated about the model's
/// center, translated, then passed through the engine's fixed y/z swap.
pub open spec fn baked_pos(p: Vec3i, size: Vec3i, r: Rot, tx: int, ty: int, tz: int) -> Vec3i {
    let lx = p.x - size.x / 2;
    let ly = p.y - size.y / 2;
    let lz = p.z - size.z / 2;
    let wx = sat_i64(rot_x(r, lx, ly, lz) + tx);
    let wy = sat_i64(rot_y(r, lx, ly, lz) + ty);
    let wz = sat_i64(rot_z(r, lx, ly, lz) + tz);
    Vec3i { x: sat_i32(wx) as i32, y: sat_i32(wz) as i32, z: sat_i32(wy) as i32 }
}

/// Writes one model voxel into the map at its baked world position. The
/// empty palette index 0 is skipped, keeping every stored brick nonempty.
fn bake_voxel(
    map: &mut VoxelMap,
    v: SceneVoxel,
    size: Vec3i,
    r: Rot,
    tx: i64,
    ty: i64,
    tz: i64,
)
    requires
        old(map).wf(),
        r.wf(),
        size.x >= 0 && size.y >= 0 && size.z >= 0,
    ensures
        final(map).wf(),
        final(map).palette == old(map).palette,
        final(map)@ == write_target(
            old(map)@,
            (baked_pos(v.pos, size, r, tx as int, ty as int, tz as int), v.index),
        ),
{
    if v.index == 0 {
        return ;
    }
    let hx = size.x / 2;
    let hy = size.y / 2;
    let hz = size.z / 2;
    let lx: i64 = (v.pos.x as i64) - (hx as i64);
    let ly: i64 = (v.pos.y as i64) - (hy as i64);
    let lz: i64 = (v.pos.z as i64) - (hz as i64);
    let (rx, ry, rz) = rot_apply64(r, lx, ly, lz);
    let wx = sat_add64(rx, tx);
    let wy = sat_add64(ry, ty);
    let wz = sat_add64(rz, tz);
    let world = Vec3i::new(sat_cast32(wx), sat_cast32(wz), sat_cast32(wy));
    proof {
        assert(world == baked_pos(v.pos, size, r, tx as int, ty as int, tz as int));
    }
    map.set_voxel(world, v.index);
}

/// Applies a rotation to a 64-bit integer triple.
fn rot_apply64(r: Rot, x: i64, y: i64, z: i64) -> (o: (i64, i64, i64))
    requires
        r.wf(),
        x > i64::MIN && y > i64::MIN && z > i64::MIN,
    ensures
        o.0 == rot_x(r, x as int, y as int, z as int),
        o.1 == rot_y(r, x as int, y as int, z as int),
        o.2 == rot_z(r, x as int, y as int, z as int),
{
    let ax = pick_val(r.ix, x, y, z);
    let ay = pick_val(r.iy, x, y, z);
    let az = pick_val(r.iz, x, y, z);
    (
        if r.sx {
            -ax
        } else {
            ax
        },
        if r.sy {
            -ay
        } else {
            ay
        },
        if r.sz {
            -az
        } else {
            az
        },
    )
}

/// Component `a` of a 64-bit triple.
fn pick_val(a: u8, x: i64, y: i64, z: i64) -> (r: i64)
    requires
        a < 3,
    ensures
        r == axis_of(x as int, y as int, z as int, a as int),
{
    if a == 0 {
        x
    } else if a == 1 {
        y
    } else {
        z
    }
}

/// The world writes of one model under the accumulated transform: one per
/// model voxel, in the model's voxel order.
pub open spec fn model_writes(m: VoxModel, r: Rot, tx: int, ty: int, tz: int) -> Seq<
    (Vec3i, u8),
> {
    Seq::new(
        m.voxels@.len(),
        |k: int| (baked_pos(m.voxels@[k].pos, m.size, r, tx, ty, tz), m.voxels@[k].index),
    )
}

/// The writes of a shape's first `n` model references, in order.
pub open spec fn shape_writes(
    ids: Seq<u32>,
    models: Seq<VoxModel>,
    n: int,
    r: Rot,
    tx: int,
    ty: int,
    tz: int,
) -> Seq<(Vec3i, u8)>
    decreases n,
{
    if n <= 0 {
        Seq::empty()
    } else {
        shape_writes(ids, models, n - 1, r, tx, ty, tz) + model_writes(
            models[ids[n - 1] as int],
            r,
            tx,
            ty,
            tz,
        )
    }
}

/// The translation a transform node passes on: its parsed translation,
/// rotated by the accumulated rotation and added saturating; or the
/// inherited one when the attribute is absent or malformed.
pub open spec fn new_translation(
    t_attr: Option<Vec<u8>>,
    r: Rot,
    tx: int,
    ty: int,
    tz: int,
) -> (int, int, int) {
    match t_attr {
        Some(a) => match translation_of(a@) {
            Some(d) => (
                sat_i64(tx + rot_x(r, d.x as int, d.y as int, d.z as int)),
                sat_i64(ty + rot_y(r, d.x as int, d.y as int, d.z as int)),
                sat_i64(tz + rot_z(r, d.x as int, d.y as int, d.z as int)),
            ),
            None => (tx, ty, tz),
        },
        None => (tx, ty, tz),
    }
}

/// The rotation a transform node passes on: the accumulated rotation
/// composed with its decoded local rotation; or the inherited one when the
/// attribute is absent or malformed.
pub open spec fn new_rotation(r_attr: Option<Vec<u8>>, r: Rot) -> Rot {
    match r_attr {
        Some(a) => match rot_byte_of(a@) {
            Some(b) => match rot_of_byte(b) {
                Some(local) => rot_compose_spec(r, local),
                None => r,
            },
            None => r,
        },
        None => r,
    }
}

/// All world writes a scene graph node produces under the accumulated
/// transform, in depth-first visiting order.
pub open spec fn scene_writes(
    node: SceneGraph,
    models: Seq<VoxModel>,
    tx: int,
    ty: int,
    tz: int,
    r: Rot,
) -> Seq<(Vec3i, u8)>
    decreases node, 0int,
{
    match node {
        SceneGraph::Shape { model_ids } => shape_writes(
            model_ids@,
            models,
            model_ids@.len() as int,
            r,
            tx,
            ty,
            tz,
        ),
        SceneGraph::Transform { t_attr, r_attr, child } => {
            let nt = new_translation(t_attr, r, tx, ty, tz);
            scene_writes(*child, models, nt.0, nt.1, nt.2, new_rotation(r_attr, r))
        },
        SceneGraph::Group { children } => group_writes(
            children@,
            children@.len() as int,
            models,
            tx,
            ty,
            tz,
            r,
        ),
    }
}

/// The writes of the first `n` children of a group, in order.
pub open spec fn group_writes(
    cs: Seq<SceneGraph>,
    n: int,
    models: Seq<VoxModel>,
    tx: int,
    ty: int,
    tz: int,
    r: Rot,
) -> Seq<(Vec3i, u8)>
    decreases cs, n,
{
    if n <= 0 || n > cs.len() {
        Seq::empty()
    } else {
        group_writes(cs, n - 1, models, tx, ty, tz, r) + scene_writes(
            cs[n - 1],
            models,
            tx,
            ty,
            tz,
            r,
        )
    }
}

/// One write applied to the map: the written cell of the covering brick
/// takes the palette index, an absent brick first coming into being empty.
/// The empty palette index 0 writes nothing, so no stored brick can end up
/// without a nonzero cell.
pub open spec fn write_target(m: Map<Vec3i, Seq<u8>>, w: (Vec3i, u8)) -> Map<Vec3i, Seq<u8>> {
    if w.1 == 0 {
        m
    } else {
        m.insert(
            w.0.spec_chunk(),
            (if m.contains_key(w.0.spec_chunk()) {
                m[w.0.spec_chunk()]
            } else {
                Seq::new(512, |i: int| 0u8)
            }).update(crate::map::brick_index_spec(w.0.spec_local()), w.1),
        )
    }
}

/// Every stored brick holds at least one nonzero cell: the map invariant
/// the tree compiler's emptiness pruning relies on.
pub open spec fn bricks_nonempty(m: Map<Vec3i, Seq<u8>>) -> bool {
    forall|q: Vec3i| #[trigger]
        m.contains_key(q) ==> exists|i: int| 0 <= i < 512 && m[q][i] != 0
}

/// The first `n` writes applied to the map in order; a later write to the
/// same cell wins.
pub open spec fn apply_writes(
    m: Map<Vec3i, Seq<u8>>,
    ws: Seq<(Vec3i, u8)>,
    n: int,
) -> Map<Vec3i, Seq<u8>>
    decreases n,
{
    if n <= 0 {
        m
    } else {
        write_target(apply_writes(m, ws, n - 1), ws[n - 1])
    }
}

/// Applying writes only reads the sequence below `n`, so write sequences
/// that agree there apply alike.
proof fn lemma_apply_writes_congruent(
    m: Map<Vec3i, Seq<u8>>,
    ws1: Seq<(Vec3i, u8)>,
    ws2: Seq<(Vec3i, u8)>,
    n: int,
)
    requires
        forall|j: int| 0 <= j < n ==> ws1[j] == ws2[j],
    ensures
        apply_writes(m, ws1, n) == apply_writes(m, ws2, n),
    decreases n,
{
    if n > 0 {
        lemma_apply_writes_congruent(m, ws1, ws2, n - 1);
    }
}

/// Applying a concatenation applies the two parts in sequence.
proof fn lemma_apply_writes_concat(
    m: Map<Vec3i, Seq<u8>>,
    ws1: Seq<(Vec3i, u8)>,
    ws2: Seq<(Vec3i, u8)>,
    k: int,
)
    requires
        0 <= k <= ws2.len(),
    ensures
        apply_writes(m, ws1 + ws2, ws1.len() + k) == apply_writes(
            apply_writes(m, ws1, ws1.len() as int),
            ws2,
            k,
        ),
    decreases k,
{
    if k == 0 {
        lemma_apply_writes_congruent(m, ws1 + ws2, ws1, ws1.len() as int);
    } else {
        lemma_apply_writes_concat(m, ws1, ws2, k - 1);
        assert((ws1 + ws2)[ws1.len() + k - 1] == ws2[k - 1]);
    }
}

/// Chunk keys written by the scene voxelizer stay well inside the
/// representable range, so the final shift to positive coordinates is always
/// possible.
pub open spec fn keys_in_chunk_range(m: Map<Vec3i, Seq<u8>>) -> bool {
    forall|q: Vec3i| #[trigger]
        m.contains_key(q) ==> -0x1000_0000 <= q.x <= 0x0FFF_FFFF && -0x1000_0000 <= q.y
            <= 0x0FFF_FFFF && -0x1000_0000 <= q.z <= 0x0FFF_FFFF
}

/// Depth-first descent of the scene graph: transforms compose
/// rotate-then-translate in parent space, groups visit their children in
/// order, and shapes bake each voxel of each referenced model through the
/// accumulated transform into the map. The map afterwards is exactly the
/// map before with the node's writes applied in visiting order.
#[verifier::loop_isolation(false)]
#[verifier::rlimit(100)]
#[verifier::spinoff_prover]
pub fn descend_scene(
    map: &mut VoxelMap,
    node: &SceneGraph,
    models: &Vec<VoxModel>,
    tx: i64,
    ty: i64,
    tz: i64,
    rot: Rot,
)
    requires
        old(map).wf(),
        keys_in_chunk_range(old(map)@),
        rot.wf(),
        models_wf(models@),
        graph_wf(*node, models@.len() as int),
    ensures
        final(map).wf(),
        keys_in_chunk_range(final(map)@),
        bricks_nonempty(old(map)@) ==> bricks_nonempty(final(map)@),
        final(map).palette == old(map).palette,
        final(map)@ == apply_writes(
            old(map)@,
            scene_writes(*node, models@, tx as int, ty as int, tz as int, rot),
            scene_writes(*node, models@, tx as int, ty as int, tz as int, rot).len() as int,
        ),
    decreases node,
{
    match node {
        SceneGraph::Shape { model_ids } => {
            let ghost m0 = map@;
            let mut i: usize = 0;
            while i < model_ids.len()
                invariant
                    map.wf(),
                    keys_in_chunk_range(map@),
                    bricks_nonempty(old(map)@) ==> bricks_nonempty(map@),
                    map.palette == old(map).palette,
                    i <= model_ids@.len(),
                    map@ == apply_writes(
                        m0,
                        shape_writes(
                            model_ids@,
                            models@,
                            i as int,
                            rot,
                            tx as int,
                            ty as int,
                            tz as int,
                        ),
                        shape_writes(
                            model_ids@,
                            models@,
                            i as int,
                            rot,
                            tx as int,
                            ty as int,
                            tz as int,
                        ).len() as int,
                    ),
                decreases model_ids@.len() - i,
            {
                let id = model_ids[i] as usize;
                let model = &models[id];
                let ghost sw = shape_writes(
                    model_ids@,
                    models@,
                    i as int,
                    rot,
                    tx as int,
                    ty as int,
                    tz as int,
                );
                let ghost mw = model_writes(*model, rot, tx as int, ty as int, tz as int);
                proof {
                    lemma_apply_writes_congruent(m0, sw + mw, sw, sw.len() as int);
                }
                let mut k: usize = 0;
                while k < model.voxels.len()
                    invariant
                        map.wf(),
                        keys_in_chunk_range(map@),
                        bricks_nonempty(old(map)@) ==> bricks_nonempty(map@),
                        map.palette == old(map).palette,
                        k <= model.voxels@.len(),
                        mw == model_writes(*model, rot, tx as int, ty as int, tz as int),
                        map@ == apply_writes(m0, sw + mw, sw.len() + k),
                    decreases model.voxels@.len() - k,
                {
                    let ghost m_pre = map@;
                    proof {
                        crate::map::lemma_wf_values_full(map);
                    }
                    bake_voxel(map, model.voxels[k], model.size, rot, tx, ty, tz);
                    proof {
                        let w = mw[k as int];
                        assert(w == ((sw + mw)[sw.len() + k]));
                        assert(map@ == write_target(m_pre, w));
                        assert(map@ == apply_writes(m0, sw + mw, sw.len() + k + 1));
                        lemma_chunk_axis_bounds(w.0.x as int);
                        lemma_chunk_axis_bounds(w.0.y as int);
                        lemma_chunk_axis_bounds(w.0.z as int);
                        assert forall|q: Vec3i| #[trigger] map@.contains_key(q) implies
                            -0x1000_0000 <= q.x <= 0x0FFF_FFFF && -0x1000_0000 <= q.y
                            <= 0x0FFF_FFFF && -0x1000_0000 <= q.z <= 0x0FFF_FFFF by {
                            if q != w.0.spec_chunk() {
                                assert(m_pre.contains_key(q));
                            }
                        }
                        // A nonzero write keeps every stored brick nonempty:
                        // the written cell itself is the witness.
                        if bricks_nonempty(old(map)@) && w.1 != 0 {
                            let wi = crate::map::brick_index_spec(w.0.spec_local());
                            vstd::arithmetic::div_mod::lemma_mod_bound(w.0.x as int, 8);
                            vstd::arithmetic::div_mod::lemma_mod_bound(w.0.y as int, 8);
                            vstd::arithmetic::div_mod::lemma_mod_bound(w.0.z as int, 8);
                            assert(0 <= wi < 512);
                            assert forall|q: Vec3i| #[trigger] map@.contains_key(q) implies
                                exists|c: int| 0 <= c < 512 && map@[q][c] != 0 by {
                                if q == w.0.spec_chunk() {
                                    assert(map@[q][wi] == w.1);
                                } else {
                                    assert(m_pre.contains_key(q));
                                    let c0 = choose|c: int|
                                        0 <= c < 512 && m_pre[q][c] != 0;
                                    assert(map@[q][c0] != 0);
                                }
                            }
                        }
                    }
                    k += 1;
                }
                proof {
                    // Folding this model's writes onto the prefix of shapes
                    // visited so far yields the next prefix.
                    assert(shape_writes(
                        model_ids@,
                        models@,
                        i + 1,
                        rot,
                        tx as int,
                        ty as int,
                        tz as int,
                    ) =~= sw + mw);
                }
                i += 1;
            }
        },
        SceneGraph::Transform { t_attr, r_attr, child } => {
            let (ntx, nty, ntz) = match t_attr {
                Some(attr) => match parse_translation(attr) {
                    Some(d) => {
                        let (rx, ry, rz) = rot_apply64(rot, d.x as i64, d.y as i64, d.z as i64);
                        (sat_add64(tx, rx), sat_add64(ty, ry), sat_add64(tz, rz))
                    },
                    None => (tx, ty, tz),
                },
                None => (tx, ty, tz),
            };
            proof {
                assert((ntx as int, nty as int, ntz as int) == new_translation(
                    *t_attr,
                    rot,
                    tx as int,
                    ty as int,
                    tz as int,
                ));
            }
            let nrot = match r_attr {
                Some(attr) => match parse_rot_byte(attr) {
                    Some(b) => match rot_from_byte(b) {
                        Some(local) => rot_compose(rot, local),
                        None => {
                            proof {
                                assert(false);
                            }
                            rot
                        },
                    },
                    None => rot,
                },
                None => rot,
            };
            proof {
                assert(nrot == new_rotation(*r_attr, rot));
            }
            descend_scene(map, child, models, ntx, nty, ntz, nrot);
        },
        SceneGraph::Group { children } => {
            let ghost m0 = map@;
            let mut i: usize = 0;
            while i < children.len()
                invariant
                    map.wf(),
                    keys_in_chunk_range(map@),
                    bricks_nonempty(old(map)@) ==> bricks_nonempty(map@),
                    map.palette == old(map).palette,
                    i <= children@.len(),
                    map@ == apply_writes(
                        m0,
                        group_writes(
                            children@,
                            i as int,
                            models@,
                            tx as int,
                            ty as int,
                            tz as int,
                            rot,
                        ),
                        group_writes(
                            children@,
                            i as int,
                            models@,
                            tx as int,
                            ty as int,
                            tz as int,
                            rot,
                        ).len() as int,
                    ),
                decreases children@.len() - i,
            {
                proof {
                    assert(decreases_to!(*node => node->Group_children@[i as int]));
                }
                let ghost m_pre = map@;
                let ghost gw = group_writes(
                    children@,
                    i as int,
                    models@,
                    tx as int,
                    ty as int,
                    tz as int,
                    rot,
                );
                let ghost cw = scene_writes(
                    children@[i as int],
                    models@,
                    tx as int,
                    ty as int,
                    tz as int,
                    rot,
                );
                descend_scene(map, &children[i], models, tx, ty, tz, rot);
                proof {
                    lemma_apply_writes_concat(m0, gw, cw, cw.len() as int);
                    assert(group_writes(
                        children@,
                        i + 1,
                        models@,
                        tx as int,
                        ty as int,
                        tz as int,
                        rot,
                    ) =~= gw + cw);
                }
                i += 1;
            }
        },
    }
}

/// Bakes a whole voxel scene: starts from an empty map with the given
/// palette, descends the graph from the identity transform, and shifts the
/// result to nonnegative chunk coordinates.
pub fn voxelize_scene(models: &Vec<VoxModel>, graph: &SceneGraph, palette: &Vec<u32>) -> (m:
    VoxelMap)
    requires
        models_wf(models@),
        graph_wf(*graph, models@.len() as int),
        palette@.len() == 256,
    ensures
        m.wf(),
        m.palette@ == palette@,
        forall|q: Vec3i| #[trigger] m@.contains_key(q) ==> q.x >= 0 && q.y >= 0 && q.z >= 0,
        bricks_nonempty(m@),
        exists|o: Vec3i| #[trigger] crate::map::is_positive_shift(
            apply_writes(
                Map::empty(),
                scene_writes(*graph, models@, 0, 0, 0, Rot::identity_spec()),
                scene_writes(*graph, models@, 0, 0, 0, Rot::identity_spec()).len() as int,
            ),
            m@,
            o,
        ),
{
    let mut map = VoxelMap::new();
    let mut pal: Vec<u32> = Vec::new();
    let mut i: usize = 0;
    while i < 256
        invariant
            palette@.len() == 256,
            i <= 256,
            pal@ == palette@.subrange(0, i as int),
        decreases 256 - i,
    {
        pal.push(palette[i]);
        proof {
            assert(pal@ =~= palette@.subrange(0, i + 1));
        }
        i += 1;
    }
    proof {
        assert(pal@ =~= palette@);
    }
    map.palette = pal;
    let rot = Rot::identity();
    descend_scene(&mut map, graph, models, 0, 0, 0, rot);
    let ghost mid = map@;
    map.shift_to_positive();
    proof {
        // The shift only relabels chunk keys, so the brick invariant is
        // carried across by the translation.
        let o = choose|o: Vec3i| #[trigger] crate::map::is_positive_shift(mid, map@, o);
        assert forall|q: Vec3i| #[trigger] map@.contains_key(q) implies exists|c: int|
            0 <= c < 512 && map@[q][c] != 0 by {
            let p = choose|p: Vec3i|
                mid.contains_key(p) && #[trigger] crate::map::offset_key(p, o, q);
            assert(map@[q] == mid[p]);
            let c0 = choose|c: int| 0 <= c < 512 && mid[p][c] != 0;
            assert(map@[q][c0] != 0);
        }
    }
    map
}

/// Packs four color channel bytes into the engine's packed little-endian
/// RGBA word, the form palette entries take in the map and the tree. The
/// channels keep the source file's encoding: any color-space conversion
/// (such as sRGB to linear) is the renderer's concern, not the pipeline's.
pub fn pack_rgba(r: u8, g: u8, b: u8, a: u8) -> (w: u32)
    ensures
        w == r + g * 0x100 + b * 0x1_0000 + a * 0x100_0000,
{
    (r as u32) + (g as u32) * 0x100 + (b as u32) * 0x1_0000 + (a as u32) * 0x100_0000
}

} // verus!
