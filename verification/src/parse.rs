//! The scenario and path text formats, on bytes.
//!
//! Both formats are whitespace-separated decimal integers.  A scenario text
//! is the three category counts, then one `x y` line per point, burnable
//! block first, then non-burnable, then recyclable.  A path text is a flat
//! integer sequence whose length is a positive multiple of 8: the initial
//! frame and the step frames.  Parsing rejects, with `None`, any token that
//! is not an integer fitting `i32`, a path of the wrong shape, or a
//! scenario with fewer coordinates than its counts announce.

use vstd::prelude::*;
use vstd::arithmetic::div_mod::lemma_fundamental_div_mod;
use crate::model::{in_domain, GKind, Garbage, Input, Output, Step};

verus! {

/// The whitespace bytes: space, tab, newline, carriage return.
pub open spec fn is_ws(b: u8) -> bool {
    b == 32 || b == 9 || b == 10 || b == 13
}

/// Decimal digit bytes.
pub open spec fn is_digit_b(b: u8) -> bool {
    48 <= b <= 57
}

/// Length of the whitespace run starting at `i`.
pub open spec fn ws_len(s: Seq<u8>, i: int) -> nat
    decreases s.len() - i,
{
    if 0 <= i < s.len() && is_ws(s[i]) {
        (1 + ws_len(s, i + 1)) as nat
    } else {
        0
    }
}

/// Length of the non-whitespace run starting at `i`.
pub open spec fn tok_len(s: Seq<u8>, i: int) -> nat
    decreases s.len() - i,
{
    if 0 <= i < s.len() && !is_ws(s[i]) {
        (1 + tok_len(s, i + 1)) as nat
    } else {
        0
    }
}

pub open spec fn all_digits(t: Seq<u8>) -> bool {
    forall|i: int| 0 <= i < t.len() ==> is_digit_b(#[trigger] t[i])
}

/// The value of a digit string, most significant digit first.
pub open spec fn digits_val(t: Seq<u8>) -> int
    decreases t.len(),
{
    if t.len() == 0 {
        0
    } else {
        digits_val(t.drop_last()) * 10 + (t.last() - 48)
    }
}

/// The integer a token denotes: an optional sign, then at least one digit.
pub open spec fn int_of_token(t: Seq<u8>) -> Option<int> {
    if t.len() >= 1 && (t[0] == 45 || t[0] == 43) {
        let d = t.subrange(1, t.len() as int);
        if d.len() >= 1 && all_digits(d) {
            Some(
                if t[0] == 45 {
                    -digits_val(d)
                } else {
                    digits_val(d)
                },
            )
        } else {
            None
        }
    } else if t.len() >= 1 && all_digits(t) {
        Some(digits_val(t))
    } else {
        None
    }
}

/// The integers denoted by the tokens of `s` from position `i` on, or
/// `None` if some token is not an integer.
pub open spec fn parsed_ints(s: Seq<u8>, i: int) -> Option<Seq<int>>
    decreases s.len() - i,
    when i >= 0
{
    let j = i + ws_len(s, i);
    if !(j < s.len()) {
        Some(Seq::empty())
    } else {
        let k0 = j + 1 + tok_len(s, j + 1);
        let k = if k0 > s.len() {
            s.len() as int
        } else {
            k0
        };
        match (int_of_token(s.subrange(j, k)), parsed_ints(s, k)) {
            (Some(x), Some(rest)) => Some(seq![x] + rest),
            _ => None,
        }
    }
}

/// Every token of `s` is an integer that fits `i32`.
pub open spec fn ints_ok(s: Seq<u8>) -> bool {
    match parsed_ints(s, 0) {
        Some(vs) => forall|i: int|
            0 <= i < vs.len() ==> -2147483648 <= #[trigger] vs[i] <= 2147483647,
        None => false,
    }
}

pub open spec fn pow10(k: nat) -> int
    decreases k,
{
    if k == 0 {
        1
    } else {
        10 * pow10((k - 1) as nat)
    }
}

proof fn lemma_digits_val_min(t: Seq<u8>)
    requires
        all_digits(t),
        t.len() >= 1,
        t[0] != 48,
    ensures
        digits_val(t) >= pow10((t.len() - 1) as nat),
    decreases t.len(),
{
    if t.len() == 1 {
    } else {
        assert(all_digits(t.drop_last()) && t.drop_last()[0] == t[0]) by {
            assert(forall|i: int| 0 <= i < t.len() - 1 ==> t.drop_last()[i] == t[i]);
        }
        lemma_digits_val_min(t.drop_last());
        assert(pow10((t.len() - 1) as nat) == 10 * pow10((t.len() - 2) as nat));
        assert(is_digit_b(t.last()));
        assert(digits_val(t.drop_last()) * 10 >= pow10((t.len() - 2) as nat) * 10)
            by (nonlinear_arith)
            requires
                digits_val(t.drop_last()) >= pow10((t.len() - 2) as nat),
        ;
    }
}

proof fn lemma_pow10_ge(k: nat)
    requires
        k >= 10,
    ensures
        pow10(k) >= 10_000_000_000,
    decreases k,
{
    if k == 10 {
        assert(pow10(10) == 10_000_000_000) by {
            reveal_with_fuel(pow10, 11);
        }
    } else {
        lemma_pow10_ge((k - 1) as nat);
    }
}

/// A zero prefix does not change a digit string's value.
proof fn lemma_digits_zeros(t: Seq<u8>, z: int)
    requires
        0 <= z <= t.len(),
        forall|i: int| 0 <= i < z ==> t[i] == 48,
    ensures
        digits_val(t) == digits_val(t.subrange(z, t.len() as int)),
    decreases t.len(),
{
    if t.len() == 0 {
        assert(t.subrange(0, 0) =~= t);
    } else if z == t.len() {
        assert(t.drop_last() =~= t.subrange(0, t.len() - 1));
        lemma_digits_zeros(t.drop_last(), z - 1);
        assert(t.drop_last().subrange(z - 1, t.len() - 1) =~= Seq::empty());
        assert(t.subrange(z, t.len() as int) =~= Seq::empty());
    } else {
        lemma_digits_zeros(t.drop_last(), z);
        assert(t.subrange(z, t.len() as int).drop_last() =~= t.drop_last().subrange(
            z,
            t.len() - 1,
        ));
        assert(t.subrange(z, t.len() as int).last() == t.last());
    }
}

/// Whitespace runs are invariant under a prefix shift.
proof fn lemma_ws_shift(t: Seq<u8>, s: Seq<u8>, i: int)
    requires
        i >= 0,
    ensures
        ws_len(t + s, t.len() + i) == ws_len(s, i),
    decreases s.len() - i,
{
    if i < s.len() {
        assert((t + s)[t.len() + i] == s[i]);
        if is_ws(s[i]) {
            lemma_ws_shift(t, s, i + 1);
        }
    }
}

proof fn lemma_tok_shift(t: Seq<u8>, s: Seq<u8>, i: int)
    requires
        i >= 0,
    ensures
        tok_len(t + s, t.len() + i) == tok_len(s, i),
    decreases s.len() - i,
{
    if i < s.len() {
        assert((t + s)[t.len() + i] == s[i]);
        if !is_ws(s[i]) {
            lemma_tok_shift(t, s, i + 1);
        }
    }
}

/// Parsing is invariant under a prefix shift.
proof fn lemma_parse_shift(t: Seq<u8>, s: Seq<u8>, i: int)
    requires
        i >= 0,
    ensures
        parsed_ints(t + s, t.len() + i) == parsed_ints(s, i),
    decreases s.len() - i,
{
    lemma_ws_shift(t, s, i);
    let j = i + ws_len(s, i);
    if j < s.len() {
        lemma_tok_shift(t, s, j + 1);
        let k0 = j + 1 + tok_len(s, j + 1);
        let k = if k0 > s.len() {
            s.len() as int
        } else {
            k0
        };
        assert((t + s).subrange(t.len() + j, t.len() + k) =~= s.subrange(j, k));
        lemma_parse_shift(t, s, k);
    }
}

/// Skipping one leading whitespace byte does not change the parse.
proof fn lemma_skip_ws(s: Seq<u8>, i: int)
    requires
        0 <= i < s.len(),
        is_ws(s[i]),
    ensures
        parsed_ints(s, i) == parsed_ints(s, i + 1),
{
    assert(ws_len(s, i) == 1 + ws_len(s, i + 1));
}

/// A leading all-digit token prepends its value to the parse of the rest,
/// when the rest is empty or starts with whitespace.
proof fn lemma_token_head(t: Seq<u8>, s: Seq<u8>)
    requires
        t.len() >= 1,
        all_digits(t),
        s.len() == 0 || is_ws(s[0]),
    ensures
        parsed_ints(t + s, 0) == match parsed_ints(s, 0) {
            Some(rest) => Some(seq![digits_val(t)] + rest),
            None => None::<Seq<int>>,
        },
{
    lemma_tok_run(t, s, 1);
    assert(ws_len(t + s, 0) == 0);
    let u = t + s;
    let k0 = 1 + tok_len(u, 1);
    assert(k0 == t.len());
    assert(u.subrange(0, t.len() as int) =~= t);
    assert(int_of_token(t) == Some(digits_val(t)));
    lemma_parse_shift(t, s, 0);
}

/// Inside a leading digit token, the token run extends to the token's end.
proof fn lemma_tok_run(t: Seq<u8>, s: Seq<u8>, i: int)
    requires
        0 <= i <= t.len(),
        all_digits(t),
        s.len() == 0 || is_ws(s[0]),
    ensures
        tok_len(t + s, i) == t.len() - i,
    decreases t.len() - i,
{
    if i < t.len() {
        assert((t + s)[i] == t[i]);
        lemma_tok_run(t, s, i + 1);
    } else {
        if s.len() > 0 {
            assert((t + s)[i] == s[0]);
        }
    }
}

/// The decimal byte string of `n >= 0`.
pub open spec fn dec_bytes(n: int) -> Seq<u8>
    decreases n,
    when n >= 0
{
    if n < 10 {
        seq![(48 + n) as u8]
    } else {
        dec_bytes(n / 10).push((48 + n % 10) as u8)
    }
}

proof fn lemma_dec_bytes_digits(n: int)
    requires
        n >= 0,
    ensures
        dec_bytes(n).len() >= 1,
        all_digits(dec_bytes(n)),
    decreases n,
{
    if n >= 10 {
        lemma_dec_bytes_digits(n / 10);
        assert(forall|i: int|
            0 <= i < dec_bytes(n / 10).len() ==> dec_bytes(n)[i] == dec_bytes(n / 10)[i]);
        assert(dec_bytes(n).last() == (48 + n % 10) as u8);
    }
}

proof fn lemma_dec_bytes_val(n: int)
    requires
        n >= 0,
    ensures
        digits_val(dec_bytes(n)) == n,
    decreases n,
{
    if n < 10 {
        let t = seq![(48 + n) as u8];
        assert(t.drop_last() =~= Seq::<u8>::empty());
        assert(digits_val(t.drop_last()) == 0);
        assert(t.last() == (48 + n) as u8);
        assert(((48 + n) as u8) - 48 == n);
    } else {
        lemma_dec_bytes_val(n / 10);
        assert(dec_bytes(n).drop_last() =~= dec_bytes(n / 10));
        assert(dec_bytes(n).last() == (48 + n % 10) as u8);
        assert(0 <= n % 10 < 10);
        assert(((48 + n % 10) as u8) - 48 == n % 10);
        lemma_fundamental_div_mod(n, 10);
    }
}

/// One scenario line: `x y` and a newline.
pub open spec fn line_of(g: Garbage) -> Seq<u8> {
    dec_bytes(g.x as int) + seq![32u8] + dec_bytes(g.y as int) + seq![10u8]
}

/// The point lines of a scenario, in order.
pub open spec fn lines_of(s: Seq<Garbage>) -> Seq<u8>
    decreases s.len(),
{
    if s.len() == 0 {
        Seq::empty()
    } else {
        line_of(s[0]) + lines_of(s.drop_first())
    }
}

/// The text of a scenario: the counts line, then the point lines.
pub open spec fn render(inp: Input) -> Seq<u8> {
    dec_bytes(inp.X as int) + seq![32u8] + dec_bytes(inp.Y as int) + seq![32u8] + dec_bytes(
        inp.Z as int,
    ) + seq![10u8] + lines_of(inp.garbage@)
}

/// The coordinates of the points, flattened in order.
pub open spec fn flat_pts(s: Seq<Garbage>) -> Seq<int>
    decreases s.len(),
{
    if s.len() == 0 {
        Seq::empty()
    } else {
        seq![s[0].x as int, s[0].y as int] + flat_pts(s.drop_first())
    }
}

/// The integer sequence of a rendered scenario.
pub open spec fn flat_input(inp: Input) -> Seq<int> {
    seq![inp.X as int, inp.Y as int, inp.Z as int] + flat_pts(inp.garbage@)
}

/// The point a scenario integer sequence puts at index `i`, given the first
/// two counts.
pub open spec fn point_block(vs: Seq<int>, x: int, y: int, i: int) -> Garbage {
    Garbage {
        x: vs[3 + 2 * i] as i32,
        y: vs[3 + 2 * i + 1] as i32,
        kind: if i < x {
            GKind::Burn
        } else if i < x + y {
            GKind::NonBurn
        } else {
            GKind::Recycle
        },
    }
}

/// The scenario denoted by an integer sequence: the three counts, then at
/// least as many coordinate pairs; surplus trailing integers are ignored.
pub open spec fn input_of(vs: Seq<int>) -> Option<(int, int, int, Seq<Garbage>)> {
    if vs.len() >= 3 && 0 <= vs[0] && 0 <= vs[1] && 0 <= vs[2] && vs.len() >= 3 + 2 * (vs[0]
        + vs[1] + vs[2]) {
        Some(
            (
                vs[0],
                vs[1],
                vs[2],
                Seq::new((vs[0] + vs[1] + vs[2]) as nat, |i: int| point_block(vs, vs[0], vs[1], i)),
            ),
        )
    } else {
        None
    }
}

/// A byte sequence is a well-formed scenario text.
pub open spec fn scenario_text_ok(s: Seq<u8>) -> bool {
    &&& ints_ok(s)
    &&& match parsed_ints(s, 0) {
        Some(vs) => input_of(vs) is Some,
        None => false,
    }
}

/// A byte sequence is a well-formed path text: all integer tokens, at least
/// 8 of them, a multiple of 8.
pub open spec fn path_text_ok(s: Seq<u8>) -> bool {
    &&& ints_ok(s)
    &&& match parsed_ints(s, 0) {
        Some(vs) => vs.len() >= 8 && vs.len() % 8 == 0,
        None => false,
    }
}

} // verus!

verus! {

/// A value outside the `i32` range at the head of the remaining tokens
/// refutes `ints_ok`.
proof fn lemma_not_ok(s: Seq<u8>, vals: Seq<int>, i: int, val: int, tail: Option<Seq<int>>)
    requires
        match parsed_ints(s, i) {
            Some(ys) => parsed_ints(s, 0) == Some(vals + ys),
            None => parsed_ints(s, 0) is None,
        },
        parsed_ints(s, i) == (match tail {
            Some(rest) => Some(seq![val] + rest),
            None => None::<Seq<int>>,
        }),
        val < -2147483648 || val > 2147483647,
    ensures
        !ints_ok(s),
{
    match tail {
        Some(rest) => {
            if ints_ok(s) {
                match parsed_ints(s, 0) {
                    Some(vs0) => {
                        assert(vs0 == vals + (seq![val] + rest));
                        assert(vs0[vals.len() as int] == val);
                    },
                    None => {},
                }
            }
        },
        None => {},
    }
}

fn is_ws_b(b: u8) -> (r: bool)
    ensures
        r == is_ws(b),
{
    b == 32 || b == 9 || b == 10 || b == 13
}

/// Parse every whitespace-separated token of `src` as an `i32`.  `None`
/// exactly when some token is not an integer or does not fit `i32`.
#[verifier::rlimit(60)]
pub fn parse_i32s(src: &[u8]) -> (r: Option<Vec<i32>>)
    ensures
        r is Some <==> ints_ok(src@),
        match r {
            Some(v) => match parsed_ints(src@, 0) {
                Some(vs) => v@.len() == vs.len() && forall|k: int|
                    0 <= k < vs.len() ==> v@[k] == vs[k],
                None => false,
            },
            None => true,
        },
{
    let n = src.len();
    let mut v: Vec<i32> = Vec::new();
    let ghost mut vals: Seq<int> = Seq::empty();
    let mut i: usize = 0;
    while i < n
        invariant
            i <= n,
            n == src@.len(),
            v@.len() == vals.len(),
            forall|k: int| 0 <= k < vals.len() ==> v@[k] == vals[k],
            forall|k: int| 0 <= k < vals.len() ==> -2147483648 <= #[trigger] vals[k] <= 2147483647,
            match parsed_ints(src@, i as int) {
                Some(ys) => parsed_ints(src@, 0) == Some(vals + ys),
                None => parsed_ints(src@, 0) is None,
            },
        decreases n - i,
    {
        let b = src[i];
        if is_ws_b(b) {
            proof {
                lemma_skip_ws(src@, i as int);
            }
            i = i + 1;
        } else {
            let start = i;
            let mut e = i + 1;
            while e < n && !is_ws_b(src[e])
                invariant
                    start < e <= n,
                    n == src@.len(),
                    start < n,
                    !is_ws(src@[start as int]),
                    tok_len(src@, start + 1) == (e - start - 1) + tok_len(src@, e as int),
                decreases n - e,
            {
                e = e + 1;
            }
            proof {
                assert(tok_len(src@, e as int) == 0);
                assert(ws_len(src@, start as int) == 0);
            }
            let ghost tok = src@.subrange(start as int, e as int);
            let ghost tail = parsed_ints(src@, e as int);
            proof {
                // the parse at the token start steps over exactly [start, e)
                assert(parsed_ints(src@, start as int) == (match (int_of_token(tok), tail) {
                    (Some(x), Some(rest)) => Some(seq![x] + rest),
                    _ => None::<Seq<int>>,
                }));
            }
            // optional sign
            let mut ds = start;
            let mut neg = false;
            if src[start] == 45 {
                neg = true;
                ds = start + 1;
            } else if src[start] == 43 {
                ds = start + 1;
            }
            if ds == e {
                proof {
                    assert(tok.len() == 1 && (tok[0] == 45 || tok[0] == 43));
                    assert(tok.subrange(1, 1) =~= Seq::<u8>::empty());
                    assert(int_of_token(tok) is None);
                }
                return None;
            }
            // every remaining byte must be a digit
            let mut d = ds;
            while d < e
                invariant
                    ds <= d <= e,
                    e <= n,
                    ds <= start + 1,
                    start <= ds,
                    start < e,
                    n == src@.len(),
                    tok == src@.subrange(start as int, e as int),
                    tail == parsed_ints(src@, e as int),
                    ds == start ==> !(src@[start as int] == 45 || src@[start as int] == 43),
                    i == start,
                    match parsed_ints(src@, i as int) {
                        Some(ys) => parsed_ints(src@, 0) == Some(vals + ys),
                        None => parsed_ints(src@, 0) is None,
                    },
                    parsed_ints(src@, start as int) == (match (int_of_token(tok), tail) {
                        (Some(x), Some(rest)) => Some(seq![x] + rest),
                        _ => None::<Seq<int>>,
                    }),
                    forall|k: int| ds <= k < d ==> is_digit_b(#[trigger] src@[k]),
                decreases e - d,
            {
                let c = src[d];
                if c < 48 || c > 57 {
                    proof {
                        assert(tok[d - start] == src@[d as int]);
                        if ds > start {
                            let dig = tok.subrange(1, tok.len() as int);
                            assert(dig[d - start - 1] == src@[d as int]);
                            assert(!all_digits(dig));
                        } else {
                            assert(!all_digits(tok));
                        }
                        assert(int_of_token(tok) is None);
                    }
                    return None;
                }
                d = d + 1;
            }
            let ghost digs = src@.subrange(ds as int, e as int);
            proof {
                assert(forall|k: int| 0 <= k < digs.len() ==> digs[k] == src@[ds + k]);
                assert(all_digits(digs));
                // the token denotes the signed value of its digit part
                if ds > start {
                    assert(tok.subrange(1, tok.len() as int) =~= digs);
                    assert(tok[0] == 45 || tok[0] == 43);
                    assert(int_of_token(tok) == Some(
                        if tok[0] == 45 {
                            -digits_val(digs)
                        } else {
                            digits_val(digs)
                        },
                    ));
                } else {
                    assert(tok =~= digs);
                    assert(is_digit_b(tok[0]));
                    assert(int_of_token(tok) == Some(digits_val(digs)));
                }
            }
            let ghost tokval: int = if neg {
                -digits_val(digs)
            } else {
                digits_val(digs)
            };
            proof {
                assert(int_of_token(tok) == Some(tokval));
            }
            // strip leading zeros
            let mut z = ds;
            while z < e && src[z] == 48
                invariant
                    ds <= z <= e,
                    e <= n,
                    n == src@.len(),
                    forall|k: int| ds <= k < z ==> src@[k] == 48,
                decreases e - z,
            {
                z = z + 1;
            }
            let ghost dv = src@.subrange(z as int, e as int);
            proof {
                assert(forall|k: int| 0 <= k < z - ds ==> digs[k] == src@[ds + k]);
                lemma_digits_zeros(digs, z - ds);
                assert(digs.subrange(z - ds, digs.len() as int) =~= dv);
                assert(digits_val(digs) == digits_val(dv));
                assert(all_digits(dv)) by {
                    assert(forall|k: int| 0 <= k < dv.len() ==> dv[k] == digs[z - ds + k]);
                }
            }
            if z == e {
                // all zeros: the value is zero
                proof {
                    assert(dv =~= Seq::<u8>::empty());
                    assert(digits_val(dv) == 0);
                }
                v.push(0);
                proof {
                    assert(tokval == 0);
                    match tail {
                        Some(rest) => {
                            assert((vals + (seq![tokval] + rest)) =~= (vals.push(0) + rest));
                        },
                        None => {},
                    }
                    vals = vals.push(0);
                }
                i = e;
            } else {
                if e - z > 10 {
                    // at least 11 significant digits: outside the i32 range
                    proof {
                        assert(dv[0] == src@[z as int] && dv[0] != 48);
                        lemma_digits_val_min(dv);
                        lemma_pow10_ge((dv.len() - 1) as nat);
                        lemma_not_ok(src@, vals, i as int, tokval, tail);
                    }
                    return None;
                }
                // at most 10 digits: accumulate the exact value
                let mut a: u64 = 0;
                let mut d2 = z;
                while d2 < e
                    invariant
                        z <= d2 <= e,
                        e <= n,
                        e - z <= 10,
                        n == src@.len(),
                        forall|k: int| z <= k < e ==> is_digit_b(#[trigger] src@[k]),
                        a == digits_val(src@.subrange(z as int, d2 as int)),
                        a < pow10((d2 - z) as nat),
                    decreases e - d2,
                {
                    let c = src[d2];
                    proof {
                        let pre = src@.subrange(z as int, d2 as int);
                        let cur = src@.subrange(z as int, d2 + 1);
                        assert(cur.drop_last() =~= pre);
                        assert(cur.last() == src@[d2 as int]);
                        lemma_pow10_le((d2 + 1 - z) as nat, 10);
                        assert(pow10(10) == 10_000_000_000) by {
                            reveal_with_fuel(pow10, 11);
                        }
                    }
                    a = a * 10 + ((c - 48) as u64);
                    d2 = d2 + 1;
                }
                proof {
                    assert(src@.subrange(z as int, d2 as int) =~= dv);
                    assert(a == digits_val(dv));
                }
                let out_of_range: bool = if neg {
                    a > 2147483648
                } else {
                    a > 2147483647
                };
                if out_of_range {
                    proof {
                        lemma_not_ok(src@, vals, i as int, tokval, tail);
                    }
                    return None;
                }
                let v64: i64 = if neg {
                    -(a as i64)
                } else {
                    a as i64
                };
                let value: i32 = v64 as i32;
                v.push(value);
                proof {
                    assert(value as int == tokval);
                    match tail {
                        Some(rest) => {
                            assert((vals + (seq![tokval] + rest)) =~= (vals.push(value as int)
                                + rest));
                        },
                        None => {},
                    }
                    vals = vals.push(value as int);
                }
                i = e;
            }
        }
    }
    proof {
        assert(ws_len(src@, n as int) == 0);
        assert(parsed_ints(src@, n as int) == Some(Seq::<int>::empty()));
        match parsed_ints(src@, 0) {
            Some(vs) => {
                assert(vals + Seq::<int>::empty() =~= vals);
            },
            None => {
                assert(false);
            },
        }
    }
    Some(v)
}

proof fn lemma_pow10_le(a: nat, b: nat)
    requires
        a <= b,
    ensures
        1 <= pow10(a) <= pow10(b),
    decreases b,
{
    if a < b {
        lemma_pow10_le(a, (b - 1) as nat);
    } else if b > 0 {
        lemma_pow10_le((a - 1) as nat, (b - 1) as nat);
    }
}

} // verus!

verus! {

/// Parse a scenario text: the three counts, then at least that many `x y`
/// pairs (surplus trailing integers are ignored, as the format allows).
/// `None` exactly when the text is not a well-formed scenario.
pub fn parse_input(src: &[u8]) -> (r: Option<Input>)
    ensures
        r is Some <==> scenario_text_ok(src@),
        match r {
            Some(inp) => match parsed_ints(src@, 0) {
                Some(vs) => input_of(vs) == Some(
                    (inp.X as int, inp.Y as int, inp.Z as int, inp.garbage@),
                ) && inp.wf(),
                None => false,
            },
            None => true,
        },
{
    let v = match parse_i32s(src) {
        Some(v) => v,
        None => {
            return None;
        },
    };
    if v.len() < 3 {
        return None;
    }
    let x0 = v[0];
    let y0 = v[1];
    let z0 = v[2];
    if x0 < 0 || y0 < 0 || z0 < 0 {
        return None;
    }
    let total: u64 = x0 as u64 + y0 as u64 + z0 as u64;
    if (v.len() as u64) < 3 + 2 * total {
        return None;
    }
    let tot: usize = total as usize;
    let xc: usize = x0 as usize;
    let yc: usize = y0 as usize;
    let ghost vs = parsed_ints(src@, 0)->Some_0;
    let mut garbage: Vec<Garbage> = Vec::new();
    let mut i: usize = 0;
    while i < tot
        invariant
            i <= tot,
            tot == vs[0] + vs[1] + vs[2],
            xc == vs[0],
            yc == vs[1],
            v@.len() == vs.len(),
            forall|k: int| 0 <= k < vs.len() ==> v@[k] == vs[k],
            vs.len() >= 3 + 2 * tot,
            vs.len() <= usize::MAX,
            garbage@.len() == i,
            forall|j: int| 0 <= j < i ==> garbage@[j] == point_block(vs, xc as int, yc as int, j),
        decreases tot - i,
    {
        proof {
            assert(3 + 2 * (i as int) + 1 < vs.len());
        }
        let kind = if i < xc {
            GKind::Burn
        } else if i < xc + yc {
            GKind::NonBurn
        } else {
            GKind::Recycle
        };
        let g = Garbage { x: v[3 + 2 * i], y: v[3 + 2 * i + 1], kind };
        proof {
            assert(g == point_block(vs, xc as int, yc as int, i as int));
        }
        garbage.push(g);
        i = i + 1;
    }
    let inp = Input { X: xc, Y: yc, Z: z0 as usize, garbage };
    proof {
        assert(inp.garbage@ =~= Seq::new(
            (vs[0] + vs[1] + vs[2]) as nat,
            |j: int| point_block(vs, vs[0], vs[1], j),
        ));
    }
    Some(inp)
}

/// Parse a path text: a flat integer sequence whose length is a positive
/// multiple of 8; the first frame is the initial configuration.  `None`
/// exactly when the text is not a well-formed path.
pub fn parse_output(src: &[u8]) -> (r: Option<Output>)
    ensures
        r is Some <==> path_text_ok(src@),
        match r {
            Some(out) => match parsed_ints(src@, 0) {
                Some(vs) => {
                    &&& out.wf()
                    &&& out.q == vs.len() / 8 - 1
                    &&& forall|j: int| 0 <= j < 8 ==> out.init@[j] == vs[j]
                    &&& forall|t: int, j: int|
                        0 <= t < out.q && 0 <= j < 8 ==> out.steps@[t].0@[j] == vs[8 * (t + 1) + j]
                },
                None => false,
            },
            None => true,
        },
{
    let v = match parse_i32s(src) {
        Some(v) => v,
        None => {
            return None;
        },
    };
    if v.len() < 8 || v.len() % 8 != 0 {
        return None;
    }
    let ghost vs = parsed_ints(src@, 0)->Some_0;
    let init: [i32; 8] = [v[0], v[1], v[2], v[3], v[4], v[5], v[6], v[7]];
    let q: usize = v.len() / 8 - 1;
    let mut steps: Vec<Step> = Vec::new();
    let mut t: usize = 0;
    while t < q
        invariant
            t <= q,
            q == vs.len() / 8 - 1,
            vs.len() % 8 == 0,
            vs.len() >= 8,
            vs.len() <= usize::MAX,
            v@.len() == vs.len(),
            forall|k: int| 0 <= k < vs.len() ==> v@[k] == vs[k],
            steps@.len() == t,
            forall|u: int, j: int|
                0 <= u < t && 0 <= j < 8 ==> steps@[u].0@[j] == vs[8 * (u + 1) + j],
        decreases q - t,
    {
        proof {
            assert(8 * (t + 1) + 8 <= vs.len()) by (nonlinear_arith)
                requires
                    t < q,
                    q == vs.len() / 8 - 1,
                    vs.len() % 8 == 0,
                    vs.len() >= 8,
            ;
        }
        let base: usize = 8 * (t + 1);
        let s = Step(
            [
                v[base],
                v[base + 1],
                v[base + 2],
                v[base + 3],
                v[base + 4],
                v[base + 5],
                v[base + 6],
                v[base + 7],
            ],
        );
        steps.push(s);
        t = t + 1;
    }
    Some(Output { q, init, steps })
}

/// Append the decimal digits of `n`.
fn push_dec(out: &mut Vec<u8>, n: u64)
    ensures
        final(out)@ == old(out)@ + dec_bytes(n as int),
    decreases n,
{
    if n < 10 {
        out.push(48 + n as u8);
        proof {
            assert(old(out)@ + dec_bytes(n as int) =~= out@);
        }
    } else {
        push_dec(out, n / 10);
        out.push(48 + (n % 10) as u8);
        proof {
            assert((n % 10) as int == (n as int) % 10);
            assert(old(out)@ + dec_bytes(n as int) =~= out@);
        }
    }
}

/// Render a scenario as text: the counts line, then one line per point.
pub fn format_input(inp: &Input) -> (r: Vec<u8>)
    requires
        forall|i: int| 0 <= i < inp.garbage@.len() ==> in_domain(#[trigger] inp.garbage@[i]),
    ensures
        r@ == render(*inp),
{
    let mut out: Vec<u8> = Vec::new();
    push_dec(&mut out, inp.X as u64);
    out.push(32);
    push_dec(&mut out, inp.Y as u64);
    out.push(32);
    push_dec(&mut out, inp.Z as u64);
    out.push(10);
    let ghost header = out@;
    let mut i: usize = 0;
    while i < inp.garbage.len()
        invariant
            i <= inp.garbage@.len(),
            forall|j: int| 0 <= j < inp.garbage@.len() ==> in_domain(#[trigger] inp.garbage@[j]),
            out@ == header + lines_of(inp.garbage@.subrange(0, i as int)),
        decreases inp.garbage@.len() - i,
    {
        let g = inp.garbage[i];
        push_dec(&mut out, g.x as u64);
        out.push(32);
        push_dec(&mut out, g.y as u64);
        out.push(10);
        proof {
            lemma_lines_snoc(inp.garbage@.subrange(0, i as int), g);
            assert(inp.garbage@.subrange(0, i + 1) =~= inp.garbage@.subrange(0, i as int).push(g));
            assert(out@ =~= header + lines_of(inp.garbage@.subrange(0, i + 1)));
        }
        i = i + 1;
    }
    proof {
        assert(inp.garbage@.subrange(0, inp.garbage@.len() as int) =~= inp.garbage@);
        assert(out@ =~= render(*inp));
    }
    out
}

/// Appending a point appends its line.
proof fn lemma_lines_snoc(s: Seq<Garbage>, g: Garbage)
    ensures
        lines_of(s.push(g)) == lines_of(s) + line_of(g),
    decreases s.len(),
{
    if s.len() == 0 {
        assert(s.push(g).drop_first() =~= Seq::<Garbage>::empty());
        assert((s.push(g))[0] == g);
        assert(lines_of(s.push(g).drop_first()) =~= Seq::<u8>::empty());
        assert(lines_of(s.push(g)) =~= line_of(g));
        assert(lines_of(s) + line_of(g) =~= line_of(g));
    } else {
        assert(s.push(g).drop_first() =~= s.drop_first().push(g));
        lemma_lines_snoc(s.drop_first(), g);
        assert(lines_of(s.push(g)) =~= lines_of(s) + line_of(g));
    }
}

} // verus!

verus! {

/// Parsing the rendered point lines yields the flattened coordinates.
proof fn lemma_lines_parse(s: Seq<Garbage>)
    requires
        forall|i: int| 0 <= i < s.len() ==> in_domain(#[trigger] s[i]),
    ensures
        parsed_ints(lines_of(s), 0) == Some(flat_pts(s)),
    decreases s.len(),
{
    if s.len() == 0 {
        assert(ws_len(Seq::<u8>::empty(), 0) == 0);
        assert(parsed_ints(Seq::<u8>::empty(), 0) == Some(Seq::<int>::empty()));
    } else {
        let g = s[0];
        assert(forall|i: int| 0 <= i < s.drop_first().len() ==> s.drop_first()[i] == s[i + 1]);
        lemma_lines_parse(s.drop_first());
        let rest = lines_of(s.drop_first());
        let bx = dec_bytes(g.x as int);
        let by = dec_bytes(g.y as int);
        lemma_dec_bytes_digits(g.x as int);
        lemma_dec_bytes_digits(g.y as int);
        lemma_dec_bytes_val(g.x as int);
        lemma_dec_bytes_val(g.y as int);
        let tz = seq![10u8] + rest;
        let ty = by + tz;
        let tw = seq![32u8] + ty;
        assert(lines_of(s) =~= bx + tw);
        // x token, then the space
        assert(tw[0] == 32u8);
        lemma_token_head(bx, tw);
        lemma_skip_ws(tw, 0);
        lemma_parse_shift(seq![32u8], ty, 0);
        assert(parsed_ints(tw, 0) == parsed_ints(ty, 0));
        // y token, then the newline
        assert(tz[0] == 10u8);
        lemma_token_head(by, tz);
        lemma_skip_ws(tz, 0);
        lemma_parse_shift(seq![10u8], rest, 0);
        assert(parsed_ints(tz, 0) == parsed_ints(rest, 0));
        assert(seq![g.x as int] + (seq![g.y as int] + flat_pts(s.drop_first())) =~= flat_pts(s));
    }
}

proof fn lemma_flat_pts_index(s: Seq<Garbage>)
    ensures
        flat_pts(s).len() == 2 * s.len(),
        forall|i: int|
            0 <= i < s.len() ==> flat_pts(s)[2 * i] == (#[trigger] s[i]).x as int && flat_pts(
                s,
            )[2 * i + 1] == s[i].y as int,
    decreases s.len(),
{
    if s.len() > 0 {
        lemma_flat_pts_index(s.drop_first());
        assert forall|i: int|
            0 <= i < s.len() implies flat_pts(s)[2 * i] == (#[trigger] s[i]).x as int && flat_pts(
            s,
        )[2 * i + 1] == s[i].y as int by {
            if i > 0 {
                assert(s.drop_first()[i - 1] == s[i]);
                assert(flat_pts(s)[2 * i] == flat_pts(s.drop_first())[2 * (i - 1)]);
                assert(flat_pts(s)[2 * i + 1] == flat_pts(s.drop_first())[2 * (i - 1) + 1]);
            }
        }
    }
}

/// Rendering a well-grouped scenario and re-parsing the text yields the
/// same counts and the same ordered point sequence: the round trip is the
/// identity.  Together with the contracts of `format_input`, `parse_i32s`
/// and `parse_input`, parsing a formatted scenario returns it unchanged.
#[verifier::rlimit(100)]
pub proof fn lemma_format_parse_round_trip(inp: Input)
    requires
        inp.wf(),
        forall|i: int| 0 <= i < inp.garbage@.len() ==> in_domain(#[trigger] inp.garbage@[i]),
        inp.garbage@.len() <= 0x7FFF_FFFF,
    ensures
        scenario_text_ok(render(inp)),
        parsed_ints(render(inp), 0) == Some(flat_input(inp)),
        input_of(flat_input(inp)) == Some(
            (inp.X as int, inp.Y as int, inp.Z as int, inp.garbage@),
        ),
{
    let s = inp.garbage@;
    lemma_lines_parse(s);
    let lines = lines_of(s);
    let bx = dec_bytes(inp.X as int);
    let by = dec_bytes(inp.Y as int);
    let bz = dec_bytes(inp.Z as int);
    lemma_dec_bytes_digits(inp.X as int);
    lemma_dec_bytes_digits(inp.Y as int);
    lemma_dec_bytes_digits(inp.Z as int);
    lemma_dec_bytes_val(inp.X as int);
    lemma_dec_bytes_val(inp.Y as int);
    lemma_dec_bytes_val(inp.Z as int);
    let t3 = seq![10u8] + lines;
    let t2z = bz + t3;
    let t2 = seq![32u8] + t2z;
    let t1y = by + t2;
    let t1 = seq![32u8] + t1y;
    assert(render(inp) =~= bx + t1);
    assert(t1[0] == 32u8);
    lemma_token_head(bx, t1);
    lemma_skip_ws(t1, 0);
    lemma_parse_shift(seq![32u8], t1y, 0);
    assert(t2[0] == 32u8);
    lemma_token_head(by, t2);
    lemma_skip_ws(t2, 0);
    lemma_parse_shift(seq![32u8], t2z, 0);
    assert(t3[0] == 10u8);
    lemma_token_head(bz, t3);
    lemma_skip_ws(t3, 0);
    lemma_parse_shift(seq![10u8], lines, 0);
    let flat = flat_input(inp);
    assert(seq![inp.X as int] + (seq![inp.Y as int] + (seq![inp.Z as int] + flat_pts(s)))
        =~= flat);
    assert(parsed_ints(render(inp), 0) == Some(flat));
    // every rendered integer fits i32
    lemma_flat_pts_index(s);
    assert forall|k: int|
        0 <= k < flat.len() implies -2147483648 <= #[trigger] flat[k] <= 2147483647 by {
        if k >= 3 {
            let i = (k - 3) / 2;
            vstd::arithmetic::div_mod::lemma_fundamental_div_mod(k - 3, 2);
            assert(flat[k] == flat_pts(s)[k - 3]);
            if (k - 3) % 2 == 0 {
                assert(flat_pts(s)[2 * i] == s[i].x as int);
            } else {
                assert(flat_pts(s)[2 * i + 1] == s[i].y as int);
            }
            assert(in_domain(s[i]));
        }
    }
    // the integer sequence denotes the scenario it was rendered from
    let n = s.len() as int;
    assert(flat.len() == 3 + 2 * n);
    let back = Seq::new((flat[0] + flat[1] + flat[2]) as nat, |i: int| point_block(
        flat,
        flat[0],
        flat[1],
        i,
    ));
    assert(back =~= s) by {
        assert forall|i: int| 0 <= i < n implies back[i] == s[i] by {
            assert(flat[3 + 2 * i] == flat_pts(s)[2 * i]);
            assert(flat[3 + 2 * i + 1] == flat_pts(s)[2 * i + 1]);
            assert(in_domain(s[i]));
            assert(back[i].kind == s[i].kind);
        }
    }
}

} // verus!
