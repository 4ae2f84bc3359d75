use vstd::prelude::*;
use crate::error::IndexerError;
use crate::text::{chars_of, string_of};

verus! {

/// Number of characters in a pixel event ID.
pub const ID_LEN: usize = 13;

/// Upper-case form of an ASCII letter; every other character is unchanged.
pub open spec fn ascii_upper(c: char) -> char {
    if 'a' <= c && c <= 'z' {
        ((c as u32) - 32) as char
    } else {
        c
    }
}

/// Value of one Crockford-Base32 character, case-insensitively.
/// `O` reads as 0, `I` and `L` read as 1, `U` and anything outside the
/// alphabet is invalid.
pub open spec fn crockford_value(c: char) -> Option<u8> {
    let u = ascii_upper(c) as u32;
    if '0' as u32 <= u && u <= '9' as u32 {
        Some((u - '0' as u32) as u8)
    } else if u == 'O' as u32 {
        Some(0)
    } else if u == 'I' as u32 || u == 'L' as u32 {
        Some(1)
    } else if 'A' as u32 <= u && u <= 'H' as u32 {
        Some((u - 'A' as u32 + 10) as u8)
    } else if u == 'J' as u32 || u == 'K' as u32 {
        Some((u - 'J' as u32 + 18) as u8)
    } else if u == 'M' as u32 || u == 'N' as u32 {
        Some((u - 'M' as u32 + 20) as u8)
    } else if 'P' as u32 <= u && u <= 'T' as u32 {
        Some((u - 'P' as u32 + 22) as u8)
    } else if 'V' as u32 <= u && u <= 'Z' as u32 {
        Some((u - 'V' as u32 + 27) as u8)
    } else {
        None
    }
}

/// The canonical character that encodes the digit `d < 32`.
pub open spec fn crockford_symbol(d: int) -> char {
    if d < 10 {
        ('0' as u32 + d) as char
    } else if d < 18 {
        ('A' as u32 + (d - 10)) as char
    } else if d < 20 {
        ('J' as u32 + (d - 18)) as char
    } else if d < 22 {
        ('M' as u32 + (d - 20)) as char
    } else if d < 27 {
        ('P' as u32 + (d - 22)) as char
    } else {
        ('V' as u32 + (d - 27)) as char
    }
}

pub open spec fn all_crockford(s: Seq<char>) -> bool {
    forall|i: int| 0 <= i < s.len() ==> (#[trigger] crockford_value(s[i])) is Some
}

/// The digits of `s` read big-endian in base 32, as an unbounded number.
pub open spec fn crockford_number(s: Seq<char>) -> nat
    decreases s.len(),
{
    if s.len() == 0 {
        0
    } else {
        crockford_number(s.drop_last()) * 32 + crockford_value(s.last()).unwrap() as nat
    }
}

pub open spec fn two_pow_64() -> nat {
    0x1_0000_0000_0000_0000
}

/// A 64-bit pattern read as a two's-complement signed number.
pub open spec fn as_signed(v: u64) -> i64 {
    if v <= i64::MAX {
        v as i64
    } else {
        (v - two_pow_64()) as i64
    }
}

/// The timestamp that a well-formed ID stands for: its number keeps the low
/// 64 bits and is read as signed microseconds.
pub open spec fn id_timestamp(s: Seq<char>) -> i64 {
    as_signed((crockford_number(s) % two_pow_64()) as u64)
}

pub open spec fn is_valid_id(s: Seq<char>) -> bool {
    s.len() == ID_LEN && all_crockford(s)
}

/// Value of one ID character, or `None` where it is not a Crockford-Base32 symbol.
pub fn crockford_char_value(c: char) -> (r: Option<u8>)
    ensures
        r == crockford_value(c),
{
    let mut u: u32 = c as u32;
    if 'a' as u32 <= u && u <= 'z' as u32 {
        u = u - 32;
    }
    if '0' as u32 <= u && u <= '9' as u32 {
        Some((u - '0' as u32) as u8)
    } else if u == 'O' as u32 {
        Some(0)
    } else if u == 'I' as u32 || u == 'L' as u32 {
        Some(1)
    } else if 'A' as u32 <= u && u <= 'H' as u32 {
        Some((u - 'A' as u32 + 10) as u8)
    } else if u == 'J' as u32 || u == 'K' as u32 {
        Some((u - 'J' as u32 + 18) as u8)
    } else if u == 'M' as u32 || u == 'N' as u32 {
        Some((u - 'M' as u32 + 20) as u8)
    } else if 'P' as u32 <= u && u <= 'T' as u32 {
        Some((u - 'P' as u32 + 22) as u8)
    } else if 'V' as u32 <= u && u <= 'Z' as u32 {
        Some((u - 'V' as u32 + 27) as u8)
    } else {
        None
    }
}

} // verus!

verus! {

proof fn lemma_step_mod(a: nat, d: nat)
    requires
        d < 32,
    ensures
        ((a % two_pow_64()) % 0x800_0000_0000_0000) * 32 + d < two_pow_64(),
        (a * 32 + d) % two_pow_64() == ((a % two_pow_64()) % 0x800_0000_0000_0000) * 32 + d,
{
    let m: int = two_pow_64() as int;
    let k: int = 0x800_0000_0000_0000;
    let r: int = (a % two_pow_64()) as int;
    let s: int = r % k;
    assert(a as int == m * (a as int / m) + r) by {
        vstd::arithmetic::div_mod::lemma_fundamental_div_mod(a as int, m);
    }
    assert(r == k * (r / k) + s) by {
        vstd::arithmetic::div_mod::lemma_fundamental_div_mod(r, k);
    }
    assert(0 <= s < k);
    assert(k * 32 == m);
    let q: int = (a as int / m) * 32 + r / k;
    assert(a * 32 + d == m * q + (s * 32 + d)) by (nonlinear_arith)
        requires
            a as int == m * (a as int / m) + r,
            r == k * (r / k) + s,
            k * 32 == m,
            q == (a as int / m) * 32 + r / k,
    ;
    assert(s * 32 + d < m) by (nonlinear_arith)
        requires
            0 <= s < k,
            d < 32,
            k * 32 == m,
    ;
    assert((m * q + (s * 32 + d)) % m == (s * 32 + d) % m) by {
        vstd::arithmetic::div_mod::lemma_mod_multiples_vanish(q, s * 32 + d, m);
    }
    assert((s * 32 + d) % m == s * 32 + d) by {
        vstd::arithmetic::div_mod::lemma_small_mod((s * 32 + d) as nat, m as nat);
    }
}

/// Decodes a pixel event ID into the signed microseconds it encodes.
pub fn parse_timestamp_id(id: &str) -> (r: Result<i64, IndexerError>)
    ensures
        r == (if is_valid_id(id@) {
            Ok::<i64, IndexerError>(id_timestamp(id@))
        } else {
            Err(IndexerError::DecodeError)
        }),
{
    let cs = chars_of(id);
    if cs.len() != ID_LEN {
        return Err(IndexerError::DecodeError);
    }
    let mut value: u64 = 0;
    let mut i: usize = 0;
    while i < cs.len()
        invariant
            cs@ == id@,
            i <= cs.len(),
            all_crockford(cs@.subrange(0, i as int)),
            value as nat == crockford_number(cs@.subrange(0, i as int)) % two_pow_64(),
        decreases cs.len() - i,
    {
        let digit = match crockford_char_value(cs[i]) {
            Some(d) => d,
            None => {
                assert(!all_crockford(id@));
                return Err(IndexerError::DecodeError);
            },
        };
        proof {
            let pre = cs@.subrange(0, i as int);
            let next = cs@.subrange(0, i as int + 1);
            assert(next.drop_last() =~= pre);
            assert(next.last() == cs@[i as int]);
            lemma_step_mod(crockford_number(pre), digit as nat);
        }
        value = (value % 0x800_0000_0000_0000) * 32 + digit as u64;
        i = i + 1;
    }
    assert(cs@.subrange(0, cs.len() as int) =~= id@);
    Ok(signed_of(value))
}

/// The two's-complement reading of a 64-bit pattern.
fn signed_of(v: u64) -> (r: i64)
    ensures
        r == as_signed(v),
{
    if v <= i64::MAX as u64 {
        v as i64
    } else {
        -((u64::MAX - v) as i64) - 1
    }
}

} // verus!

verus! {

pub open spec fn pow32(n: nat) -> nat
    decreases n,
{
    if n == 0 {
        1
    } else {
        32 * pow32((n - 1) as nat)
    }
}

/// The last `n` base-32 digits of `v`, most significant first, in canonical symbols.
pub open spec fn crockford_digits(v: nat, n: nat) -> Seq<char>
    decreases n,
{
    if n == 0 {
        Seq::empty()
    } else {
        crockford_digits(v / 32, (n - 1) as nat).push(crockford_symbol((v % 32) as int))
    }
}

/// The pixel event ID that encodes the 64-bit pattern `v`.
pub open spec fn timestamp_id_of(v: u64) -> Seq<char> {
    crockford_digits(v as nat, ID_LEN as nat)
}

proof fn lemma_symbol_value(d: int)
    requires
        0 <= d < 32,
    ensures
        crockford_value(crockford_symbol(d)) == Some(d as u8),
{
}

proof fn lemma_digits_number(v: nat, n: nat)
    ensures
        crockford_digits(v, n).len() == n,
        all_crockford(crockford_digits(v, n)),
        crockford_number(crockford_digits(v, n)) == v % pow32(n),
    decreases n,
{
    if n == 0 {
        assert(v % 1 == 0);
    } else {
        let m = (n - 1) as nat;
        let s = crockford_digits(v, n);
        lemma_digits_number(v / 32, m);
        lemma_symbol_value((v % 32) as int);
        assert(s.drop_last() =~= crockford_digits(v / 32, m));
        assert(pow32(m) > 0) by {
            lemma_pow32_positive(m);
        }
        vstd::arithmetic::div_mod::lemma_mod_breakdown(v as int, 32, pow32(m) as int);
        assert forall|i: int| 0 <= i < s.len() implies (#[trigger] crockford_value(s[i])) is Some by {
            if i < s.len() - 1 {
                assert(s[i] == crockford_digits(v / 32, m)[i]);
            }
        }
    }
}

proof fn lemma_pow32_positive(n: nat)
    ensures
        pow32(n) > 0,
    decreases n,
{
    if n > 0 {
        lemma_pow32_positive((n - 1) as nat);
    }
}

/// Decoding the ID that encodes a 64-bit pattern gives that pattern back:
/// the ID is well formed and stands for `v` read as signed microseconds.
pub proof fn lemma_timestamp_round_trip(v: u64)
    ensures
        is_valid_id(timestamp_id_of(v)),
        id_timestamp(timestamp_id_of(v)) == as_signed(v),
        (crockford_number(timestamp_id_of(v)) % two_pow_64()) as u64 == v,
{
    lemma_digits_number(v as nat, ID_LEN as nat);
    reveal_with_fuel(pow32, 14);
    assert(pow32(13) == 0x2_0000_0000_0000_0000);
    vstd::arithmetic::div_mod::lemma_small_mod(v as nat, pow32(13));
    vstd::arithmetic::div_mod::lemma_small_mod(v as nat, two_pow_64());
}

fn crockford_symbol_of(d: u8) -> (r: char)
    requires
        d < 32,
    ensures
        r == crockford_symbol(d as int),
{
    let c: u32 = if d < 10 {
        '0' as u32 + d as u32
    } else if d < 18 {
        'A' as u32 + (d as u32 - 10)
    } else if d < 20 {
        'J' as u32 + (d as u32 - 18)
    } else if d < 22 {
        'M' as u32 + (d as u32 - 20)
    } else if d < 27 {
        'P' as u32 + (d as u32 - 22)
    } else {
        'V' as u32 + (d as u32 - 27)
    };
    (c as u8) as char
}

/// Encodes a 64-bit pattern as a pixel event ID, the inverse of `parse_timestamp_id`.
pub fn encode_timestamp_id(v: u64) -> (r: String)
    ensures
        r@ == timestamp_id_of(v),
{
    let mut out: Vec<char> = Vec::new();
    let mut div: u64 = 0x1000_0000_0000_0000;
    let mut i: usize = 0;
    proof {
        reveal_with_fuel(pow32, 13);
        assert(pow32(12) == 0x1000_0000_0000_0000);
    }
    while i < ID_LEN
        invariant
            i <= ID_LEN,
            div as nat == pow32((12 - i) as nat) || i == ID_LEN,
            out@ == crockford_digits(v as nat / pow32((13 - i) as nat), i as nat),
        decreases ID_LEN - i,
    {
        proof {
            lemma_pow32_positive((12 - i) as nat);
        }
        let w: u64 = v / div;
        let d: u8 = (w % 32) as u8;
        proof {
            let k = (12 - i) as nat;
            assert(pow32((13 - i) as nat) == 32 * pow32(k));
            lemma_pow32_positive(k);
            vstd::arithmetic::div_mod::lemma_div_denominator(v as int, pow32(k) as int, 32);
            assert(pow32(k) * 32 == 32 * pow32(k)) by (nonlinear_arith);
            assert(crockford_digits(w as nat, (i + 1) as nat) == crockford_digits(
                w as nat / 32,
                i as nat,
            ).push(crockford_symbol((w as nat % 32) as int)));
        }
        out.push(crockford_symbol_of(d));
        if i < 12 {
            div = div / 32;
        }
        i = i + 1;
    }
    proof {
        assert(pow32(0) == 1);
        assert(v as nat / pow32(0) == v as nat);
    }
    string_of(out.as_slice())
}

} // verus!

verus! {

/// A pixel placement as its author wrote it.
#[derive(PartialEq, Eq, Structural, Debug, Clone, Copy)]
pub struct CanvaPixel {
    pub x: u32,
    pub y: u32,
    pub color: u8,
}

/// Largest palette index.
pub const MAX_COLOR: u8 = 15;

/// Earliest accepted placement: 2024-10-01 00:00 UTC, in microseconds.
pub const EARLIEST_TIMESTAMP: i64 = 1_727_740_800_000_000;

/// How far a placement may lie ahead of the indexer's clock, in microseconds.
pub const MAX_CLOCK_SKEW: i64 = 120_000_000;

/// A resize record `(width, height, activated_at)` reaches `(x, y)` when its
/// canvas contains the point.
pub open spec fn reaches(rec: (u32, u32, i64), x: u32, y: u32) -> bool {
    x < rec.0 && y < rec.1
}

/// Activation time of the first record of `h`, in order, that reaches `(x, y)`.
pub open spec fn first_reach_time(h: Seq<(u32, u32, i64)>, x: u32, y: u32) -> Option<i64>
    decreases h.len(),
{
    if h.len() == 0 {
        None
    } else if reaches(h[0], x, y) {
        Some(h[0].2)
    } else {
        first_reach_time(h.drop_first(), x, y)
    }
}

/// The verdict on a placement of `p` at `timestamp` on a `w`×`h` canvas with resize history `hist`.
pub open spec fn placement_verdict(
    p: CanvaPixel,
    w: u32,
    h: u32,
    hist: Seq<(u32, u32, i64)>,
    timestamp: i64,
) -> Result<(), IndexerError> {
    if p.color > MAX_COLOR {
        Err(IndexerError::InvalidColor)
    } else if p.x >= w || p.y >= h {
        Err(IndexerError::OutOfBounds)
    } else {
        match first_reach_time(hist, p.x, p.y) {
            None => Err(IndexerError::CoordinateUncovered),
            Some(t) => if timestamp < t {
                Err(IndexerError::PreExpansionPlacement)
            } else {
                Ok(())
            },
        }
    }
}

/// Whether a placement time lies inside the accepted window, given the clock reads `now`.
pub open spec fn timestamp_in_window(timestamp: i64, now: i64) -> bool {
    timestamp as int <= now as int + MAX_CLOCK_SKEW as int && timestamp >= EARLIEST_TIMESTAMP
}

impl CanvaPixel {
    /// Checks color, bounds and the anti-backdating rule against the canvas
    /// size and its resize history (ascending by activation time).
    pub fn validate(
        &self,
        canvas_width: u32,
        canvas_height: u32,
        resize_history: &[(u32, u32, i64)],
        timestamp: i64,
    ) -> (r: Result<(), IndexerError>)
        ensures
            r == placement_verdict(*self, canvas_width, canvas_height, resize_history@, timestamp),
    {
        if self.color > MAX_COLOR {
            return Err(IndexerError::InvalidColor);
        }
        if self.x >= canvas_width || self.y >= canvas_height {
            return Err(IndexerError::OutOfBounds);
        }
        let mut i: usize = 0;
        assert(resize_history@.subrange(0, resize_history@.len() as int) =~= resize_history@);
        while i < resize_history.len()
            invariant
                i <= resize_history@.len(),
                self.color <= MAX_COLOR,
                self.x < canvas_width && self.y < canvas_height,
                first_reach_time(resize_history@, self.x, self.y) == first_reach_time(
                    resize_history@.subrange(i as int, resize_history@.len() as int),
                    self.x,
                    self.y,
                ),
            decreases resize_history.len() - i,
        {
            let rec = resize_history[i];
            let ghost rest = resize_history@.subrange(i as int, resize_history@.len() as int);
            assert(rest[0] == rec);
            if self.x < rec.0 && self.y < rec.1 {
                assert(reaches(rest[0], self.x, self.y));
                assert(first_reach_time(rest, self.x, self.y) == Some(rec.2));
                assert(first_reach_time(resize_history@, self.x, self.y) == Some(rec.2));
                if timestamp < rec.2 {
                    return Err(IndexerError::PreExpansionPlacement);
                }
                return Ok(());
            }
            assert(rest.drop_first() =~= resize_history@.subrange(
                i as int + 1,
                resize_history@.len() as int,
            ));
            i = i + 1;
        }
        Err(IndexerError::CoordinateUncovered)
    }
}

/// Relies on `SystemTime::now` and `duration_since(UNIX_EPOCH)`: the wall clock
/// in microseconds since the Unix epoch (0 where the clock reads before the epoch).
#[verifier::external_body]
pub fn timestamp_micros() -> (r: i64) {
    std::time::SystemTime::now()
        .duration_since(std::time::UNIX_EPOCH)
        .map(|d| d.as_micros() as i64)
        .unwrap_or(0)
}

/// Accepts a placement time that is neither before the game started nor more
/// than the clock skew ahead of `now`.
pub fn check_timestamp(timestamp: i64, now: i64) -> (r: Result<(), IndexerError>)
    ensures
        r == (if timestamp_in_window(timestamp, now) {
            Ok::<(), IndexerError>(())
        } else {
            Err(IndexerError::StaleOrFutureTimestamp)
        }),
{
    if (timestamp as i128) > (now as i128) + (MAX_CLOCK_SKEW as i128) {
        return Err(IndexerError::StaleOrFutureTimestamp);
    }
    if timestamp < EARLIEST_TIMESTAMP {
        return Err(IndexerError::StaleOrFutureTimestamp);
    }
    Ok(())
}

/// Checks a placement time against the indexer's clock; the clock reading is
/// not known in advance, so only the reason of a refusal is fixed.
pub fn validate_timestamp(timestamp: i64) -> (r: Result<(), IndexerError>)
    ensures
        r is Err ==> r == Err::<(), IndexerError>(IndexerError::StaleOrFutureTimestamp),
        timestamp < EARLIEST_TIMESTAMP ==> r is Err,
{
    let now = timestamp_micros();
    check_timestamp(timestamp, now)
}

} // verus!

verus! {

/// The canonical spelling of an ID character: upper case, with `I` and `L`
/// read as `1` and `O` as `0`.
pub open spec fn canonical(c: char) -> char {
    crockford_symbol(crockford_value(c).unwrap() as int)
}

proof fn lemma_number_bound(s: Seq<char>)
    requires
        s.len() >= 1,
        all_crockford(s),
    ensures
        crockford_number(s) < (crockford_value(s[0]).unwrap() as nat + 1) * pow32((s.len() - 1) as nat),
    decreases s.len(),
{
    let pre = s.drop_last();
    let d = crockford_value(s.last()).unwrap() as nat;
    assert(crockford_value(s[s.len() - 1]) is Some);
    if s.len() == 1 {
        assert(crockford_number(pre) == 0);
        assert(pow32(0) == 1);
    } else {
        assert forall|i: int| 0 <= i < pre.len() implies (#[trigger] crockford_value(pre[i])) is Some by {
            assert(pre[i] == s[i]);
        }
        assert(pre[0] == s[0]);
        lemma_number_bound(pre);
        let v = crockford_value(s[0]).unwrap() as nat + 1;
        let p = pow32((pre.len() - 1) as nat);
        assert(pow32((s.len() - 1) as nat) == 32 * p);
        let n = crockford_number(pre);
        assert(n * 32 + d < v * (32 * p)) by (nonlinear_arith)
            requires
                n < v * p,
                d < 32,
        ;
    }
}

proof fn lemma_number_digits(a: Seq<char>, b: Seq<char>)
    requires
        a.len() == b.len(),
        all_crockford(a),
        all_crockford(b),
    ensures
        crockford_number(a) == crockford_number(b) <==> forall|k: int|
            0 <= k < a.len() ==> #[trigger] crockford_value(a[k]) == crockford_value(b[k]),
    decreases a.len(),
{
    if a.len() > 0 {
        let (pa, pb) = (a.drop_last(), b.drop_last());
        assert forall|i: int| 0 <= i < pa.len() implies (#[trigger] crockford_value(pa[i])) is Some by {
            assert(pa[i] == a[i]);
        }
        assert forall|i: int| 0 <= i < pb.len() implies (#[trigger] crockford_value(pb[i])) is Some by {
            assert(pb[i] == b[i]);
        }
        lemma_number_digits(pa, pb);
        let last = a.len() - 1;
        assert(crockford_value(a[last]) is Some && crockford_value(b[last]) is Some);
        let da = crockford_value(a.last()).unwrap() as int;
        let db = crockford_value(b.last()).unwrap() as int;
        let na = crockford_number(a) as int;
        let nb = crockford_number(b) as int;
        vstd::arithmetic::div_mod::lemma_fundamental_div_mod_converse(na, 32, crockford_number(pa) as int, da);
        vstd::arithmetic::div_mod::lemma_fundamental_div_mod_converse(nb, 32, crockford_number(pb) as int, db);
        if na == nb {
            assert forall|k: int| 0 <= k < a.len() implies #[trigger] crockford_value(a[k]) == crockford_value(b[k]) by {
                if k < last {
                    assert(pa[k] == a[k] && pb[k] == b[k]);
                    assert(crockford_value(pa[k]) == crockford_value(pb[k]));
                }
            }
        }
        if forall|k: int| 0 <= k < a.len() ==> #[trigger] crockford_value(a[k]) == crockford_value(b[k]) {
            assert forall|k: int| 0 <= k < pa.len() implies #[trigger] crockford_value(pa[k]) == crockford_value(pb[k]) by {
                assert(pa[k] == a[k] && pb[k] == b[k]);
                assert(crockford_value(a[k]) == crockford_value(b[k]));
            }
            assert(crockford_value(a[last]) == crockford_value(b[last]));
        }
    }
}

/// Two well-formed IDs whose first character stays below 16 (so that no bit
/// falls outside 64) stand for the same timestamp exactly when they agree
/// character by character up to case and the `I`/`L`/`O` aliases.
pub proof fn lemma_id_aliasing(a: Seq<char>, b: Seq<char>)
    requires
        is_valid_id(a),
        is_valid_id(b),
        crockford_value(a[0]).unwrap() < 16,
        crockford_value(b[0]).unwrap() < 16,
    ensures
        id_timestamp(a) == id_timestamp(b) <==> forall|k: int|
            0 <= k < ID_LEN ==> #[trigger] canonical(a[k]) == canonical(b[k]),
{
    lemma_number_bound(a);
    lemma_number_bound(b);
    reveal_with_fuel(pow32, 13);
    assert(pow32(12) == 0x1000_0000_0000_0000);
    let m = two_pow_64();
    let na = crockford_number(a);
    let nb = crockford_number(b);
    assert(na < m) by (nonlinear_arith)
        requires
            na < (crockford_value(a[0]).unwrap() as nat + 1) * 0x1000_0000_0000_0000nat,
            crockford_value(a[0]).unwrap() < 16,
            m == 0x1_0000_0000_0000_0000nat,
    ;
    assert(nb < m) by (nonlinear_arith)
        requires
            nb < (crockford_value(b[0]).unwrap() as nat + 1) * 0x1000_0000_0000_0000nat,
            crockford_value(b[0]).unwrap() < 16,
            m == 0x1_0000_0000_0000_0000nat,
    ;
    vstd::arithmetic::div_mod::lemma_small_mod(na, m);
    vstd::arithmetic::div_mod::lemma_small_mod(nb, m);
    lemma_number_digits(a, b);
    assert forall|k: int| 0 <= k < ID_LEN implies (#[trigger] canonical(a[k]) == canonical(b[k]))
        <==> crockford_value(a[k]) == crockford_value(b[k]) by {
        assert(crockford_value(a[k]) is Some && crockford_value(b[k]) is Some);
        lemma_symbol_value(crockford_value(a[k]).unwrap() as int);
        lemma_symbol_value(crockford_value(b[k]).unwrap() as int);
    }
    let ua = (na % m) as u64;
    let ub = (nb % m) as u64;
    assert(ua as nat == na && ub as nat == nb);
    assert(as_signed(ua) == as_signed(ub) <==> ua == ub);
    if id_timestamp(a) == id_timestamp(b) {
        assert(na == nb);
        assert forall|k: int| 0 <= k < ID_LEN implies #[trigger] canonical(a[k]) == canonical(b[k]) by {
            assert(crockford_value(a[k]) == crockford_value(b[k]));
        }
    }
    if forall|k: int| 0 <= k < ID_LEN ==> #[trigger] canonical(a[k]) == canonical(b[k]) {
        assert forall|k: int| 0 <= k < a.len() implies #[trigger] crockford_value(a[k]) == crockford_value(b[k]) by {
            assert(canonical(a[k]) == canonical(b[k]));
        }
        assert(na == nb);
    }
}

} // verus!
