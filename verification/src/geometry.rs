//! Length values with units, rectangles, and per-side rect deltas, together
//! with the shorthand parser and canonical renderer and their round-trip law.
use vstd::prelude::*;

use crate::text::{
    all_digits, dec_rep, digit, digits_val, is_digit, is_ws, lemma_dec_rep_digits,
    lemma_dec_rep_len, lemma_tok_word, lemma_tok_ws, no_ws, pow10, spec_tokenize, tokenize, ws,
    MAX_AMOUNT,
};

verus! {

/// Unit of a length value.
#[derive(Clone, Copy, PartialEq, Eq, Structural, Debug)]
pub enum LengthUnit {
    Pixels,
    PercentOfParent,
    ViewportWidthPercent,
    ViewportHeightPercent,
}

/// An amount paired with a unit; convertible to pixels given a reference
/// length.
#[derive(Clone, Copy, PartialEq, Eq, Structural, Debug)]
pub struct LengthValue {
    pub amount: i32,
    pub unit: LengthUnit,
}

pub open spec fn length_wf(v: LengthValue) -> bool {
    -(MAX_AMOUNT as int) <= v.amount <= MAX_AMOUNT as int
}

/// Suffix that names a unit in the textual shorthand.
pub open spec fn unit_suffix(u: LengthUnit) -> Seq<u8> {
    match u {
        LengthUnit::Pixels => seq![112u8, 120u8],  // "px"
        LengthUnit::PercentOfParent => seq![37u8],  // "%"
        LengthUnit::ViewportWidthPercent => seq![118u8, 119u8],  // "vw"
        LengthUnit::ViewportHeightPercent => seq![118u8, 104u8],  // "vh"
    }
}

pub open spec fn spec_render_amount(a: int) -> Seq<u8> {
    if a < 0 {
        seq![45u8] + dec_rep((-a) as nat)
    } else {
        dec_rep(a as nat)
    }
}

/// Canonical text of a length value: decimal amount, then the unit suffix.
pub open spec fn spec_render_length(v: LengthValue) -> Seq<u8> {
    spec_render_amount(v.amount as int) + unit_suffix(v.unit)
}

/// An unsigned decimal token of at most seven digits.
pub open spec fn spec_parse_nat(s: Seq<u8>) -> Option<u32> {
    if 1 <= s.len() <= 7 && all_digits(s) {
        Some(digits_val(s) as u32)
    } else {
        None
    }
}

/// A decimal token with an optional leading minus sign.
pub open spec fn spec_parse_amount(s: Seq<u8>) -> Option<i32> {
    if s.len() > 0 && s[0] == 45 {
        match spec_parse_nat(s.drop_first()) {
            Some(n) => Some((-(n as int)) as i32),
            None => None,
        }
    } else {
        match spec_parse_nat(s) {
            Some(n) => Some(n as i32),
            None => None,
        }
    }
}

/// A length token: signed amount immediately followed by a unit suffix.
pub open spec fn spec_parse_length(t: Seq<u8>) -> Option<LengthValue> {
    let n = t.len() as int;
    if n >= 2 && t.subrange(n - 2, n) == unit_suffix(LengthUnit::Pixels) {
        spec_parse_length_body(t.take(n - 2), LengthUnit::Pixels)
    } else if n >= 1 && t.subrange(n - 1, n) == unit_suffix(LengthUnit::PercentOfParent) {
        spec_parse_length_body(t.take(n - 1), LengthUnit::PercentOfParent)
    } else if n >= 2 && t.subrange(n - 2, n) == unit_suffix(LengthUnit::ViewportWidthPercent) {
        spec_parse_length_body(t.take(n - 2), LengthUnit::ViewportWidthPercent)
    } else if n >= 2 && t.subrange(n - 2, n) == unit_suffix(LengthUnit::ViewportHeightPercent) {
        spec_parse_length_body(t.take(n - 2), LengthUnit::ViewportHeightPercent)
    } else {
        None
    }
}

pub open spec fn spec_parse_length_body(s: Seq<u8>, unit: LengthUnit) -> Option<LengthValue> {
    match spec_parse_amount(s) {
        Some(a) => Some(LengthValue { amount: a, unit }),
        None => None,
    }
}

/// Every value a digit string of at most seven digits can denote fits the
/// amount bound.
pub proof fn lemma_digits_val_bound(s: Seq<u8>)
    requires
        all_digits(s),
    ensures
        digits_val(s) < pow10(s.len()),
    decreases s.len(),
{
    if s.len() == 0 {
    } else {
        lemma_digits_val_bound(s.drop_last());
        assert(is_digit(s[s.len() - 1]));
        assert(s.last() - 48 <= 9);
        assert(digits_val(s.drop_last()) <= pow10((s.len() - 1) as nat) - 1);
    }
}

impl LengthValue {
    pub fn new(amount: i32, unit: LengthUnit) -> (r: Self)
        ensures
            r == (LengthValue { amount, unit }),
    {
        LengthValue { amount, unit }
    }

    /// Resolves this length against a reference extent, in pixels.
    pub fn to_pixels(&self, reference: i32) -> (r: i32)
        requires
            length_wf(*self),
            0 <= self.amount,
            0 <= reference <= 1000000,
            spec_to_pixels(*self, reference as int) <= i32::MAX,
        ensures
            r == spec_to_pixels(*self, reference as int),
    {
        match self.unit {
            LengthUnit::Pixels => self.amount,
            _ => {
                let wide: i64 = (self.amount as i64) * (reference as i64) / 100;
                proof {
                    assert(self.amount * reference >= 0) by (nonlinear_arith)
                        requires self.amount >= 0 && reference >= 0;
                    assert(self.amount * reference <= 9999999 * 1000000) by (nonlinear_arith)
                        requires 0 <= self.amount <= 9999999 && 0 <= reference <= 1000000;
                }
                wide as i32
            },
        }
    }
}

/// Pixel count a length value stands for against a reference extent.
pub open spec fn spec_to_pixels(v: LengthValue, reference: int) -> int {
    match v.unit {
        LengthUnit::Pixels => v.amount as int,
        _ => (v.amount * reference) / 100,
    }
}

/// Parses one length token, such as `5px` or `50%`.
pub fn parse_length(t: &Vec<u8>) -> (r: Option<LengthValue>)
    ensures
        r == spec_parse_length(t@),
        r is Some ==> length_wf(r.unwrap()),
{
    let n = t.len();
    let unit: LengthUnit;
    let body_end: usize;
    if n >= 2 && t[n - 1] == 120 && t[n - 2] == 112 {
        unit = LengthUnit::Pixels;
        body_end = n - 2;
    } else if n >= 1 && t[n - 1] == 37 {
        unit = LengthUnit::PercentOfParent;
        body_end = n - 1;
    } else if n >= 2 && t[n - 1] == 119 && t[n - 2] == 118 {
        unit = LengthUnit::ViewportWidthPercent;
        body_end = n - 2;
    } else if n >= 2 && t[n - 1] == 104 && t[n - 2] == 118 {
        unit = LengthUnit::ViewportHeightPercent;
        body_end = n - 2;
    } else {
        proof {
            lemma_suffix_cases(t@);
        }
        return None;
    }
    proof {
        lemma_suffix_cases(t@);
        assert(spec_parse_length(t@) == spec_parse_length_body(t@.take(body_end as int), unit));
    }
    match parse_amount_prefix(t, body_end) {
        Some(a) => Some(LengthValue { amount: a, unit }),
        None => None,
    }
}

/// Relates the executable suffix tests to the branch structure of
/// `spec_parse_length`.
proof fn lemma_suffix_cases(t: Seq<u8>)
    ensures
        t.len() >= 2 ==> (t.subrange(t.len() - 2, t.len() as int) == unit_suffix(LengthUnit::Pixels)
            <==> (t[t.len() - 1] == 120 && t[t.len() - 2] == 112)),
        t.len() >= 1 ==> (t.subrange(t.len() - 1, t.len() as int) == unit_suffix(
            LengthUnit::PercentOfParent,
        ) <==> t[t.len() - 1] == 37),
        t.len() >= 2 ==> (t.subrange(t.len() - 2, t.len() as int) == unit_suffix(
            LengthUnit::ViewportWidthPercent,
        ) <==> (t[t.len() - 1] == 119 && t[t.len() - 2] == 118)),
        t.len() >= 2 ==> (t.subrange(t.len() - 2, t.len() as int) == unit_suffix(
            LengthUnit::ViewportHeightPercent,
        ) <==> (t[t.len() - 1] == 104 && t[t.len() - 2] == 118)),
{
    if t.len() >= 1 {
        let s1 = t.subrange(t.len() - 1, t.len() as int);
        assert(s1 =~= seq![t[t.len() - 1]]);
        assert(unit_suffix(LengthUnit::PercentOfParent) == seq![37u8]);
        if t[t.len() - 1] == 37 {
            assert(s1 =~= unit_suffix(LengthUnit::PercentOfParent));
        } else {
            assert(s1[0] != 37);
        }
    }
    if t.len() >= 2 {
        let s2 = t.subrange(t.len() - 2, t.len() as int);
        assert(s2 =~= seq![t[t.len() - 2], t[t.len() - 1]]);
        lemma_pair_eq(s2, 112, 120);
        lemma_pair_eq(s2, 118, 119);
        lemma_pair_eq(s2, 118, 104);
    }
}

proof fn lemma_pair_eq(s: Seq<u8>, a: u8, b: u8)
    requires
        s.len() == 2,
    ensures
        s == seq![a, b] <==> (s[0] == a && s[1] == b),
{
    if s[0] == a && s[1] == b {
        assert(s =~= seq![a, b]);
    } else {
        assert(s != seq![a, b]) by {
            if s == seq![a, b] {
                assert(s[0] == a && s[1] == b);
            }
        }
    }
}

/// Parses the signed decimal prefix `t[0 .. body_end]`.
#[verifier::loop_isolation(false)]
fn parse_amount_prefix(t: &Vec<u8>, body_end: usize) -> (r: Option<i32>)
    requires
        body_end <= t@.len(),
    ensures
        r == spec_parse_amount(t@.take(body_end as int)),
        r is Some ==> -(MAX_AMOUNT as int) <= r.unwrap() <= MAX_AMOUNT as int,
{
    let ghost body = t@.take(body_end as int);
    let neg = body_end > 0 && t[0] == 45;
    let start: usize = if neg { 1 } else { 0 };
    let ghost digits = if neg { body.drop_first() } else { body };
    proof {
        if neg {
            assert(digits =~= t@.subrange(1, body_end as int));
        }
    }
    if body_end - start < 1 || body_end - start > 7 {
        proof {
            assert(body.len() == body_end as int);
            if neg {
                assert(body[0] == 45);
                assert(digits.len() == body.len() - 1);
            } else {
                if body.len() > 0 {
                    assert(body[0] == t@[0]);
                }
                assert(digits.len() == body.len());
            }
        }
        return None;
    }
    let mut acc: u32 = 0;
    let mut i: usize = start;
    proof {
        lemma_pow10_seven();
        lemma_pow10_monotone(0nat, 7nat);
        assert(digits.take(0) =~= Seq::<u8>::empty());
        assert(digits_val(Seq::<u8>::empty()) == 0);
    }
    while i < body_end
        invariant
            start <= i <= body_end <= t@.len(),
            body_end - start <= 7,
            digits == t@.subrange(start as int, body_end as int),
            all_digits(digits.take(i - start)),
            acc == digits_val(digits.take(i - start)),
            acc < pow10((i - start) as nat),
            pow10((i - start) as nat) <= pow10(7nat),
        decreases body_end - i,
    {
        let b = t[i];
        proof {
            lemma_pow10_seven();
            assert(digits[i - start] == b);
        }
        if !digit(b) {
            proof {
                assert(!all_digits(digits));
                assert(body.len() == body_end as int);
                if neg {
                    assert(body[0] == 45);
                    assert(body.drop_first() =~= digits);
                } else {
                    assert(body[0] == t@[0]);
                    assert(body =~= digits);
                }
            }
            return None;
        }
        proof {
            let pre = digits.take(i - start);
            let now = digits.take(i + 1 - start);
            assert(now.drop_last() =~= pre);
            assert(now.last() == b);
            assert(all_digits(now)) by {
                assert(forall|j: int| 0 <= j < now.len() - 1 ==> now[j] == pre[j]);
            }
            assert(pow10(((i + 1) - start) as nat) == 10 * pow10((i - start) as nat));
            lemma_pow10_monotone(((i + 1) - start) as nat, 7nat);
        }
        acc = acc * 10 + ((b - 48) as u32);
        i = i + 1;
    }
    proof {
        assert(digits.take(i - start) =~= digits);
        assert(acc <= MAX_AMOUNT) by {
            lemma_digits_val_bound(digits);
            lemma_pow10_monotone(digits.len() as nat, 7nat);
            lemma_pow10_seven();
        }
    }
    if neg {
        proof {
            assert(body[0] == 45);
        }
        Some(0 - (acc as i32))
    } else {
        proof {
            if body.len() > 0 && body[0] == 45 {
                assert(!neg);
                assert(false);
            }
        }
        Some(acc as i32)
    }
}

pub proof fn lemma_pow10_pos(a: nat)
    ensures
        pow10(a) >= 1,
    decreases a,
{
    if a > 0 {
        lemma_pow10_pos((a - 1) as nat);
    }
}

pub proof fn lemma_pow10_monotone(a: nat, b: nat)
    requires
        a <= b,
    ensures
        pow10(a) <= pow10(b),
        pow10(a) >= 1,
    decreases b,
{
    lemma_pow10_pos(a);
    if a < b {
        lemma_pow10_monotone(a, (b - 1) as nat);
    }
}

pub proof fn lemma_pow10_seven()
    ensures
        pow10(7nat) == 10000000,
{
    assert(pow10(0nat) == 1);
    assert(pow10(1nat) == 10);
    assert(pow10(2nat) == 100);
    assert(pow10(3nat) == 1000);
    assert(pow10(4nat) == 10000);
    assert(pow10(5nat) == 100000);
    assert(pow10(6nat) == 1000000);
}

/// Renders the canonical text of a length value.
pub fn render_length(v: &LengthValue) -> (r: Vec<u8>)
    requires
        length_wf(*v),
    ensures
        r@ == spec_render_length(*v),
{
    let mut out: Vec<u8> = Vec::new();
    if v.amount < 0 {
        out.push(45);
        proof {
            assert(out@ =~= seq![45u8]);
        }
        push_dec(0 - v.amount as i64, &mut out);
        proof {
            assert(out@ =~= spec_render_amount(v.amount as int));
        }
    } else {
        push_dec(v.amount as i64, &mut out);
    }
    let ghost amt = out@;
    match v.unit {
        LengthUnit::Pixels => {
            out.push(112);
            out.push(120);
        },
        LengthUnit::PercentOfParent => {
            out.push(37);
        },
        LengthUnit::ViewportWidthPercent => {
            out.push(118);
            out.push(119);
        },
        LengthUnit::ViewportHeightPercent => {
            out.push(118);
            out.push(104);
        },
    }
    proof {
        assert(out@ =~= amt + unit_suffix(v.unit));
    }
    out
}

/// Appends the decimal digits of `n`.
fn push_dec(n: i64, out: &mut Vec<u8>)
    requires
        0 <= n <= MAX_AMOUNT as int,
    ensures
        final(out)@ == old(out)@ + dec_rep(n as nat),
    decreases n,
{
    if n < 10 {
        out.push((48 + n) as u8);
        proof {
            assert(out@ =~= old(out)@ + dec_rep(n as nat));
        }
    } else {
        let ghost mid = old(out)@ + dec_rep((n / 10) as nat);
        push_dec(n / 10, out);
        out.push((48 + (n % 10)) as u8);
        proof {
            assert(dec_rep(n as nat) == dec_rep((n as nat) / 10).push((48 + (n as nat) % 10) as u8));
            assert((n as nat) / 10 == (n / 10) as nat);
            assert(out@ =~= old(out)@ + dec_rep(n as nat));
        }
    }
}

/// `parse_length` inverts `render_length` on every well-formed value.
pub proof fn lemma_length_round_trip(v: LengthValue)
    requires
        length_wf(v),
    ensures
        spec_parse_length(spec_render_length(v)) == Some(v),
        spec_render_length(v).len() >= 2,
        no_ws(spec_render_length(v)),
{
    let a = (if v.amount < 0 { -v.amount } else { v.amount as int }) as nat;
    lemma_dec_rep_digits(a);
    lemma_pow10_seven();
    lemma_dec_rep_len(a, 7nat);
    let d = dec_rep(a);
    let sign = spec_render_amount(v.amount as int);
    let suf = unit_suffix(v.unit);
    let t = spec_render_length(v);
    assert(t == sign + suf);
    let sn = suf.len() as int;
    let n = t.len() as int;
    // the suffix test of the right unit matches, and no earlier branch does
    assert(t.subrange(n - sn, n) =~= suf);
    assert(t.take(n - sn) =~= sign);
    lemma_suffix_cases(t);
    assert(forall|i: int| 0 <= i < d.len() ==> is_digit(#[trigger] d[i]));
    match v.unit {
        LengthUnit::Pixels => {
            assert(t[n - 1] == 120 && t[n - 2] == 112);
        },
        LengthUnit::PercentOfParent => {
            assert(t[n - 1] == 37);
            // a digit or sign byte never ends the pixel or viewport suffixes
            assert(spec_parse_length(t) == spec_parse_length_body(t.take(n - 1), v.unit));
        },
        LengthUnit::ViewportWidthPercent => {
            assert(t[n - 1] == 119 && t[n - 2] == 118);
        },
        LengthUnit::ViewportHeightPercent => {
            assert(t[n - 1] == 104 && t[n - 2] == 118);
        },
    }
    assert(spec_parse_length(t) == spec_parse_length_body(sign, v.unit));
    // the signed amount parses back
    if v.amount < 0 {
        assert(sign == seq![45u8] + d);
        assert(sign[0] == 45);
        assert(sign.drop_first() =~= d);
        assert(spec_parse_nat(d) == Some((digits_val(d)) as u32));
        assert(digits_val(d) == a);
        assert(spec_parse_amount(sign) == Some((-(a as int)) as i32));
        assert((-(a as int)) as i32 == v.amount);
    } else {
        assert(sign == d);
        assert(sign[0] != 45);
        assert(spec_parse_amount(sign) == Some(a as i32));
        assert(a as i32 == v.amount);
    }
    assert(spec_parse_length(t) == Some(v));
    // render output is whitespace-free and at least two bytes
    assert(no_ws(t)) by {
        assert(forall|i: int| 0 <= i < sign.len() ==> !is_ws(#[trigger] sign[i]));
        assert(forall|i: int| 0 <= i < suf.len() ==> !is_ws(#[trigger] suf[i]));
        assert(forall|i: int|
            0 <= i < t.len() ==> #[trigger] t[i] == if i < sign.len() as int {
                sign[i]
            } else {
                suf[i - sign.len()]
            });
    }
}

/// A rectangle in integer pixels.
#[derive(Clone, Copy, PartialEq, Eq, Structural, Debug)]
pub struct Rect {
    pub x: i32,
    pub y: i32,
    pub width: i32,
    pub height: i32,
}

/// Bounds under which every derived rectangle coordinate fits an `i32`.
pub open spec fn rect_wf(r: Rect) -> bool {
    &&& -1000000 <= r.x <= 1000000
    &&& -1000000 <= r.y <= 1000000
    &&& 0 <= r.width <= 1000000
    &&& 0 <= r.height <= 1000000
}

impl Rect {
    pub fn from_xy(x: i32, y: i32, width: i32, height: i32) -> (r: Rect)
        ensures
            r == (Rect { x, y, width, height }),
    {
        Rect { x, y, width, height }
    }

    pub fn left(&self) -> (r: i32)
        ensures
            r == self.x,
    {
        self.x
    }

    pub fn top(&self) -> (r: i32)
        ensures
            r == self.y,
    {
        self.y
    }

    pub fn right(&self) -> (r: i32)
        requires
            rect_wf(*self),
        ensures
            r == self.x + self.width,
    {
        self.x + self.width
    }

    pub fn bottom(&self) -> (r: i32)
        requires
            rect_wf(*self),
        ensures
            r == self.y + self.height,
    {
        self.y + self.height
    }
}

/// Common positional capability: anything that stands at a rectangle.
pub trait PositionBehavior {
    /// The rectangle this value stands at.
    spec fn pos_rect(&self) -> Rect;

    fn width(&self) -> (r: i32)
        ensures
            r == self.pos_rect().width,
    ;

    fn height(&self) -> (r: i32)
        ensures
            r == self.pos_rect().height,
    ;

    fn x(&self) -> (r: i32)
        ensures
            r == self.pos_rect().x,
    ;

    fn y(&self) -> (r: i32)
        ensures
            r == self.pos_rect().y,
    ;

    fn to_rect(&self) -> (r: Rect)
        ensures
            r == self.pos_rect(),
    {
        Rect::from_xy(self.x(), self.y(), self.width(), self.height())
    }
}

impl PositionBehavior for Rect {
    open spec fn pos_rect(&self) -> Rect {
        *self
    }

    fn width(&self) -> i32 {
        self.width
    }

    fn height(&self) -> i32 {
        self.height
    }

    fn x(&self) -> i32 {
        self.x
    }

    fn y(&self) -> i32 {
        self.y
    }
}

/// Per-side offsets of a rectangle, each a length value.
#[derive(Clone, Copy, PartialEq, Eq, Structural, Debug)]
pub struct RectDelta {
    /// The delta in x-coordinates on the left of the rectangle.
    pub left: LengthValue,
    /// The delta in y-coordinates on the top of the rectangle.
    pub top: LengthValue,
    /// The delta in x-coordinates on the right of the rectangle.
    pub right: LengthValue,
    /// The delta in y-coordinates on the bottom of the rectangle.
    pub bottom: LengthValue,
}

pub open spec fn rect_delta_wf(d: RectDelta) -> bool {
    &&& length_wf(d.left)
    &&& length_wf(d.top)
    &&& length_wf(d.right)
    &&& length_wf(d.bottom)
}

/// The box shorthand over whitespace-separated length tokens: one token
/// sets all sides; two set top/bottom then left/right; three set
/// left/right, top, bottom; four set top, right, bottom, left. Any other
/// token count is rejected.
pub open spec fn spec_parse_rect_delta(s: Seq<u8>) -> Option<RectDelta> {
    let toks = spec_tokenize(s);
    if toks.len() == 1 {
        match spec_parse_length(toks[0]) {
            Some(v) => Some(RectDelta { left: v, top: v, right: v, bottom: v }),
            None => None,
        }
    } else if toks.len() == 2 {
        match (spec_parse_length(toks[0]), spec_parse_length(toks[1])) {
            (Some(tb), Some(lr)) => Some(RectDelta { left: lr, top: tb, right: lr, bottom: tb }),
            _ => None,
        }
    } else if toks.len() == 3 {
        match (spec_parse_length(toks[0]), spec_parse_length(toks[1]), spec_parse_length(toks[2])) {
            (Some(lr), Some(top), Some(bottom)) => Some(
                RectDelta { left: lr, top, right: lr, bottom },
            ),
            _ => None,
        }
    } else if toks.len() == 4 {
        match (
            spec_parse_length(toks[0]),
            spec_parse_length(toks[1]),
            spec_parse_length(toks[2]),
            spec_parse_length(toks[3]),
        ) {
            (Some(top), Some(right), Some(bottom), Some(left)) => Some(
                RectDelta { left, top, right, bottom },
            ),
            _ => None,
        }
    } else {
        None
    }
}

/// Canonical four-token text: top, right, bottom, left.
pub open spec fn spec_render_rect_delta(d: RectDelta) -> Seq<u8> {
    spec_render_length(d.top) + seq![32u8] + spec_render_length(d.right) + seq![32u8]
        + spec_render_length(d.bottom) + seq![32u8] + spec_render_length(d.left)
}

impl RectDelta {
    pub fn new(left: LengthValue, top: LengthValue, right: LengthValue, bottom: LengthValue) -> (r:
        Self)
        ensures
            r == (RectDelta { left, top, right, bottom }),
    {
        Self { left, top, right, bottom }
    }

    /// Parses the shorthand text of a rect delta.
    pub fn parse(s: &Vec<u8>) -> (r: Option<RectDelta>)
        ensures
            r == spec_parse_rect_delta(s@),
            r is Some ==> rect_delta_wf(r.unwrap()),
    {
        let toks = tokenize(s);
        proof {
            assert(toks@.map_values(|t: Vec<u8>| t@).len() == toks@.len());
            assert(forall|i: int|
                0 <= i < toks@.len() ==> spec_tokenize(s@)[i] == #[trigger] toks@[i]@);
        }
        if toks.len() == 1 {
            match parse_length(&toks[0]) {
                Some(v) => Some(RectDelta { left: v, top: v, right: v, bottom: v }),
                None => None,
            }
        } else if toks.len() == 2 {
            match (parse_length(&toks[0]), parse_length(&toks[1])) {
                (Some(tb), Some(lr)) => Some(
                    RectDelta { left: lr, top: tb, right: lr, bottom: tb },
                ),
                _ => None,
            }
        } else if toks.len() == 3 {
            match (parse_length(&toks[0]), parse_length(&toks[1]), parse_length(&toks[2])) {
                (Some(lr), Some(top), Some(bottom)) => Some(
                    RectDelta { left: lr, top, right: lr, bottom },
                ),
                _ => None,
            }
        } else if toks.len() == 4 {
            match (
                parse_length(&toks[0]),
                parse_length(&toks[1]),
                parse_length(&toks[2]),
                parse_length(&toks[3]),
            ) {
                (Some(top), Some(right), Some(bottom), Some(left)) => Some(
                    RectDelta { left, top, right, bottom },
                ),
                _ => None,
            }
        } else {
            None
        }
    }

    /// Renders the canonical four-token text: top, right, bottom, left.
    pub fn render(&self) -> (r: Vec<u8>)
        requires
            rect_delta_wf(*self),
        ensures
            r@ == spec_render_rect_delta(*self),
    {
        let mut out = render_length(&self.top);
        out.push(32);
        let mut part = render_length(&self.right);
        append_bytes(&mut out, &part);
        out.push(32);
        part = render_length(&self.bottom);
        append_bytes(&mut out, &part);
        out.push(32);
        part = render_length(&self.left);
        append_bytes(&mut out, &part);
        proof {
            assert(out@ =~= spec_render_rect_delta(*self));
        }
        out
    }
}

/// Appends one byte vector to another.
fn append_bytes(out: &mut Vec<u8>, part: &Vec<u8>)
    ensures
        final(out)@ == old(out)@ + part@,
{
    let mut i: usize = 0;
    while i < part.len()
        invariant
            i <= part@.len(),
            out@ == old(out)@ + part@.take(i as int),
        decreases part@.len() - i,
    {
        out.push(part[i]);
        proof {
            assert(old(out)@ + part@.take(i + 1) =~= (old(out)@ + part@.take(i as int)).push(
                part@[i as int],
            ));
        }
        i = i + 1;
    }
    proof {
        assert(part@.take(i as int) =~= part@);
    }
}

/// `RectDelta::parse` inverts `RectDelta::render` on the canonical
/// four-token form of every well-formed delta.
#[verifier::rlimit(100)]
pub proof fn lemma_rect_delta_round_trip(d: RectDelta)
    requires
        rect_delta_wf(d),
    ensures
        spec_parse_rect_delta(spec_render_rect_delta(d)) == Some(d),
{
    lemma_length_round_trip(d.top);
    lemma_length_round_trip(d.right);
    lemma_length_round_trip(d.bottom);
    lemma_length_round_trip(d.left);
    let rt = spec_render_length(d.top);
    let rr = spec_render_length(d.right);
    let rb = spec_render_length(d.bottom);
    let rl = spec_render_length(d.left);
    let sp = seq![32u8];
    let whole = spec_render_rect_delta(d);
    let r1 = sp + rr + sp + rb + sp + rl;
    let r2 = rr + sp + rb + sp + rl;
    let r3 = sp + rb + sp + rl;
    let r4 = rb + sp + rl;
    let r5 = sp + rl;
    let empty = Seq::<u8>::empty();
    assert(whole =~= rt + r1);
    lemma_tok_word(rt, r1, empty);
    assert(empty + rt =~= rt);
    assert(r1 =~= sp + r2);
    lemma_tok_ws(32, r2, rt);
    assert(r2 =~= rr + r3);
    lemma_tok_word(rr, r3, empty);
    assert(empty + rr =~= rr);
    assert(r3 =~= sp + r4);
    lemma_tok_ws(32, r4, rr);
    assert(r4 =~= rb + r5);
    lemma_tok_word(rb, r5, empty);
    assert(empty + rb =~= rb);
    assert(r5 =~= sp + rl);
    lemma_tok_ws(32, rl, rb);
    lemma_tok_word(rl, empty, empty);
    assert(rl + empty =~= rl);
    assert(empty + rl =~= rl);
    let toks = spec_tokenize(whole);
    assert(toks =~~= seq![rt] + (seq![rr] + (seq![rb] + seq![rl])));
    assert(toks.len() == 4);
    assert(toks[0] == rt && toks[1] == rr && toks[2] == rb && toks[3] == rl);
    assert(spec_parse_rect_delta(whole) == Some(
        RectDelta { left: d.left, top: d.top, right: d.right, bottom: d.bottom },
    ));
    assert(RectDelta { left: d.left, top: d.top, right: d.right, bottom: d.bottom } == d);
}

} // verus!
