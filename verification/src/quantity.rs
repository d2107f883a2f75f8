//! Kubernetes resource quantities: "512Mi", "300m", "10G", or a bare number.
//!
//! The unit table depends on the field: CPU takes millicores ("300m"), memory
//! and storage binary units in GiB ("512Mi" is 0.5), throughput decimal units
//! in MB/s ("500M"). This module decides how a quantity string reads: which
//! numeral it holds and by which unit it is scaled, or why it is rejected. The
//! numeral itself is a decimal floating-point literal and is turned into a
//! number by the planner beside this library.
use vstd::prelude::*;

use crate::text::chars_of;

verus! {

/// Which unit table a quantity is read with.
#[derive(Debug, PartialEq, Eq, Structural, Clone, Copy)]
pub enum QuantityContext {
    /// CPU: "300m" is 0.3 cores, "4" is 4.0 cores.
    Cpu,
    /// RAM and storage: binary units, in GiB. "512Mi" is 0.5, "2Ti" is 2048.0.
    Memory,
    /// Disk and network throughput: decimal units, in MB/s. "10G" is 10000.0.
    Throughput,
}

/// The unit a numeral is scaled by.
#[derive(Debug, PartialEq, Eq, Structural, Clone, Copy)]
pub enum Scale {
    /// A bare number, taken as it is.
    Unit,
    /// "m": thousandths (millicores).
    Milli,
    /// "Ki": KiB, in GiB.
    Kibi,
    /// "Mi": MiB, in GiB.
    Mebi,
    /// "Gi": GiB.
    Gibi,
    /// "Ti": TiB, in GiB.
    Tebi,
    /// "k": kB/s, in MB/s.
    Kilo,
    /// "M": MB/s.
    Mega,
    /// "G": GB/s, in MB/s.
    Giga,
}

/// A quantity read from its text: a floating-point numeral and its unit.
#[derive(Debug)]
pub struct Quantity {
    pub numeral: String,
    pub scale: Scale,
}

/// Unicode White_Space, the characters `str::trim` removes.
pub open spec fn is_white_space(c: char) -> bool {
    ||| ('\u{9}' <= c && c <= '\u{d}')
    ||| c == ' '
    ||| c == '\u{85}'
    ||| c == '\u{a0}'
    ||| c == '\u{1680}'
    ||| ('\u{2000}' <= c && c <= '\u{200a}')
    ||| c == '\u{2028}'
    ||| c == '\u{2029}'
    ||| c == '\u{202f}'
    ||| c == '\u{205f}'
    ||| c == '\u{3000}'
}

/// `s` without its leading white space.
pub open spec fn trim_start(s: Seq<char>) -> Seq<char>
    decreases s.len(),
{
    if s.len() > 0 && is_white_space(s[0]) {
        trim_start(s.skip(1))
    } else {
        s
    }
}

/// `s` without its trailing white space.
pub open spec fn trim_end(s: Seq<char>) -> Seq<char>
    decreases s.len(),
{
    if s.len() > 0 && is_white_space(s.last()) {
        trim_end(s.drop_last())
    } else {
        s
    }
}

/// `s` without leading and trailing white space.
pub open spec fn trim(s: Seq<char>) -> Seq<char> {
    trim_end(trim_start(s))
}

pub open spec fn is_digit(c: char) -> bool {
    '0' <= c && c <= '9'
}

pub open spec fn is_sign(c: char) -> bool {
    c == '+' || c == '-'
}

pub open spec fn all_digits(s: Seq<char>) -> bool {
    forall|i: int| 0 <= i < s.len() ==> is_digit(#[trigger] s[i])
}

/// `c` is the lowercase letter `l`, or its capital.
pub open spec fn letter_ci(c: char, l: char) -> bool {
    c == l || (('a' <= l && l <= 'z') && c as u32 + 32 == l as u32)
}

/// `s` spells `w` in any letter case.
pub open spec fn word_ci(s: Seq<char>, w: Seq<char>) -> bool {
    s.len() == w.len() && forall|i: int| 0 <= i < s.len() ==> letter_ci(#[trigger] s[i], w[i])
}

/// Digits with at most one '.', and at least one digit.
pub open spec fn mantissa(m: Seq<char>) -> bool {
    ||| (all_digits(m) && m.len() > 0)
    ||| exists|p: int|
        0 <= p < m.len() && m[p] == '.' && all_digits(m.take(p)) && all_digits(#[trigger] m.skip(p + 1))
            && m.len() > 1
}

/// The part of an exponent after the 'e': an optional sign, then digits.
pub open spec fn exponent_digits(x: Seq<char>) -> bool {
    ||| (all_digits(x) && x.len() > 0)
    ||| (x.len() > 1 && is_sign(x[0]) && all_digits(x.skip(1)))
}

/// A decimal numeral: a mantissa, then optionally 'e' and an exponent.
pub open spec fn numeral(s: Seq<char>) -> bool {
    ||| mantissa(s)
    ||| exists|e: int|
        0 <= e < s.len() && letter_ci(s[e], 'e') && mantissa(#[trigger] s.take(e)) && exponent_digits(
            s.skip(e + 1),
        )
}

pub open spec fn unsigned_float(s: Seq<char>) -> bool {
    ||| word_ci(s, seq!['i', 'n', 'f'])
    ||| word_ci(s, seq!['i', 'n', 'f', 'i', 'n', 'i', 't', 'y'])
    ||| word_ci(s, seq!['n', 'a', 'n'])
    ||| numeral(s)
}

/// The text a decimal floating-point number is read from, as `f64`'s `FromStr`
/// documents it: an optional sign, then "inf", "infinity", "nan" or a numeral,
/// letters in any case.
pub open spec fn float_literal(s: Seq<char>) -> bool {
    ||| unsigned_float(s)
    ||| (s.len() > 0 && is_sign(s[0]) && unsigned_float(s.skip(1)))
}

/// `t` ends with the characters of `suffix`.
pub open spec fn ends_with(t: Seq<char>, suffix: Seq<char>) -> bool {
    t.len() >= suffix.len() && t.skip(t.len() - suffix.len()) == suffix
}

/// A memory suffix and what it leaves: "Ti", "Gi", "Mi", "M", "Ki", tried in
/// that order. In this context "M" is MiB, as "Mi" is.
pub open spec fn memory_suffix(t: Seq<char>) -> Option<(Seq<char>, Scale)> {
    if ends_with(t, seq!['T', 'i']) {
        Some((t.take(t.len() - 2), Scale::Tebi))
    } else if ends_with(t, seq!['G', 'i']) {
        Some((t.take(t.len() - 2), Scale::Gibi))
    } else if ends_with(t, seq!['M', 'i']) {
        Some((t.take(t.len() - 2), Scale::Mebi))
    } else if ends_with(t, seq!['M']) {
        Some((t.take(t.len() - 1), Scale::Mebi))
    } else if ends_with(t, seq!['K', 'i']) {
        Some((t.take(t.len() - 2), Scale::Kibi))
    } else {
        None
    }
}

/// A throughput suffix and what it leaves: "G", "M", "k", tried in that order.
pub open spec fn throughput_suffix(t: Seq<char>) -> Option<(Seq<char>, Scale)> {
    if ends_with(t, seq!['G']) {
        Some((t.drop_last(), Scale::Giga))
    } else if ends_with(t, seq!['M']) {
        Some((t.drop_last(), Scale::Mega))
    } else if ends_with(t, seq!['k']) {
        Some((t.drop_last(), Scale::Kilo))
    } else {
        None
    }
}

/// A CPU suffix ("m") and what it leaves.
pub open spec fn cpu_suffix(t: Seq<char>) -> Option<(Seq<char>, Scale)> {
    if ends_with(t, seq!['m']) {
        Some((t.drop_last(), Scale::Milli))
    } else {
        None
    }
}

pub open spec fn suffix_for(ctx: QuantityContext, t: Seq<char>) -> Option<(Seq<char>, Scale)> {
    match ctx {
        QuantityContext::Cpu => cpu_suffix(t),
        QuantityContext::Memory => memory_suffix(t),
        QuantityContext::Throughput => throughput_suffix(t),
    }
}

pub open spec fn invalid_message(ctx: QuantityContext, t: Seq<char>, numeral: Seq<char>) -> Seq<char> {
    let field = match ctx {
        QuantityContext::Cpu => "CPU"@,
        QuantityContext::Memory => "memory"@,
        QuantityContext::Throughput => "throughput"@,
    };
    "invalid "@ + field + " quantity '"@ + t + "': numeric part '"@ + numeral + "' is not a number"@
}

pub open spec fn unrecognized_message(ctx: QuantityContext, t: Seq<char>) -> Seq<char> {
    match ctx {
        QuantityContext::Cpu => "unrecognized CPU suffix in '"@ + t
            + "', expected bare number or 'm' (millicore)"@,
        QuantityContext::Memory => "unrecognized memory suffix in '"@ + t
            + "', expected Ki/Mi/Gi/Ti or bare number"@,
        QuantityContext::Throughput => "unrecognized throughput suffix in '"@ + t
            + "', expected k/M/G or bare number"@,
    }
}

/// How a quantity string reads: empty after trimming is an error; a bare
/// number reads as itself in every context; otherwise the context's suffix
/// is stripped and what remains must be a number.
pub open spec fn quantity_reading(val: Seq<char>, ctx: QuantityContext) -> Result<(Seq<char>, Scale), Seq<char>> {
    let t = trim(val);
    if t.len() == 0 {
        Err("empty quantity string"@)
    } else if float_literal(t) {
        Ok((t, Scale::Unit))
    } else {
        match suffix_for(ctx, t) {
            Some((n, scale)) => if float_literal(n) {
                Ok((n, scale))
            } else {
                Err(invalid_message(ctx, t, n))
            },
            None => Err(unrecognized_message(ctx, t)),
        }
    }
}

/// The scale a unit written after a numeral has in a context, if it is one
/// of the context's units.
pub open spec fn unit_scale(ctx: QuantityContext, unit: Seq<char>) -> Option<Scale> {
    match ctx {
        QuantityContext::Cpu => if unit == seq!['m'] {
            Some(Scale::Milli)
        } else {
            None
        },
        QuantityContext::Memory => if unit == seq!['T', 'i'] {
            Some(Scale::Tebi)
        } else if unit == seq!['G', 'i'] {
            Some(Scale::Gibi)
        } else if unit == seq!['M', 'i'] || unit == seq!['M'] {
            Some(Scale::Mebi)
        } else if unit == seq!['K', 'i'] {
            Some(Scale::Kibi)
        } else {
            None
        },
        QuantityContext::Throughput => if unit == seq!['G'] {
            Some(Scale::Giga)
        } else if unit == seq!['M'] {
            Some(Scale::Mega)
        } else if unit == seq!['k'] {
            Some(Scale::Kilo)
        } else {
            None
        },
    }
}

/// A plain decimal: digits, optionally followed by a '.' and more digits.
pub open spec fn plain_decimal(n: Seq<char>) -> bool {
    ||| (all_digits(n) && n.len() > 0)
    ||| exists|p: int| 0 < p < n.len() && n[p] == '.' && all_digits(n.take(p)) && all_digits(#[trigger] n.skip(p + 1))
}

proof fn lemma_plain_decimal_is_float(n: Seq<char>)
    requires
        plain_decimal(n),
    ensures
        float_literal(n),
        is_digit(n[0]),
{
    if all_digits(n) && n.len() > 0 {
        assert(is_digit(n[0]));
    } else {
        let p = choose|p: int| 0 < p < n.len() && n[p] == '.' && all_digits(n.take(p)) && all_digits(#[trigger] n.skip(p + 1));
        assert(mantissa(n));
        assert(n.take(p)[0] == n[0]);
    }
}

/// Text that starts with a digit and ends with neither a digit nor a '.' is no
/// floating-point literal.
proof fn lemma_not_float_literal(t: Seq<char>)
    requires
        t.len() > 0,
        is_digit(t[0]),
        !is_digit(t.last()),
        t.last() != '.',
    ensures
        !float_literal(t),
{
    let last = t.len() - 1;
    assert(!is_sign(t[0]));
    assert(!letter_ci(t[0], 'i') && !letter_ci(t[0], 'n'));
    assert(!all_digits(t));
    if exists|p: int|
        0 <= p < t.len() && t[p] == '.' && all_digits(t.take(p)) && all_digits(#[trigger] t.skip(p + 1)) && t.len() > 1 {
        let p = choose|p: int|
            0 <= p < t.len() && t[p] == '.' && all_digits(t.take(p)) && all_digits(#[trigger] t.skip(p + 1)) && t.len() > 1;
        if p < last {
            assert(t.skip(p + 1)[last - p - 1] == t[last]);
        }
    }
    assert(!mantissa(t));
    if exists|e: int|
        0 <= e < t.len() && letter_ci(t[e], 'e') && mantissa(#[trigger] t.take(e)) && exponent_digits(t.skip(e + 1)) {
        let e = choose|e: int|
            0 <= e < t.len() && letter_ci(t[e], 'e') && mantissa(#[trigger] t.take(e)) && exponent_digits(t.skip(e + 1));
        let x = t.skip(e + 1);
        if x.len() > 0 {
            assert(x[x.len() - 1] == t[last]);
            if x.len() > 1 {
                assert(x.skip(1)[x.len() - 2] == t[last]);
            }
        }
    }
    assert(!numeral(t));
    assert(!word_ci(t, seq!['i', 'n', 'f']));
    assert(!word_ci(t, seq!['i', 'n', 'f', 'i', 'n', 'i', 't', 'y']));
    assert(!word_ci(t, seq!['n', 'a', 'n']));
    assert(!unsigned_float(t));
}

/// A quantity written as a plain decimal followed by one of its context's
/// units, around white space, reads as that decimal scaled by that unit:
/// "1.5Gi" in memory is 1.5 scaled by GiB, "300m" for CPU is 300 millicores.
pub proof fn lemma_decimal_with_unit_reads(val: Seq<char>, ctx: QuantityContext, n: Seq<char>, unit: Seq<char>)
    requires
        trim(val) == n + unit,
        plain_decimal(n),
        unit_scale(ctx, unit) is Some,
    ensures
        quantity_reading(val, ctx) == Ok::<(Seq<char>, Scale), Seq<char>>((n, unit_scale(ctx, unit)->0)),
{
    let t = trim(val);
    lemma_plain_decimal_is_float(n);
    let last = t.len() - 1;
    assert(t[0] == n[0]);
    assert(t.last() == unit.last());
    lemma_not_float_literal(t);
    let k = t.len() - unit.len();
    assert(t.take(k) =~= n);
    assert(t.skip(k) =~= unit);
    let a = t[t.len() - 2];
    let b = t[t.len() - 1];
    assert(t.skip(t.len() - 1) =~= seq![b]);
    assert(t.skip(t.len() - 2) =~= seq![a, b]);
    assert(t.drop_last() =~= t.take(t.len() - 1));
    if unit.len() == 2 {
        assert(unit =~= seq![a, b]);
        assert(t.take(t.len() - 2) =~= n);
    } else {
        assert(unit =~= seq![b]);
        assert(t.take(t.len() - 1) =~= n);
    }
    assert(b != 'i' ==> !ends_with(t, seq!['T', 'i']) && !ends_with(t, seq!['G', 'i']) && !ends_with(t, seq!['M', 'i'])
        && !ends_with(t, seq!['K', 'i'])) by {
        if b != 'i' {
            assert(seq!['T', 'i'][1] == 'i');
            assert(seq!['G', 'i'][1] == 'i');
            assert(seq!['M', 'i'][1] == 'i');
            assert(seq!['K', 'i'][1] == 'i');
            assert(seq![a, b][1] == b);
        }
    }
    assert(ends_with(t, seq!['T', 'i']) <==> (a == 'T' && b == 'i')) by {
        if ends_with(t, seq!['T', 'i']) {
            assert(seq![a, b][0] == seq!['T', 'i'][0]);
            assert(seq![a, b][1] == seq!['T', 'i'][1]);
        }
        if a == 'T' && b == 'i' {
            assert(seq![a, b] =~= seq!['T', 'i']);
        }
    }
    assert(ends_with(t, seq!['G', 'i']) <==> (a == 'G' && b == 'i')) by {
        if ends_with(t, seq!['G', 'i']) {
            assert(seq![a, b][0] == seq!['G', 'i'][0]);
            assert(seq![a, b][1] == seq!['G', 'i'][1]);
        }
        if a == 'G' && b == 'i' {
            assert(seq![a, b] =~= seq!['G', 'i']);
        }
    }
    assert(ends_with(t, seq!['M', 'i']) <==> (a == 'M' && b == 'i')) by {
        if ends_with(t, seq!['M', 'i']) {
            assert(seq![a, b][0] == seq!['M', 'i'][0]);
            assert(seq![a, b][1] == seq!['M', 'i'][1]);
        }
        if a == 'M' && b == 'i' {
            assert(seq![a, b] =~= seq!['M', 'i']);
        }
    }
    assert(ends_with(t, seq!['K', 'i']) <==> (a == 'K' && b == 'i')) by {
        if ends_with(t, seq!['K', 'i']) {
            assert(seq![a, b][0] == seq!['K', 'i'][0]);
            assert(seq![a, b][1] == seq!['K', 'i'][1]);
        }
        if a == 'K' && b == 'i' {
            assert(seq![a, b] =~= seq!['K', 'i']);
        }
    }
    assert forall|c: char| ends_with(t, seq![c]) <==> b == c by {
        if ends_with(t, seq![c]) {
            assert(seq![b][0] == seq![c][0]);
        }
        if b == c {
            assert(seq![b] =~= seq![c]);
        }
    }
    if unit.len() == 2 {
        assert(unit[0] == a && unit[1] == b);
        assert(seq!['T', 'i'][0] == 'T' && seq!['G', 'i'][0] == 'G' && seq!['M', 'i'][0] == 'M' && seq!['K', 'i'][0]
            == 'K');
        assert(seq!['T', 'i'][1] == 'i' && seq!['G', 'i'][1] == 'i' && seq!['M', 'i'][1] == 'i' && seq!['K', 'i'][1]
            == 'i');
    } else {
        assert(unit[0] == b);
        assert(seq!['m'][0] == 'm' && seq!['M'][0] == 'M' && seq!['G'][0] == 'G' && seq!['k'][0] == 'k');
        assert(seq!['T', 'i'].len() == 2 && seq!['M', 'i'].len() == 2);
    }
}

/// A plain decimal alone, around white space, reads as itself, unscaled.
pub proof fn lemma_plain_decimal_reads(val: Seq<char>, ctx: QuantityContext)
    requires
        plain_decimal(trim(val)),
    ensures
        quantity_reading(val, ctx) == Ok::<(Seq<char>, Scale), Seq<char>>((trim(val), Scale::Unit)),
{
    lemma_plain_decimal_is_float(trim(val));
}

/// The characters `c[lo..hi]`, as a new vector.
fn copy_range(c: &Vec<char>, lo: usize, hi: usize) -> (r: Vec<char>)
    requires
        lo <= hi <= c@.len(),
    ensures
        r@ == c@.subrange(lo as int, hi as int),
{
    let mut out: Vec<char> = Vec::new();
    let mut i: usize = lo;
    while i < hi
        invariant
            lo <= i <= hi <= c@.len(),
            out@ == c@.subrange(lo as int, i as int),
        decreases hi - i,
    {
        out.push(c[i]);
        proof {
            assert(out@ =~= c@.subrange(lo as int, i + 1));
        }
        i = i + 1;
    }
    out
}

fn white_space(c: char) -> (r: bool)
    ensures
        r == is_white_space(c),
{
    ('\u{9}' <= c && c <= '\u{d}') || c == ' ' || c == '\u{85}' || c == '\u{a0}' || c == '\u{1680}'
        || ('\u{2000}' <= c && c <= '\u{200a}') || c == '\u{2028}' || c == '\u{2029}' || c
        == '\u{202f}' || c == '\u{205f}' || c == '\u{3000}'
}

/// Bounds of `trim(c)` within `c`.
fn trim_bounds(c: &Vec<char>) -> (r: (usize, usize))
    ensures
        r.0 <= r.1 <= c@.len(),
        c@.subrange(r.0 as int, r.1 as int) == trim(c@),
{
    let mut lo: usize = 0;
    assert(c@.skip(0) =~= c@);
    while lo < c.len() && white_space(c[lo])
        invariant
            lo <= c@.len(),
            trim_start(c@) == trim_start(c@.skip(lo as int)),
        decreases c@.len() - lo,
    {
        proof {
            assert(c@.skip(lo as int).skip(1) =~= c@.skip(lo + 1));
        }
        lo = lo + 1;
    }
    let ghost ts = c@.skip(lo as int);
    assert(trim_start(c@) == ts);
    let mut hi: usize = c.len();
    while hi > lo && white_space(c[hi - 1])
        invariant
            lo <= hi <= c@.len(),
            ts == c@.skip(lo as int),
            trim_end(ts) == trim_end(c@.subrange(lo as int, hi as int)),
        decreases hi - lo,
    {
        proof {
            assert(c@.subrange(lo as int, hi as int).drop_last() =~= c@.subrange(lo as int, hi - 1));
        }
        hi = hi - 1;
    }
    proof {
        assert(ts =~= c@.subrange(lo as int, c@.len() as int));
    }
    (lo, hi)
}

fn digits_only(s: &Vec<char>, lo: usize, hi: usize) -> (r: bool)
    requires
        lo <= hi <= s@.len(),
    ensures
        r == all_digits(s@.subrange(lo as int, hi as int)),
{
    let mut i: usize = lo;
    while i < hi
        invariant
            lo <= i <= hi <= s@.len(),
            forall|j: int| lo <= j < i ==> is_digit(#[trigger] s@[j]),
        decreases hi - i,
    {
        if !('0' <= s[i] && s[i] <= '9') {
            proof {
                assert(s@.subrange(lo as int, hi as int)[i - lo] == s@[i as int]);
            }
            return false;
        }
        i = i + 1;
    }
    proof {
        assert forall|j: int| 0 <= j < hi - lo implies is_digit(
            #[trigger] s@.subrange(lo as int, hi as int)[j],
        ) by {
            assert(s@.subrange(lo as int, hi as int)[j] == s@[lo + j]);
        }
    }
    true
}

fn char_ci(c: char, l: char) -> (r: bool)
    ensures
        r == letter_ci(c, l),
{
    c == l || (('a' <= l && l <= 'z') && (c as u32) + 32 == l as u32)
}

fn word_matches(s: &Vec<char>, w: &Vec<char>) -> (r: bool)
    ensures
        r == word_ci(s@, w@),
{
    if s.len() != w.len() {
        return false;
    }
    let mut i: usize = 0;
    while i < s.len()
        invariant
            s@.len() == w@.len(),
            i <= s@.len(),
            forall|j: int| 0 <= j < i ==> letter_ci(#[trigger] s@[j], w@[j]),
        decreases s@.len() - i,
    {
        if !char_ci(s[i], w[i]) {
            return false;
        }
        i = i + 1;
    }
    true
}

fn mantissa_ok(s: &Vec<char>) -> (r: bool)
    ensures
        r == mantissa(s@),
{
    let mut p: usize = 0;
    while p < s.len() && s[p] != '.'
        invariant
            p <= s@.len(),
            forall|j: int| 0 <= j < p ==> s@[j] != '.',
        decreases s@.len() - p,
    {
        p = p + 1;
    }
    if p == s.len() {
        let r = digits_only(s, 0, s.len()) && s.len() > 0;
        proof {
            assert(s@.subrange(0, s@.len() as int) =~= s@);
            assert forall|q: int| 0 <= q < s@.len() && s@[q] == '.' implies !all_digits(
                #[trigger] s@.skip(q + 1),
            ) || !all_digits(s@.take(q)) by {}
        }
        return r;
    }
    let a = digits_only(s, 0, p);
    let b = digits_only(s, p + 1, s.len());
    proof {
        assert(s@.subrange(0, p as int) =~= s@.take(p as int));
        assert(s@.subrange(p + 1, s@.len() as int) =~= s@.skip(p + 1));
        assert(!all_digits(s@)) by {
            assert(!is_digit(s@[p as int]));
        }
        assert forall|q: int|
            0 <= q < s@.len() && s@[q] == '.' && all_digits(s@.take(q)) && all_digits(
                #[trigger] s@.skip(q + 1),
            ) implies q == p by {
            if q > p {
                assert(s@.take(q)[p as int] == '.');
            }
        }
    }
    a && b && s.len() > 1
}

fn exponent_ok(x: &Vec<char>) -> (r: bool)
    ensures
        r == exponent_digits(x@),
{
    if x.len() > 1 && (x[0] == '+' || x[0] == '-') {
        proof {
            assert(!all_digits(x@)) by {
                assert(!is_digit(x@[0]));
            }
            assert(x@.subrange(1, x@.len() as int) =~= x@.skip(1));
        }
        return digits_only(x, 1, x.len());
    }
    proof {
        assert(x@.subrange(0, x@.len() as int) =~= x@);
    }
    digits_only(x, 0, x.len()) && x.len() > 0
}

fn numeral_ok(s: &Vec<char>) -> (r: bool)
    ensures
        r == numeral(s@),
{
    let mut e: usize = 0;
    while e < s.len() && !char_ci(s[e], 'e')
        invariant
            e <= s@.len(),
            forall|j: int| 0 <= j < e ==> !letter_ci(#[trigger] s@[j], 'e'),
        decreases s@.len() - e,
    {
        e = e + 1;
    }
    if e == s.len() {
        return mantissa_ok(s);
    }
    let head = copy_range(s, 0, e);
    let tail = copy_range(s, e + 1, s.len());
    let m = mantissa_ok(&head);
    let x = exponent_ok(&tail);
    proof {
        assert(head@ =~= s@.take(e as int));
        assert(tail@ =~= s@.skip(e + 1));
        assert(!mantissa(s@)) by {
            assert(!is_digit(s@[e as int]));
            assert(s@[e as int] != '.');
            if exists|p: int|
                0 <= p < s@.len() && s@[p] == '.' && all_digits(s@.take(p)) && all_digits(
                    #[trigger] s@.skip(p + 1),
                ) && s@.len() > 1 {
                let p = choose|p: int|
                    0 <= p < s@.len() && s@[p] == '.' && all_digits(s@.take(p)) && all_digits(
                        #[trigger] s@.skip(p + 1),
                    ) && s@.len() > 1;
                if e < p {
                    assert(s@.take(p)[e as int] == s@[e as int]);
                } else {
                    assert(s@.skip(p + 1)[e - p - 1] == s@[e as int]);
                }
            }
        }
        assert forall|f: int|
            0 <= f < s@.len() && letter_ci(s@[f], 'e') && mantissa(#[trigger] s@.take(f))
                implies f == e by {
            if f > e {
                let t = s@.take(f);
                assert(t[e as int] == s@[e as int]);
                assert(!is_digit(t[e as int]));
                assert(!all_digits(t));
                if exists|p: int|
                    0 <= p < t.len() && t[p] == '.' && all_digits(t.take(p)) && all_digits(
                        #[trigger] t.skip(p + 1),
                    ) && t.len() > 1 {
                    let p = choose|p: int|
                        0 <= p < t.len() && t[p] == '.' && all_digits(t.take(p)) && all_digits(
                            #[trigger] t.skip(p + 1),
                        ) && t.len() > 1;
                    if e < p {
                        assert(t.take(p)[e as int] == t[e as int]);
                    } else {
                        assert(t.skip(p + 1)[e - p - 1] == t[e as int]);
                    }
                }
            }
        }
    }
    m && x
}

fn unsigned_ok(s: &Vec<char>) -> (r: bool)
    ensures
        r == unsigned_float(s@),
{
    let inf = vec!['i', 'n', 'f'];
    let infinity = vec!['i', 'n', 'f', 'i', 'n', 'i', 't', 'y'];
    let nan = vec!['n', 'a', 'n'];
    proof {
        assert(inf@ =~= seq!['i', 'n', 'f']);
        assert(infinity@ =~= seq!['i', 'n', 'f', 'i', 'n', 'i', 't', 'y']);
        assert(nan@ =~= seq!['n', 'a', 'n']);
    }
    word_matches(s, &inf) || word_matches(s, &infinity) || word_matches(s, &nan) || numeral_ok(s)
}

/// A string that starts with a sign reads as unsigned only after the sign.
proof fn lemma_signed_not_unsigned(s: Seq<char>)
    requires
        s.len() > 0,
        is_sign(s[0]),
    ensures
        !unsigned_float(s),
{
    assert(!letter_ci(s[0], 'i'));
    assert(!letter_ci(s[0], 'n'));
    assert(!word_ci(s, seq!['i', 'n', 'f']));
    assert(!word_ci(s, seq!['i', 'n', 'f', 'i', 'n', 'i', 't', 'y']));
    assert(!word_ci(s, seq!['n', 'a', 'n']));
    assert forall|m: Seq<char>| m.len() > 0 && m[0] == s[0] implies !mantissa(m) by {
        assert(!is_digit(m[0]));
        if exists|p: int|
            0 <= p < m.len() && m[p] == '.' && all_digits(m.take(p)) && all_digits(#[trigger] m.skip(p + 1))
                && m.len() > 1 {
            let p = choose|p: int|
                0 <= p < m.len() && m[p] == '.' && all_digits(m.take(p)) && all_digits(
                    #[trigger] m.skip(p + 1),
                ) && m.len() > 1;
            assert(p > 0);
            assert(m.take(p)[0] == m[0]);
        }
    }
    assert(!mantissa(s));
    if exists|e: int|
        0 <= e < s.len() && letter_ci(s[e], 'e') && mantissa(#[trigger] s.take(e)) && exponent_digits(
            s.skip(e + 1),
        ) {
        let e = choose|e: int|
            0 <= e < s.len() && letter_ci(s[e], 'e') && mantissa(#[trigger] s.take(e))
                && exponent_digits(s.skip(e + 1));
        assert(e > 0) by {
            if e == 0 {
                assert(!letter_ci(s[0], 'e'));
            }
        }
        assert(s.take(e)[0] == s[0]);
    }
}

/// Whether `s` is the text of a decimal floating-point number.
fn float_literal_ok(s: &Vec<char>) -> (r: bool)
    ensures
        r == float_literal(s@),
{
    if s.len() > 0 && (s[0] == '+' || s[0] == '-') {
        proof {
            lemma_signed_not_unsigned(s@);
        }
        let rest = copy_range(s, 1, s.len());
        proof {
            assert(rest@ =~= s@.skip(1));
        }
        return unsigned_ok(&rest);
    }
    unsigned_ok(s)
}

fn ends_with_chars(t: &Vec<char>, suffix: &Vec<char>) -> (r: bool)
    ensures
        r == ends_with(t@, suffix@),
{
    if t.len() < suffix.len() {
        return false;
    }
    let off = t.len() - suffix.len();
    let mut i: usize = 0;
    while i < suffix.len()
        invariant
            off + suffix.len() == t.len(),
            i <= suffix@.len(),
            forall|j: int| 0 <= j < i ==> t@[off + j] == suffix@[j],
        decreases suffix@.len() - i,
    {
        if t[off + i] != suffix[i] {
            proof {
                assert(t@.skip(off as int)[i as int] == t@[off + i]);
            }
            return false;
        }
        i = i + 1;
    }
    assert(t@.skip(off as int) =~= suffix@);
    true
}

/// Which suffix of the context's table ends `t`, with the length it leaves.
fn find_suffix(ctx: QuantityContext, t: &Vec<char>) -> (r: Option<(usize, Scale)>)
    ensures
        r matches Some((n, scale)) ==> n <= t@.len() && suffix_for(ctx, t@) == Some(
            (t@.take(n as int), scale),
        ),
        r is None ==> suffix_for(ctx, t@) is None,
{
    match ctx {
        QuantityContext::Cpu => {
            let m = vec!['m'];
            assert(m@ =~= seq!['m']);
            if ends_with_chars(t, &m) {
                proof {
                    assert(t@.drop_last() =~= t@.take(t@.len() - 1));
                }
                return Some((t.len() - 1, Scale::Milli));
            }
            None
        },
        QuantityContext::Memory => {
            let ti = vec!['T', 'i'];
            let gi = vec!['G', 'i'];
            let mi = vec!['M', 'i'];
            let ki = vec!['K', 'i'];
            let m = vec!['M'];
            assert(m@ =~= seq!['M']);
            assert(ti@ =~= seq!['T', 'i']);
            assert(gi@ =~= seq!['G', 'i']);
            assert(mi@ =~= seq!['M', 'i']);
            assert(ki@ =~= seq!['K', 'i']);
            if ends_with_chars(t, &ti) {
                return Some((t.len() - 2, Scale::Tebi));
            }
            if ends_with_chars(t, &gi) {
                return Some((t.len() - 2, Scale::Gibi));
            }
            if ends_with_chars(t, &mi) {
                return Some((t.len() - 2, Scale::Mebi));
            }
            if ends_with_chars(t, &m) {
                return Some((t.len() - 1, Scale::Mebi));
            }
            if ends_with_chars(t, &ki) {
                return Some((t.len() - 2, Scale::Kibi));
            }
            None
        },
        QuantityContext::Throughput => {
            let g = vec!['G'];
            let m = vec!['M'];
            let k = vec!['k'];
            assert(g@ =~= seq!['G']);
            assert(m@ =~= seq!['M']);
            assert(k@ =~= seq!['k']);
            proof {
                assert(t@.drop_last() =~= t@.take(t@.len() - 1));
            }
            if ends_with_chars(t, &g) {
                return Some((t.len() - 1, Scale::Giga));
            }
            if ends_with_chars(t, &m) {
                return Some((t.len() - 1, Scale::Mega));
            }
            if ends_with_chars(t, &k) {
                return Some((t.len() - 1, Scale::Kilo));
            }
            None
        },
    }
}

/// Read a resource quantity with the unit table of its context.
///
/// Surrounding white space is ignored, and a bare number is accepted in every
/// context. The numeral of the result is the text of a decimal floating-point
/// number; the quantity's value is that number scaled by the unit.
pub fn read_quantity(val: &str, ctx: QuantityContext) -> (r: Result<Quantity, String>)
    ensures
        match quantity_reading(val@, ctx) {
            Ok((numeral, scale)) => r is Ok && r->Ok_0.numeral@ == numeral && r->Ok_0.scale == scale,
            Err(msg) => r is Err && r->Err_0@ == msg,
        },
{
    let owned = val.to_owned();
    let chars = chars_of(&owned);
    let (lo, hi) = trim_bounds(&chars);
    let trimmed = val.substring_char(lo, hi);
    let t = copy_range(&chars, lo, hi);
    if t.len() == 0 {
        return Err("empty quantity string".to_owned());
    }
    if float_literal_ok(&t) {
        return Ok(Quantity { numeral: trimmed.to_owned(), scale: Scale::Unit });
    }
    match find_suffix(ctx, &t) {
        Some((n, scale)) => {
            let numeral_chars = copy_range(&t, 0, n);
            proof {
                assert(numeral_chars@ =~= t@.take(n as int));
                assert(t@.take(n as int) =~= val@.subrange(lo as int, lo + n));
            }
            let numeral = val.substring_char(lo, lo + n);
            if float_literal_ok(&numeral_chars) {
                Ok(Quantity { numeral: numeral.to_owned(), scale })
            } else {
                let mut msg = "invalid ".to_owned();
                msg.append(
                    match ctx {
                        QuantityContext::Cpu => "CPU",
                        QuantityContext::Memory => "memory",
                        QuantityContext::Throughput => "throughput",
                    },
                );
                msg.append(" quantity '");
                msg.append(trimmed);
                msg.append("': numeric part '");
                msg.append(numeral);
                msg.append("' is not a number");
                Err(msg)
            }
        },
        None => {
            let mut msg = match ctx {
                QuantityContext::Cpu => "unrecognized CPU suffix in '".to_owned(),
                QuantityContext::Memory => "unrecognized memory suffix in '".to_owned(),
                QuantityContext::Throughput => "unrecognized throughput suffix in '".to_owned(),
            };
            msg.append(trimmed);
            msg.append(
                match ctx {
                    QuantityContext::Cpu => "', expected bare number or 'm' (millicore)",
                    QuantityContext::Memory => "', expected Ki/Mi/Gi/Ti or bare number",
                    QuantityContext::Throughput => "', expected k/M/G or bare number",
                },
            );
            Err(msg)
        },
    }
}

} // verus!
