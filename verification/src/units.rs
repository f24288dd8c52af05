//! Unit normalisation and the derived efficiency figures.
//!
//! The scheduler reports memory either in kilobytes (a `kb` suffix), in
//! gigabytes (a `gb` suffix), or as a bare number already in gigabytes.
//! Because the library shuns floating point, a memory quantity is held in
//! fixed point: one unit is 10^-13 GB, so one kilobyte is exactly the
//! conversion constant 9536743 units. Efficiency percentages are likewise
//! held in hundredths of a percent.

use vstd::prelude::*;
use vstd::arithmetic::div_mod::{lemma_fundamental_div_mod, lemma_fundamental_div_mod_converse};

use crate::text::{
    all_digits, dec_val, lemma_pow10_19, lemma_pow10_le, lemma_pow10_pos, parse_decimal,
    join_strs, parse_digits, pow10, spec_decimal, spec_join, spec_split, split_str, str_eq,
    DecError, DigitError,
};

verus! {

/// One gigabyte, in 10^-13 GB units.
pub const GB_UNITS: u64 = 10_000_000_000_000;

/// One kilobyte, in 10^-13 GB units: the conversion constant 0.0000009536743
/// scaled by 10^13.
pub const KB_UNITS: u64 = 9_536_743;

/// A memory quantity in fixed point; one unit is 10^-13 GB.
#[derive(Clone, Copy, Debug, PartialEq, Eq, Structural)]
pub struct GbFixed {
    pub units: u64,
}

/// The value denoted by the decimal `a.f` (with `d` fraction digits) scaled
/// by `factor` units, truncated to whole units.
pub open spec fn scaled_units(a: nat, f: nat, d: nat, factor: nat) -> nat {
    (a * pow10(d) + f) * factor / pow10(d)
}

/// What a memory string denotes in 10^-13 GB units: a bare decimal is
/// gigabytes, a `kb` suffix means kilobytes, a `gb` suffix gigabytes.
/// Fractions longer than thirteen digits exceed the fixed-point precision
/// and do not denote a value.
pub open spec fn spec_mem_units(s: Seq<char>) -> Option<nat> {
    match spec_decimal(s) {
        Some((a, f, d)) => if d <= 13 {
            Some(scaled_units(a, f, d, GB_UNITS as nat))
        } else {
            None
        },
        None => if s.len() >= 2 && s.subrange(s.len() - 2, s.len() as int) == seq!['k', 'b'] {
            match spec_decimal(s.subrange(0, s.len() - 2)) {
                Some((a, f, d)) => if d <= 13 {
                    Some(scaled_units(a, f, d, KB_UNITS as nat))
                } else {
                    None
                },
                None => None,
            }
        } else if s.len() >= 2 && s.subrange(s.len() - 2, s.len() as int) == seq!['g', 'b'] {
            match spec_decimal(s.subrange(0, s.len() - 2)) {
                Some((a, f, d)) => if d <= 13 {
                    Some(scaled_units(a, f, d, GB_UNITS as nat))
                } else {
                    None
                },
                None => None,
            }
        } else {
            None
        },
    }
}

/// Scaling distributes over the integer and fraction parts: the whole-unit
/// truncation touches only the fraction's contribution.
proof fn lemma_scaled_split(a: nat, f: nat, d: nat, factor: nat)
    requires
        factor > 0,
    ensures
        scaled_units(a, f, d, factor) == a * factor + (f * factor) / pow10(d),
{
    let p = pow10(d) as int;
    assert(p > 0) by {
        lemma_pow10_pos(d);
    }
    let af = (a * factor) as int;
    let ff = (f * factor) as int;
    assert((a * pow10(d) + f) * factor == af * p + ff) by (nonlinear_arith)
        requires
            af == a * factor,
            ff == f * factor,
            p == pow10(d),
    ;
    lemma_fundamental_div_mod(ff, p);
    assert(af * p + ff == p * (af + ff / p) + ff % p) by (nonlinear_arith)
        requires
            ff == p * (ff / p) + ff % p,
    ;
    lemma_fundamental_div_mod_converse(af * p + ff, p, af + ff / p, ff % p);
}

/// The scaled value is at least `a` whenever the factor is positive.
proof fn lemma_scaled_lower(a: nat, f: nat, d: nat, factor: nat)
    requires
        factor >= 1,
    ensures
        scaled_units(a, f, d, factor) >= a,
{
    lemma_scaled_split(a, f, d, factor);
    assert(a * factor >= a) by (nonlinear_arith)
        requires
            factor >= 1,
    ;
}

/// Ten to a small power stays inside `u64`.
proof fn lemma_pow10_bound(d: nat)
    requires
        d <= 13,
    ensures
        pow10(d) <= 10_000_000_000_000,
{
    lemma_pow10_le(d, 13);
    lemma_pow10_19();
}

/// Ten to the `d`, for small `d`.
fn pow10_u64(d: usize) -> (r: u64)
    requires
        d <= 13,
    ensures
        r == pow10(d as nat),
{
    let mut r: u64 = 1;
    let mut i: usize = 0;
    while i < d
        invariant
            0 <= i <= d <= 13,
            r == pow10(i as nat),
        decreases d - i,
    {
        proof {
            lemma_pow10_bound(i as nat);
        }
        r = r * 10;
        i = i + 1;
    }
    r
}

/// Computes `a.f * factor` in whole units, or reports that it overflows.
fn scale_decimal(a: u64, f: u64, d: usize, factor: u64) -> (r: Option<u64>)
    requires
        d <= 13,
        factor == GB_UNITS || factor == KB_UNITS,
    ensures
        match r {
            Some(v) => v == scaled_units(a as nat, f as nat, d as nat, factor as nat),
            None => scaled_units(a as nat, f as nat, d as nat, factor as nat) > u64::MAX,
        },
{
    proof {
        lemma_scaled_split(a as nat, f as nat, d as nat, factor as nat);
        lemma_pow10_pos(d as nat);
        assert((a as int) * (factor as int) <= (u64::MAX as int) * (GB_UNITS as int))
            by (nonlinear_arith)
            requires
                0 <= a <= u64::MAX,
                0 <= factor <= GB_UNITS,
        ;
        assert((f as int) * (factor as int) <= (u64::MAX as int) * (GB_UNITS as int))
            by (nonlinear_arith)
            requires
                0 <= f <= u64::MAX,
                0 <= factor <= GB_UNITS,
        ;
    }
    let p: u64 = pow10_u64(d);
    let whole: u128 = (a as u128) * (factor as u128);
    let frac: u128 = ((f as u128) * (factor as u128)) / (p as u128);
    proof {
        assert(whole + frac == scaled_units(a as nat, f as nat, d as nat, factor as nat));
    }
    if whole + frac > u64::MAX as u128 {
        None
    } else {
        Some((whole + frac) as u64)
    }
}

/// Why a memory string was rejected.
#[derive(Clone, Copy, Debug, PartialEq, Eq, Structural)]
pub enum MemError {
    /// Neither a bare decimal nor a decimal with a `kb` or `gb` suffix.
    Unrecognized,
    /// A well-formed quantity too large for the fixed-point range.
    TooLarge,
}

/// Converts a scheduler memory string to fixed-point gigabytes.
///
/// A bare decimal and a `gb` suffix are taken as gigabytes; a `kb` suffix
/// is converted with the fixed constant (one kilobyte is 9536743 units of
/// 10^-13 GB). Anything else is an error, never a silent zero.
pub fn convert_mem_to_gb(st: &str) -> (r: Result<GbFixed, MemError>)
    ensures
        match r {
            Ok(g) => spec_mem_units(st@) == Some(g.units as nat),
            Err(e) => match spec_mem_units(st@) {
                Some(v) => v > u64::MAX && e == MemError::TooLarge,
                None => e == MemError::Unrecognized,
            },
        },
{
    match parse_decimal(st) {
        Ok((a, f, d)) => match scale_decimal(a, f, d, GB_UNITS) {
            Some(v) => Ok(GbFixed { units: v }),
            None => Err(MemError::TooLarge),
        },
        Err(DecError::IntTooBig) => {
            proof {
                let (a, f, d) = spec_decimal(st@)->Some_0;
                if d <= 13 {
                    lemma_scaled_lower(a, f, d, GB_UNITS as nat);
                }
            }
            Err(MemError::TooLarge)
        },
        Err(DecError::FracTooLong) => Err(MemError::Unrecognized),
        Err(DecError::NotDecimal) => {
            let n: usize = st.unicode_len();
            if n < 2 {
                return Err(MemError::Unrecognized);
            }
            let suffix: &str = st.substring_char(n - 2, n);
            let prefix: &str = st.substring_char(0, n - 2);
            proof {
                reveal_strlit("kb");
                reveal_strlit("gb");
                assert("kb"@ =~= seq!['k', 'b']);
                assert("gb"@ =~= seq!['g', 'b']);
                assert(suffix@ =~= st@.subrange(st@.len() - 2, st@.len() as int));
                assert(prefix@ =~= st@.subrange(0, st@.len() - 2));
                assert(seq!['k', 'b'] != seq!['g', 'b']) by {
                    assert(seq!['k', 'b'][0] != seq!['g', 'b'][0]);
                }
            }
            let factor: u64 = if str_eq(suffix, "kb") {
                KB_UNITS
            } else if str_eq(suffix, "gb") {
                GB_UNITS
            } else {
                return Err(MemError::Unrecognized);
            };
            match parse_decimal(prefix) {
                Ok((a, f, d)) => match scale_decimal(a, f, d, factor) {
                    Some(v) => Ok(GbFixed { units: v }),
                    None => Err(MemError::TooLarge),
                },
                Err(DecError::IntTooBig) => {
                    proof {
                        let (a, f, d) = spec_decimal(prefix@)->Some_0;
                        if d <= 13 {
                            lemma_scaled_lower(a, f, d, factor as nat);
                        }
                    }
                    Err(MemError::TooLarge)
                },
                Err(DecError::FracTooLong) => Err(MemError::Unrecognized),
                Err(DecError::NotDecimal) => Err(MemError::Unrecognized),
            }
        },
    }
}

/// What an `HH:MM:SS` string denotes in seconds: exactly three colon-separated
/// fields, each a non-empty digit string.
pub open spec fn spec_hms_seconds(s: Seq<char>) -> Option<nat> {
    let parts = spec_split(s, seq![':']);
    if parts.len() == 3 && parts[0].len() > 0 && parts[1].len() > 0 && parts[2].len() > 0
        && all_digits(parts[0]) && all_digits(parts[1]) && all_digits(parts[2]) {
        Some((dec_val(parts[0]) * 3600 + dec_val(parts[1]) * 60 + dec_val(parts[2])) as nat)
    } else {
        None
    }
}

/// Why a walltime computation failed.
#[derive(Clone, Copy, Debug, PartialEq, Eq, Structural)]
pub enum WalltimeError {
    /// Not an `HH:MM:SS` string with exactly three numeric fields.
    Format,
    /// Well-formed, but the value exceeds the machine range.
    TooLarge,
    /// The reserved walltime is zero, so no efficiency is defined.
    ZeroReserved,
}

/// Converts an `HH:MM:SS` string to seconds. The field count must be exactly
/// three; each field must be a non-empty digit string.
pub fn walltime_to_seconds(time: &str) -> (r: Result<u64, WalltimeError>)
    ensures
        match r {
            Ok(v) => spec_hms_seconds(time@) == Some(v as nat),
            Err(WalltimeError::Format) => spec_hms_seconds(time@) is None,
            Err(WalltimeError::TooLarge) => spec_hms_seconds(time@) matches Some(w) && w
                > u64::MAX,
            Err(WalltimeError::ZeroReserved) => false,
        },
{
    proof {
        reveal_strlit(":");
        assert(":"@ =~= seq![':']);
    }
    let parts = split_str(time, ":");
    if parts.len() != 3 {
        return Err(WalltimeError::Format);
    }
    if parts[0].as_str().unicode_len() == 0 || parts[1].as_str().unicode_len() == 0
        || parts[2].as_str().unicode_len() == 0 {
        return Err(WalltimeError::Format);
    }
    let rh = parse_digits(parts[0].as_str());
    let rm = parse_digits(parts[1].as_str());
    let rs = parse_digits(parts[2].as_str());
    if matches!(rh, Err(DigitError::NotDigits)) || matches!(rm, Err(DigitError::NotDigits))
        || matches!(rs, Err(DigitError::NotDigits)) {
        return Err(WalltimeError::Format);
    }
    let (h, m, s) = match (rh, rm, rs) {
        (Ok(h), Ok(m), Ok(s)) => (h, m, s),
        _ => {
            // Some field is all digits yet exceeds `u64`, so the total does too.
            proof {
                let ps = spec_split(time@, seq![':']);
                assert(dec_val(ps[0]) * 3600 >= dec_val(ps[0])) by (nonlinear_arith);
                assert(dec_val(ps[1]) * 60 >= dec_val(ps[1])) by (nonlinear_arith);
            }
            return Err(WalltimeError::TooLarge);
        },
    };
    let total: u128 = (h as u128) * 3600 + (m as u128) * 60 + (s as u128);
    if total > u64::MAX as u128 {
        return Err(WalltimeError::TooLarge);
    }
    Ok(total as u64)
}

/// Walltime efficiency in hundredths of a percent:
/// `used seconds * 10000 / reserved seconds`, truncated. A reserved walltime
/// of zero is an error, never infinity.
pub fn walltime_to_percentage(reserved: &str, used: &str) -> (r: Result<u64, WalltimeError>)
    ensures
        ({
            let rs = spec_hms_seconds(reserved@);
            let us = spec_hms_seconds(used@);
            match r {
                Ok(v) => rs is Some && 0 < rs->0 <= u64::MAX && us is Some && us->0 <= u64::MAX
                    && v == us->0 * 10000 / rs->0,
                Err(WalltimeError::Format) => rs is None || (rs->0 <= u64::MAX && us is None),
                Err(WalltimeError::TooLarge) => (rs is Some && rs->0 > u64::MAX) || (rs is Some
                    && rs->0 <= u64::MAX && us is Some && us->0 > u64::MAX) || (rs is Some && 0
                    < rs->0 <= u64::MAX && us is Some && us->0 <= u64::MAX && us->0 * 10000 / rs->0
                    > u64::MAX),
                Err(WalltimeError::ZeroReserved) => rs == Some(0nat) && us is Some && us->0
                    <= u64::MAX,
            }
        }),
{
    let reserved_seconds = match walltime_to_seconds(reserved) {
        Ok(v) => v,
        Err(e) => {
            return Err(e);
        },
    };
    let used_seconds = match walltime_to_seconds(used) {
        Ok(v) => v,
        Err(e) => {
            return Err(e);
        },
    };
    if reserved_seconds == 0 {
        return Err(WalltimeError::ZeroReserved);
    }
    let ratio: u128 = (used_seconds as u128) * 10000 / (reserved_seconds as u128);
    proof {
        assert((used_seconds as u128) * 10000 == (used_seconds as nat) * 10000)
            by (nonlinear_arith);
    }
    if ratio > u64::MAX as u128 {
        return Err(WalltimeError::TooLarge);
    }
    Ok(ratio as u64)
}

/// Why an efficiency ratio could not be formed.
#[derive(Clone, Copy, Debug, PartialEq, Eq, Structural)]
pub enum EffError {
    /// The reserved quantity is zero.
    ZeroReserved,
    /// The ratio exceeds the machine range.
    TooLarge,
}

/// Memory efficiency in hundredths of a percent: `used * 10000 / reserved`,
/// truncated.
pub fn mem_efficiency(used: GbFixed, reserved: GbFixed) -> (r: Result<u64, EffError>)
    ensures
        match r {
            Ok(v) => reserved.units > 0 && v == used.units * 10000 / (reserved.units as int),
            Err(EffError::ZeroReserved) => reserved.units == 0,
            Err(EffError::TooLarge) => reserved.units > 0 && used.units * 10000 / (reserved.units as int) > u64::MAX,
        },
{
    if reserved.units == 0 {
        return Err(EffError::ZeroReserved);
    }
    let ratio: u128 = (used.units as u128) * 10000 / (reserved.units as u128);
    proof {
        assert((used.units as u128) * 10000 == (used.units as nat) * 10000) by (nonlinear_arith);
    }
    if ratio > u64::MAX as u128 {
        return Err(EffError::TooLarge);
    }
    Ok(ratio as u64)
}

/// CPU efficiency in hundredths of a percent. The scheduler reports an
/// aggregate CPU percentage; dividing by the reserved CPU count gives the
/// per-core efficiency: `used_cpu_percent * 100 / ncpus`, truncated.
pub fn cpu_efficiency(used_cpu_percent: u64, ncpus: u64) -> (r: Result<u64, EffError>)
    ensures
        match r {
            Ok(v) => ncpus > 0 && v == used_cpu_percent * 100 / (ncpus as int),
            Err(EffError::ZeroReserved) => ncpus == 0,
            Err(EffError::TooLarge) => ncpus > 0 && used_cpu_percent * 100 / (ncpus as int)
                > u64::MAX,
        },
{
    if ncpus == 0 {
        return Err(EffError::ZeroReserved);
    }
    let ratio: u128 = (used_cpu_percent as u128) * 100 / (ncpus as u128);
    proof {
        assert((used_cpu_percent as u128) * 100 == (used_cpu_percent as nat) * 100)
            by (nonlinear_arith);
    }
    if ratio > u64::MAX as u128 {
        return Err(EffError::TooLarge);
    }
    Ok(ratio as u64)
}

/// The node name of one `exec_host` token: the prefix before its first `/`.
pub open spec fn spec_node_name(tok: Seq<char>) -> Seq<char> {
    spec_split(tok, seq!['/'])[0]
}

/// The node names of an `exec_host` string, one per `+`-separated token.
pub open spec fn spec_node_names(s: Seq<char>) -> Seq<Seq<char>> {
    spec_split(s, seq!['+']).map_values(|tok: Seq<char>| spec_node_name(tok))
}

/// First occurrences of `xs`, in order, given the names already seen.
pub open spec fn dedup_from(xs: Seq<Seq<char>>, seen: Seq<Seq<char>>) -> Seq<Seq<char>>
    decreases xs.len(),
{
    if xs.len() == 0 {
        Seq::empty()
    } else if seen.contains(xs[0]) {
        dedup_from(xs.drop_first(), seen)
    } else {
        seq![xs[0]] + dedup_from(xs.drop_first(), seen.push(xs[0]))
    }
}

/// The de-duplicated, comma-joined node list of an `exec_host` string.
pub open spec fn spec_condensed_nodes(s: Seq<char>) -> Seq<char> {
    spec_join(dedup_from(spec_node_names(s), Seq::empty()), seq![','])
}

/// Reduces an `exec_host` string such as `node1/0+node2/1` to its list of
/// distinct node names, order preserving, comma joined.
pub fn condense_exec_host(s: &str) -> (r: String)
    ensures
        r@ == spec_condensed_nodes(s@),
{
    proof {
        reveal_strlit("+");
        reveal_strlit("/");
        assert("+"@ =~= seq!['+']);
        assert("/"@ =~= seq!['/']);
    }
    let tokens = split_str(s, "+");
    let n: usize = tokens.len();
    let mut nodes: Vec<String> = Vec::new();
    let mut i: usize = 0;
    let ghost names = spec_node_names(s@);
    proof {
        assert(names.skip(0) =~= names);
        assert(nodes.deep_view() =~= Seq::<Seq<char>>::empty());
        assert(nodes.deep_view() + dedup_from(names, nodes.deep_view()) =~= dedup_from(
            names,
            Seq::empty(),
        ));
    }
    while i < n
        invariant
            0 <= i <= n,
            n == tokens.len(),
            names == spec_node_names(s@),
            names.len() == n,
            tokens.deep_view() == spec_split(s@, seq!['+']),
            dedup_from(names, Seq::empty()) == nodes.deep_view() + dedup_from(
                names.skip(i as int),
                nodes.deep_view(),
            ),
        decreases n - i,
    {
        proof {
            reveal_strlit("/");
            assert("/"@ =~= seq!['/']);
        }
        let parts = split_str(tokens[i].as_str(), "/");
        let name: String = parts[0].clone();
        proof {
            assert(tokens.deep_view()[i as int] == tokens[i as int]@);
            assert(name@ == names[i as int]);
            assert(names.skip(i as int)[0] == names[i as int]);
            assert(names.skip(i as int).drop_first() =~= names.skip(i + 1));
        }
        // Linear scan: has this node been seen already?
        let mut seen: bool = false;
        let mut j: usize = 0;
        let m: usize = nodes.len();
        while j < m
            invariant
                0 <= j <= m,
                m == nodes.len(),
                !seen ==> forall|k: int| 0 <= k < j ==> nodes.deep_view()[k] != name@,
                seen ==> nodes.deep_view().contains(name@),
            decreases m - j,
        {
            if str_eq(nodes[j].as_str(), name.as_str()) {
                seen = true;
                proof {
                    assert(nodes.deep_view()[j as int] == name@);
                }
                j = m;
            } else {
                j = j + 1;
            }
        }
        if seen {
            proof {
                assert(dedup_from(names.skip(i as int), nodes.deep_view()) == dedup_from(
                    names.skip(i + 1),
                    nodes.deep_view(),
                ));
            }
            i = i + 1;
        } else {
            let ghost pre = nodes.deep_view();
            let ghost name_v = name@;
            proof {
                assert(!pre.contains(name_v));
                assert(dedup_from(names.skip(i as int), pre) == seq![name_v] + dedup_from(
                    names.skip(i + 1),
                    pre.push(name_v),
                ));
            }
            nodes.push(name);
            proof {
                assert(nodes.deep_view() =~= pre.push(name_v));
                assert(pre.push(name_v) =~= pre + seq![name_v]);
                assert(pre + (seq![name_v] + dedup_from(names.skip(i + 1), pre.push(name_v)))
                    =~= (pre + seq![name_v]) + dedup_from(names.skip(i + 1), pre.push(name_v)));
            }
            i = i + 1;
        }
    }
    proof {
        assert(names.skip(n as int) =~= Seq::<Seq<char>>::empty());
        assert(nodes.deep_view() + Seq::<Seq<char>>::empty() =~= nodes.deep_view());
        reveal_strlit(",");
        assert(","@ =~= seq![',']);
    }
    join_strs(&nodes, ",")
}

} // verus!
