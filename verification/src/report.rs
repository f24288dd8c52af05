//! Read-side helpers for the reporting layer: totals over query results,
//! number and name formatting, and error-chain rendering for the log.

use vstd::prelude::*;

use crate::fields::FieldMap;
use crate::records::ParseError;
use crate::store::{rows_v, JobRow, JobRowV};
use crate::text::{
    all_digits, dec_str_of, dec_val, parse_decimal, parse_u64, spec_decimal, spec_split, split_str,
    u64_to_string, DecError,
};

verus! {

/// How many rows finished with a zero exit status.
pub open spec fn count_successful(s: Seq<JobRowV>) -> nat
    decreases s.len(),
{
    if s.len() == 0 {
        0
    } else {
        (if s[0].exit_status == "0"@ {
            1nat
        } else {
            0nat
        }) + count_successful(s.drop_first())
    }
}

/// No more rows succeed than there are.
proof fn lemma_count_successful_le(s: Seq<JobRowV>)
    ensures
        count_successful(s) <= s.len(),
    decreases s.len(),
{
    if s.len() > 0 {
        lemma_count_successful_le(s.drop_first());
    }
}

/// One `HH:MM:SS`-ish field of a CPU-time sum: a plain digit field counts
/// its value, anything else counts zero.
pub open spec fn time_field_val(p: Seq<char>) -> nat {
    if p.len() > 0 && all_digits(p) && dec_val(p) <= i32::MAX {
        dec_val(p)
    } else {
        0
    }
}

/// The raw hour, minute and second sums of the rows' CPU times. A time with
/// fewer than two fields contributes only hours; with fewer than three, no
/// seconds — exactly as the fields are missing.
pub open spec fn cpu_time_sums(s: Seq<JobRowV>) -> (nat, nat, nat)
    decreases s.len(),
{
    if s.len() == 0 {
        (0, 0, 0)
    } else {
        let (h, m, sec) = cpu_time_sums(s.drop_first());
        let parts = spec_split(s[0].used_cpu_time, seq![':']);
        let dh = time_field_val(parts[0]);
        let dm = if parts.len() >= 2 {
            time_field_val(parts[1])
        } else {
            0
        };
        let ds = if parts.len() >= 3 {
            time_field_val(parts[2])
        } else {
            0
        };
        ((h + dh) as nat, (m + dm) as nat, (sec + ds) as nat)
    }
}

/// Each sum is bounded by the row count times the field cap.
proof fn lemma_cpu_time_sums_bound(s: Seq<JobRowV>)
    ensures
        cpu_time_sums(s).0 <= s.len() * (i32::MAX as nat),
        cpu_time_sums(s).1 <= s.len() * (i32::MAX as nat),
        cpu_time_sums(s).2 <= s.len() * (i32::MAX as nat),
    decreases s.len(),
{
    if s.len() > 0 {
        lemma_cpu_time_sums_bound(s.drop_first());
        assert((s.len() - 1) * (i32::MAX as nat) + (i32::MAX as nat) == s.len() * (
        i32::MAX as nat)) by (nonlinear_arith);
    }
}

/// A number padded to at least two digits, as the clock-style totals print.
pub open spec fn pad2(n: nat) -> Seq<char> {
    if n < 10 {
        seq!['0'] + dec_str_of(n)
    } else {
        dec_str_of(n)
    }
}

/// The `DD:HH:MM:SS` text of the normalised sums.
pub open spec fn spec_total_cpu_time(s: Seq<JobRowV>) -> Seq<char> {
    let (h, m, sec) = cpu_time_sums(s);
    let m2 = m + sec / 60;
    let s2 = sec % 60;
    let h2 = h + m2 / 60;
    let m3 = m2 % 60;
    let d = h2 / 24;
    let h3 = h2 % 24;
    pad2(d) + seq![':'] + pad2(h3) + seq![':'] + pad2(m3) + seq![':'] + pad2(s2)
}

/// Pads a number to at least two digits.
fn pad2_exec(n: u64) -> (r: String)
    ensures
        r@ == pad2(n as nat),
{
    if n < 10 {
        let mut out = "0".to_owned();
        proof {
            reveal_strlit("0");
            assert("0"@ =~= seq!['0']);
        }
        out.append(u64_to_string(n).as_str());
        out
    } else {
        u64_to_string(n)
    }
}

/// Helpers consumed by the page templates when a table of query results is
/// rendered.
pub struct Toolkit;

impl Toolkit {
    /// How many of the rows finished with a zero exit status.
    pub fn total_successful_jobs(&self, jobs: &Vec<JobRow>) -> (r: usize)
        ensures
            r == count_successful(rows_v(jobs@)),
    {
        let ghost all = rows_v(jobs@);
        let n: usize = jobs.len();
        let mut count: usize = 0;
        let mut i: usize = 0;
        proof {
            assert(all.skip(0) =~= all);
            lemma_count_successful_le(all);
        }
        while i < n
            invariant
                0 <= i <= n,
                n == jobs@.len(),
                all == rows_v(jobs@),
                count + count_successful(all.skip(i as int)) == count_successful(all),
                count_successful(all) <= n,
            decreases n - i,
        {
            proof {
                assert(all.skip(i as int)[0] == all[i as int]);
                assert(all.skip(i as int).drop_first() =~= all.skip(i + 1));
            }
            if crate::text::str_eq(jobs[i].exit_status.as_str(), "0") {
                count = count + 1;
            }
            i = i + 1;
        }
        proof {
            assert(all.skip(n as int) =~= Seq::<JobRowV>::empty());
        }
        count
    }

    /// The total CPU time of the rows, summed field-wise over their
    /// `HH:MM:SS` CPU times and printed as `DD:HH:MM:SS`. A non-numeric
    /// field counts zero, as does a missing one.
    #[verifier::rlimit(80)]
    pub fn total_cpu_time(&self, jobs: &Vec<JobRow>) -> (r: String)
        requires
            jobs@.len() <= 1_000_000_000,
        ensures
            r@ == spec_total_cpu_time(rows_v(jobs@)),
    {
        let ghost all = rows_v(jobs@);
        let n: usize = jobs.len();
        let mut h: u64 = 0;
        let mut m: u64 = 0;
        let mut s: u64 = 0;
        let mut i: usize = 0;
        proof {
            assert(all.skip(0) =~= all);
            reveal_strlit(":");
            assert(":"@ =~= seq![':']);
        }
        while i < n
            invariant
                0 <= i <= n,
                n == jobs@.len(),
                n <= 1_000_000_000,
                all == rows_v(jobs@),
                ({
                    let (th, tm, ts) = cpu_time_sums(all);
                    let (rh, rm, rs) = cpu_time_sums(all.skip(i as int));
                    &&& h + rh == th
                    &&& m + rm == tm
                    &&& s + rs == ts
                }),
                h <= i * (i32::MAX as int),
                m <= i * (i32::MAX as int),
                s <= i * (i32::MAX as int),
            decreases n - i,
        {
            proof {
                reveal_strlit(":");
                assert(":"@ =~= seq![':']);
                assert(all.skip(i as int)[0] == all[i as int]);
                assert(all.skip(i as int).drop_first() =~= all.skip(i + 1));
                assert(i * (i32::MAX as int) + (i32::MAX as int) == (i + 1) * (i32::MAX as int))
                    by (nonlinear_arith);
                assert((i + 1) * (i32::MAX as int) <= 1_000_000_001 * (i32::MAX as int))
                    by (nonlinear_arith)
                    requires
                        i + 1 <= 1_000_000_001,
                ;
            }
            let parts = split_str(jobs[i].used_cpu_time.as_str(), ":");
            let dh: u64 = Self::time_field(parts[0].as_str());
            h = h + dh;
            if parts.len() >= 2 {
                let dm: u64 = Self::time_field(parts[1].as_str());
                m = m + dm;
                if parts.len() >= 3 {
                    let ds: u64 = Self::time_field(parts[2].as_str());
                    s = s + ds;
                }
            }
            i = i + 1;
        }
        proof {
            assert(all.skip(n as int) =~= Seq::<JobRowV>::empty());
        }
        // Normalise and print.
        let m2: u64 = m + s / 60;
        let s2: u64 = s % 60;
        let h2: u64 = h + m2 / 60;
        let m3: u64 = m2 % 60;
        let d: u64 = h2 / 24;
        let h3: u64 = h2 % 24;
        let mut out = pad2_exec(d);
        out.append(":");
        out.append(pad2_exec(h3).as_str());
        out.append(":");
        out.append(pad2_exec(m3).as_str());
        out.append(":");
        out.append(pad2_exec(s2).as_str());
        out
    }

    /// One field of a CPU time: its value when it is a plain digit field in
    /// range, zero otherwise.
    fn time_field(p: &str) -> (r: u64)
        ensures
            r == time_field_val(p@),
    {
        match parse_u64(p) {
            Some(v) => if v <= i32::MAX as u64 {
                v
            } else {
                0
            },
            None => 0,
        }
    }

    /// Rounds a decimal string up to the next integer.
    pub fn to_i32(&self, num: &String) -> (r: Result<i32, ParseError>)
        ensures
            match r {
                Ok(v) => match spec_decimal(num@) {
                    Some((a, f, d)) => d <= 13 && v == a + (if f > 0 {
                        1int
                    } else {
                        0int
                    }),
                    None => false,
                },
                Err(_) => match spec_decimal(num@) {
                    Some((a, f, d)) => d > 13 || a > u64::MAX || a + (if f > 0 {
                        1int
                    } else {
                        0int
                    }) > i32::MAX,
                    None => true,
                },
            },
    {
        match parse_decimal(num.as_str()) {
            Ok((a, f, d)) => {
                let bump: u64 = if f > 0 {
                    1
                } else {
                    0
                };
                if a > i32::MAX as u64 - bump {
                    Err(ParseError { reason: "a number too large to round".to_owned() })
                } else {
                    Ok((a + bump) as i32)
                }
            },
            Err(DecError::NotDecimal) => Err(
                ParseError { reason: "not a decimal number".to_owned() },
            ),
            Err(DecError::IntTooBig) => Err(
                ParseError { reason: "a number too large to round".to_owned() },
            ),
            Err(DecError::FracTooLong) => Err(
                ParseError { reason: "a fraction too long to read".to_owned() },
            ),
        }
    }

    /// Cuts a long name back to its first characters followed by an
    /// ellipsis when it runs past `len`; a short name is returned whole.
    pub fn shorten(&self, name_field: &String, len: usize) -> (r: String)
        requires
            len >= 4,
        ensures
            r@ == if name_field@.len() > len {
                name_field@.subrange(0, len - 4) + "..."@
            } else {
                name_field@
            },
    {
        let n: usize = name_field.as_str().unicode_len();
        if n > len {
            let mut out: String = name_field.as_str().substring_char(0, len - 4).to_owned();
            out.append("...");
            out
        } else {
            name_field.clone()
        }
    }

    /// Reads one field out of a record, as the templates do.
    pub fn get_field(&self, job: &FieldMap, field: &str) -> (r: Result<String, ParseError>)
        ensures
            match r {
                Ok(v) => job@.contains_key(field@) && v@ == job@[field@],
                Err(_) => !job@.contains_key(field@),
            },
    {
        match job.get(field) {
            Some(v) => Ok(v.clone()),
            None => Err(ParseError { reason: "a field the template needs is missing".to_owned() }),
        }
    }
}

/// The numbered lines of an error chain, one cause per line.
pub open spec fn chain_lines(causes: Seq<Seq<char>>, i: nat) -> Seq<char>
    decreases causes.len(),
{
    if causes.len() == 0 {
        Seq::empty()
    } else {
        "  "@ + dec_str_of(i) + ": "@ + causes[0] + "\n"@ + chain_lines(
            causes.drop_first(),
            i + 1,
        )
    }
}

/// Renders an error and its chain of causes as the log lines the operators
/// read: the message first, then each cause numbered on its own line.
pub fn render_full_error(message: &str, causes: &Vec<String>) -> (r: String)
    requires
        causes@.len() < 1_000_000,
    ensures
        r@ == "Error: "@ + message@ + "\n"@ + "Full error chain:\n"@ + chain_lines(
            causes.deep_view(),
            0,
        ),
{
    let ghost cs = causes.deep_view();
    let mut out: String = "Error: ".to_owned();
    out.append(message);
    out.append("\n");
    out.append("Full error chain:\n");
    let n: usize = causes.len();
    let mut i: usize = 0;
    proof {
        assert(cs.skip(0) =~= cs);
    }
    while i < n
        invariant
            0 <= i <= n,
            n == causes@.len(),
            n < 1_000_000,
            cs == causes.deep_view(),
            out@ + chain_lines(cs.skip(i as int), i as nat) == "Error: "@ + message@ + "\n"@
                + "Full error chain:\n"@ + chain_lines(cs, 0),
        decreases n - i,
    {
        proof {
            assert(cs.skip(i as int)[0] == cs[i as int]);
            assert(cs.skip(i as int).drop_first() =~= cs.skip(i + 1));
        }
        out.append("  ");
        out.append(u64_to_string(i as u64).as_str());
        out.append(": ");
        out.append(causes[i].as_str());
        out.append("\n");
        i = i + 1;
    }
    proof {
        assert(cs.skip(n as int) =~= Seq::<Seq<char>>::empty());
        assert(chain_lines(Seq::<Seq<char>>::empty(), n as nat) =~= Seq::<char>::empty());
        assert(out@ + Seq::<char>::empty() =~= out@);
    }
    out
}

} // verus!