//! The two per-job parsers.
//!
//! The current-jobs lister prints one block per job: the bare job ID on the
//! first line, then `key = value` lines. The historical log prints one job
//! per line: three positional fields, then a `key=value; key=value...` tail.
//! Both parsers produce a [`FieldMap`] with the unit conversions and the
//! three efficiency figures already applied.

use vstd::prelude::*;

use crate::dates::{date_to_unix_timestamp, pbs_date_epoch};
use crate::fields::FieldMap;
use crate::text::{
    all_digits, dec_str_of, dec_val, join_strs, occurs_at, parse_u64, spec_join, spec_split,
    spec_trim_start, split_str, str_eq, starts_with, trim_start, u64_to_string,
};
use crate::units::{
    condense_exec_host, convert_mem_to_gb, cpu_efficiency, mem_efficiency, spec_condensed_nodes,
    spec_hms_seconds, spec_mem_units, walltime_to_percentage, GB_UNITS,
};

verus! {

/// A record that could not be parsed; the reason is diagnostic text for the
/// operator's log, as the contracts pin down exactly when parsing fails.
#[derive(Debug)]
pub struct ParseError {
    pub reason: String,
}

/// The lines of `s`, as `str::lines` yields them for LF-separated text:
/// split on `\n`, with one trailing empty piece dropped.
pub open spec fn spec_lines(s: Seq<char>) -> Seq<Seq<char>> {
    let ps = spec_split(s, seq!['\n']);
    if ps.last().len() == 0 {
        ps.drop_last()
    } else {
        ps
    }
}

/// Splits LF-separated text into lines, dropping one trailing empty piece.
pub fn lines_of(s: &str) -> (r: Vec<String>)
    ensures
        r.deep_view() == spec_lines(s@),
{
    proof {
        reveal_strlit("\n");
        assert("\n"@ =~= seq!['\n']);
    }
    let mut parts = split_str(s, "\n");
    let last_empty: bool = parts[parts.len() - 1].as_str().unicode_len() == 0;
    if last_empty {
        let ghost pre = parts.deep_view();
        parts.pop();
        proof {
            assert(parts.deep_view() =~= pre.drop_last());
        }
    }
    parts
}

/// One `key = value` line of a current-jobs block, applied to the record
/// built so far. A line reporting node status is ignored; a `stime` value
/// must parse as a date and becomes `start_time` in epoch seconds; a
/// `Job_Owner` of the form `user@host` is cut back to `user`.
pub open spec fn jobstat_line(m: Map<Seq<char>, Seq<char>>, line: Seq<char>) -> Option<
    Map<Seq<char>, Seq<char>>,
> {
    if occurs_at(line, "nodes: "@, 0) {
        Some(m)
    } else {
        let parts = spec_split(spec_trim_start(line), " = "@);
        if parts.len() < 2 {
            None
        } else {
            let name = parts[0];
            let value = parts[1];
            if name == "stime"@ {
                match pbs_date_epoch(value) {
                    Some(ts) => if 0 <= ts <= u32::MAX {
                        Some(m.insert("start_time"@, dec_str_of(ts as nat)))
                    } else {
                        None
                    },
                    None => None,
                }
            } else if name == "Job_Owner"@ {
                Some(m.insert(name, spec_split(value, "@"@)[0]))
            } else {
                Some(m.insert(name, value))
            }
        }
    }
}

/// The `key = value` lines of a block, folded in order.
pub open spec fn jobstat_fold(m: Map<Seq<char>, Seq<char>>, lines: Seq<Seq<char>>) -> Option<
    Map<Seq<char>, Seq<char>>,
>
    decreases lines.len(),
{
    if lines.len() == 0 {
        Some(m)
    } else {
        match jobstat_line(m, lines[0]) {
            Some(m2) => jobstat_fold(m2, lines.drop_first()),
            None => None,
        }
    }
}

/// The raw field map of a current-jobs block: the first line is the bare job
/// ID, the rest are `key = value` lines.
pub open spec fn jobstat_base(s: Seq<char>) -> Option<Map<Seq<char>, Seq<char>>> {
    let lines = spec_lines(s);
    if lines.len() == 0 {
        None
    } else {
        jobstat_fold(Map::empty().insert("job_id"@, lines[0]), lines.drop_first())
    }
}

/// A job still in the queue has no usage figures yet: fabricate zeroed
/// placeholders and the sentinel start time rather than failing.
pub open spec fn queued_placeholders(m: Map<Seq<char>, Seq<char>>) -> Map<Seq<char>, Seq<char>> {
    if m["job_state"@] == "Q"@ {
        m.insert("resources_used.mem"@, "0"@).insert("resources_used.walltime"@, "00:00:00"@)
            .insert("resources_used.cpupercent"@, "0"@).insert("start_time"@, "2147483647"@)
            .insert("Nodes"@, "None"@)
    } else {
        m
    }
}

/// A memory string reduced to whole gigabytes, rendered in decimal.
pub open spec fn floored_gb_str(v: Seq<char>) -> Option<Seq<char>> {
    match spec_mem_units(v) {
        Some(u) => if u <= u64::MAX {
            Some(dec_str_of(u / (GB_UNITS as nat)))
        } else {
            None
        },
        None => None,
    }
}

/// Replaces the used-memory field by its whole-gigabyte value, when present.
pub open spec fn with_floored_used_mem(m: Map<Seq<char>, Seq<char>>) -> Option<
    Map<Seq<char>, Seq<char>>,
> {
    if m.contains_key("resources_used.mem"@) {
        match floored_gb_str(m["resources_used.mem"@]) {
            Some(v) => Some(m.insert("resources_used.mem"@, v)),
            None => None,
        }
    } else {
        Some(m)
    }
}

/// Trims a trailing `gb` suffix off the reserved-memory field, when present.
pub open spec fn with_trimmed_req_mem(m: Map<Seq<char>, Seq<char>>) -> Map<Seq<char>, Seq<char>> {
    if m.contains_key("Resource_List.mem"@) {
        m.insert("Resource_List.mem"@, spec_split(m["Resource_List.mem"@], "gb"@)[0])
    } else {
        m
    }
}

/// Memory efficiency in hundredths of a percent, from two memory strings.
pub open spec fn eff_from_mem(used: Seq<char>, rsv: Seq<char>) -> Option<nat> {
    match (spec_mem_units(used), spec_mem_units(rsv)) {
        (Some(u), Some(w)) => if u <= u64::MAX && 0 < w <= u64::MAX && centi_ratio(u, w)
            <= u64::MAX {
            Some(centi_ratio(u, w))
        } else {
            None
        },
        _ => None,
    }
}

/// `u * 10000 / w`, truncated: a ratio in hundredths of a percent.
pub open spec fn centi_ratio(u: nat, w: nat) -> nat {
    (((u * 10000) as int) / (w as int)) as nat
}

/// Walltime efficiency in hundredths of a percent, from two `HH:MM:SS`
/// strings.
pub open spec fn eff_from_walltime(rsv: Seq<char>, used: Seq<char>) -> Option<nat> {
    match (spec_hms_seconds(rsv), spec_hms_seconds(used)) {
        (Some(w), Some(u)) => if 0 < w <= u64::MAX && u <= u64::MAX && centi_ratio(u, w)
            <= u64::MAX {
            Some(centi_ratio(u, w))
        } else {
            None
        },
        _ => None,
    }
}

/// `u * 100 / n`, truncated: the per-core share of an aggregate percentage,
/// in hundredths of a percent.
pub open spec fn cpu_ratio(u: nat, n: nat) -> nat {
    (((u * 100) as int) / (n as int)) as nat
}

/// CPU efficiency in hundredths of a percent: the aggregate CPU percentage
/// divided by the reserved CPU count. Both fields must be plain integers.
pub open spec fn eff_from_cpu(usedpct: Seq<char>, ncpus: Seq<char>) -> Option<nat> {
    if usedpct.len() > 0 && all_digits(usedpct) && dec_val(usedpct) <= u64::MAX && ncpus.len() > 0
        && all_digits(ncpus) && dec_val(ncpus) <= u64::MAX && dec_val(ncpus) > 0 && cpu_ratio(
        dec_val(usedpct),
        dec_val(ncpus),
    ) <= u64::MAX {
        Some(cpu_ratio(dec_val(usedpct), dec_val(ncpus)))
    } else {
        None
    }
}

/// The finished record of one current-jobs block: the raw fields, queued
/// placeholders, memory normalisation, and the three efficiency figures.
pub open spec fn spec_jobstat_record(s: Seq<char>) -> Option<Map<Seq<char>, Seq<char>>> {
    match jobstat_base(s) {
        None => None,
        Some(m0) => if !m0.contains_key("job_state"@) {
            None
        } else {
            jobstat_finish(queued_placeholders(m0))
        },
    }
}

/// Applies one `key = value` line of a current-jobs block to the record.
fn apply_jobstat_line(m: &mut FieldMap, line: &str) -> (r: Result<(), ParseError>)
    ensures
        match r {
            Ok(_) => jobstat_line(old(m)@, line@) == Some(final (m)@),
            Err(_) => jobstat_line(old(m)@, line@) is None,
        },
{
    if starts_with(line, "nodes: ") {
        return Ok(());
    }
    proof {
        reveal_strlit(" = ");
    }
    let trimmed = trim_start(line);
    let parts = split_str(trimmed.as_str(), " = ");
    if parts.len() < 2 {
        return Err(ParseError { reason: "a field line needs a name and a value".to_owned() });
    }
    let name: &str = parts[0].as_str();
    let value: &str = parts[1].as_str();
    if str_eq(name, "stime") {
        match date_to_unix_timestamp(value) {
            Ok(ts) => {
                m.insert("start_time", u64_to_string(ts as u64));
                Ok(())
            },
            Err(reason) => Err(ParseError { reason }),
        }
    } else if str_eq(name, "Job_Owner") {
        proof {
            reveal_strlit("@");
        }
        let owner_parts = split_str(value, "@");
        let owner: String = owner_parts[0].clone();
        m.insert("Job_Owner", owner);
        Ok(())
    } else {
        m.insert(name, parts[1].clone());
        Ok(())
    }
}

/// Parses one current-jobs block into a finished record.
///
/// The first line holds the bare job ID; the rest are `key = value` lines.
/// Queued jobs get zeroed usage placeholders; memory fields are normalised;
/// the three efficiency figures are derived and inserted.
pub fn jobstat_job_str_to_btree(job: &str) -> (r: Result<FieldMap, ParseError>)
    ensures
        match r {
            Ok(m) => spec_jobstat_record(job@) == Some(m@),
            Err(_) => spec_jobstat_record(job@) is None,
        },
{
    let lines = lines_of(job);
    if lines.len() == 0 {
        return Err(ParseError { reason: "an empty job block".to_owned() });
    }
    let mut m = FieldMap::new();
    m.insert("job_id", lines[0].clone());
    let n: usize = lines.len();
    let mut i: usize = 1;
    proof {
        assert(lines.deep_view().skip(1) =~= lines.deep_view().drop_first());
    }
    while i < n
        invariant
            1 <= i <= n,
            n == lines.deep_view().len(),
            n == lines@.len(),
            jobstat_fold(m@, lines.deep_view().skip(i as int)) == jobstat_base(job@),
        decreases n - i,
    {
        let ghost pre = m@;
        let ghost rest = lines.deep_view().skip(i as int);
        proof {
            assert(rest[0] == lines.deep_view()[i as int]);
            assert(rest.drop_first() =~= lines.deep_view().skip(i + 1));
        }
        match apply_jobstat_line(&mut m, lines[i].as_str()) {
            Ok(_) => {},
            Err(e) => {
                return Err(e);
            },
        }
        i = i + 1;
    }
    proof {
        assert(lines.deep_view().skip(n as int) =~= Seq::<Seq<char>>::empty());
    }
    // The job state decides whether usage placeholders are needed.
    let is_queued: bool = match m.get("job_state") {
        Some(state) => str_eq(state.as_str(), "Q"),
        None => {
            return Err(ParseError { reason: "the job state field is missing".to_owned() });
        },
    };
    let ghost m_base = m@;
    if is_queued {
        m.insert("resources_used.mem", "0".to_owned());
        m.insert("resources_used.walltime", "00:00:00".to_owned());
        m.insert("resources_used.cpupercent", "0".to_owned());
        m.insert("start_time", "2147483647".to_owned());
        m.insert("Nodes", "None".to_owned());
    }
    proof {
        assert(m@ == queued_placeholders(m_base));
    }
    finish_record_jobstat(m)
}

/// The memory, walltime and CPU derivations shared by the tail of the
/// current-jobs parser: floors the used memory, trims the reserved memory,
/// and inserts the three efficiency figures.
fn finish_record_jobstat(m: FieldMap) -> (r: Result<FieldMap, ParseError>)
    ensures
        match r {
            Ok(out) => jobstat_finish(m@) == Some(out@),
            Err(_) => jobstat_finish(m@) is None,
        },
{
    let mut m = m;
    // Floor the used memory to whole gigabytes.
    let used_mem = match m.get("resources_used.mem") {
        Some(v) => Some(convert_mem_to_gb(v.as_str())),
        None => None,
    };
    match used_mem {
        Some(Ok(g)) => {
            m.insert("resources_used.mem", u64_to_string(g.units / GB_UNITS));
        },
        Some(Err(_)) => {
            return Err(ParseError { reason: "the used memory field is malformed".to_owned() });
        },
        None => {},
    }
    // Trim a trailing `gb` off the reserved memory.
    proof {
        reveal_strlit("gb");
    }
    let req_trimmed: Option<String> = match m.get("Resource_List.mem") {
        Some(v) => Some(split_str(v.as_str(), "gb")[0].clone()),
        None => None,
    };
    match req_trimmed {
        Some(v) => {
            m.insert("Resource_List.mem", v);
        },
        None => {},
    }
    // Memory efficiency, with a zero default for the used side.
    let used_g = match m.get("resources_used.mem") {
        Some(v) => convert_mem_to_gb(v.as_str()),
        None => convert_mem_to_gb("0"),
    };
    let rsv_g = match m.get("Resource_List.mem") {
        Some(v) => convert_mem_to_gb(v.as_str()),
        None => {
            return Err(ParseError { reason: "the reserved memory field is missing".to_owned() });
        },
    };
    match (used_g, rsv_g) {
        (Ok(u), Ok(w)) => match mem_efficiency(u, w) {
            Ok(v) => {
                m.insert("mem_efficiency", u64_to_string(v));
            },
            Err(_) => {
                return Err(
                    ParseError { reason: "no memory efficiency for this record".to_owned() },
                );
            },
        },
        _ => {
            return Err(ParseError { reason: "a memory field is malformed".to_owned() });
        },
    }
    // Walltime efficiency, with one-second defaults.
    let rsv_w: String = match m.get("Resource_List.walltime") {
        Some(v) => v.clone(),
        None => "00:00:01".to_owned(),
    };
    let used_w: String = match m.get("resources_used.walltime") {
        Some(v) => v.clone(),
        None => "00:00:01".to_owned(),
    };
    match walltime_to_percentage(rsv_w.as_str(), used_w.as_str()) {
        Ok(v) => {
            m.insert("walltime_efficiency", u64_to_string(v));
        },
        Err(_) => {
            return Err(ParseError { reason: "no walltime efficiency for this record".to_owned() });
        },
    }
    // CPU efficiency from the aggregate percentage and the CPU count.
    let used_pct = match m.get("resources_used.cpupercent") {
        Some(v) => parse_u64(v.as_str()),
        None => {
            return Err(ParseError { reason: "the CPU percent field is missing".to_owned() });
        },
    };
    let ncpus = match m.get("Resource_List.ncpus") {
        Some(v) => parse_u64(v.as_str()),
        None => {
            return Err(ParseError { reason: "the CPU count field is missing".to_owned() });
        },
    };
    match (used_pct, ncpus) {
        (Some(u), Some(c)) => match cpu_efficiency(u, c) {
            Ok(v) => {
                m.insert("cpu_efficiency", u64_to_string(v));
                Ok(m)
            },
            Err(_) => Err(ParseError { reason: "no CPU efficiency for this record".to_owned() }),
        },
        _ => Err(ParseError { reason: "a CPU field is malformed".to_owned() }),
    }
}

/// The derivation tail shared with [`spec_jobstat_record`]: what
/// [`finish_record_jobstat`] makes of a raw map.
pub open spec fn jobstat_finish(m1: Map<Seq<char>, Seq<char>>) -> Option<
    Map<Seq<char>, Seq<char>>,
> {
    match with_floored_used_mem(m1) {
        None => None,
        Some(m2) => {
            let m3 = with_trimmed_req_mem(m2);
            let used = if m3.contains_key("resources_used.mem"@) {
                m3["resources_used.mem"@]
            } else {
                "0"@
            };
            if !m3.contains_key("Resource_List.mem"@) {
                None
            } else {
                match eff_from_mem(used, m3["Resource_List.mem"@]) {
                    None => None,
                    Some(me) => {
                        let m4 = m3.insert("mem_efficiency"@, dec_str_of(me));
                        let rsv_w = if m4.contains_key("Resource_List.walltime"@) {
                            m4["Resource_List.walltime"@]
                        } else {
                            "00:00:01"@
                        };
                        let used_w = if m4.contains_key("resources_used.walltime"@) {
                            m4["resources_used.walltime"@]
                        } else {
                            "00:00:01"@
                        };
                        match eff_from_walltime(rsv_w, used_w) {
                            None => None,
                            Some(we) => {
                                let m5 = m4.insert("walltime_efficiency"@, dec_str_of(we));
                                if !m5.contains_key("resources_used.cpupercent"@)
                                    || !m5.contains_key("Resource_List.ncpus"@) {
                                    None
                                } else {
                                    match eff_from_cpu(
                                        m5["resources_used.cpupercent"@],
                                        m5["Resource_List.ncpus"@],
                                    ) {
                                        None => None,
                                        Some(ce) => Some(
                                            m5.insert("cpu_efficiency"@, dec_str_of(ce)),
                                        ),
                                    }
                                }
                            },
                        }
                    },
                }
            }
        },
    }
}

/// One `key=value` field of a historical-log line, applied to the record.
/// The positional names `start`, `user` and `jobname` are renamed to the
/// store's canonical field names; the value is everything after the first
/// `=`, rejoined if it contained more.
pub open spec fn jmanl_field(m: Map<Seq<char>, Seq<char>>, field: Seq<char>) -> Map<
    Seq<char>,
    Seq<char>,
> {
    let parts = spec_split(spec_trim_start(field), "="@);
    let name = parts[0];
    let value = spec_join(parts.drop_first(), "="@);
    if name == "start"@ {
        m.insert("start_time"@, value)
    } else if name == "user"@ {
        m.insert("Job_Owner"@, value)
    } else if name == "jobname"@ {
        m.insert("Job_Name"@, value)
    } else {
        m.insert(name, value)
    }
}

/// The whitespace-separated fields of a historical-log tail, folded in order.
pub open spec fn jmanl_fold(m: Map<Seq<char>, Seq<char>>, fields: Seq<Seq<char>>) -> Map<
    Seq<char>,
    Seq<char>,
>
    decreases fields.len(),
{
    if fields.len() == 0 {
        m
    } else {
        jmanl_fold(jmanl_field(m, fields[0]), fields.drop_first())
    }
}

/// The raw field map of one historical-log line: the second positional field
/// is the job state, the third the dotted job ID (cut at the first dot), and
/// the tail contributes one field per `key=value` word.
pub open spec fn jmanl_base(prelim: Seq<Seq<char>>, job: Seq<char>) -> Option<
    Map<Seq<char>, Seq<char>>,
> {
    if prelim.len() < 3 {
        None
    } else {
        let m = Map::empty().insert("job_state"@, prelim[1]).insert(
            "job_id"@,
            spec_split(prelim[2], "."@)[0],
        );
        Some(jmanl_fold(m, crate::text::spec_split_ws(job)))
    }
}

/// The derivation tail of the historical parser: memory normalisation, the
/// condensed node list, the end timestamp, and the efficiency figures. The
/// used and reserved memory, the end time, both walltimes and both CPU
/// fields are required here: the log reports finished jobs.
pub open spec fn jmanl_finish(m1: Map<Seq<char>, Seq<char>>) -> Option<Map<Seq<char>, Seq<char>>> {
    match with_floored_used_mem(m1) {
        None => None,
        Some(m2) => {
            let m3 = with_trimmed_req_mem(m2);
            if !m3.contains_key("resources_used.mem"@) || !m3.contains_key("Resource_List.mem"@) {
                None
            } else {
                match eff_from_mem(m3["resources_used.mem"@], m3["Resource_List.mem"@]) {
                    None => None,
                    Some(me) => {
                        let m4 = m3.insert("mem_efficiency"@, dec_str_of(me));
                        let m5 = if m4.contains_key("exec_host"@) {
                            m4.insert("Nodes"@, spec_condensed_nodes(m4["exec_host"@]))
                        } else {
                            m4
                        };
                        if !m5.contains_key("end"@) || !(m5["end"@].len() > 0 && all_digits(
                            m5["end"@],
                        ) && dec_val(m5["end"@]) <= u64::MAX) {
                            None
                        } else {
                            let m6 = m5.insert("end_time"@, dec_str_of(dec_val(m5["end"@])));
                            if !m6.contains_key("Resource_List.walltime"@) || !m6.contains_key(
                                "resources_used.walltime"@,
                            ) {
                                None
                            } else {
                                match eff_from_walltime(
                                    m6["Resource_List.walltime"@],
                                    m6["resources_used.walltime"@],
                                ) {
                                    None => None,
                                    Some(we) => {
                                        let m7 = m6.insert(
                                            "walltime_efficiency"@,
                                            dec_str_of(we),
                                        );
                                        if !m7.contains_key("resources_used.cpupercent"@)
                                            || !m7.contains_key("Resource_List.ncpus"@) {
                                            None
                                        } else {
                                            match eff_from_cpu(
                                                m7["resources_used.cpupercent"@],
                                                m7["Resource_List.ncpus"@],
                                            ) {
                                                None => None,
                                                Some(ce) => Some(
                                                    m7.insert(
                                                        "cpu_efficiency"@,
                                                        dec_str_of(ce),
                                                    ),
                                                ),
                                            }
                                        }
                                    },
                                }
                            }
                        }
                    },
                }
            }
        },
    }
}

/// The finished record of one historical-log line.
pub open spec fn spec_jmanl_record(prelim: Seq<Seq<char>>, job: Seq<char>) -> Option<
    Map<Seq<char>, Seq<char>>,
> {
    match jmanl_base(prelim, job) {
        None => None,
        Some(m) => jmanl_finish(m),
    }
}

/// Applies one `key=value` field of a historical-log line to the record.
fn apply_jmanl_field(m: &mut FieldMap, field: &str)
    ensures
        final (m)@ == jmanl_field(old(m)@, field@),
{
    proof {
        reveal_strlit("=");
    }
    let trimmed = trim_start(field);
    let parts = split_str(trimmed.as_str(), "=");
    let name: &str = parts[0].as_str();
    // Rejoin everything after the first `=`.
    let mut rest: Vec<String> = Vec::new();
    let mut k: usize = 1;
    let pn: usize = parts.len();
    proof {
        assert(rest.deep_view() =~= parts.deep_view().drop_first().take(0));
    }
    while k < pn
        invariant
            1 <= k <= pn,
            pn == parts@.len(),
            pn == parts.deep_view().len(),
            rest.deep_view() =~= parts.deep_view().drop_first().take(k - 1),
        decreases pn - k,
    {
        let ghost pre = rest.deep_view();
        rest.push(parts[k].clone());
        proof {
            assert(rest.deep_view() =~= pre.push(parts.deep_view()[k as int]));
            assert(pre.push(parts.deep_view()[k as int]) =~= parts.deep_view().drop_first().take(
                k as int,
            ));
        }
        k = k + 1;
    }
    proof {
        assert(parts.deep_view().drop_first().take(pn - 1) =~= parts.deep_view().drop_first());
    }
    let value = join_strs(&rest, "=");
    if str_eq(name, "start") {
        m.insert("start_time", value);
    } else if str_eq(name, "user") {
        m.insert("Job_Owner", value);
    } else if str_eq(name, "jobname") {
        m.insert("Job_Name", value);
    } else {
        m.insert(name, value);
    }
}

/// Parses one historical-log line into a finished record. `prelim` holds the
/// line's three positional fields; `job` is the `key=value; ...` tail with
/// the semicolons replaced by whitespace splitting.
pub fn jmanl_job_str_to_btree(prelim: Vec<String>, job: &str) -> (r: Result<FieldMap, ParseError>)
    ensures
        match r {
            Ok(m) => spec_jmanl_record(prelim.deep_view(), job@) == Some(m@),
            Err(_) => spec_jmanl_record(prelim.deep_view(), job@) is None,
        },
{
    if prelim.len() < 3 {
        return Err(ParseError { reason: "a log line needs three positional fields".to_owned() });
    }
    let mut m = FieldMap::new();
    m.insert("job_state", prelim[1].clone());
    proof {
        reveal_strlit(".");
        assert("."@ =~= seq!['.']);
    }
    let id_parts = split_str(prelim[2].as_str(), ".");
    m.insert("job_id", id_parts[0].clone());
    let fields = crate::text::split_ws(job);
    let n: usize = fields.len();
    let mut i: usize = 0;
    proof {
        assert(fields.deep_view().skip(0) =~= fields.deep_view());
    }
    while i < n
        invariant
            0 <= i <= n,
            n == fields@.len(),
            n == fields.deep_view().len(),
            jmanl_fold(m@, fields.deep_view().skip(i as int)) == jmanl_base(
                prelim.deep_view(),
                job@,
            )->Some_0,
            jmanl_base(prelim.deep_view(), job@) is Some,
        decreases n - i,
    {
        proof {
            assert(fields.deep_view().skip(i as int)[0] == fields.deep_view()[i as int]);
            assert(fields.deep_view().skip(i as int).drop_first() =~= fields.deep_view().skip(
                i + 1,
            ));
        }
        apply_jmanl_field(&mut m, fields[i].as_str());
        i = i + 1;
    }
    proof {
        assert(fields.deep_view().skip(n as int) =~= Seq::<Seq<char>>::empty());
    }
    finish_record_jmanl(m)
}

/// The memory, node, end-time and efficiency derivations of the historical
/// parser.
fn finish_record_jmanl(m: FieldMap) -> (r: Result<FieldMap, ParseError>)
    ensures
        match r {
            Ok(out) => jmanl_finish(m@) == Some(out@),
            Err(_) => jmanl_finish(m@) is None,
        },
{
    let mut m = m;
    // Floor the used memory to whole gigabytes.
    let used_mem = match m.get("resources_used.mem") {
        Some(v) => Some(convert_mem_to_gb(v.as_str())),
        None => None,
    };
    match used_mem {
        Some(Ok(g)) => {
            m.insert("resources_used.mem", u64_to_string(g.units / GB_UNITS));
        },
        Some(Err(_)) => {
            return Err(ParseError { reason: "the used memory field is malformed".to_owned() });
        },
        None => {},
    }
    // Trim a trailing `gb` off the reserved memory.
    proof {
        reveal_strlit("gb");
    }
    let req_trimmed: Option<String> = match m.get("Resource_List.mem") {
        Some(v) => Some(split_str(v.as_str(), "gb")[0].clone()),
        None => None,
    };
    match req_trimmed {
        Some(v) => {
            m.insert("Resource_List.mem", v);
        },
        None => {},
    }
    // Memory efficiency; both sides are required for a finished job.
    let used_g = match m.get("resources_used.mem") {
        Some(v) => convert_mem_to_gb(v.as_str()),
        None => {
            return Err(ParseError { reason: "the used memory field is missing".to_owned() });
        },
    };
    let rsv_g = match m.get("Resource_List.mem") {
        Some(v) => convert_mem_to_gb(v.as_str()),
        None => {
            return Err(ParseError { reason: "the reserved memory field is missing".to_owned() });
        },
    };
    match (used_g, rsv_g) {
        (Ok(u), Ok(w)) => match mem_efficiency(u, w) {
            Ok(v) => {
                m.insert("mem_efficiency", u64_to_string(v));
            },
            Err(_) => {
                return Err(
                    ParseError { reason: "no memory efficiency for this record".to_owned() },
                );
            },
        },
        _ => {
            return Err(ParseError { reason: "a memory field is malformed".to_owned() });
        },
    }
    // Reduce the exec_host list to distinct node names.
    let nodes: Option<String> = match m.get("exec_host") {
        Some(v) => Some(condense_exec_host(v.as_str())),
        None => None,
    };
    match nodes {
        Some(v) => {
            m.insert("Nodes", v);
        },
        None => {},
    }
    // The end timestamp, normalised to a plain decimal.
    let end_val = match m.get("end") {
        Some(v) => parse_u64(v.as_str()),
        None => {
            return Err(ParseError { reason: "the end time field is missing".to_owned() });
        },
    };
    match end_val {
        Some(t) => {
            m.insert("end_time", u64_to_string(t));
        },
        None => {
            return Err(ParseError { reason: "the end time field is malformed".to_owned() });
        },
    }
    // Walltime efficiency; both walltimes are required.
    let rsv_w: String = match m.get("Resource_List.walltime") {
        Some(v) => v.clone(),
        None => {
            return Err(ParseError { reason: "the reserved walltime is missing".to_owned() });
        },
    };
    let used_w: String = match m.get("resources_used.walltime") {
        Some(v) => v.clone(),
        None => {
            return Err(ParseError { reason: "the used walltime is missing".to_owned() });
        },
    };
    match walltime_to_percentage(rsv_w.as_str(), used_w.as_str()) {
        Ok(v) => {
            m.insert("walltime_efficiency", u64_to_string(v));
        },
        Err(_) => {
            return Err(ParseError { reason: "no walltime efficiency for this record".to_owned() });
        },
    }
    // CPU efficiency from the aggregate percentage and the CPU count.
    let used_pct = match m.get("resources_used.cpupercent") {
        Some(v) => parse_u64(v.as_str()),
        None => {
            return Err(ParseError { reason: "the CPU percent field is missing".to_owned() });
        },
    };
    let ncpus = match m.get("Resource_List.ncpus") {
        Some(v) => parse_u64(v.as_str()),
        None => {
            return Err(ParseError { reason: "the CPU count field is missing".to_owned() });
        },
    };
    match (used_pct, ncpus) {
        (Some(u), Some(c)) => match cpu_efficiency(u, c) {
            Ok(v) => {
                m.insert("cpu_efficiency", u64_to_string(v));
                Ok(m)
            },
            Err(_) => Err(ParseError { reason: "no CPU efficiency for this record".to_owned() }),
        },
        _ => Err(ParseError { reason: "a CPU field is malformed".to_owned() }),
    }
}

} // verus!
