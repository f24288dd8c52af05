//! Whole-output parsing for the two scheduler commands: the cluster-status
//! header and the per-job blocks of the current-jobs lister, and the
//! chunk-count preamble, section marker and per-line records of the
//! historical log.

use vstd::prelude::*;

use crate::fields::FieldMap;
use crate::records::{jobstat_job_str_to_btree, spec_jobstat_record, ParseError};
use crate::text::{
    all_digits, dec_val, is_digit, join_strs, occurs_at, parse_u64, spec_join, spec_split,
    split_str, starts_with,
};

verus! {

/// `s` with every occurrence of `pat` replaced by `rep`.
pub open spec fn spec_replace(s: Seq<char>, pat: Seq<char>, rep: Seq<char>) -> Seq<char> {
    spec_join(spec_split(s, pat), rep)
}

/// Replaces every occurrence of `pat` in `s` by `rep`.
pub fn replace_str(s: &str, pat: &str, rep: &str) -> (r: String)
    requires
        pat@.len() > 0,
    ensures
        r@ == spec_replace(s@, pat@, rep@),
{
    let parts = split_str(s, pat);
    join_strs(&parts, rep)
}

/// The cluster-wide node, CPU and GPU totals that precede the per-job blocks.
#[derive(Clone, Copy, Debug, PartialEq, Eq, Structural)]
pub struct ClusterStatus {
    pub total_nodes: u32,
    pub used_nodes: u32,
    pub total_cpus: u32,
    pub used_cpus: u32,
    pub total_gpus: u32,
    pub used_gpus: u32,
}

/// A counter field of the header: a non-empty digit string within `u32`.
pub open spec fn header_count(v: Seq<char>) -> Option<u32> {
    if v.len() > 0 && all_digits(v) && dec_val(v) <= u32::MAX {
        Some(dec_val(v) as u32)
    } else {
        None
    }
}

/// The header text after `nodes: `, with the fixed labels removed, so that
/// each of its first three lines carries its counters space separated, the
/// in-use count first and the total last.
pub open spec fn spec_header_cleaned(s: Seq<char>) -> Option<Seq<char>> {
    let parts = spec_split(s, "nodes: "@);
    if parts.len() < 2 {
        None
    } else {
        Some(
            spec_replace(
                spec_replace(
                    spec_replace(
                        spec_replace(
                            spec_replace(
                                spec_replace(
                                    spec_replace(
                                        spec_replace(parts[1], "CPU cores: "@, ""@),
                                        "GPU cores: "@,
                                        ""@,
                                    ),
                                    "used + "@,
                                    ""@,
                                ),
                                "unused + "@,
                                ""@,
                            ),
                            "unavailable = "@,
                            ""@,
                        ),
                        " total"@,
                        ""@,
                    ),
                    "status: [R]unning"@,
                    ""@,
                ),
                "[Q]ueued"@,
                ""@,
            ),
        )
    }
}

/// The six counters of the cluster-status header: for nodes, CPU cores and
/// GPU cores in turn, the in-use count (first field of the line) and the
/// total (last field).
pub open spec fn spec_cluster_status(s: Seq<char>) -> Option<ClusterStatus> {
    match spec_header_cleaned(s) {
        None => None,
        Some(cleaned) => {
            let lines = spec_split(cleaned, seq!['\n']);
            if lines.len() < 3 {
                None
            } else {
                let ns = spec_split(lines[0], seq![' ']);
                let cs = spec_split(lines[1], seq![' ']);
                let gs = spec_split(lines[2], seq![' ']);
                match (header_count(ns[0]), header_count(ns[ns.len() - 1])) {
                    (Some(un), Some(tn)) => match (
                        header_count(cs[0]),
                        header_count(cs[cs.len() - 1]),
                    ) {
                        (Some(uc), Some(tc)) => match (
                            header_count(gs[0]),
                            header_count(gs[gs.len() - 1]),
                        ) {
                            (Some(ug), Some(tg)) => Some(
                                ClusterStatus {
                                    total_nodes: tn,
                                    used_nodes: un,
                                    total_cpus: tc,
                                    used_cpus: uc,
                                    total_gpus: tg,
                                    used_gpus: ug,
                                },
                            ),
                            _ => None,
                        },
                        _ => None,
                    },
                    _ => None,
                }
            }
        },
    }
}

/// Parses one header counter field.
fn parse_header_count(v: &str) -> (r: Option<u32>)
    ensures
        r == header_count(v@),
{
    match parse_u64(v) {
        Some(x) => if x <= u32::MAX as u64 {
            Some(x as u32)
        } else {
            None
        },
        None => None,
    }
}

/// Parses the cluster-status header of the current-jobs output: the text
/// after `nodes: `, labels removed, six counters by fixed line and field
/// position. Expects LF line endings.
pub fn parse_cluster_status(s: &str) -> (r: Result<ClusterStatus, ParseError>)
    ensures
        match r {
            Ok(c) => spec_cluster_status(s@) == Some(c),
            Err(_) => spec_cluster_status(s@) is None,
        },
{
    proof {
        reveal_strlit("nodes: ");
        reveal_strlit("\n");
        reveal_strlit(" ");
        assert("\n"@ =~= seq!['\n']);
        assert(" "@ =~= seq![' ']);
        reveal_strlit("CPU cores: ");
        reveal_strlit("GPU cores: ");
        reveal_strlit("used + ");
        reveal_strlit("unused + ");
        reveal_strlit("unavailable = ");
        reveal_strlit(" total");
        reveal_strlit("status: [R]unning");
        reveal_strlit("[Q]ueued");
    }
    let parts = split_str(s, "nodes: ");
    if parts.len() < 2 {
        return Err(ParseError { reason: "no cluster-status header in the output".to_owned() });
    }
    let c1 = replace_str(parts[1].as_str(), "CPU cores: ", "");
    let c2 = replace_str(c1.as_str(), "GPU cores: ", "");
    let c3 = replace_str(c2.as_str(), "used + ", "");
    let c4 = replace_str(c3.as_str(), "unused + ", "");
    let c5 = replace_str(c4.as_str(), "unavailable = ", "");
    let c6 = replace_str(c5.as_str(), " total", "");
    let c7 = replace_str(c6.as_str(), "status: [R]unning", "");
    let cleaned = replace_str(c7.as_str(), "[Q]ueued", "");
    let lines = split_str(cleaned.as_str(), "\n");
    if lines.len() < 3 {
        return Err(ParseError { reason: "the cluster-status header is truncated".to_owned() });
    }
    let ns = split_str(lines[0].as_str(), " ");
    let cs = split_str(lines[1].as_str(), " ");
    let gs = split_str(lines[2].as_str(), " ");
    let un = parse_header_count(ns[0].as_str());
    let tn = parse_header_count(ns[ns.len() - 1].as_str());
    let uc = parse_header_count(cs[0].as_str());
    let tc = parse_header_count(cs[cs.len() - 1].as_str());
    let ug = parse_header_count(gs[0].as_str());
    let tg = parse_header_count(gs[gs.len() - 1].as_str());
    match (un, tn, uc, tc, ug, tg) {
        (Some(un), Some(tn), Some(uc), Some(tc), Some(ug), Some(tg)) => Ok(
            ClusterStatus {
                total_nodes: tn,
                used_nodes: un,
                total_cpus: tc,
                used_cpus: uc,
                total_gpus: tg,
                used_gpus: ug,
            },
        ),
        _ => Err(ParseError { reason: "a cluster-status counter is malformed".to_owned() }),
    }
}

/// The records of the per-job blocks, in order: a block that repeats the
/// node-status header is ignored, and a block that fails to parse is skipped
/// without affecting its siblings.
pub open spec fn blocks_records(bs: Seq<Seq<char>>) -> Seq<Map<Seq<char>, Seq<char>>>
    decreases bs.len(),
{
    if bs.len() == 0 {
        Seq::empty()
    } else if occurs_at(bs[0], "nodes: "@, 0) {
        blocks_records(bs.drop_first())
    } else {
        match spec_jobstat_record(bs[0]) {
            Some(m) => seq![m] + blocks_records(bs.drop_first()),
            None => blocks_records(bs.drop_first()),
        }
    }
}

/// The records of a full current-jobs output: everything after the dashed
/// delimiter line, split into blank-line-separated blocks. Nothing when the
/// delimiter is absent.
pub open spec fn spec_jobstat_records(s: Seq<char>) -> Option<Seq<Map<Seq<char>, Seq<char>>>> {
    let parts = spec_split(s, "--------------------\n"@);
    if parts.len() < 2 {
        None
    } else {
        Some(blocks_records(spec_split(parts[1], "\n\n"@)))
    }
}

/// Parses the per-job blocks of a full current-jobs output. Expects LF line
/// endings. Returns the parsed records and, for the operator's log, one
/// reason per skipped block.
#[verifier::rlimit(40)]
pub fn parse_jobstat_jobs(s: &str) -> (r: Result<(Vec<FieldMap>, Vec<String>), ParseError>)
    ensures
        match r {
            Ok((v, _)) => {
                &&& spec_jobstat_records(s@) is Some
                &&& v@.len() == spec_jobstat_records(s@)->0.len()
                &&& forall|i: int|
                    0 <= i < v@.len() ==> #[trigger] v@[i]@ == spec_jobstat_records(s@)->0[i]
            },
            Err(_) => spec_jobstat_records(s@) is None,
        },
{
    proof {
        reveal_strlit("--------------------\n");
        reveal_strlit("\n\n");
    }
    let parts = split_str(s, "--------------------\n");
    if parts.len() < 2 {
        return Err(ParseError { reason: "no job-list delimiter in the output".to_owned() });
    }
    let blocks = split_str(parts[1].as_str(), "\n\n");
    let ghost bs = spec_split(parts.deep_view()[1], "\n\n"@);
    let n: usize = blocks.len();
    let mut out: Vec<FieldMap> = Vec::new();
    let mut skipped: Vec<String> = Vec::new();
    let mut i: usize = 0;
    proof {
        assert(bs.skip(0) =~= bs);
    }
    while i < n
        invariant
            0 <= i <= n,
            n == blocks@.len(),
            n == blocks.deep_view().len(),
            blocks.deep_view() == bs,
            out@.len() + blocks_records(bs.skip(i as int)).len() == blocks_records(bs).len(),
            forall|k: int| 0 <= k < out@.len() ==> #[trigger] out@[k]@ == blocks_records(bs)[k],
            forall|k: int|
                0 <= k < blocks_records(bs.skip(i as int)).len() ==> #[trigger] blocks_records(
                    bs.skip(i as int),
                )[k] == blocks_records(bs)[out@.len() + k],
        decreases n - i,
    {
        proof {
            assert(bs.skip(i as int)[0] == bs[i as int]);
            assert(bs.skip(i as int).drop_first() =~= bs.skip(i + 1));
        }
        if !starts_with(blocks[i].as_str(), "nodes: ") {
            match jobstat_job_str_to_btree(blocks[i].as_str()) {
                Ok(m) => {
                    let ghost old_len = out@.len();
                    proof {
                        assert(blocks_records(bs.skip(i as int)) =~= seq![m@] + blocks_records(
                            bs.skip(i + 1),
                        ));
                        assert(blocks_records(bs.skip(i as int))[0] == m@);
                        assert(blocks_records(bs)[old_len as int] == m@);
                    }
                    out.push(m);
                    proof {
                        assert(forall|k: int|
                            0 <= k < out@.len() ==> #[trigger] out@[k]@ == blocks_records(bs)[k]);
                        assert(forall|k: int|
                            0 <= k < blocks_records(bs.skip(i + 1)).len()
                                ==> #[trigger] blocks_records(bs.skip(i + 1))[k] == blocks_records(
                                bs.skip(i as int),
                            )[k + 1]);
                    }
                },
                Err(e) => {
                    skipped.push(e.reason);
                },
            }
        }
        i = i + 1;
    }
    proof {
        assert(bs.skip(n as int) =~= Seq::<Seq<char>>::empty());
    }
    Ok((out, skipped))
}

/// A line without one trailing carriage return, so that the chunk scan reads
/// the same lines under either line-ending convention.
pub open spec fn strip_cr(line: Seq<char>) -> Seq<char> {
    if line.len() > 0 && line.last() == '\r' {
        line.drop_last()
    } else {
        line
    }
}

/// The maximal run of digits at the end of `s`.
pub open spec fn digit_suffix(s: Seq<char>) -> Seq<char>
    decreases s.len(),
{
    if s.len() == 0 || !is_digit(s.last()) {
        Seq::empty()
    } else {
        digit_suffix(s.drop_last()).push(s.last())
    }
}

/// The digit suffix is the part after the last non-digit.
proof fn lemma_digit_suffix_at(s: Seq<char>, k: int)
    requires
        0 <= k <= s.len(),
        forall|i: int| k <= i < s.len() ==> is_digit(#[trigger] s[i]),
        k == 0 || !is_digit(s[k - 1]),
    ensures
        digit_suffix(s) == s.skip(k),
    decreases s.len(),
{
    if s.len() == k {
        assert(s.skip(k) =~= Seq::<char>::empty());
        if k > 0 {
            assert(s.last() == s[k - 1]);
        }
    } else {
        assert(is_digit(s.last()));
        lemma_digit_suffix_at(s.drop_last(), k);
        assert(s.drop_last().skip(k).push(s.last()) =~= s.skip(k));
    }
}

/// The chunk-count entry of one preamble line, if it is one. The historical
/// log announces each job as `Job <id>.cm-<host> (... <n> chunk(s))`: such a
/// line yields the job ID (the digits between `Job ` and `.cm-`) and the
/// chunk count (the digits before the closing ` chunk(s))`).
pub open spec fn chunk_entry(line: Seq<char>) -> Option<(Seq<char>, Seq<char>)> {
    if !occurs_at(line, "Job "@, 0) {
        None
    } else {
        let idps = spec_split(line.skip(4), ".cm-"@);
        if idps.len() < 2 || idps[0].len() == 0 || !all_digits(idps[0]) {
            None
        } else if line.len() < 10 || !occurs_at(line, " chunk(s))"@, line.len() - 10) {
            None
        } else {
            let ch = digit_suffix(line.take(line.len() - 10));
            if ch.len() == 0 {
                None
            } else {
                Some((idps[0], ch))
            }
        }
    }
}

/// The chunk entries of the preamble, one per announcing line, in order.
/// Lines are taken LF separated, each with one trailing carriage return
/// ignored.
pub open spec fn chunk_entries(lines: Seq<Seq<char>>) -> Seq<(Seq<char>, Seq<char>)>
    decreases lines.len(),
{
    if lines.len() == 0 {
        Seq::empty()
    } else {
        match chunk_entry(strip_cr(lines[0])) {
            Some(e) => seq![e] + chunk_entries(lines.drop_first()),
            None => chunk_entries(lines.drop_first()),
        }
    }
}

/// The chunk map of a full historical-log output.
pub open spec fn chunk_map_of(raw: Seq<char>) -> Seq<(Seq<char>, Seq<char>)> {
    chunk_entries(spec_split(raw, seq!['\n']))
}

/// The chunk count recorded for `id`, the latest entry winning; `?` when the
/// preamble announced none.
pub open spec fn chunk_lookup(cm: Seq<(Seq<char>, Seq<char>)>, id: Seq<char>) -> Seq<char>
    decreases cm.len(),
{
    if cm.len() == 0 {
        "?"@
    } else if cm.last().0 == id {
        cm.last().1
    } else {
        chunk_lookup(cm.drop_last(), id)
    }
}

/// The chunk entry of one line, at runtime.
fn chunk_entry_of_line(line: &str) -> (r: Option<(String, String)>)
    ensures
        match r {
            Some((id, ch)) => chunk_entry(line@) == Some((id@, ch@)),
            None => chunk_entry(line@) is None,
        },
{
    let n: usize = line.unicode_len();
    if !starts_with(line, "Job ") {
        return None;
    }
    proof {
        reveal_strlit("Job ");
        reveal_strlit(".cm-");
        reveal_strlit(" chunk(s))");
    }
    let after: &str = line.substring_char(4, n);
    proof {
        assert(after@ =~= line@.skip(4));
    }
    let idps = split_str(after, ".cm-");
    if idps.len() < 2 {
        return None;
    }
    let id: &str = idps[0].as_str();
    if id.unicode_len() == 0 || !crate::text::is_digits(id) {
        return None;
    }
    if n < 10 || !crate::text::matches_at(line, n, " chunk(s))", n - 10) {
        return None;
    }
    let head: &str = line.substring_char(0, n - 10);
    proof {
        assert(head@ =~= line@.take(line@.len() - 10));
    }
    // Scan the digit run at the end of the head.
    let hn: usize = head.unicode_len();
    let mut k: usize = hn;
    while k > 0
        invariant
            0 <= k <= hn,
            hn == head@.len(),
            forall|i: int| k <= i < hn ==> is_digit(#[trigger] head@[i]),
        ensures
            0 <= k <= hn,
            forall|i: int| k <= i < hn ==> is_digit(#[trigger] head@[i]),
            k == 0 || !is_digit(head@[k - 1]),
        decreases k,
    {
        let c: char = head.get_char(k - 1);
        if c < '0' || c > '9' {
            break ;
        }
        k = k - 1;
    }
    proof {
        lemma_digit_suffix_at(head@, k as int);
    }
    if k == hn {
        return None;
    }
    let ch: &str = head.substring_char(k, hn);
    proof {
        assert(ch@ =~= head@.skip(k as int));
    }
    Some((id.to_owned(), ch.to_owned()))
}

/// Scans a full historical-log output for its chunk-count preamble.
fn scan_chunk_map(raw: &str) -> (r: Vec<(String, String)>)
    ensures
        r@.len() == chunk_map_of(raw@).len(),
        forall|i: int|
            0 <= i < r@.len() ==> #[trigger] r@[i].0@ == chunk_map_of(raw@)[i].0 && r@[i].1@
                == chunk_map_of(raw@)[i].1,
{
    proof {
        reveal_strlit("\n");
        assert("\n"@ =~= seq!['\n']);
    }
    let lines = split_str(raw, "\n");
    let ghost ls = spec_split(raw@, seq!['\n']);
    let ghost cm = chunk_map_of(raw@);
    let n: usize = lines.len();
    let mut out: Vec<(String, String)> = Vec::new();
    let mut i: usize = 0;
    proof {
        assert(ls.skip(0) =~= ls);
    }
    while i < n
        invariant
            0 <= i <= n,
            n == lines@.len(),
            n == lines.deep_view().len(),
            lines.deep_view() == ls,
            cm == chunk_map_of(raw@),
            out@.len() + chunk_entries(ls.skip(i as int)).len() == cm.len(),
            forall|k: int|
                0 <= k < out@.len() ==> #[trigger] out@[k].0@ == cm[k].0 && out@[k].1@ == cm[k].1,
            forall|k: int|
                0 <= k < chunk_entries(ls.skip(i as int)).len() ==> #[trigger] chunk_entries(
                    ls.skip(i as int),
                )[k] == cm[out@.len() + k],
        decreases n - i,
    {
        proof {
            assert(ls.skip(i as int)[0] == ls[i as int]);
            assert(ls.skip(i as int).drop_first() =~= ls.skip(i + 1));
        }
        // Ignore one trailing carriage return, as the scan is defined on
        // logical lines.
        let line = lines[i].as_str();
        let ln: usize = line.unicode_len();
        let stripped: &str = if ln > 0 && line.get_char(ln - 1) == '\r' {
            let s2 = line.substring_char(0, ln - 1);
            proof {
                assert(s2@ =~= line@.drop_last());
            }
            s2
        } else {
            line
        };
        proof {
            assert(stripped@ == strip_cr(ls[i as int]));
        }
        match chunk_entry_of_line(stripped) {
            Some((id, ch)) => {
                let ghost old_len = out@.len();
                proof {
                    assert(chunk_entries(ls.skip(i as int)) =~= seq![(id@, ch@)] + chunk_entries(
                        ls.skip(i + 1),
                    ));
                    assert(chunk_entries(ls.skip(i as int))[0] == (id@, ch@));
                    assert(cm[old_len as int] == (id@, ch@));
                }
                out.push((id, ch));
                proof {
                    assert(forall|k: int|
                        0 <= k < chunk_entries(ls.skip(i + 1)).len() ==> #[trigger] chunk_entries(
                            ls.skip(i + 1),
                        )[k] == chunk_entries(ls.skip(i as int))[k + 1]);
                }
            },
            None => {},
        }
        i = i + 1;
    }
    proof {
        assert(ls.skip(n as int) =~= Seq::<Seq<char>>::empty());
    }
    out
}

/// The chunk count for `id` at runtime, the latest entry winning.
fn chunk_lookup_exec(cm: &Vec<(String, String)>, id: &str) -> (r: String)
    ensures
        ({
            let scm = Seq::new(cm@.len(), |i: int| (cm@[i].0@, cm@[i].1@));
            r@ == chunk_lookup(scm, id@)
        }),
{
    let ghost scm = Seq::new(cm@.len(), |i: int| (cm@[i].0@, cm@[i].1@));
    let mut j: usize = cm.len();
    proof {
        assert(scm.take(j as int) =~= scm);
    }
    while j > 0
        invariant
            0 <= j <= cm@.len(),
            scm == Seq::new(cm@.len(), |i: int| (cm@[i].0@, cm@[i].1@)),
            chunk_lookup(scm, id@) == chunk_lookup(scm.take(j as int), id@),
        decreases j,
    {
        j = j - 1;
        if crate::text::str_eq(cm[j].0.as_str(), id) {
            proof {
                assert(scm.take(j + 1).last() == scm[j as int]);
            }
            return cm[j].1.clone();
        }
        proof {
            assert(scm.take(j + 1).last() == scm[j as int]);
            assert(scm.take(j + 1).drop_last() =~= scm.take(j as int));
        }
    }
    proof {
        assert(scm.take(0) =~= Seq::<(Seq<char>, Seq<char>)>::empty());
        reveal_strlit("?");
    }
    "?".to_owned()
}

/// The record section and the line separator of a historical-log output.
/// The section is whatever follows the first `Raw records::` marker line;
/// when the LF-based split does not find the marker, the split falls back to
/// CRLF, and the lines are then split on CRLF too.
pub open spec fn jmanl_section(raw: Seq<char>) -> Option<(Seq<char>, Seq<char>)> {
    let lf = spec_split(raw, "Raw records::\n"@);
    if lf.len() >= 2 {
        Some((lf[1], "\n"@))
    } else {
        let crlf = spec_split(raw, "Raw records::\r\n"@);
        if crlf.len() >= 2 {
            Some((crlf[1], "\r\n"@))
        } else {
            None
        }
    }
}

/// The record of one historical-log line, given the preamble's chunk map:
/// the first three semicolon-separated fields are positional, the rest is the
/// `key=value; ...` tail, and the chunk count is merged in by job ID. An
/// empty line carries no record; neither does one that fails to parse.
pub open spec fn jmanl_line_record(line: Seq<char>, cm: Seq<(Seq<char>, Seq<char>)>) -> Option<
    Map<Seq<char>, Seq<char>>,
> {
    if line.len() == 0 {
        None
    } else {
        let ps = spec_split(line, ";"@);
        let prelim = if ps.len() >= 3 {
            ps.take(3)
        } else {
            ps
        };
        let tail = if ps.len() >= 3 {
            spec_join(ps.skip(3), ";"@)
        } else {
            Seq::empty()
        };
        match crate::records::spec_jmanl_record(prelim, tail) {
            Some(m) => {
                let id = if m.contains_key("job_id"@) {
                    m["job_id"@]
                } else {
                    Seq::empty()
                };
                Some(m.insert("chunks"@, chunk_lookup(cm, id)))
            },
            None => None,
        }
    }
}

/// The records of the section's lines, in order, skipped lines left out.
pub open spec fn jmanl_lines_records(
    lines: Seq<Seq<char>>,
    cm: Seq<(Seq<char>, Seq<char>)>,
) -> Seq<Map<Seq<char>, Seq<char>>>
    decreases lines.len(),
{
    if lines.len() == 0 {
        Seq::empty()
    } else {
        match jmanl_line_record(lines[0], cm) {
            Some(m) => seq![m] + jmanl_lines_records(lines.drop_first(), cm),
            None => jmanl_lines_records(lines.drop_first(), cm),
        }
    }
}

/// The records of a full historical-log output. Nothing when no marker line
/// is found under either line-ending convention.
pub open spec fn spec_jmanl_records(raw: Seq<char>) -> Option<Seq<Map<Seq<char>, Seq<char>>>> {
    match jmanl_section(raw) {
        Some((input, sep)) => Some(
            jmanl_lines_records(spec_split(input, sep), chunk_map_of(raw)),
        ),
        None => None,
    }
}

/// Parses one record line at runtime.
fn parse_jmanl_line(line: &str, cm: &Vec<(String, String)>) -> (r: Result<
    Option<FieldMap>,
    ParseError,
>)
    ensures
        ({
            let scm = Seq::new(cm@.len(), |i: int| (cm@[i].0@, cm@[i].1@));
            match r {
                Ok(Some(m)) => jmanl_line_record(line@, scm) == Some(m@),
                Ok(None) => line@.len() == 0,
                Err(_) => line@.len() > 0 && jmanl_line_record(line@, scm) is None,
            }
        }),
{
    if line.unicode_len() == 0 {
        return Ok(None);
    }
    proof {
        reveal_strlit(";");
        assert(";"@ =~= seq![';']);
    }
    let ps = split_str(line, ";");
    let pn: usize = ps.len();
    let mut prelim: Vec<String> = Vec::new();
    let mut tail_parts: Vec<String> = Vec::new();
    let mut k: usize = 0;
    while k < pn
        invariant
            0 <= k <= pn,
            pn == ps@.len(),
            pn == ps.deep_view().len(),
            prelim.deep_view() =~= ps.deep_view().take(if k < 3 {
                k as int
            } else {
                3
            }),
            k >= 3 ==> tail_parts.deep_view() =~= ps.deep_view().subrange(3, k as int),
            k < 3 ==> tail_parts.deep_view() =~= Seq::<Seq<char>>::empty(),
        decreases pn - k,
    {
        let ghost pre_p = prelim.deep_view();
        let ghost pre_t = tail_parts.deep_view();
        if k < 3 {
            prelim.push(ps[k].clone());
            proof {
                assert(prelim.deep_view() =~= pre_p.push(ps.deep_view()[k as int]));
                assert(prelim.deep_view() =~= ps.deep_view().take(if k + 1 < 3 {
                    k + 1
                } else {
                    3
                }));
            }
        } else {
            tail_parts.push(ps[k].clone());
            proof {
                assert(tail_parts.deep_view() =~= pre_t.push(ps.deep_view()[k as int]));
                assert(tail_parts.deep_view() =~= ps.deep_view().subrange(3, k + 1));
            }
        }
        k = k + 1;
    }
    let tail: String = join_strs(&tail_parts, ";");
    proof {
        if pn >= 3 {
            assert(prelim.deep_view() =~= spec_split(line@, ";"@).take(3));
            assert(tail_parts.deep_view() =~= spec_split(line@, ";"@).skip(3));
        } else {
            assert(prelim.deep_view() =~= spec_split(line@, ";"@));
            assert(tail@ =~= Seq::<char>::empty());
        }
    }
    match crate::records::jmanl_job_str_to_btree(prelim, tail.as_str()) {
        Ok(mut m) => {
            let id: String = match m.get("job_id") {
                Some(v) => v.clone(),
                None => String::new(),
            };
            let chunks = chunk_lookup_exec(cm, id.as_str());
            m.insert("chunks", chunks);
            Ok(Some(m))
        },
        Err(e) => Err(e),
    }
}

/// Parses a full historical-log output: the chunk-count preamble, the record
/// marker (LF first, CRLF as the fallback), then one record per non-empty
/// line, each completed with its chunk count. A line that fails to parse is
/// skipped, its reason reported, and its siblings are unaffected.
#[verifier::rlimit(40)]
pub fn parse_jmanl_output(raw: &str) -> (r: Result<(Vec<FieldMap>, Vec<String>), ParseError>)
    ensures
        match r {
            Ok((v, _)) => {
                &&& spec_jmanl_records(raw@) is Some
                &&& v@.len() == spec_jmanl_records(raw@)->0.len()
                &&& forall|i: int|
                    0 <= i < v@.len() ==> #[trigger] v@[i]@ == spec_jmanl_records(raw@)->0[i]
            },
            Err(_) => spec_jmanl_records(raw@) is None,
        },
{
    proof {
        reveal_strlit("Raw records::\n");
        reveal_strlit("Raw records::\r\n");
        reveal_strlit("\n");
        reveal_strlit("\r\n");
        assert("\n"@ =~= seq!['\n']);
    }
    let cm = scan_chunk_map(raw);
    let ghost scm = Seq::new(cm@.len(), |i: int| (cm@[i].0@, cm@[i].1@));
    proof {
        assert(scm =~= chunk_map_of(raw@));
    }
    let lf_parts = split_str(raw, "Raw records::\n");
    let (input, sep): (String, &str) = if lf_parts.len() >= 2 {
        (lf_parts[1].clone(), "\n")
    } else {
        let crlf_parts = split_str(raw, "Raw records::\r\n");
        if crlf_parts.len() >= 2 {
            (crlf_parts[1].clone(), "\r\n")
        } else {
            return Err(ParseError { reason: "no record marker in the output".to_owned() });
        }
    };
    let lines = split_str(input.as_str(), sep);
    let ghost ls = spec_split(input@, sep@);
    let ghost whole = jmanl_lines_records(ls, scm);
    proof {
        assert(jmanl_section(raw@) == Some((input@, sep@)));
        assert(spec_jmanl_records(raw@) == Some(whole));
    }
    let n: usize = lines.len();
    let mut out: Vec<FieldMap> = Vec::new();
    let mut skipped: Vec<String> = Vec::new();
    let mut i: usize = 0;
    proof {
        assert(ls.skip(0) =~= ls);
    }
    while i < n
        invariant
            0 <= i <= n,
            n == lines@.len(),
            n == lines.deep_view().len(),
            lines.deep_view() == ls,
            scm == Seq::new(cm@.len(), |j: int| (cm@[j].0@, cm@[j].1@)),
            whole == jmanl_lines_records(ls, scm),
            out@.len() + jmanl_lines_records(ls.skip(i as int), scm).len() == whole.len(),
            forall|k: int| 0 <= k < out@.len() ==> #[trigger] out@[k]@ == whole[k],
            forall|k: int|
                0 <= k < jmanl_lines_records(ls.skip(i as int), scm).len()
                    ==> #[trigger] jmanl_lines_records(ls.skip(i as int), scm)[k] == whole[out@.len()
                    + k],
        decreases n - i,
    {
        proof {
            assert(ls.skip(i as int)[0] == ls[i as int]);
            assert(ls.skip(i as int).drop_first() =~= ls.skip(i + 1));
        }
        match parse_jmanl_line(lines[i].as_str(), &cm) {
            Ok(Some(m)) => {
                let ghost old_len = out@.len();
                proof {
                    assert(jmanl_lines_records(ls.skip(i as int), scm) =~= seq![m@]
                        + jmanl_lines_records(ls.skip(i + 1), scm));
                    assert(jmanl_lines_records(ls.skip(i as int), scm)[0] == m@);
                    assert(whole[old_len as int] == m@);
                }
                out.push(m);
                proof {
                    assert(forall|k: int|
                        0 <= k < jmanl_lines_records(ls.skip(i + 1), scm).len()
                            ==> #[trigger] jmanl_lines_records(ls.skip(i + 1), scm)[k]
                            == jmanl_lines_records(ls.skip(i as int), scm)[k + 1]);
                }
            },
            Ok(None) => {},
            Err(e) => {
                skipped.push(e.reason);
            },
        }
        i = i + 1;
    }
    proof {
        assert(ls.skip(n as int) =~= Seq::<Seq<char>>::empty());
    }
    Ok((out, skipped))
}

/// The lines of a CRLF-joined text as an LF split sees them: every line but
/// the last carries a trailing carriage return.
pub open spec fn crlf_lines(xs: Seq<Seq<char>>) -> Seq<Seq<char>> {
    Seq::new(
        xs.len(),
        |i: int|
            if i < xs.len() - 1 {
                xs[i].push('\r')
            } else {
                xs[i]
            },
    )
}

/// Splitting a CRLF join on LF yields the lines with their carriage returns
/// still attached.
pub proof fn lemma_split_crlf_join(xs: Seq<Seq<char>>)
    requires
        xs.len() > 0,
        forall|k: int|
            0 <= k < xs.len() ==> crate::text::avoids_char(#[trigger] xs[k], '\n')
                && crate::text::avoids_char(xs[k], '\r'),
    ensures
        spec_split(spec_join(xs, seq!['\r', '\n']), seq!['\n']) == crlf_lines(xs),
    decreases xs.len(),
{
    let sep = seq!['\r', '\n'];
    let s = spec_join(xs, sep);
    if xs.len() == 1 {
        assert(s == xs[0]);
        assert forall|j: int| !crate::text::occurs_at(s, seq!['\n'], j) by {
            if crate::text::occurs_at(s, seq!['\n'], j) {
                assert(s.subrange(j, j + 1)[0] == '\n');
                assert(s[j] == '\n');
            }
        }
        crate::text::lemma_split_none(s, seq!['\n']);
        assert(seq![s] =~~= crlf_lines(xs));
    } else {
        let x0 = xs[0];
        let rest = xs.drop_first();
        assert(s == x0 + sep + spec_join(rest, sep));
        let q = x0.len() as int + 1;
        assert(crate::text::occurs_at(s, seq!['\n'], q)) by {
            assert(s.subrange(q, q + 1) =~= seq!['\n']);
        }
        assert forall|j: int| 0 <= j < q implies !crate::text::occurs_at(s, seq!['\n'], j) by {
            if crate::text::occurs_at(s, seq!['\n'], j) {
                assert(s.subrange(j, j + 1)[0] == '\n');
                assert(s[j] == '\n');
                if j < x0.len() {
                    assert(x0[j] == '\n');
                } else {
                    assert(s[j] == '\r');
                }
            }
        }
        crate::text::lemma_split_at_first(s, seq!['\n'], q);
        assert(s.subrange(0, q) =~= x0.push('\r'));
        assert(s.skip(q + 1) =~= spec_join(rest, sep));
        assert(forall|k: int|
            0 <= k < rest.len() ==> crate::text::avoids_char(#[trigger] rest[k], '\n')
                && crate::text::avoids_char(rest[k], '\r')) by {
            assert(forall|k: int| 0 <= k < rest.len() ==> rest[k] == xs[k + 1]);
        }
        lemma_split_crlf_join(rest);
        assert(seq![x0.push('\r')] + crlf_lines(rest) =~~= crlf_lines(xs));
    }
}

/// Lines equal up to one trailing carriage return yield the same chunk
/// entries.
proof fn lemma_chunk_entries_strip(a: Seq<Seq<char>>, b: Seq<Seq<char>>)
    requires
        a.len() == b.len(),
        forall|i: int| 0 <= i < a.len() ==> strip_cr(#[trigger] a[i]) == strip_cr(b[i]),
    ensures
        chunk_entries(a) == chunk_entries(b),
    decreases a.len(),
{
    if a.len() > 0 {
        assert(forall|i: int|
            0 <= i < a.drop_first().len() ==> strip_cr(#[trigger] a.drop_first()[i]) == strip_cr(
                b.drop_first()[i],
            )) by {
            assert(forall|i: int| 0 <= i < a.drop_first().len() ==> a.drop_first()[i] == a[i + 1]);
            assert(forall|i: int| 0 <= i < b.drop_first().len() ==> b.drop_first()[i] == b[i + 1]);
        }
        lemma_chunk_entries_strip(a.drop_first(), b.drop_first());
        assert(strip_cr(a[0]) == strip_cr(b[0]));
    }
}

/// The chunk-count preamble scan reads the same entries from one sequence of
/// logical lines under either line-ending convention: the scan works on LF
/// splits and ignores one trailing carriage return per line.
pub proof fn lemma_chunk_scan_crlf(xs: Seq<Seq<char>>)
    requires
        xs.len() > 0,
        forall|k: int|
            0 <= k < xs.len() ==> crate::text::avoids_char(#[trigger] xs[k], '\n')
                && crate::text::avoids_char(xs[k], '\r'),
    ensures
        chunk_map_of(spec_join(xs, "\n"@)) == chunk_map_of(spec_join(xs, "\r\n"@)),
{
    reveal_strlit("\n");
    reveal_strlit("\r\n");
    assert("\n"@ =~= seq!['\n']);
    assert("\r\n"@ =~= seq!['\r', '\n']);
    assert("\n"@[0] == '\n');
    crate::text::lemma_split_join(xs, "\n"@);
    assert(spec_split(spec_join(xs, "\n"@), seq!['\n']) == xs);
    lemma_split_crlf_join(xs);
    assert(forall|i: int| 0 <= i < xs.len() ==> strip_cr(#[trigger] xs[i]) == strip_cr(
        crlf_lines(xs)[i],
    )) by {
        assert forall|i: int| 0 <= i < xs.len() implies strip_cr(#[trigger] xs[i]) == strip_cr(
            crlf_lines(xs)[i],
        ) by {
            if xs[i].len() > 0 {
                assert(xs[i].last() != '\r');
            }
            if i < xs.len() - 1 {
                assert(crlf_lines(xs)[i] == xs[i].push('\r'));
                assert(xs[i].push('\r').last() == '\r');
                assert(xs[i].push('\r').drop_last() =~= xs[i]);
            }
        }
    }
    lemma_chunk_entries_strip(xs, crlf_lines(xs));
}

/// In a CRLF join of carriage-return-free lines, every line feed directly
/// follows a carriage return.
proof fn lemma_crlf_join_newlines(xs: Seq<Seq<char>>)
    requires
        forall|k: int|
            0 <= k < xs.len() ==> crate::text::avoids_char(#[trigger] xs[k], '\n')
                && crate::text::avoids_char(xs[k], '\r'),
    ensures
        ({
            let s = spec_join(xs, seq!['\r', '\n']);
            forall|p: int|
                0 <= p < s.len() && #[trigger] s[p] == '\n' ==> p > 0 && s[p - 1] == '\r'
        }),
    decreases xs.len(),
{
    let sep = seq!['\r', '\n'];
    let s = spec_join(xs, sep);
    if xs.len() <= 1 {
        assert forall|p: int| 0 <= p < s.len() && #[trigger] s[p] == '\n' implies p > 0 && s[p
            - 1] == '\r' by {
            assert(xs[0][p] != '\n');
        }
    } else {
        let x0 = xs[0];
        let rest = xs.drop_first();
        let t = spec_join(rest, sep);
        assert(s == x0 + sep + t);
        assert(forall|k: int|
            0 <= k < rest.len() ==> crate::text::avoids_char(#[trigger] rest[k], '\n')
                && crate::text::avoids_char(rest[k], '\r')) by {
            assert(forall|k: int| 0 <= k < rest.len() ==> rest[k] == xs[k + 1]);
        }
        lemma_crlf_join_newlines(rest);
        let b = x0.len() as int;
        assert forall|p: int| 0 <= p < s.len() && #[trigger] s[p] == '\n' implies p > 0 && s[p
            - 1] == '\r' by {
            if p < b {
                assert(s[p] == x0[p]);
            } else if p == b {
                assert(s[p] == '\r');
            } else if p == b + 1 {
                assert(s[p - 1] == '\r');
            } else {
                assert(s[p] == t[p - b - 2]);
                assert(t[p - b - 2] == '\n');
                assert(t[p - b - 3] == '\r');
                assert(s[p - 1] == t[p - b - 3]);
            }
        }
    }
}

/// The fallback itself: on CRLF-separated output the LF-based marker split
/// cannot find the marker — its line feed would have to follow a colon,
/// but in such text every line feed follows a carriage return.
pub proof fn lemma_fallback_triggers(xs: Seq<Seq<char>>)
    requires
        forall|k: int|
            0 <= k < xs.len() ==> crate::text::avoids_char(#[trigger] xs[k], '\n')
                && crate::text::avoids_char(xs[k], '\r'),
    ensures
        spec_split(spec_join(xs, "\r\n"@), "Raw records::\n"@).len() == 1,
{
    reveal_strlit("\r\n");
    reveal_strlit("Raw records::\n");
    assert("\r\n"@ =~= seq!['\r', '\n']);
    let s = spec_join(xs, seq!['\r', '\n']);
    let pat = "Raw records::\n"@;
    assert(pat.len() == 14);
    assert(pat[13] == '\n');
    assert(pat[12] == ':');
    lemma_crlf_join_newlines(xs);
    assert forall|q: int| !crate::text::occurs_at(s, pat, q) by {
        if crate::text::occurs_at(s, pat, q) {
            assert(s.subrange(q, q + 14)[13] == pat[13]);
            assert(s.subrange(q, q + 14)[12] == pat[12]);
            assert(s[q + 13] == '\n');
            assert(s[q + 12] == ':');
            assert(s[q + 12] == '\r');
        }
    }
    crate::text::lemma_split_none(s, pat);
}

/// The CRLF-fallback law, whole output: one sequence of logical lines, none
/// containing a carriage return or a line feed, parses to identical records
/// whether the output arrives LF-separated or CRLF-separated. That the
/// LF-based split finds no marker in the CRLF text — so the detection falls
/// back automatically — is proved, as are the chunk scan's agreement and
/// the record lines' agreement; where each convention's own marker split
/// puts the record section is taken as given.
pub proof fn lemma_crlf_fallback(
    raw_lf: Seq<char>,
    raw_crlf: Seq<char>,
    all_lines: Seq<Seq<char>>,
    ls: Seq<Seq<char>>,
)
    requires
        raw_lf == spec_join(all_lines, "\n"@),
        raw_crlf == spec_join(all_lines, "\r\n"@),
        all_lines.len() > 0,
        ls.len() > 0,
        forall|k: int|
            0 <= k < all_lines.len() ==> crate::text::avoids_char(#[trigger] all_lines[k], '\n')
                && crate::text::avoids_char(all_lines[k], '\r'),
        forall|k: int|
            0 <= k < ls.len() ==> crate::text::avoids_char(#[trigger] ls[k], '\n')
                && crate::text::avoids_char(ls[k], '\r'),
        spec_split(raw_lf, "Raw records::\n"@).len() >= 2,
        spec_split(raw_lf, "Raw records::\n"@)[1] == spec_join(ls, "\n"@),
        spec_split(raw_crlf, "Raw records::\r\n"@).len() >= 2,
        spec_split(raw_crlf, "Raw records::\r\n"@)[1] == spec_join(ls, "\r\n"@),
    ensures
        spec_jmanl_records(raw_lf) == spec_jmanl_records(raw_crlf),
{
    // The LF reading finds its marker directly.
    assert(jmanl_section(raw_lf) == Some((spec_join(ls, "\n"@), "\n"@)));
    // The CRLF reading reaches the fallback: the LF split yields one piece.
    lemma_fallback_triggers(all_lines);
    assert(jmanl_section(raw_crlf) == Some((spec_join(ls, "\r\n"@), "\r\n"@)));
    // The preamble scan reads the same chunk counts either way.
    lemma_chunk_scan_crlf(all_lines);
    let cm = chunk_map_of(raw_lf);
    assert(chunk_map_of(raw_crlf) == cm);
    // And the record lines come back identical.
    lemma_crlf_fallback_records(ls, cm);
}

/// The CRLF-fallback law for the record section: one sequence of logical
/// lines, none containing a carriage return or a line feed, yields the same
/// records whether it is transmitted LF-separated and split on LF, or
/// CRLF-separated and split on CRLF.
pub proof fn lemma_crlf_fallback_records(ls: Seq<Seq<char>>, cm: Seq<(Seq<char>, Seq<char>)>)
    requires
        ls.len() > 0,
        forall|k: int|
            0 <= k < ls.len() ==> crate::text::avoids_char(#[trigger] ls[k], '\n')
                && crate::text::avoids_char(ls[k], '\r'),
    ensures
        jmanl_lines_records(spec_split(spec_join(ls, "\n"@), "\n"@), cm) == jmanl_lines_records(
            spec_split(spec_join(ls, "\r\n"@), "\r\n"@),
            cm,
        ),
{
    reveal_strlit("\n");
    reveal_strlit("\r\n");
    assert("\n"@ =~= seq!['\n']);
    assert("\r\n"@ =~= seq!['\r', '\n']);
    assert("\n"@[0] == '\n');
    assert("\r\n"@[0] == '\r');
    crate::text::lemma_split_join(ls, "\n"@);
    crate::text::lemma_split_join(ls, "\r\n"@);
}

} // verus!