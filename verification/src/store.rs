//! The reconciliation store: Jobs, per-job samples, Users, Groups,
//! memberships, and the group-membership cache.
//!
//! Each job has exactly one row, keyed by its scheduler ID; re-ingesting an
//! ID overwrites the row, last write wins, while the stat samples only ever
//! grow. A job reaches the Ended state through completion reconciliation:
//! a Running row whose ID is absent from the latest active set is stamped
//! with the current time and marked Ended.

use vstd::prelude::*;

use crate::fields::FieldMap;
use crate::text::{
    all_digits, dec_val, occurs_at, parse_u64, spec_split, split_str, starts_with, str_eq,
};
use crate::units::{convert_mem_to_gb, spec_mem_units, GbFixed};

verus! {

/// One job's row, typed: numbers as fixed-point integers, free-form fields
/// as the scheduler sent them.
pub struct JobRow {
    pub pbs_id: u64,
    pub name: String,
    pub owner: String,
    pub state: String,
    pub start_time: u64,
    pub queue: String,
    pub nodes: String,
    pub req_mem: GbFixed,
    pub req_cpus: u64,
    pub req_gpus: u64,
    pub req_walltime: String,
    pub req_select: String,
    pub mem_efficiency: u64,
    pub walltime_efficiency: u64,
    pub cpu_efficiency: u64,
    pub used_cpu_percent: u64,
    pub used_mem: u64,
    pub used_walltime: String,
    pub end_time: u64,
    pub chunks: String,
    pub exit_status: String,
    pub est_start_time: String,
    pub used_cpu_time: String,
}

/// The mathematical value of a row: every text field as a character
/// sequence.
pub ghost struct JobRowV {
    pub pbs_id: u64,
    pub name: Seq<char>,
    pub owner: Seq<char>,
    pub state: Seq<char>,
    pub start_time: u64,
    pub queue: Seq<char>,
    pub nodes: Seq<char>,
    pub req_mem: u64,
    pub req_cpus: u64,
    pub req_gpus: u64,
    pub req_walltime: Seq<char>,
    pub req_select: Seq<char>,
    pub mem_efficiency: u64,
    pub walltime_efficiency: u64,
    pub cpu_efficiency: u64,
    pub used_cpu_percent: u64,
    pub used_mem: u64,
    pub used_walltime: Seq<char>,
    pub end_time: u64,
    pub chunks: Seq<char>,
    pub exit_status: Seq<char>,
    pub est_start_time: Seq<char>,
    pub used_cpu_time: Seq<char>,
}

impl View for JobRow {
    type V = JobRowV;

    open spec fn view(&self) -> JobRowV {
        JobRowV {
            pbs_id: self.pbs_id,
            name: self.name@,
            owner: self.owner@,
            state: self.state@,
            start_time: self.start_time,
            queue: self.queue@,
            nodes: self.nodes@,
            req_mem: self.req_mem.units,
            req_cpus: self.req_cpus,
            req_gpus: self.req_gpus,
            req_walltime: self.req_walltime@,
            req_select: self.req_select@,
            mem_efficiency: self.mem_efficiency,
            walltime_efficiency: self.walltime_efficiency,
            cpu_efficiency: self.cpu_efficiency,
            used_cpu_percent: self.used_cpu_percent,
            used_mem: self.used_mem,
            used_walltime: self.used_walltime@,
            end_time: self.end_time,
            chunks: self.chunks@,
            exit_status: self.exit_status@,
            est_start_time: self.est_start_time@,
            used_cpu_time: self.used_cpu_time@,
        }
    }
}

impl JobRow {
    /// An identical copy of the row.
    pub fn duplicate(&self) -> (r: JobRow)
        ensures
            r@ == self@,
    {
        JobRow {
            pbs_id: self.pbs_id,
            name: self.name.clone(),
            owner: self.owner.clone(),
            state: self.state.clone(),
            start_time: self.start_time,
            queue: self.queue.clone(),
            nodes: self.nodes.clone(),
            req_mem: self.req_mem,
            req_cpus: self.req_cpus,
            req_gpus: self.req_gpus,
            req_walltime: self.req_walltime.clone(),
            req_select: self.req_select.clone(),
            mem_efficiency: self.mem_efficiency,
            walltime_efficiency: self.walltime_efficiency,
            cpu_efficiency: self.cpu_efficiency,
            used_cpu_percent: self.used_cpu_percent,
            used_mem: self.used_mem,
            used_walltime: self.used_walltime.clone(),
            end_time: self.end_time,
            chunks: self.chunks.clone(),
            exit_status: self.exit_status.clone(),
            est_start_time: self.est_start_time.clone(),
            used_cpu_time: self.used_cpu_time.clone(),
        }
    }
}

/// One appended usage sample: the CPU efficiency and used memory observed at
/// one poll, in epoch seconds.
#[derive(Clone, Copy, Debug, PartialEq, Eq, Structural)]
pub struct StatSample {
    pub pbs_id: u64,
    pub cpu_percent: u64,
    pub mem: u64,
    pub datetime: u64,
}

/// The outcome of a login attempt: whether the credential verified, and
/// whether a user row was created for a first-time login.
#[derive(Clone, Copy, Debug, PartialEq, Eq, Structural)]
pub struct LoginResult {
    pub success: bool,
    pub created_new: bool,
}

/// The values of a sequence of rows.
pub open spec fn rows_v(s: Seq<JobRow>) -> Seq<JobRowV> {
    s.map_values(|r: JobRow| r@)
}

/// The values of a sequence of strings.
pub open spec fn strs_v(s: Seq<String>) -> Seq<Seq<char>> {
    s.map_values(|x: String| x@)
}

/// A field value read as an unsigned integer.
pub open spec fn parsed_u64(v: Seq<char>) -> Option<u64> {
    if v.len() > 0 && all_digits(v) && dec_val(v) <= u64::MAX {
        Some(dec_val(v) as u64)
    } else {
        None
    }
}

/// The field for `k`, when present.
pub open spec fn rec_get(m: Map<Seq<char>, Seq<char>>, k: Seq<char>) -> Option<Seq<char>> {
    if m.contains_key(k) {
        Some(m[k])
    } else {
        None
    }
}

/// The field for `k`, or `d` when absent.
pub open spec fn rec_or(m: Map<Seq<char>, Seq<char>>, k: Seq<char>, d: Seq<char>) -> Seq<char> {
    if m.contains_key(k) {
        m[k]
    } else {
        d
    }
}

/// The select statement with the leading `nchunks=` made explicit.
pub open spec fn select_fixed(v: Seq<char>) -> Seq<char> {
    if occurs_at(v, "nchunks="@, 0) {
        v
    } else {
        "nchunks="@ + v
    }
}

/// The chunk count read off a fixed select statement: the text between the
/// first `=` and the following `:`.
pub open spec fn chunks_from_select(sel: Seq<char>) -> Option<Seq<char>> {
    let ps = spec_split(sel, "="@);
    if ps.len() < 2 {
        None
    } else {
        Some(spec_split(ps[1], ":"@)[0])
    }
}

/// The typed row that a parsed record denotes, or nothing when a required
/// field is missing or malformed — which makes that record a hard error,
/// without touching its siblings.
pub open spec fn row_from_record(m: Map<Seq<char>, Seq<char>>) -> Option<JobRowV> {
    if !m.contains_key("job_id"@) || !m.contains_key("Job_Name"@) || !m.contains_key("Job_Owner"@)
        || !m.contains_key("job_state"@) || !m.contains_key("start_time"@) || !m.contains_key(
        "queue"@,
    ) || !m.contains_key("Nodes"@) || !m.contains_key("Resource_List.mem"@) || !m.contains_key(
        "Resource_List.walltime"@,
    ) || !m.contains_key("Resource_List.select"@) || !m.contains_key("mem_efficiency"@)
        || !m.contains_key("walltime_efficiency"@) || !m.contains_key("cpu_efficiency"@)
        || !m.contains_key("resources_used.cpupercent"@) || !m.contains_key("resources_used.mem"@)
        || !m.contains_key("resources_used.walltime"@) {
        None
    } else {
        let sel = select_fixed(m["Resource_List.select"@]);
        let chunks = match rec_get(m, "chunks"@) {
            Some(c) => Some(c),
            None => chunks_from_select(sel),
        };
        match (
            parsed_u64(m["job_id"@]),
            parsed_u64(m["start_time"@]),
            spec_mem_units(m["Resource_List.mem"@]),
            parsed_u64(rec_or(m, "Resource_List.ncpus"@, "0"@)),
            parsed_u64(rec_or(m, "Resource_List.ngpus"@, "0"@)),
            parsed_u64(m["mem_efficiency"@]),
            parsed_u64(m["walltime_efficiency"@]),
            parsed_u64(m["cpu_efficiency"@]),
            parsed_u64(m["resources_used.cpupercent"@]),
            parsed_u64(m["resources_used.mem"@]),
            parsed_u64(rec_or(m, "end_time"@, "2147483647"@)),
            chunks,
        ) {
            (
                Some(id),
                Some(st),
                Some(rm),
                Some(rc),
                Some(rg),
                Some(me),
                Some(we),
                Some(ce),
                Some(up),
                Some(um),
                Some(et),
                Some(ch),
            ) => if rm <= u64::MAX {
                Some(
                    JobRowV {
                        pbs_id: id,
                        name: m["Job_Name"@],
                        owner: m["Job_Owner"@],
                        state: m["job_state"@],
                        start_time: st,
                        queue: m["queue"@],
                        nodes: m["Nodes"@],
                        req_mem: rm as u64,
                        req_cpus: rc,
                        req_gpus: rg,
                        req_walltime: m["Resource_List.walltime"@],
                        req_select: sel,
                        mem_efficiency: me,
                        walltime_efficiency: we,
                        cpu_efficiency: ce,
                        used_cpu_percent: up,
                        used_mem: um,
                        used_walltime: m["resources_used.walltime"@],
                        end_time: et,
                        chunks: ch,
                        exit_status: rec_or(m, "Exit_status"@, "Not Yet Completed"@),
                        est_start_time: rec_or(
                            m,
                            "estimated.start_time"@,
                            "Already Started/Unknown"@,
                        ),
                        used_cpu_time: rec_or(m, "resources_used.cput"@, "00:00:00"@),
                    },
                )
            } else {
                None
            },
            _ => None,
        }
    }
}

/// A write the store refused; the reason is diagnostic text for the
/// operator's log.
#[derive(Debug)]
pub struct StoreError {
    pub reason: String,
}

/// Builds the typed row that a parsed record denotes.
fn build_job_row(m: &FieldMap) -> (r: Result<JobRow, StoreError>)
    ensures
        match r {
            Ok(row) => row_from_record(m@) == Some(row@),
            Err(_) => row_from_record(m@) is None,
        },
{
    let name: String = match m.get("Job_Name") {
        Some(v) => v.clone(),
        None => {
            return Err(StoreError { reason: "a record without a job name".to_owned() });
        },
    };
    let owner: String = match m.get("Job_Owner") {
        Some(v) => v.clone(),
        None => {
            return Err(StoreError { reason: "a record without a job owner".to_owned() });
        },
    };
    let state: String = match m.get("job_state") {
        Some(v) => v.clone(),
        None => {
            return Err(StoreError { reason: "a record without a job state".to_owned() });
        },
    };
    let queue: String = match m.get("queue") {
        Some(v) => v.clone(),
        None => {
            return Err(StoreError { reason: "a record without a queue".to_owned() });
        },
    };
    let nodes: String = match m.get("Nodes") {
        Some(v) => v.clone(),
        None => {
            return Err(StoreError { reason: "a record without a node list".to_owned() });
        },
    };
    let req_walltime: String = match m.get("Resource_List.walltime") {
        Some(v) => v.clone(),
        None => {
            return Err(StoreError { reason: "a record without a reserved walltime".to_owned() });
        },
    };
    let used_walltime: String = match m.get("resources_used.walltime") {
        Some(v) => v.clone(),
        None => {
            return Err(StoreError { reason: "a record without a used walltime".to_owned() });
        },
    };
    let pbs_id: u64 = match m.get("job_id") {
        Some(v) => match parse_u64(v.as_str()) {
            Some(x) => x,
            None => {
                return Err(StoreError { reason: "a record with a malformed job ID".to_owned() });
            },
        },
        None => {
            return Err(StoreError { reason: "a record without a job ID".to_owned() });
        },
    };
    let start_time: u64 = match m.get("start_time") {
        Some(v) => match parse_u64(v.as_str()) {
            Some(x) => x,
            None => {
                return Err(
                    StoreError { reason: "a record with a malformed start time".to_owned() },
                );
            },
        },
        None => {
            return Err(StoreError { reason: "a record without a start time".to_owned() });
        },
    };
    let req_mem: GbFixed = match m.get("Resource_List.mem") {
        Some(v) => match convert_mem_to_gb(v.as_str()) {
            Ok(g) => g,
            Err(_) => {
                return Err(
                    StoreError { reason: "a record with malformed reserved memory".to_owned() },
                );
            },
        },
        None => {
            return Err(StoreError { reason: "a record without reserved memory".to_owned() });
        },
    };
    let req_cpus: u64 = match m.get("Resource_List.ncpus") {
        Some(v) => match parse_u64(v.as_str()) {
            Some(x) => x,
            None => {
                return Err(
                    StoreError { reason: "a record with a malformed CPU count".to_owned() },
                );
            },
        },
        None => 0,
    };
    let req_gpus: u64 = match m.get("Resource_List.ngpus") {
        Some(v) => match parse_u64(v.as_str()) {
            Some(x) => x,
            None => {
                return Err(
                    StoreError { reason: "a record with a malformed GPU count".to_owned() },
                );
            },
        },
        None => 0,
    };
    proof {
        reveal_strlit("0");
        assert(parsed_u64("0"@) == Some(0u64)) by {
            assert("0"@ =~= seq!['0']);
            assert("0"@.len() == 1);
            assert("0"@.last() == '0');
            assert(crate::text::is_digit("0"@[0]));
            assert("0"@.drop_last() =~= Seq::<char>::empty());
            assert(dec_val(Seq::<char>::empty()) == 0);
            assert(crate::text::digit_val('0') == 0);
            assert(dec_val("0"@) == 0);
        }
    }
    let mem_efficiency: u64 = match m.get("mem_efficiency") {
        Some(v) => match parse_u64(v.as_str()) {
            Some(x) => x,
            None => {
                return Err(
                    StoreError { reason: "a record with a malformed memory efficiency".to_owned() },
                );
            },
        },
        None => {
            return Err(StoreError { reason: "a record without a memory efficiency".to_owned() });
        },
    };
    let walltime_efficiency: u64 = match m.get("walltime_efficiency") {
        Some(v) => match parse_u64(v.as_str()) {
            Some(x) => x,
            None => {
                return Err(
                    StoreError {
                        reason: "a record with a malformed walltime efficiency".to_owned(),
                    },
                );
            },
        },
        None => {
            return Err(StoreError { reason: "a record without a walltime efficiency".to_owned() });
        },
    };
    let cpu_efficiency: u64 = match m.get("cpu_efficiency") {
        Some(v) => match parse_u64(v.as_str()) {
            Some(x) => x,
            None => {
                return Err(
                    StoreError { reason: "a record with a malformed CPU efficiency".to_owned() },
                );
            },
        },
        None => {
            return Err(StoreError { reason: "a record without a CPU efficiency".to_owned() });
        },
    };
    let used_cpu_percent: u64 = match m.get("resources_used.cpupercent") {
        Some(v) => match parse_u64(v.as_str()) {
            Some(x) => x,
            None => {
                return Err(
                    StoreError { reason: "a record with a malformed CPU percentage".to_owned() },
                );
            },
        },
        None => {
            return Err(StoreError { reason: "a record without a CPU percentage".to_owned() });
        },
    };
    let used_mem: u64 = match m.get("resources_used.mem") {
        Some(v) => match parse_u64(v.as_str()) {
            Some(x) => x,
            None => {
                return Err(
                    StoreError { reason: "a record with malformed used memory".to_owned() },
                );
            },
        },
        None => {
            return Err(StoreError { reason: "a record without used memory".to_owned() });
        },
    };
    let end_time: u64 = match m.get("end_time") {
        Some(v) => match parse_u64(v.as_str()) {
            Some(x) => x,
            None => {
                return Err(
                    StoreError { reason: "a record with a malformed end time".to_owned() },
                );
            },
        },
        None => {
            proof {
                reveal_strlit("2147483647");
            }
            let d = parse_u64("2147483647");
            match d {
                Some(x) => x,
                None => {
                    return Err(StoreError { reason: "an unreadable default".to_owned() });
                },
            }
        },
    };
    // The select statement, with `nchunks=` made explicit.
    let req_select: String = match m.get("Resource_List.select") {
        Some(v) => {
            if starts_with(v.as_str(), "nchunks=") {
                v.clone()
            } else {
                let mut s = "nchunks=".to_owned();
                s.append(v.as_str());
                s
            }
        },
        None => {
            return Err(StoreError { reason: "a record without a select statement".to_owned() });
        },
    };
    // The chunk count: the record's own, or the one in the select statement.
    let chunks: String = match m.get("chunks") {
        Some(v) => v.clone(),
        None => {
            proof {
                reveal_strlit("=");
                reveal_strlit(":");
            }
            let ps = split_str(req_select.as_str(), "=");
            if ps.len() < 2 {
                return Err(
                    StoreError { reason: "no chunk count in the select statement".to_owned() },
                );
            }
            split_str(ps[1].as_str(), ":")[0].clone()
        },
    };
    let exit_status: String = match m.get("Exit_status") {
        Some(v) => v.clone(),
        None => "Not Yet Completed".to_owned(),
    };
    let est_start_time: String = match m.get("estimated.start_time") {
        Some(v) => v.clone(),
        None => "Already Started/Unknown".to_owned(),
    };
    let used_cpu_time: String = match m.get("resources_used.cput") {
        Some(v) => v.clone(),
        None => "00:00:00".to_owned(),
    };
    Ok(
        JobRow {
            pbs_id,
            name,
            owner,
            state,
            start_time,
            queue,
            nodes,
            req_mem,
            req_cpus,
            req_gpus,
            req_walltime,
            req_select,
            mem_efficiency,
            walltime_efficiency,
            cpu_efficiency,
            used_cpu_percent,
            used_mem,
            used_walltime,
            end_time,
            chunks,
            exit_status,
            est_start_time,
            used_cpu_time,
        },
    )
}

/// `u` is among the user names.
pub open spec fn has_user(us: Seq<Seq<char>>, u: Seq<char>) -> bool {
    exists|i: int| 0 <= i < us.len() && us[i] == u
}

/// The user names with `u` added, once.
pub open spec fn insert_unique(us: Seq<Seq<char>>, u: Seq<char>) -> Seq<Seq<char>> {
    if has_user(us, u) {
        us
    } else {
        us.push(u)
    }
}

/// The first row with `id`, if any.
pub open spec fn id_index(s: Seq<JobRowV>, id: u64) -> Option<int>
    decreases s.len(),
{
    if s.len() == 0 {
        None
    } else if s[0].pbs_id == id {
        Some(0)
    } else {
        match id_index(s.drop_first(), id) {
            Some(j) => Some(j + 1),
            None => None,
        }
    }
}

/// Insert-or-replace by job ID: exactly one row per ID, last write wins.
pub open spec fn upsert_rows(s: Seq<JobRowV>, row: JobRowV) -> Seq<JobRowV> {
    match id_index(s, row.pbs_id) {
        Some(i) => s.update(i, row),
        None => s.push(row),
    }
}

/// The sample appended for one ingestion of `row` at time `now`.
pub open spec fn sample_of(row: JobRowV, now: u64) -> StatSample {
    StatSample { pbs_id: row.pbs_id, cpu_percent: row.cpu_efficiency, mem: row.used_mem, datetime: now }
}

/// A first match at `i` pins the index down.
proof fn lemma_id_index_at(s: Seq<JobRowV>, id: u64, i: int)
    requires
        0 <= i < s.len(),
        s[i].pbs_id == id,
        forall|j: int| 0 <= j < i ==> s[j].pbs_id != id,
    ensures
        id_index(s, id) == Some(i),
    decreases i,
{
    if i > 0 {
        let t = s.drop_first();
        assert(forall|j: int| 0 <= j < i - 1 ==> t[j].pbs_id != id);
        lemma_id_index_at(t, id, i - 1);
    }
}

/// No match anywhere means no index.
proof fn lemma_id_index_none(s: Seq<JobRowV>, id: u64)
    requires
        forall|j: int| 0 <= j < s.len() ==> s[j].pbs_id != id,
    ensures
        id_index(s, id) is None,
    decreases s.len(),
{
    if s.len() > 0 {
        lemma_id_index_none(s.drop_first(), id);
    }
}

/// Whichever index comes out points at a matching row, with none earlier.
pub proof fn lemma_id_index_spec(s: Seq<JobRowV>, id: u64)
    ensures
        match id_index(s, id) {
            Some(i) => 0 <= i < s.len() && s[i].pbs_id == id && forall|j: int|
                0 <= j < i ==> s[j].pbs_id != id,
            None => forall|j: int| 0 <= j < s.len() ==> s[j].pbs_id != id,
        },
    decreases s.len(),
{
    if s.len() > 0 && s[0].pbs_id != id {
        let t = s.drop_first();
        lemma_id_index_spec(t, id);
        match id_index(t, id) {
            Some(j) => {
                assert(s[j + 1].pbs_id == id);
                assert forall|k: int| 0 <= k < j + 1 implies s[k].pbs_id != id by {
                    if k > 0 {
                        assert(t[k - 1].pbs_id != id);
                    }
                }
            },
            None => {
                assert forall|k: int| 0 <= k < s.len() implies s[k].pbs_id != id by {
                    if k > 0 {
                        assert(t[k - 1].pbs_id != id);
                    }
                }
            },
        }
    }
}

/// The set of job IDs named by the latest active records: those whose
/// `job_id` field is present and reads as the given number.
pub open spec fn is_active_id(ams: Seq<Map<Seq<char>, Seq<char>>>, id: u64) -> bool {
    exists|k: int|
        0 <= k < ams.len() && #[trigger] ams[k].contains_key("job_id"@) && parsed_u64(
            ams[k]["job_id"@],
        ) == Some(id)
}

/// The maps of a sequence of records.
pub open spec fn maps_v(s: Seq<FieldMap>) -> Seq<Map<Seq<char>, Seq<char>>> {
    s.map_values(|f: FieldMap| f@)
}

/// The row `r0` stamped Ended at `now`.
pub open spec fn ended_row(r0: JobRowV, now: u64) -> JobRowV {
    JobRowV { state: "E"@, end_time: now, ..r0 }
}

/// The relational store, in memory: jobs, their samples, users, groups,
/// memberships, and the advisory group-membership cache.
pub struct DB {
    jobs: Vec<JobRow>,
    stats: Vec<StatSample>,
    users: Vec<String>,
    groups: Vec<String>,
    user_groups: Vec<(String, String)>,
    groups_cache: Vec<(String, Vec<String>)>,
}

impl DB {
    /// The values of the job rows, in insertion order.
    pub closed spec fn jobs_v(&self) -> Seq<JobRowV> {
        rows_v(self.jobs@)
    }

    /// The appended samples, oldest first.
    pub closed spec fn stats_v(&self) -> Seq<StatSample> {
        self.stats@
    }

    /// The known user names, in first-seen order.
    pub closed spec fn users_v(&self) -> Seq<Seq<char>> {
        strs_v(self.users@)
    }

    /// The known group names.
    pub closed spec fn groups_v(&self) -> Seq<Seq<char>> {
        strs_v(self.groups@)
    }

    /// The membership edges, as (user, group) pairs.
    pub closed spec fn user_groups_v(&self) -> Seq<(Seq<char>, Seq<char>)> {
        Seq::new(self.user_groups@.len(), |i: int| (self.user_groups@[i].0@, self.user_groups@[i].1@))
    }

    /// The cache: per user, the group names last observed.
    pub closed spec fn cache_v(&self) -> Seq<(Seq<char>, Seq<Seq<char>>)> {
        Seq::new(self.groups_cache@.len(), |i: int| (self.groups_cache@[i].0@, strs_v(self.groups_cache@[i].1@)))
    }

    /// An empty store.
    pub fn new() -> (r: DB)
        ensures
            r.jobs_v() == Seq::<JobRowV>::empty(),
            r.stats_v() == Seq::<StatSample>::empty(),
            r.users_v() == Seq::<Seq<char>>::empty(),
            r.groups_v() == Seq::<Seq<char>>::empty(),
            r.user_groups_v() == Seq::<(Seq<char>, Seq<char>)>::empty(),
            r.cache_v() == Seq::<(Seq<char>, Seq<Seq<char>>)>::empty(),
    {
        let r = DB {
            jobs: Vec::new(),
            stats: Vec::new(),
            users: Vec::new(),
            groups: Vec::new(),
            user_groups: Vec::new(),
            groups_cache: Vec::new(),
        };
        proof {
            assert(r.jobs_v() =~= Seq::<JobRowV>::empty());
            assert(r.users_v() =~= Seq::<Seq<char>>::empty());
            assert(r.groups_v() =~= Seq::<Seq<char>>::empty());
            assert(r.user_groups_v() =~= Seq::<(Seq<char>, Seq<char>)>::empty());
            assert(r.cache_v() =~= Seq::<(Seq<char>, Seq<Seq<char>>)>::empty());
        }
        r
    }

    /// Whether `name` is a known user.
    fn has_user_exec(&self, name: &str) -> (r: bool)
        ensures
            r == has_user(self.users_v(), name@),
    {
        let n: usize = self.users.len();
        let mut i: usize = 0;
        while i < n
            invariant
                0 <= i <= n,
                n == self.users@.len(),
                forall|j: int| 0 <= j < i ==> strs_v(self.users@)[j] != name@,
            decreases n - i,
        {
            if str_eq(self.users[i].as_str(), name) {
                proof {
                    assert(strs_v(self.users@)[i as int] == name@);
                }
                return true;
            }
            i = i + 1;
        }
        false
    }

    /// Insert-or-replace the record's job row by ID; create its owner as a
    /// user when unseen; append one usage sample stamped `now`. A record
    /// missing a required field is refused whole, the store untouched.
    pub fn insert_job(&mut self, job: &FieldMap, now: u64) -> (r: Result<(), StoreError>)
        ensures
            match r {
                Ok(_) => {
                    &&& row_from_record(job@) is Some
                    &&& final (self).jobs_v() == upsert_rows(
                        old(self).jobs_v(),
                        row_from_record(job@)->0,
                    )
                    &&& final (self).users_v() == insert_unique(
                        old(self).users_v(),
                        row_from_record(job@)->0.owner,
                    )
                    &&& final (self).stats_v() == old(self).stats_v().push(
                        sample_of(row_from_record(job@)->0, now),
                    )
                    &&& final (self).groups_v() == old(self).groups_v()
                    &&& final (self).user_groups_v() == old(self).user_groups_v()
                    &&& final (self).cache_v() == old(self).cache_v()
                },
                Err(_) => {
                    &&& row_from_record(job@) is None
                    &&& final (self).jobs_v() == old(self).jobs_v()
                    &&& final (self).users_v() == old(self).users_v()
                    &&& final (self).stats_v() == old(self).stats_v()
                    &&& final (self).groups_v() == old(self).groups_v()
                    &&& final (self).user_groups_v() == old(self).user_groups_v()
                    &&& final (self).cache_v() == old(self).cache_v()
                },
            },
    {
        let row = match build_job_row(job) {
            Ok(row) => row,
            Err(e) => {
                return Err(e);
            },
        };
        let ghost rv = row@;
        // The owner becomes a user the first time it is seen.
        if !self.has_user_exec(row.owner.as_str()) {
            let ghost pre = self.users@;
            self.users.push(row.owner.clone());
            proof {
                assert(strs_v(self.users@) =~= strs_v(pre).push(row.owner@));
            }
        }
        // One appended sample per successful ingestion.
        self.stats.push(
            StatSample {
                pbs_id: row.pbs_id,
                cpu_percent: row.cpu_efficiency,
                mem: row.used_mem,
                datetime: now,
            },
        );
        // Insert or replace the row by ID.
        let n: usize = self.jobs.len();
        let mut i: usize = 0;
        let ghost pre_rows = rows_v(self.jobs@);
        while i < n
            invariant
                0 <= i <= n,
                n == self.jobs@.len(),
                pre_rows == rows_v(self.jobs@),
                pre_rows == old(self).jobs_v(),
                rv == row@,
                row_from_record(job@) == Some(rv),
                strs_v(self.users@) == insert_unique(old(self).users_v(), rv.owner),
                self.stats@ == old(self).stats_v().push(sample_of(rv, now)),
                self.groups@ == old(self).groups@,
                self.user_groups@ == old(self).user_groups@,
                self.groups_cache@ == old(self).groups_cache@,
                forall|j: int| 0 <= j < i ==> pre_rows[j].pbs_id != rv.pbs_id,
            decreases n - i,
        {
            if self.jobs[i].pbs_id == row.pbs_id {
                proof {
                    assert(pre_rows[i as int].pbs_id == rv.pbs_id);
                    lemma_id_index_at(pre_rows, rv.pbs_id, i as int);
                }
                self.jobs[i] = row;
                proof {
                    assert(rows_v(self.jobs@) =~= pre_rows.update(i as int, rv));
                }
                return Ok(());
            }
            i = i + 1;
        }
        proof {
            lemma_id_index_none(pre_rows, rv.pbs_id);
        }
        self.jobs.push(row);
        proof {
            assert(rows_v(self.jobs@) =~= pre_rows.push(rv));
        }
        Ok(())
    }

    /// Whether some active record names `id` as its job ID.
    fn contains_active(active: &Vec<FieldMap>, id: u64) -> (r: bool)
        ensures
            r == is_active_id(maps_v(active@), id),
    {
        let n: usize = active.len();
        let mut k: usize = 0;
        while k < n
            invariant
                0 <= k <= n,
                n == active@.len(),
                forall|j: int|
                    0 <= j < k ==> !(#[trigger] maps_v(active@)[j].contains_key("job_id"@)
                        && parsed_u64(maps_v(active@)[j]["job_id"@]) == Some(id)),
            decreases n - k,
        {
            match active[k].get("job_id") {
                Some(v) => {
                    match parse_u64(v.as_str()) {
                        Some(x) => {
                            if x == id {
                                proof {
                                    assert(maps_v(active@)[k as int] == active@[k as int]@);
                                }
                                return true;
                            }
                        },
                        None => {},
                    }
                },
                None => {},
            }
            proof {
                assert(maps_v(active@)[k as int] == active@[k as int]@);
            }
            k = k + 1;
        }
        false
    }

    /// Completion reconciliation: every Running row whose ID is absent from
    /// the latest active set is stamped Ended at `now`, exactly once; a row
    /// that is still active, or not Running, is untouched. Nothing else in
    /// the store changes.
    pub fn mark_completed_jobs(&mut self, active_jobs: &Vec<FieldMap>, now: u64)
        ensures
            final (self).jobs_v().len() == old(self).jobs_v().len(),
            forall|i: int|
                0 <= i < old(self).jobs_v().len() ==> #[trigger] final (self).jobs_v()[i] == ({
                    let r0 = old(self).jobs_v()[i];
                    if r0.state == "R"@ && !is_active_id(maps_v(active_jobs@), r0.pbs_id) {
                        ended_row(r0, now)
                    } else {
                        r0
                    }
                }),
            final (self).stats_v() == old(self).stats_v(),
            final (self).users_v() == old(self).users_v(),
            final (self).groups_v() == old(self).groups_v(),
            final (self).user_groups_v() == old(self).user_groups_v(),
            final (self).cache_v() == old(self).cache_v(),
    {
        let n: usize = self.jobs.len();
        let mut i: usize = 0;
        while i < n
            invariant
                0 <= i <= n,
                n == self.jobs@.len(),
                self.jobs@.len() == old(self).jobs_v().len(),
                self.stats@ == old(self).stats_v(),
                self.users@ == old(self).users@,
                self.groups@ == old(self).groups@,
                self.user_groups@ == old(self).user_groups@,
                self.groups_cache@ == old(self).groups_cache@,
                forall|j: int|
                    i <= j < n ==> #[trigger] rows_v(self.jobs@)[j] == old(self).jobs_v()[j],
                forall|j: int|
                    0 <= j < i ==> #[trigger] rows_v(self.jobs@)[j] == ({
                        let r0 = old(self).jobs_v()[j];
                        if r0.state == "R"@ && !is_active_id(maps_v(active_jobs@), r0.pbs_id) {
                            ended_row(r0, now)
                        } else {
                            r0
                        }
                    }),
            decreases n - i,
        {
            let is_running: bool = str_eq(self.jobs[i].state.as_str(), "R");
            if is_running && !Self::contains_active(active_jobs, self.jobs[i].pbs_id) {
                let ghost pre = self.jobs@;
                let mut updated = self.jobs[i].duplicate();
                updated.state = "E".to_owned();
                updated.end_time = now;
                proof {
                    assert(updated@ == ended_row(rows_v(pre)[i as int], now));
                }
                self.jobs[i] = updated;
                proof {
                    assert(forall|j: int|
                        0 <= j < n && j != i ==> #[trigger] rows_v(self.jobs@)[j] == rows_v(
                            pre,
                        )[j]);
                }
            }
            i = i + 1;
        }
        proof {
            assert(self.users_v() =~= old(self).users_v());
        }
    }
}

/// The conjunctive filters of the job queries: a row passes when every
/// filter that is set agrees with it.
pub open spec fn job_filters_pass(
    r: JobRowV,
    states: Option<Seq<Seq<char>>>,
    queue: Option<Seq<char>>,
    owner: Option<Seq<char>>,
    name: Option<Seq<char>>,
    min_start: Option<u64>,
) -> bool {
    &&& match states {
        Some(ss) => exists|k: int| 0 <= k < ss.len() && ss[k] == r.state,
        None => true,
    }
    &&& match queue {
        Some(q) => r.queue == q,
        None => true,
    }
    &&& match owner {
        Some(o) => r.owner == o,
        None => true,
    }
    &&& match name {
        Some(nm) => r.name == nm,
        None => true,
    }
    &&& match min_start {
        Some(d) => r.start_time >= d,
        None => true,
    }
}

/// The rows that pass the filters, in order, owners censored on request.
pub open spec fn filtered_rows(
    s: Seq<JobRowV>,
    restrict_owner: Option<Seq<char>>,
    states: Option<Seq<Seq<char>>>,
    queue: Option<Seq<char>>,
    owner: Option<Seq<char>>,
    name: Option<Seq<char>>,
    min_start: Option<u64>,
    censored: bool,
) -> Seq<JobRowV>
    decreases s.len(),
{
    if s.len() == 0 {
        Seq::empty()
    } else {
        let keep = job_filters_pass(s[0], states, queue, owner, name, min_start) && match restrict_owner {
            Some(u) => s[0].owner == u,
            None => true,
        };
        let rest = filtered_rows(s.drop_first(), restrict_owner, states, queue, owner, name, min_start, censored);
        if keep {
            seq![if censored {
                JobRowV { owner: "REDACTED"@, ..s[0] }
            } else {
                s[0]
            }] + rest
        } else {
            rest
        }
    }
}

/// The view of an optional borrowed filter string.
pub open spec fn opt_v(o: Option<&String>) -> Option<Seq<char>> {
    match o {
        Some(s) => Some(s@),
        None => None,
    }
}

/// The views of an optional borrowed list of filter strings.
pub open spec fn opt_vv(o: Option<&Vec<String>>) -> Option<Seq<Seq<char>>> {
    match o {
        Some(ss) => Some(ss.deep_view()),
        None => None,
    }
}

impl DB {
    /// Whether the row passes the given filters.
    fn row_passes(
        row: &JobRow,
        filter_states: Option<&Vec<String>>,
        filter_queue: Option<&String>,
        filter_owner: Option<&String>,
        filter_name: Option<&String>,
        filter_date: Option<u64>,
    ) -> (r: bool)
        ensures
            r == job_filters_pass(
                row@,
                opt_vv(filter_states),
                opt_v(filter_queue),
                opt_v(filter_owner),
                opt_v(filter_name),
                filter_date,
            ),
    {
        let state_ok: bool = match filter_states {
            Some(ss) => {
                let mut found = false;
                let m: usize = ss.len();
                let mut k: usize = 0;
                while k < m
                    invariant
                        0 <= k <= m,
                        m == ss@.len(),
                        !found ==> forall|j: int| 0 <= j < k ==> ss.deep_view()[j] != row@.state,
                        found ==> exists|j: int|
                            0 <= j < ss.deep_view().len() && ss.deep_view()[j] == row@.state,
                    decreases m - k,
                {
                    if str_eq(ss[k].as_str(), row.state.as_str()) {
                        found = true;
                        proof {
                            assert(ss.deep_view()[k as int] == row@.state);
                        }
                        k = m;
                    } else {
                        k = k + 1;
                    }
                }
                found
            },
            None => true,
        };
        let queue_ok: bool = match filter_queue {
            Some(q) => str_eq(q.as_str(), row.queue.as_str()),
            None => true,
        };
        let owner_ok: bool = match filter_owner {
            Some(o) => str_eq(o.as_str(), row.owner.as_str()),
            None => true,
        };
        let name_ok: bool = match filter_name {
            Some(nm) => str_eq(nm.as_str(), row.name.as_str()),
            None => true,
        };
        let date_ok: bool = match filter_date {
            Some(d) => row.start_time >= d,
            None => true,
        };
        state_ok && queue_ok && owner_ok && name_ok && date_ok
    }

    /// The shared query loop: rows that pass the filters, in order, owners
    /// censored on request, and restricted to one owner when asked.
    #[verifier::rlimit(60)]
    fn query_jobs(
        &self,
        restrict_owner: Option<&String>,
        filter_states: Option<&Vec<String>>,
        filter_queue: Option<&String>,
        filter_owner: Option<&String>,
        filter_name: Option<&String>,
        filter_date: Option<u64>,
        censored: bool,
    ) -> (r: Vec<JobRow>)
        ensures
            rows_v(r@) == filtered_rows(
                self.jobs_v(),
                opt_v(restrict_owner),
                opt_vv(filter_states),
                opt_v(filter_queue),
                opt_v(filter_owner),
                opt_v(filter_name),
                filter_date,
                censored,
            ),
    {
        let ghost sts = opt_vv(filter_states);
        let ghost fq = opt_v(filter_queue);
        let ghost fo = opt_v(filter_owner);
        let ghost fnm = opt_v(filter_name);
        let ghost ro = opt_v(restrict_owner);
        let ghost all = self.jobs_v();
        let ghost whole = filtered_rows(all, ro, sts, fq, fo, fnm, filter_date, censored);
        let n: usize = self.jobs.len();
        let mut out: Vec<JobRow> = Vec::new();
        let mut i: usize = 0;
        proof {
            assert(all.skip(0) =~= all);
        }
        while i < n
            invariant
                0 <= i <= n,
                n == self.jobs@.len(),
                all == self.jobs_v(),
                whole == filtered_rows(all, ro, sts, fq, fo, fnm, filter_date, censored),
                sts == opt_vv(filter_states),
                fq == opt_v(filter_queue),
                fo == opt_v(filter_owner),
                fnm == opt_v(filter_name),
                ro == opt_v(restrict_owner),
                rows_v(out@).len() + filtered_rows(
                    all.skip(i as int),
                    ro,
                    sts,
                    fq,
                    fo,
                    fnm,
                    filter_date,
                    censored,
                ).len() == whole.len(),
                forall|k: int| 0 <= k < out@.len() ==> #[trigger] rows_v(out@)[k] == whole[k],
                forall|k: int|
                    0 <= k < filtered_rows(
                        all.skip(i as int),
                        ro,
                        sts,
                        fq,
                        fo,
                        fnm,
                        filter_date,
                        censored,
                    ).len() ==> #[trigger] filtered_rows(
                        all.skip(i as int),
                        ro,
                        sts,
                        fq,
                        fo,
                        fnm,
                        filter_date,
                        censored,
                    )[k] == whole[out@.len() + k],
            decreases n - i,
        {
            proof {
                assert(all.skip(i as int)[0] == all[i as int]);
                assert(all.skip(i as int).drop_first() =~= all.skip(i + 1));
            }
            let mut passes = Self::row_passes(
                &self.jobs[i],
                filter_states,
                filter_queue,
                filter_owner,
                filter_name,
                filter_date,
            );
            match restrict_owner {
                Some(u) => {
                    if !str_eq(self.jobs[i].owner.as_str(), u.as_str()) {
                        passes = false;
                    }
                },
                None => {},
            }
            if passes {
                let mut picked = self.jobs[i].duplicate();
                if censored {
                    picked.owner = "REDACTED".to_owned();
                }
                let ghost old_len = out@.len();
                let ghost suffix = filtered_rows(
                    all.skip(i as int),
                    ro,
                    sts,
                    fq,
                    fo,
                    fnm,
                    filter_date,
                    censored,
                );
                proof {
                    assert(suffix =~= seq![picked@] + filtered_rows(
                        all.skip(i + 1),
                        ro,
                        sts,
                        fq,
                        fo,
                        fnm,
                        filter_date,
                        censored,
                    ));
                    assert(suffix[0] == picked@);
                    assert(whole[old_len as int] == picked@);
                }
                let ghost pre_out = out@;
                let ghost pv = picked@;
                out.push(picked);
                proof {
                    assert(rows_v(out@) =~= rows_v(pre_out).push(pv));
                    assert(forall|k: int|
                        0 <= k < filtered_rows(
                            all.skip(i + 1),
                            ro,
                            sts,
                            fq,
                            fo,
                            fnm,
                            filter_date,
                            censored,
                        ).len() ==> #[trigger] filtered_rows(
                            all.skip(i + 1),
                            ro,
                            sts,
                            fq,
                            fo,
                            fnm,
                            filter_date,
                            censored,
                        )[k] == suffix[k + 1]);
                }
            }
            i = i + 1;
        }
        proof {
            assert(all.skip(n as int) =~= Seq::<JobRowV>::empty());
            assert(rows_v(out@) =~= whole);
        }
        out
    }

    /// One user's jobs, with the optional conjunctive filters applied:
    /// state, queue, owner, name, and a minimum start time.
    pub fn get_user_jobs(
        &self,
        username: &str,
        filter_state: Option<&String>,
        filter_queue: Option<&String>,
        filter_owner: Option<&String>,
        filter_name: Option<&String>,
        filter_date: Option<u64>,
    ) -> (r: Vec<JobRow>)
        ensures
            rows_v(r@) == filtered_rows(
                self.jobs_v(),
                Some(username@),
                match opt_v(filter_state) {
                    Some(s) => Some(seq![s]),
                    None => None,
                },
                opt_v(filter_queue),
                opt_v(filter_owner),
                opt_v(filter_name),
                filter_date,
                false,
            ),
    {
        let u: String = username.to_owned();
        match filter_state {
            Some(s) => {
                let mut states: Vec<String> = Vec::new();
                states.push(s.clone());
                proof {
                    assert(states.deep_view() =~= seq![s@]);
                }
                self.query_jobs(
                    Some(&u),
                    Some(&states),
                    filter_queue,
                    filter_owner,
                    filter_name,
                    filter_date,
                    false,
                )
            },
            None => self.query_jobs(
                Some(&u),
                None,
                filter_queue,
                filter_owner,
                filter_name,
                filter_date,
                false,
            ),
        }
    }

    /// Every job that passes the optional conjunctive filters: a set of
    /// states, queue, owner, name, and a minimum start time. With `censored`
    /// set, each returned row carries the redaction token as its owner.
    pub fn get_all_jobs(
        &self,
        filter_states: Option<&Vec<String>>,
        filter_queue: Option<&String>,
        filter_owner: Option<&String>,
        filter_name: Option<&String>,
        filter_date: Option<u64>,
        censored: bool,
    ) -> (r: Vec<JobRow>)
        ensures
            rows_v(r@) == filtered_rows(
                self.jobs_v(),
                None,
                opt_vv(filter_states),
                opt_v(filter_queue),
                opt_v(filter_owner),
                opt_v(filter_name),
                filter_date,
                censored,
            ),
    {
        self.query_jobs(
            None,
            filter_states,
            filter_queue,
            filter_owner,
            filter_name,
            filter_date,
            censored,
        )
    }

    /// The row for `pbs_id`, when the store has one.
    pub fn get_job(&self, pbs_id: u64) -> (r: Result<JobRow, StoreError>)
        ensures
            match r {
                Ok(row) => match id_index(self.jobs_v(), pbs_id) {
                    Some(i) => row@ == self.jobs_v()[i],
                    None => false,
                },
                Err(_) => id_index(self.jobs_v(), pbs_id) is None,
            },
    {
        let n: usize = self.jobs.len();
        let mut i: usize = 0;
        while i < n
            invariant
                0 <= i <= n,
                n == self.jobs@.len(),
                forall|j: int| 0 <= j < i ==> rows_v(self.jobs@)[j].pbs_id != pbs_id,
            decreases n - i,
        {
            if self.jobs[i].pbs_id == pbs_id {
                proof {
                    assert(rows_v(self.jobs@)[i as int].pbs_id == pbs_id);
                    lemma_id_index_at(rows_v(self.jobs@), pbs_id, i as int);
                }
                return Ok(self.jobs[i].duplicate());
            }
            i = i + 1;
        }
        proof {
            lemma_id_index_none(rows_v(self.jobs@), pbs_id);
        }
        Err(StoreError { reason: "no such job".to_owned() })
    }

    /// The appended samples of one job, oldest first.
    pub fn get_job_stats(&self, pbs_id: u64) -> (r: Vec<StatSample>)
        ensures
            r@ == stats_for(self.stats_v(), pbs_id),
    {
        let ghost all = self.stats@;
        let ghost whole = stats_for(all, pbs_id);
        let n: usize = self.stats.len();
        let mut out: Vec<StatSample> = Vec::new();
        let mut i: usize = 0;
        proof {
            assert(all.skip(0) =~= all);
        }
        while i < n
            invariant
                0 <= i <= n,
                n == self.stats@.len(),
                all == self.stats@,
                whole == stats_for(all, pbs_id),
                out@.len() + stats_for(all.skip(i as int), pbs_id).len() == whole.len(),
                forall|k: int| 0 <= k < out@.len() ==> #[trigger] out@[k] == whole[k],
                forall|k: int|
                    0 <= k < stats_for(all.skip(i as int), pbs_id).len() ==> #[trigger] stats_for(
                        all.skip(i as int),
                        pbs_id,
                    )[k] == whole[out@.len() + k],
            decreases n - i,
        {
            proof {
                assert(all.skip(i as int)[0] == all[i as int]);
                assert(all.skip(i as int).drop_first() =~= all.skip(i + 1));
            }
            if self.stats[i].pbs_id == pbs_id {
                let ghost old_len = out@.len();
                proof {
                    assert(stats_for(all.skip(i as int), pbs_id) =~= seq![all[i as int]]
                        + stats_for(all.skip(i + 1), pbs_id));
                    assert(stats_for(all.skip(i as int), pbs_id)[0] == all[i as int]);
                    assert(whole[old_len as int] == all[i as int]);
                }
                out.push(self.stats[i]);
                proof {
                    assert(forall|k: int|
                        0 <= k < stats_for(all.skip(i + 1), pbs_id).len() ==> #[trigger] stats_for(
                            all.skip(i + 1),
                            pbs_id,
                        )[k] == stats_for(all.skip(i as int), pbs_id)[k + 1]);
                }
            }
            i = i + 1;
        }
        proof {
            assert(all.skip(n as int) =~= Seq::<StatSample>::empty());
            assert(out@ =~= whole);
        }
        out
    }

    /// Every known user name, in first-seen order.
    pub fn get_users(&self) -> (r: Vec<String>)
        ensures
            strs_v(r@) == self.users_v(),
    {
        let n: usize = self.users.len();
        let mut out: Vec<String> = Vec::new();
        let mut i: usize = 0;
        while i < n
            invariant
                0 <= i <= n,
                n == self.users@.len(),
                out@.len() == i,
                forall|k: int| 0 <= k < i ==> #[trigger] out@[k]@ == self.users@[k]@,
            decreases n - i,
        {
            out.push(self.users[i].clone());
            i = i + 1;
        }
        proof {
            assert(strs_v(out@) =~= self.users_v());
        }
        out
    }

    /// The groups one user belongs to, in insertion order.
    pub fn _get_user_groups(&self, username: &str) -> (r: Vec<String>)
        ensures
            strs_v(r@) == groups_of(self.user_groups_v(), username@),
    {
        let ghost all = self.user_groups_v();
        let ghost whole = groups_of(all, username@);
        let n: usize = self.user_groups.len();
        let mut out: Vec<String> = Vec::new();
        let mut i: usize = 0;
        proof {
            assert(all.skip(0) =~= all);
        }
        while i < n
            invariant
                0 <= i <= n,
                n == self.user_groups@.len(),
                all == self.user_groups_v(),
                whole == groups_of(all, username@),
                strs_v(out@).len() + groups_of(all.skip(i as int), username@).len() == whole.len(),
                forall|k: int| 0 <= k < out@.len() ==> #[trigger] strs_v(out@)[k] == whole[k],
                forall|k: int|
                    0 <= k < groups_of(all.skip(i as int), username@).len() ==> #[trigger] groups_of(
                        all.skip(i as int),
                        username@,
                    )[k] == whole[strs_v(out@).len() + k],
            decreases n - i,
        {
            proof {
                assert(all.skip(i as int)[0] == all[i as int]);
                assert(all.skip(i as int).drop_first() =~= all.skip(i + 1));
            }
            if str_eq(self.user_groups[i].0.as_str(), username) {
                let ghost old_len = out@.len();
                let picked: String = self.user_groups[i].1.clone();
                proof {
                    assert(all[i as int].0 == username@);
                    assert(groups_of(all.skip(i as int), username@) =~= seq![all[i as int].1]
                        + groups_of(all.skip(i + 1), username@));
                    assert(groups_of(all.skip(i as int), username@)[0] == all[i as int].1);
                    assert(whole[old_len as int] == picked@);
                }
                let ghost pre_out = out@;
                let ghost pv = picked@;
                out.push(picked);
                proof {
                    assert(strs_v(out@) =~= strs_v(pre_out).push(pv));
                    assert(forall|k: int|
                        0 <= k < groups_of(all.skip(i + 1), username@).len()
                            ==> #[trigger] groups_of(all.skip(i + 1), username@)[k] == groups_of(
                            all.skip(i as int),
                            username@,
                        )[k + 1]);
                }
            } else {
                proof {
                    assert(all[i as int].0 != username@);
                }
            }
            i = i + 1;
        }
        proof {
            assert(all.skip(n as int) =~= Seq::<(Seq<char>, Seq<char>)>::empty());
            assert(strs_v(out@) =~= whole);
        }
        out
    }

    /// Whether the membership edge (user, group) is recorded.
    pub fn _is_user_in_group(&self, user: &str, group: &str) -> (r: bool)
        ensures
            r == in_group(self.user_groups_v(), user@, group@),
    {
        let n: usize = self.user_groups.len();
        let mut i: usize = 0;
        while i < n
            invariant
                0 <= i <= n,
                n == self.user_groups@.len(),
                forall|j: int|
                    0 <= j < i ==> #[trigger] self.user_groups_v()[j] != (user@, group@),
            decreases n - i,
        {
            if str_eq(self.user_groups[i].0.as_str(), user) && str_eq(
                self.user_groups[i].1.as_str(),
                group,
            ) {
                proof {
                    assert(self.user_groups_v()[i as int] == (user@, group@));
                }
                return true;
            }
            proof {
                assert(self.user_groups_v()[i as int] != (user@, group@));
            }
            i = i + 1;
        }
        false
    }

    /// Administrators are the members of the `hpc` group.
    pub fn _is_user_admin(&self, user: &str) -> (r: bool)
        ensures
            r == in_group(self.user_groups_v(), user@, "hpc"@),
    {
        self._is_user_in_group(user, "hpc")
    }
}

/// `(u, g)` is a recorded membership edge.
pub open spec fn in_group(ugv: Seq<(Seq<char>, Seq<char>)>, u: Seq<char>, g: Seq<char>) -> bool {
    exists|i: int| 0 <= i < ugv.len() && ugv[i] == (u, g)
}

/// The group names recorded for `user`, in order.
pub open spec fn groups_of(ugv: Seq<(Seq<char>, Seq<char>)>, user: Seq<char>) -> Seq<Seq<char>>
    decreases ugv.len(),
{
    if ugv.len() == 0 {
        Seq::empty()
    } else if ugv[0].0 == user {
        seq![ugv[0].1] + groups_of(ugv.drop_first(), user)
    } else {
        groups_of(ugv.drop_first(), user)
    }
}

/// The samples recorded for one job, in order.
pub open spec fn stats_for(s: Seq<StatSample>, id: u64) -> Seq<StatSample>
    decreases s.len(),
{
    if s.len() == 0 {
        Seq::empty()
    } else if s[0].pbs_id == id {
        seq![s[0]] + stats_for(s.drop_first(), id)
    } else {
        stats_for(s.drop_first(), id)
    }
}

/// Two users share at least one recorded group.
pub open spec fn shares_group(ugv: Seq<(Seq<char>, Seq<char>)>, a: Seq<char>, b: Seq<char>) -> bool {
    exists|i: int, j: int|
        0 <= i < ugv.len() && 0 <= j < ugv.len() && (#[trigger] ugv[i]).0 == a
            && (#[trigger] ugv[j]).0 == b && ugv[i].1 == ugv[j].1
}

/// The membership pairs with `(u, g)` added, once.
pub open spec fn insert_pair(
    ugv: Seq<(Seq<char>, Seq<char>)>,
    u: Seq<char>,
    g: Seq<char>,
) -> Seq<(Seq<char>, Seq<char>)> {
    if in_group(ugv, u, g) {
        ugv
    } else {
        ugv.push((u, g))
    }
}

/// The relational effect of recording one user's groups in order: each
/// group name and each membership edge inserted once.
pub open spec fn groups_after(gv: Seq<Seq<char>>, gs: Seq<Seq<char>>) -> Seq<Seq<char>>
    decreases gs.len(),
{
    if gs.len() == 0 {
        gv
    } else {
        groups_after(insert_unique(gv, gs[0]), gs.drop_first())
    }
}

/// The membership edges after recording one user's groups in order.
pub open spec fn ugs_after(
    ugv: Seq<(Seq<char>, Seq<char>)>,
    u: Seq<char>,
    gs: Seq<Seq<char>>,
) -> Seq<(Seq<char>, Seq<char>)>
    decreases gs.len(),
{
    if gs.len() == 0 {
        ugv
    } else {
        ugs_after(insert_pair(ugv, u, gs[0]), u, gs.drop_first())
    }
}

/// The first cache entry for `u`, if any.
pub open spec fn cache_index(c: Seq<(Seq<char>, Seq<Seq<char>>)>, u: Seq<char>) -> Option<int>
    decreases c.len(),
{
    if c.len() == 0 {
        None
    } else if c[0].0 == u {
        Some(0)
    } else {
        match cache_index(c.drop_first(), u) {
            Some(j) => Some(j + 1),
            None => None,
        }
    }
}

/// The cache with the entry for `u` replaced by `gs`, or appended.
pub open spec fn cache_upsert(
    c: Seq<(Seq<char>, Seq<Seq<char>>)>,
    u: Seq<char>,
    gs: Seq<Seq<char>>,
) -> Seq<(Seq<char>, Seq<Seq<char>>)> {
    match cache_index(c, u) {
        Some(i) => c.update(i, (u, gs)),
        None => c.push((u, gs)),
    }
}

/// A first cache match at `i` pins the index down.
proof fn lemma_cache_index_at(c: Seq<(Seq<char>, Seq<Seq<char>>)>, u: Seq<char>, i: int)
    requires
        0 <= i < c.len(),
        c[i].0 == u,
        forall|j: int| 0 <= j < i ==> c[j].0 != u,
    ensures
        cache_index(c, u) == Some(i),
    decreases i,
{
    if i > 0 {
        let t = c.drop_first();
        assert(forall|j: int| 0 <= j < i - 1 ==> t[j].0 != u);
        lemma_cache_index_at(t, u, i - 1);
    }
}

/// No cache match anywhere means no index.
proof fn lemma_cache_index_none(c: Seq<(Seq<char>, Seq<Seq<char>>)>, u: Seq<char>)
    requires
        forall|j: int| 0 <= j < c.len() ==> c[j].0 != u,
    ensures
        cache_index(c, u) is None,
    decreases c.len(),
{
    if c.len() > 0 {
        lemma_cache_index_none(c.drop_first(), u);
    }
}

/// The cache entries that a runtime cache denotes.
pub open spec fn cache_view_of(v: Seq<(String, Vec<String>)>) -> Seq<(Seq<char>, Seq<Seq<char>>)> {
    Seq::new(v.len(), |i: int| (v[i].0@, strs_v(v[i].1@)))
}

impl DB {
    /// Whether `user` may see another job's detailed statistics: an
    /// administrator may always; otherwise the job must exist and belong to
    /// `user` or to someone sharing a group with `user`.
    pub fn _is_user_able_to_view_stats(&self, user: &str, pbs_id: u64) -> (r: bool)
        ensures
            r == (in_group(self.user_groups_v(), user@, "hpc"@) || exists|i: int|
                0 <= i < self.jobs_v().len() && (#[trigger] self.jobs_v()[i]).pbs_id == pbs_id && (
                self.jobs_v()[i].owner == user@ || shares_group(
                    self.user_groups_v(),
                    self.jobs_v()[i].owner,
                    user@,
                ))),
    {
        if self._is_user_admin(user) {
            return true;
        }
        let n: usize = self.jobs.len();
        let mut i: usize = 0;
        while i < n
            invariant
                0 <= i <= n,
                n == self.jobs@.len(),
                forall|j: int|
                    0 <= j < i ==> !((#[trigger] self.jobs_v()[j]).pbs_id == pbs_id && (
                    self.jobs_v()[j].owner == user@ || shares_group(
                        self.user_groups_v(),
                        self.jobs_v()[j].owner,
                        user@,
                    ))),
            decreases n - i,
        {
            if self.jobs[i].pbs_id == pbs_id {
                if str_eq(self.jobs[i].owner.as_str(), user) {
                    proof {
                        assert(self.jobs_v()[i as int].pbs_id == pbs_id);
                        assert(self.jobs_v()[i as int].owner == user@);
                    }
                    return true;
                }
                if self.shares_group_exec(self.jobs[i].owner.as_str(), user) {
                    proof {
                        assert(self.jobs_v()[i as int].pbs_id == pbs_id);
                    }
                    return true;
                }
            }
            proof {
                assert(self.jobs_v()[i as int] == self.jobs@[i as int]@);
            }
            i = i + 1;
        }
        false
    }

    /// Whether two users share a recorded group.
    fn shares_group_exec(&self, a: &str, b: &str) -> (r: bool)
        ensures
            r == shares_group(self.user_groups_v(), a@, b@),
    {
        let n: usize = self.user_groups.len();
        let mut i: usize = 0;
        while i < n
            invariant
                0 <= i <= n,
                n == self.user_groups@.len(),
                forall|x: int, y: int|
                    0 <= x < i && 0 <= y < n ==> !((#[trigger] self.user_groups_v()[x]).0 == a@ && (
                    #[trigger] self.user_groups_v()[y]).0 == b@ && self.user_groups_v()[x].1
                        == self.user_groups_v()[y].1),
            decreases n - i,
        {
            if str_eq(self.user_groups[i].0.as_str(), a) {
                let mut j: usize = 0;
                while j < n
                    invariant
                        0 <= j <= n,
                        n == self.user_groups@.len(),
                        i < n,
                        self.user_groups_v()[i as int].0 == a@,
                        forall|y: int|
                            0 <= y < j ==> !((#[trigger] self.user_groups_v()[y]).0 == b@
                                && self.user_groups_v()[i as int].1 == self.user_groups_v()[y].1),
                    decreases n - j,
                {
                    if str_eq(self.user_groups[j].0.as_str(), b) && str_eq(
                        self.user_groups[j].1.as_str(),
                        self.user_groups[i].1.as_str(),
                    ) {
                        proof {
                            assert(self.user_groups_v()[j as int].0 == b@);
                            assert(self.user_groups_v()[i as int].1
                                == self.user_groups_v()[j as int].1);
                        }
                        return true;
                    }
                    proof {
                        assert(self.user_groups_v()[j as int] == (self.user_groups@[j as int].0@,
                        self.user_groups@[j as int].1@));
                    }
                    j = j + 1;
                }
            }
            proof {
                assert(self.user_groups_v()[i as int] == (self.user_groups@[i as int].0@,
                self.user_groups@[i as int].1@));
            }
            i = i + 1;
        }
        false
    }

    /// Records one membership edge, idempotently: the group name and the
    /// (user, group) pair are each inserted once.
    pub fn insert_user_group(&mut self, user: &str, group: &str)
        ensures
            final (self).groups_v() == insert_unique(old(self).groups_v(), group@),
            final (self).user_groups_v() == insert_pair(old(self).user_groups_v(), user@, group@),
            final (self).jobs_v() == old(self).jobs_v(),
            final (self).stats_v() == old(self).stats_v(),
            final (self).users_v() == old(self).users_v(),
            final (self).cache_v() == old(self).cache_v(),
    {
        // The group name, once.
        let gn: usize = self.groups.len();
        let mut i: usize = 0;
        let mut have_group = false;
        while i < gn
            invariant
                0 <= i <= gn,
                gn == self.groups@.len(),
                !have_group ==> forall|j: int| 0 <= j < i ==> strs_v(self.groups@)[j] != group@,
                have_group ==> has_user(strs_v(self.groups@), group@),
            decreases gn - i,
        {
            if str_eq(self.groups[i].as_str(), group) {
                proof {
                    assert(strs_v(self.groups@)[i as int] == group@);
                }
                have_group = true;
                i = gn;
            } else {
                i = i + 1;
            }
        }
        if !have_group {
            let ghost pre = self.groups@;
            self.groups.push(group.to_owned());
            proof {
                assert(strs_v(self.groups@) =~= strs_v(pre).push(group@));
            }
        }
        // The membership edge, once.
        if !self._is_user_in_group(user, group) {
            let ghost pre = self.user_groups@;
            self.user_groups.push((user.to_owned(), group.to_owned()));
            proof {
                assert(self.user_groups_v() =~= membership_pairs_v(pre).push((user@, group@)));
            }
        }
        proof {
            assert(self.users_v() =~= old(self).users_v());
            assert(self.cache_v() =~= old(self).cache_v());
        }
    }
}

/// The membership pairs a runtime vector denotes.
pub open spec fn membership_pairs_v(v: Seq<(String, String)>) -> Seq<(Seq<char>, Seq<char>)> {
    Seq::new(v.len(), |i: int| (v[i].0@, v[i].1@))
}

/// The rows whose owner belongs to the group.
pub open spec fn members_filter(
    s: Seq<JobRowV>,
    ugv: Seq<(Seq<char>, Seq<char>)>,
    group: Seq<char>,
) -> Seq<JobRowV>
    decreases s.len(),
{
    if s.len() == 0 {
        Seq::empty()
    } else if in_group(ugv, s[0].owner, group) {
        seq![s[0]] + members_filter(s.drop_first(), ugv, group)
    } else {
        members_filter(s.drop_first(), ugv, group)
    }
}

/// Copies a list of strings.
pub fn clone_strings(v: &Vec<String>) -> (r: Vec<String>)
    ensures
        r@.len() == v@.len(),
        forall|k: int| 0 <= k < v@.len() ==> #[trigger] r@[k]@ == v@[k]@,
{
    let n: usize = v.len();
    let mut out: Vec<String> = Vec::new();
    let mut i: usize = 0;
    while i < n
        invariant
            0 <= i <= n,
            n == v@.len(),
            out@.len() == i,
            forall|k: int| 0 <= k < i ==> #[trigger] out@[k]@ == v@[k]@,
        decreases n - i,
    {
        out.push(v[i].clone());
        i = i + 1;
    }
    out
}

impl DB {
    /// The first cache entry for `user`, at runtime.
    fn cache_find(&self, user: &str) -> (r: Option<usize>)
        ensures
            match r {
                Some(i) => i < self.groups_cache@.len() && cache_index(self.cache_v(), user@)
                    == Some(i as int),
                None => cache_index(self.cache_v(), user@) is None,
            },
    {
        let n: usize = self.groups_cache.len();
        let mut i: usize = 0;
        while i < n
            invariant
                0 <= i <= n,
                n == self.groups_cache@.len(),
                forall|j: int| 0 <= j < i ==> self.cache_v()[j].0 != user@,
            decreases n - i,
        {
            if str_eq(self.groups_cache[i].0.as_str(), user) {
                proof {
                    assert(self.cache_v()[i as int].0 == user@);
                    lemma_cache_index_at(self.cache_v(), user@, i as int);
                }
                return Some(i);
            }
            proof {
                assert(self.cache_v()[i as int].0 != user@);
            }
            i = i + 1;
        }
        proof {
            lemma_cache_index_none(self.cache_v(), user@);
        }
        None
    }

    /// Records the groups observed for one user: refreshes the cache entry
    /// synchronously, then inserts each group name and membership edge
    /// idempotently.
    pub fn insert_user_groups(&mut self, user: &str, groups: &Vec<String>)
        ensures
            final (self).cache_v() == cache_upsert(old(self).cache_v(), user@, groups.deep_view()),
            final (self).groups_v() == groups_after(old(self).groups_v(), groups.deep_view()),
            final (self).user_groups_v() == ugs_after(
                old(self).user_groups_v(),
                user@,
                groups.deep_view(),
            ),
            final (self).jobs_v() == old(self).jobs_v(),
            final (self).stats_v() == old(self).stats_v(),
            final (self).users_v() == old(self).users_v(),
    {
        // Refresh the cache entry for this user.
        let entry: (String, Vec<String>) = (user.to_owned(), clone_strings(groups));
        proof {
            assert(strs_v(entry.1@) =~= groups.deep_view());
        }
        match self.cache_find(user) {
            Some(i) => {
                let ghost pre = self.cache_v();
                self.groups_cache[i] = entry;
                proof {
                    assert(self.cache_v() =~= pre.update(i as int, (user@, groups.deep_view())));
                }
            },
            None => {
                let ghost pre = self.cache_v();
                self.groups_cache.push(entry);
                proof {
                    assert(self.cache_v() =~= pre.push((user@, groups.deep_view())));
                }
            },
        }
        self.insert_user_groups_relational(user, groups)
    }

    /// The relational half of recording a user's groups.
    fn insert_user_groups_relational(&mut self, user: &str, groups: &Vec<String>)
        ensures
            final (self).groups_v() == groups_after(old(self).groups_v(), groups.deep_view()),
            final (self).user_groups_v() == ugs_after(
                old(self).user_groups_v(),
                user@,
                groups.deep_view(),
            ),
            final (self).jobs_v() == old(self).jobs_v(),
            final (self).stats_v() == old(self).stats_v(),
            final (self).users_v() == old(self).users_v(),
            final (self).cache_v() == old(self).cache_v(),
    {
        let ghost gs = groups.deep_view();
        let n: usize = groups.len();
        let mut k: usize = 0;
        proof {
            assert(gs.skip(0) =~= gs);
        }
        while k < n
            invariant
                0 <= k <= n,
                n == groups@.len(),
                gs == groups.deep_view(),
                groups_after(self.groups_v(), gs.skip(k as int)) == groups_after(
                    old(self).groups_v(),
                    gs,
                ),
                ugs_after(self.user_groups_v(), user@, gs.skip(k as int)) == ugs_after(
                    old(self).user_groups_v(),
                    user@,
                    gs,
                ),
                self.jobs_v() == old(self).jobs_v(),
                self.stats_v() == old(self).stats_v(),
                self.users_v() == old(self).users_v(),
                self.cache_v() == old(self).cache_v(),
            decreases n - k,
        {
            proof {
                assert(gs.skip(k as int)[0] == gs[k as int]);
                assert(gs.skip(k as int).drop_first() =~= gs.skip(k + 1));
            }
            self.insert_user_group(user, groups[k].as_str());
            k = k + 1;
        }
        proof {
            assert(gs.skip(n as int) =~= Seq::<Seq<char>>::empty());
        }
    }

    /// A snapshot of the group-membership cache.
    pub fn get_groups_cache(&self) -> (r: Vec<(String, Vec<String>)>)
        ensures
            cache_view_of(r@) == self.cache_v(),
    {
        let n: usize = self.groups_cache.len();
        let mut out: Vec<(String, Vec<String>)> = Vec::new();
        let mut i: usize = 0;
        while i < n
            invariant
                0 <= i <= n,
                n == self.groups_cache@.len(),
                out@.len() == i,
                forall|k: int|
                    0 <= k < i ==> #[trigger] cache_view_of(out@)[k] == self.cache_v()[k],
            decreases n - i,
        {
            let key: String = self.groups_cache[i].0.clone();
            let val: Vec<String> = clone_strings(&self.groups_cache[i].1);
            proof {
                assert(strs_v(val@) =~= strs_v(self.groups_cache@[i as int].1@));
                assert(self.cache_v()[i as int] == (key@, strs_v(val@)));
            }
            let ghost pre_out = out@;
            out.push((key, val));
            proof {
                assert(forall|k: int|
                    0 <= k < pre_out.len() ==> #[trigger] cache_view_of(out@)[k]
                        == cache_view_of(pre_out)[k]);
                assert(cache_view_of(out@)[pre_out.len() as int] == self.cache_v()[
                    pre_out.len() as int]);
            }
            i = i + 1;
        }
        proof {
            assert(cache_view_of(out@) =~= self.cache_v());
        }
        out
    }

    /// Records the outcome of a credential check: on success the user row
    /// is created when absent, and the result says whether it was new — the
    /// caller's signal to backfill that user's groups and history.
    pub fn login(&mut self, auth_ok: bool, username: &str) -> (r: LoginResult)
        ensures
            r.success == auth_ok,
            auth_ok ==> {
                &&& final (self).users_v() == insert_unique(old(self).users_v(), username@)
                &&& r.created_new == !has_user(old(self).users_v(), username@)
            },
            !auth_ok ==> final (self).users_v() == old(self).users_v() && !r.created_new,
            final (self).jobs_v() == old(self).jobs_v(),
            final (self).stats_v() == old(self).stats_v(),
            final (self).groups_v() == old(self).groups_v(),
            final (self).user_groups_v() == old(self).user_groups_v(),
            final (self).cache_v() == old(self).cache_v(),
    {
        if !auth_ok {
            return LoginResult { success: false, created_new: false };
        }
        let known = self.has_user_exec(username);
        if !known {
            let ghost pre = self.users@;
            self.users.push(username.to_owned());
            proof {
                assert(strs_v(self.users@) =~= strs_v(pre).push(username@));
            }
        }
        LoginResult { success: true, created_new: !known }
    }

    /// The jobs owned by any member of `group`, with the optional filters
    /// applied.
    pub fn _get_group_jobs(
        &self,
        filter_state: Option<&String>,
        filter_queue: Option<&String>,
        filter_owner: Option<&String>,
        filter_name: Option<&String>,
        filter_date: Option<u64>,
        group: &str,
    ) -> (r: Vec<JobRow>)
        ensures
            rows_v(r@) == members_filter(
                filtered_rows(
                    self.jobs_v(),
                    None,
                    match opt_v(filter_state) {
                        Some(s) => Some(seq![s]),
                        None => None,
                    },
                    opt_v(filter_queue),
                    opt_v(filter_owner),
                    opt_v(filter_name),
                    filter_date,
                    false,
                ),
                self.user_groups_v(),
                group@,
            ),
    {
        let base: Vec<JobRow> = match filter_state {
            Some(s) => {
                let mut states: Vec<String> = Vec::new();
                states.push(s.clone());
                proof {
                    assert(states.deep_view() =~= seq![s@]);
                }
                self.query_jobs(
                    None,
                    Some(&states),
                    filter_queue,
                    filter_owner,
                    filter_name,
                    filter_date,
                    false,
                )
            },
            None => self.query_jobs(
                None,
                None,
                filter_queue,
                filter_owner,
                filter_name,
                filter_date,
                false,
            ),
        };
        let ghost all = rows_v(base@);
        let ghost whole = members_filter(all, self.user_groups_v(), group@);
        let n: usize = base.len();
        let mut out: Vec<JobRow> = Vec::new();
        let mut i: usize = 0;
        proof {
            assert(all.skip(0) =~= all);
        }
        while i < n
            invariant
                0 <= i <= n,
                n == base@.len(),
                all == rows_v(base@),
                whole == members_filter(all, self.user_groups_v(), group@),
                rows_v(out@).len() + members_filter(
                    all.skip(i as int),
                    self.user_groups_v(),
                    group@,
                ).len() == whole.len(),
                forall|k: int| 0 <= k < out@.len() ==> #[trigger] rows_v(out@)[k] == whole[k],
                forall|k: int|
                    0 <= k < members_filter(all.skip(i as int), self.user_groups_v(), group@).len()
                        ==> #[trigger] members_filter(
                        all.skip(i as int),
                        self.user_groups_v(),
                        group@,
                    )[k] == whole[out@.len() + k],
            decreases n - i,
        {
            proof {
                assert(all.skip(i as int)[0] == all[i as int]);
                assert(all.skip(i as int).drop_first() =~= all.skip(i + 1));
            }
            if self._is_user_in_group(base[i].owner.as_str(), group) {
                let ghost old_len = out@.len();
                let picked = base[i].duplicate();
                proof {
                    assert(members_filter(all.skip(i as int), self.user_groups_v(), group@)
                        =~= seq![picked@] + members_filter(
                        all.skip(i + 1),
                        self.user_groups_v(),
                        group@,
                    ));
                    assert(members_filter(all.skip(i as int), self.user_groups_v(), group@)[0]
                        == picked@);
                    assert(whole[old_len as int] == picked@);
                }
                let ghost pre_out = out@;
                let ghost pv = picked@;
                out.push(picked);
                proof {
                    assert(rows_v(out@) =~= rows_v(pre_out).push(pv));
                    assert(forall|k: int|
                        0 <= k < members_filter(
                            all.skip(i + 1),
                            self.user_groups_v(),
                            group@,
                        ).len() ==> #[trigger] members_filter(
                            all.skip(i + 1),
                            self.user_groups_v(),
                            group@,
                        )[k] == members_filter(
                            all.skip(i as int),
                            self.user_groups_v(),
                            group@,
                        )[k + 1]);
                }
            }
            i = i + 1;
        }
        proof {
            assert(all.skip(n as int) =~= Seq::<JobRowV>::empty());
            assert(rows_v(out@) =~= whole);
        }
        out
    }
}

/// Every job has exactly one row: no two rows share a scheduler ID.
pub open spec fn ids_unique(s: Seq<JobRowV>) -> bool {
    forall|i: int, j: int|
        0 <= i < j < s.len() ==> (#[trigger] s[i]).pbs_id != (#[trigger] s[j]).pbs_id
}

/// The one-row-per-ID invariant holds forever: it holds of the empty store,
/// insert-or-replace keeps it, and completion reconciliation — which never
/// changes an ID — keeps it too.
pub proof fn lemma_one_row_per_id(s: Seq<JobRowV>, row: JobRowV)
    requires
        ids_unique(s),
    ensures
        ids_unique(upsert_rows(s, row)),
{
    lemma_id_index_spec(s, row.pbs_id);
    match id_index(s, row.pbs_id) {
        Some(i) => {
            let s2 = s.update(i, row);
            assert forall|x: int, y: int|
                0 <= x < y < s2.len() implies (#[trigger] s2[x]).pbs_id != (
            #[trigger] s2[y]).pbs_id by {
                if x != i && y != i {
                    assert(s2[x] == s[x] && s2[y] == s[y]);
                } else if x == i {
                    assert(s2[y] == s[y]);
                    assert(s[i].pbs_id == row.pbs_id);
                } else {
                    assert(s2[x] == s[x]);
                    assert(s[i].pbs_id == row.pbs_id);
                }
            }
        },
        None => {
            let s2 = s.push(row);
            assert forall|x: int, y: int|
                0 <= x < y < s2.len() implies (#[trigger] s2[x]).pbs_id != (
            #[trigger] s2[y]).pbs_id by {
                if y < s.len() {
                    assert(s2[x] == s[x] && s2[y] == s[y]);
                } else {
                    assert(s2[x] == s[x]);
                    assert(s[x].pbs_id != row.pbs_id);
                }
            }
        },
    }
}

/// The idempotence of ingestion: re-ingesting the identical record changes
/// neither the job rows nor the user list — the row stays exactly as the
/// first ingestion left it — while each ingestion appends exactly one stat
/// sample, as [`DB::insert_job`] states.
pub proof fn lemma_upsert_idempotent(jobs: Seq<JobRowV>, users: Seq<Seq<char>>, row: JobRowV)
    ensures
        upsert_rows(upsert_rows(jobs, row), row) == upsert_rows(jobs, row),
        insert_unique(insert_unique(users, row.owner), row.owner) == insert_unique(
            users,
            row.owner,
        ),
{
    let id = row.pbs_id;
    lemma_id_index_spec(jobs, id);
    match id_index(jobs, id) {
        Some(i) => {
            let s1 = jobs.update(i, row);
            assert(s1[i].pbs_id == id);
            assert(forall|j: int| 0 <= j < i ==> s1[j].pbs_id != id);
            lemma_id_index_at(s1, id, i);
            assert(s1.update(i, row) =~= s1);
        },
        None => {
            let s1 = jobs.push(row);
            assert(s1[jobs.len() as int].pbs_id == id);
            assert(forall|j: int| 0 <= j < jobs.len() ==> s1[j].pbs_id != id);
            lemma_id_index_at(s1, id, jobs.len() as int);
            assert(s1.update(jobs.len() as int, row) =~= s1);
        },
    }
    if has_user(users, row.owner) {
    } else {
        let u1 = users.push(row.owner);
        assert(u1[users.len() as int] == row.owner);
        assert(has_user(u1, row.owner));
    }
}

} // verus!