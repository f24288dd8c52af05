//! One poll cycle of each daemon, as a pure step: raw command output in,
//! store mutations out. The daemons' loops — scheduling, remote execution,
//! logging, sleeping — stay outside; these functions decide everything else.

use vstd::prelude::*;

use crate::batch::{
    parse_cluster_status, parse_jmanl_output, parse_jobstat_jobs, spec_cluster_status,
    spec_jmanl_records, spec_jobstat_records, spec_replace, replace_str, ClusterStatus,
};
use crate::fields::FieldMap;
use crate::records::ParseError;
use crate::store::{
    ended_row, insert_unique, is_active_id, maps_v, row_from_record, sample_of, upsert_rows, DB,
    JobRowV, StatSample,
};
use crate::text::{spec_split, spec_split_ws, split_str, split_ws};

verus! {

/// The store model that ingesting a batch of records leaves behind: jobs
/// upserted, owners created, one sample appended per ingested record; a
/// record that denotes no row is skipped, its siblings untouched.
pub open spec fn ingest_rows(
    jobs: Seq<JobRowV>,
    users: Seq<Seq<char>>,
    stats: Seq<StatSample>,
    recs: Seq<Map<Seq<char>, Seq<char>>>,
    now: u64,
) -> (Seq<JobRowV>, Seq<Seq<char>>, Seq<StatSample>)
    decreases recs.len(),
{
    if recs.len() == 0 {
        (jobs, users, stats)
    } else {
        match row_from_record(recs[0]) {
            Some(row) => ingest_rows(
                upsert_rows(jobs, row),
                insert_unique(users, row.owner),
                stats.push(sample_of(row, now)),
                recs.drop_first(),
                now,
            ),
            None => ingest_rows(jobs, users, stats, recs.drop_first(), now),
        }
    }
}

/// The job rows after completion reconciliation against the active set.
pub open spec fn mark_rows(
    jobs: Seq<JobRowV>,
    ams: Seq<Map<Seq<char>, Seq<char>>>,
    now: u64,
) -> Seq<JobRowV> {
    Seq::new(
        jobs.len(),
        |i: int|
            if jobs[i].state == "R"@ && !is_active_id(ams, jobs[i].pbs_id) {
                ended_row(jobs[i], now)
            } else {
                jobs[i]
            },
    )
}

/// Completion reconciliation changes no scheduler ID, so the store's
/// one-row-per-ID invariant survives it just as it survives ingestion.
pub proof fn lemma_reconciliation_keeps_ids(
    jobs: Seq<JobRowV>,
    ams: Seq<Map<Seq<char>, Seq<char>>>,
    now: u64,
)
    ensures
        mark_rows(jobs, ams, now).len() == jobs.len(),
        forall|i: int|
            0 <= i < jobs.len() ==> (#[trigger] mark_rows(jobs, ams, now)[i]).pbs_id
                == jobs[i].pbs_id,
        crate::store::ids_unique(jobs) ==> crate::store::ids_unique(mark_rows(jobs, ams, now)),
{
    let marked = mark_rows(jobs, ams, now);
    assert(forall|i: int|
        0 <= i < jobs.len() ==> (#[trigger] marked[i]).pbs_id == jobs[i].pbs_id);
}

/// What one current-jobs cycle produced, for the operator's log.
pub struct CycleOutcome {
    /// The cluster-status header, when it parsed; its failure never blocks
    /// the per-job work.
    pub status: Option<ClusterStatus>,
    /// How many records were ingested.
    pub ingested: usize,
    /// One reason per skipped block or refused record.
    pub skipped: Vec<String>,
}

/// Ingests a batch of parsed records, skipping the refused ones.
fn ingest_batch(db: &mut DB, records: &Vec<FieldMap>, now: u64, skipped: &mut Vec<String>) -> (r:
    usize)
    ensures
        ({
            let (js, us, ss) = ingest_rows(
                old(db).jobs_v(),
                old(db).users_v(),
                old(db).stats_v(),
                maps_v(records@),
                now,
            );
            &&& final (db).jobs_v() == js
            &&& final (db).users_v() == us
            &&& final (db).stats_v() == ss
            &&& final (db).groups_v() == old(db).groups_v()
            &&& final (db).user_groups_v() == old(db).user_groups_v()
            &&& final (db).cache_v() == old(db).cache_v()
        }),
{
    let ghost ams = maps_v(records@);
    let ghost target = ingest_rows(old(db).jobs_v(), old(db).users_v(), old(db).stats_v(), ams, now);
    let n: usize = records.len();
    let mut i: usize = 0;
    let mut count: usize = 0;
    proof {
        assert(ams.skip(0) =~= ams);
    }
    while i < n
        invariant
            0 <= i <= n,
            n == records@.len(),
            count <= i,
            ams == maps_v(records@),
            target == ingest_rows(
                old(db).jobs_v(),
                old(db).users_v(),
                old(db).stats_v(),
                ams,
                now,
            ),
            ingest_rows(db.jobs_v(), db.users_v(), db.stats_v(), ams.skip(i as int), now)
                == target,
            db.groups_v() == old(db).groups_v(),
            db.user_groups_v() == old(db).user_groups_v(),
            db.cache_v() == old(db).cache_v(),
        decreases n - i,
    {
        proof {
            assert(ams.skip(i as int)[0] == ams[i as int]);
            assert(ams[i as int] == records@[i as int]@);
            assert(ams.skip(i as int).drop_first() =~= ams.skip(i + 1));
        }
        match db.insert_job(&records[i], now) {
            Ok(_) => {
                count = count + 1;
            },
            Err(e) => {
                skipped.push(e.reason);
            },
        }
        i = i + 1;
    }
    proof {
        assert(ams.skip(n as int) =~= Seq::<Map<Seq<char>, Seq<char>>>::empty());
    }
    count
}

/// One current-jobs cycle: strip carriage returns, read the cluster-status
/// header (its failure is reported, not fatal), parse the per-job blocks,
/// ingest every record that denotes a row, then reconcile completions:
/// Running rows absent from this very batch become Ended at `now`.
pub fn current_jobs_cycle(db: &mut DB, raw: &str, now: u64) -> (r: Result<CycleOutcome, ParseError>)
    ensures
        ({
            let cleaned = spec_replace(raw@, "\r"@, Seq::<char>::empty());
            match r {
                Ok(outcome) => {
                    &&& spec_jobstat_records(cleaned) is Some
                    &&& outcome.status == (match spec_cluster_status(cleaned) {
                        Some(c) => Some(c),
                        None => None::<ClusterStatus>,
                    })
                    &&& ({
                        let recs = spec_jobstat_records(cleaned)->0;
                        let (js, us, ss) = ingest_rows(
                            old(db).jobs_v(),
                            old(db).users_v(),
                            old(db).stats_v(),
                            recs,
                            now,
                        );
                        &&& final (db).jobs_v() == mark_rows(js, recs, now)
                        &&& final (db).users_v() == us
                        &&& final (db).stats_v() == ss
                        &&& final (db).groups_v() == old(db).groups_v()
                        &&& final (db).user_groups_v() == old(db).user_groups_v()
                        &&& final (db).cache_v() == old(db).cache_v()
                    })
                },
                Err(_) => {
                    &&& spec_jobstat_records(cleaned) is None
                    &&& final (db).jobs_v() == old(db).jobs_v()
                    &&& final (db).users_v() == old(db).users_v()
                    &&& final (db).stats_v() == old(db).stats_v()
                    &&& final (db).groups_v() == old(db).groups_v()
                    &&& final (db).user_groups_v() == old(db).user_groups_v()
                    &&& final (db).cache_v() == old(db).cache_v()
                },
            }
        }),
{
    proof {
        reveal_strlit("\r");
        reveal_strlit("");
        assert(""@ =~= Seq::<char>::empty());
    }
    let cleaned: String = replace_str(raw, "\r", "");
    let status: Option<ClusterStatus> = match parse_cluster_status(cleaned.as_str()) {
        Ok(c) => Some(c),
        Err(_) => None,
    };
    let (records, mut skipped) = match parse_jobstat_jobs(cleaned.as_str()) {
        Ok(pair) => pair,
        Err(e) => {
            return Err(e);
        },
    };
    let ghost recs = spec_jobstat_records(spec_replace(raw@, "\r"@, Seq::<char>::empty()))->0;
    proof {
        assert(maps_v(records@) =~= recs);
    }
    let ingested = ingest_batch(db, &records, now, &mut skipped);
    db.mark_completed_jobs(&records, now);
    proof {
        let (js, us, ss) = ingest_rows(old(db).jobs_v(), old(db).users_v(), old(db).stats_v(), recs, now);
        assert(db.jobs_v() =~= mark_rows(js, recs, now));
    }
    Ok(CycleOutcome { status, ingested, skipped })
}

/// One historical-jobs cycle for one user: parse the full log output —
/// preamble chunk counts, marker with CRLF fallback, one record per line —
/// and ingest every record that denotes a row. Completion reconciliation is
/// never run here: the log itself reports the Ended state and end time.
pub fn historical_jobs_cycle(db: &mut DB, raw: &str, now: u64) -> (r: Result<
    CycleOutcome,
    ParseError,
>)
    ensures
        match r {
            Ok(outcome) => {
                &&& spec_jmanl_records(raw@) is Some
                &&& outcome.status is None
                &&& ({
                    let recs = spec_jmanl_records(raw@)->0;
                    let (js, us, ss) = ingest_rows(
                        old(db).jobs_v(),
                        old(db).users_v(),
                        old(db).stats_v(),
                        recs,
                        now,
                    );
                    &&& final (db).jobs_v() == js
                    &&& final (db).users_v() == us
                    &&& final (db).stats_v() == ss
                    &&& final (db).groups_v() == old(db).groups_v()
                    &&& final (db).user_groups_v() == old(db).user_groups_v()
                    &&& final (db).cache_v() == old(db).cache_v()
                })
            },
            Err(_) => {
                &&& spec_jmanl_records(raw@) is None
                &&& final (db).jobs_v() == old(db).jobs_v()
                &&& final (db).users_v() == old(db).users_v()
                &&& final (db).stats_v() == old(db).stats_v()
                &&& final (db).groups_v() == old(db).groups_v()
                &&& final (db).user_groups_v() == old(db).user_groups_v()
                &&& final (db).cache_v() == old(db).cache_v()
            },
        },
{
    let (records, mut skipped) = match parse_jmanl_output(raw) {
        Ok(pair) => pair,
        Err(e) => {
            return Err(e);
        },
    };
    let ghost recs = spec_jmanl_records(raw@)->0;
    proof {
        assert(maps_v(records@) =~= recs);
    }
    let ingested = ingest_batch(db, &records, now, &mut skipped);
    Ok(CycleOutcome { status: None, ingested, skipped })
}

/// The group names in the output of the remote `groups` command: whatever
/// follows the ` : ` separator, split on whitespace.
pub open spec fn spec_groups_output(s: Seq<char>) -> Option<Seq<Seq<char>>> {
    let parts = spec_split(s, " : "@);
    if parts.len() < 2 {
        None
    } else {
        Some(spec_split_ws(parts[1]))
    }
}

/// Parses the output of the remote `groups` command.
pub fn parse_groups_output(s: &str) -> (r: Result<Vec<String>, ParseError>)
    ensures
        match r {
            Ok(v) => spec_groups_output(s@) == Some(v.deep_view()),
            Err(_) => spec_groups_output(s@) is None,
        },
{
    proof {
        reveal_strlit(" : ");
    }
    let parts = split_str(s, " : ");
    if parts.len() < 2 {
        return Err(ParseError { reason: "no group listing in the output".to_owned() });
    }
    Ok(split_ws(parts[1].as_str()))
}

/// One group-membership cycle for one user: parse the `groups` output and
/// record the memberships, refreshing the cache entry synchronously.
pub fn groups_cycle(db: &mut DB, user: &str, raw: &str) -> (r: Result<Vec<String>, ParseError>)
    ensures
        match r {
            Ok(v) => {
                &&& spec_groups_output(raw@) == Some(v.deep_view())
                &&& final (db).cache_v() == crate::store::cache_upsert(
                    old(db).cache_v(),
                    user@,
                    v.deep_view(),
                )
                &&& final (db).groups_v() == crate::store::groups_after(
                    old(db).groups_v(),
                    v.deep_view(),
                )
                &&& final (db).user_groups_v() == crate::store::ugs_after(
                    old(db).user_groups_v(),
                    user@,
                    v.deep_view(),
                )
                &&& final (db).jobs_v() == old(db).jobs_v()
                &&& final (db).stats_v() == old(db).stats_v()
                &&& final (db).users_v() == old(db).users_v()
            },
            Err(_) => {
                &&& spec_groups_output(raw@) is None
                &&& final (db).cache_v() == old(db).cache_v()
                &&& final (db).groups_v() == old(db).groups_v()
                &&& final (db).user_groups_v() == old(db).user_groups_v()
                &&& final (db).jobs_v() == old(db).jobs_v()
                &&& final (db).stats_v() == old(db).stats_v()
                &&& final (db).users_v() == old(db).users_v()
            },
        },
{
    let groups = match parse_groups_output(raw) {
        Ok(v) => v,
        Err(e) => {
            return Err(e);
        },
    };
    db.insert_user_groups(user, &groups);
    Ok(groups)
}

} // verus!