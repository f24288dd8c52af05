//! The reconciliation store: ingestion, completion reconciliation, queries,
//! groups, and login.

use batchmon::fields::FieldMap;
use batchmon::store::{DB, JobRow};

fn record(id: &str, state: &str, owner: &str) -> FieldMap {
    let mut m = FieldMap::new();
    m.insert("job_id", id.to_string());
    m.insert("Job_Name", format!("job-{}", id));
    m.insert("Job_Owner", owner.to_string());
    m.insert("job_state", state.to_string());
    m.insert("start_time", "1700000000".to_string());
    m.insert("queue", "batch".to_string());
    m.insert("Nodes", "cm01".to_string());
    m.insert("Resource_List.mem", "50".to_string());
    m.insert("Resource_List.ncpus", "4".to_string());
    m.insert("Resource_List.walltime", "01:00:00".to_string());
    m.insert("Resource_List.select", "1:ncpus=4".to_string());
    m.insert("mem_efficiency", "2000".to_string());
    m.insert("walltime_efficiency", "5000".to_string());
    m.insert("cpu_efficiency", "5000".to_string());
    m.insert("resources_used.cpupercent", "200".to_string());
    m.insert("resources_used.mem", "10".to_string());
    m.insert("resources_used.walltime", "00:30:00".to_string());
    m
}

fn rows_equal(a: &JobRow, b: &JobRow) -> bool {
    a.pbs_id == b.pbs_id
        && a.name == b.name
        && a.owner == b.owner
        && a.state == b.state
        && a.start_time == b.start_time
        && a.queue == b.queue
        && a.nodes == b.nodes
        && a.req_mem == b.req_mem
        && a.req_cpus == b.req_cpus
        && a.req_gpus == b.req_gpus
        && a.req_walltime == b.req_walltime
        && a.req_select == b.req_select
        && a.mem_efficiency == b.mem_efficiency
        && a.walltime_efficiency == b.walltime_efficiency
        && a.cpu_efficiency == b.cpu_efficiency
        && a.used_cpu_percent == b.used_cpu_percent
        && a.used_mem == b.used_mem
        && a.used_walltime == b.used_walltime
        && a.end_time == b.end_time
        && a.chunks == b.chunks
        && a.exit_status == b.exit_status
        && a.est_start_time == b.est_start_time
        && a.used_cpu_time == b.used_cpu_time
}

#[test]
fn insert_fills_row_users_and_one_sample() {
    let mut db = DB::new();
    db.insert_job(&record("100", "R", "alice"), 1000).unwrap();
    let row = db.get_job(100).unwrap();
    assert_eq!(row.name, "job-100");
    assert_eq!(row.owner, "alice");
    assert_eq!(row.state, "R");
    assert_eq!(row.req_cpus, 4);
    // The missing chunk count came out of the select statement,
    // which also gained its `nchunks=` prefix.
    assert_eq!(row.req_select, "nchunks=1:ncpus=4");
    assert_eq!(row.chunks, "1");
    // The defaults for the fields a running job does not have yet.
    assert_eq!(row.end_time, 2147483647);
    assert_eq!(row.exit_status, "Not Yet Completed");
    assert_eq!(row.used_cpu_time, "00:00:00");
    assert_eq!(db.get_users(), vec!["alice"]);
    let stats = db.get_job_stats(100);
    assert_eq!(stats.len(), 1);
    assert_eq!(stats[0].cpu_percent, 5000);
    assert_eq!(stats[0].mem, 10);
    assert_eq!(stats[0].datetime, 1000);
}

#[test]
fn ingesting_the_same_record_twice_changes_only_the_samples() {
    let mut db = DB::new();
    db.insert_job(&record("100", "R", "alice"), 1000).unwrap();
    let first = db.get_job(100).unwrap();
    db.insert_job(&record("100", "R", "alice"), 2000).unwrap();
    let second = db.get_job(100).unwrap();
    // The row is identical, field for field.
    assert!(rows_equal(&first, &second));
    // The user list did not grow.
    assert_eq!(db.get_users(), vec!["alice"]);
    // Exactly one more appended sample, stamped with the later time.
    let stats = db.get_job_stats(100);
    assert_eq!(stats.len(), 2);
    assert_eq!(stats[0].datetime, 1000);
    assert_eq!(stats[1].datetime, 2000);
}

#[test]
fn a_record_missing_a_required_field_leaves_the_store_untouched() {
    let mut db = DB::new();
    let mut bad = record("100", "R", "alice");
    bad = {
        // Rebuild without the owner.
        let mut m = FieldMap::new();
        for key in [
            "job_id",
            "Job_Name",
            "job_state",
            "start_time",
            "queue",
            "Nodes",
            "Resource_List.mem",
            "Resource_List.ncpus",
            "Resource_List.walltime",
            "Resource_List.select",
            "mem_efficiency",
            "walltime_efficiency",
            "cpu_efficiency",
            "resources_used.cpupercent",
            "resources_used.mem",
            "resources_used.walltime",
        ] {
            m.insert(key, bad.get(key).unwrap().clone());
        }
        m
    };
    assert!(db.insert_job(&bad, 1000).is_err());
    assert!(db.get_job(100).is_err());
    assert!(db.get_users().is_empty());
    assert!(db.get_job_stats(100).is_empty());
}

#[test]
fn completion_marks_missing_running_jobs_exactly_once() {
    let mut db = DB::new();
    db.insert_job(&record("100", "R", "alice"), 1000).unwrap();
    db.insert_job(&record("101", "R", "alice"), 1000).unwrap();
    // The latest active set knows only 101.
    let active = vec![record("101", "R", "alice")];
    db.mark_completed_jobs(&active, 5000);
    let ended = db.get_job(100).unwrap();
    assert_eq!(ended.state, "E");
    assert_eq!(ended.end_time, 5000);
    // The job still in the active set is untouched.
    let running = db.get_job(101).unwrap();
    assert_eq!(running.state, "R");
    assert_eq!(running.end_time, 2147483647);
    // A second reconciliation does not stamp a new end time.
    db.mark_completed_jobs(&active, 9000);
    let still_ended = db.get_job(100).unwrap();
    assert_eq!(still_ended.state, "E");
    assert_eq!(still_ended.end_time, 5000);
}

#[test]
fn queries_apply_conjunctive_filters() {
    let mut db = DB::new();
    db.insert_job(&record("1", "R", "alice"), 10).unwrap();
    db.insert_job(&record("2", "Q", "bob"), 10).unwrap();
    db.insert_job(&record("3", "E", "alice"), 10).unwrap();
    let running_states = vec!["R".to_string(), "Q".to_string()];
    let active = db.get_all_jobs(Some(&running_states), None, None, None, None, false);
    assert_eq!(active.len(), 2);
    assert_eq!(active[0].pbs_id, 1);
    assert_eq!(active[1].pbs_id, 2);
    let alices = db.get_user_jobs("alice", None, None, None, None, None);
    assert_eq!(alices.len(), 2);
    let state_e = "E".to_string();
    let ended = db.get_user_jobs("alice", Some(&state_e), None, None, None, None);
    assert_eq!(ended.len(), 1);
    assert_eq!(ended[0].pbs_id, 3);
    let nobody = db.get_user_jobs("carol", None, None, None, None, None);
    assert!(nobody.is_empty());
    let late = db.get_all_jobs(None, None, None, None, Some(1700000001), false);
    assert!(late.is_empty());
}

#[test]
fn censored_queries_redact_the_owner() {
    let mut db = DB::new();
    db.insert_job(&record("1", "R", "alice"), 10).unwrap();
    let censored = db.get_all_jobs(None, None, None, None, None, true);
    assert_eq!(censored[0].owner, "REDACTED");
    // The stored row itself keeps the real owner.
    assert_eq!(db.get_job(1).unwrap().owner, "alice");
}

#[test]
fn groups_are_recorded_idempotently_and_cached() {
    let mut db = DB::new();
    let groups = vec!["staff".to_string(), "hpc".to_string()];
    db.insert_user_groups("alice", &groups);
    db.insert_user_groups("alice", &groups);
    assert_eq!(db._get_user_groups("alice"), vec!["staff", "hpc"]);
    assert!(db._is_user_in_group("alice", "hpc"));
    assert!(db._is_user_admin("alice"));
    assert!(!db._is_user_in_group("alice", "chem"));
    let cache = db.get_groups_cache();
    assert_eq!(cache.len(), 1);
    assert_eq!(cache[0].0, "alice");
    assert_eq!(cache[0].1, vec!["staff", "hpc"]);
}

#[test]
fn group_membership_opens_job_statistics() {
    let mut db = DB::new();
    db.insert_job(&record("7", "R", "alice"), 10).unwrap();
    db.insert_user_groups("alice", &vec!["chem".to_string()]);
    db.insert_user_groups("bob", &vec!["chem".to_string()]);
    db.insert_user_groups("carol", &vec!["bio".to_string()]);
    db.insert_user_groups("root1", &vec!["hpc".to_string()]);
    // The owner, a group mate, and an administrator may look.
    assert!(db._is_user_able_to_view_stats("alice", 7));
    assert!(db._is_user_able_to_view_stats("bob", 7));
    assert!(db._is_user_able_to_view_stats("root1", 7));
    // An unrelated user may not.
    assert!(!db._is_user_able_to_view_stats("carol", 7));
    let chem_jobs = db._get_group_jobs(None, None, None, None, None, "chem");
    assert_eq!(chem_jobs.len(), 1);
    let bio_jobs = db._get_group_jobs(None, None, None, None, None, "bio");
    assert!(bio_jobs.is_empty());
}

#[test]
fn login_creates_the_user_only_on_first_success() {
    let mut db = DB::new();
    let first = db.login(true, "carol");
    assert!(first.success);
    assert!(first.created_new);
    let second = db.login(true, "carol");
    assert!(second.success);
    assert!(!second.created_new);
    let failed = db.login(false, "dave");
    assert!(!failed.success);
    assert!(!failed.created_new);
    assert_eq!(db.get_users(), vec!["carol"]);
}

#[test]
fn queue_and_name_filters_conjoin() {
    let mut db = DB::new();
    db.insert_job(&record("1", "R", "alice"), 10).unwrap();
    let queue = "batch".to_string();
    let name = "job-1".to_string();
    let hit = db.get_all_jobs(None, Some(&queue), None, Some(&name), None, false);
    assert_eq!(hit.len(), 1);
    let other_queue = "debug".to_string();
    let miss = db.get_all_jobs(None, Some(&other_queue), None, Some(&name), None, false);
    assert!(miss.is_empty());
}

#[test]
fn samples_are_kept_per_job() {
    let mut db = DB::new();
    db.insert_job(&record("1", "R", "alice"), 10).unwrap();
    db.insert_job(&record("2", "R", "alice"), 20).unwrap();
    db.insert_job(&record("1", "R", "alice"), 30).unwrap();
    assert_eq!(db.get_job_stats(1).len(), 2);
    assert_eq!(db.get_job_stats(2).len(), 1);
    assert!(db.get_job_stats(3).is_empty());
}
