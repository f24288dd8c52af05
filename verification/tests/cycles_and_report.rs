//! Whole poll cycles against the store, and the reporting helpers.

use batchmon::cycles::{current_jobs_cycle, groups_cycle, historical_jobs_cycle};
use batchmon::fields::FieldMap;
use batchmon::report::{render_full_error, Toolkit};
use batchmon::store::{DB, JobRow};
use batchmon::units::GbFixed;

fn record(id: &str, state: &str, owner: &str) -> FieldMap {
    let mut m = FieldMap::new();
    m.insert("job_id", id.to_string());
    m.insert("Job_Name", format!("job-{}", id));
    m.insert("Job_Owner", owner.to_string());
    m.insert("job_state", state.to_string());
    m.insert("start_time", "1700000000".to_string());
    m.insert("queue", "batch".to_string());
    m.insert("Nodes", "cm01".to_string());
    m.insert("Resource_List.mem", "50".to_string());
    m.insert("Resource_List.ncpus", "4".to_string());
    m.insert("Resource_List.walltime", "01:00:00".to_string());
    m.insert("Resource_List.select", "1:ncpus=4".to_string());
    m.insert("mem_efficiency", "2000".to_string());
    m.insert("walltime_efficiency", "5000".to_string());
    m.insert("cpu_efficiency", "5000".to_string());
    m.insert("resources_used.cpupercent", "200".to_string());
    m.insert("resources_used.mem", "10".to_string());
    m.insert("resources_used.walltime", "00:30:00".to_string());
    m
}

fn jobstat_output() -> String {
    let header = [
        "cluster summary",
        "nodes: 5 used + 2 unused + 1 unavailable = 8 total",
        "CPU cores: 100 used + 50 unused + 10 unavailable = 160 total",
        "GPU cores: 4 used + 2 unused + 2 unavailable = 8 total",
        "status: [R]unning [Q]ueued",
        "--------------------",
        "",
    ]
    .join("\n");
    let running = [
        "101",
        "    Job_Name = myjob",
        "    Job_Owner = alice@login1",
        "    job_state = R",
        "    queue = batch",
        "    Nodes = cm01",
        "    Resource_List.mem = 50gb",
        "    Resource_List.ncpus = 4",
        "    Resource_List.walltime = 01:00:00",
        "    Resource_List.select = 1:ncpus=4",
        "    resources_used.mem = 10gb",
        "    resources_used.walltime = 00:30:00",
        "    resources_used.cpupercent = 200",
        "    stime = Fri Oct 10 12:00:00 2025",
    ]
    .join("\n");
    let queued = [
        "102",
        "    Job_Name = qjob",
        "    Job_Owner = bob",
        "    job_state = Q",
        "    queue = batch",
        "    Resource_List.mem = 10gb",
        "    Resource_List.ncpus = 2",
        "    Resource_List.walltime = 01:00:00",
        "    Resource_List.select = 1:ncpus=2",
    ]
    .join("\n");
    format!("{}{}\n\n{}", header, running, queued)
}

#[test]
fn one_current_jobs_cycle_reconciles_the_store() {
    // The store believes 100 and 101 are running; the cycle reports
    // {101 Running, 102 Queued}.
    let mut db = DB::new();
    db.insert_job(&record("100", "R", "alice"), 1000).unwrap();
    db.insert_job(&record("101", "R", "alice"), 1000).unwrap();
    let outcome = current_jobs_cycle(&mut db, &jobstat_output(), 7777).unwrap();
    assert_eq!(outcome.ingested, 2);
    assert!(outcome.skipped.is_empty());
    let status = outcome.status.unwrap();
    assert_eq!(status.total_nodes, 8);
    assert_eq!(status.used_cpus, 100);
    // 100 disappeared from the active set: Ended, end time stamped.
    let gone = db.get_job(100).unwrap();
    assert_eq!(gone.state, "E");
    assert_eq!(gone.end_time, 7777);
    // 101 is still reported: Running, untouched by reconciliation.
    let running = db.get_job(101).unwrap();
    assert_eq!(running.state, "R");
    assert_eq!(running.start_time, 1760097600);
    // 102 came in fresh as Queued with zeroed usage placeholders.
    let queued = db.get_job(102).unwrap();
    assert_eq!(queued.state, "Q");
    assert_eq!(queued.start_time, 2147483647);
    assert_eq!(queued.used_mem, 0);
    assert_eq!(queued.cpu_efficiency, 0);
}

#[test]
fn current_jobs_cycle_tolerates_carriage_returns() {
    let mut db = DB::new();
    let crlf = jobstat_output().replace('\n', "\r\n");
    let outcome = current_jobs_cycle(&mut db, &crlf, 7777).unwrap();
    assert_eq!(outcome.ingested, 2);
    assert!(db.get_job(101).is_ok());
}

#[test]
fn current_jobs_cycle_without_delimiter_leaves_the_store_alone() {
    let mut db = DB::new();
    db.insert_job(&record("100", "R", "alice"), 1000).unwrap();
    assert!(current_jobs_cycle(&mut db, "garbage output", 7777).is_err());
    assert_eq!(db.get_job(100).unwrap().state, "R");
}

#[test]
fn historical_cycle_skips_a_line_without_a_user_but_keeps_its_sibling() {
    // The first record line has no `user=` field: its record parses but
    // the store refuses it; the next line is still ingested.
    let good = "10/01/2025 20:00:00;E;2001.cm1.hpc;user=alice jobname=j1 queue=batch \
        start=1700000000 end=1700003600 Resource_List.mem=10gb Resource_List.ncpus=4 \
        Resource_List.walltime=01:00:00 Resource_List.select=1:ncpus=4 \
        resources_used.mem=10gb resources_used.walltime=00:30:00 \
        resources_used.cpupercent=200 exec_host=cm01/0+cm02/1 Exit_status=0 \
        resources_used.cput=01:30:00";
    let bad = "10/01/2025 19:00:00;E;2000.cm1.hpc;jobname=nouser queue=batch \
        start=1700000000 end=1700003600 Resource_List.mem=10gb Resource_List.ncpus=4 \
        Resource_List.walltime=01:00:00 Resource_List.select=1:ncpus=4 \
        resources_used.mem=10gb resources_used.walltime=00:30:00 \
        resources_used.cpupercent=200";
    let raw = format!(
        "Job 2001.cm-abc-def (4 CPUs, 1 node(s), 2 chunk(s))\nRaw records::\n{}\n{}\n",
        bad, good
    );
    let mut db = DB::new();
    let outcome = historical_jobs_cycle(&mut db, &raw, 3000).unwrap();
    assert_eq!(outcome.ingested, 1);
    assert_eq!(outcome.skipped.len(), 1);
    let row = db.get_job(2001).unwrap();
    assert_eq!(row.state, "E");
    assert_eq!(row.end_time, 1700003600);
    assert_eq!(row.chunks, "2");
    assert!(db.get_job(2000).is_err());
}

#[test]
fn groups_cycle_records_and_caches_memberships() {
    let mut db = DB::new();
    let groups = groups_cycle(&mut db, "alice", "alice : staff hpc\n").unwrap();
    assert_eq!(groups, vec!["staff", "hpc"]);
    assert!(db._is_user_admin("alice"));
    assert_eq!(db.get_groups_cache()[0].0, "alice");
    assert!(groups_cycle(&mut db, "alice", "malformed").is_err());
}

fn row_with(exit_status: &str, cpu_time: &str) -> JobRow {
    JobRow {
        pbs_id: 1,
        name: "j".to_string(),
        owner: "alice".to_string(),
        state: "E".to_string(),
        start_time: 0,
        queue: "batch".to_string(),
        nodes: "cm01".to_string(),
        req_mem: GbFixed { units: 0 },
        req_cpus: 1,
        req_gpus: 0,
        req_walltime: "01:00:00".to_string(),
        req_select: "nchunks=1".to_string(),
        mem_efficiency: 0,
        walltime_efficiency: 0,
        cpu_efficiency: 0,
        used_cpu_percent: 0,
        used_mem: 0,
        used_walltime: "00:30:00".to_string(),
        end_time: 0,
        chunks: "1".to_string(),
        exit_status: exit_status.to_string(),
        est_start_time: "Already Started/Unknown".to_string(),
        used_cpu_time: cpu_time.to_string(),
    }
}

#[test]
fn toolkit_counts_successes_and_sums_cpu_time() {
    let tk = Toolkit;
    let jobs = vec![
        row_with("0", "01:30:00"),
        row_with("1", "23:45:10"),
        row_with("0", "0"),
    ];
    assert_eq!(tk.total_successful_jobs(&jobs), 2);
    // 1:30:00 + 23:45:10 (+ a bare `0`, which adds nothing):
    // 24 h, 75 min, 10 s, normalised day by day.
    assert_eq!(tk.total_cpu_time(&jobs), "01:01:15:10");
    assert_eq!(tk.total_cpu_time(&Vec::new()), "00:00:00:00");
}

#[test]
fn toolkit_rounds_and_shortens_and_reads_fields() {
    let tk = Toolkit;
    assert_eq!(tk.to_i32(&"43.75".to_string()).unwrap(), 44);
    assert_eq!(tk.to_i32(&"43".to_string()).unwrap(), 43);
    assert_eq!(tk.to_i32(&"43.0".to_string()).unwrap(), 43);
    assert!(tk.to_i32(&"many".to_string()).is_err());
    assert_eq!(tk.shorten(&"abcdefghijkl".to_string(), 10), "abcdef...");
    assert_eq!(tk.shorten(&"short".to_string(), 10), "short");
    let mut m = FieldMap::new();
    m.insert("queue", "batch".to_string());
    assert_eq!(tk.get_field(&m, "queue").unwrap(), "batch");
    assert!(tk.get_field(&m, "absent").is_err());
}

#[test]
fn error_chains_render_numbered_lines() {
    let causes = vec!["the session died".to_string(), "broken pipe".to_string()];
    assert_eq!(
        render_full_error("cycle failed", &causes),
        "Error: cycle failed\nFull error chain:\n  0: the session died\n  1: broken pipe\n"
    );
}
