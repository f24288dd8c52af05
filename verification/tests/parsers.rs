//! The two text parsers, block and line level, and the whole-output paths.

use batchmon::batch::{parse_cluster_status, parse_jmanl_output, parse_jobstat_jobs};
use batchmon::cycles::parse_groups_output;
use batchmon::fields::FieldMap;
use batchmon::records::jobstat_job_str_to_btree;

fn field<'a>(m: &'a FieldMap, key: &str) -> &'a str {
    m.get(key).expect(key).as_str()
}

fn running_block() -> String {
    [
        "101",
        "    Job_Name = myjob",
        "    Job_Owner = alice@login1",
        "    job_state = R",
        "    queue = batch",
        "    Nodes = cm01",
        "    Resource_List.mem = 50gb",
        "    Resource_List.ncpus = 4",
        "    Resource_List.walltime = 01:00:00",
        "    Resource_List.select = 1:ncpus=4",
        "    resources_used.mem = 10gb",
        "    resources_used.walltime = 00:30:00",
        "    resources_used.cpupercent = 200",
        "    stime = Fri Oct 10 12:00:00 2025",
    ]
    .join("\n")
}

fn queued_block() -> String {
    [
        "102",
        "    Job_Name = qjob",
        "    Job_Owner = bob",
        "    job_state = Q",
        "    queue = batch",
        "    Resource_List.mem = 10gb",
        "    Resource_List.ncpus = 2",
        "    Resource_List.walltime = 01:00:00",
        "    Resource_List.select = 1:ncpus=2",
    ]
    .join("\n")
}

#[test]
fn jobstat_block_yields_a_finished_record() {
    let m = jobstat_job_str_to_btree(&running_block()).unwrap();
    assert_eq!(field(&m, "job_id"), "101");
    assert_eq!(field(&m, "Job_Name"), "myjob");
    // `user@host` owners are cut back to the user.
    assert_eq!(field(&m, "Job_Owner"), "alice");
    // The start time went through the calendar.
    assert_eq!(field(&m, "start_time"), "1760097600");
    // Memory was floored to whole gigabytes and the suffix trimmed.
    assert_eq!(field(&m, "resources_used.mem"), "10");
    assert_eq!(field(&m, "Resource_List.mem"), "50");
    // The three efficiencies, in hundredths of a percent.
    assert_eq!(field(&m, "mem_efficiency"), "2000");
    assert_eq!(field(&m, "walltime_efficiency"), "5000");
    assert_eq!(field(&m, "cpu_efficiency"), "5000");
}

#[test]
fn jobstat_queued_job_gets_zeroed_placeholders() {
    let m = jobstat_job_str_to_btree(&queued_block()).unwrap();
    assert_eq!(field(&m, "start_time"), "2147483647");
    assert_eq!(field(&m, "Nodes"), "None");
    assert_eq!(field(&m, "resources_used.mem"), "0");
    assert_eq!(field(&m, "mem_efficiency"), "0");
    assert_eq!(field(&m, "walltime_efficiency"), "0");
    assert_eq!(field(&m, "cpu_efficiency"), "0");
}

#[test]
fn jobstat_block_without_a_state_is_an_error() {
    let block = "103\n    Job_Name = broken";
    assert!(jobstat_job_str_to_btree(block).is_err());
}

#[test]
fn jobstat_bad_date_is_an_error_for_the_block() {
    let block = "104\n    job_state = R\n    stime = yesterday";
    assert!(jobstat_job_str_to_btree(block).is_err());
}

fn jobstat_output() -> String {
    let header = [
        "cluster summary",
        "nodes: 5 used + 2 unused + 1 unavailable = 8 total",
        "CPU cores: 100 used + 50 unused + 10 unavailable = 160 total",
        "GPU cores: 4 used + 2 unused + 2 unavailable = 8 total",
        "status: [R]unning [Q]ueued",
        "--------------------",
        "",
    ]
    .join("\n");
    format!("{}{}\n\n{}", header, running_block(), queued_block())
}

#[test]
fn cluster_header_reads_six_counters_by_position() {
    let c = parse_cluster_status(&jobstat_output()).unwrap();
    assert_eq!(c.used_nodes, 5);
    assert_eq!(c.total_nodes, 8);
    assert_eq!(c.used_cpus, 100);
    assert_eq!(c.total_cpus, 160);
    assert_eq!(c.used_gpus, 4);
    assert_eq!(c.total_gpus, 8);
}

#[test]
fn cluster_header_failure_is_an_error() {
    assert!(parse_cluster_status("no header here").is_err());
}

#[test]
fn jobstat_output_splits_into_records_and_skips_bad_blocks() {
    let with_bad = format!("{}\n\nnot a job block", jobstat_output());
    let (records, skipped) = parse_jobstat_jobs(&with_bad).unwrap();
    assert_eq!(records.len(), 2);
    assert_eq!(field(&records[0], "job_id"), "101");
    assert_eq!(field(&records[1], "job_id"), "102");
    assert_eq!(skipped.len(), 1);
}

#[test]
fn jobstat_output_without_delimiter_is_an_error() {
    assert!(parse_jobstat_jobs("nodes: 1 2\nno delimiter").is_err());
}

fn jmanl_good_line() -> &'static str {
    "10/01/2025 20:00:00;E;2001.cm1.hpc;user=alice jobname=j1 queue=batch \
     start=1700000000 end=1700003600 Resource_List.mem=10gb Resource_List.ncpus=4 \
     Resource_List.walltime=01:00:00 Resource_List.select=1:ncpus=4 \
     resources_used.mem=10gb resources_used.walltime=00:30:00 \
     resources_used.cpupercent=200 exec_host=cm01/0+cm02/1+cm01/2 Exit_status=0 \
     resources_used.cput=01:30:00"
}

fn jmanl_output(sep: &str) -> String {
    let lines = [
        "history for alice",
        "Job 2001.cm-abc-def (4 CPUs, 1 node(s), 2 chunk(s))",
        "Raw records::",
        jmanl_good_line(),
        "",
    ];
    lines.join(sep)
}

#[test]
fn jmanl_output_yields_records_with_chunks_merged_in() {
    let (records, skipped) = parse_jmanl_output(&jmanl_output("\n")).unwrap();
    assert_eq!(records.len(), 1);
    assert!(skipped.is_empty());
    let m = &records[0];
    assert_eq!(field(m, "job_id"), "2001");
    assert_eq!(field(m, "job_state"), "E");
    assert_eq!(field(m, "Job_Owner"), "alice");
    assert_eq!(field(m, "Job_Name"), "j1");
    assert_eq!(field(m, "start_time"), "1700000000");
    assert_eq!(field(m, "end_time"), "1700003600");
    // The exec_host list, reduced to distinct nodes in order.
    assert_eq!(field(m, "Nodes"), "cm01,cm02");
    // The chunk count came from the preamble, not the record line.
    assert_eq!(field(m, "chunks"), "2");
    assert_eq!(field(m, "mem_efficiency"), "10000");
    assert_eq!(field(m, "walltime_efficiency"), "5000");
    assert_eq!(field(m, "cpu_efficiency"), "5000");
}

#[test]
fn jmanl_crlf_input_yields_identical_records() {
    // The identical logical input under the two line-ending conventions.
    let (lf, _) = parse_jmanl_output(&jmanl_output("\n")).unwrap();
    let (crlf, _) = parse_jmanl_output(&jmanl_output("\r\n")).unwrap();
    assert_eq!(lf.len(), crlf.len());
    for key in [
        "job_id",
        "job_state",
        "Job_Owner",
        "start_time",
        "end_time",
        "Nodes",
        "chunks",
        "mem_efficiency",
        "walltime_efficiency",
        "cpu_efficiency",
    ] {
        assert_eq!(field(&lf[0], key), field(&crlf[0], key));
    }
}

#[test]
fn jmanl_line_missing_a_field_is_skipped_but_siblings_survive() {
    // The first record line has no `end=` field and is dropped with a
    // reason; the second is still parsed.
    let raw = format!(
        "preamble\nRaw records::\n10/01;E;2000.cm1;user=bob jobname=bad \
         Resource_List.mem=1gb resources_used.mem=1gb \
         Resource_List.walltime=01:00:00 resources_used.walltime=00:30:00 \
         resources_used.cpupercent=100 Resource_List.ncpus=1\n{}\n",
        jmanl_good_line()
    );
    let (records, skipped) = parse_jmanl_output(&raw).unwrap();
    assert_eq!(records.len(), 1);
    assert_eq!(field(&records[0], "job_id"), "2001");
    assert_eq!(skipped.len(), 1);
}

#[test]
fn jmanl_output_without_marker_is_an_error() {
    assert!(parse_jmanl_output("no marker at all\n").is_err());
}

#[test]
fn groups_output_splits_after_the_separator() {
    let groups = parse_groups_output("alice : staff hpc chem\n").unwrap();
    assert_eq!(groups, vec!["staff", "hpc", "chem"]);
    assert!(parse_groups_output("no separator").is_err());
}

#[test]
fn repeated_node_status_blocks_are_ignored_silently() {
    let with_nodes_block = format!("{}\n\nnodes: 5 2 1 8", jobstat_output());
    let (records, skipped) = parse_jobstat_jobs(&with_nodes_block).unwrap();
    assert_eq!(records.len(), 2);
    assert!(skipped.is_empty());
}

#[test]
fn shorten_keeps_a_name_of_exactly_the_limit() {
    let tk = batchmon::report::Toolkit;
    assert_eq!(tk.shorten(&"abcdefghij".to_string(), 10), "abcdefghij");
}
