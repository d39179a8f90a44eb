use qcloud::upload::{max_threads_accepted, part_size_accepted};
use qcloud::upload::{
    check_target, content_type, content_type_for, exit_status, failure_notice,
    plan_chunk, plan_directory_upload, sum_tallies, tally_outcomes, Operation, UploadError,
    UploadTally, MAX_WORKERS,
};

#[test]
fn empty_directory_is_refused_before_any_worker() {
    let r = plan_directory_upload(Vec::new(), MAX_WORKERS);
    assert_eq!(r.unwrap_err(), UploadError::EmptyDirectory);
}

#[test]
fn missing_target_is_refused() {
    assert_eq!(check_target(false), Err(UploadError::NotFound));
    assert_eq!(check_target(true), Ok(()));
}

#[test]
fn directory_of_five_files_all_succeeding() {
    let files: Vec<String> = (1..=5).map(|i| format!("dir/f{}.txt", i)).collect();
    let chunks = plan_directory_upload(files.clone(), MAX_WORKERS).unwrap();
    assert_eq!(chunks.len(), 5);
    let dest = Some("backup/".to_string());
    let mut tallies = Vec::new();
    for chunk in chunks.iter() {
        let jobs = plan_chunk(chunk, "dir", &dest);
        assert_eq!(jobs.len(), chunk.len());
        for job in jobs.iter() {
            assert!(job.key.starts_with("backup/"));
            assert!(!job.key.contains("//"));
            assert_eq!(job.content_type, "text/plain");
        }
        tallies.push(tally_outcomes(&vec![true; jobs.len()]));
    }
    let total = sum_tallies(&tallies).unwrap();
    assert_eq!(total, UploadTally { success: 5, failure: 0 });
}

#[test]
fn two_failures_of_seven_are_counted_and_do_not_stop() {
    let outcomes = vec![true, false, true, true, false, true, true];
    let t = tally_outcomes(&outcomes);
    assert_eq!(t, UploadTally { success: 5, failure: 2 });

    let files: Vec<String> = (0..7).map(|i| format!("d/{}", i)).collect();
    let chunks = plan_directory_upload(files, 3).unwrap();
    let mut tallies = Vec::new();
    let mut k = 0;
    for chunk in chunks.iter() {
        let part: Vec<bool> = outcomes[k..k + chunk.len()].to_vec();
        k += chunk.len();
        tallies.push(tally_outcomes(&part));
    }
    assert_eq!(k, 7);
    assert_eq!(sum_tallies(&tallies), Some(UploadTally { success: 5, failure: 2 }));
}

#[test]
fn tally_sum_overflow_is_reported() {
    let t = vec![UploadTally { success: u64::MAX, failure: 0 }, UploadTally { success: 1, failure: 0 }];
    assert_eq!(sum_tallies(&t), None);
    assert_eq!(sum_tallies(&Vec::new()), Some(UploadTally { success: 0, failure: 0 }));
}

#[test]
fn record_counts_one_outcome() {
    let mut t = UploadTally::new();
    t.record(true);
    t.record(false);
    t.record(false);
    assert_eq!(t, UploadTally { success: 1, failure: 2 });
}

#[test]
fn content_type_is_guessed_from_extension() {
    assert_eq!(content_type("photo.png"), "image/png");
    assert_eq!(content_type("dir/index.html"), "text/html");
    assert_eq!(content_type("no_extension"), "application/octet-stream");
    assert_eq!(content_type("x.unknownext"), "application/octet-stream");
}

#[test]
fn content_type_defaults_to_octet_stream() {
    assert_eq!(content_type_for(None), "application/octet-stream");
    assert_eq!(content_type_for(Some("text/css".to_string())), "text/css");
}

#[test]
fn delete_failure_notice_carries_error_text() {
    let notice = failure_notice(Operation::Delete, "k", "NoSuchKey");
    assert_eq!(notice, "删除失败, NoSuchKey");
    assert!(notice.contains("NoSuchKey"));
    assert_eq!(exit_status(false), 1);
    assert_eq!(exit_status(true), 0);
}

#[test]
fn upload_and_download_failure_notices() {
    assert_eq!(failure_notice(Operation::Upload, "a.txt", "timeout"), "a.txt 上传失败, timeout");
    assert_eq!(failure_notice(Operation::Download, "k", "denied"), "下载失败, denied");
}

#[test]
fn plan_chunk_keys_without_destination_are_paths() {
    let chunk = vec!["d/a.json".to_string(), "d/b".to_string()];
    let jobs = plan_chunk(&chunk, "d", &None);
    assert_eq!(jobs[0].key, "d/a.json");
    assert_eq!(jobs[0].path, "d/a.json");
    assert_eq!(jobs[0].content_type, "application/json");
    assert_eq!(jobs[1].key, "d/b");
    assert_eq!(jobs[1].content_type, "application/octet-stream");
}

#[test]
fn part_size_and_threads_bounds() {
    assert!(part_size_accepted(None));
    assert!(part_size_accepted(Some(1024 * 1024)));
    assert!(!part_size_accepted(Some(1024 * 1024 - 1)));
    assert!(!part_size_accepted(Some(1024 * 1024 * 1024)));
    assert!(max_threads_accepted(Some(1000)));
    assert!(!max_threads_accepted(Some(1001)));
    assert!(max_threads_accepted(None));
}

#[test]
fn non_empty_directory_is_planned() {
    let r = plan_directory_upload(vec!["d/a".to_string()], MAX_WORKERS);
    assert_eq!(r.unwrap(), vec![vec!["d/a".to_string()]]);
}
