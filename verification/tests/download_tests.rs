use levi::downloader::{
    byte_range, download_target, is_already_downloaded, next_part_action, part_file_path,
    part_size, plan_parts, range_header, total_size, ChunkEvent, PartAction,
};
use levi::errors::LeviError;
use levi::files::{creation_mode, OpenMode};
use levi::requests::{check_response, is_resumable, ResponseHead};
use levi::text::push_decimal;

fn head(status: u16, content_length: Option<u64>, accepts_ranges: bool) -> ResponseHead {
    ResponseHead { status, content_length, accepts_ranges }
}

#[test]
fn success_statuses_pass() {
    for status in [200u16, 204, 206, 299] {
        let h = check_response(head(status, Some(5), true)).unwrap();
        assert_eq!(h.status, status);
        assert_eq!(h.content_length, Some(5));
    }
}

#[test]
fn other_statuses_fail() {
    for status in [100u16, 199, 300, 301, 404, 500] {
        match check_response(head(status, None, false)) {
            Err(LeviError::HttpStatus(s)) => assert_eq!(s, status),
            _ => panic!("status {} must be refused", status),
        }
    }
}

#[test]
fn resumable_follows_accept_ranges() {
    assert!(is_resumable(&head(200, None, true)));
    assert!(!is_resumable(&head(200, None, false)));
}

#[test]
fn total_size_needs_content_length() {
    assert_eq!(total_size(&head(200, Some(1234), false)).unwrap(), 1234);
    match total_size(&head(200, None, false)) {
        Err(LeviError::Url(m)) => assert_eq!(m, "Url doesn't provide content_length"),
        _ => panic!("a response without a length must be refused"),
    }
}

#[test]
fn target_paths() {
    let t = download_target("/tmp/dl/", "https://x.org/pop-os_22.04.iso").unwrap();
    assert_eq!(t.file_destination, "/tmp/dl/pop-os_22.04");
    assert_eq!(t.final_file_path, "/tmp/dl/pop-os_22.04.iso");
}

#[test]
fn target_without_extension_gets_noext() {
    let t = download_target("d/", "https://x.org/file").unwrap();
    assert_eq!(t.file_destination, "d/file");
    assert_eq!(t.final_file_path, "d/file.noext");
}

#[test]
fn target_of_bad_url_fails() {
    match download_target("d/", "https://x.org/") {
        Err(LeviError::Url(m)) => assert_eq!(m, "Url couldn't find an extension: https://x.org/"),
        _ => panic!("a URL ending in '/' must be refused"),
    }
}

#[test]
fn already_downloaded_needs_same_nonzero_size() {
    assert!(is_already_downloaded(10, 10));
    assert!(!is_already_downloaded(0, 0));
    assert!(!is_already_downloaded(9, 10));
    assert!(!is_already_downloaded(11, 10));
}

#[test]
fn part_paths() {
    assert_eq!(part_file_path("d/file", 0), "d/file.part0");
    assert_eq!(part_file_path("d/file", 7), "d/file.part7");
    assert_eq!(part_file_path("d/file", 120), "d/file.part120");
}

#[test]
fn decimal_digits() {
    for n in [0u64, 9, 10, 99, 100, 12345, u64::MAX] {
        let mut s = String::from("x");
        push_decimal(&mut s, n);
        assert_eq!(s, format!("x{}", n));
    }
}

#[test]
fn part_sizes() {
    assert_eq!(part_size(10, 3), 3);
    assert_eq!(part_size(100, 8), 12);
    assert_eq!(part_size(7, 1), 7);
}

#[test]
fn byte_ranges() {
    assert_eq!(byte_range(0, 3, 3, 10), (0, 2));
    assert_eq!(byte_range(1, 3, 3, 10), (3, 5));
    assert_eq!(byte_range(2, 3, 3, 10), (6, 10));
    assert_eq!(byte_range(0, 0, 1, 0), (0, 0));
}

#[test]
fn range_headers() {
    assert_eq!(range_header(0, 2), "bytes=0-2");
    assert_eq!(range_header(1024, 4096), "bytes=1024-4096");
}

#[test]
fn plan_tiles_the_file() {
    let plan = plan_parts("d/f", 10, 3);
    assert_eq!(plan.len(), 3);
    let got: Vec<(String, u64, u64)> = plan.into_iter().map(|p| (p.path, p.start, p.end)).collect();
    assert_eq!(
        got,
        vec![
            ("d/f.part0".to_string(), 0, 2),
            ("d/f.part1".to_string(), 3, 5),
            ("d/f.part2".to_string(), 6, 10),
        ]
    );
}

#[test]
fn plan_parts_are_contiguous() {
    for (total, n) in [(100u64, 8usize), (8, 8), (1000, 7), (5, 1), (0, 1)] {
        let plan = plan_parts("p", total, n);
        assert_eq!(plan.len(), n);
        assert_eq!(plan[0].start, 0);
        assert_eq!(plan[n - 1].end, total);
        for i in 0..n - 1 {
            assert_eq!(plan[i].end + 1, plan[i + 1].start);
            assert!(plan[i].start <= plan[i].end);
        }
    }
}

#[test]
fn creation_modes() {
    assert_eq!(creation_mode("a", true, true).unwrap(), OpenMode::Append);
    assert_eq!(creation_mode("a", true, false).unwrap(), OpenMode::Append);
    assert_eq!(creation_mode("a", false, false).unwrap(), OpenMode::Overwrite);
    match creation_mode("some/file", false, true) {
        Err(LeviError::FileExists(p)) => assert_eq!(p, "some/file"),
        _ => panic!("an existing file must not be overwritten"),
    }
}

#[test]
fn part_steps() {
    assert!(matches!(next_part_action(ChunkEvent::Cancelled), PartAction::FlushAndStop));
    assert!(matches!(next_part_action(ChunkEvent::Chunk), PartAction::WriteAndContinue));
    assert!(matches!(next_part_action(ChunkEvent::EndOfBody), PartAction::FlushAndFinish));
    assert!(matches!(
        next_part_action(ChunkEvent::Failed(LeviError::TimeoutElapsed)),
        PartAction::Fail(LeviError::TimeoutElapsed)
    ));
}
