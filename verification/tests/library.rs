use cs252chkr::constants::{CS252_USER_NAME, SESSION_START_ADDITION_IN_MINUTES};
use cs252chkr::datetime::{
    get_humanized_minutes, get_time, minutes_between, MAX_TIMESTAMP, MIN_TIMESTAMP,
};
use cs252chkr::git::{
    classify_diff_line, get_commit_stats, get_estimate_minutes, get_initial_commit,
    is_course_account_name, split_pathspec, try_get_commit_stats, CommitInfo, DiffLineKind,
};
use cs252chkr::structs::{CommitStats, CommitTime};
use cs252chkr::{author_border, author_heading, zip_by_author, CommitMetadata, Error};

fn commit(author: Option<&str>, seconds: i64, diff: Option<(usize, usize)>) -> CommitInfo {
    CommitInfo {
        author: author.map(|a| a.to_string()),
        seconds,
        diff_stats: diff,
    }
}

fn stats(author: &str, count: usize) -> CommitStats {
    CommitStats {
        author: author.to_string(),
        count,
        insertions: 0,
        deletions: 0,
    }
}

fn time(author: &str, minutes: usize) -> CommitTime {
    CommitTime {
        author: author.to_string(),
        time: minutes,
    }
}

#[test]
fn author_returns_the_author_field() {
    assert_eq!(stats("alice", 1).author(), "alice");
    assert_eq!(time("bob", 3).author(), "bob");
}

#[test]
fn zip_pairs_by_author_in_order_of_second() {
    let first = vec![stats("alice", 1), stats("bob", 2), stats("alice", 3)];
    let second = vec![time("bob", 10), time("carol", 20), time("alice", 30)];
    let zipped = zip_by_author(first, second);
    assert_eq!(zipped.len(), 2);
    assert_eq!(zipped[0].0, "bob");
    assert_eq!(zipped[0].1 .0.count, 2);
    assert_eq!(zipped[0].1 .1.time, 10);
    assert_eq!(zipped[1].0, "alice");
    // the last element of the first list by that author is the one kept
    assert_eq!(zipped[1].1 .0.count, 3);
    assert_eq!(zipped[1].1 .1.time, 30);
}

#[test]
fn zip_pairs_each_author_once() {
    let first = vec![stats("alice", 1)];
    let second = vec![time("alice", 5), time("alice", 6)];
    let zipped = zip_by_author(first, second);
    assert_eq!(zipped.len(), 1);
    assert_eq!(zipped[0].1 .1.time, 5);
}

#[test]
fn zip_with_empty_lists() {
    let zipped = zip_by_author(Vec::<CommitStats>::new(), vec![time("alice", 5)]);
    assert!(zipped.is_empty());
    let zipped = zip_by_author(vec![stats("alice", 1)], Vec::<CommitTime>::new());
    assert!(zipped.is_empty());
}

#[test]
fn commit_stats_count_and_sum_per_author() {
    let commits = vec![
        commit(Some("alice"), 100, Some((10, 2))),
        commit(Some("bob"), 90, Some((1, 1))),
        commit(Some("alice"), 80, None),
        commit(Some("alice"), 70, Some((5, 7))),
        commit(None, 60, Some((3, 0))),
    ];
    let result = get_commit_stats(&commits);
    assert_eq!(result.len(), 3);
    assert_eq!(result[0].author, "alice");
    assert_eq!(result[0].count, 3);
    assert_eq!(result[0].insertions, 15);
    assert_eq!(result[0].deletions, 9);
    let bob = result.iter().find(|s| s.author == "bob").unwrap();
    assert_eq!((bob.count, bob.insertions, bob.deletions), (1, 1, 1));
    let unnamed = result.iter().find(|s| s.author == "-").unwrap();
    assert_eq!((unnamed.count, unnamed.insertions, unnamed.deletions), (1, 3, 0));
}

#[test]
fn commit_stats_leave_out_the_course_account() {
    let commits = vec![
        commit(Some(CS252_USER_NAME), 10, Some((100, 0))),
        commit(Some(CS252_USER_NAME), 20, Some((100, 0))),
        commit(Some("alice"), 30, Some((1, 0))),
    ];
    let result = get_commit_stats(&commits);
    assert_eq!(result.len(), 1);
    assert_eq!(result[0].author, "alice");
    assert!(result.iter().all(|s| s.author != CS252_USER_NAME));
}

#[test]
fn commit_stats_are_sorted_by_count() {
    let commits = vec![
        commit(Some("a"), 1, None),
        commit(Some("b"), 2, None),
        commit(Some("b"), 3, None),
        commit(Some("c"), 4, None),
        commit(Some("c"), 5, None),
        commit(Some("c"), 6, None),
    ];
    let result = get_commit_stats(&commits);
    let counts: Vec<usize> = result.iter().map(|s| s.count).collect();
    assert_eq!(counts, vec![3, 2, 1]);
    assert_eq!(result[0].author, "c");
    assert_eq!(result[2].author, "a");
}

#[test]
fn commit_stats_of_empty_history() {
    assert!(get_commit_stats(&Vec::new()).is_empty());
}

#[test]
fn estimate_single_commit_is_one_session_start() {
    let commits = vec![commit(Some("alice"), 1_000_000, None)];
    let result = get_estimate_minutes(&commits).ok().unwrap();
    assert_eq!(result.len(), 1);
    assert_eq!(result[0].author, "alice");
    assert_eq!(result[0].time, SESSION_START_ADDITION_IN_MINUTES);
}

#[test]
fn estimate_adds_gaps_within_a_session_and_starts_after_idling() {
    // newest first, as the history is walked
    let t = 1_700_000_000;
    let commits = vec![
        commit(Some("alice"), t + 100 * 60, None),
        commit(Some("alice"), t + 10 * 60, None),
        commit(Some("alice"), t, None),
        commit(Some("bob"), t, None),
    ];
    let result = get_estimate_minutes(&commits).ok().unwrap();
    assert_eq!(result.len(), 2);
    // 15 for the first commit, 15 for a new session after 90 minutes, 10 for the gap
    assert_eq!(result[0].author, "alice");
    assert_eq!(result[0].time, 40);
    assert_eq!(result[1].author, "bob");
    assert_eq!(result[1].time, 15);
}

#[test]
fn estimate_rounds_gaps_toward_zero_in_either_direction() {
    let t = 1_700_000_000;
    let forward = vec![commit(Some("a"), t, None), commit(Some("a"), t + 14 * 60 + 59, None)];
    let backward = vec![commit(Some("a"), t + 14 * 60 + 59, None), commit(Some("a"), t, None)];
    assert_eq!(get_estimate_minutes(&forward).ok().unwrap()[0].time, 29);
    assert_eq!(get_estimate_minutes(&backward).ok().unwrap()[0].time, 29);
    // exactly the idle limit starts a new session
    let limit = vec![commit(Some("a"), t, None), commit(Some("a"), t + 15 * 60, None)];
    assert_eq!(get_estimate_minutes(&limit).ok().unwrap()[0].time, 30);
}

#[test]
fn estimate_counts_the_course_account_too() {
    let commits = vec![commit(Some(CS252_USER_NAME), 5, None), commit(None, 5, None)];
    let result = get_estimate_minutes(&commits).ok().unwrap();
    assert_eq!(result.len(), 2);
    assert!(result.iter().any(|t| t.author == CS252_USER_NAME));
    assert!(result.iter().any(|t| t.author == "-"));
}

#[test]
fn estimate_fails_on_unrepresentable_previous_time() {
    // in time order the unrepresentable commit comes first, so it is the previous one
    let commits = vec![
        commit(Some("a"), 0, None),
        commit(Some("a"), MIN_TIMESTAMP - 1, None),
    ];
    assert!(matches!(
        get_estimate_minutes(&commits),
        Err(Error::PreviousCommitTimeError)
    ));
}

#[test]
fn estimate_fails_on_unrepresentable_commit_time() {
    let commits = vec![
        commit(Some("a"), MAX_TIMESTAMP + 1, None),
        commit(Some("a"), 0, None),
    ];
    assert!(matches!(
        get_estimate_minutes(&commits),
        Err(Error::CommitTimeError)
    ));
}

#[test]
fn estimate_does_not_check_a_lone_first_commit_time() {
    let commits = vec![commit(Some("a"), i64::MAX, None)];
    assert_eq!(get_estimate_minutes(&commits).ok().unwrap()[0].time, 15);
}

#[test]
fn estimates_are_sorted_by_time() {
    let t = 1_000_000;
    let commits = vec![
        commit(Some("a"), t, None),
        commit(Some("b"), t, None),
        commit(Some("b"), t + 60 * 60, None),
        commit(Some("c"), t, None),
        commit(Some("c"), t + 60 * 60, None),
        commit(Some("c"), t + 2 * 60 * 60, None),
    ];
    let times: Vec<usize> = get_estimate_minutes(&commits)
        .ok()
        .unwrap()
        .iter()
        .map(|t| t.time)
        .collect();
    assert_eq!(times, vec![45, 30, 15]);
}

#[test]
fn initial_commit_skips_the_course_account() {
    let authors = vec![CS252_USER_NAME.to_string(), "alice".to_string(), "bob".to_string()];
    assert!(matches!(get_initial_commit(&authors), Ok(1)));
    let authors = vec!["bob".to_string()];
    assert!(matches!(get_initial_commit(&authors), Ok(0)));
}

#[test]
fn initial_commit_missing() {
    let authors = vec![CS252_USER_NAME.to_string(), CS252_USER_NAME.to_string()];
    assert!(matches!(get_initial_commit(&authors), Err(Error::NoCommits)));
    assert!(matches!(get_initial_commit(&Vec::new()), Err(Error::NoCommits)));
}

#[test]
fn course_account_name() {
    assert!(is_course_account_name(&"CS252".to_string()));
    assert!(!is_course_account_name(&"cs252".to_string()));
    assert!(!is_course_account_name(&"CS2520".to_string()));
}

#[test]
fn pathspec_splits_like_str_split() {
    for spec in ["src/*.c include/*.h", "", "a  b", " lead", "trail ", "é ü"] {
        let expected: Vec<String> = spec.split(' ').map(|p| p.to_string()).collect();
        assert_eq!(split_pathspec(spec), expected);
    }
    assert_eq!(split_pathspec("*.rs"), vec!["*.rs".to_string()]);
    assert_eq!(split_pathspec("a b").join(" "), "a b");
}

#[test]
fn diff_lines_are_classified_by_origin() {
    assert!(matches!(classify_diff_line(' '), DiffLineKind::Context));
    assert!(matches!(classify_diff_line('+'), DiffLineKind::Addition));
    assert!(matches!(classify_diff_line('-'), DiffLineKind::Deletion));
    assert!(matches!(classify_diff_line('F'), DiffLineKind::Hidden));
    assert!(matches!(classify_diff_line('H'), DiffLineKind::Hidden));
}

#[test]
fn time_range_boundaries() {
    assert_eq!(get_time(0).unwrap().seconds, 0);
    assert_eq!(get_time(1_431_648_000).unwrap().seconds, 1_431_648_000);
    assert_eq!(get_time(MAX_TIMESTAMP).unwrap().seconds, MAX_TIMESTAMP);
    assert_eq!(get_time(MIN_TIMESTAMP).unwrap().seconds, MIN_TIMESTAMP);
    assert!(get_time(MAX_TIMESTAMP + 1).is_none());
    assert!(get_time(MIN_TIMESTAMP - 1).is_none());
    assert!(get_time(i64::MAX).is_none());
    assert!(get_time(i64::MIN).is_none());
}

#[test]
fn minutes_between_rounds_toward_zero() {
    let a = get_time(1_000_000).unwrap();
    let b = get_time(1_000_000 + 119).unwrap();
    assert_eq!(minutes_between(&b, &a), 1);
    assert_eq!(minutes_between(&a, &b), -1);
    assert_eq!(minutes_between(&a, &a), 0);
    let c = get_time(1_000_000 + 120).unwrap();
    assert_eq!(minutes_between(&c, &a), 2);
    let lo = get_time(MIN_TIMESTAMP).unwrap();
    let hi = get_time(MAX_TIMESTAMP).unwrap();
    assert_eq!(
        minutes_between(&hi, &lo),
        (MAX_TIMESTAMP - MIN_TIMESTAMP) / 60
    );
}

#[test]
fn humanized_minutes_text() {
    assert_eq!(get_humanized_minutes(125), "2 hours and 5 minutes");
    assert_eq!(get_humanized_minutes(1), "1 minute");
    assert_eq!(get_humanized_minutes(0), "0 seconds");
    assert_eq!(get_humanized_minutes(45 * 24 * 60), "1 month, 2 weeks and 1 day");
    assert_eq!(get_humanized_minutes(-90), "1 hour and 30 minutes");
}

#[test]
fn border_is_four_longer_than_the_name_in_bytes() {
    assert_eq!(author_border("alice"), "=========");
    assert_eq!(author_border(""), "====");
    assert_eq!(author_border("é"), "======");
}

#[test]
fn heading_frames_the_name() {
    assert_eq!(author_heading("alice"), "| alice |");
    assert_eq!(author_heading(""), "|  |");
}

#[test]
fn zipping_stats_and_estimates_reports_every_author_but_the_course_account() {
    let t = 1_700_000_000;
    let commits = vec![
        commit(Some(CS252_USER_NAME), t, Some((50, 0))),
        commit(Some("alice"), t + 60, Some((3, 1))),
        commit(Some("bob"), t + 120, Some((2, 2))),
        commit(Some("alice"), t + 180, Some((1, 0))),
        commit(None, t + 240, None),
    ];
    let stats = get_commit_stats(&commits);
    let times = get_estimate_minutes(&commits).ok().unwrap();
    let zipped = zip_by_author(stats, times);
    let mut authors: Vec<String> = zipped.iter().map(|e| e.0.clone()).collect();
    authors.sort();
    assert_eq!(authors, vec!["-".to_string(), "alice".to_string(), "bob".to_string()]);
    for (author, (stat, time)) in &zipped {
        assert_eq!(&stat.author, author);
        assert_eq!(&time.author, author);
    }
    let alice = zipped.iter().find(|e| e.0 == "alice").unwrap();
    assert_eq!(alice.1 .0.count, 2);
    assert_eq!(alice.1 .1.time, 17);
}

#[test]
fn estimate_stays_between_one_and_count_session_starts() {
    let t = 1_700_000_000;
    let commits = vec![
        commit(Some("a"), t, None),
        commit(Some("a"), t + 60, None),
        commit(Some("a"), t + 10_000, None),
    ];
    let minutes = get_estimate_minutes(&commits).ok().unwrap()[0].time;
    assert_eq!(minutes, 15 + 1 + 15);
    assert!(minutes >= SESSION_START_ADDITION_IN_MINUTES);
    assert!(minutes <= 3 * SESSION_START_ADDITION_IN_MINUTES);
}

#[test]
fn reversed_walk_gives_the_same_estimates() {
    let t = 1_700_000_000;
    let commits = vec![
        commit(Some("alice"), t, None),
        commit(Some("bob"), t + 30, None),
        commit(Some("alice"), t + 5 * 60, None),
        commit(Some("alice"), t + 200 * 60, None),
        commit(Some("bob"), t + 11 * 60 + 59, None),
        commit(None, t + 3, None),
    ];
    let reversed: Vec<CommitInfo> = commits
        .iter()
        .rev()
        .map(|c| commit(c.author.as_deref(), c.seconds, c.diff_stats))
        .collect();
    let mut forward: Vec<(String, usize)> = get_estimate_minutes(&commits)
        .ok()
        .unwrap()
        .into_iter()
        .map(|e| (e.author, e.time))
        .collect();
    let mut backward: Vec<(String, usize)> = get_estimate_minutes(&reversed)
        .ok()
        .unwrap()
        .into_iter()
        .map(|e| (e.author, e.time))
        .collect();
    forward.sort();
    backward.sort();
    assert_eq!(forward, backward);
    assert_eq!(
        forward,
        vec![
            ("-".to_string(), 15),
            ("alice".to_string(), 35),
            ("bob".to_string(), 26)
        ]
    );
}

#[test]
fn other_pathspec_keeps_authors_and_counts() {
    let narrow = vec![
        commit(Some("alice"), 1, Some((1, 0))),
        commit(Some("bob"), 2, None),
        commit(Some("alice"), 3, Some((0, 4))),
    ];
    let wide = vec![
        commit(Some("alice"), 1, Some((100, 20))),
        commit(Some("bob"), 2, Some((7, 7))),
        commit(Some("alice"), 3, Some((9, 40))),
    ];
    let mut a: Vec<(String, usize)> = get_commit_stats(&narrow).into_iter().map(|s| (s.author, s.count)).collect();
    let mut b: Vec<(String, usize)> = get_commit_stats(&wide).into_iter().map(|s| (s.author, s.count)).collect();
    a.sort();
    b.sort();
    assert_eq!(a, b);
    assert_eq!(a, vec![("alice".to_string(), 2), ("bob".to_string(), 1)]);
}

#[test]
fn overflowing_line_counts_are_refused() {
    let commits = vec![
        commit(Some("alice"), 1, Some((usize::MAX, 0))),
        commit(Some("alice"), 2, Some((1, 0))),
    ];
    assert!(try_get_commit_stats(&commits).is_none());
    let commits = vec![
        commit(Some("alice"), 1, Some((usize::MAX, 0))),
        commit(Some("bob"), 2, Some((1, usize::MAX))),
    ];
    let stats = try_get_commit_stats(&commits).unwrap();
    assert_eq!(stats.len(), 2);
}

#[test]
fn errors_convert_from_git_and_anyhow() {
    let e: Error = git2::Error::from_str("boom").into();
    assert!(matches!(e, Error::GitError(_)));
    let e: Error = anyhow::Error::msg("boom").into();
    assert!(matches!(e, Error::Other(_)));
}

#[test]
fn estimate_takes_each_authors_commits_in_time_order() {
    let t = 1_700_000_000;
    // walked out of time order: T, T + 3000 s, T + 60 s
    let commits = vec![
        commit(Some("a"), t, None),
        commit(Some("a"), t + 3000, None),
        commit(Some("a"), t + 60, None),
    ];
    // in time order: 15 for the first commit, 1 minute later, then a new session after 49 minutes
    assert_eq!(get_estimate_minutes(&commits).ok().unwrap()[0].time, 15 + 1 + 15);
}

#[test]
fn estimate_does_not_depend_on_walk_order() {
    let t = 1_700_000_000;
    let base = vec![
        commit(Some("a"), t + 600, None),
        commit(Some("b"), t, None),
        commit(Some("a"), t, None),
        commit(Some("a"), t + 7200, None),
        commit(Some("b"), t + 300, None),
        commit(Some("a"), t + 660, None),
    ];
    let expected = {
        let mut v: Vec<(String, usize)> = get_estimate_minutes(&base)
            .ok()
            .unwrap()
            .into_iter()
            .map(|e| (e.author, e.time))
            .collect();
        v.sort();
        v
    };
    assert_eq!(expected, vec![("a".to_string(), 15 + 10 + 1 + 15), ("b".to_string(), 15 + 5)]);
    for rotation in 0..base.len() {
        let walk: Vec<CommitInfo> = base[rotation..]
            .iter()
            .chain(base[..rotation].iter())
            .map(|c| commit(c.author.as_deref(), c.seconds, c.diff_stats))
            .collect();
        let mut got: Vec<(String, usize)> = get_estimate_minutes(&walk)
            .ok()
            .unwrap()
            .into_iter()
            .map(|e| (e.author, e.time))
            .collect();
        got.sort();
        assert_eq!(got, expected);
    }
}

#[test]
fn zip_with_lists_swapped_pairs_the_same_entries() {
    let first = vec![stats("alice", 1), stats("bob", 2), stats("dave", 4)];
    let second = vec![time("carol", 30), time("bob", 20), time("alice", 10)];
    let one = zip_by_author(
        vec![stats("alice", 1), stats("bob", 2), stats("dave", 4)],
        vec![time("carol", 30), time("bob", 20), time("alice", 10)],
    );
    let other = zip_by_author(second, first);
    assert_eq!(one.len(), other.len());
    for (author, (s, t)) in &one {
        let found = other.iter().find(|e| &e.0 == author).unwrap();
        assert_eq!(found.1 .0.time, t.time);
        assert_eq!(found.1 .1.count, s.count);
    }
}

#[test]
fn zip_ignores_the_order_of_the_first_list() {
    let second = || vec![time("bob", 20), time("alice", 10), time("erin", 5)];
    let one = zip_by_author(vec![stats("alice", 1), stats("bob", 2), stats("carol", 3)], second());
    let other = zip_by_author(vec![stats("carol", 3), stats("bob", 2), stats("alice", 1)], second());
    let view = |r: &Vec<(String, (CommitStats, CommitTime))>| {
        r.iter()
            .map(|e| (e.0.clone(), e.1 .0.count, e.1 .1.time))
            .collect::<Vec<_>>()
    };
    assert_eq!(view(&one), view(&other));
    assert_eq!(
        view(&one),
        vec![("bob".to_string(), 2, 20), ("alice".to_string(), 1, 10)]
    );
}
