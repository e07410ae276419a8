use wikisearch::dispatcher::{AbortReason, Dispatcher, SearchResult, SlotState};
use wikisearch::trivial_search;

type Graph = Vec<(String, Vec<String>)>;

fn graph(edges: &[(&str, &[&str])]) -> Graph {
    edges
        .iter()
        .map(|(n, vs)| (n.to_string(), vs.iter().map(|v| v.to_string()).collect()))
        .collect()
}

fn fetch(g: &Graph, node: &str) -> Vec<String> {
    for (n, vs) in g {
        if n == node {
            return vs.clone();
        }
    }
    Vec::new()
}

struct RunOutcome {
    result: SearchResult,
    progress: Vec<(usize, usize, usize)>,
    dead_notices: Vec<usize>,
    fetches: Vec<String>,
}

/// Drive the dispatcher as the search loop does, with a simulated fetcher.
/// `delays` holds nodes whose result only arrives after the given number of
/// polls; `fail_first_fetch_of` makes the worker handling that node's first
/// assignment die instead of answering; `progress_limit` simulates the
/// progress consumer going away after that many received snapshots.
fn run_search(
    from: &str,
    to: &str,
    workers: usize,
    max_queue: usize,
    g: &Graph,
    delays: &[(&str, usize)],
    fail_first_fetch_of: Option<&str>,
    progress_limit: Option<usize>,
) -> RunOutcome {
    let mut progress: Vec<(usize, usize, usize)> = Vec::new();
    let mut dead_notices: Vec<usize> = Vec::new();
    let mut fetches: Vec<String> = Vec::new();

    if let Some(path) = trivial_search(&from.to_string(), &to.to_string()) {
        return RunOutcome {
            result: SearchResult::Found(path),
            progress,
            dead_notices,
            fetches,
        };
    }

    let mut d = Dispatcher::new(from.to_string(), to.to_string(), workers, max_queue);
    // The caller-side mirror of what is in flight where, as the channel ends
    // would hold it: the node sent to each worker and when its answer lands.
    let mut in_flight: Vec<Option<(String, usize)>> = vec![None; workers];
    let mut must_fail: Option<String> = fail_first_fetch_of.map(|s| s.to_string());
    let mut tick: usize = 0;

    loop {
        tick += 1;
        if let Some(snapshot) = d.take_progress() {
            match progress_limit {
                Some(limit) if progress.len() >= limit => {
                    // The consumer is gone: stop every worker and abort.
                    return RunOutcome {
                        result: SearchResult::Aborted(AbortReason::ConsumerGone),
                        progress,
                        dead_notices,
                        fetches,
                    };
                }
                _ => progress.push(snapshot),
            }
        }
        if d.over_capacity() {
            return RunOutcome {
                result: SearchResult::Aborted(AbortReason::CapacityExceeded),
                progress,
                dead_notices,
                fetches,
            };
        }
        for i in 0..workers {
            if d.worker_state(i) != SlotState::Processing {
                continue;
            }
            let (node, ready_at) = in_flight[i].clone().expect("a processing slot has a node");
            if tick < ready_at {
                continue;
            }
            if must_fail.as_deref() == Some(node.as_str()) {
                must_fail = None;
                d.collect_disconnect(i);
                dead_notices.push(i);
                in_flight[i] = None;
                continue;
            }
            fetches.push(node.clone());
            let neighbors = fetch(g, &node);
            if let Some(path) = d.collect_result(i, &neighbors) {
                return RunOutcome {
                    result: SearchResult::Found(path),
                    progress,
                    dead_notices,
                    fetches,
                };
            }
            in_flight[i] = None;
        }
        for i in 0..workers {
            if d.worker_state(i) == SlotState::Idle {
                if let Some(node) = d.assign_next(i) {
                    let wait = delays
                        .iter()
                        .find(|(n, _)| *n == node.as_str())
                        .map(|(_, w)| *w)
                        .unwrap_or(0);
                    in_flight[i] = Some((node, tick + wait));
                }
            }
        }
        if d.all_workers_dead() {
            return RunOutcome {
                result: SearchResult::NoPath,
                progress,
                dead_notices,
                fetches,
            };
        }
        if !d.level_active() {
            if !d.advance_level() {
                return RunOutcome {
                    result: SearchResult::NoPath,
                    progress,
                    dead_notices,
                    fetches,
                };
            }
        }
    }
}

fn diamond() -> Graph {
    graph(&[
        ("A", &["B", "C"][..]),
        ("B", &["D"][..]),
        ("C", &["D"][..]),
        ("D", &["E"][..]),
    ])
}

fn found_path(r: &SearchResult) -> Vec<String> {
    match r {
        SearchResult::Found(p) => p.clone(),
        _ => panic!("expected a found path"),
    }
}

#[test]
fn trivial_path_same_endpoints() {
    let g = diamond();
    let out = run_search("X", "X", 2, 0, &g, &[], None, None);
    assert_eq!(found_path(&out.result), vec!["X".to_string()]);
    assert_eq!(out.fetches.len(), 0);
}

#[test]
fn trivial_path_does_not_depend_on_graph() {
    let g: Graph = Vec::new();
    let out = run_search("A", "A", 1, 0, &g, &[], None, None);
    assert_eq!(found_path(&out.result), vec!["A".to_string()]);
    assert_eq!(out.fetches.len(), 0);
}

#[test]
fn shortest_path_one_worker() {
    let g = diamond();
    let out = run_search("A", "E", 1, 0, &g, &[], None, None);
    let p = found_path(&out.result);
    assert_eq!(p.len(), 4);
    assert_eq!(p[0], "A");
    assert!(p[1] == "B" || p[1] == "C");
    assert_eq!(p[2], "D");
    assert_eq!(p[3], "E");
}

#[test]
fn shortest_path_two_workers() {
    let g = diamond();
    let out = run_search("A", "E", 2, 0, &g, &[], None, None);
    assert_eq!(found_path(&out.result).len(), 4);
}

#[test]
fn shortest_path_four_workers() {
    let g = diamond();
    let out = run_search("A", "E", 4, 0, &g, &[], None, None);
    assert_eq!(found_path(&out.result).len(), 4);
}

#[test]
fn shortest_path_with_delay_on_b() {
    let g = diamond();
    let out = run_search("A", "E", 2, 0, &g, &[("B", 3)], None, None);
    let p = found_path(&out.result);
    assert_eq!(p.len(), 4);
    assert_eq!(p[0], "A");
    assert_eq!(p[3], "E");
}

#[test]
fn shortest_path_with_delay_on_c() {
    let g = diamond();
    let out = run_search("A", "E", 4, 0, &g, &[("C", 5)], None, None);
    assert_eq!(found_path(&out.result).len(), 4);
}

#[test]
fn shortest_path_long_chain() {
    let g = graph(&[
        ("A", &["B"][..]),
        ("B", &["C", "A"][..]),
        ("C", &["D", "A", "B"][..]),
        ("D", &["E", "B"][..]),
        ("E", &["F", "A"][..]),
    ]);
    let out = run_search("A", "F", 2, 0, &g, &[], None, None);
    let p = found_path(&out.result);
    assert_eq!(
        p,
        vec![
            "A".to_string(),
            "B".to_string(),
            "C".to_string(),
            "D".to_string(),
            "E".to_string(),
            "F".to_string()
        ]
    );
    // One node per level: the last reported level is one short of the path.
    let max_depth = out.progress.iter().map(|t| t.2).max().unwrap_or(0);
    assert_eq!(p.len(), max_depth + 1);
}

#[test]
fn no_path_terminates() {
    let g = graph(&[("A", &["B"][..]), ("B", &["A"][..])]);
    let out = run_search("A", "Z", 2, 0, &g, &[], None, None);
    assert!(matches!(out.result, SearchResult::NoPath));
    // The component has diameter one, so the level counter stays small.
    let max_depth = out.progress.iter().map(|t| t.2).max().unwrap_or(0);
    assert!(max_depth <= 3);
}

#[test]
fn no_path_on_empty_neighbor_sets() {
    let g = graph(&[("A", &[][..])]);
    let out = run_search("A", "Z", 1, 0, &g, &[], None, None);
    assert!(matches!(out.result, SearchResult::NoPath));
}

#[test]
fn idempotent_discovery_single_expansion() {
    // D is reachable through B and through C on the same level, yet it is
    // expanded exactly once: it enters the next level only on first discovery.
    let g = graph(&[("A", &["B", "C"][..]), ("B", &["D"][..]), ("C", &["D"][..])]);
    let out = run_search("A", "Z", 2, 0, &g, &[], None, None);
    assert!(matches!(out.result, SearchResult::NoPath));
    let d_count = out.fetches.iter().filter(|n| n.as_str() == "D").count();
    assert_eq!(d_count, 1);
}

#[test]
fn dead_worker_recovery() {
    let g = diamond();
    let delays = [("C", 6)];
    let plain = run_search("A", "E", 3, 0, &g, &delays, None, None);
    let failing = run_search("A", "E", 3, 0, &g, &delays, Some("B"), None);
    assert_eq!(found_path(&plain.result), found_path(&failing.result));
    assert_eq!(failing.dead_notices.len(), 1);
    // B was re-expanded by a live worker after the first one died.
    assert!(failing.fetches.iter().any(|n| n == "B"));
}

#[test]
fn dead_worker_notification_names_the_slot() {
    let g = diamond();
    let failing = run_search("A", "E", 3, 0, &g, &[], Some("A"), None);
    assert_eq!(failing.dead_notices.len(), 1);
    assert!(failing.dead_notices[0] < 3);
    assert!(matches!(failing.result, SearchResult::Found(_)));
}

#[test]
fn backpressure_aborts() {
    let g = diamond();
    let out = run_search("A", "E", 2, 1, &g, &[], None, None);
    assert!(matches!(
        out.result,
        SearchResult::Aborted(AbortReason::CapacityExceeded)
    ));
}

#[test]
fn backpressure_zero_means_unlimited() {
    let g = diamond();
    let out = run_search("A", "E", 2, 0, &g, &[], None, None);
    assert!(matches!(out.result, SearchResult::Found(_)));
}

#[test]
fn consumer_gone_aborts() {
    let g = diamond();
    let out = run_search("A", "E", 1, 0, &g, &[], None, Some(1));
    assert!(matches!(
        out.result,
        SearchResult::Aborted(AbortReason::ConsumerGone)
    ));
}

#[test]
fn progress_monotonicity() {
    let g = diamond();
    let out = run_search("A", "E", 2, 0, &g, &[("B", 2), ("D", 3)], None, None);
    assert!(out.progress.len() >= 2);
    for w in out.progress.windows(2) {
        assert!(w[0].0 <= w[1].0, "processed went down");
        assert!(w[0].2 <= w[1].2, "depth went down");
    }
}

#[test]
fn all_workers_dead_reports_no_path() {
    let g = diamond();
    let out = run_search("A", "E", 1, 0, &g, &[], Some("A"), None);
    assert!(matches!(out.result, SearchResult::NoPath));
    assert_eq!(out.dead_notices, vec![0]);
}
