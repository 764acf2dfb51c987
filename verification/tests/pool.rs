use wordle::pool::{Coordinator, DEFAULT_WORKERS};

fn run(jobs: usize, workers: usize) -> Vec<Vec<usize>> {
    let mut coordinator = Coordinator::new(workers).unwrap();
    let mut queues: Vec<Vec<usize>> = vec![Vec::new(); workers];
    for job in 0..jobs {
        let worker = coordinator.dispatch();
        queues[worker].push(job);
    }
    let mut results = 0;
    for queue in &queues {
        for _ in queue {
            assert!(!coordinator.is_done());
            let last = coordinator.collect();
            results += 1;
            assert_eq!(last, results == jobs);
        }
    }
    assert!(coordinator.is_done());
    assert_eq!(results, jobs);
    queues
}

#[test]
fn default_is_ten_workers() {
    assert_eq!(DEFAULT_WORKERS, 10);
}

#[test]
fn coordinator_needs_a_worker() {
    assert!(Coordinator::new(0).is_none());
    assert!(Coordinator::new(1).is_some());
}

#[test]
fn nothing_dispatched_is_done_at_once() {
    let coordinator = Coordinator::new(DEFAULT_WORKERS).unwrap();
    assert!(coordinator.is_done());
}

#[test]
fn workers_take_turns() {
    let mut coordinator = Coordinator::new(3).unwrap();
    let turns: Vec<usize> = (0..8).map(|_| coordinator.dispatch()).collect();
    assert_eq!(turns, vec![0, 1, 2, 0, 1, 2, 0, 1]);
    assert!(!coordinator.is_done());
}

#[test]
fn single_worker_takes_every_job() {
    let queues = run(5, 1);
    assert_eq!(queues, vec![vec![0, 1, 2, 3, 4]]);
}

#[test]
fn every_job_yields_one_result() {
    for workers in [1, 2, 3, DEFAULT_WORKERS] {
        for jobs in 1..=10 * workers {
            let queues = run(jobs, workers);
            let mut seen: Vec<usize> = queues.iter().flatten().copied().collect();
            seen.sort();
            assert_eq!(seen, (0..jobs).collect::<Vec<usize>>());
            for (w, queue) in queues.iter().enumerate() {
                assert!(queue.iter().all(|job| job % workers == w));
            }
        }
    }
}

#[test]
fn last_result_is_announced_once() {
    let mut coordinator = Coordinator::new(4).unwrap();
    for _ in 0..6 {
        coordinator.dispatch();
    }
    let said: Vec<bool> = (0..6).map(|_| coordinator.collect()).collect();
    assert_eq!(said, vec![false, false, false, false, false, true]);
    assert!(coordinator.is_done());
}

#[test]
fn channels_return_one_result_per_job() {
    for workers in [1usize, 3, DEFAULT_WORKERS] {
        for jobs in 1..=10 * workers {
            let mut coordinator = Coordinator::new(workers).unwrap();
            let (result_sender, result_receiver) = std::sync::mpsc::channel::<usize>();
            let mut job_senders = Vec::new();
            let mut job_receivers = Vec::new();
            for _ in 0..workers {
                let (job_sender, job_receiver) = std::sync::mpsc::channel::<usize>();
                job_senders.push(job_sender);
                job_receivers.push(job_receiver);
            }
            for job in 0..jobs {
                job_senders[coordinator.dispatch()].send(job).unwrap();
            }
            drop(job_senders);
            for job_receiver in job_receivers.iter().rev() {
                while let Ok(job) = job_receiver.recv() {
                    result_sender.send(job * 2).unwrap();
                }
            }
            drop(result_sender);
            let mut results = Vec::new();
            while !coordinator.is_done() {
                results.push(result_receiver.recv().unwrap());
                coordinator.collect();
            }
            assert!(result_receiver.recv().is_err());
            results.sort();
            assert_eq!(results, (0..jobs).map(|job| job * 2).collect::<Vec<usize>>());
        }
    }
}
