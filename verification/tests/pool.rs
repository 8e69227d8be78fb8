use hunter::cache::LoadJob;
use hunter::queue::JobQueue;
use hunter::status::{minibuffer_step, PromptKey, PromptOutcome};

fn job(path: &[u8], token: u64) -> LoadJob {
    LoadJob { path: path.to_vec(), token }
}

#[test]
fn jobs_come_out_in_submission_order() {
    let mut q = JobQueue::new();
    q.submit(job(b"/a", 1));
    q.submit(job(b"/b", 1));
    q.submit(job(b"/c", 1));
    assert_eq!(q.len(), 3);
    assert_eq!(q.pop().unwrap().path, b"/a".to_vec());
    assert_eq!(q.pop().unwrap().path, b"/b".to_vec());
    assert_eq!(q.pop().unwrap().path, b"/c".to_vec());
    assert!(q.pop().is_none());
}

#[test]
fn duplicate_submissions_coalesce_into_the_waiting_job() {
    let mut q = JobQueue::new();
    q.submit(job(b"/a", 1));
    q.submit(job(b"/b", 1));
    // a second submission for /a attaches to the existing job: no new
    // entry, place in line kept, newest token kept
    q.submit(job(b"/a", 5));
    assert_eq!(q.len(), 2);
    let first = q.pop().unwrap();
    assert_eq!(first.path, b"/a".to_vec());
    assert_eq!(first.token, 5);
    // an older token never downgrades a waiting job
    q.submit(job(b"/b", 3));
    q.submit(job(b"/b", 2));
    let second = q.pop().unwrap();
    assert_eq!(second.path, b"/b".to_vec());
    assert_eq!(second.token, 3);
}

#[test]
fn the_minibuffer_edits_one_line() {
    let mut line: Vec<char> = Vec::new();
    assert!(matches!(minibuffer_step(&mut line, PromptKey::Insert('t')), PromptOutcome::Pending));
    assert!(matches!(minibuffer_step(&mut line, PromptKey::Insert('m')), PromptOutcome::Pending));
    assert!(matches!(minibuffer_step(&mut line, PromptKey::Insert('q')), PromptOutcome::Pending));
    assert!(matches!(minibuffer_step(&mut line, PromptKey::Erase), PromptOutcome::Pending));
    assert!(matches!(minibuffer_step(&mut line, PromptKey::Insert('p')), PromptOutcome::Pending));
    assert!(matches!(minibuffer_step(&mut line, PromptKey::Other), PromptOutcome::Pending));
    assert_eq!(line.iter().collect::<String>(), "tmp");
    assert!(matches!(minibuffer_step(&mut line, PromptKey::Accept), PromptOutcome::Accepted));
    assert_eq!(line.iter().collect::<String>(), "tmp");
}

#[test]
fn erasing_an_empty_line_stays_empty() {
    let mut line: Vec<char> = Vec::new();
    assert!(matches!(minibuffer_step(&mut line, PromptKey::Erase), PromptOutcome::Pending));
    assert!(line.is_empty());
    assert!(matches!(minibuffer_step(&mut line, PromptKey::Cancel), PromptOutcome::Cancelled));
}
