use ballmaker::queue::JobQueue;

#[test]
fn queue_hands_each_job_out_once() {
    let mut q = JobQueue::new(vec![1, 2, 3]);
    q.add_job(4);
    assert!(!q.is_empty());
    let mut seen = Vec::new();
    while let Some(j) = q.get_job() {
        seen.push(j);
    }
    assert_eq!(seen, vec![4, 3, 2, 1]);
    assert!(q.is_empty());
    assert_eq!(q.get_job(), None);
}
