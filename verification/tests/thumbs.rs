use omapic::thumbs::{Stage, Thumbnailer};

#[test]
fn quick_jobs_first_then_the_nearest() {
    let mut t = Thumbnailer::new();
    t.set_focus(10);
    assert!(t.request(1, "/p/1.jpg".into(), 30, true));
    assert!(t.request(2, "/p/2.jpg".into(), 2, false));
    assert!(t.request(3, "/p/3.jpg".into(), 11, false));
    assert!(t.request(4, "/p/4.jpg".into(), 9, false));
    let order: Vec<usize> = std::iter::from_fn(|| t.next_job()).map(|j| j.id).collect();
    assert_eq!(order, [3, 4, 2, 1]); // 3 and 4 are equally near: the earlier one first
}

#[test]
fn asking_again_moves_the_waiting_job() {
    let mut t = Thumbnailer::new();
    assert!(t.request(1, "/p/1.jpg".into(), 50, false));
    assert!(t.request(2, "/p/2.jpg".into(), 5, false));
    assert!(!t.request(1, "/p/1.jpg".into(), 0, false));
    assert_eq!(t.next_job().unwrap().id, 1);
}

#[test]
fn cancelled_images_are_not_requeued() {
    let mut t = Thumbnailer::new();
    assert!(t.request(7, "/p/7.jpg".into(), 0, false));
    let job = t.next_job().unwrap();
    assert_eq!(job.stage, Stage::Quick);
    assert!(t.requeue(&job));
    let again = t.next_job().unwrap();
    assert_eq!((again.id, again.stage), (7, Stage::Full));
    t.cancel(7);
    assert!(!t.requeue(&again));
    assert!(t.next_job().is_none());
    assert!(t.request(7, "/p/7.jpg".into(), 0, false));
    t.finish(7);
    assert!(t.request(7, "/p/7.jpg".into(), 0, false));
}
