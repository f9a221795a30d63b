use sortviz::color::{Color, Gradient};
use sortviz::queue::{RenderQueue, Step};
use sortviz::render::{RenderError, Sort};
use sortviz::state::SortData;

fn config() -> Sort {
    Sort {
        bar_width: 2,
        height: 4,
        margin: 1,
        margin_top: 1,
        spacing: 1,
        bg_color: Color(0x101010),
        colors: Gradient { colors: vec![Color(0x0000FF), Color(0xFF0000)] },
    }
}

fn queue_of(frames: usize) -> RenderQueue {
    let mut data = SortData::new(config(), "run", vec![1, 2, 3]);
    for k in 0..frames {
        data.swap(k % 3, (k + 1) % 3);
    }
    data.finish()
}

fn start(queue: &mut RenderQueue) -> sortviz::queue::RenderJob {
    match queue.next_step() {
        Step::Start(job) => job,
        other => panic!("{:?}", other),
    }
}

#[test]
fn finish_of_a_run_without_frames_is_done_at_once() {
    let mut queue = queue_of(0);
    assert_eq!(queue.total(), 0);
    assert!(matches!(queue.next_step(), Step::Done));
    assert!(matches!(queue.next_step(), Step::Done));
}

#[test]
fn frames_start_in_the_order_of_their_numbers() {
    let mut queue = queue_of(5);
    assert_eq!(queue.total(), 5);
    for k in 0..5 {
        let job = start(&mut queue);
        assert_eq!(job.frame.number, k);
        assert_eq!(job.name, format!("run-{}.png", k));
        assert_eq!(job.sort.bar_width, 2);
    }
    assert!(matches!(queue.next_step(), Step::Wait));
}

#[test]
fn no_more_than_eight_frames_are_in_work() {
    let mut queue = queue_of(20);
    let mut started = 0;
    while let Step::Start(_) = queue.next_step() {
        started += 1;
        assert!(queue.in_flight() <= 8);
    }
    assert_eq!(started, 8);
    assert_eq!(queue.in_flight(), 8);
    assert!(matches!(queue.next_step(), Step::Wait));
    queue.task_finished(true);
    assert_eq!(queue.in_flight(), 7);
    assert_eq!(start(&mut queue).frame.number, 8);
    assert_eq!(queue.in_flight(), 8);
    assert!(matches!(queue.next_step(), Step::Wait));
}

#[test]
fn the_gate_holds_in_every_state_of_a_run() {
    let mut queue = queue_of(30);
    let mut turn = 0;
    loop {
        assert!(queue.in_flight() <= 8);
        match queue.next_step() {
            Step::Start(_) => {
                turn += 1;
                if turn % 3 == 0 {
                    queue.task_finished(true);
                }
            }
            Step::Wait => queue.task_finished(true),
            Step::Done => break,
            Step::Failed => panic!("no task failed"),
        }
    }
    assert_eq!(queue.written(), 30);
    assert_eq!(queue.in_flight(), 0);
}

#[test]
fn the_run_is_done_only_when_every_frame_is_written() {
    let mut queue = queue_of(3);
    start(&mut queue);
    start(&mut queue);
    start(&mut queue);
    assert!(matches!(queue.next_step(), Step::Wait));
    queue.task_finished(true);
    assert!(matches!(queue.next_step(), Step::Wait));
    queue.task_finished(true);
    assert!(matches!(queue.next_step(), Step::Wait));
    assert_eq!(queue.written(), 2);
    queue.task_finished(true);
    assert!(matches!(queue.next_step(), Step::Done));
    assert_eq!(queue.written(), 3);
    assert_eq!(queue.total(), 3);
}

#[test]
fn a_failed_task_gives_the_run_up() {
    let mut queue = queue_of(12);
    for _ in 0..8 {
        start(&mut queue);
    }
    queue.task_finished(true);
    queue.task_finished(false);
    assert_eq!(queue.in_flight(), 6);
    assert_eq!(queue.written(), 1);
    assert!(matches!(queue.next_step(), Step::Failed));
    queue.task_finished(true);
    assert!(matches!(queue.next_step(), Step::Failed));
}

#[test]
fn a_report_without_a_task_in_work_changes_nothing() {
    let mut queue = queue_of(2);
    queue.task_finished(true);
    queue.task_finished(false);
    assert_eq!((queue.in_flight(), queue.written()), (0, 0));
    assert_eq!(start(&mut queue).frame.number, 0);
}

#[test]
fn a_job_renders_its_frame_under_the_name_of_its_file() {
    let mut queue = queue_of(2);
    start(&mut queue);
    let job = start(&mut queue);
    let expected = config().render(&job.frame.list, job.frame.highlights.clone()).unwrap();
    assert_eq!(job.frame.list, vec![2, 3, 1]);
    let image = job.run().unwrap();
    assert_eq!(image.name, "run-1.png");
    assert_eq!(image.data, expected);
    assert_eq!(&image.data[0..4], &[137, 80, 78, 71]);
}

#[test]
fn a_job_that_cannot_be_rendered_says_why() {
    let mut data = SortData::new(config(), "run", vec![0, 0]);
    data.swap(0, 1);
    let mut queue = data.finish();
    let job = start(&mut queue);
    assert_eq!(job.run().err(), Some(RenderError::NoPositiveValue));
}
