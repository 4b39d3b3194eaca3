use mandelbrot_rs::coordinator::{ConfigError, Coordinator, ResultError, WorkOrder, WorkResult};

fn row_for(y: usize, width: usize) -> Vec<u8> {
    let mut row = Vec::new();
    for x in 0..width {
        let v = (y * 16 + x) as u8;
        row.push(v);
        row.push(v);
        row.push(v);
        row.push(255);
    }
    row
}

fn result_for(order: WorkOrder, width: usize) -> WorkResult {
    WorkResult { worker_id: order.worker_id, y: order.y, pixels: row_for(order.y, width) }
}

/// Runs one frame, answering outstanding orders in the order `pick` chooses
/// among those pending.
fn run_frame(c: &mut Coordinator, pick: fn(usize) -> usize) -> usize {
    let width = c.width();
    let mut pending: Vec<WorkOrder> = Vec::new();
    let mut steps = 0;
    loop {
        if let Some(order) = c.dispatch() {
            pending.push(order);
            continue;
        }
        if !pending.is_empty() {
            let i = pick(pending.len());
            let order = pending.remove(i);
            assert_eq!(c.accept(result_for(order, width)), Ok(()));
            steps += 1;
        }
        if c.is_complete() {
            break;
        }
    }
    steps
}

#[test]
fn new_rejects_zero_width() {
    assert_eq!(Coordinator::new(0, 4, 2).err(), Some(ConfigError::ZeroWidth));
}

#[test]
fn new_rejects_zero_height() {
    assert_eq!(Coordinator::new(4, 0, 2).err(), Some(ConfigError::ZeroHeight));
}

#[test]
fn new_rejects_zero_workers() {
    assert_eq!(Coordinator::new(4, 4, 0).err(), Some(ConfigError::NoWorkers));
}

#[test]
fn new_starts_blank() {
    let c = Coordinator::new(3, 2, 6).unwrap();
    assert_eq!(c.width(), 3);
    assert_eq!(c.height(), 2);
    assert_eq!(c.worker_count(), 6);
    assert_eq!(c.frame(), &vec![0u8; 3 * 2 * 4]);
    assert!(!c.is_complete());
}

#[test]
fn dispatch_prefers_low_ids_and_stops_when_all_busy() {
    let mut c = Coordinator::new(2, 5, 2).unwrap();
    assert_eq!(c.dispatch(), Some(WorkOrder { worker_id: 0, y: 0 }));
    assert_eq!(c.dispatch(), Some(WorkOrder { worker_id: 1, y: 1 }));
    assert_eq!(c.dispatch(), None);
    let r = WorkResult { worker_id: 1, y: 1, pixels: row_for(1, 2) };
    assert_eq!(c.accept(r), Ok(()));
    assert_eq!(c.dispatch(), Some(WorkOrder { worker_id: 1, y: 2 }));
    let r = WorkResult { worker_id: 0, y: 0, pixels: row_for(0, 2) };
    assert_eq!(c.accept(r), Ok(()));
    assert_eq!(c.dispatch(), Some(WorkOrder { worker_id: 0, y: 3 }));
}

#[test]
fn dispatch_stops_after_last_row() {
    let mut c = Coordinator::new(1, 2, 4).unwrap();
    assert_eq!(c.dispatch(), Some(WorkOrder { worker_id: 0, y: 0 }));
    assert_eq!(c.dispatch(), Some(WorkOrder { worker_id: 1, y: 1 }));
    assert_eq!(c.dispatch(), None);
    assert!(!c.is_complete());
}

#[test]
fn accept_rejects_unknown_worker() {
    let mut c = Coordinator::new(2, 2, 1).unwrap();
    c.dispatch();
    let r = WorkResult { worker_id: 1, y: 0, pixels: row_for(0, 2) };
    assert_eq!(c.accept(r), Err(ResultError::UnknownWorker));
}

#[test]
fn accept_rejects_unassigned_row() {
    let mut c = Coordinator::new(2, 2, 2).unwrap();
    c.dispatch();
    let wrong_row = WorkResult { worker_id: 0, y: 1, pixels: row_for(1, 2) };
    assert_eq!(c.accept(wrong_row), Err(ResultError::NotAssigned));
    let idle_worker = WorkResult { worker_id: 1, y: 0, pixels: row_for(0, 2) };
    assert_eq!(c.accept(idle_worker), Err(ResultError::NotAssigned));
}

#[test]
fn accept_rejects_wrong_length() {
    let mut c = Coordinator::new(2, 2, 1).unwrap();
    c.dispatch();
    let r = WorkResult { worker_id: 0, y: 0, pixels: vec![1, 2, 3, 4] };
    assert_eq!(c.accept(r), Err(ResultError::WrongLength));
    assert_eq!(c.frame(), &vec![0u8; 16]);
    assert_eq!(c.dispatch(), None);
}

#[test]
fn accept_places_row_at_its_offset() {
    let mut c = Coordinator::new(2, 3, 3).unwrap();
    c.dispatch();
    c.dispatch();
    c.dispatch();
    let r = WorkResult { worker_id: 2, y: 2, pixels: vec![1, 2, 3, 4, 5, 6, 7, 8] };
    assert_eq!(c.accept(r), Ok(()));
    let mut expect = vec![0u8; 24];
    expect[16..24].copy_from_slice(&[1, 2, 3, 4, 5, 6, 7, 8]);
    assert_eq!(c.frame(), &expect);
}

#[test]
fn frame_is_independent_of_completion_order() {
    let mut first = Coordinator::new(3, 7, 3).unwrap();
    let mut last = Coordinator::new(3, 7, 3).unwrap();
    run_frame(&mut first, |_n| 0);
    run_frame(&mut last, |n| n - 1);
    assert_eq!(first.frame(), last.frame());
}

#[test]
fn complete_frame_holds_every_row_once() {
    let mut c = Coordinator::new(2, 5, 2).unwrap();
    let steps = run_frame(&mut c, |n| n - 1);
    assert_eq!(steps, 5);
    let mut expect = Vec::new();
    for y in 0..5 {
        expect.extend(row_for(y, 2));
    }
    assert_eq!(c.frame(), &expect);
    assert_eq!(c.dispatch(), None);
}

#[test]
fn at_most_one_order_per_worker() {
    let mut c = Coordinator::new(1, 10, 3).unwrap();
    let mut orders = Vec::new();
    while let Some(o) = c.dispatch() {
        orders.push(o);
    }
    assert_eq!(orders.len(), 3);
    let mut ids: Vec<usize> = orders.iter().map(|o| o.worker_id).collect();
    ids.sort();
    ids.dedup();
    assert_eq!(ids, vec![0, 1, 2]);
}

#[test]
fn begin_frame_starts_over() {
    let mut c = Coordinator::new(2, 2, 1).unwrap();
    run_frame(&mut c, |_n| 0);
    assert!(c.is_complete());
    c.begin_frame();
    assert!(!c.is_complete());
    assert_eq!(c.frame(), &vec![0u8; 16]);
    assert_eq!(c.dispatch(), Some(WorkOrder { worker_id: 0, y: 0 }));
}
