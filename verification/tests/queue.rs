use discorddrive::metadata::Page;
use discorddrive::queue::{Queue, QueueBlock};

const MB: usize = 1024 * 1024;

fn page(index: u64, message_id: u64) -> Page {
    let mut page = Page::new(index);
    page.message_id = message_id;
    page
}

#[test]
fn queue_push_holds_back_when_full() {
    let mut queue = Queue::<2>::new();
    assert!(queue.push(page(0, 0), vec![0; 8 * MB]).is_none());
    assert!(queue.push(page(1, 0), vec![1; 8 * MB]).is_none());
    // the third page does not enter: the queue is as it was, and the page comes back
    let rejected = queue.push(page(2, 7), vec![2; 8 * MB]).unwrap();
    assert_eq!(rejected.page.offset, 2);
    assert_eq!(rejected.page.message_id, 7);
    assert_eq!(rejected.data, vec![2; 8 * MB]);
    assert_eq!(queue.data.len(), 2);
    assert_eq!(queue.data[0].page.offset, 0);
    assert_eq!(queue.data[1].page.offset, 1);
    // once a page has left, it enters
    assert_eq!(queue.pop().unwrap().page.offset, 1);
    assert!(queue.push(rejected.page, rejected.data).is_none());
    assert_eq!(queue.data.len(), 2);
    assert_eq!(queue.data[1].page.offset, 2);
}

#[test]
fn queue_pop_takes_the_newest() {
    let mut queue = Queue::<4>::new();
    assert!(queue.pop().is_none());
    queue.push(page(5, 0), vec![5; 8 * MB]);
    queue.push(page(6, 0), vec![6; 8 * MB]);
    queue.push(page(7, 0), vec![7; 8 * MB]);
    let block = queue.pop().unwrap();
    assert_eq!(block.page.offset, 7);
    assert_eq!(block.data[0], 7);
    assert_eq!(queue.pop().unwrap().page.offset, 6);
    assert_eq!(queue.pop().unwrap().page.offset, 5);
    assert!(queue.pop().is_none());
}

#[test]
fn queue_release_takes_the_page_asked_for() {
    let mut queue = Queue::<4>::new();
    queue.push(page(5, 50), vec![5; 8 * MB]);
    queue.push(page(6, 60), vec![6; 8 * MB]);
    queue.push(page(7, 70), vec![7; 8 * MB]);
    assert!(queue.release_offset(8).is_none());
    assert_eq!(queue.data.len(), 3);
    let (released, data) = queue.release_offset(6).unwrap();
    assert_eq!(released.offset, 6);
    assert_eq!(released.message_id, 60);
    assert_eq!(data, vec![6; 8 * MB]);
    assert_eq!(queue.data.len(), 2);
    assert_eq!(queue.data[0].page.offset, 5);
    assert_eq!(queue.data[1].page.offset, 7);
    assert!(queue.release_offset(6).is_none());
}

#[test]
fn queue_flush_waits_for_the_worker() {
    let mut queue = Queue::<2>::new();
    assert!(queue.flush());
    queue.push(page(1, 0), vec![0; 8 * MB]);
    assert!(!queue.flush());
    let block = queue.begin_sync().unwrap();
    assert_eq!(block.page.offset, 1);
    assert!(queue.is_syncing);
    // empty, but the page is still being written
    assert!(!queue.flush());
    queue.end_sync();
    assert!(!queue.is_syncing);
    assert!(queue.flush());
    assert!(queue.begin_sync().is_none());
    assert!(!queue.is_syncing);
}

#[test]
fn queue_block_takes_its_remote_object() {
    let mut block = QueueBlock::new(page(3, 0), vec![1; 8 * MB]);
    block.sync(99);
    assert_eq!(block.page.message_id, 99);
    assert_eq!(block.page.offset, 3);
    assert_eq!(block.data, vec![1; 8 * MB]);
}

#[test]
fn queue_check_tells_a_queue_out_of_its_bounds() {
    let mut queue = Queue::<1>::new();
    assert!(queue.check());
    queue.push(page(0, 0), vec![0; 8 * MB]);
    assert!(queue.check());
    queue.data.push(QueueBlock::new(page(1, 0), vec![0; 8 * MB]));
    assert!(!queue.check());
    queue.data.pop();
    queue.data[0].data.push(0);
    assert!(!queue.check());
}
