use discorddrive::metadata::{MetadataBlock, Page, RecordUpdate};
use discorddrive::{DiscordDrivePlugin, FlushStep, ReadStep, WriteStep};

const MB: u64 = 1024 * 1024;
const PAGE: u64 = 8 * MB;

/// Does what the caller of the engine does after a write: brings the
/// directory's record up to date, with `next_id` as the name of a new record.
fn settle<const S: usize>(drive: &mut DiscordDrivePlugin<S>, step: WriteStep, next_id: u64) {
    match step {
        WriteStep::Done => {}
        WriteStep::Persist(dir) => match drive.update_message(dir) {
            RecordUpdate::Create(_) => drive.record_created(dir, next_id),
            RecordUpdate::Edit(..) => {}
        },
        WriteStep::Fetch(_) => panic!("no page was to be brought"),
        WriteStep::Busy(_) => panic!("there was to be room"),
    }
}

fn read_done<const S: usize>(drive: &mut DiscordDrivePlugin<S>, offset: u64) -> Vec<u8> {
    match drive.read(offset, None) {
        ReadStep::Done(bytes) => bytes,
        ReadStep::Fetch(_) => panic!("no page was to be brought"),
        ReadStep::Busy(_) => panic!("there was to be room"),
    }
}

#[test]
fn unknown_regions_read_as_zeros() {
    let mut drive = DiscordDrivePlugin::<4>::new(Vec::new());
    assert_eq!(read_done(&mut drive, 0), vec![0; 4096]);
    assert_eq!(read_done(&mut drive, 123 * PAGE + 4096), vec![0; 4096]);
    assert_eq!(drive.cache.data.len(), 0);
    assert_eq!(drive.meta.len(), 0);
    assert!(drive.read_cache(0).is_none());
    assert!(!drive.write_cache(0, &[1; 4096]));
}

#[test]
fn sparse_write_then_read() {
    let mut drive = DiscordDrivePlugin::<4>::new(Vec::new());
    let step = drive.write(3 * PAGE + 5 * 4096, &[0; 4096], None);
    assert!(matches!(step, WriteStep::Persist(0)));
    settle(&mut drive, step, 500);
    assert_eq!(drive.meta.len(), 1);
    assert_eq!(drive.meta[0].message_id, 500);
    assert_eq!(drive.meta[0].pages.len(), 1);
    assert_eq!(drive.meta[0].pages[0].offset, 3);
    assert!(drive.meta[0].pages[0].zero_mask.get(5));

    assert_eq!(read_done(&mut drive, 3 * PAGE + 5 * 4096), vec![0; 4096]);
    assert_eq!(drive.cache.data.len(), 1);
    assert_eq!(drive.cache.data[0].offset, 3 * PAGE);
    assert!(drive.cache.data[0].mask.get(5));
    assert!(!drive.cache.data[0].mask.get(4));

    let mut chunk = vec![0u8; 4096];
    chunk[100] = 42;
    assert!(matches!(drive.write(3 * PAGE + 5 * 4096, &chunk, None), WriteStep::Done));
    assert!(!drive.cache.data[0].mask.get(5));
    assert_eq!(read_done(&mut drive, 3 * PAGE + 5 * 4096), chunk);
    assert_eq!(read_done(&mut drive, 3 * PAGE + 4 * 4096), vec![0; 4096]);
}

#[test]
fn evict_then_read_gives_the_last_written_bytes() {
    let mut drive = DiscordDrivePlugin::<2>::new(Vec::new());
    let a = 0u64;
    let b = PAGE;
    let c = 2 * PAGE;
    let step = drive.write(a + 4096, &[0xA1; 4096], None);
    settle(&mut drive, step, 1);
    assert!(matches!(drive.write(a + 4096, &[0xA2; 4096], None), WriteStep::Done));
    let step = drive.write(b, &[0xB1; 4096], None);
    settle(&mut drive, step, 2);
    let step = drive.write(c, &[0xC1; 4096], None);
    settle(&mut drive, step, 3);

    // the oldest page has left the cache for the queue
    assert_eq!(drive.cache.data.len(), 2);
    assert_eq!(drive.cache.data[0].offset, b);
    assert_eq!(drive.cache.data[1].offset, c);
    assert_eq!(drive.queue.data.len(), 1);
    assert_eq!(drive.queue.data[0].page.offset, 0);
    assert!(drive.cache.read(a + 4096).is_none());

    // a read takes it back, and another page leaves the cache for it
    assert_eq!(read_done(&mut drive, a + 4096), vec![0xA2; 4096]);
    assert_eq!(drive.cache.data[0].offset, c);
    assert_eq!(drive.cache.data[1].offset, a);
    assert_eq!(drive.queue.data.len(), 1);
    assert_eq!(drive.queue.data[0].page.offset, 1);
    assert_eq!(read_done(&mut drive, a), vec![0; 4096]);
    assert_eq!(read_done(&mut drive, b), vec![0xB1; 4096]);
    assert_eq!(read_done(&mut drive, c), vec![0xC1; 4096]);

    // all three pages are in one directory
    assert_eq!(drive.meta.len(), 1);
    assert_eq!(drive.meta[0].message_id, 1);
    assert_eq!(drive.meta[0].pages.len(), 3);
}

#[test]
fn a_full_queue_holds_writes_back() {
    let mut drive = DiscordDrivePlugin::<1>::new(Vec::new());
    let step = drive.write(0, &[1; 4096], None);
    settle(&mut drive, step, 1);
    let step = drive.write(PAGE, &[2; 4096], None);
    settle(&mut drive, step, 2);
    assert_eq!(drive.queue.data.len(), 1);
    // the cache and the queue are full: nothing is changed
    assert!(matches!(drive.write(2 * PAGE, &[3; 4096], None), WriteStep::Busy(None)));
    assert_eq!(drive.meta[0].pages.len(), 2);
    assert_eq!(drive.cache.data[0].offset, PAGE);
    assert_eq!(drive.queue.data[0].page.offset, 0);
    assert!(matches!(drive.flush(), FlushStep::Wait));

    // once the worker has taken a page, the write goes on
    let mut block = drive.begin_sync().unwrap();
    assert_eq!(block.page.offset, 0);
    assert!(drive.queue.is_syncing);
    let step = drive.write(2 * PAGE, &[3; 4096], None);
    assert!(matches!(step, WriteStep::Persist(0)));
    settle(&mut drive, step, 3);
    assert_eq!(drive.cache.data[0].offset, 2 * PAGE);
    assert_eq!(drive.queue.data[0].page.offset, 1);

    // the worker writes the page and folds it into its directory
    block.sync(700);
    assert_eq!(drive.sync_page(block.page.clone()), Some(0));
    assert_eq!(drive.meta[0].pages[0].message_id, 700);
    assert!(matches!(drive.update_message(0), RecordUpdate::Edit(1, _)));
    drive.end_sync();
    assert!(!drive.queue.is_syncing);
    assert_eq!(drive.sync_page(Page::new(99)), None);
}

#[test]
fn a_page_of_a_directory_is_brought_from_the_remote_store() {
    let mut held = Page::new(2);
    held.message_id = 321;
    held.zero_mask.set(1, true);
    let mut block = MetadataBlock::empty(5);
    block.pages.push(held);
    let mut drive = DiscordDrivePlugin::<2>::new(vec![MetadataBlock::empty(4), block]);
    let mut remote = vec![9u8; PAGE as usize];
    remote[0] = 1;
    remote[4096] = 8;

    // a read of the marked chunk brings the page, too: the other chunks are
    // in the remote object
    let page = match drive.read(2 * PAGE + 4096, None) {
        ReadStep::Fetch(page) => page,
        _ => panic!("the page was to be brought"),
    };
    assert_eq!((page.offset, page.message_id), (2, 321));
    assert_eq!(drive.cache.data.len(), 0);
    match drive.read(2 * PAGE + 4096, Some(remote.clone())) {
        ReadStep::Done(bytes) => assert_eq!(bytes, vec![0; 4096]),
        _ => panic!("the chunk was to be read"),
    }
    assert_eq!(drive.cache.data.len(), 1);
    assert_eq!(drive.cache.data[0].offset, 2 * PAGE);
    assert_eq!(drive.cache.data[0].message_id, 321);
    // the chunks that are not marked are read as the remote object has them
    let first = read_done(&mut drive, 2 * PAGE);
    assert_eq!(first[0], 1);
    assert_eq!(&first[1..], vec![9u8; 4095].as_slice());
    assert_eq!(read_done(&mut drive, 2 * PAGE + 2 * 4096), vec![9; 4096]);
    assert_eq!(read_done(&mut drive, 2 * PAGE + 4096), vec![0; 4096]);
    drive.cache.data.clear();

    // a write brings the page first, whichever chunk it goes to
    for offset in [2 * PAGE + 4096, 2 * PAGE + 2 * 4096] {
        let page = match drive.write(offset, &[7; 4096], None) {
            WriteStep::Fetch(page) => page,
            _ => panic!("the page was to be brought"),
        };
        assert_eq!(page.message_id, 321);
        assert_eq!(drive.cache.data.len(), 0);
    }
    assert!(matches!(drive.write(2 * PAGE + 4096, &[7; 4096], Some(remote.clone())), WriteStep::Done));
    assert_eq!(read_done(&mut drive, 2 * PAGE + 4096), vec![7; 4096]);
    assert_eq!(read_done(&mut drive, 2 * PAGE), first);
    assert_eq!(read_done(&mut drive, 2 * PAGE + 3 * 4096), vec![9; 4096]);
    assert!(!drive.meta[1].pages[0].zero_mask.get(1));

    // the page is written where it is held, also behind a directory with room
    assert_eq!(drive.meta[0].pages.len(), 0);
    assert_eq!(drive.meta[1].pages.len(), 1);
    // a new page goes to the first directory with room
    let step = drive.write(0, &[1; 4096], None);
    assert!(matches!(step, WriteStep::Persist(0)));
    assert_eq!(drive.meta[0].pages.len(), 1);
    assert_eq!(drive.meta[1].pages.len(), 1);
}

#[test]
fn a_page_without_a_remote_object_is_made_of_zeros() {
    let mut held = Page::new(2);
    held.zero_mask.set(1, true);
    let mut block = MetadataBlock::empty(5);
    block.pages.push(held);
    let mut drive = DiscordDrivePlugin::<2>::new(vec![block]);
    // nothing is asked of the remote store, which holds nothing of the page
    assert_eq!(read_done(&mut drive, 2 * PAGE), vec![0; 4096]);
    assert_eq!(read_done(&mut drive, 2 * PAGE + 4096), vec![0; 4096]);
    assert_eq!(drive.cache.data.len(), 1);
    assert_eq!(drive.cache.data[0].message_id, 0);
    assert_eq!(drive.cache.data[0].data, vec![0u8; PAGE as usize]);
}

#[test]
fn a_page_is_written_in_the_directory_that_holds_it() {
    // the directory with room stands before the one that holds the page
    let mut first = MetadataBlock::empty(11);
    first.pages.push(Page::new(1));
    let mut second = MetadataBlock::empty(10);
    second.pages.push(Page::new(0));
    let mut drive = DiscordDrivePlugin::<2>::new(vec![first, second]);
    assert!(matches!(drive.write(4096, &[3; 4096], None), WriteStep::Done));
    assert_eq!(drive.meta.len(), 2);
    assert_eq!(drive.meta[0].pages.len(), 1);
    assert_eq!(drive.meta[0].pages[0].offset, 1);
    assert_eq!(drive.meta[1].pages.len(), 1);
    assert_eq!(drive.meta[1].pages[0].offset, 0);
    assert_eq!(read_done(&mut drive, 4096), vec![3; 4096]);
    // an unknown page goes to the first directory with room
    let step = drive.write(7 * PAGE, &[4; 4096], None);
    assert!(matches!(step, WriteStep::Persist(0)));
    let indices: Vec<u64> = drive.meta[0].pages.iter().map(|p| p.offset).collect();
    assert_eq!(indices, vec![1, 7]);
    assert_eq!(drive.meta[1].pages.len(), 1);
}

#[test]
fn a_sixth_page_opens_a_new_directory() {
    let mut drive = DiscordDrivePlugin::<4>::new(Vec::new());
    for index in 0..5u64 {
        let step = drive.write(index * PAGE, &[1; 4096], None);
        assert!(matches!(step, WriteStep::Persist(0)));
        settle(&mut drive, step, 100);
    }
    assert_eq!(drive.meta.len(), 1);
    let step = drive.write(5 * PAGE, &[1; 4096], None);
    assert!(matches!(step, WriteStep::Persist(1)));
    settle(&mut drive, step, 101);
    assert_eq!(drive.meta.len(), 2);
    assert_eq!(drive.meta[0].pages.len(), 5);
    assert_eq!(drive.meta[1].pages.len(), 1);
    assert_eq!(drive.meta[1].pages[0].offset, 5);
    assert_eq!(drive.meta[1].message_id, 101);
}

#[test]
fn flush_drains_the_cache_and_waits_for_the_queue() {
    let mut drive = DiscordDrivePlugin::<2>::new(Vec::new());
    match drive.flush() {
        FlushStep::Done(records) => assert_eq!(records, Vec::<u64>::new()),
        FlushStep::Wait => panic!("there is nothing to wait for"),
    }
    for index in 0..3u64 {
        let step = drive.write(index * PAGE, &[index as u8 + 1; 4096], None);
        settle(&mut drive, step, 40);
    }
    // one slot of the queue is free: one page of the cache goes there
    assert!(matches!(drive.flush(), FlushStep::Wait));
    assert_eq!(drive.cache.data.len(), 1);
    assert_eq!(drive.queue.data.len(), 2);
    assert_eq!(drive.queue.data[0].page.offset, 0);
    assert_eq!(drive.queue.data[1].page.offset, 1);
    assert_eq!(drive.cache.data[0].offset, 2 * PAGE);

    let mut synced = 0;
    loop {
        match drive.flush() {
            FlushStep::Done(records) => {
                assert_eq!(records, vec![40]);
                break;
            }
            FlushStep::Wait => {
                let mut block = drive.begin_sync().unwrap();
                block.sync(1000 + block.page.offset);
                assert_eq!(drive.sync_page(block.page.clone()), Some(0));
                drive.end_sync();
                synced += 1;
            }
        }
    }
    assert_eq!(synced, 3);
    assert_eq!(drive.cache.data.len(), 0);
    assert_eq!(drive.queue.data.len(), 0);
    let ids: Vec<u64> = drive.meta[0].pages.iter().map(|p| p.message_id).collect();
    assert_eq!(ids, vec![1000, 1001, 1002]);
}

#[test]
fn a_page_is_held_once() {
    // pages go round between the cache, the queue and a remote store that
    // keeps what the worker writes; none is ever held twice, and every read
    // gives what was written last
    let mut drive = DiscordDrivePlugin::<2>::new(Vec::new());
    let mut remote: std::collections::HashMap<u64, Vec<u8>> = std::collections::HashMap::new();
    let mut next_id = 9000u64;
    let mut expected = vec![vec![0u8; 4096]; 8];
    let mut fetches = 0;
    for round in 0..40u64 {
        let index = (round * 7 + 3) % 4;
        let chunk_no = (round % 2) as usize;
        let offset = index * PAGE + chunk_no as u64 * 4096;
        let slot = index as usize * 2 + chunk_no;
        let chunk = if round % 5 == 4 { vec![0u8; 4096] } else { vec![round as u8 + 1; 4096] };
        let reads = round % 3 == 2;
        let mut fetched: Option<Vec<u8>> = None;
        loop {
            // the worker writes one page whenever there is one
            if let Some(mut block) = drive.begin_sync() {
                if let Some(old) = block.page.remote() {
                    remote.remove(&old);
                }
                next_id += 1;
                remote.insert(next_id, block.data.clone());
                block.sync(next_id);
                assert!(drive.sync_page(block.page.clone()).is_some());
                drive.end_sync();
            }
            if reads {
                match drive.read(offset, fetched.take()) {
                    ReadStep::Done(bytes) => {
                        assert_eq!(bytes, expected[slot], "in round {}", round);
                        break;
                    }
                    ReadStep::Fetch(page) => {
                        fetches += 1;
                        fetched = Some(remote[&page.message_id].clone());
                    }
                    ReadStep::Busy(back) => fetched = back,
                }
            } else {
                match drive.write(offset, &chunk, fetched.take()) {
                    WriteStep::Fetch(page) => {
                        fetches += 1;
                        fetched = Some(remote[&page.message_id].clone());
                    }
                    WriteStep::Busy(back) => fetched = back,
                    step => {
                        settle(&mut drive, step, 1);
                        expected[slot] = chunk.clone();
                        break;
                    }
                }
            }
        }
        assert!(drive.check());
        let mut live: Vec<u64> = drive.cache.data.iter().map(|b| b.offset / PAGE).collect();
        live.extend(drive.queue.data.iter().map(|b| b.page.offset));
        let mut distinct = live.clone();
        distinct.sort();
        distinct.dedup();
        assert_eq!(distinct.len(), live.len());
    }
    assert!(fetches > 0);
    let held: Vec<u64> = drive.meta.iter().flat_map(|m| m.pages.iter().map(|p| p.offset)).collect();
    let mut distinct = held.clone();
    distinct.sort();
    distinct.dedup();
    assert_eq!(distinct.len(), held.len());
    assert_eq!(drive.meta.len(), 1);
}
