use discorddrive::metadata::{LoadStep, MetadataBlock, Page, RecordUpdate, TryWrite};
use discorddrive::utils::BitMask;

const MB: u64 = 1024 * 1024;

fn zero_mask_text() -> String {
    "0".repeat(256)
}

#[test]
fn metadata_block() {
    let mut block = MetadataBlock::empty(1234567890);
    block.pages.push(Page { offset: 0, message_id: 1234567891, zero_mask: BitMask::new() });

    let text = block.as_text();

    let block = MetadataBlock::from_text(1234567890, &text);

    assert_eq!(block.message_id, 1234567890);
    assert_eq!(block.pages.len(), 1);
    assert_eq!(block.pages[0].offset, 0);
    assert_eq!(block.pages[0].message_id, 1234567891);
    assert_eq!(block.pages[0].zero_mask.as_bytes(), [0; 256]);
}

#[test]
fn record_text_is_exact() {
    let mut block = MetadataBlock::empty(0);
    assert_eq!(block.as_text(), "METABLOCK\n");
    block.pages.push(Page { offset: 0, message_id: 1234567891, zero_mask: BitMask::new() });
    let mut mask = BitMask::<256>::new();
    mask.set(0, true);
    mask.set(9, true);
    mask.set(2047, true);
    block.pages.push(Page { offset: 1234567890, message_id: 32, zero_mask: mask });
    let expected = format!(
        "METABLOCK\n0:14pc0mj:{}\n14pc0mi:10:12{}{}\n",
        zero_mask_text(),
        "0".repeat(253),
        'ç'
    );
    assert_eq!(block.as_text(), expected);
}

#[test]
fn page_text_has_one_symbol_for_each_byte() {
    let bytes: Vec<u8> = (0..=255u8).collect();
    let page = Page { offset: 3, message_id: 4, zero_mask: BitMask::from_bytes(&bytes) };
    let text = page.as_text();
    assert_eq!(text, "0123456789ABCDEFGHIJKLMNOPQRSTUVWXYZabcdefghijklmnopqrstuvwxyz!\"#$%&'()+,-./:;<=>?@[]^{}~‰£¤¥¦§«¬²³µÀÁÂÃÄÅÆÇÈÉÊËÌÍÎÏÐÑÒØßàáâãäåæçèéêëìþÿǷǾǿɅɆɄɃȽȾȺȸȹɎʘʗʖʕʔʓʒʑʊʇʆʁʂϠϡϢϭϱϺϻϿϾϼ◔◍◎◐◑◒◓◚◛◳◲◱◰◯◿◜◝◞◟◠◡◉◊▣▤▥▦▧▨▩▚▙▜▛▝▞▟▂▃▄▅▆▇█▉▊▋▌▍░▒▓①②③④⑤⑥⑦⑧⑨⑩⑪⑫⑬⑭⑮ⒶⒷⒸⒹⒺⒻⒼⒽⒾⒿ⑴⑵⑶⑷⑸⑹‹");
    assert_eq!(text.chars().count(), 256);
    let back = Page::from_text(4, 3, &text);
    assert_eq!(back.offset, 3);
    assert_eq!(back.message_id, 4);
    assert_eq!(back.zero_mask.as_bytes(), bytes.as_slice());
}

#[test]
fn page_from_short_text_pads_with_zeros() {
    let page = Page::from_text(1, 2, "1A");
    assert_eq!(page.zero_mask.as_bytes()[0], 1);
    assert_eq!(page.zero_mask.as_bytes()[1], 10);
    assert_eq!(&page.zero_mask.as_bytes()[2..], [0u8; 254].as_slice());
    assert_eq!(Page::from_text(1, 2, "").zero_mask.as_bytes(), [0u8; 256]);
    // a character that is no symbol counts as zero
    assert_eq!(Page::from_text(1, 2, "*1").zero_mask.as_bytes()[..2], [0u8, 1]);
}

#[test]
fn directory_round_trip_with_every_mask_byte() {
    let bytes: Vec<u8> = (0..=255u8).collect();
    let mut block = MetadataBlock::empty(77);
    block.pages.push(Page { offset: 5, message_id: 6, zero_mask: BitMask::from_bytes(&bytes) });
    block.pages.push(Page { offset: u64::MAX, message_id: u64::MAX, zero_mask: BitMask::new() });
    block.pages.push(Page { offset: 0, message_id: 0, zero_mask: BitMask::from_bytes(&[76; 256]) });
    let text = block.as_text();
    let back = MetadataBlock::from_text(77, &text);
    assert_eq!(back.message_id, 77);
    assert_eq!(back.pages.len(), 3);
    for (a, b) in block.pages.iter().zip(back.pages.iter()) {
        assert_eq!(a.offset, b.offset);
        assert_eq!(a.message_id, b.message_id);
        assert_eq!(a.zero_mask.as_bytes(), b.zero_mask.as_bytes());
    }
    assert_eq!(back.as_text(), text);
}

#[test]
fn record_lines_may_end_in_return_and_feed() {
    let text = format!("METABLOCK\r\n1:2:{}\r\n3:4:\n5:6:1", zero_mask_text());
    let block = MetadataBlock::try_from_text(9, &text).unwrap();
    assert_eq!(block.pages.len(), 3);
    assert_eq!((block.pages[0].offset, block.pages[0].message_id), (1, 2));
    assert_eq!(block.pages[0].zero_mask.as_bytes(), [0u8; 256]);
    assert_eq!((block.pages[1].offset, block.pages[1].message_id), (3, 4));
    assert_eq!((block.pages[2].offset, block.pages[2].message_id), (5, 6));
    assert_eq!(block.pages[2].zero_mask.as_bytes()[0], 1);
}

#[test]
fn record_header_is_passed_over() {
    assert_eq!(MetadataBlock::try_from_text(1, "").unwrap().pages.len(), 0);
    assert_eq!(MetadataBlock::try_from_text(1, "METABLOCK").unwrap().pages.len(), 0);
    assert_eq!(MetadataBlock::try_from_text(1, "METABLOCK\n").unwrap().pages.len(), 0);
    assert_eq!(MetadataBlock::try_from_text(1, "anything at all\n1:2:\n").unwrap().pages.len(), 1);
    assert!(MetadataBlock::is_record("METABLOCK"));
    assert!(MetadataBlock::is_record("METABLOCK\n0:0:\n"));
    assert!(MetadataBlock::is_record("METABLOCKS"));
    assert!(!MetadataBlock::is_record("METABLOC"));
    assert!(!MetadataBlock::is_record(" METABLOCK"));
    assert!(!MetadataBlock::is_record("DATA PAGE"));
    assert!(!MetadataBlock::is_record(""));
}

#[test]
fn malformed_records_are_told() {
    // a line without its colons
    assert!(MetadataBlock::try_from_text(1, "METABLOCK\n12\n").is_none());
    assert!(MetadataBlock::try_from_text(1, "METABLOCK\n1:2\n").is_none());
    // an empty line between pages
    assert!(MetadataBlock::try_from_text(1, "METABLOCK\n1:2:\n\n3:4:\n").is_none());
    // no digits of radix 32
    assert!(MetadataBlock::try_from_text(1, "METABLOCK\nx:2:\n").is_none());
    assert!(MetadataBlock::try_from_text(1, "METABLOCK\n1:W:\n").is_none());
    // a number that does not fit
    assert!(MetadataBlock::try_from_text(1, "METABLOCK\ng000000000000:2:\n").is_none());
    // a mask of more than 256 symbols
    let long = format!("METABLOCK\n1:2:{}0\n", zero_mask_text());
    assert!(MetadataBlock::try_from_text(1, &long).is_none());
    // empty numbers count as zero
    let block = MetadataBlock::try_from_text(1, "METABLOCK\n::\n").unwrap();
    assert_eq!((block.pages[0].offset, block.pages[0].message_id), (0, 0));
}

#[test]
fn a_mask_may_hold_colons() {
    let text = "METABLOCK\n1:2::1:\n";
    let block = MetadataBlock::try_from_text(1, text).unwrap();
    assert_eq!(block.pages[0].zero_mask.as_bytes()[..3], [76u8, 1, 76]);
}

#[test]
fn page_read_builds_the_buffer_from_the_remote_object() {
    let mut page = Page::new(2);
    page.message_id = 44;
    page.zero_mask.set(1, true);
    assert!(page.needs_fetch());
    // nothing can be had without the remote object, whichever chunk is asked for
    assert!(page.read(16 * MB, None).is_none());
    assert!(page.read(16 * MB + 4096, None).is_none());
    // a chunk that is not marked is as the remote object has it, a marked chunk is zero
    let mut remote = vec![9u8; 8 * MB as usize];
    remote[0] = 1;
    remote[4096] = 2;
    remote[8192] = 3;
    for offset in [16 * MB, 16 * MB + 4096, 16 * MB + 8192] {
        let buffer = page.read(offset, Some(remote.clone())).unwrap();
        assert_eq!(buffer.len(), 8 * MB as usize);
        assert_eq!(buffer[0], 1);
        assert_eq!(&buffer[1..4096], vec![9u8; 4095].as_slice());
        assert_eq!(&buffer[4096..8192], vec![0u8; 4096].as_slice());
        assert_eq!(buffer[8192], 3);
        assert_eq!(&buffer[8193..], &remote[8193..]);
    }
    assert_eq!(page.message_id, 44);
    assert_eq!(page.remote(), Some(44));
    assert_eq!(Page::new(2).remote(), None);
}

#[test]
fn page_read_needs_no_remote_object_where_there_is_none_to_read() {
    // a page that no remote object holds
    let mut page = Page::new(2);
    page.zero_mask.set(1, true);
    assert!(!page.needs_fetch());
    let buffer = page.read(16 * MB, None).unwrap();
    assert_eq!(buffer, vec![0u8; 8 * MB as usize]);
    // a page whose chunks are all marked
    let mut page = Page::new(2);
    page.message_id = 44;
    page.zero_mask = BitMask::from_bytes(&[0xff; 256]);
    assert!(!page.needs_fetch());
    assert_eq!(page.read(16 * MB, None).unwrap(), vec![0u8; 8 * MB as usize]);
    assert_eq!(page.read(16 * MB, Some(vec![5u8; 8 * MB as usize])).unwrap(), vec![0u8; 8 * MB as usize]);
    // one chunk not marked, and the remote object is needed
    page.zero_mask.set(2047, false);
    assert!(page.needs_fetch());
    assert!(page.read(16 * MB, None).is_none());
    let buffer = page.read(16 * MB, Some(vec![5u8; 8 * MB as usize])).unwrap();
    assert_eq!(&buffer[..2047 * 4096], vec![0u8; 2047 * 4096].as_slice());
    assert_eq!(&buffer[2047 * 4096..], vec![5u8; 4096].as_slice());
}

#[test]
fn page_write_marks_or_splices() {
    let mut page = Page::new(1);
    let current = vec![5u8; 8 * MB as usize];
    // zeros only mark the chunk
    let (buffer, copy) = page.write(8 * MB + 4096, &[0; 4096], current);
    assert_eq!(buffer, vec![5u8; 8 * MB as usize]);
    assert!(page.zero_mask.get(1));
    assert!(!page.zero_mask.get(0));
    assert_eq!(copy.zero_mask.as_bytes(), page.zero_mask.as_bytes());
    assert_eq!(copy.offset, 1);
    // other bytes are written, and the mark is cleared
    let mut chunk = [0u8; 4096];
    chunk[0] = 1;
    chunk[4095] = 2;
    let (buffer, copy) = page.write(8 * MB + 4096, &chunk, buffer);
    assert!(!page.zero_mask.get(1));
    assert!(!copy.zero_mask.get(1));
    assert_eq!(buffer[4095], 5);
    assert_eq!(&buffer[4096..8192], chunk.as_slice());
    assert_eq!(buffer[8192], 5);
    assert_eq!(page.message_id, 0);
    page.update_message(12);
    assert_eq!(page.message_id, 12);
    assert_eq!(page.offset, 1);
}

#[test]
fn directory_try_read() {
    let mut block = MetadataBlock::empty(1);
    let mut a = Page::new(0);
    a.message_id = 10;
    a.zero_mask.set(0, true);
    let mut b = Page::new(3);
    b.message_id = 11;
    block.pages.push(a);
    block.pages.push(b);
    block.pages.push(Page::new(5));
    assert!(block.try_read(8 * MB, None).is_none());
    assert_eq!(block.position(0), Some(0));
    assert_eq!(block.position(3), Some(1));
    assert_eq!(block.position(1), None);
    // a page with a remote object is brought, whether the chunk is marked or not
    let (buffer, page) = block.try_read(0, None).unwrap();
    assert!(buffer.is_none());
    assert_eq!(page.message_id, 10);
    let (buffer, page) = block.try_read(4096, None).unwrap();
    assert!(buffer.is_none());
    assert_eq!(page.message_id, 10);
    let (buffer, page) = block.try_read(4096, Some(vec![6u8; 8 * MB as usize])).unwrap();
    let buffer = buffer.unwrap();
    assert_eq!(&buffer[..4096], vec![0u8; 4096].as_slice());
    assert_eq!(&buffer[4096..], vec![6u8; 8 * MB as usize - 4096].as_slice());
    assert_eq!(page.message_id, 10);
    let (buffer, page) = block.try_read(24 * MB + 4096, None).unwrap();
    assert!(buffer.is_none());
    assert_eq!((page.offset, page.message_id), (3, 11));
    // a page without one is made of zeros
    let (buffer, page) = block.try_read(40 * MB, None).unwrap();
    assert_eq!(buffer.unwrap(), vec![0u8; 8 * MB as usize]);
    assert_eq!((page.offset, page.message_id), (5, 0));
}

#[test]
fn directory_try_write() {
    let mut block = MetadataBlock::empty(1);
    // a new page is added while there is room
    for index in 0..5u64 {
        match block.try_write(index * 8 * MB, &[1; 4096]) {
            TryWrite::Created(buffer, page) => {
                assert_eq!(page.offset, index);
                assert_eq!(page.message_id, 0);
                assert_eq!(buffer.len(), 8 * MB as usize);
                assert_eq!(&buffer[..4096], [1u8; 4096].as_slice());
                assert_eq!(buffer[4096], 0);
            }
            _ => panic!("a page was to be added"),
        }
    }
    assert_eq!(block.pages.len(), 5);
    // a sixth page finds no room
    assert!(matches!(block.try_write(5 * 8 * MB, &[1; 4096]), TryWrite::Full));
    assert_eq!(block.pages.len(), 5);
    // a page that is held and has no remote object is written from zeros
    match block.try_write(8 * MB + 4096, &[0; 4096]) {
        TryWrite::Written(buffer, page) => {
            assert_eq!(page.offset, 1);
            assert!(page.zero_mask.get(1));
            assert!(buffer.iter().all(|b| *b == 0));
        }
        _ => panic!("the page was to be written"),
    }
    assert!(block.pages[1].zero_mask.get(1));
    // a page with a remote object is brought first, whether the chunk is marked or not
    block.pages[1].message_id = 9;
    match block.try_write(8 * MB, &[2; 4096]) {
        TryWrite::Fetch(page) => assert_eq!((page.offset, page.message_id), (1, 9)),
        _ => panic!("the page was to be brought"),
    }
    match block.try_write(8 * MB + 4096, &[2; 4096]) {
        TryWrite::Fetch(page) => assert_eq!((page.offset, page.message_id), (1, 9)),
        _ => panic!("the page was to be brought"),
    }
    assert!(block.pages[1].zero_mask.get(1));
    // the chunk goes into what the remote object holds; the marked chunk is zero there
    let (buffer, page) = block.write_fetched(8 * MB, &[3; 4096], vec![7; 8 * MB as usize]);
    assert_eq!(&buffer[..4096], [3u8; 4096].as_slice());
    assert_eq!(&buffer[4096..8192], [0u8; 4096].as_slice());
    assert_eq!(buffer[8192], 7);
    assert_eq!(page.message_id, 9);
    assert!(page.zero_mask.get(1));
    // a write to the marked chunk clears its mark, and leaves the other chunks as they are
    let (buffer, page) = block.write_fetched(8 * MB + 4096, &[4; 4096], vec![7; 8 * MB as usize]);
    assert_eq!(&buffer[..4096], [7u8; 4096].as_slice());
    assert_eq!(&buffer[4096..8192], [4u8; 4096].as_slice());
    assert_eq!(buffer[8192], 7);
    assert!(!page.zero_mask.get(1));
    assert!(!block.pages[1].zero_mask.get(1));
    // where every chunk is marked, nothing is brought
    block.pages[1].zero_mask = BitMask::from_bytes(&[0xff; 256]);
    match block.try_write(8 * MB, &[5; 4096]) {
        TryWrite::Written(buffer, page) => {
            assert!(!page.zero_mask.get(0));
            assert!(page.zero_mask.get(1));
            assert_eq!(&buffer[..4096], [5u8; 4096].as_slice());
            assert_eq!(&buffer[4096..], vec![0u8; 8 * MB as usize - 4096].as_slice());
        }
        _ => panic!("the page was to be written"),
    }
    assert_eq!(block.message_id, 1);
}

#[test]
fn directory_update_page() {
    let mut block = MetadataBlock::empty(1);
    block.pages.push(Page::new(4));
    block.pages.push(Page::new(6));
    let mut synced = Page::new(6);
    synced.message_id = 123;
    synced.zero_mask.set(5, true);
    assert!(block.update_page(synced));
    assert_eq!(block.pages[1].message_id, 123);
    assert!(block.pages[1].zero_mask.get(5));
    assert_eq!(block.pages[0].message_id, 0);
    assert!(!block.update_page(Page::new(7)));
    assert_eq!(block.pages.len(), 2);
}

#[test]
fn directory_record_update() {
    let mut block = MetadataBlock::empty(0);
    block.pages.push(Page::new(1));
    match block.update_message() {
        RecordUpdate::Create(text) => assert_eq!(text, block.as_text()),
        RecordUpdate::Edit(..) => panic!("there is no record yet"),
    }
    block.set_message_id(55);
    match block.update_message() {
        RecordUpdate::Edit(id, text) => {
            assert_eq!(id, 55);
            assert_eq!(text, format!("METABLOCK\n1:0:{}\n", zero_mask_text()));
        }
        RecordUpdate::Create(_) => panic!("there is a record"),
    }
}

#[test]
fn load_all_reads_the_records_among_the_messages() {
    let mut blocks = Vec::new();
    assert!(matches!(MetadataBlock::load_start(0), LoadStep::Done));
    assert!(matches!(MetadataBlock::load_start(500), LoadStep::More(0, 500)));
    let messages = vec![
        (90u64, "DATA PAGE".to_string()),
        (80u64, format!("METABLOCK\n1:2:{}\n", zero_mask_text())),
        (70u64, "hello".to_string()),
        (60u64, "METABLOCK\n".to_string()),
    ];
    match MetadataBlock::load_all(&mut blocks, &messages, 500) {
        LoadStep::More(before, limit) => {
            assert_eq!(before, 60);
            assert_eq!(limit, 496);
        }
        _ => panic!("more messages were to be listed"),
    }
    assert_eq!(blocks.len(), 2);
    assert_eq!(blocks[0].message_id, 80);
    assert_eq!(blocks[0].pages.len(), 1);
    assert_eq!(blocks[1].message_id, 60);
    assert_eq!(blocks[1].pages.len(), 0);
    // no messages, or the limit used up, end the loading
    assert!(matches!(MetadataBlock::load_all(&mut blocks, &Vec::new(), 496), LoadStep::Done));
    assert!(matches!(MetadataBlock::load_all(&mut blocks, &messages, 4), LoadStep::Done));
    assert_eq!(blocks.len(), 4);
}

#[test]
fn load_all_stops_at_a_record_that_cannot_be_read() {
    let mut blocks = Vec::new();
    let messages = vec![
        (9u64, "METABLOCK\n1:2:\n".to_string()),
        (8u64, "METABLOCK\n1:2\n".to_string()),
        (7u64, "METABLOCK\n3:4:\n".to_string()),
    ];
    match MetadataBlock::load_all(&mut blocks, &messages, 100) {
        LoadStep::Malformed(id) => assert_eq!(id, 8),
        _ => panic!("the second record cannot be read"),
    }
    assert_eq!(blocks.len(), 1);
    assert_eq!(blocks[0].message_id, 9);
}

/// Reads a record with the line and field splitting of the standard library.
fn read_with_std(text: &str) -> Option<Vec<(u64, u64, Vec<u8>)>> {
    let mut pages = Vec::new();
    for line in text.lines().skip(1) {
        let mut fields = line.splitn(3, ':');
        let index: Vec<char> = fields.next()?.chars().collect();
        let handle: Vec<char> = fields.next()?.chars().collect();
        let mask = fields.next()?;
        if mask.chars().count() > 256 {
            return None;
        }
        let mut bytes = vec![0u8; 256];
        for (i, c) in mask.chars().enumerate() {
            bytes[i] = discorddrive::utils::base_255_to_byte(c);
        }
        pages.push((
            discorddrive::utils::parse_base32(&index)?,
            discorddrive::utils::parse_base32(&handle)?,
            bytes,
        ));
    }
    Some(pages)
}

#[test]
fn records_are_split_as_the_standard_library_splits_lines() {
    let texts = [
        "",
        "\n",
        "\r\n",
        "\r",
        "METABLOCK",
        "METABLOCK\n",
        "METABLOCK\r\n",
        "METABLOCK\n\n",
        "METABLOCK\n1:2:3",
        "METABLOCK\n1:2:3\n",
        "METABLOCK\n1:2:3\r\n",
        "METABLOCK\n1:2:3\r",
        "METABLOCK\n1:2:3\r\r\n",
        "METABLOCK\n1:2:\r\n4:5:6\n",
        "METABLOCK\r\n1:2:3\n\n",
        "METABLOCK\n1:2:3\n4:5\n",
        "METABLOCK\n1:2:3:4:5\n",
        "METABLOCK\n:::\n",
        "METABLOCK\n1:2:a\rb\n",
        "1:2:3\n4:5:6\n",
        "\n1:2:3",
        "\r\n\r\n",
        "METABLOCK\nv:vv:‹‰\n",
        "METABLOCK\n 1:2:3\n",
        "METABLOCK\n1 :2:3\n",
    ];
    for text in texts {
        let expected = read_with_std(text);
        let got = MetadataBlock::try_from_text(1, text);
        match (expected, got) {
            (None, None) => {}
            (Some(pages), Some(block)) => {
                assert_eq!(pages.len(), block.pages.len(), "in {:?}", text);
                for (page, read) in pages.iter().zip(block.pages.iter()) {
                    assert_eq!(page.0, read.offset, "in {:?}", text);
                    assert_eq!(page.1, read.message_id, "in {:?}", text);
                    assert_eq!(page.2.as_slice(), read.zero_mask.as_bytes(), "in {:?}", text);
                }
            }
            (expected, got) => panic!(
                "{:?} is read as {:?} pages, and was to be read as {:?}",
                text,
                got.map(|b| b.pages.len()),
                expected.map(|p| p.len())
            ),
        }
    }
}
