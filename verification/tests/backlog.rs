use bklog::backlog::Backlog;
use bklog::backlog::Found;
use bklog::error::Fault;
use bklog::error::InitError;
use bklog::error::PeekError;
use bklog::error::ReadError;
use bklog::error::WriteError;
use bklog::frame::Frame;

fn plain(bytes: Vec<u8>) -> Result<Vec<u8>, String> {
    Ok(bytes)
}

fn number(bytes: Vec<u8>) -> Result<u64, String> {
    match <[u8; 8]>::try_from(&bytes[..]) {
        Ok(array) => Ok(u64::from_ne_bytes(array)),
        Err(_) => Err(format!("{} bytes are no u64", bytes.len())),
    }
}

fn entry(n: u64) -> Vec<u8> {
    n.to_ne_bytes().to_vec()
}

fn fresh(size: u32) -> Backlog {
    Backlog::new(b"spool/queue.bkl", size, Vec::new()).unwrap()
}

/// The files of a backlog, as a listing of its directory would give them.
fn files(backlog: &Backlog) -> Vec<Found> {
    (0..backlog.len())
        .map(|i| Found {
            path: backlog.chunk(i).path().to_vec(),
            bytes: backlog.chunk(i).bytes().to_vec(),
        })
        .collect()
}

fn paths(backlog: &Backlog) -> Vec<Vec<u8>> {
    (0..backlog.len()).map(|i| backlog.chunk(i).path().to_vec()).collect()
}

#[test]
fn new_backlog_has_one_empty_chunk() {
    let backlog = fresh(64);
    assert_eq!(backlog.path(), b"spool/queue.bkl");
    assert_eq!(backlog.chunk_size(), 64);
    assert_eq!(backlog.len(), 1);
    assert_eq!(backlog.reading_chunk(), 0);
    assert_eq!(backlog.writing_chunk(), 0);
    assert_eq!(backlog.chunk(0).path(), b"spool/queue.bkl");
    assert_eq!(backlog.chunk(0).position(), 0);
    assert_eq!(backlog.chunk(0).bytes(), &[0u8; 64][..]);
}

#[test]
fn backlog_without_room_for_a_header_is_not_created() {
    assert_eq!(
        Backlog::new(b"queue.bkl", 7, Vec::new()).err(),
        Some(InitError::HeaderWriteError { path: b"queue.bkl".to_vec(), source: Fault::WriteZero })
    );
}

#[test]
fn entries_come_back_first_in_first_out() {
    let mut backlog = fresh(256);
    for n in 1..=10 {
        assert_eq!(backlog.write_entry(entry(n)), Ok(()));
    }
    assert_eq!(backlog.len(), 1);
    assert_eq!(backlog.read_entries(10, &number), Ok((1..=10).collect::<Vec<u64>>()));
    assert_eq!(backlog.chunk(0).header().read_cursor(), 160);
    assert_eq!(backlog.chunk(0).header().write_cursor(), 160);
}

#[test]
fn entries_written_at_once_come_back_in_order() {
    let mut backlog = fresh(128);
    let entries = vec![vec![1u8], vec![2, 2], vec![], vec![4, 4, 4, 4]];
    assert_eq!(backlog.write_entries(entries.clone()), Ok(()));
    assert_eq!(backlog.peek_entries(4, &plain), Ok(entries.clone()));
    assert_eq!(backlog.read_entries(4, &plain), Ok(entries));
}

#[test]
fn peek_twice_gives_the_same_entry() {
    let mut backlog = fresh(64);
    backlog.write_entry(entry(11)).unwrap();
    backlog.write_entry(entry(22)).unwrap();
    let before = backlog.chunk(0).bytes().to_vec();

    assert_eq!(backlog.peek_entry(&number), Ok(11));
    assert_eq!(backlog.peek_entry(&number), Ok(11));
    assert_eq!(backlog.chunk(0).bytes(), &before[..]);
    assert_eq!(backlog.chunk(0).header().read_cursor(), 0);

    let restarted = Backlog::new(b"spool/queue.bkl", 64, files(&backlog)).unwrap();
    assert_eq!(restarted.peek_entry(&number), Ok(11));
}

#[test]
fn peek_entries_reads_frame_behind_frame() {
    let mut backlog = fresh(64);
    backlog.write_entries(vec![entry(1), entry(2), entry(3)]).unwrap();
    assert_eq!(backlog.peek_entries(0, &number), Ok(vec![]));
    assert_eq!(backlog.peek_entries(2, &number), Ok(vec![1, 2]));
    assert_eq!(backlog.peek_entries(3, &number), Ok(vec![1, 2, 3]));
    assert_eq!(backlog.chunk(0).header().read_cursor(), 0);
}

#[test]
fn peek_past_the_last_entry_fails() {
    let mut backlog = fresh(64);
    backlog.write_entries(vec![entry(1), entry(2)]).unwrap();
    assert_eq!(
        backlog.peek_entries(3, &number),
        Err(PeekError::ReadError {
            source: ReadError::ReadError {
                path: b"spool/queue.bkl".to_vec(),
                source: Fault::UnexpectedEof,
            },
        })
    );
    assert_eq!(
        fresh(64).peek_entry(&number),
        Err(PeekError::ReadError {
            source: ReadError::ReadError {
                path: b"spool/queue.bkl".to_vec(),
                source: Fault::UnexpectedEof,
            },
        })
    );
}

#[test]
fn consumed_entries_never_come_back() {
    let mut backlog = fresh(256);
    backlog.write_entries((1..=6).map(entry).collect()).unwrap();
    assert_eq!(backlog.consume(2), Ok(()));
    assert_eq!(backlog.read_entry(&number), Ok(3));
    assert_eq!(backlog.consume(0), Ok(()));
    assert_eq!(backlog.read_entry(&number), Ok(4));
    assert_eq!(backlog.consume(1), Ok(()));
    assert_eq!(backlog.peek_entries(1, &number), Ok(vec![6]));
    assert_eq!(backlog.chunk(0).header().read_cursor(), 5 * 16);
}

#[test]
fn consume_past_the_last_entry_consumes_nothing() {
    let mut backlog = fresh(64);
    backlog.write_entries(vec![entry(1), entry(2)]).unwrap();
    assert_eq!(
        backlog.consume(3),
        Err(ReadError::AdvanceError {
            path: b"spool/queue.bkl".to_vec(),
            source: Fault::UnexpectedEof,
        })
    );
    assert_eq!(backlog.read_entry(&number), Ok(1));
}

#[test]
fn entry_that_does_not_decode_stays() {
    let mut backlog = fresh(64);
    backlog.write_entries(vec![entry(1), vec![1, 2, 3], entry(3)]).unwrap();
    let refused = || ReadError::DeserializeError {
        path: b"spool/queue.bkl".to_vec(),
        offset: 16,
        source: String::from("3 bytes are no u64"),
    };
    assert_eq!(backlog.read_entries(3, &number), Err(refused()));
    assert_eq!(backlog.chunk(0).header().read_cursor(), 0);
    assert_eq!(backlog.read_entry(&number), Ok(1));
    assert_eq!(backlog.read_entry(&number), Err(refused()));
    assert_eq!(backlog.read_entry(&number), Err(refused()));
    assert_eq!(backlog.chunk(0).header().read_cursor(), 16);
    assert_eq!(backlog.read_entry(&plain), Ok(vec![1, 2, 3]));
    assert_eq!(backlog.read_entry(&number), Ok(3));
}

#[test]
fn frame_that_fills_the_chunk_is_written_without_rotation() {
    let mut backlog = fresh(64);
    backlog.write_entry(vec![0; 24]).unwrap();
    assert_eq!(backlog.chunk(0).capacity(), 24);
    assert_eq!(backlog.write_entry(vec![1; 16]), Ok(()));
    assert_eq!(backlog.len(), 1);
    assert_eq!(backlog.chunk(0).capacity(), 0);
    assert_eq!(backlog.peek_entries(2, &plain), Ok(vec![vec![0; 24], vec![1; 16]]));
}

#[test]
fn frame_one_byte_too_long_rotates_the_chain() {
    let mut backlog = fresh(64);
    backlog.write_entry(vec![0; 24]).unwrap();
    assert_eq!(backlog.chunk(0).capacity(), 24);
    assert_eq!(backlog.write_entry(vec![1; 17]), Ok(()));
    assert_eq!(backlog.len(), 2);
    assert_eq!(backlog.writing_chunk(), 0);
    assert_eq!(backlog.reading_chunk(), 1);
    assert_eq!(paths(&backlog), vec![b"spool/queue.bkl".to_vec(), b"spool/queue.bkl.1".to_vec()]);
    assert_eq!(backlog.chunk(0).read(&plain), Ok(vec![1; 17]));
    assert_eq!(backlog.chunk(1).read(&plain), Ok(vec![0; 24]));
}

#[test]
fn fourth_entry_lands_in_a_new_chunk() {
    let mut backlog = fresh(64);
    assert_eq!(backlog.chunk(0).capacity(), 56);
    for n in 1..=3 {
        assert_eq!(backlog.write_entry(entry(n)), Ok(()));
    }
    assert_eq!(backlog.chunk(0).header().write_cursor(), 48);
    assert_eq!(backlog.chunk(0).capacity(), 8);
    assert_eq!(backlog.len(), 1);

    // The chunk itself refuses the fourth frame and hands it back.
    let mut full = Backlog::new(b"spool/queue.bkl", 64, files(&backlog)).unwrap();
    assert_eq!(full.len(), 1);
    let mut chunk = bklog::chunk::Chunk::open(
        b"spool/queue.bkl",
        64,
        backlog.chunk(0).bytes().to_vec(),
    )
    .unwrap();
    assert_eq!(
        chunk.write_entry(entry(4)),
        Err(WriteError::ChunkFull {
            path: b"spool/queue.bkl".to_vec(),
            size: 16,
            max_size: 64,
            frame: Frame::from_entry(entry(4)),
        })
    );

    assert_eq!(backlog.write_entry(entry(4)), Ok(()));
    assert_eq!(backlog.len(), 2);
    assert_eq!(backlog.writing_chunk(), 0);
    assert_eq!(backlog.reading_chunk(), 1);
    assert_eq!(backlog.chunk(0).path(), b"spool/queue.bkl");
    assert_eq!(backlog.chunk(0).position(), 0);
    assert_eq!(backlog.chunk(0).header().write_cursor(), 16);
    assert_eq!(backlog.chunk(0).read(&number), Ok(4));
    assert_eq!(backlog.chunk(1).path(), b"spool/queue.bkl.1");
    assert_eq!(backlog.chunk(1).position(), 1);
    assert_eq!(backlog.chunk(1).header().write_cursor(), 48);

    assert_eq!(backlog.peek_entries(3, &number), Ok(vec![1, 2, 3]));
    assert_eq!(full.write_entry(entry(4)), Ok(()));
    assert_eq!(full.peek_entries(3, &number), Ok(vec![1, 2, 3]));
}

#[test]
fn rotation_shifts_every_chunk() {
    let mut backlog = fresh(32);
    for n in 1..=4 {
        backlog.write_entry(entry(n)).unwrap();
    }
    assert_eq!(backlog.len(), 4);
    assert_eq!(
        paths(&backlog),
        vec![
            b"spool/queue.bkl".to_vec(),
            b"spool/queue.bkl.1".to_vec(),
            b"spool/queue.bkl.2".to_vec(),
            b"spool/queue.bkl.3".to_vec(),
        ]
    );
    assert_eq!(backlog.reading_chunk(), 3);
    assert_eq!(backlog.writing_chunk(), 0);
    for i in 0..4 {
        assert_eq!(backlog.chunk(i).position(), i as u32);
        assert_eq!(backlog.chunk(i).read(&number), Ok(4 - i as u64));
    }
    assert_eq!(backlog.read_entry(&number), Ok(1));
}

#[test]
fn entry_too_large_for_any_chunk_fails_after_rotation() {
    let mut backlog = fresh(32);
    backlog.write_entry(entry(1)).unwrap();
    assert_eq!(
        backlog.write_entry(vec![5; 17]),
        Err(WriteError::ChunkFull {
            path: b"spool/queue.bkl".to_vec(),
            size: 25,
            max_size: 32,
            frame: Frame::from_entry(vec![5; 17]),
        })
    );
    assert_eq!(backlog.len(), 2);
    assert_eq!(backlog.reading_chunk(), 1);
    assert_eq!(backlog.chunk(0).header().write_cursor(), 0);
    assert_eq!(backlog.peek_entry(&number), Ok(1));
}

#[test]
fn write_entries_stops_at_the_first_failure() {
    let mut backlog = fresh(32);
    let res = backlog.write_entries(vec![entry(1), vec![5; 17], entry(3)]);
    assert!(matches!(res, Err(WriteError::ChunkFull { size: 25, max_size: 32, .. })));
    assert_eq!(backlog.len(), 2);
    assert_eq!(backlog.chunk(1).read(&number), Ok(1));
    assert_eq!(backlog.chunk(0).header().write_cursor(), 0);
}

#[test]
fn chain_that_cannot_rotate_stays_as_it_is() {
    let last = Found { path: b"spool/queue.bkl.4294967295".to_vec(), bytes: vec![0; 24] };
    let full = {
        let mut chunk = bklog::chunk::Chunk::create(b"spool/queue.bkl", 24).unwrap();
        chunk.write_entry(entry(1)).unwrap();
        Found { path: b"spool/queue.bkl".to_vec(), bytes: chunk.bytes().to_vec() }
    };
    let mut backlog = Backlog::new(b"spool/queue.bkl", 24, vec![last, full]).unwrap();
    assert_eq!(backlog.len(), 2);
    assert_eq!(
        backlog.write_entry(entry(2)),
        Err(WriteError::RotationError {
            path: b"spool/queue.bkl.4294967295".to_vec(),
            source: Fault::InvalidData,
        })
    );
    assert_eq!(paths(&backlog), vec![
        b"spool/queue.bkl".to_vec(),
        b"spool/queue.bkl.4294967295".to_vec(),
    ]);
    assert_eq!(backlog.peek_entry(&number), Ok(1));
}

#[test]
fn written_entry_survives_a_restart() {
    let mut backlog = fresh(64);
    assert_eq!(backlog.write_entry(entry(77)), Ok(()));

    let restarted = Backlog::new(b"spool/queue.bkl", 64, files(&backlog)).unwrap();
    assert_eq!(restarted.len(), 1);
    assert_eq!(restarted.chunk(0).header().write_cursor(), 16);
    assert_eq!(restarted.chunk(0).header().read_cursor(), 0);
    assert_eq!(restarted.chunk(0).bytes(), backlog.chunk(0).bytes());
    assert_eq!(restarted.peek_entry(&number), Ok(77));
}

#[test]
fn rotated_chain_survives_a_restart() {
    let mut backlog = fresh(48);
    for n in 1..=5 {
        backlog.write_entry(entry(n)).unwrap();
    }
    backlog.consume(1).unwrap();
    assert_eq!(backlog.len(), 3);

    let mut found = files(&backlog);
    found.swap(0, 2);
    let mut restarted = Backlog::new(b"spool/queue.bkl", 48, found).unwrap();
    assert_eq!(paths(&restarted), paths(&backlog));
    assert_eq!(restarted.reading_chunk(), 2);
    assert_eq!(restarted.writing_chunk(), 0);
    for i in 0..3 {
        assert_eq!(restarted.chunk(i).position(), i as u32);
        assert_eq!(restarted.chunk(i).bytes(), backlog.chunk(i).bytes());
        assert_eq!(restarted.chunk(i).header(), backlog.chunk(i).header());
    }
    assert_eq!(restarted.read_entry(&number), Ok(2));
}

#[test]
fn restart_reads_from_the_oldest_chunk_with_entries() {
    let mut backlog = fresh(32);
    backlog.write_entry(entry(1)).unwrap();
    backlog.write_entry(entry(2)).unwrap();
    backlog.consume(1).unwrap();
    assert_eq!(backlog.reading_chunk(), 1);

    let restarted = Backlog::new(b"spool/queue.bkl", 32, files(&backlog)).unwrap();
    assert_eq!(restarted.reading_chunk(), 0);
    assert_eq!(restarted.peek_entry(&number), Ok(2));

    let empty = fresh(32);
    let restarted = Backlog::new(b"spool/queue.bkl", 32, files(&empty)).unwrap();
    assert_eq!(restarted.reading_chunk(), 0);
}

#[test]
fn chunks_of_equal_position_keep_their_order() {
    let mut first = bklog::chunk::Chunk::create(b"a", 24).unwrap();
    first.write_entry(entry(1)).unwrap();
    let mut second = bklog::chunk::Chunk::create(b"b", 24).unwrap();
    second.write_entry(entry(2)).unwrap();
    let found = vec![
        Found { path: b"q.bkl.3".to_vec(), bytes: vec![0; 24] },
        Found { path: b"q.bkl.03".to_vec(), bytes: first.bytes().to_vec() },
        Found { path: b"q.bkl".to_vec(), bytes: second.bytes().to_vec() },
        Found { path: b"q.bkl.1".to_vec(), bytes: vec![0; 24] },
    ];
    let backlog = Backlog::new(b"q.bkl", 24, found).unwrap();
    assert_eq!(
        paths(&backlog),
        vec![b"q.bkl".to_vec(), b"q.bkl.1".to_vec(), b"q.bkl.3".to_vec(), b"q.bkl.03".to_vec()]
    );
    assert_eq!(backlog.reading_chunk(), 3);
    assert_eq!(backlog.peek_entry(&number), Ok(1));
}

#[test]
fn first_file_that_does_not_open_fails_the_backlog() {
    let found = vec![
        Found { path: b"q.bkl".to_vec(), bytes: vec![0; 16] },
        Found { path: b"q.bkl.1".to_vec(), bytes: vec![0; 15] },
        Found { path: b"q.bkl.zz9z".to_vec(), bytes: vec![0; 16] },
    ];
    assert_eq!(
        Backlog::new(b"q.bkl", 16, found).err(),
        Some(InitError::HeaderReadError { path: b"q.bkl.1".to_vec(), source: Fault::InvalidData })
    );
    let found = vec![
        Found { path: b"q.bkl.zz9z".to_vec(), bytes: vec![0; 16] },
        Found { path: b"q.bkl.1".to_vec(), bytes: vec![0; 3] },
    ];
    assert_eq!(
        Backlog::new(b"q.bkl", 16, found).err(),
        Some(InitError::InvalidSuffix { path: b"q.bkl.zz9z".to_vec(), suffix: b"9z".to_vec() })
    );
    let found = vec![Found { path: b"q.bkl.1".to_vec(), bytes: vec![0; 3] }];
    assert_eq!(
        Backlog::new(b"q.bkl", 3, found).err(),
        Some(InitError::HeaderReadError { path: b"q.bkl.1".to_vec(), source: Fault::UnexpectedEof })
    );
}

#[test]
fn corrupt_entry_is_reported_and_not_consumed() {
    let mut backlog = fresh(64);
    backlog.write_entries(vec![entry(1), entry(2)]).unwrap();
    let mut found = files(&backlog);
    found[0].bytes[8 + 4] ^= 0x01;
    let mut damaged = Backlog::new(b"spool/queue.bkl", 64, found).unwrap();

    let good = Frame::from_entry(entry(1)).checksum();
    let mut payload = entry(1);
    payload[0] ^= 0x01;
    match damaged.read_entry(&number) {
        Err(ReadError::InvalidChecksum { path, offset, data, expected, actual }) => {
            assert_eq!(path, b"spool/queue.bkl".to_vec());
            assert_eq!(offset, 0);
            assert_eq!(data, payload);
            assert_eq!(expected, good);
            assert_ne!(expected, actual);
        }
        other => panic!("{other:?}"),
    }
    assert_eq!(damaged.chunk(0).header().read_cursor(), 0);
    assert!(matches!(
        damaged.peek_entry(&number),
        Err(PeekError::ReadError { source: ReadError::InvalidChecksum { .. } })
    ));
    assert!(matches!(damaged.read_entries(2, &number), Err(ReadError::InvalidChecksum { .. })));
    assert_eq!(damaged.consume(1), Ok(()));
    assert_eq!(damaged.read_entry(&number), Ok(2));
}
