use std::sync::Arc;
use std::time::SystemTime;

use tagstore::active::ActiveBlock;
use tagstore::block::{BlockData, InMemoryBlock, SearchBlock};
use tagstore::codec::{header_size, BlockFile, BlockHeader, Stream};

fn strs(v: &[&str]) -> Vec<String> {
    v.iter().map(|s| s.to_string()).collect()
}

fn arcs(v: Vec<Vec<u64>>) -> Vec<Option<Arc<Vec<u64>>>> {
    v.into_iter().map(|l| Some(Arc::new(l))).collect()
}

fn now_ms() -> u64 {
    SystemTime::now()
        .duration_since(SystemTime::UNIX_EPOCH)
        .unwrap()
        .as_millis() as u64
}

fn wait_next_ms() {
    let t = now_ms();
    while now_ms() <= t {}
}

fn round_trip_basic() {
    let block = BlockData {
        tags: strs(&["tag0", "tag1", "tag2"]),
        keys: strs(&["key0", "key1"]),
        timestamps: vec![100, 300],
        index: arcs(vec![vec![0], vec![0, 1], vec![1]]),
    };
    let buf = Stream::new(vec![0; 128]);
    let block = block.write(buf).map_err(|(_, err)| err).unwrap();
    let (buf, _, data) = block.release_all();

    let header = BlockHeader::read_header(&buf, 0).unwrap();
    let mut read_block = header.read_meta(buf).unwrap();
    read_block.read_index(0).unwrap();
    read_block.read_index(1).unwrap();
    read_block.read_index(2).unwrap();

    assert_eq!(data, read_block.data);
    assert_eq!(read_block.header.from, 100);
    assert_eq!(read_block.header.to, 300);
}

fn header_size_bound() {
    let mut header = BlockHeader::default();

    let buf = header.encode().unwrap();
    assert!((buf.len() as u64) <= header_size(header.index.len()));

    header.tags = u64::MAX;
    header.keys = u64::MAX;
    header.timestamps = u64::MAX;

    let buf = header.encode().unwrap();
    assert!((buf.len() as u64) <= header_size(header.index.len()));

    header.index.resize(1, u64::MAX);
    let buf = header.encode().unwrap();
    assert!((buf.len() as u64) <= header_size(header.index.len()));

    header.index.resize(16, u64::MAX);
    let buf = header.encode().unwrap();
    assert!((buf.len() as u64) <= header_size(header.index.len()));

    header.index.resize(1024, u64::MAX);
    let buf = header.encode().unwrap();
    assert!((buf.len() as u64) <= header_size(header.index.len()));

    header.index.resize(1024 * 1024, u64::MAX);
    let buf = header.encode().unwrap();
    assert!((buf.len() as u64) <= header_size(header.index.len()));
}

fn round_trip_data() {
    let mut block = BlockData::default();
    const BASE: i32 = 1024;
    for i in 0..BASE {
        block.tags.push(format!("tag{}", i));
    }
    for i in 0..BASE * 10 {
        block.keys.push(format!("key{}", i));
    }
    for i in 0..BASE * 10 {
        block.timestamps.push((i * 100) as u64);
    }
    for i in 0..BASE {
        let mut list = Vec::new();
        for j in (0..i * 10).step_by(10) {
            list.push(j as u64);
        }
        block.index.push(Some(Arc::new(list)));
    }

    let buf = Stream::new(vec![0; 128]);
    let block = block.write(buf).map_err(|(_, err)| err).unwrap();
    let (buf, _, data) = block.release_all();

    let header = BlockHeader::read_header(&buf, 0).unwrap();
    let mut read_block = header.read_meta(buf).unwrap();
    let ind_size = read_block.header.index.len();
    for i in 0..ind_size {
        read_block.read_index(i).unwrap();
    }

    assert_eq!(data, read_block.data);
}

fn round_trip_empty() {
    let block = BlockData::default();
    let buf = Stream::new(vec![0; 128]);
    let block = block.write(buf).map_err(|(_, err)| err).unwrap();
    let (buf, _, data) = block.release_all();

    let header = BlockHeader::read_header(&buf, 0).unwrap();
    let read_block = header.read_meta(buf).unwrap();

    assert_eq!(data, read_block.data);
}

fn sealed_active(check_size: bool) {
    let mut start = now_ms();

    let mut active = ActiveBlock::default();
    active.push("key0".to_string(), strs(&["tag0", "tag1"]));
    active.push("key1".to_string(), strs(&["tag1", "tag3"]));
    active.push("key2".to_string(), strs(&["tag0"]));
    active.push("key3".to_string(), strs(&["tag4", "tag0", "tag2"]));
    active.push("key4".to_string(), strs(&[]));
    active.push("key5".to_string(), strs(&["tag0", "tag1"]));

    let end = now_ms();

    let block = active.into_block();
    let expected = BlockData {
        tags: strs(&["tag0", "tag1", "tag2", "tag3", "tag4"]),
        keys: strs(&["key0", "key1", "key2", "key3", "key4", "key5"]),
        timestamps: block.data.timestamps.clone(),
        index: arcs(vec![vec![0, 2, 3, 5], vec![0, 1, 5], vec![3], vec![1], vec![3]]),
    };
    assert_eq!(block.data, expected);
    if check_size {
        assert_eq!(block.size, 10);
    }

    for t in block.data.timestamps {
        let cur = t;
        assert!(start <= cur, "{:?} <= {:?}", start, cur);
        assert!(cur <= end, "{:?} <= {:?}", cur, end);
        start = cur;
    }
}

fn merged_blocks() -> BlockData {
    let mut first = ActiveBlock::default();
    first.push("key0".to_string(), strs(&["tag0", "tag1"]));
    first.push("key1".to_string(), strs(&["tag1", "tag3"]));
    first.push("key2".to_string(), strs(&["tag0"]));
    let first = first.into_block();

    let mut second = ActiveBlock::default();
    second.push("key3".to_string(), strs(&["tag4", "tag0", "tag2"]));
    second.push("key4".to_string(), strs(&["tag2"]));
    second.push("key5".to_string(), strs(&["tag0", "tag1"]));
    second.push("key6".to_string(), strs(&["tag5"]));
    let second = second.into_block();

    first.merge(second).data
}

fn check_merged(block: &BlockData) {
    let expected = BlockData {
        tags: strs(&["tag0", "tag1", "tag2", "tag3", "tag4", "tag5"]),
        keys: strs(&["key0", "key1", "key2", "key3", "key4", "key5", "key6"]),
        timestamps: Vec::default(),
        index: arcs(vec![
            vec![0, 2, 3, 5],
            vec![0, 1, 5],
            vec![3, 4],
            vec![1],
            vec![3],
            vec![6],
        ]),
    };
    assert_eq!(expected.tags, block.tags);
    assert_eq!(expected.keys, block.keys);
    assert_eq!(expected.index, block.index);
}

fn merge_in_time_order() {
    let mut first = ActiveBlock::default();
    first.push("key0".to_string(), strs(&["tag0"]));
    let first = first.into_block();

    wait_next_ms();

    let mut second = ActiveBlock::default();
    second.push("key1".to_string(), strs(&["tag0"]));
    let second = second.into_block();

    let block = second.merge(first);

    assert_eq!(strs(&["key0", "key1"]), block.data.keys);
}

#[test]
fn block_test_basic() {
    round_trip_basic();
}

#[test]
fn index_basic() {
    round_trip_basic();
}

#[test]
fn block_basic() {
    round_trip_basic();
}

#[test]
fn block_test_header_size() {
    header_size_bound();
}

#[test]
fn index_header_size() {
    header_size_bound();
}

#[test]
fn block_header_size() {
    header_size_bound();
}

#[test]
fn block_test_data() {
    round_trip_data();
}

#[test]
fn index_data() {
    round_trip_data();
}

#[test]
fn block_data() {
    round_trip_data();
}

#[test]
fn block_test_empty() {
    round_trip_empty();
}

#[test]
fn index_empty() {
    round_trip_empty();
}

#[test]
fn block_empty() {
    round_trip_empty();
}

#[test]
fn block_test_active() {
    sealed_active(false);
}

#[test]
fn index_active() {
    sealed_active(false);
}

#[test]
fn block_active() {
    sealed_active(true);
}

#[test]
fn block_test_merge() {
    check_merged(&merged_blocks());
}

#[test]
fn index_merge() {
    check_merged(&merged_blocks());
}

#[test]
fn block_merge() {
    check_merged(&merged_blocks());
}

#[test]
fn block_test_merge_order() {
    merge_in_time_order();
}

#[test]
fn block_merge_order() {
    merge_in_time_order();
}

#[test]
fn two_blocks_in_one_file() {
    let mut first = ActiveBlock::default();
    first.push("key0".to_string(), strs(&["tag0", "tag1"]));
    first.push("key1".to_string(), strs(&["tag1", "tag3"]));
    first.push("key2".to_string(), strs(&["tag0"]));
    let first = first.into_block();

    let mut second = ActiveBlock::default();
    second.push("key3".to_string(), strs(&["tag4", "tag0", "tag2"]));
    second.push("key4".to_string(), strs(&["tag2"]));
    second.push("key5".to_string(), strs(&["tag0", "tag1"]));
    second.push("key6".to_string(), strs(&["tag5"]));
    let second = second.into_block();

    let file = Stream::new(vec![]);
    let first = first.write(file).map_err(|(_, err)| err).unwrap();
    let file = first.file;
    assert_eq!(first.header.start, 0);
    assert_ne!(first.header.size, 0);
    assert_eq!(file.bytes.len() as u64, first.header.start + first.header.size);

    let second = second.write(file).map_err(|(_, err)| err).unwrap();
    let mut file = second.file;
    assert_eq!(second.header.start, first.header.start + first.header.size);
    assert_ne!(second.header.size, 0);
    assert_eq!(file.bytes.len() as u64, second.header.start + second.header.size);

    let check = |file: Stream, header: &BlockHeader, data: &BlockData| -> Stream {
        let mut read = BlockHeader::read_header(&file, header.start)
            .unwrap()
            .read_meta(file)
            .unwrap();

        read.read_all().unwrap();

        assert_eq!(*header, read.header);
        assert_eq!(*data, read.data);

        read.file
    };

    file = check(file, &first.header, &first.data);
    check(file, &second.header, &second.data);
}

#[test]
fn open_reads_back_a_written_block() {
    let mut active = ActiveBlock::default();
    active.push_at("a".to_string(), strs(&["x", "y"]), 10);
    active.push_at("b".to_string(), strs(&["y"]), 20);
    let block = active.into_block();
    let written = block.write(Stream::new(vec![7; 5])).map_err(|(_, e)| e).unwrap();
    let (file, header, data) = written.release_all();
    let reopened = BlockFile::open(file, 0).unwrap();
    assert_eq!(reopened.header, header);
    assert_eq!(reopened.data, data);
    assert_eq!((header.from, header.to), (10, 20));
    assert_eq!(reopened.get_type(), tagstore::block::BlockType::File);
}

#[test]
fn posting_lists_are_stored_as_deltas() {
    let block = BlockData {
        tags: strs(&["t"]),
        keys: strs(&["a", "b", "c", "d"]),
        timestamps: vec![1, 2, 3, 4],
        index: arcs(vec![vec![1, 2, 3]]),
    };
    let written = block.write(Stream::new(vec![])).map_err(|(_, e)| e).unwrap();
    let at = written.header.index[0] as usize;
    // a fixed array of three positive fixints: the first ordinal, then two gaps of one
    assert_eq!(&written.file.bytes[at..], &[0x93, 1, 1, 1]);
}

#[test]
fn write_refuses_unloaded_lists() {
    let block = BlockData {
        tags: strs(&["t"]),
        keys: strs(&["a"]),
        timestamps: vec![1],
        index: vec![None],
    };
    let (back, err) = block.write(Stream::new(vec![])).err().unwrap();
    assert_eq!(err, tagstore::block::StorageError::IndexNotLoaded);
    assert_eq!(back.index, vec![None]);
}

#[test]
fn read_header_rejects_other_start() {
    let mut active = ActiveBlock::default();
    active.push_at("a".to_string(), strs(&["x"]), 1);
    let written = active.into_block().write(Stream::new(vec![0; 3])).map_err(|(_, e)| e).unwrap();
    let start = written.header.start;
    assert_eq!(start, 0);
    assert_eq!(
        BlockHeader::read_header(&written.file, 1).err(),
        Some(tagstore::block::StorageError::Decode)
    );
}

#[test]
fn push_clamps_timestamps_and_counts_pairs() {
    let mut active = ActiveBlock::new();
    active.push_at("a".to_string(), strs(&["x", "x"]), 50);
    active.push_at("b".to_string(), strs(&["y"]), 40);
    assert_eq!(active.timestamps, vec![50, 50]);
    assert_eq!(active.size(), 3);
    assert_eq!(active.tags, strs(&["x", "y"]));
    assert_eq!(active.index, vec![vec![0, 0], vec![1]]);
}

#[test]
fn merge_with_empty_block_keeps_other() {
    let empty = InMemoryBlock { data: BlockData::default(), size: 0 };
    let mut active = ActiveBlock::new();
    active.push_at("a".to_string(), strs(&["x"]), 5);
    let block = active.into_block();
    let merged = empty.merge(block);
    assert_eq!(merged.data.keys, strs(&["a"]));
    assert_eq!(merged.size, 1);
    assert_eq!(merged.range(), (5, 5));
}

#[test]
fn in_memory_block_serves_loaded_lists() {
    let mut active = ActiveBlock::new();
    active.push_at("a".to_string(), strs(&["b", "a"]), 5);
    let mut block = active.into_block();
    assert_eq!(block.get_tags(), &strs(&["a", "b"])[..]);
    assert_eq!(block.get_keys(), &strs(&["a"])[..]);
    assert_eq!(*block.try_get_index(1).unwrap(), vec![0]);
    assert!(block.read_index(0).is_err());
}

#[test]
fn empty_block_has_zero_range() {
    let written = BlockData::default().write(Stream::new(vec![])).map_err(|(_, e)| e).unwrap();
    assert_eq!((written.header.from, written.header.to), (0, 0));
    assert_eq!(written.header.tags, 69);
    assert_eq!(written.file.pos as u64, written.header.size);
}

#[test]
fn floor_holds_back_early_clock() {
    let mut active = ActiveBlock::starting_at(100);
    active.push_at("a".to_string(), strs(&["x"]), 40);
    active.push_at("b".to_string(), strs(&["x"]), 120);
    assert_eq!(active.timestamps, vec![100, 120]);
    assert_eq!(active.floor, 100);
}

#[test]
fn update_index_rewrites_list_in_place() {
    let block = BlockData {
        tags: strs(&["t"]),
        keys: strs(&["a", "b", "c"]),
        timestamps: vec![1, 2, 3],
        index: arcs(vec![vec![0, 2]]),
    };
    let mut written = block.write(Stream::new(vec![])).map_err(|(_, e)| e).unwrap();
    let before = written.file.bytes.clone();
    written.update_index(0).unwrap();
    assert_eq!(written.file.bytes, before);
    written.release(0);
    assert_eq!(
        written.update_index(0),
        Err(tagstore::block::StorageError::IndexNotLoaded)
    );
    written.read_index(0).unwrap();
    assert_eq!(*written.try_get_index(0).unwrap(), vec![0, 2]);
}
