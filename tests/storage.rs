use std::collections::BTreeMap;

use tagstore::active::ActiveBlock;
use tagstore::block::{InMemoryBlock, SearchBlock, StorageError};
use tagstore::codec::{BlockFile, BlockHeader, Stream};
use tagstore::storage::{
    compact, enqueue, range_intersect, read_indicies, unix_parts, Config, StorageLockedIter,
};

fn block(key: &str, tags: &[&str], at: u64, copies: usize) -> InMemoryBlock {
    let mut active = ActiveBlock::new();
    for i in 0..copies {
        active.push_at(
            format!("{}{}", key, i),
            tags.iter().map(|t| t.to_string()).collect(),
            at,
        );
    }
    active.into_block()
}

fn sizes(list: &[InMemoryBlock]) -> Vec<u64> {
    list.iter().map(|b| b.size).collect()
}

#[test]
fn compact_merges_while_previous_is_under_four_times_last() {
    let mut list = vec![block("a", &["x"], 1, 8), block("b", &["x"], 2, 1)];
    // 8 is not under 4 * 1: nothing merges
    assert!(compact(&mut list, 100).is_none());
    assert_eq!(sizes(&list), vec![8, 1]);

    list.push(block("c", &["x"], 3, 1));
    // 1 < 4 * 1: the last two merge into 2; 8 is not under 4 * 2
    assert!(compact(&mut list, 100).is_none());
    assert_eq!(sizes(&list), vec![8, 2]);

    list.push(block("d", &["x"], 4, 3));
    // 2 < 12 merges into 5, then 8 < 20 merges into 13
    assert!(compact(&mut list, 100).is_none());
    assert_eq!(sizes(&list), vec![13]);
    let keys: Vec<String> = list[0].data.keys.clone();
    assert_eq!(
        keys,
        vec!["a0", "a1", "a2", "a3", "a4", "a5", "a6", "a7", "b0", "c0", "d0", "d1", "d2"]
    );
}

#[test]
fn compact_hands_out_oversized_last_block() {
    let mut list = vec![block("a", &["x", "y"], 1, 3), block("b", &["y"], 2, 5)];
    let out = compact(&mut list, 10).unwrap();
    assert!(list.is_empty());
    assert_eq!(out.size, 11);
    assert_eq!(out.data.keys.len(), 8);
    assert_eq!(out.data.tags, vec!["x".to_string(), "y".to_string()]);
    assert_eq!(*out.data.index[0].as_ref().unwrap().as_ref(), vec![0, 1, 2]);
    assert_eq!(*out.data.index[1].as_ref().unwrap().as_ref(), vec![0, 1, 2, 3, 4, 5, 6, 7]);
}

#[test]
fn compact_on_empty_and_single() {
    let mut list: Vec<InMemoryBlock> = vec![];
    assert!(compact(&mut list, 0).is_none());
    let mut list = vec![block("a", &["x"], 1, 2)];
    let out = compact(&mut list, 1).unwrap();
    assert_eq!(out.size, 2);
    assert!(list.is_empty());
}

#[test]
fn range_intersect_as_compared() {
    assert!(range_intersect((1, 2), (2, 5)));
    assert!(!range_intersect((1, 3), (2, 5)));
    assert!(!range_intersect((6, 7), (2, 5)));
}

#[test]
fn unix_parts_splits_milliseconds() {
    assert_eq!(unix_parts(1_234_567), (1234, 567_000_000));
    assert_eq!(unix_parts(999), (0, 999_000_000));
}

#[test]
fn locked_iter_walks_newest_first() {
    let mut it = StorageLockedIter::new(3);
    assert_eq!(it.next(), Some(2));
    assert_eq!(it.next(), Some(1));
    assert_eq!(it.next(), Some(0));
    assert_eq!(it.next(), None);
}

#[test]
fn config_full_at_threshold() {
    let config = Config { data_dir: "d".to_string(), max_active_size: 3, max_block_size: 10 };
    assert!(!config.active_full(2));
    assert!(config.active_full(3));
}

#[test]
fn read_indicies_loads_missing_lists() {
    let mut active = ActiveBlock::new();
    active.push_at("k0".to_string(), vec!["a".to_string(), "b".to_string()], 1);
    active.push_at("k1".to_string(), vec!["b".to_string()], 2);
    let written = active.into_block().write(Stream::new(vec![])).map_err(|(_, e)| e).unwrap();
    let (file, _, _) = written.release_all();
    let header = BlockHeader::read_header(&file, 0).unwrap();
    let mut block: BlockFile = header.read_meta(file).unwrap();
    let lists = read_indicies(&mut block, &vec![1, 0, 1]).unwrap();
    let lists: Vec<Vec<u64>> = lists.iter().map(|l| l.as_ref().clone()).collect();
    assert_eq!(lists, vec![vec![0, 1], vec![0], vec![0, 1]]);
}

#[test]
fn read_indicies_on_memory_block() {
    let mut b = block("k", &["a"], 1, 2);
    let lists = read_indicies(&mut b, &vec![0]).unwrap();
    assert_eq!(*lists[0], vec![0, 1]);
    let err: Result<(), StorageError> = Err(StorageError::NotOnDisk);
    assert_eq!(tagstore::block::SearchBlock::read_index(&mut b, 0), err);
}

#[test]
fn enqueue_drops_empty_and_refuses_overlap() {
    let mut list = vec![block("a", &["x"], 10, 1)];
    let empty = ActiveBlock::new().into_block();
    assert!(enqueue(&mut list, empty, 100).unwrap().is_none());
    assert_eq!(list.len(), 1);
    let earlier = block("b", &["x"], 5, 1);
    assert_eq!(enqueue(&mut list, earlier, 100).err(), Some(StorageError::Overlap));
    assert_eq!(sizes(&list), vec![1]);
    let later = block("c", &["x"], 10, 1);
    assert!(enqueue(&mut list, later, 100).unwrap().is_none());
    assert_eq!(sizes(&list), vec![2]);
}

fn docs() -> Vec<(&'static str, Vec<&'static str>)> {
    vec![
        ("key00", vec!["tag0", "tag1"]),
        ("key01", vec!["tag1", "tag2"]),
        ("key02", vec!["tag0", "tag3"]),
        ("key03", vec!["tag0"]),
        ("key04", vec!["tag4"]),
        ("key05", vec!["tag5", "tag2"]),
        ("key06", vec!["tag5", "tag1", "tag0", "tag3"]),
        ("key07", vec!["tag6", "tag0", "tag3"]),
        ("key08", vec!["tag0"]),
        ("key09", vec!["tag7"]),
        ("key10", vec!["tag1", "tag2"]),
        ("key11", vec!["tag8"]),
        ("key12", vec!["tag3", "tag2"]),
        ("key13", vec!["tag5"]),
        ("key14", vec!["tag6", "tag4"]),
    ]
}

fn documents_of<B: SearchBlock>(b: &B) -> Vec<(String, Vec<String>)> {
    let mut map: BTreeMap<String, Vec<String>> = BTreeMap::new();
    let keys = b.get_keys();
    for (j, tag) in b.get_tags().iter().enumerate() {
        if let Some(list) = b.try_get_index(j) {
            for i in list.iter() {
                map.entry(keys[*i as usize].clone()).or_default().push(tag.clone());
            }
        }
    }
    map.into_iter().collect()
}

#[test]
fn tiers_hold_every_document_in_order() {
    let config = Config { data_dir: "d".to_string(), max_active_size: 3, max_block_size: 10 };
    let mut active = ActiveBlock::new();
    let mut queue: Vec<InMemoryBlock> = vec![];
    let mut files: Vec<BlockFile> = vec![];
    let mut expected: Vec<(String, Vec<String>)> = vec![];
    for (key, tags) in docs() {
        active.push(key.to_string(), tags.iter().map(|t| t.to_string()).collect());
        let mut sorted: Vec<String> = tags.iter().map(|t| t.to_string()).collect();
        sorted.sort();
        expected.push((key.to_string(), sorted));

        if config.active_full(active.size()) {
            let sealed = std::mem::replace(&mut active, ActiveBlock::new()).into_block();
            if let Some(out) = enqueue(&mut queue, sealed, config.max_block_size).unwrap() {
                let written = out.write(Stream::new(vec![])).map_err(|(_, e)| e).unwrap();
                let (stream, _, _) = written.release_all();
                files.push(BlockFile::open(stream, 0).unwrap());
            }
        }

        let mut seen: Vec<(String, Vec<String>)> = vec![];
        let snapshot = active.clone().into_block();
        seen.extend(documents_of(&snapshot).into_iter().rev());
        for b in queue.iter().rev() {
            seen.extend(documents_of(b).into_iter().rev());
        }
        for f in files.iter().rev() {
            seen.extend(documents_of(f).into_iter().rev());
        }
        seen.reverse();
        assert_eq!(seen, expected);
    }
    assert!(!files.is_empty());
}

#[test]
fn read_indicies_stops_at_first_failed_load() {
    let mut active = ActiveBlock::new();
    active.push_at("k0".to_string(), vec!["a".to_string(), "b".to_string()], 1);
    let written = active.into_block().write(Stream::new(vec![])).map_err(|(_, e)| e).unwrap();
    let (mut file, _, _) = written.release_all();
    let header = BlockHeader::read_header(&file, 0).unwrap();
    // 0xc1 is a marker MessagePack never uses
    file.bytes[header.index[1] as usize] = 0xc1;
    let mut block: BlockFile = header.read_meta(file).unwrap();
    assert_eq!(read_indicies(&mut block, &vec![0, 1]).err(), Some(StorageError::Decode));
    assert_eq!(*block.try_get_index(0).unwrap(), vec![0]);
    assert!(block.try_get_index(1).is_none());
}
