use shardvault::error::StoreError;
use shardvault::stripe::{node_dir, shard_path, StripeReader, StripeWriter};
use std::collections::BTreeMap;

type Dir = BTreeMap<String, Vec<u8>>;

fn write(dir: &mut Dir, writer: &StripeWriter, stripe_id: u64, data: &[u8]) {
    for file in writer.write(stripe_id, data) {
        dir.insert(file.path, file.contents);
    }
}

fn read(dir: &Dir, reader: &StripeReader, stripe_id: u64) -> Result<Vec<u8>, StoreError> {
    let files: Vec<Option<Vec<u8>>> = reader
        .paths(stripe_id)
        .iter()
        .map(|path| dir.get(path).cloned())
        .collect();
    reader.read(stripe_id, &files)
}

fn corrupt_shard(dir: &mut Dir, node: usize, stripe_id: u64) {
    let path = format!("base/nodes/n{node}/stripe-{stripe_id}.dat");
    dir.get_mut(&path).unwrap()[24 + 5] ^= 0x01;
}

fn delete_shard(dir: &mut Dir, node: usize, stripe_id: u64) {
    let path = format!("base/nodes/n{node}/stripe-{stripe_id}.dat");
    dir.remove(&path).unwrap();
}

#[test]
fn stripe_roundtrip_various_sizes() {
    let mut dir = Dir::new();
    let writer = StripeWriter::new("base", 4, 2);
    let reader = StripeReader::new("base", 4, 2);
    for &size in &[0usize, 1, 7, 8, 10007, 65536] {
        let data: Vec<u8> = (0..size).map(|i| ((i * 37 + 5) & 0xFF) as u8).collect();
        write(&mut dir, &writer, size as u64, &data);
        assert_eq!(
            read(&dir, &reader, size as u64).unwrap(),
            data,
            "size {size}"
        );
    }
}

#[test]
fn two_erasures_recover_with_4_2() {
    let mut dir = Dir::new();
    let data: Vec<u8> = (0..10007).map(|i| (i & 0xFF) as u8).collect();
    write(&mut dir, &StripeWriter::new("base", 4, 2), 1, &data);
    delete_shard(&mut dir, 0, 1);
    delete_shard(&mut dir, 3, 1);
    let reader = StripeReader::new("base", 4, 2);
    assert_eq!(read(&dir, &reader, 1).unwrap(), data);
}

#[test]
fn three_erasures_fail_with_4_2() {
    let mut dir = Dir::new();
    let data: Vec<u8> = (0..10007).map(|i| (i & 0xFF) as u8).collect();
    write(&mut dir, &StripeWriter::new("base", 4, 2), 1, &data);
    delete_shard(&mut dir, 0, 1);
    delete_shard(&mut dir, 3, 1);
    corrupt_shard(&mut dir, 5, 1);
    let reader = StripeReader::new("base", 4, 2);
    assert!(read(&dir, &reader, 1).is_err());
}

#[test]
fn three_erasures_recover_with_4_3() {
    let mut dir = Dir::new();
    let data: Vec<u8> = (0..10007).map(|i| (i & 0xFF) as u8).collect();
    write(&mut dir, &StripeWriter::new("base", 4, 3), 1, &data);
    delete_shard(&mut dir, 0, 1);
    delete_shard(&mut dir, 3, 1);
    corrupt_shard(&mut dir, 6, 1);
    let reader = StripeReader::new("base", 4, 3);
    assert_eq!(read(&dir, &reader, 1).unwrap(), data);
}

#[test]
fn zero_length_stripe_roundtrip() {
    let mut dir = Dir::new();
    write(&mut dir, &StripeWriter::new("base", 4, 2), 9, &[]);
    assert_eq!(
        read(&dir, &StripeReader::new("base", 4, 2), 9).unwrap(),
        Vec::new()
    );
}

fn message(res: Result<Vec<u8>, StoreError>) -> String {
    match res {
        Err(StoreError::Corrupt(msg)) => msg,
        other => panic!("unexpected result {other:?}"),
    }
}

#[test]
fn paths_name_the_nodes() {
    assert_eq!(node_dir("base", 3), "base/nodes/n3");
    assert_eq!(node_dir("base/", 3), "base/nodes/n3");
    assert_eq!(node_dir("", 12), "nodes/n12");
    assert_eq!(shard_path("/x", 0, 77), "/x/nodes/n0/stripe-77.dat");
    let files = StripeWriter::new("base", 2, 1).write(5, b"abc");
    assert_eq!(files.len(), 3);
    assert_eq!(files[2].path, "base/nodes/n2/stripe-5.dat");
}

#[test]
fn shard_zero_starts_with_the_length() {
    let files = StripeWriter::new("base", 2, 1).write(5, b"abc");
    assert_eq!(files[0].contents.len(), 4096);
    assert_eq!(&files[0].contents[24..34], &[3, 0, 0, 0, 0, 0, 0, 0, b'a', b'b']);
    assert_eq!(&files[1].contents[24..34], &[b'c', 0, 0, 0, 0, 0, 0, 0, 0, 0]);
}

#[test]
fn too_many_losses_are_named() {
    let reader = StripeReader::new("base", 4, 2);
    let none: Vec<Option<Vec<u8>>> = vec![None; 6];
    assert_eq!(
        message(reader.read(8, &none)),
        "stripe 8: fewer than k surviving shards"
    );
}

#[test]
fn files_of_different_stripes_do_not_mix() {
    let writer = StripeWriter::new("base", 2, 1);
    let reader = StripeReader::new("base", 2, 1);
    let short = writer.write(1, &[1; 10]);
    let long = writer.write(1, &[1; 9000]);
    let files = vec![
        Some(short[0].contents.clone()),
        Some(long[1].contents.clone()),
        None,
    ];
    assert_eq!(
        message(reader.read(1, &files)),
        "stripe 1: shard count or lengths are inconsistent"
    );
}

#[test]
fn a_wrong_length_field_is_refused() {
    let reader = StripeReader::new("base", 1, 1);
    let mut shard = vec![0xFF; 8];
    shard.push(1);
    let file = shardvault::block::encode(0, &shard, 0).unwrap().to_vec();
    assert_eq!(
        message(reader.read(1, &[Some(file), None])),
        "stripe length field out of range"
    );
    let file = shardvault::block::encode(0, &[1, 2, 3], 0).unwrap().to_vec();
    assert_eq!(message(reader.read(1, &[Some(file), None])), "shard too short");
}

#[test]
fn torn_and_empty_files_count_as_lost() {
    let writer = StripeWriter::new("base", 1, 2);
    let reader = StripeReader::new("base", 1, 2);
    let files = writer.write(4, b"payload");
    let mut torn = files[0].contents.clone();
    torn.truncate(4095);
    let shards = vec![Some(torn), Some(Vec::new()), Some(files[2].contents.clone())];
    assert_eq!(reader.read(4, &shards).unwrap(), b"payload".to_vec());
}
