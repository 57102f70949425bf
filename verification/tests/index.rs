use git_pack::index::{DeltaBase, PackEntry, PackIndex, PackStats};
use git_pack::object::{ObjectId, ObjectKind};

fn id(b: u8) -> ObjectId {
    let mut bytes = [0u8; 20];
    bytes[0] = b;
    ObjectId(bytes)
}

fn entry(offset: u64, object: ObjectId, header_len: u8, base_index: Option<usize>) -> PackEntry {
    PackEntry {
        offset,
        object,
        header_len,
        kind: ObjectKind::Blob,
        base_index,
        stats: PackStats::default(),
    }
}

#[test]
fn push_assigns_increasing_indices() {
    let mut idx = PackIndex::with_capacity(4);
    assert_eq!(idx.len(), 0);
    assert_eq!(idx.push(entry(12, id(9), 2, None)), 0);
    assert_eq!(idx.push(entry(40, id(3), 2, Some(0))), 1);
    assert_eq!(idx.push(entry(90, id(7), 3, Some(1))), 2);
    assert_eq!(idx.len(), 3);
    assert_eq!(idx.get(1).offset, 40);
    assert_eq!(idx.get(1).base_index, Some(0));
}

#[test]
fn offsets_stay_strictly_increasing() {
    // the by-offset projection is ordered however the ids arrive
    let mut idx = PackIndex::with_capacity(4);
    idx.push(entry(1, id(200), 1, None));
    idx.push(entry(2, id(100), 1, None));
    idx.push(entry(3, id(150), 1, None));
    let mut last = None;
    for i in 0..idx.len() {
        let off = idx.get(i).offset;
        assert!(last.map_or(true, |l| l < off));
        last = Some(off);
    }
}

#[test]
fn find_by_offset_hits_and_misses() {
    let mut idx = PackIndex::with_capacity(4);
    idx.push(entry(12, id(9), 2, None));
    idx.push(entry(40, id(3), 2, None));
    idx.push(entry(90, id(7), 3, None));
    assert_eq!(idx.find_by_offset(12), Some(0));
    assert_eq!(idx.find_by_offset(40), Some(1));
    assert_eq!(idx.find_by_offset(90), Some(2));
    assert_eq!(idx.find_by_offset(41), None);
    assert_eq!(idx.find_by_offset(0), None);
}

#[test]
fn find_by_object_hits_and_misses() {
    let mut idx = PackIndex::with_capacity(4);
    idx.push(entry(12, id(9), 2, None));
    idx.push(entry(40, id(3), 2, None));
    idx.push(entry(90, id(7), 3, None));
    assert_eq!(idx.find_by_object(&id(9)), Some(0));
    assert_eq!(idx.find_by_object(&id(3)), Some(1));
    assert_eq!(idx.find_by_object(&id(7)), Some(2));
    assert_eq!(idx.find_by_object(&id(8)), None);
}

#[test]
fn base_indices_point_backward() {
    let mut idx = PackIndex::with_capacity(4);
    idx.push(entry(10, id(1), 1, None));
    idx.push(entry(20, id(2), 1, Some(0)));
    idx.push(entry(30, id(3), 1, Some(1)));
    for i in 0..idx.len() {
        if let Some(j) = idx.get(i).base_index {
            assert!(j < i);
        }
    }
}

#[test]
fn resolve_base_walks_the_chain() {
    // root at offset 10, a delta on it at 20, a delta on that at 30
    let mut idx = PackIndex::with_capacity(4);
    idx.push(entry(10, id(1), 3, None));
    idx.push(entry(20, id(2), 4, Some(0)));
    idx.push(entry(30, id(3), 5, Some(1)));

    let mut layers = Vec::new();
    let pb = idx.resolve_base(&mut layers, DeltaBase::Offset(30)).expect("base exists");
    assert_eq!(pb.base_index, 2);
    assert_eq!(pb.root_entry.offset, 10);
    assert_eq!(pb.root_entry.base_index, None);
    // the walker records body offsets from the immediate base inward
    assert_eq!(layers, vec![35, 24]);
}

#[test]
fn resolve_base_by_reference() {
    let mut idx = PackIndex::with_capacity(4);
    idx.push(entry(10, id(1), 3, None));
    idx.push(entry(20, id(2), 4, Some(0)));

    let mut layers = vec![99];
    let pb = idx.resolve_base(&mut layers, DeltaBase::Reference(id(2))).expect("base exists");
    assert_eq!(pb.base_index, 1);
    assert_eq!(pb.root_entry.offset, 10);
    // the scratch vector is only appended to
    assert_eq!(layers, vec![99, 24]);
}

#[test]
fn resolve_base_missing() {
    let mut idx = PackIndex::with_capacity(4);
    idx.push(entry(10, id(1), 3, None));
    let mut layers = Vec::new();
    assert!(idx.resolve_base(&mut layers, DeltaBase::Offset(11)).is_none());
    assert!(idx.resolve_base(&mut layers, DeltaBase::Reference(id(2))).is_none());
    assert!(layers.is_empty());
}

#[test]
fn root_resolves_to_itself() {
    let mut idx = PackIndex::with_capacity(4);
    idx.push(entry(10, id(1), 3, None));
    let mut layers = Vec::new();
    let pb = idx.resolve_base(&mut layers, DeltaBase::Offset(10)).expect("base exists");
    assert_eq!(pb.base_index, 0);
    assert_eq!(pb.root_entry.offset, 10);
    assert!(layers.is_empty());
}
