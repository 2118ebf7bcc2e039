use ro_scalar_set::bytes::read_i32_values;
use ro_scalar_set::RoScalarSet;

#[test]
fn serialization_is_little_endian_and_in_slot_order() {
    // One member, one bucket: the layout is
    // [bucket_count, member_count, start offset, end offset, member].
    let set = RoScalarSet::new(&[5]);
    let mut sink: Vec<u8> = Vec::new();
    set.serialize(&mut sink);
    assert_eq!(
        sink,
        vec![1, 0, 0, 0, 1, 0, 0, 0, 4, 0, 0, 0, 5, 0, 0, 0, 5, 0, 0, 0],
    );
}

#[test]
fn serializing_an_empty_set_writes_three_slots() {
    let values: Vec<i32> = Vec::new();
    let set = RoScalarSet::new(&values);
    let mut sink: Vec<u8> = Vec::new();
    set.serialize(&mut sink);
    assert_eq!(sink, vec![0, 0, 0, 0, 0, 0, 0, 0, 3, 0, 0, 0]);
}

#[test]
fn decoding_rejects_a_ragged_buffer() {
    assert!(read_i32_values(&[1, 0, 0]).is_none());
    assert!(read_i32_values(&[1, 0, 0, 0, 7]).is_none());
}

#[test]
fn decoding_reads_little_endian_values() {
    let decoded = read_i32_values(&[255, 255, 255, 255, 2, 1, 0, 0]).unwrap();
    assert_eq!(decoded, vec![-1, 258]);
    let empty: Vec<u8> = Vec::new();
    assert_eq!(read_i32_values(&empty).unwrap(), Vec::<i32>::new());
}

#[test]
fn round_trip_preserves_every_answer() {
    let values = [3, -14, 159, 26, 5, -35, 8, 97, 93, 238, 46, 26, 4, 3, 3];
    let original = RoScalarSet::new(&values);

    let mut sink: Vec<u8> = Vec::new();
    original.serialize(&mut sink);
    let decoded = read_i32_values(&sink).unwrap();
    let (attached, remainder) = RoScalarSet::attach(&decoded).unwrap();

    assert!(remainder.is_empty());
    assert_eq!(attached.size(), original.size());
    assert_eq!(attached.bucket_count(), original.bucket_count());
    for probe in -300..300 {
        assert_eq!(attached.contains(&probe), original.contains(&probe));
    }
    for v in &values {
        assert!(attached.contains(v));
    }
}

#[test]
fn sets_pack_densely_into_one_buffer() {
    let first = RoScalarSet::new(&[1, 2, 3]);
    let second = RoScalarSet::new(&[40, 50]);

    let mut sink: Vec<u8> = Vec::new();
    first.serialize(&mut sink);
    second.serialize(&mut sink);

    let decoded = read_i32_values(&sink).unwrap();
    let (a, rest) = RoScalarSet::attach(&decoded).unwrap();
    let (b, rest) = RoScalarSet::attach(rest).unwrap();

    assert!(rest.is_empty());
    assert_eq!(a.size(), 3);
    assert_eq!(b.size(), 2);
    assert!(a.contains(&2) && !a.contains(&40));
    assert!(b.contains(&50) && !b.contains(&2));
}

#[test]
fn an_empty_set_layout_is_shorter_than_attach_accepts() {
    // An empty set serializes to three slots, below the four-value
    // floor that attach enforces; with at least one more value in the
    // region the same layout attaches and the extra values remain.
    let values: Vec<i32> = Vec::new();
    let set = RoScalarSet::new(&values);
    let mut sink: Vec<u8> = Vec::new();
    set.serialize(&mut sink);
    let decoded = read_i32_values(&sink).unwrap();
    assert_eq!(decoded, vec![0, 0, 3]);
    assert!(RoScalarSet::attach(&decoded).is_err());

    let padded = [0, 0, 3, 7];
    let (attached, remainder) = RoScalarSet::attach(&padded).unwrap();
    assert_eq!(attached.size(), 0);
    assert_eq!(attached.bucket_count(), 0);
    assert!(!attached.contains(&0));
    assert_eq!(remainder, &[7]);
}
