use kvs::Command;
use kvs::Decoded;
use kvs::Index;
use kvs::ReaderPos;
use kvs::WriterPos;
use kvs::append_cmd;
use kvs::decode_cmd;
use kvs::encode_cmd;
use kvs::load;
use kvs::read_cmd;

#[test]
fn encode_then_decode_put_round_trips() {
    let cmd = Command::Put { key: String::from("alpha"), val: String::from("beta") };
    let enc = encode_cmd(&cmd);
    assert_eq!(enc.len(), 17 + 5 + 4);
    assert_eq!(enc[0], 0u8);
    match decode_cmd(&enc, 0) {
        Decoded::Rec { cmd: Command::Put { key, val }, len } => {
            assert_eq!(key, "alpha");
            assert_eq!(val, "beta");
            assert_eq!(len, enc.len());
        }
        _ => panic!("a freshly encoded record must decode"),
    }
}

#[test]
fn encode_then_decode_remove_round_trips() {
    let cmd = Command::Remove { key: String::from("alpha") };
    let enc = encode_cmd(&cmd);
    assert_eq!(enc.len(), 9 + 5);
    assert_eq!(enc[0], 1u8);
    match decode_cmd(&enc, 0) {
        Decoded::Rec { cmd: Command::Remove { key }, len } => {
            assert_eq!(key, "alpha");
            assert_eq!(len, enc.len());
        }
        _ => panic!("a freshly encoded record must decode"),
    }
}

#[test]
fn decode_at_offset_ignores_earlier_bytes() {
    let first = encode_cmd(&Command::Put { key: String::from("k1"), val: String::from("v1") });
    let second = encode_cmd(&Command::Remove { key: String::from("k2") });
    let mut both = first.clone();
    both.extend_from_slice(&second);
    match decode_cmd(&both, first.len()) {
        Decoded::Rec { cmd: Command::Remove { key }, len } => {
            assert_eq!(key, "k2");
            assert_eq!(len, second.len());
        }
        _ => panic!("the second record must decode at its own offset"),
    }
}

#[test]
fn truncated_bytes_decode_as_incomplete() {
    let enc = encode_cmd(&Command::Put { key: String::from("key"), val: String::from("value") });
    for cut in [0usize, 1, 8, enc.len() - 1] {
        let partial: Vec<u8> = enc[..cut].to_vec();
        assert!(matches!(decode_cmd(&partial, 0), Decoded::Incomplete));
    }
}

#[test]
fn unknown_tag_decodes_as_malformed() {
    let mut enc = encode_cmd(&Command::Remove { key: String::from("key") });
    enc[0] = 2u8;
    assert!(matches!(decode_cmd(&enc, 0), Decoded::Malformed));
}

#[test]
fn invalid_utf8_decodes_as_malformed() {
    let mut enc = encode_cmd(&Command::Remove { key: String::from("abc") });
    let last = enc.len() - 1;
    enc[last] = 0xFFu8;
    assert!(matches!(decode_cmd(&enc, 0), Decoded::Malformed));
}

#[test]
fn streaming_append_and_read_report_offsets() {
    let mut w = WriterPos::new(Vec::new());
    let n1 = append_cmd(&mut w, &Command::Put { key: String::from("a"), val: String::from("1") });
    assert_eq!(w.pos(), n1 as u64);
    let n2 = append_cmd(&mut w, &Command::Put { key: String::from("b"), val: String::from("2") });
    assert_eq!(w.pos(), (n1 + n2) as u64);
    w.flush();
    let mut r = ReaderPos::new(w.into_inner());
    match read_cmd(&mut r) {
        Decoded::Rec { cmd: Command::Put { key, val }, len } => {
            assert_eq!(key, "a");
            assert_eq!(val, "1");
            assert_eq!(len, n1);
        }
        _ => panic!("the first record must decode"),
    }
    assert_eq!(r.pos(), n1 as u64);
    match read_cmd(&mut r) {
        Decoded::Rec { cmd: Command::Put { key, val }, .. } => {
            assert_eq!(key, "b");
            assert_eq!(val, "2");
        }
        _ => panic!("the second record must decode"),
    }
    assert!(matches!(read_cmd(&mut r), Decoded::Incomplete));
}

#[test]
fn load_replays_a_segment_and_counts_dead_bytes() {
    let mut w = WriterPos::new(Vec::new());
    append_cmd(&mut w, &Command::Put { key: String::from("a"), val: String::from("1") });
    let dead1 = append_cmd(&mut w, &Command::Put { key: String::from("b"), val: String::from("2") });
    append_cmd(&mut w, &Command::Put { key: String::from("b"), val: String::from("3") });
    let mut index = Index::new();
    let mut r = ReaderPos::new(w.into_inner());
    let dead = load(5, &mut index, &mut r).unwrap();
    assert_eq!(dead, dead1 as u64);
    assert_eq!(index.len(), 2);
    let off = index.lookup(&String::from("a")).unwrap();
    assert_eq!(off.gen, 5);
    assert_eq!(off.start, 0);
    assert_eq!(off.end, 19);
}

#[test]
fn positioned_streams_track_their_cursor() {
    let mut w = WriterPos::new(Vec::new());
    assert_eq!(w.pos(), 0);
    assert_eq!(w.write(&vec![10u8, 11, 12]), 3);
    assert_eq!(w.pos(), 3);
    w.seek(1);
    assert_eq!(w.write(&vec![99u8]), 1);
    assert_eq!(w.pos(), 2);
    w.seek_end();
    assert_eq!(w.pos(), 3);
    assert_eq!(w.write(&vec![13u8]), 1);
    let data = w.into_inner();
    assert_eq!(data, vec![10u8, 99, 12, 13]);

    let mut r = ReaderPos::new(data);
    assert_eq!(r.read(2), vec![10u8, 99]);
    assert_eq!(r.pos(), 2);
    assert_eq!(r.read(10), vec![12u8, 13]);
    assert_eq!(r.pos(), 4);
    assert_eq!(r.read(1), Vec::<u8>::new());
    r.seek(100);
    assert_eq!(r.read(1), Vec::<u8>::new());
    r.seek(3);
    assert_eq!(r.read(1), vec![13u8]);
}

#[test]
fn writes_past_the_end_zero_fill_the_gap() {
    let mut w = WriterPos::new(vec![1u8, 2]);
    w.seek(4);
    w.write(&vec![9u8]);
    assert_eq!(w.into_inner(), vec![1u8, 2, 0, 0, 9]);
}
