use rust_wireshark::Error;
use rust_wireshark::Wtap;
use rust_wireshark::WtapRec;

fn record(offset: i64, ftype: i32, data: &[u8]) -> WtapRec {
    let mut r = WtapRec::new();
    r.set_file_type(ftype);
    r.offset = offset;
    r.rec.data = data.to_vec();
    r.rec.rec_len = data.len() as u32;
    r.rec.cap_len = data.len() as u32;
    r
}

#[test]
fn read_serves_records_in_order_then_eof() {
    let recs = vec![record(0, 7, &[1, 2]), record(24, 7, &[3])];
    let mut w = Wtap::new("trace.pcap".to_string(), 7, recs).unwrap();
    let first = w.read().unwrap();
    assert_eq!(first.offset, 0);
    assert_eq!(first.rec.data, vec![1, 2]);
    assert_eq!(first.file_type, 7);
    let second = w.read().unwrap();
    assert_eq!(second.offset, 24);
    assert!(matches!(w.read(), Err(Error::EOF)));
    assert!(matches!(w.read(), Err(Error::EOF)));
}

#[test]
fn seek_read_finds_by_offset() {
    let recs = vec![record(0, 7, &[1, 2]), record(24, 7, &[3])];
    let mut w = Wtap::new("trace.pcap".to_string(), 7, recs).unwrap();
    let hit = w.seek_read(24).unwrap();
    assert_eq!(hit.offset, 24);
    assert_eq!(hit.rec.data, vec![3]);
    let miss = w.seek_read(99);
    match miss {
        Err(e) => {
            assert_ne!(e.err, 0);
            assert!(!e.err_info.is_empty());
        }
        Ok(_) => panic!("an unknown offset must be a source error"),
    }
}

#[test]
fn blank_source_error() {
    let e = rust_wireshark::WsError::new();
    assert_eq!(e.err, 0);
    assert!(e.err_info.is_empty());
}

#[test]
fn empty_record_defaults() {
    let r = WtapRec::new();
    assert_eq!(r.offset, 0);
    assert_eq!(r.file_type, 0);
    assert!(r.rec.data.is_empty());
    assert_eq!(r.rec.ts_sec, 0);
    assert_eq!(r.rec.ts_nsec, 0);
}
