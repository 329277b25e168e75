use snaprs::payload::{Payload, N_PT_PER_FRAME, PAYLOAD_BYTES};

fn packet_bytes(cnt: u64) -> Vec<u8> {
    let mut b = cnt.to_ne_bytes().to_vec();
    for i in 0..N_PT_PER_FRAME {
        b.push((i % 256) as u8);
    }
    b
}

#[test]
fn default_is_zeroed() {
    let p = Payload::default();
    assert_eq!(p.pkt_cnt, 0);
    assert!(p.data.iter().all(|&x| x == 0));
}

#[test]
fn copy_header_takes_counter_only() {
    let mut a = Payload::default();
    a.data[5] = 7;
    let mut b = Payload::default();
    b.pkt_cnt = 42;
    b.data[5] = -3;
    a.copy_header(&b);
    assert_eq!(a.pkt_cnt, 42);
    assert_eq!(a.data[5], 7);
}

#[test]
fn clear_resets_everything() {
    let mut p = Payload::default();
    p.pkt_cnt = 9;
    p.data[0] = -1;
    p.data[N_PT_PER_FRAME - 1] = 100;
    p.clear();
    assert_eq!(p.pkt_cnt, 0);
    assert!(p.data.iter().all(|&x| x == 0));
}

#[test]
fn from_bytes_reads_counter_and_samples() {
    assert_eq!(PAYLOAD_BYTES, 8 + N_PT_PER_FRAME);
    let b = packet_bytes(0x0102_0304_0506_0708);
    let p = Payload::from_bytes(&b).unwrap();
    assert_eq!(p.pkt_cnt, 0x0102_0304_0506_0708);
    assert_eq!(p.data[0], 0);
    assert_eq!(p.data[127], 127);
    assert_eq!(p.data[128], -128);
    assert_eq!(p.data[255], -1);
    assert_eq!(p.data[256], 0);
}

#[test]
fn from_bytes_max_counter() {
    let b = packet_bytes(u64::MAX);
    assert_eq!(Payload::from_bytes(&b).unwrap().pkt_cnt, u64::MAX);
}

#[test]
fn from_bytes_rejects_wrong_size() {
    let b = packet_bytes(1);
    assert!(Payload::from_bytes(&b[..PAYLOAD_BYTES - 1]).is_none());
    assert!(Payload::from_bytes(&[]).is_none());
    let mut longer = b.clone();
    longer.push(0);
    assert!(Payload::from_bytes(&longer).is_none());
}

#[test]
fn data_bytes_is_twos_complement() {
    let mut p = Payload::default();
    p.data[0] = -1;
    p.data[1] = -128;
    p.data[2] = 127;
    let b = p.data_bytes();
    assert_eq!(b.len(), N_PT_PER_FRAME);
    assert_eq!(&b[..4], &[255u8, 128, 127, 0]);
}

#[test]
fn load_data_keeps_counter() {
    let mut p = Payload::default();
    p.pkt_cnt = 11;
    let bytes: Vec<u8> = (0..N_PT_PER_FRAME).map(|i| (i * 3 % 256) as u8).collect();
    p.load_data(&bytes);
    assert_eq!(p.pkt_cnt, 11);
    assert_eq!(p.data[1], 3);
    assert_eq!(p.data[100], (300 % 256) as u8 as i8);
}

#[test]
fn samples_bytes_roundtrip() {
    let mut p = Payload::default();
    for i in 0..N_PT_PER_FRAME {
        p.data[i] = (i as i64 % 256 - 128) as i8;
    }
    let b = p.data_bytes();
    let mut q = Payload::default();
    q.load_data(&b);
    assert_eq!(q.data, p.data);
    assert_eq!(q.data_bytes(), b);
}

#[test]
fn stand_in_has_counter_and_zero_samples() {
    let p = Payload::stand_in(77);
    assert_eq!(p.pkt_cnt, 77);
    assert!(p.data.iter().all(|&x| x == 0));
}

#[test]
fn counter_is_read_in_machine_byte_order() {
    let mut b = vec![0u8; PAYLOAD_BYTES];
    b[..8].copy_from_slice(&0x1122_3344_5566_7788u64.to_ne_bytes());
    assert_eq!(Payload::from_bytes(&b).unwrap().pkt_cnt, 0x1122_3344_5566_7788);
}
