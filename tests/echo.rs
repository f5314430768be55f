use catnip_sched::echo::{Fail, Icmpv4Echo, Icmpv4EchoMut, Icmpv4EchoType, ICMPV4_HEADER_SIZE};

#[test]
fn new_bytes_is_zeroed_header() {
    let b = Icmpv4EchoMut::new_bytes();
    assert_eq!(b.len(), ICMPV4_HEADER_SIZE);
    assert!(b.iter().all(|x| *x == 0));
}

#[test]
fn from_bytes_rejects_short_buffer() {
    assert!(matches!(Icmpv4EchoMut::from_bytes(vec![0; 7]), Err(Fail::Malformed)));
    assert!(matches!(Icmpv4Echo::try_from(vec![8; 3]), Err(Fail::Malformed)));
}

#[test]
fn try_from_rejects_other_types() {
    let mut b = vec![0u8; 8];
    b[0] = 3;
    assert!(matches!(Icmpv4Echo::try_from(b), Err(Fail::Unsupported)));
}

#[test]
fn fields_round_trip_in_network_order() {
    let mut m = Icmpv4EchoMut::from_bytes(Icmpv4EchoMut::new_bytes()).unwrap();
    m.set_echo_type(Icmpv4EchoType::Request);
    m.id(0x1234);
    m.seq_num(0xabcd);
    assert_eq!(m.icmpv4()[4..8], [0x12, 0x34, 0xab, 0xcd]);
    let e = m.unmut().unwrap();
    assert_eq!(e.echo_type(), Icmpv4EchoType::Request);
    assert_eq!(e.id(), 0x1234);
    assert_eq!(e.seq_num(), 0xabcd);
    assert_eq!(e.checksum(), 0);
}

#[test]
fn unmut_rejects_unset_type_byte() {
    let mut b = Icmpv4EchoMut::new_bytes();
    b[0] = 5;
    let m = Icmpv4EchoMut::from_bytes(b).unwrap();
    assert!(matches!(m.unmut(), Err(Fail::Unsupported)));
}

#[test]
fn seal_writes_internet_checksum() {
    let mut m = Icmpv4EchoMut::from_bytes(Icmpv4EchoMut::new_bytes()).unwrap();
    m.set_echo_type(Icmpv4EchoType::Request);
    m.id(1);
    m.seq_num(2);
    let e = m.seal().unwrap();
    // words: 0x0800, checksum, 0x0001, 0x0002 -> sum 0x0803 -> complement 0xf7fc
    assert_eq!(e.checksum(), 0xf7fc);
    assert_eq!(e.icmpv4()[2..4], [0xf7, 0xfc]);
    assert_eq!(e.echo_type(), Icmpv4EchoType::Request);
}

#[test]
fn seal_folds_carry_and_pads_odd_length() {
    let mut b = vec![0u8; 9];
    b[0] = 0;
    b[4] = 0xff;
    b[5] = 0xff;
    b[6] = 0x00;
    b[7] = 0x02;
    b[8] = 0x01;
    let e = Icmpv4EchoMut::from_bytes(b).unwrap().seal().unwrap();
    // 0xffff + 0x0002 = 0x10001 -> fold 0x0002; + 0x0100 -> 0x0102; complement 0xfefd
    assert_eq!(e.checksum(), 0xfefd);
    assert_eq!(e.echo_type(), Icmpv4EchoType::Reply);
}
