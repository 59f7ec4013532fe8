use proc_core::config::MAX_SYSCALL_NUM;
use proc_core::task::TaskStatus;
use proc_core::wire::{i32_to_bytes, TaskInfo, TimeVal};

#[test]
fn time_val_serializes_little_endian_words() {
    let tv = TimeVal { sec: 1, usec: 2 };
    let bytes = tv.to_bytes();
    let mut expected = vec![0u8; 16];
    expected[0] = 1;
    expected[8] = 2;
    assert_eq!(bytes, expected);
}

#[test]
fn time_val_serializes_large_values() {
    let tv = TimeVal { sec: 0x0102030405060708, usec: 0xff };
    let bytes = tv.to_bytes();
    assert_eq!(&bytes[0..8], &[8, 7, 6, 5, 4, 3, 2, 1]);
    assert_eq!(bytes[8], 0xff);
    assert!(bytes[9..16].iter().all(|b| *b == 0));
}

#[test]
fn exit_codes_serialize_as_twos_complement() {
    assert_eq!(i32_to_bytes(-1), vec![0xff, 0xff, 0xff, 0xff]);
    assert_eq!(i32_to_bytes(42), vec![42, 0, 0, 0]);
    assert_eq!(i32_to_bytes(0x01020304), vec![4, 3, 2, 1]);
}

#[test]
fn task_info_layout_is_tag_counts_time() {
    let mut counts = vec![0u32; MAX_SYSCALL_NUM];
    counts[0] = 5;
    counts[MAX_SYSCALL_NUM - 1] = 0x0a0b0c0d;
    let info = TaskInfo::new(TaskStatus::Running, counts, 1234);
    let bytes = info.to_bytes();
    assert_eq!(bytes.len(), 4 + 4 * MAX_SYSCALL_NUM + 8);
    // status tag: Running is the second variant
    assert_eq!(&bytes[0..4], &[1, 0, 0, 0]);
    // counter 0
    assert_eq!(&bytes[4..8], &[5, 0, 0, 0]);
    // last counter
    let off = 4 + 4 * (MAX_SYSCALL_NUM - 1);
    assert_eq!(&bytes[off..off + 4], &[0x0d, 0x0c, 0x0b, 0x0a]);
    // elapsed time word
    let toff = 4 + 4 * MAX_SYSCALL_NUM;
    assert_eq!(&bytes[toff..toff + 2], &[0xd2, 0x04]);
    assert!(bytes[toff + 2..].iter().all(|b| *b == 0));
}

#[test]
fn task_info_round_trips_through_its_wire_form() {
    let mut counts = vec![0u32; MAX_SYSCALL_NUM];
    counts[3] = 17;
    counts[499] = 0xdeadbeef;
    let info = TaskInfo::new(TaskStatus::Zombie, counts, 987654321);
    let bytes = info.to_bytes();
    let back = TaskInfo::from_bytes(&bytes).expect("a wire image should decode");
    assert_eq!(back.status, TaskStatus::Zombie);
    assert_eq!(back.syscall_times[3], 17);
    assert_eq!(back.syscall_times[499], 0xdeadbeef);
    assert_eq!(back.time, 987654321);
    assert_eq!(back.to_bytes(), bytes);
}

#[test]
fn task_info_rejects_malformed_bytes() {
    assert!(TaskInfo::from_bytes(&vec![0u8; 7]).is_none());
    let mut bytes = TaskInfo::new(TaskStatus::Ready, vec![0u32; MAX_SYSCALL_NUM], 0).to_bytes();
    bytes[0] = 9; // no status carries this tag
    assert!(TaskInfo::from_bytes(&bytes).is_none());
}

#[test]
fn task_info_status_tags_follow_lifecycle_order() {
    let counts = vec![0u32; MAX_SYSCALL_NUM];
    let ready = TaskInfo::new(TaskStatus::Ready, counts.clone(), 0);
    let zombie = TaskInfo::new(TaskStatus::Zombie, counts, 0);
    assert_eq!(ready.to_bytes()[0], 0);
    assert_eq!(zombie.to_bytes()[0], 2);
}
