use paggo::ArenaStore;
use paggo::Backend;
use paggo::Command;
use paggo::ConcurrentMap;
use paggo::PaggoInstance;
use paggo::dispatch::dispatch;
use paggo::instance::FrameOutcome;

fn frame(mks: usize, mvs: usize, opcode: u8, key: &[u8], payload: &[u8]) -> (Vec<u8>, usize) {
    let mut buf = vec![0u8; 1 + mks + mvs];
    buf[0] = opcode;
    buf[1..1 + key.len()].copy_from_slice(key);
    let ks = if mks == 1 { 1 } else { mks + 1 };
    buf[ks..ks + payload.len()].copy_from_slice(payload);
    (buf, ks + payload.len())
}

#[test]
fn instance_new_keeps_its_settings() {
    let inst = PaggoInstance::new(9055, 32, 1024);
    assert_eq!(inst.port, 9055);
    assert_eq!(inst.max_key_size, 32);
    assert_eq!(inst.max_value_size, 1024);
    assert_eq!(inst.frame_size(), 1057);
}

#[test]
fn dispatch_ping_replies_success() {
    let mut store = Backend::Concurrent(ConcurrentMap::new());
    let out = dispatch(Command::PING, String::new(), Vec::new(), &mut store);
    assert_eq!(out.reply, vec![1u8]);
    assert!(!out.close);
}

#[test]
fn dispatch_quit_closes_without_reply() {
    let mut store = Backend::Concurrent(ConcurrentMap::new());
    let out = dispatch(Command::QUIT, String::new(), Vec::new(), &mut store);
    assert!(out.reply.is_empty());
    assert!(out.close);
}

#[test]
fn dispatch_unknown_replies_one_error_byte() {
    let mut store = Backend::Concurrent(ConcurrentMap::new());
    let out = dispatch(Command::UNKNOWN, String::new(), Vec::new(), &mut store);
    assert_eq!(out.reply, vec![0u8]);
    assert!(!out.close);
}

#[test]
fn dispatch_get_hit_replies_value_bytes_verbatim() {
    let mut store = Backend::Concurrent(ConcurrentMap::new());
    let out = dispatch(Command::SET, "k".to_string(), b"value".to_vec(), &mut store);
    assert_eq!(out.reply, vec![1u8]);
    let out = dispatch(Command::GET, "k".to_string(), Vec::new(), &mut store);
    assert_eq!(out.reply, b"value".to_vec());
    let out = dispatch(Command::GET, "absent".to_string(), Vec::new(), &mut store);
    assert_eq!(out.reply, vec![0u8]);
}

#[test]
fn dispatch_exists_and_delete_sentinels() {
    let mut store = Backend::Arena(ArenaStore::new(64));
    let out = dispatch(Command::EXISTS, "k".to_string(), Vec::new(), &mut store);
    assert_eq!(out.reply, vec![0u8]);
    dispatch(Command::SET, "k".to_string(), b"v".to_vec(), &mut store);
    let out = dispatch(Command::EXISTS, "k".to_string(), Vec::new(), &mut store);
    assert_eq!(out.reply, vec![1u8]);
    let out = dispatch(Command::DELETE, "k".to_string(), Vec::new(), &mut store);
    assert_eq!(out.reply, vec![1u8]);
    let out = dispatch(Command::EXISTS, "k".to_string(), Vec::new(), &mut store);
    assert_eq!(out.reply, vec![0u8]);
    // deleting the now-absent key still replies success
    let out = dispatch(Command::DELETE, "k".to_string(), Vec::new(), &mut store);
    assert_eq!(out.reply, vec![1u8]);
}

#[test]
fn dispatch_set_failure_replies_error_byte() {
    let mut store = Backend::Arena(ArenaStore::new(2));
    let out = dispatch(Command::SET, "k".to_string(), b"too large".to_vec(), &mut store);
    assert_eq!(out.reply, vec![0u8]);
    let out = dispatch(Command::EXISTS, "k".to_string(), Vec::new(), &mut store);
    assert_eq!(out.reply, vec![0u8]);
}

#[test]
fn wire_scenario_set_get_miss() {
    // max_key_size = 32, max_value_size = 1024
    let inst = PaggoInstance::new(9055, 32, 1024);
    let mut store = Backend::Concurrent(ConcurrentMap::new());

    // opcode 3, key "foo" padded to 32 bytes, value "bar": reply 0x01
    let (buf, n) = frame(32, 1024, 3, b"foo", b"bar");
    match inst.handle_frame(&mut store, &buf, n) {
        FrameOutcome::Reply { bytes, close } => {
            assert_eq!(bytes, vec![0x01]);
            assert!(!close);
        },
        FrameOutcome::Close => panic!("expected a reply"),
    }

    // opcode 2, key "foo" padded: reply "bar" (3 bytes)
    let (buf, n) = frame(32, 1024, 2, b"foo", b"");
    match inst.handle_frame(&mut store, &buf, n) {
        FrameOutcome::Reply { bytes, close } => {
            assert_eq!(bytes, b"bar".to_vec());
            assert!(!close);
        },
        FrameOutcome::Close => panic!("expected a reply"),
    }

    // opcode 2, key "missing" padded: reply 0x00
    let (buf, n) = frame(32, 1024, 2, b"missing", b"");
    match inst.handle_frame(&mut store, &buf, n) {
        FrameOutcome::Reply { bytes, close } => {
            assert_eq!(bytes, vec![0x00]);
            assert!(!close);
        },
        FrameOutcome::Close => panic!("expected a reply"),
    }
}

#[test]
fn wire_end_of_stream_and_quit_close() {
    let inst = PaggoInstance::new(9055, 32, 1024);
    let mut store = Backend::Concurrent(ConcurrentMap::new());

    let buf = vec![0u8; 1057];
    assert!(matches!(inst.handle_frame(&mut store, &buf, 0), FrameOutcome::Close));

    let (buf, n) = frame(32, 1024, 1, b"", b"");
    match inst.handle_frame(&mut store, &buf, n) {
        FrameOutcome::Reply { bytes, close } => {
            assert!(bytes.is_empty());
            assert!(close);
        },
        FrameOutcome::Close => panic!("QUIT replies before closing"),
    }
}

#[test]
fn wire_short_frame_closes_the_connection() {
    let inst = PaggoInstance::new(9055, 32, 1024);
    let mut store = Backend::Concurrent(ConcurrentMap::new());
    let mut buf = vec![0u8; 1057];
    buf[0] = 3;
    assert!(matches!(inst.handle_frame(&mut store, &buf, 7), FrameOutcome::Close));
}

#[test]
fn wire_unknown_opcode_replies_error_byte() {
    let inst = PaggoInstance::new(9055, 32, 1024);
    let mut store = Backend::Concurrent(ConcurrentMap::new());
    let (buf, n) = frame(32, 1024, 99, b"x", b"");
    match inst.handle_frame(&mut store, &buf, n) {
        FrameOutcome::Reply { bytes, close } => {
            assert_eq!(bytes, vec![0u8]);
            assert!(!close);
        },
        FrameOutcome::Close => panic!("expected a reply"),
    }
}

#[test]
fn concurrent_sets_on_disjoint_keys_all_land() {
    let rt = tokio::runtime::Builder::new_multi_thread().worker_threads(4).build().unwrap();
    let store = std::sync::Arc::new(
        std::sync::Mutex::new(Backend::Concurrent(ConcurrentMap::new())),
    );
    rt.block_on(async {
        let mut handles = Vec::new();
        for i in 0..16u8 {
            let store = store.clone();
            handles.push(tokio::spawn(async move {
                let k = format!("key{i}");
                let mut guard = store.lock().unwrap();
                assert!(guard.set(k, vec![i; 16]).is_ok());
            }));
        }
        for h in handles {
            h.await.unwrap();
        }
    });
    let guard = store.lock().unwrap();
    for i in 0..16u8 {
        assert_eq!(guard.get(&format!("key{i}")), Some(vec![i; 16]));
    }
}
