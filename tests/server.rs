use x11_clipboard::{
    copy_range, Action, Atoms, Config, Request, Server, Store, TargetTable, INCR_CHUNK_SIZE, NONE,
};

const CLIPBOARD: u32 = 300;
const PRIMARY: u32 = 1;
const UTF8_STRING: u32 = 301;
const FOOBAR: u32 = 302;
const TARGETS: u32 = 303;
const INCR: u32 = 304;
const ATOM: u32 = 4;
const PROPERTY: u32 = 305;
const OTHER_PROPERTY: u32 = 306;
const REQUESTOR: u32 = 0x600001;

fn atoms() -> Atoms {
    Atoms { targets: TARGETS, incr: INCR, atom: ATOM }
}

fn server(max_length: usize, chunk_size: usize) -> Server {
    Server::new(Config { atoms: atoms(), max_length, chunk_size })
}

fn request(selection: u32, target: u32, property: u32) -> Request {
    Request { time: 42, requestor: REQUESTOR, selection, target, property }
}

fn notify(req: &Request, property: u32) -> Action {
    Action::Notify {
        time: req.time,
        requestor: req.requestor,
        selection: req.selection,
        target: req.target,
        property,
    }
}

fn payload(n: usize) -> Vec<u8> {
    (0..n).map(|i| (i % 251) as u8).collect()
}

fn chunk_bytes(actions: &[Action]) -> Vec<u8> {
    match &actions[0] {
        Action::WriteBytes { window, property, kind, bytes } => {
            assert_eq!(*window, REQUESTOR);
            assert_eq!(*property, PROPERTY);
            assert_eq!(*kind, UTF8_STRING);
            assert_eq!(actions[1], Action::Flush);
            assert_eq!(actions.len(), 2);
            bytes.clone()
        }
        other => panic!("expected a chunk, got {:?}", other),
    }
}

#[test]
fn small_payload_is_written_directly() {
    let mut store = Store::new();
    let data = b"0123456789".to_vec();
    store.set(CLIPBOARD, UTF8_STRING, data.clone());
    let mut s = server(124, 4096);
    let req = request(CLIPBOARD, UTF8_STRING, PROPERTY);
    let actions = s.on_request(&store, req);
    assert_eq!(
        actions,
        vec![
            Action::WriteBytes { window: REQUESTOR, property: PROPERTY, kind: UTF8_STRING, bytes: data },
            notify(&req, PROPERTY),
            Action::Flush,
        ]
    );
    assert!(!s.is_transferring(CLIPBOARD));
}

#[test]
fn large_payload_is_sent_in_chunks() {
    let mut store = Store::new();
    let data = payload(1_000_000);
    store.set(CLIPBOARD, UTF8_STRING, data.clone());
    let mut s = server(1024, 4096);
    let req = request(CLIPBOARD, UTF8_STRING, PROPERTY);
    let actions = s.on_request(&store, req);
    assert_eq!(
        actions,
        vec![
            Action::WatchProperties { window: REQUESTOR },
            Action::WriteAtoms { window: REQUESTOR, property: PROPERTY, kind: INCR, atoms: vec![] },
            notify(&req, PROPERTY),
            Action::Flush,
        ]
    );
    assert!(s.is_transferring(CLIPBOARD));

    let mut received: Vec<u8> = Vec::new();
    let mut non_empty = 0usize;
    loop {
        let bytes = chunk_bytes(&s.on_property_notify(PROPERTY, true));
        assert!(bytes.len() <= 4096);
        if bytes.is_empty() {
            break;
        }
        non_empty += 1;
        received.extend_from_slice(&bytes);
    }
    assert_eq!(non_empty, (1_000_000 + 4095) / 4096);
    assert_eq!(non_empty, 245);
    assert_eq!(received, data);
    assert!(!s.is_transferring(CLIPBOARD));
    assert!(s.on_property_notify(PROPERTY, true).is_empty());
}

#[test]
fn threshold_edges() {
    let mut store = Store::new();
    store.set(CLIPBOARD, UTF8_STRING, payload(99));
    store.set(CLIPBOARD, FOOBAR, payload(100));
    let mut s = server(124, 4096);
    let direct = s.on_request(&store, request(CLIPBOARD, UTF8_STRING, PROPERTY));
    assert!(matches!(direct[0], Action::WriteBytes { .. }));
    assert!(!s.is_transferring(CLIPBOARD));
    let incr = s.on_request(&store, request(CLIPBOARD, FOOBAR, PROPERTY));
    assert_eq!(incr[0], Action::WatchProperties { window: REQUESTOR });
    assert!(s.is_transferring(CLIPBOARD));
}

#[test]
fn tiny_request_limit_always_goes_incremental() {
    let mut store = Store::new();
    store.set(CLIPBOARD, UTF8_STRING, Vec::new());
    let mut s = server(10, 4096);
    let actions = s.on_request(&store, request(CLIPBOARD, UTF8_STRING, PROPERTY));
    assert_eq!(actions[0], Action::WatchProperties { window: REQUESTOR });
    assert!(s.is_transferring(CLIPBOARD));
    let end = chunk_bytes(&s.on_property_notify(PROPERTY, true));
    assert!(end.is_empty());
    assert!(!s.is_transferring(CLIPBOARD));
}

#[test]
fn supported_targets_are_listed() {
    let mut store = Store::new();
    store.set(CLIPBOARD, UTF8_STRING, b"abc".to_vec());
    store.set(CLIPBOARD, FOOBAR, b"foobar".to_vec());
    let mut s = server(INCR_CHUNK_SIZE, INCR_CHUNK_SIZE);
    let req = request(CLIPBOARD, TARGETS, PROPERTY);
    let actions = s.on_request(&store, req);
    assert_eq!(
        actions,
        vec![
            Action::WriteAtoms {
                window: REQUESTOR,
                property: PROPERTY,
                kind: ATOM,
                atoms: vec![UTF8_STRING, FOOBAR, TARGETS],
            },
            notify(&req, PROPERTY),
            Action::Flush,
        ]
    );
    assert!(!s.is_transferring(CLIPBOARD));
}

#[test]
fn unknown_target_is_refused() {
    let mut store = Store::new();
    store.set(CLIPBOARD, UTF8_STRING, b"abc".to_vec());
    let mut s = server(1024, 4096);
    let req = request(CLIPBOARD, FOOBAR, PROPERTY);
    let actions = s.on_request(&store, req);
    assert_eq!(actions, vec![notify(&req, NONE), Action::Flush]);
    assert!(!s.is_transferring(CLIPBOARD));
}

#[test]
fn unknown_selection_gets_no_answer() {
    let mut store = Store::new();
    store.set(CLIPBOARD, UTF8_STRING, b"abc".to_vec());
    let mut s = server(1024, 4096);
    assert!(s.on_request(&store, request(PRIMARY, UTF8_STRING, PROPERTY)).is_empty());
    assert!(s.on_request(&store, request(PRIMARY, TARGETS, PROPERTY)).is_empty());
}

#[test]
fn invalidation_cancels_transfer() {
    let mut store = Store::new();
    store.set(CLIPBOARD, UTF8_STRING, payload(5000));
    let mut s = server(1024, 4096);
    s.on_request(&store, request(CLIPBOARD, UTF8_STRING, PROPERTY));
    assert_eq!(chunk_bytes(&s.on_property_notify(PROPERTY, true)), payload(4096));
    s.cancel_transfer(CLIPBOARD);
    assert!(!s.is_transferring(CLIPBOARD));
    assert!(s.on_property_notify(PROPERTY, true).is_empty());
}

#[test]
fn selection_clear_drops_transfer_and_data() {
    let mut store = Store::new();
    store.set(CLIPBOARD, UTF8_STRING, payload(5000));
    store.set(PRIMARY, UTF8_STRING, b"kept".to_vec());
    let mut s = server(1024, 4096);
    s.on_request(&store, request(CLIPBOARD, UTF8_STRING, PROPERTY));
    s.on_selection_clear(&mut store, CLIPBOARD);
    assert!(!s.is_transferring(CLIPBOARD));
    assert!(store.get(CLIPBOARD).is_none());
    assert_eq!(store.get(PRIMARY).unwrap().get(UTF8_STRING), Some(&b"kept".to_vec()));
    assert!(s.on_property_notify(PROPERTY, true).is_empty());
    assert!(s.on_request(&store, request(CLIPBOARD, UTF8_STRING, PROPERTY)).is_empty());
}

#[test]
fn only_deletions_drive_a_transfer() {
    let mut store = Store::new();
    store.set(CLIPBOARD, UTF8_STRING, payload(5000));
    let mut s = server(1024, 4096);
    s.on_request(&store, request(CLIPBOARD, UTF8_STRING, PROPERTY));
    assert!(s.on_property_notify(PROPERTY, false).is_empty());
    assert!(s.on_property_notify(OTHER_PROPERTY, true).is_empty());
    assert_eq!(chunk_bytes(&s.on_property_notify(PROPERTY, true)), payload(4096));
    assert_eq!(chunk_bytes(&s.on_property_notify(PROPERTY, true)), payload(5000)[4096..].to_vec());
    assert!(chunk_bytes(&s.on_property_notify(PROPERTY, true)).is_empty());
}

#[test]
fn new_transfer_replaces_old_one_for_same_selection() {
    let mut store = Store::new();
    store.set(CLIPBOARD, UTF8_STRING, payload(5000));
    let mut s = server(1024, 4096);
    s.on_request(&store, request(CLIPBOARD, UTF8_STRING, PROPERTY));
    s.on_request(&store, request(CLIPBOARD, UTF8_STRING, OTHER_PROPERTY));
    assert!(s.on_property_notify(PROPERTY, true).is_empty());
    match &s.on_property_notify(OTHER_PROPERTY, true)[0] {
        Action::WriteBytes { property, bytes, .. } => {
            assert_eq!(*property, OTHER_PROPERTY);
            assert_eq!(bytes.len(), 4096);
        }
        other => panic!("expected a chunk, got {:?}", other),
    }
}

#[test]
fn transfer_serves_snapshot_taken_at_start() {
    let mut store = Store::new();
    store.set(CLIPBOARD, UTF8_STRING, payload(5000));
    let mut s = server(1024, 4096);
    s.on_request(&store, request(CLIPBOARD, UTF8_STRING, PROPERTY));
    store.set(CLIPBOARD, UTF8_STRING, b"short".to_vec());
    assert_eq!(chunk_bytes(&s.on_property_notify(PROPERTY, true)), payload(4096));
    assert_eq!(chunk_bytes(&s.on_property_notify(PROPERTY, true)).len(), 904);
}

#[test]
fn finished_only_when_closed_and_idle() {
    let mut store = Store::new();
    store.set(CLIPBOARD, UTF8_STRING, payload(5000));
    let mut s = server(1024, 8000);
    assert!(!s.finished());
    s.on_request(&store, request(CLIPBOARD, UTF8_STRING, PROPERTY));
    s.on_source_closed();
    assert!(!s.finished());
    assert_eq!(chunk_bytes(&s.on_property_notify(PROPERTY, true)).len(), 5000);
    assert!(!s.finished());
    assert!(chunk_bytes(&s.on_property_notify(PROPERTY, true)).is_empty());
    assert!(s.finished());
}

#[test]
fn test_multiple_targets() {
    let utf8_data = b"2026-10-18 12:00:00".to_vec();
    let alt_data = "foobar";
    let mut store = Store::new();
    store.set(CLIPBOARD, UTF8_STRING, utf8_data.clone());
    store.set(CLIPBOARD, FOOBAR, alt_data.as_bytes().to_vec());
    let mut s = server(INCR_CHUNK_SIZE, INCR_CHUNK_SIZE);
    let first = s.on_request(&store, request(CLIPBOARD, UTF8_STRING, PROPERTY));
    assert!(matches!(&first[0], Action::WriteBytes { bytes, .. } if *bytes == utf8_data));
    let second = s.on_request(&store, request(CLIPBOARD, FOOBAR, PROPERTY));
    assert!(matches!(&second[0], Action::WriteBytes { bytes, .. } if bytes.as_slice() == alt_data.as_bytes()));
}

#[test]
fn target_table_keeps_order_and_replaces() {
    let mut t = TargetTable::new();
    t.set(FOOBAR, b"a".to_vec());
    t.set(UTF8_STRING, b"b".to_vec());
    t.set(FOOBAR, b"c".to_vec());
    assert_eq!(t.target_list(), vec![FOOBAR, UTF8_STRING]);
    assert_eq!(t.get(FOOBAR), Some(&b"c".to_vec()));
    assert_eq!(t.get(TARGETS), None);
}

#[test]
fn copy_range_copies_the_slice() {
    let v = payload(10);
    assert_eq!(copy_range(&v, 2, 5), vec![2u8, 3, 4]);
    assert!(copy_range(&v, 4, 4).is_empty());
}
