use tnnl::store::{find, init, next_id, IdCounter, StoredRequest};

fn record(id: u64, path: &str) -> StoredRequest {
    StoredRequest {
        id,
        port: 3000,
        method: "GET".into(),
        path: path.into(),
        raw_headers: "GET / HTTP/1.1\r\n\r\n".into(),
        body_b64: String::new(),
    }
}

#[test]
fn ids_start_at_one() {
    let mut c = IdCounter::new();
    assert_eq!(next_id(&mut c), 1);
    assert_eq!(next_id(&mut c), 2);
}

#[test]
fn ids_continue_after_stored_ones() {
    let mut c = IdCounter::new();
    init(&mut c, &[3, 9, 4]);
    let a = next_id(&mut c);
    let b = next_id(&mut c);
    assert_eq!((a, b), (10, 11));
    assert!(![3, 9, 4].contains(&a) && ![3, 9, 4].contains(&b));
}

#[test]
fn init_without_stored_ids() {
    let mut c = IdCounter::new();
    next_id(&mut c);
    next_id(&mut c);
    init(&mut c, &[]);
    assert_eq!(next_id(&mut c), 1);
}

#[test]
fn ids_wrap_at_the_end() {
    let mut c = IdCounter::new();
    init(&mut c, &[u64::MAX - 1]);
    assert_eq!(next_id(&mut c), u64::MAX);
    assert_eq!(next_id(&mut c), 0);
}

#[test]
fn find_returns_first_match() {
    let records = vec![record(1, "/a"), record(2, "/b"), record(2, "/c")];
    let found = find(&records, 2).unwrap();
    assert_eq!(found.id, 2);
    assert_eq!(found.path, "/b");
    assert!(find(&records, 7).is_none());
    assert!(find(&[], 1).is_none());
}

#[test]
fn copy_keeps_every_field() {
    let r = record(5, "/x");
    let c = r.copy();
    assert_eq!((c.id, c.port, c.method, c.path, c.raw_headers, c.body_b64),
        (r.id, r.port, r.method.clone(), r.path.clone(), r.raw_headers.clone(), r.body_b64.clone()));
}
