use guess_server::registry::{ConnectionHandle, Server};

fn handle(token: u64) -> ConnectionHandle {
    ConnectionHandle { token }
}

fn sorted(mut ids: Vec<u32>) -> Vec<u32> {
    ids.sort();
    ids
}

#[test]
fn ids_start_at_one_and_rise_by_one() {
    let mut server = Server::new();
    let mut k: u32 = 1;
    while k <= 50 {
        assert_eq!(server.register(handle(1000 + k as u64)), Some(k));
        k += 1;
    }
}

#[test]
fn ids_are_not_reused_after_unregister() {
    let mut server = Server::new();
    assert_eq!(server.register(handle(10)), Some(1));
    assert_eq!(server.register(handle(20)), Some(2));
    assert_eq!(server.unregister(2), Some(handle(20)));
    assert_eq!(server.unregister(1), Some(handle(10)));
    assert_eq!(server.register(handle(30)), Some(3));
    assert_eq!(server.list(0), vec![3]);
}

#[test]
fn resolve_finds_only_registered_ids() {
    let mut server = Server::new();
    assert_eq!(server.resolve(1), None);
    server.register(handle(7));
    server.register(handle(8));
    assert_eq!(server.resolve(1), Some(handle(7)));
    assert_eq!(server.resolve(2), Some(handle(8)));
    assert_eq!(server.resolve(3), None);
    assert_eq!(server.resolve(0), None);
    server.unregister(1);
    assert_eq!(server.resolve(1), None);
    assert_eq!(server.resolve(2), Some(handle(8)));
}

#[test]
fn unregister_is_idempotent() {
    let mut server = Server::new();
    server.register(handle(7));
    server.register(handle(8));
    assert_eq!(server.unregister(1), Some(handle(7)));
    assert_eq!(server.unregister(1), None);
    assert_eq!(server.unregister(99), None);
    assert_eq!(server.list(0), vec![2]);
}

#[test]
fn list_leaves_out_the_given_id() {
    let mut server = Server::new();
    assert_eq!(server.list(1), Vec::<u32>::new());
    server.register(handle(1));
    assert_eq!(server.list(1), Vec::<u32>::new());
    server.register(handle(2));
    server.register(handle(3));
    assert_eq!(sorted(server.list(1)), vec![2, 3]);
    assert_eq!(sorted(server.list(2)), vec![1, 3]);
    assert_eq!(sorted(server.list(3)), vec![1, 2]);
    assert_eq!(sorted(server.list(4)), vec![1, 2, 3]);
    server.unregister(2);
    assert_eq!(sorted(server.list(1)), vec![3]);
}
