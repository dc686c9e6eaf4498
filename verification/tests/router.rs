use yotei_notify::router::ChangeRouter;
use yotei_notify::router::ClientRoute;
use yotei_notify::router::Inbound;
use yotei_notify::router::keep_watching;
use yotei_notify::router::prune_failed;

fn route(who: &str) -> ClientRoute<u32> {
    ClientRoute { sink: 0, who: who.to_string() }
}

fn whos(routes: &[ClientRoute<u32>]) -> Vec<String> {
    routes.iter().map(|r| r.who.clone()).collect()
}

#[test]
fn registration_enters_pending_not_active() {
    let mut router: ChangeRouter<u32> = ChangeRouter::new();
    router.add_client(route("a"));
    assert_eq!(router.route_count(), 0);
    assert_eq!(whos(&router.new_routes), vec!["a".to_string()]);
}

#[test]
fn merge_moves_pending_behind_active() {
    let mut router: ChangeRouter<u32> = ChangeRouter::new();
    router.add_client(route("a"));
    router.merge_new_routes();
    router.add_client(route("b"));
    router.add_client(route("c"));
    router.merge_new_routes();
    assert_eq!(whos(&router.routes), vec!["a".to_string(), "b".to_string(), "c".to_string()]);
    assert!(router.new_routes.is_empty());
}

#[test]
fn evict_removes_in_place_without_skipping() {
    let mut router: ChangeRouter<u32> = ChangeRouter::new();
    router.add_client(route("a"));
    router.add_client(route("b"));
    router.add_client(route("c"));
    router.merge_new_routes();
    let gone = router.evict(1);
    assert_eq!(gone.who, "b");
    assert_eq!(whos(&router.routes), vec!["a".to_string(), "c".to_string()]);
}

#[test]
fn prune_keeps_successes_in_order() {
    let mut routes = vec![route("a"), route("b"), route("c"), route("d")];
    let flags = vec![true, false, true, false];
    let evicted = prune_failed(&mut routes, &flags);
    assert_eq!(whos(&routes), vec!["a".to_string(), "c".to_string()]);
    assert_eq!(whos(&evicted), vec!["b".to_string(), "d".to_string()]);
}

#[test]
fn prune_with_all_ok_keeps_everyone() {
    let mut routes = vec![route("a"), route("b")];
    let flags = vec![true, true];
    let evicted = prune_failed(&mut routes, &flags);
    assert_eq!(whos(&routes), vec!["a".to_string(), "b".to_string()]);
    assert!(evicted.is_empty());
}

// Two subscribers over three events: the second subscriber's second send
// fails, so it receives only the first event and leaves the active set; the
// first subscriber receives all three in order.
#[test]
fn eviction_leaves_others_whole() {
    let mut router: ChangeRouter<u32> = ChangeRouter::new();
    router.add_client(route("a"));
    router.add_client(route("b"));

    let mut received_a: Vec<usize> = Vec::new();
    let mut received_b: Vec<usize> = Vec::new();
    let mut b_sends: usize = 0;
    for event in 0..3usize {
        router.merge_new_routes();
        let mut flags: Vec<bool> = Vec::new();
        for r in router.routes.iter() {
            if r.who == "a" {
                received_a.push(event);
                flags.push(true);
            } else {
                b_sends += 1;
                if b_sends < 2 {
                    received_b.push(event);
                    flags.push(true);
                } else {
                    flags.push(false);
                }
            }
        }
        let _evicted = prune_failed(&mut router.routes, &flags);
    }
    assert_eq!(received_a, vec![0, 1, 2]);
    assert_eq!(received_b, vec![0]);
    assert_eq!(whos(&router.routes), vec!["a".to_string()]);
}

// A subscriber registered while event 0 is mid-delivery is not part of that
// pass, and takes part from event 1 on.
#[test]
fn late_registration_joins_next_pass() {
    let mut router: ChangeRouter<u32> = ChangeRouter::new();
    router.add_client(route("a"));

    let mut passes: Vec<Vec<String>> = Vec::new();
    for event in 0..2usize {
        router.merge_new_routes();
        passes.push(whos(&router.routes));
        if event == 0 {
            // registration arriving while the pass runs
            router.add_client(route("late"));
        }
        let flags = vec![true; router.route_count()];
        let _ = prune_failed(&mut router.routes, &flags);
    }
    assert_eq!(passes[0], vec!["a".to_string()]);
    assert_eq!(passes[1], vec!["a".to_string(), "late".to_string()]);
}

#[test]
fn watcher_stops_only_on_close() {
    assert!(keep_watching(&Inbound::Text("hello".to_string())));
    assert!(keep_watching(&Inbound::Other));
    assert!(!keep_watching(&Inbound::Close(None)));
    assert!(!keep_watching(&Inbound::Close(Some("going away".to_string()))));
}

// While the subscriber set is stable and every send succeeds, both
// subscribers see every event, in feed order.
#[test]
fn stable_set_preserves_order() {
    let mut router: ChangeRouter<u32> = ChangeRouter::new();
    router.add_client(route("a"));
    router.add_client(route("b"));

    let mut received_a: Vec<usize> = Vec::new();
    let mut received_b: Vec<usize> = Vec::new();
    for event in 0..3usize {
        router.merge_new_routes();
        for r in router.routes.iter() {
            if r.who == "a" {
                received_a.push(event);
            } else {
                received_b.push(event);
            }
        }
        let flags = vec![true; router.route_count()];
        let _ = prune_failed(&mut router.routes, &flags);
    }
    assert_eq!(received_a, vec![0, 1, 2]);
    assert_eq!(received_b, vec![0, 1, 2]);
}
