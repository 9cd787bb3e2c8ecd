use cldb::builder::{Net, NetBuilder};
use cldb::engine::{create_net, Submission};
use cldb::registry::{ContractModel, EntryPoint, KeyAccess, Registry};
use cldb::traversal::{canonical_edges, dfs_order, sort_dedup, traverse};
use cldb::types::{EngineError, Slot, SlotKey, Transaction, TransactionDependency, Word};

fn w(v: u64) -> Word {
    Word::from_u64(v)
}

fn access(reads: &[u64], writes: &[u64]) -> KeyAccess {
    KeyAccess {
        reads: reads.iter().map(|k| w(*k)).collect(),
        writes: writes.iter().map(|k| w(*k)).collect(),
    }
}

const WRITE_5: &str = "00000001";
const READ_5: &str = "00000002";
const READ_WRITE_5: &str = "00000003";

/// A contract whose entry points write, read, or read and write slot 5.
fn slot5_model() -> ContractModel {
    ContractModel {
        entries: vec![
            EntryPoint { selector: 1, access: access(&[], &[5]) },
            EntryPoint { selector: 2, access: access(&[5], &[]) },
            EntryPoint { selector: 3, access: access(&[5], &[5]) },
        ],
        fallback: access(&[9], &[]),
    }
}

fn deploy(addr: u64, model: ContractModel) -> Submission {
    Submission {
        transaction: Transaction::NewContract { creation_address: w(addr), bytecode: vec![0x60] },
        model: Some(model),
    }
}

fn call(addr: u64, calldata: &str) -> Submission {
    Submission {
        transaction: Transaction::MethodCall {
            target_address: w(addr),
            calldata: calldata.to_string(),
        },
        model: None,
    }
}

fn key(addr: u64, k: u64) -> Slot {
    Slot { address: w(addr), key: SlotKey::Key(w(k)) }
}

fn whole(addr: u64) -> Slot {
    Slot { address: w(addr), key: SlotKey::Whole }
}

fn edges(net: &Net) -> Vec<(u64, u64)> {
    canonical_edges(net).iter().map(|d| (d.0, d.1)).collect()
}

#[test]
fn write_then_read_orders_the_read_after_the_write() {
    let net = create_net(vec![deploy(1, slot5_model()), call(1, WRITE_5), call(1, READ_5)])
        .unwrap();
    // the deployment writes all of address 1, so both calls follow it
    assert_eq!(edges(&net), vec![(2, 1), (3, 1), (3, 2)]);
}

#[test]
fn every_call_follows_the_deployment_of_its_target() {
    let net = create_net(vec![deploy(1, slot5_model()), call(1, READ_5)]).unwrap();
    assert_eq!(edges(&net), vec![(2, 1)]);
    let f = &net.nodes[0].footprint;
    assert!(f.reads.is_empty());
    assert_eq!(f.writes, vec![whole(1)]);
}

#[test]
fn independent_calls_share_no_edge_and_both_head_the_frontier() {
    let net = create_net(vec![
        deploy(1, slot5_model()),
        deploy(2, slot5_model()),
        call(1, WRITE_5),
        call(2, WRITE_5),
    ])
    .unwrap();
    assert!(net.frontier.contains(&3));
    assert!(net.frontier.contains(&4));
    assert_eq!(edges(&net), vec![(3, 1), (4, 2)]);
    assert_eq!(net.nodes[3].dependencies, vec![2]);
}

#[test]
fn call_to_an_address_never_deployed_fails() {
    let r = create_net(vec![deploy(1, slot5_model()), call(7, WRITE_5)]);
    assert!(matches!(r, Err(EngineError::UnregisteredTarget(a)) if a == w(7)));
}

#[test]
fn write_after_read_and_write_after_write() {
    let net = create_net(vec![
        deploy(1, slot5_model()),
        call(1, READ_5),
        call(1, WRITE_5),
        call(1, WRITE_5),
    ])
    .unwrap();
    assert_eq!(edges(&net), vec![(2, 1), (3, 1), (3, 2), (4, 1), (4, 3)]);
}

#[test]
fn diamond_is_walked_once_per_node() {
    let net = create_net(vec![
        deploy(1, slot5_model()),
        call(1, WRITE_5),
        call(1, READ_5),
        call(1, READ_5),
        call(1, WRITE_5),
    ])
    .unwrap();
    assert_eq!(
        edges(&net),
        vec![(2, 1), (3, 1), (3, 2), (4, 1), (4, 2), (5, 1), (5, 2), (5, 3), (5, 4)]
    );
    assert_eq!(net.frontier, vec![5]);
    let mut order = dfs_order(&net);
    assert_eq!(order.len(), 5);
    order.sort();
    assert_eq!(order, vec![1, 2, 3, 4, 5]);
}

#[test]
fn every_edge_points_to_a_smaller_identifier() {
    let net = create_net(vec![
        deploy(1, slot5_model()),
        call(1, READ_WRITE_5),
        call(1, READ_5),
        call(1, READ_WRITE_5),
        call(1, WRITE_5),
    ])
    .unwrap();
    for (i, node) in net.nodes.iter().enumerate() {
        assert_eq!(node.id, i as u64 + 1);
        for d in &node.dependencies {
            assert!(*d < node.id);
        }
    }
}

#[test]
fn read_and_write_in_one_call_does_not_depend_on_itself() {
    let net = create_net(vec![deploy(1, slot5_model()), call(1, READ_WRITE_5), call(1, READ_5)])
        .unwrap();
    assert_eq!(edges(&net), vec![(2, 1), (3, 1), (3, 2)]);
}

#[test]
fn traversal_twice_gives_the_same_report() {
    let subs = || {
        vec![
            deploy(1, slot5_model()),
            call(1, WRITE_5),
            call(1, READ_5),
            call(1, READ_5),
            call(1, WRITE_5),
        ]
    };
    let net = create_net(subs()).unwrap();
    assert_eq!(canonical_edges(&net), canonical_edges(&net));
    let raw = traverse(&net);
    assert_eq!(sort_dedup(&raw), canonical_edges(&net));
    assert_eq!(raw.len(), canonical_edges(&net).len());
}

#[test]
fn unknown_selector_and_short_calldata_use_the_fallback() {
    let mut b = NetBuilder::new();
    b.register_contract(w(1), slot5_model());
    b.new_transaction(Transaction::NewContract { creation_address: w(1), bytecode: vec![] }).unwrap();
    b.new_transaction(Transaction::MethodCall { target_address: w(1), calldata: "01".to_string() })
        .unwrap();
    b.new_transaction(Transaction::MethodCall {
        target_address: w(1),
        calldata: "00000001".to_string(),
    })
    .unwrap();
    let net = b.finalize();
    assert_eq!(net.nodes[1].footprint.reads, vec![whole(1), key(1, 9)]);
    assert!(net.nodes[1].footprint.writes.is_empty());
    assert_eq!(net.nodes[2].footprint.writes, vec![key(1, 5)]);
    assert_eq!(edges(&net), vec![(2, 1), (3, 1)]);
}

#[test]
fn redeployment_replaces_the_model() {
    let other = ContractModel {
        entries: vec![EntryPoint { selector: 1, access: access(&[], &[6]) }],
        fallback: access(&[], &[]),
    };
    let net = create_net(vec![
        deploy(1, slot5_model()),
        call(1, WRITE_5),
        deploy(1, other),
        call(1, WRITE_5),
        call(1, READ_5),
    ])
    .unwrap();
    assert_eq!(net.nodes[3].footprint.writes, vec![key(1, 6)]);
    assert!(net.nodes[4].footprint.reads.is_empty());
    assert_eq!(edges(&net), vec![(2, 1), (3, 1), (3, 2), (4, 3)]);
}

#[test]
fn slots_of_different_contracts_do_not_alias() {
    let net = create_net(vec![
        deploy(1, slot5_model()),
        deploy(2, slot5_model()),
        call(1, WRITE_5),
        call(2, READ_5),
    ])
    .unwrap();
    assert_eq!(edges(&net), vec![(3, 1), (4, 2)]);
}

#[test]
fn registry_lookup_and_footprint_errors() {
    let mut r = Registry::new();
    assert!(r.lookup(w(3)).is_none());
    let t = Transaction::MethodCall { target_address: w(3), calldata: String::new() };
    assert!(matches!(r.footprint(&t), Err(EngineError::UnregisteredTarget(a)) if a == w(3)));
    r.register(w(3), slot5_model());
    assert!(r.lookup(w(3)).is_some());
    let f = r.footprint(&t).unwrap();
    assert_eq!(f.reads, vec![whole(3), key(3, 9)]);
    assert!(f.writes.is_empty());
}

#[test]
fn empty_run_has_no_nodes() {
    let net = create_net(vec![]).unwrap();
    assert!(net.nodes.is_empty());
    assert!(net.frontier.is_empty());
    assert!(edges(&net).is_empty());
}

#[test]
fn sort_dedup_orders_pairs_and_drops_repeats() {
    let v = vec![
        TransactionDependency(3, 1),
        TransactionDependency(2, 1),
        TransactionDependency(3, 1),
        TransactionDependency(3, 0),
    ];
    assert_eq!(
        sort_dedup(&v),
        vec![TransactionDependency(2, 1), TransactionDependency(3, 0), TransactionDependency(3, 1)]
    );
}

#[test]
fn call_touching_no_storage_is_not_ordered() {
    let quiet = ContractModel { entries: vec![], fallback: access(&[], &[]) };
    let net = create_net(vec![deploy(1, quiet), call(1, "00000001"), deploy(1, slot5_model())])
        .unwrap();
    assert!(net.nodes[1].footprint.reads.is_empty());
    assert!(net.nodes[1].footprint.writes.is_empty());
    assert_eq!(edges(&net), vec![(3, 1)]);
    assert_eq!(net.frontier, vec![2, 3]);
}

#[test]
fn calldata_without_a_readable_selector_uses_the_fallback() {
    let net = create_net(vec![deploy(1, slot5_model()), call(1, "zz000001"), call(1, "+0+0+0+1")])
        .unwrap();
    assert_eq!(net.nodes[1].footprint.reads, vec![whole(1), key(1, 9)]);
    assert_eq!(net.nodes[2].footprint.writes, vec![key(1, 5)]);
}

#[test]
fn deployment_without_a_model_fails_the_run() {
    let bare = Submission {
        transaction: Transaction::NewContract { creation_address: w(4), bytecode: vec![] },
        model: None,
    };
    let r = create_net(vec![deploy(1, slot5_model()), call(1, WRITE_5), bare, call(1, READ_5)]);
    assert!(matches!(r, Err(EngineError::MissingModel(a)) if a == w(4)));
    let r = create_net(vec![call(9, READ_5), deploy(1, slot5_model())]);
    assert!(matches!(r, Err(EngineError::UnregisteredTarget(a)) if a == w(9)));
}
