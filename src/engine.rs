use vstd::prelude::*;
use crate::builder::{hazard_complete, is_frontier, net_wf, Net, NetBuilder};
use crate::registry::{footprint_of, ContractModel};
use crate::types::{EngineError, Transaction, Word};

verus! {

/// A transaction as submitted, with the analysed model of the deployed code
/// when it is a deployment.
pub struct Submission {
    pub transaction: Transaction,
    pub model: Option<ContractModel>,
}

/// The models registered once the first `k` submissions are in: each
/// deployment that comes with a model installs it at its address.
pub open spec fn models_after(subs: Seq<Submission>, k: int) -> Map<Word, ContractModel>
    decreases k,
{
    if k <= 0 {
        Map::empty()
    } else {
        let m = models_after(subs, k - 1);
        match (subs[k - 1].transaction, subs[k - 1].model) {
            (Transaction::NewContract { creation_address: a, .. }, Some(md)) => m.insert(a, md),
            _ => m,
        }
    }
}

/// Whether a submission is a deployment that comes without its model.
pub open spec fn missing_model(sub: Submission) -> bool {
    sub.transaction is NewContract && sub.model is None
}

/// Whether submission `i` cannot be taken: a deployment without its model,
/// or a call to an address that holds no model at that point of the run.
pub open spec fn fails_at(subs: Seq<Submission>, i: int) -> bool {
    missing_model(subs[i]) || footprint_of(subs[i].transaction, models_after(subs, i + 1)).is_none()
}

/// The error that submission `i` fails with.
pub open spec fn error_at(subs: Seq<Submission>, i: int) -> EngineError {
    if missing_model(subs[i]) {
        EngineError::MissingModel(subs[i].transaction.address())
    } else {
        EngineError::UnregisteredTarget(subs[i].transaction.address())
    }
}

/// Builds the dependency graph of a run: registers each deployment's model
/// and adds each transaction in order, then finalizes. The run fails at the
/// first submission that is a deployment without its model, or a call to an
/// address with no model at that point, with the address at fault; no graph
/// is returned then.
pub fn create_net(subs: Vec<Submission>) -> (r: Result<Net, EngineError>)
    requires
        subs@.len() + 1 < u64::MAX,
    ensures
        match r {
            Ok(net) => {
                &&& net_wf(net.nodes@)
                &&& is_frontier(net.nodes@, net.frontier@)
                &&& hazard_complete(net.nodes@)
                &&& net.nodes@.len() == subs@.len()
                &&& forall|i: int| 0 <= i < subs@.len() ==> {
                    &&& (#[trigger] net.nodes@[i]).transaction == subs@[i].transaction
                    &&& footprint_of(subs@[i].transaction, models_after(subs@, i + 1)) == Some(
                        (net.nodes@[i].footprint.reads@, net.nodes@[i].footprint.writes@),
                    )
                }
            },
            Err(e) => exists|i: int|
                0 <= i < subs@.len() && #[trigger] fails_at(subs@, i) && (forall|j: int|
                    0 <= j < i ==> !#[trigger] fails_at(subs@, j)) && e == error_at(subs@, i),
        },
        r.is_ok() <==> forall|i: int| 0 <= i < subs@.len() ==> !#[trigger] fails_at(subs@, i),
{
    let ghost all = subs@;
    let n = subs.len();
    let mut pending = subs;
    let mut rev: Vec<Submission> = Vec::new();
    while pending.len() > 0
        invariant
            all.len() == n,
            all == subs@,
            pending@ == all.take(pending@.len() as int),
            rev@.len() + pending@.len() == n,
            forall|j: int| 0 <= j < rev@.len() ==> #[trigger] rev@[j] == all[n - 1 - j],
        decreases pending@.len(),
    {
        let s = pending.pop().unwrap();
        rev.push(s);
        assert(pending@ =~= all.take(pending@.len() as int));
    }
    let mut b = NetBuilder::new();
    let mut i: usize = 0;
    while i < n
        invariant
            all.len() == n,
            all == subs@,
            n + 1 < u64::MAX,
            i <= n,
            rev@.len() == n - i,
            forall|j: int| 0 <= j < rev@.len() ==> #[trigger] rev@[j] == all[n - 1 - j],
            b.wf(),
            b.models() == models_after(all, i as int),
            b.nodes().len() == i,
            forall|j: int| 0 <= j < i ==> {
                &&& (#[trigger] b.nodes()[j]).transaction == all[j].transaction
                &&& footprint_of(all[j].transaction, models_after(all, j + 1)) == Some(
                    (b.nodes()[j].footprint.reads@, b.nodes()[j].footprint.writes@),
                )
            },
            forall|j: int| 0 <= j < i ==> !#[trigger] fails_at(all, j),
        decreases n - i,
    {
        let s = rev.pop().unwrap();
        assert(s == all[i as int]);
        let Submission { transaction, model } = s;
        if let Transaction::NewContract { creation_address, .. } = &transaction {
            match model {
                Some(m) => {
                    b.register_contract(*creation_address, m);
                },
                None => {
                    assert(fails_at(all, i as int));
                    return Err(EngineError::MissingModel(*creation_address));
                },
            }
        }
        assert(b.models() == models_after(all, i + 1));
        let ghost before = b.nodes();
        match b.new_transaction(transaction) {
            Ok(_) => {
                proof {
                    assert forall|j: int| 0 <= j < i + 1 implies {
                        &&& (#[trigger] b.nodes()[j]).transaction == all[j].transaction
                        &&& footprint_of(all[j].transaction, models_after(all, j + 1)) == Some(
                            (b.nodes()[j].footprint.reads@, b.nodes()[j].footprint.writes@),
                        )
                    } by {
                        if j < i {
                            assert(b.nodes()[j] == before[j]);
                        }
                    }
                }
            },
            Err(e) => {
                assert(before.len() + 1 < u64::MAX);
                assert(fails_at(all, i as int));
                assert(e == EngineError::UnregisteredTarget(all[i as int].transaction.address()));
                assert(e == error_at(all, i as int));
                return Err(e);
            },
        }
        i = i + 1;
    }
    Ok(b.finalize())
}

} // verus!
