//! Identities of artifacts and service instances, callers, and the per-call
//! execution context with its queue of deferred actions.
use vstd::prelude::*;

verus! {

/// Numeric identifier of a service instance, assigned by the dispatcher.
pub type ServiceInstanceId = u32;

/// A 32-byte content hash.
#[derive(Clone, Copy, Debug, PartialEq, Eq, Hash)]
pub struct Hash(pub [u8; 32]);

/// A 32-byte public key of a transaction author.
#[derive(Clone, Copy, Debug, PartialEq, Eq, Hash)]
pub struct PublicKey(pub [u8; 32]);

/// Identifier of a deployable unit of service code.
#[derive(Clone, Debug, PartialEq, Eq, Hash)]
pub struct ArtifactId {
    pub runtime_id: u32,
    pub name: String,
}

impl ArtifactId {
    /// Creates a new artifact identifier from the given runtime id and name.
    pub fn new<R: Into<u32>, N: Into<String>>(runtime_id: R, name: N) -> (r: Self)
        ensures
            call_ensures(R::into, (runtime_id,), r.runtime_id),
            call_ensures(N::into, (name,), r.name),
    {
        ArtifactId { runtime_id: runtime_id.into(), name: name.into() }
    }
}


/// Identifiers of the known execution engines.
#[derive(Clone, Copy, Debug, PartialEq, Eq, Hash)]
pub enum RuntimeIdentifier {
    Rust,
    Java,
}

/// The numeric runtime id that an engine is registered under.
pub open spec fn runtime_number(id: RuntimeIdentifier) -> u32 {
    match id {
        RuntimeIdentifier::Rust => 0,
        RuntimeIdentifier::Java => 1,
    }
}

impl From<RuntimeIdentifier> for u32 {
    fn from(id: RuntimeIdentifier) -> (r: u32)
        ensures
            r == runtime_number(id),
    {
        match id {
            RuntimeIdentifier::Rust => 0,
            RuntimeIdentifier::Java => 1,
        }
    }
}

impl vstd::std_specs::convert::FromSpecImpl<RuntimeIdentifier> for u32 {
    open spec fn obeys_from_spec() -> bool {
        true
    }

    open spec fn from_spec(id: RuntimeIdentifier) -> u32 {
        runtime_number(id)
    }
}

/// Identity of one running service instance.
#[derive(Clone, Debug, PartialEq, Eq, Hash)]
pub struct InstanceSpec {
    pub id: ServiceInstanceId,
    pub artifact: ArtifactId,
    pub name: String,
}

/// Who a call is attributed to.
#[derive(Clone, Copy, Debug, PartialEq, Eq)]
pub enum Caller {
    /// The call comes from a signed transaction recorded in the ledger.
    Transaction { hash: Hash, author: PublicKey },
    /// The call comes from the node's own logic, such as a commit hook.
    Blockchain,
}

impl Caller {
    /// The author of the transaction, if the call comes from one.
    pub fn author(&self) -> (r: Option<PublicKey>)
        ensures
            match *self {
                Caller::Transaction { author, .. } => r == Some(author),
                Caller::Blockchain => r is None,
            },
    {
        match self.as_transaction() {
            Some((_hash, author)) => Some(*author),
            None => None,
        }
    }

    /// The hash of the transaction, if the call comes from one.
    pub fn transaction_id(&self) -> (r: Option<Hash>)
        ensures
            match *self {
                Caller::Transaction { hash, .. } => r == Some(hash),
                Caller::Blockchain => r is None,
            },
    {
        match self.as_transaction() {
            Some((hash, _author)) => Some(*hash),
            None => None,
        }
    }

    /// The hash and the author of the transaction, if the call comes from one.
    pub fn as_transaction(&self) -> (r: Option<(&Hash, &PublicKey)>)
        ensures
            match *self {
                Caller::Transaction { hash, author } => r == Some((&hash, &author)),
                Caller::Blockchain => r is None,
            },
    {
        match self {
            Caller::Transaction { hash, author } => Some((hash, author)),
            Caller::Blockchain => None,
        }
    }
}

/// A change of deployment or instance topology requested during a call,
/// applied by the dispatcher only after the call has succeeded.
#[derive(Clone, Debug, PartialEq, Eq)]
pub enum Action {
    /// Start a new service instance.
    StartService { spec: InstanceSpec },
    /// Stop a running service instance.
    StopService { id: ServiceInstanceId },
}

/// The scope of one call: the ledger view it works on, its caller, and the
/// actions it has asked the dispatcher to apply afterwards.
///
/// `F` is the mutable ledger view; the context only lends it to the runtime.
pub struct ExecutionContext<'a, F> {
    pub fork: &'a F,
    pub caller: Caller,
    actions: Vec<Action>,
}

impl<'a, F> ExecutionContext<'a, F> {
    /// The actions queued so far, in the order they were dispatched.
    pub closed spec fn pending(&self) -> Seq<Action> {
        self.actions@
    }

    /// The caller the context was opened for.
    pub closed spec fn spec_caller(&self) -> Caller {
        self.caller
    }

    /// The ledger view the context lends.
    pub closed spec fn spec_fork(&self) -> &'a F {
        self.fork
    }

    /// Opens a context with an empty queue of actions.
    pub fn new(fork: &'a F, caller: Caller) -> (r: Self)
        ensures
            r.spec_fork() == fork,
            r.spec_caller() == caller,
            r.pending() == Seq::<Action>::empty(),
    {
        ExecutionContext { fork, caller, actions: Vec::new() }
    }

    /// Queues an action behind those already queued.
    pub fn dispatch_action(&mut self, action: Action)
        ensures
            final(self).pending() == old(self).pending().push(action),
            final(self).spec_fork() == old(self).spec_fork(),
            final(self).spec_caller() == old(self).spec_caller(),
    {
        self.actions.push(action);
    }

    /// Hands out the queued actions in order and leaves the queue empty.
    pub fn take_actions(&mut self) -> (r: Vec<Action>)
        ensures
            r@ == old(self).pending(),
            final(self).pending() == Seq::<Action>::empty(),
            final(self).spec_fork() == old(self).spec_fork(),
            final(self).spec_caller() == old(self).spec_caller(),
    {
        let mut other = Vec::new();
        std::mem::swap(&mut self.actions, &mut other);
        other
    }
}

/// Why an artifact could not be deployed.
#[derive(Clone, Copy, Debug, PartialEq, Eq, Structural)]
pub enum DeployError {
    /// The artifact cannot be resolved or is invalid.
    InvalidArtifact,
}

/// Violations of the instance lifecycle.
#[derive(Clone, Copy, Debug, PartialEq, Eq, Structural)]
pub enum StartError {
    /// The artifact was never deployed.
    ArtifactNotDeployed,
    /// Another instance already has this id.
    DuplicateInstanceId,
    /// No instance with this id is running.
    UnknownInstance,
}

/// Why a call was rejected by a service's logic.
#[derive(Clone, Copy, Debug, PartialEq, Eq, Structural)]
pub enum ExecutionError {
    /// The service rejected the call with the given code.
    Rejected { code: u8 },
}

/// What a deployment request leads to.
#[derive(Clone, Copy, Debug, PartialEq, Eq, Structural)]
pub enum DeployStatus {
    /// The artifact is deployed already; nothing is to be done.
    AlreadyDeployed,
    /// Deployment has to run; its outcome is reported through `finish_deploy`.
    Started,
}

/// Two artifact ids name the same artifact.
pub open spec fn same_artifact(a: ArtifactId, b: ArtifactId) -> bool {
    a.runtime_id == b.runtime_id && a.name@ == b.name@
}

pub open spec fn is_deployed(deployed: Seq<ArtifactId>, a: ArtifactId) -> bool {
    exists|i: int| 0 <= i < deployed.len() && same_artifact(#[trigger] deployed[i], a)
}

pub open spec fn has_instance(running: Seq<InstanceSpec>, id: ServiceInstanceId) -> bool {
    exists|i: int| 0 <= i < running.len() && (#[trigger] running[i]).id == id
}

/// Once a deployment has been recorded as successful, asking to deploy the
/// same artifact again finds it deployed, whatever was deployed before.
pub proof fn lemma_deploy_recorded(deployed: Seq<ArtifactId>, artifact: ArtifactId)
    ensures
        is_deployed(deployed.push(artifact), artifact),
        forall|other: ArtifactId|
            is_deployed(deployed, other) ==> #[trigger] is_deployed(deployed.push(artifact), other),
{
    let d = deployed.push(artifact);
    assert(same_artifact(d[deployed.len() as int], artifact));
    assert forall|other: ArtifactId|
        is_deployed(deployed, other) implies #[trigger] is_deployed(d, other) by {
        let k = choose|k: int| 0 <= k < deployed.len() && same_artifact(#[trigger] deployed[k], other);
        assert(d[k] == deployed[k]);
    }
}

/// No two instances share an id.
pub open spec fn distinct_ids(running: Seq<InstanceSpec>) -> bool {
    forall|i: int, j: int| 0 <= i < j < running.len() ==> running[i].id != running[j].id
}

/// What a runtime records of deployed artifacts and running instances. The
/// lifecycle decisions are made here; the engine does the work they call for.
pub struct ServiceRegistry {
    deployed: Vec<ArtifactId>,
    running: Vec<InstanceSpec>,
}

fn eq_artifact(a: &ArtifactId, b: &ArtifactId) -> (r: bool)
    ensures
        r == same_artifact(*a, *b),
{
    a.runtime_id == b.runtime_id && a.name == b.name
}

impl ServiceRegistry {
    /// The artifacts deployed so far, in order of deployment.
    pub closed spec fn deployed(&self) -> Seq<ArtifactId> {
        self.deployed@
    }

    /// The running instances, in order of start.
    pub closed spec fn running(&self) -> Seq<InstanceSpec> {
        self.running@
    }

    /// Instance ids are unique.
    pub closed spec fn well_formed(&self) -> bool {
        distinct_ids(self.running@)
    }

    /// A registry with nothing deployed and nothing running.
    pub fn new() -> (r: Self)
        ensures
            r.well_formed(),
            r.deployed() == Seq::<ArtifactId>::empty(),
            r.running() == Seq::<InstanceSpec>::empty(),
    {
        ServiceRegistry { deployed: Vec::new(), running: Vec::new() }
    }

    /// Whether the artifact is deployed.
    pub fn is_deployed(&self, artifact: &ArtifactId) -> (r: bool)
        ensures
            r == is_deployed(self.deployed(), *artifact),
    {
        let mut i: usize = 0;
        while i < self.deployed.len()
            invariant
                i <= self.deployed@.len(),
                forall|j: int| 0 <= j < i ==> !same_artifact(#[trigger] self.deployed@[j], *artifact),
            decreases self.deployed@.len() - i,
        {
            if eq_artifact(&self.deployed[i], artifact) {
                return true;
            }
            i += 1;
        }
        false
    }

    /// The position of the running instance with this id, if any.
    pub fn find_instance(&self, id: ServiceInstanceId) -> (r: Option<usize>)
        ensures
            r matches Some(k) ==> k < self.running().len() && self.running()[k as int].id == id,
            r is None <==> !has_instance(self.running(), id),
    {
        let mut i: usize = 0;
        while i < self.running.len()
            invariant
                i <= self.running@.len(),
                forall|j: int| 0 <= j < i ==> (#[trigger] self.running@[j]).id != id,
            decreases self.running@.len() - i,
        {
            if self.running[i].id == id {
                return Some(i);
            }
            i += 1;
        }
        None
    }

    /// Asks to deploy an artifact: one already deployed is not deployed
    /// again.
    pub fn deploy_artifact(&self, artifact: &ArtifactId) -> (r: DeployStatus)
        ensures
            r == (if is_deployed(self.deployed(), *artifact) {
                DeployStatus::AlreadyDeployed
            } else {
                DeployStatus::Started
            }),
    {
        if self.is_deployed(artifact) {
            DeployStatus::AlreadyDeployed
        } else {
            DeployStatus::Started
        }
    }

    /// Records the outcome of a deployment that was started.
    pub fn finish_deploy(&mut self, artifact: ArtifactId, outcome: Result<(), DeployError>) -> (r:
        Result<(), DeployError>)
        requires
            old(self).well_formed(),
        ensures
            final(self).well_formed(),
            r == outcome,
            final(self).running() == old(self).running(),
            outcome is Ok && !is_deployed(old(self).deployed(), artifact) ==> final(self).deployed()
                == old(self).deployed().push(artifact),
            outcome is Err || is_deployed(old(self).deployed(), artifact) ==> final(self).deployed()
                == old(self).deployed(),
    {
        if outcome.is_ok() && !self.is_deployed(&artifact) {
            self.deployed.push(artifact);
        }
        outcome
    }

    /// Starts an instance of a deployed artifact under a fresh id.
    ///
    /// An id in use is refused whatever the artifact.
    pub fn start_service(&mut self, spec: InstanceSpec) -> (r: Result<(), StartError>)
        requires
            old(self).well_formed(),
        ensures
            final(self).well_formed(),
            final(self).deployed() == old(self).deployed(),
            has_instance(old(self).running(), spec.id) ==> r == Err::<(), StartError>(
                StartError::DuplicateInstanceId,
            ),
            !has_instance(old(self).running(), spec.id) && !is_deployed(
                old(self).deployed(),
                spec.artifact,
            ) ==> r == Err::<(), StartError>(StartError::ArtifactNotDeployed),
            r is Ok <==> !has_instance(old(self).running(), spec.id) && is_deployed(
                old(self).deployed(),
                spec.artifact,
            ),
            r is Ok ==> final(self).running() == old(self).running().push(spec),
            r is Err ==> final(self).running() == old(self).running(),
    {
        if self.find_instance(spec.id).is_some() {
            return Err(StartError::DuplicateInstanceId);
        }
        if !self.is_deployed(&spec.artifact) {
            return Err(StartError::ArtifactNotDeployed);
        }
        let ghost before = self.running@;
        self.running.push(spec);
        proof {
            assert forall|i: int, j: int|
                0 <= i < j < self.running@.len() implies self.running@[i].id
                != self.running@[j].id by {
                if j == before.len() {
                    assert(self.running@[i] == before[i]);
                    assert(!(before[i].id == spec.id));
                } else {
                    assert(self.running@[i] == before[i]);
                    assert(self.running@[j] == before[j]);
                }
            }
        }
        Ok(())
    }

    /// Stops the running instance with this id.
    pub fn stop_service(&mut self, id: ServiceInstanceId) -> (r: Result<InstanceSpec, StartError>)
        requires
            old(self).well_formed(),
        ensures
            final(self).well_formed(),
            final(self).deployed() == old(self).deployed(),
            !has_instance(final(self).running(), id),
            r is Err <==> !has_instance(old(self).running(), id),
            r is Err ==> r == Err::<InstanceSpec, StartError>(StartError::UnknownInstance)
                && final(self).running() == old(self).running(),
            r matches Ok(spec) ==> spec.id == id && exists|k: int|
                0 <= k < old(self).running().len() && old(self).running()[k] == spec
                    && final(self).running() == old(self).running().remove(k),
    {
        match self.find_instance(id) {
            Some(k) => {
                let ghost before = self.running@;
                let spec = self.running.remove(k);
                proof {
                    let after = self.running@;
                    assert forall|i: int, j: int|
                        0 <= i < j < after.len() implies after[i].id != after[j].id by {
                        let bi = if i < k { i } else { i + 1 };
                        let bj = if j < k { j } else { j + 1 };
                        assert(after[i] == before[bi]);
                        assert(after[j] == before[bj]);
                    }
                    assert forall|i: int| 0 <= i < after.len() implies (#[trigger] after[i]).id
                        != id by {
                        let bi = if i < k { i } else { i + 1 };
                        assert(after[i] == before[bi]);
                    }
                }
                Ok(spec)
            },
            None => Err(StartError::UnknownInstance),
        }
    }
}

/// Ends a call: the actions it queued are handed out, in order, only if it
/// succeeded, and the queue is left empty either way, so that no action is
/// applied twice.
pub fn finish_call<'a, F>(context: &mut ExecutionContext<'a, F>, outcome: Result<(), ExecutionError>) -> (r: Vec<Action>)
    ensures
        outcome is Ok ==> r@ == old(context).pending(),
        outcome is Err ==> r@ == Seq::<Action>::empty(),
        final(context).pending() == Seq::<Action>::empty(),
        final(context).spec_fork() == old(context).spec_fork(),
        final(context).spec_caller() == old(context).spec_caller(),
{
    let actions = context.take_actions();
    match outcome {
        Ok(()) => actions,
        Err(_) => Vec::new(),
    }
}

/// The service method that a call addresses.
#[derive(Clone, Copy, Debug, PartialEq, Eq, Structural)]
pub struct CallInfo {
    pub instance_id: ServiceInstanceId,
    pub method_id: u32,
}

/// An execution engine for services.
///
/// It does not assign ids to services: they are given to it from outside.
/// `F` is the mutable ledger view of one block, `S` a read-only one.
/// Deployment that has to run reports its outcome later; the dispatcher
/// starts no instance of the artifact before it has succeeded.
pub trait Runtime<F, S> {
    /// Asks to deploy an artifact; one deployed already is not deployed again.
    fn deploy_artifact(&mut self, artifact: ArtifactId) -> DeployStatus;

    /// Starts a new service instance with the given specification.
    fn start_service(&mut self, spec: &InstanceSpec) -> Result<(), StartError>;

    /// Configures a service instance with the given parameters.
    fn configure_service(&self, fork: &F, spec: &InstanceSpec, parameters: &Vec<u8>) -> Result<
        (),
        StartError,
    >;

    /// Stops the running instance with the given specification.
    fn stop_service(&mut self, spec: &InstanceSpec) -> Result<(), StartError>;

    /// Executes a call; topology changes go through `context.dispatch_action`.
    fn execute(
        &self,
        context: &mut ExecutionContext<'_, F>,
        call_info: CallInfo,
        payload: &[u8],
    ) -> Result<(), ExecutionError>;

    /// The state hashes of every service instance of this runtime.
    fn state_hashes(&self, snapshot: &S) -> Vec<(ServiceInstanceId, Vec<Hash>)>;

    /// Called for every block before its state is final.
    fn before_commit(&self, fork: &mut F);

    /// Called for every block after its state is final.
    fn after_commit(&self, snapshot: &S);
}

} // verus!
