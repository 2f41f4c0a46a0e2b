use exonum_core::runtime::{
    finish_call, CallInfo, Runtime, Action, ArtifactId, Caller, DeployError, DeployStatus, ExecutionContext,
    ExecutionError, InstanceSpec, PublicKey, RuntimeIdentifier, ServiceRegistry, StartError,
};

fn spec(id: u32, artifact: &ArtifactId, name: &str) -> InstanceSpec {
    InstanceSpec { id, artifact: artifact.clone(), name: name.to_string() }
}

#[test]
fn artifact_id_from_runtime_and_name() {
    let a = ArtifactId::new(RuntimeIdentifier::Java, "timestamping");
    assert_eq!(a.runtime_id, 1);
    assert_eq!(a.name, "timestamping".to_string());
    let b = ArtifactId::new(7u32, String::from("x"));
    assert_eq!(b.runtime_id, 7);
    assert_eq!(u32::from(RuntimeIdentifier::Rust), 0);
    assert_eq!(u32::from(RuntimeIdentifier::Java), 1);
}

#[test]
fn caller_of_transaction_and_of_blockchain() {
    let tx = Caller::Transaction { hash: exonum_core::runtime::Hash([3; 32]), author: PublicKey([9; 32]) };
    assert_eq!(tx.author(), Some(PublicKey([9; 32])));
    assert_eq!(tx.transaction_id(), Some(exonum_core::runtime::Hash([3; 32])));
    assert_eq!(tx.as_transaction(), Some((&exonum_core::runtime::Hash([3; 32]), &PublicKey([9; 32]))));
    let node = Caller::Blockchain;
    assert_eq!(node.author(), None);
    assert_eq!(node.transaction_id(), None);
    assert_eq!(node.as_transaction(), None);
}

#[test]
fn actions_come_out_in_order_once() {
    let fork = 0u8;
    let mut ctx = ExecutionContext::new(&fork, Caller::Blockchain);
    ctx.dispatch_action(Action::StopService { id: 1 });
    ctx.dispatch_action(Action::StopService { id: 2 });
    let first = ctx.take_actions();
    assert_eq!(first, vec![Action::StopService { id: 1 }, Action::StopService { id: 2 }]);
    assert!(ctx.take_actions().is_empty());
}

#[test]
fn failed_call_discards_its_actions() {
    let fork = 0u8;
    let mut ctx = ExecutionContext::new(&fork, Caller::Blockchain);
    ctx.dispatch_action(Action::StopService { id: 4 });
    let out = finish_call(&mut ctx, Err(ExecutionError::Rejected { code: 3 }));
    assert!(out.is_empty());
    assert!(ctx.take_actions().is_empty());
}

#[test]
fn successful_call_hands_out_its_actions_once() {
    let fork = 0u8;
    let mut ctx = ExecutionContext::new(&fork, Caller::Blockchain);
    let a = ArtifactId::new(RuntimeIdentifier::Rust, "a");
    ctx.dispatch_action(Action::StartService { spec: spec(8, &a, "eight") });
    ctx.dispatch_action(Action::StopService { id: 4 });
    let out = finish_call(&mut ctx, Ok(()));
    assert_eq!(
        out,
        vec![Action::StartService { spec: spec(8, &a, "eight") }, Action::StopService { id: 4 }]
    );
    assert!(finish_call(&mut ctx, Ok(())).is_empty());
}

#[test]
fn deploying_twice_is_already_done() {
    let mut reg = ServiceRegistry::new();
    let a = ArtifactId::new(RuntimeIdentifier::Rust, "cryptocurrency");
    assert_eq!(reg.deploy_artifact(&a), DeployStatus::Started);
    assert_eq!(reg.finish_deploy(a.clone(), Ok(())), Ok(()));
    assert_eq!(reg.deploy_artifact(&a), DeployStatus::AlreadyDeployed);
    assert!(reg.is_deployed(&a));
}

#[test]
fn failed_deploy_leaves_artifact_undeployed() {
    let mut reg = ServiceRegistry::new();
    let a = ArtifactId::new(RuntimeIdentifier::Rust, "broken");
    assert_eq!(reg.finish_deploy(a.clone(), Err(DeployError::InvalidArtifact)), Err(DeployError::InvalidArtifact));
    assert!(!reg.is_deployed(&a));
    assert_eq!(reg.deploy_artifact(&a), DeployStatus::Started);
}

#[test]
fn same_name_other_runtime_is_another_artifact() {
    let mut reg = ServiceRegistry::new();
    let a = ArtifactId::new(RuntimeIdentifier::Rust, "x");
    let b = ArtifactId::new(RuntimeIdentifier::Java, "x");
    reg.finish_deploy(a, Ok(())).unwrap();
    assert_eq!(reg.deploy_artifact(&b), DeployStatus::Started);
}

#[test]
fn duplicate_instance_id_fails_whatever_the_artifact() {
    let mut reg = ServiceRegistry::new();
    let a = ArtifactId::new(RuntimeIdentifier::Rust, "a");
    reg.finish_deploy(a.clone(), Ok(())).unwrap();
    assert_eq!(reg.start_service(spec(1, &a, "one")), Ok(()));
    assert_eq!(reg.start_service(spec(1, &a, "again")), Err(StartError::DuplicateInstanceId));
    let never = ArtifactId::new(RuntimeIdentifier::Java, "never");
    assert_eq!(reg.start_service(spec(1, &never, "other")), Err(StartError::DuplicateInstanceId));
}

#[test]
fn start_needs_a_deployed_artifact() {
    let mut reg = ServiceRegistry::new();
    let a = ArtifactId::new(RuntimeIdentifier::Rust, "a");
    assert_eq!(reg.start_service(spec(2, &a, "two")), Err(StartError::ArtifactNotDeployed));
}

#[test]
fn stop_unknown_and_running_instances() {
    let mut reg = ServiceRegistry::new();
    let a = ArtifactId::new(RuntimeIdentifier::Rust, "a");
    reg.finish_deploy(a.clone(), Ok(())).unwrap();
    assert_eq!(reg.stop_service(3), Err(StartError::UnknownInstance));
    reg.start_service(spec(3, &a, "three")).unwrap();
    reg.start_service(spec(4, &a, "four")).unwrap();
    assert_eq!(reg.find_instance(4), Some(1));
    assert_eq!(reg.stop_service(3), Ok(spec(3, &a, "three")));
    assert_eq!(reg.find_instance(3), None);
    assert_eq!(reg.find_instance(4), Some(0));
    assert_eq!(reg.start_service(spec(3, &a, "back")), Ok(()));
}

struct Engine {
    registry: ServiceRegistry,
    deployments_run: u32,
}

impl Runtime<u8, u8> for Engine {
    fn deploy_artifact(&mut self, artifact: ArtifactId) -> DeployStatus {
        let status = self.registry.deploy_artifact(&artifact);
        if status == DeployStatus::Started {
            self.deployments_run += 1;
            self.registry.finish_deploy(artifact, Ok(())).unwrap();
        }
        status
    }

    fn start_service(&mut self, spec: &InstanceSpec) -> Result<(), StartError> {
        self.registry.start_service(spec.clone())
    }

    fn configure_service(&self, _fork: &u8, spec: &InstanceSpec, _parameters: &Vec<u8>) -> Result<(), StartError> {
        match self.registry.find_instance(spec.id) {
            Some(_) => Ok(()),
            None => Err(StartError::UnknownInstance),
        }
    }

    fn stop_service(&mut self, spec: &InstanceSpec) -> Result<(), StartError> {
        self.registry.stop_service(spec.id).map(|_| ())
    }

    fn execute(
        &self,
        context: &mut ExecutionContext<'_, u8>,
        call_info: CallInfo,
        payload: &[u8],
    ) -> Result<(), ExecutionError> {
        if payload.is_empty() {
            return Err(ExecutionError::Rejected { code: 1 });
        }
        context.dispatch_action(Action::StopService { id: call_info.instance_id });
        Ok(())
    }

    fn state_hashes(&self, _snapshot: &u8) -> Vec<(u32, Vec<exonum_core::runtime::Hash>)> {
        Vec::new()
    }

    fn before_commit(&self, _fork: &mut u8) {}

    fn after_commit(&self, _snapshot: &u8) {}
}

#[test]
fn runtime_deploys_once_and_queues_actions() {
    let mut engine = Engine { registry: ServiceRegistry::new(), deployments_run: 0 };
    let a = ArtifactId::new(RuntimeIdentifier::Rust, "timestamping");
    assert_eq!(engine.deploy_artifact(a.clone()), DeployStatus::Started);
    assert_eq!(engine.deploy_artifact(a.clone()), DeployStatus::AlreadyDeployed);
    assert_eq!(engine.deployments_run, 1);
    assert_eq!(engine.start_service(&spec(5, &a, "five")), Ok(()));
    assert_eq!(engine.configure_service(&0, &spec(5, &a, "five"), &Vec::new()), Ok(()));
    let fork = 0u8;
    let mut ctx = ExecutionContext::new(&fork, Caller::Blockchain);
    let call = CallInfo { instance_id: 5, method_id: 0 };
    assert!(engine.execute(&mut ctx, call, &[]).is_err());
    assert!(finish_call(&mut ctx, Err(ExecutionError::Rejected { code: 1 })).is_empty());
    assert!(engine.execute(&mut ctx, call, &[1]).is_ok());
    assert_eq!(finish_call(&mut ctx, Ok(())), vec![Action::StopService { id: 5 }]);
    assert_eq!(engine.stop_service(&spec(5, &a, "five")), Ok(()));
    assert_eq!(engine.stop_service(&spec(5, &a, "five")), Err(StartError::UnknownInstance));
}
