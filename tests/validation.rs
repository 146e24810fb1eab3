use cennznut::v0::contract::Contract;
use cennznut::v0::method::Method;
use cennznut::v0::module::Module;
use cennznut::{
    decide_constraints, CENNZnut, CENNZnutV0, ContractAddress, ContractDomain, Interpretation,
    MethodName, ModuleName, RuntimeDomain, ValidationErr, WILDCARD,
};

/// Constraint bytes; the interpreter stand-ins below decide on them.
const CONSTRAINTS: [u8; 5] = [192, 0, 128, 1, 1];

fn make_methods(method: &Method) -> Vec<(MethodName, Method)> {
    let mut methods = Vec::<(MethodName, Method)>::default();
    methods.push((method.name.clone(), method.clone()));
    methods
}

fn make_modules(module: &Module) -> Vec<(ModuleName, Module)> {
    let mut modules = Vec::<(ModuleName, Module)>::default();
    modules.push((module.name.clone(), module.clone()));
    modules
}

fn make_contracts(contract: &Contract) -> Vec<(ContractAddress, Contract)> {
    let mut contracts = Vec::<(ContractAddress, Contract)>::default();
    contracts.push((contract.address, contract.clone()));
    contracts
}

fn never_called(_: &[u8]) -> Interpretation {
    panic!("no constraints to interpret")
}

fn constrained_token() -> (CENNZnutV0, Module, Method) {
    let method = Method::new("method_test")
        .block_cooldown(123)
        .constraints(CONSTRAINTS.to_vec());
    let methods = make_methods(&method);

    let module = Module::new("module_test")
        .block_cooldown(86_400)
        .methods(methods);
    let modules = make_modules(&module);

    let contracts = Vec::<(ContractAddress, Contract)>::default();

    (CENNZnutV0 { modules, contracts }, module, method)
}

#[test]
fn it_validates_v0_module() {
    let method = Method::new("*");
    let methods = make_methods(&method);
    let module = Module::new("module_test").methods(methods);
    let modules = make_modules(&module);

    let contracts = Vec::<(ContractAddress, Contract)>::default();

    let cennznut = CENNZnut::V0(CENNZnutV0 { modules, contracts });

    assert_eq!(
        cennznut.validate_runtime_call(&module.name, &method.name, never_called),
        Ok(())
    );
}

#[test]
fn it_validates_v0_contracts() {
    let modules = Vec::<(ModuleName, Module)>::default();

    let contract = Contract::new(&[0x12_u8; 32]);
    let contracts = make_contracts(&contract);

    let cennznut = CENNZnut::V0(CENNZnutV0 { modules, contracts });

    assert_eq!(cennznut.validate_contract_call(&contract.address), Ok(()));
}

#[test]
fn it_validates_modules() {
    let (cennznut, module, method) = constrained_token();
    let accepts = |c: &[u8]| {
        assert_eq!(c, &CONSTRAINTS[..]);
        Interpretation::Verdict(true)
    };

    assert_eq!(
        cennznut.validate_module(&module.name, &method.name, accepts),
        Ok(())
    );
    assert_eq!(
        cennznut.validate_module("module_test2", &method.name, accepts),
        Err(ValidationErr::NoPermission(RuntimeDomain::Module))
    );
    assert_eq!(
        cennznut.validate_module(&module.name, "method_test2", accepts),
        Err(ValidationErr::NoPermission(RuntimeDomain::Method))
    );
}

#[test]
fn it_validates_contracts() {
    let modules = Vec::<(ModuleName, Module)>::default();

    let contract = Contract::new(&[0x12_u8; 32]);
    let contracts = make_contracts(&contract);

    let cennznut = CENNZnutV0 { modules, contracts };

    assert_eq!(cennznut.validate_contract(contract.address), Ok(()));
}

#[test]
fn it_invalidates_missing_contract() {
    let modules = Vec::<(ModuleName, Module)>::default();

    let contract = Contract::new(&[0x12_u8; 32]);
    let contracts = make_contracts(&contract);

    let cennznut = CENNZnutV0 { modules, contracts };

    assert_eq!(
        cennznut.validate_contract([0x34_u8; 32]),
        Err(ValidationErr::NoPermission(ContractDomain::Contract))
    );
}

#[test]
fn it_validates_wildcard_contract() {
    let modules = Vec::<(ModuleName, Module)>::default();

    let contract = Contract::wildcard();
    let contracts = make_contracts(&contract);

    let cennznut = CENNZnutV0 { modules, contracts };

    assert_eq!(cennznut.validate_contract(contract.address), Ok(()));
}

#[test]
fn it_validate_modules_error_with_bad_bytecode() {
    let (cennznut, module, method) = constrained_token();

    assert_eq!(
        cennznut.validate_module(&module.name, &method.name, |_: &[u8]| Interpretation::Failed),
        Err(ValidationErr::ConstraintsInterpretation)
    );
}

#[test]
fn it_validate_modules_error_with_false_constraints() {
    let (cennznut, module, method) = constrained_token();

    assert_eq!(
        cennznut.validate_module(&module.name, &method.name, |_: &[u8]| {
            Interpretation::Verdict(false)
        }),
        Err(ValidationErr::NoPermission(RuntimeDomain::MethodArguments))
    );
}

#[test]
fn it_validate_modules_with_empty_constraints() {
    let method = Method::new("method_test").block_cooldown(123);
    let methods = make_methods(&method);

    let module = Module::new("module_test")
        .block_cooldown(86_400)
        .methods(methods);
    let modules = make_modules(&module);

    let contracts = Vec::<(ContractAddress, Contract)>::default();

    let cennznut = CENNZnutV0 { modules, contracts };

    assert_eq!(
        cennznut.validate_module(&module.name, &method.name, never_called),
        Ok(())
    );
}

#[test]
fn unreadable_constraints_refuse_the_call() {
    let (cennznut, module, method) = constrained_token();

    assert_eq!(
        cennznut.validate_module(&module.name, &method.name, |_: &[u8]| {
            Interpretation::Unreadable
        }),
        Err(ValidationErr::ConstraintsInterpretation)
    );
}

#[test]
fn interpreter_receives_the_grants_constraint_bytes() {
    let (cennznut, module, method) = constrained_token();
    let seen = std::cell::RefCell::new(Vec::<Vec<u8>>::new());

    let result = cennznut.validate_module(&module.name, &method.name, |program: &[u8]| {
        seen.borrow_mut().push(program.to_vec());
        Interpretation::Verdict(true)
    });

    assert_eq!(result, Ok(()));
    assert_eq!(seen.into_inner(), vec![CONSTRAINTS.to_vec()]);
}

#[test]
fn wildcard_method_hands_its_own_program_to_the_interpreter() {
    let wild = Method::new(WILDCARD).constraints(vec![9, 9]);
    let exact = Method::new("exact").constraints(vec![1]);
    let module = Module::new("m").methods(vec![
        (wild.name.clone(), wild),
        (exact.name.clone(), exact),
    ]);
    let cennznut = CENNZnutV0 { modules: make_modules(&module), contracts: vec![] };
    let seen = std::cell::RefCell::new(Vec::<Vec<u8>>::new());

    let result = cennznut.validate_module("m", "other", |program: &[u8]| {
        seen.borrow_mut().push(program.to_vec());
        Interpretation::Verdict(false)
    });

    assert_eq!(result, Err(ValidationErr::NoPermission(RuntimeDomain::MethodArguments)));
    assert_eq!(seen.into_inner(), vec![vec![9, 9]]);
}

#[test]
fn wildcard_method_validate_modules() {
    let method = Method::new(WILDCARD).block_cooldown(123);
    let methods = make_methods(&method);

    let module = Module::new("module_test")
        .block_cooldown(1)
        .methods(methods);
    let modules = make_modules(&module);

    let contracts = Vec::<(ContractAddress, Contract)>::default();

    let cennznut = CENNZnutV0 { modules, contracts };

    assert_eq!(
        cennznut.validate_module(&module.name, "my_unregistered_method", never_called),
        Ok(())
    );
}

#[test]
fn wildcard_module_validate_modules() {
    let method = Method::new("registered_method").block_cooldown(123);
    let methods = make_methods(&method);

    let module = Module::new(WILDCARD).block_cooldown(1).methods(methods);
    let modules = make_modules(&module);

    let contracts = Vec::<(ContractAddress, Contract)>::default();

    let cennznut = CENNZnutV0 { modules, contracts };

    assert_eq!(
        cennznut.validate_module("my_unregistered_module", "registered_method", never_called),
        Ok(())
    );
}

#[test]
fn wildcard_module_wildcard_method_validate_modules() {
    let method = Method::new(WILDCARD).block_cooldown(123);
    let methods = make_methods(&method);

    let module = Module::new(WILDCARD).block_cooldown(1).methods(methods);
    let modules = make_modules(&module);

    let contracts = Vec::<(ContractAddress, Contract)>::default();

    let cennznut = CENNZnutV0 { modules, contracts };

    assert_eq!(
        cennznut.validate_module(
            "my_unregistered_module",
            "my_unregistered_method",
            never_called
        ),
        Ok(())
    );
}

#[test]
fn unregistered_module_fails_validation() {
    let method = Method::new("registered_method").block_cooldown(123);
    let methods = make_methods(&method);

    let module = Module::new("registered_module")
        .block_cooldown(1)
        .methods(methods);
    let modules = make_modules(&module);

    let contracts = Vec::<(ContractAddress, Contract)>::default();

    let cennznut = CENNZnutV0 { modules, contracts };

    assert_eq!(
        cennznut.validate_module("my_unregistered_module", "registered_method", never_called),
        Err(ValidationErr::NoPermission(RuntimeDomain::Module))
    );
}

#[test]
fn unregistered_method_fails_validation() {
    let method = Method::new("registered_method").block_cooldown(123);
    let methods = make_methods(&method);

    let module = Module::new("registered_module")
        .block_cooldown(1)
        .methods(methods);
    let modules = make_modules(&module);

    let contracts = Vec::<(ContractAddress, Contract)>::default();

    let cennznut = CENNZnutV0 { modules, contracts };

    assert_eq!(
        cennznut.validate_module("registered_module", "my_unregistered_method", never_called),
        Err(ValidationErr::NoPermission(RuntimeDomain::Method))
    );
}

#[test]
fn constraint_decisions_cover_every_answer() {
    assert_eq!(decide_constraints(Interpretation::Verdict(true)), Ok(()));
    assert_eq!(
        decide_constraints(Interpretation::Unreadable),
        Err(ValidationErr::ConstraintsInterpretation)
    );
    assert_eq!(
        decide_constraints(Interpretation::Verdict(false)),
        Err(ValidationErr::NoPermission(RuntimeDomain::MethodArguments))
    );
    assert_eq!(
        decide_constraints(Interpretation::Failed),
        Err(ValidationErr::ConstraintsInterpretation)
    );
}

#[test]
fn domains_describe_themselves() {
    assert_eq!(RuntimeDomain::Method.describe(), "method");
    assert_eq!(RuntimeDomain::MethodArguments.describe(), "method arguments");
    assert_eq!(RuntimeDomain::Module.describe(), "module");
    assert_eq!(ContractDomain::Contract.describe(), "contract");
}

#[test]
fn refusals_describe_themselves() {
    assert_eq!(
        ValidationErr::NoPermission(RuntimeDomain::MethodArguments).describe(),
        "CENNZnut does not grant permission for method arguments"
    );
    assert_eq!(
        ValidationErr::<RuntimeDomain>::ConstraintsInterpretation.describe(),
        "error while interpreting constraints"
    );
    assert_eq!(
        ValidationErr::NoPermission(ContractDomain::Contract).describe(),
        "CENNZnut does not grant permission for contract"
    );
}
