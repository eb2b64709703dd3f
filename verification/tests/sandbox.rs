use fs_server::sandbox::{entry_name, Outcome, ENTRY_ARGUMENT};
use fs_server::status::Failure;
use fs_server::FileSystemImpl;

const HEADER: [u8; 8] = [0x00, 0x61, 0x73, 0x6d, 0x01, 0x00, 0x00, 0x00];

/// A module with one function, of the type given by `params` and exported
/// under `name`, whose body is `body`.
fn module(name: &str, params: &[u8], body: &[u8]) -> Vec<u8> {
    let mut code = HEADER.to_vec();
    let mut types = vec![0x01, 0x60, params.len() as u8];
    types.extend_from_slice(params);
    types.extend_from_slice(&[0x01, 0x7f]);
    code.push(0x01);
    code.push(types.len() as u8);
    code.extend_from_slice(&types);
    code.extend_from_slice(&[0x03, 0x02, 0x01, 0x00]);
    let mut exports = vec![0x01, name.len() as u8];
    exports.extend_from_slice(name.as_bytes());
    exports.extend_from_slice(&[0x00, 0x00]);
    code.push(0x07);
    code.push(exports.len() as u8);
    code.extend_from_slice(&exports);
    let mut function = vec![0x00];
    function.extend_from_slice(body);
    function.push(0x0b);
    code.push(0x0a);
    code.push(function.len() as u8 + 2);
    code.push(0x01);
    code.push(function.len() as u8);
    code.extend_from_slice(&function);
    code
}

#[test]
fn entry_is_main_called_with_42() {
    assert_eq!(entry_name(), "main");
    assert_eq!(ENTRY_ARGUMENT, 42);
}

#[test]
fn respond_maps_each_outcome() {
    assert_eq!(Outcome::Rejected.respond(), Err(Failure::InvalidCode));
    assert_eq!(Outcome::NoEntry.respond(), Err(Failure::MissingEntry));
    assert_eq!(Outcome::Trapped.respond(), Err(Failure::ExecutionError));
    assert_eq!(Outcome::Returned(7).respond(), Ok(7));
    assert_eq!(Outcome::Returned(-1).respond(), Ok(-1));
}

#[test]
fn exec_returns_what_the_entry_computes() {
    // local.get 0; i32.const 1; i32.add
    let add_one = module("main", &[0x7f], &[0x20, 0x00, 0x41, 0x01, 0x6a]);
    assert_eq!(FileSystemImpl::exec(&add_one), Ok(43));
    // local.get 0; local.get 0; i32.mul
    let square = module("main", &[0x7f], &[0x20, 0x00, 0x20, 0x00, 0x6c]);
    assert_eq!(FileSystemImpl::exec(&square), Ok(1764));
    // i32.const 0; local.get 0; i32.sub
    let negate = module("main", &[0x7f], &[0x41, 0x00, 0x20, 0x00, 0x6b]);
    assert_eq!(FileSystemImpl::exec(&negate), Ok(-42));
}

#[test]
fn exec_of_bytes_that_are_no_module_is_invalid() {
    assert_eq!(FileSystemImpl::exec(b"no module"), Err(Failure::InvalidCode));
    assert_eq!(FileSystemImpl::exec(&[]), Err(Failure::InvalidCode));
    assert_eq!(FileSystemImpl::exec(b"(module)"), Err(Failure::InvalidCode));
    let mut cut = module("main", &[0x7f], &[0x20, 0x00]);
    cut.truncate(cut.len() - 3);
    assert_eq!(FileSystemImpl::exec(&cut), Err(Failure::InvalidCode));
}

#[test]
fn exec_of_a_module_that_does_not_type_check_is_invalid() {
    // i32.add on an empty stack
    let broken = module("main", &[0x7f], &[0x6a]);
    assert_eq!(FileSystemImpl::exec(&broken), Err(Failure::InvalidCode));
}

#[test]
fn exec_without_the_entry_function_is_rejected() {
    assert_eq!(FileSystemImpl::exec(&HEADER), Err(Failure::MissingEntry));
    let other = module("start", &[0x7f], &[0x20, 0x00]);
    assert_eq!(FileSystemImpl::exec(&other), Err(Failure::MissingEntry));
}

#[test]
fn exec_with_an_entry_of_another_type_is_rejected() {
    // i32.const 7, in a function without parameters
    let no_parameter = module("main", &[], &[0x41, 0x07]);
    assert_eq!(FileSystemImpl::exec(&no_parameter), Err(Failure::MissingEntry));
}

#[test]
fn exec_of_a_trapping_entry_fails() {
    // unreachable
    let trap = module("main", &[0x7f], &[0x00]);
    assert_eq!(FileSystemImpl::exec(&trap), Err(Failure::ExecutionError));
    // local.get 0; i32.const 0; i32.div_s
    let divide = module("main", &[0x7f], &[0x20, 0x00, 0x41, 0x00, 0x6d]);
    assert_eq!(FileSystemImpl::exec(&divide), Err(Failure::ExecutionError));
}
