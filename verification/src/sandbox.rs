use crate::status::Failure;
use vstd::prelude::*;

verus! {

/// The engine's store, which holds what its instances have allocated.
#[verifier::external_type_specification]
#[verifier::external_body]
pub struct ExStore(wasmer::Store);

/// A module that the engine has compiled.
#[verifier::external_type_specification]
#[verifier::external_body]
pub struct ExModule(wasmer::Module);

/// The imports that a module is instantiated with.
#[verifier::external_type_specification]
#[verifier::external_body]
pub struct ExImports(wasmer::Imports);

/// Why the engine did not compile a module.
#[verifier::external_type_specification]
#[verifier::external_body]
pub struct ExCompileError(wasmer::CompileError);

/// Why the engine did not instantiate a module.
#[verifier::external_type_specification]
#[verifier::external_body]
pub struct ExInstantiationError(wasmer::InstantiationError);

/// Why an instance did not hand out an export.
#[verifier::external_type_specification]
#[verifier::external_body]
pub struct ExExportError(wasmer::ExportError);

/// Why a call into an instance did not return a value.
#[verifier::external_type_specification]
#[verifier::external_body]
pub struct ExRuntimeError(wasmer::RuntimeError);

/// An instance together with the store that holds it. The engine panics when
/// it is handed an instance with another store, so the two are kept as one
/// value that only the calls below make and take apart.
#[verifier::external_body]
struct Loaded {
    store: wasmer::Store,
    instance: wasmer::Instance,
}

/// A function from one `i32` to one `i32`, together with its instance and the
/// store that holds them, for the same reason.
#[verifier::external_body]
struct Entry {
    store: wasmer::Store,
    instance: wasmer::Instance,
    function: wasmer::TypedFunction<i32, i32>,
}

/// Calls `wasmer::Store::default`: a fresh store on the engine that the crate
/// was built with. Nothing is claimed of it.
#[verifier::external_body]
fn new_store() -> (store: wasmer::Store) {
    wasmer::Store::default()
}

/// Calls `wasmer::Imports::new`: an import object without entries. Nothing is
/// claimed of it.
#[verifier::external_body]
fn no_imports() -> (imports: wasmer::Imports) {
    wasmer::Imports::new()
}

/// Calls `wasmer::Module::from_binary`, which validates and compiles a module
/// in binary form. Nothing is claimed of which bytes it accepts.
#[verifier::external_body]
fn compile(store: &wasmer::Store, code: &[u8]) -> (r: Result<wasmer::Module, wasmer::CompileError>) {
    wasmer::Module::from_binary(store, code)
}

/// Calls `wasmer::Instance::new`, which links the module with the imports and
/// runs its start function, if it has one; a start function that runs forever
/// keeps the call from returning. The instance comes back with the store that
/// it was made in. Nothing is claimed of which modules it accepts.
#[verifier::external_body]
fn instantiate(
    store: wasmer::Store,
    module: &wasmer::Module,
    imports: &wasmer::Imports,
) -> (r: Result<Loaded, wasmer::InstantiationError>) {
    let mut store = store;
    match wasmer::Instance::new(&mut store, module, imports) {
        Ok(instance) => Ok(Loaded { store, instance }),
        Err(error) => Err(error),
    }
}

/// Calls `wasmer::Exports::get_typed_function` on the instance's exports, with
/// the instance's own store, for a function from one `i32` to one `i32`. It
/// fails where no export has the name and where the export is of another
/// type; nothing is claimed of which instances have it.
#[verifier::external_body]
fn typed_function(loaded: Loaded, name: &str) -> (r: Result<Entry, wasmer::ExportError>) {
    match loaded.instance.exports.get_typed_function(&loaded.store, name) {
        Ok(function) => Ok(Entry { store: loaded.store, instance: loaded.instance, function }),
        Err(error) => Err(error),
    }
}

/// Calls `wasmer::TypedFunction::call` with one argument, in the function's
/// own store. It returns when the module's function returns or traps: the
/// engine sets no limit of its own, so a function that runs forever keeps the
/// call from returning. Nothing is claimed of the value.
#[verifier::external_body]
fn call(entry: &mut Entry, argument: i32) -> (r: Result<i32, wasmer::RuntimeError>) {
    entry.function.call(&mut entry.store, argument)
}

/// What the sandbox made of a module.
#[derive(Clone, Copy, Debug, PartialEq, Eq, Structural)]
pub enum Outcome {
    /// The module could not be compiled or instantiated.
    Rejected,
    /// The module has no function of the entry's name and type.
    NoEntry,
    /// The entry function trapped.
    Trapped,
    /// The entry function returned this value.
    Returned(i32),
}

/// The argument that the entry function is called with.
pub const ENTRY_ARGUMENT: i32 = 42;

/// The name of the function that is called in a module.
pub fn entry_name() -> (name: &'static str)
    ensures
        name@ == "main"@,
{
    "main"
}

impl Outcome {
    /// The answer to the one who sent the module.
    pub open spec fn response(self) -> Result<i32, Failure> {
        match self {
            Outcome::Rejected => Err(Failure::InvalidCode),
            Outcome::NoEntry => Err(Failure::MissingEntry),
            Outcome::Trapped => Err(Failure::ExecutionError),
            Outcome::Returned(n) => Ok(n),
        }
    }

    /// The answer to the one who sent the module.
    pub fn respond(self) -> (r: Result<i32, Failure>)
        ensures
            r == self.response(),
    {
        match self {
            Outcome::Rejected => Err(Failure::InvalidCode),
            Outcome::NoEntry => Err(Failure::MissingEntry),
            Outcome::Trapped => Err(Failure::ExecutionError),
            Outcome::Returned(n) => Ok(n),
        }
    }
}

/// Runs `code` in the sandbox: instantiates it without imports, looks up the
/// entry function and calls it with the entry argument.
pub(crate) fn run(code: &[u8]) -> (outcome: Outcome) {
    let store = new_store();
    let module = match compile(&store, code) {
        Ok(module) => module,
        Err(_) => {
            return Outcome::Rejected;
        },
    };
    let imports = no_imports();
    let loaded = match instantiate(store, &module, &imports) {
        Ok(loaded) => loaded,
        Err(_) => {
            return Outcome::Rejected;
        },
    };
    let mut entry = match typed_function(loaded, entry_name()) {
        Ok(entry) => entry,
        Err(_) => {
            return Outcome::NoEntry;
        },
    };
    match call(&mut entry, ENTRY_ARGUMENT) {
        Ok(n) => Outcome::Returned(n),
        Err(_) => Outcome::Trapped,
    }
}

} // verus!
