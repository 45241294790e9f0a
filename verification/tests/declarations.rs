use wasm_link::interface::{HostCall, LinkError, Route};
use wasm_link::names::NameTable;
use wasm_link::plugin::{
    ListedExtern, ListedItem, component_export_effects, component_import_asyncness, export_effects,
    export_is_async, import_asyncness, unversioned,
};
use wasm_link::session::{LockIds, SessionShared, SessionStep, merge_locks, new_lock};
use wasm_link::{Function, FunctionKind, Interface, Plugin, Remap, ReturnKind};
use wasmtime::component::{Component, Linker, Val};
use wasmtime::{Config, Engine, Store};

fn freestanding() -> Function {
    Function::new(FunctionKind::Freestanding, ReturnKind::AssumeNoResources)
}

fn method() -> Function {
    Function::new(FunctionKind::Method, ReturnKind::Void)
}

fn flags(entries: &[(&str, bool)]) -> NameTable<bool> {
    NameTable::from_entries(entries.iter().map(|(name, flag)| (name.to_string(), *flag)).collect())
}

fn interface() -> Interface {
    Interface::new(
        vec![("get-value".to_string(), freestanding()), ("[method]r.m".to_string(), method())],
        vec!["r".to_string(), "r".to_string()],
    )
}

#[test]
fn functions_keep_what_they_were_declared_as() {
    assert_eq!(method().kind(), FunctionKind::Method);
    assert_eq!(method().return_kind(), ReturnKind::Void);
    assert_eq!(freestanding().kind(), FunctionKind::Freestanding);
    assert_eq!(freestanding().return_kind(), ReturnKind::AssumeNoResources);
    assert_eq!(ReturnKind::default(), ReturnKind::Void);
    assert_eq!(ReturnKind::Void.message(), "Function returns no data");
    assert_eq!(ReturnKind::MayContainResources.message(), "Return type may contain resources");
    assert_eq!(
        ReturnKind::AssumeNoResources.message(),
        "Function is assumed to not return any resources",
    );
}

#[test]
fn interface_knows_its_functions() {
    let interface = interface();
    assert_eq!(interface.function("get-value"), Some(&freestanding()));
    assert_eq!(interface.function("missing"), None);
    assert_eq!(interface.function_names(), ["get-value", "[method]r.m"]);
    assert!(Interface::default().function_names().is_empty());
    let replaced = Interface::new(
        vec![("f".to_string(), freestanding()), ("f".to_string(), method())],
        Vec::new(),
    );
    assert_eq!(replaced.function("f"), Some(&method()));
    assert_eq!(replaced.function_names(), ["f"]);
}

#[test]
fn synchronous_linking_blocks() {
    let plan = interface().add_to_linker();
    assert!(plan.refusal.is_none());
    assert_eq!(plan.resources, ["r"]);
    let steps = plan.steps.iter().map(|step| (step.name.as_str(), step.call, step.route));
    assert_eq!(
        steps.collect::<Vec<_>>(),
        [
            ("get-value", HostCall::Blocking, Route::All),
            ("[method]r.m", HostCall::Blocking, Route::Owner),
        ],
    );
}

#[test]
fn asynchronous_linking_follows_the_import() {
    let imports = flags(&[("get-value", true), ("[method]r.m", false)]);
    let plan = interface().add_to_linker_async(Some(&imports));
    assert!(plan.refusal.is_none());
    assert_eq!(plan.resources, ["r"]);
    let steps = plan.steps.iter().map(|step| (step.call, step.route)).collect::<Vec<_>>();
    assert_eq!(
        steps,
        [(HostCall::Concurrent, Route::All), (HostCall::Suspending, Route::Owner)],
    );
    let unknown = interface().add_to_linker_async(None);
    assert!(unknown.steps.iter().all(|step| step.call == HostCall::Suspending));
}

const CHILD_COMPONENT: &str = r#"
(component
  (core func $return (canon task.return (result u32)))
  (core module $m
    (import "" "return" (func $return (param i32)))
    (func (export "get") (result i32) (call $return (i32.const 42)) (i32.const 0))
    (func (export "callback") (param i32 i32 i32) (result i32) unreachable))
  (core instance $i (instantiate $m (with "" (instance (export "return" (func $return))))))
  (func $get async (result u32)
    (canon lift (core func $i "get") async (callback (core func $i "callback"))))
  (instance $root (export "get-value" (func $get)))
  (export "test:child/root" (instance $root)))
"#;

const SYNC_IMPORT_COMPONENT: &str = r#"
(component
  (import "test:child/root" (instance $child (export "get-value" (func (result u32)))))
  (core func $get (canon lower (func $child "get-value")))
  (core module $m
    (import "" "get" (func $get (result i32)))
    (func (export "get") (result i32) (call $get)))
  (core instance $i (instantiate $m (with "" (instance (export "get" (func $get))))))
  (func $primitive (result u32) (canon lift (core func $i "get")))
  (instance $root (export "get-primitive" (func $primitive)))
  (export "test:startup/root" (instance $root)))
"#;

#[test]
fn sync_import_accepts_an_async_export() -> Result<(), Box<dyn std::error::Error>> {
    futures::executor::block_on(async {
        let mut config = Config::new();
        config.wasm_component_model_implements(true);
        config.wasm_component_model_async(true);
        let engine = Engine::new(&config)?;
        let child = Component::new(&engine, CHILD_COMPONENT)?;
        let mut store = Store::new(&engine, ());
        let _ = Linker::new(&engine).instantiate_async(&mut store, &child).await?;
        assert!(export_is_async(&component_export_effects(&child), "test:child/root", "get-value"));

        let startup = Component::new(&engine, SYNC_IMPORT_COMPONENT)?;
        let imports = component_import_asyncness(&startup);
        let metadata = imports.get("test:child/root").ok_or("an import was lost")?;
        assert_eq!(metadata.functions.get("get-value"), Some(&false));
        let interface = Interface::new(vec![("get-value".to_string(), freestanding())], Vec::new());
        let plan = interface.add_to_linker_async(Some(&metadata.functions));
        assert!(plan.refusal.is_none());
        let mut linker = Linker::new(&engine);
        let mut root = linker.root();
        let mut instance = root.instance(&metadata.linker_name)?;
        for step in &plan.steps {
            assert_eq!((step.call, step.route), (HostCall::Suspending, Route::All));
            instance.func_new_async(&step.name, |_, _, _, results| {
                Box::new(async move {
                    results[0] = Val::U32(42);
                    Ok(())
                })
            })?;
        }
        let mut store = Store::new(&engine, ());
        let _ = linker.instantiate_async(&mut store, &startup).await?;
        Ok(())
    })
}

#[test]
fn synchronous_import_of_an_asynchronous_export_suspends() {
    let imports = flags(&[("get-value", false)]);
    let plan = interface().add_to_linker_async(Some(&imports));
    assert!(plan.refusal.is_none());
    assert_eq!(plan.steps[0].call, HostCall::Suspending);
}

#[test]
fn synchronous_plugins_can_be_linked_asynchronously() {
    let imports = flags(&[("get-value", true)]);
    let exports = flags(&[("get-value", false)]);
    let plan = interface().add_to_linker_async_sync("child", &exports, Some(&imports));
    assert!(plan.refusal.is_none());
    assert_eq!(plan.resources, ["r"]);
    let calls = plan.steps.iter().map(|step| step.call).collect::<Vec<_>>();
    assert_eq!(calls, [HostCall::Concurrent, HostCall::Suspending]);
}

#[test]
fn sync_instance_with_an_async_export_is_rejected_by_exact_name() {
    let exports = flags(&[("get-value", true)]);
    let plan = interface().add_to_linker_async_sync("child", &exports, None);
    assert!(plan.steps.is_empty());
    assert!(plan.resources.is_empty());
    let Some(error) = plan.refusal else { panic!("an async export was linked synchronously") };
    assert_eq!(
        error.message(),
        "synchronously instantiated plugin exposes async export `child.get-value`",
    );
}

#[test]
fn functions_before_an_async_export_are_still_offered() {
    let exports = flags(&[("[method]r.m", true)]);
    let plan = interface().add_to_linker_async_sync("child", &exports, None);
    assert_eq!(plan.steps.len(), 1);
    assert!(matches!(
        plan.refusal,
        Some(LinkError::SyncInstanceAsyncExport { interface, function })
            if interface == "child" && function == "[method]r.m"
    ));
}

#[test]
fn tables_keep_the_last_value_in_the_first_place() {
    let mut table = flags(&[("a", true), ("b", false), ("a", false)]);
    assert_eq!(table.names(), ["a", "b"]);
    assert_eq!(table.get("a"), Some(&false));
    table.insert("c".to_string(), true);
    assert_eq!(table.len(), 3);
    assert_eq!(table.entry(2), (&"c".to_string(), &true));
    assert_eq!(table.get("d"), None);
}

#[test]
fn remaps_lead_from_requested_to_exported_names() {
    let remap = Remap::found_as("legacy-root")
        .with_items(vec![("get".to_string(), "fetch".to_string())]);
    assert_eq!(remap.interface_name("root"), "legacy-root");
    assert_eq!(remap.item_name("get"), "fetch");
    assert_eq!(remap.item_name("put"), "put");
    let same = Remap::default();
    assert_eq!(same.interface_name("root"), "root");
    assert_eq!(same.item_name("get"), "get");
}

#[test]
fn versions_are_cut_off() {
    assert_eq!(unversioned("test:child/root@0.2.0"), "test:child/root");
    assert_eq!(unversioned("test:child/root"), "test:child/root");
    assert_eq!(unversioned("a@b@c"), "a");
    assert_eq!(unversioned("@1.0.0"), "");
    assert_eq!(unversioned(""), "");
    assert_eq!(unversioned("\u{e9}t\u{e9}@1"), "\u{e9}t\u{e9}");
}

fn listed(name: &str, implements: Option<&str>, items: Option<&[(&str, Option<bool>)]>) -> ListedExtern {
    ListedExtern {
        name: name.to_string(),
        implements: implements.map(str::to_string),
        items: items.map(|items| {
            items
                .iter()
                .map(|(name, is_async)| ListedItem { name: name.to_string(), is_async: *is_async })
                .collect()
        }),
    }
}

#[test]
fn effects_count_functions_of_instances() {
    let listing = vec![
        listed("run", None, None),
        listed("test:a/x@1.0.0", None, Some(&[("f", Some(true)), ("t", None), ("g", Some(false))])),
        listed("child", Some("test:b/y@2.0.0"), Some(&[("h", Some(true))])),
        listed("test:a/x@2.0.0", None, Some(&[("f", Some(false))])),
    ];
    let effects = export_effects(&listing);
    assert_eq!(effects.names(), ["test:a/x", "test:b/y"]);
    assert!(!export_is_async(&effects, "test:a/x", "f"));
    assert!(!export_is_async(&effects, "test:a/x", "g"));
    assert!(export_is_async(&effects, "test:b/y", "h"));
    assert!(!export_is_async(&effects, "child", "h"));
    let imports = import_asyncness(&listing);
    assert_eq!(imports.names(), ["test:a/x", "test:b/y"]);
    let Some(metadata) = imports.get("test:b/y") else { panic!("an import was lost") };
    assert_eq!(metadata.linker_name, "child");
    assert_eq!(metadata.functions.get("h"), Some(&true));
    let Some(metadata) = imports.get("test:a/x") else { panic!("an import was lost") };
    assert_eq!(metadata.linker_name, "test:a/x@2.0.0");
    assert_eq!(metadata.functions.names(), ["f"]);
}

const LISTED_COMPONENT: &str = r#"
(component
  (import "test:dep/root@0.3.0" (instance
    (export "wait" (func async (result u32)))
    (export "now" (func (result u32)))
    (type $stamp u32)
    (export "stamp" (type (eq $stamp)))))
  (core module $m (func (export "get") (result i32) i32.const 42))
  (core instance $i (instantiate $m))
  (func $get (result u32) (canon lift (core func $i "get")))
  (type $number u32)
  (instance $root
    (export "get-value" (func $get))
    (export "number" (type $number)))
  (export "test:plugin/root@0.1.0" (instance $root))
  (export "bare" (func $get)))
"#;

#[test]
fn components_tell_what_they_export_and_import() -> Result<(), wasmtime::Error> {
    let mut config = Config::new();
    config.wasm_component_model_async(true);
    let engine = Engine::new(&config)?;
    let component = Component::new(&engine, LISTED_COMPONENT)?;
    let effects = component_export_effects(&component);
    assert_eq!(effects.names(), ["test:plugin/root"]);
    let Some(functions) = effects.get("test:plugin/root") else { panic!("an export was lost") };
    assert_eq!(functions.names(), ["get-value"]);
    assert!(!export_is_async(&effects, "test:plugin/root", "get-value"));
    let imports = component_import_asyncness(&component);
    assert_eq!(imports.names(), ["test:dep/root"]);
    let Some(metadata) = imports.get("test:dep/root") else { panic!("an import was lost") };
    assert_eq!(metadata.linker_name, "test:dep/root@0.3.0");
    assert_eq!(metadata.functions.names(), ["wait", "now"]);
    assert_eq!(metadata.functions.get("wait"), Some(&true));
    assert_eq!(metadata.functions.get("now"), Some(&false));
    Ok(())
}

#[test]
fn plugins_collect_their_settings() {
    let plugin: Plugin<&str, u8, &str, &str> = Plugin::new("component", 7);
    assert_eq!((plugin.component, plugin.context), ("component", 7));
    assert!(plugin.initial_fuel.is_none() && plugin.memory_limiter.is_none());
    assert!(plugin.fuel_limiter.is_none() && plugin.epoch_limiter.is_none());
    assert_eq!(plugin.interface_remaps.len(), 0);
    let plugin = plugin
        .with_initial_fuel(100_000)
        .with_fuel_limiter("fuel")
        .with_epoch_limiter("epoch")
        .with_memory_limiter("memory")
        .remap_interfaces(vec![("root".to_string(), Remap::found_as("legacy-root"))]);
    assert_eq!(plugin.initial_fuel, Some(100_000));
    assert_eq!(plugin.fuel_limiter, Some("fuel"));
    assert_eq!(plugin.epoch_limiter, Some("epoch"));
    assert_eq!(plugin.memory_limiter, Some("memory"));
    let remap = plugin.interface_remaps.get("root").map(|remap| remap.interface_name("root"));
    assert_eq!(remap, Some("legacy-root"));
}

#[test]
fn locks_are_merged_in_the_order_of_their_numbers() {
    let mut ids = LockIds::new();
    let locks = (0..4).map(|name| new_lock(&mut ids, name)).collect::<Vec<_>>();
    assert_eq!(locks.iter().map(|lock| lock.id).collect::<Vec<_>>(), [1, 2, 3, 4]);
    let mut mixed = Vec::new();
    for i in [2, 0, 2, 3, 0] {
        mixed.push(wasm_link::session::SessionLock { id: locks[i].id, mutex: locks[i].mutex });
    }
    let merged = merge_locks(mixed);
    assert_eq!(merged.iter().map(|lock| (lock.id, lock.mutex)).collect::<Vec<_>>(), [(1, 0), (3, 2), (4, 3)]);
}

#[test]
fn session_takes_up_its_tasks() {
    let mut shared = SessionShared::new();
    shared.spawn("a");
    shared.spawn("b");
    assert_eq!(shared.take_pending(), ["a", "b"]);
    assert!(shared.take_pending().is_empty());
}

#[test]
fn session_polls_its_root_around_its_tasks() {
    assert_eq!(SessionStep::Root.root_polled(true), SessionStep::Done { ready: true });
    let step = SessionStep::Root.root_polled(false);
    assert_eq!(step, SessionStep::Tasks);
    assert_eq!(step.tasks_polled(true), SessionStep::Tasks);
    let step = step.tasks_polled(false);
    assert_eq!(step, SessionStep::RootAgain);
    assert_eq!(step.root_polled(false), SessionStep::Done { ready: false });
    assert_eq!(step.root_polled(true), SessionStep::Done { ready: true });
}
