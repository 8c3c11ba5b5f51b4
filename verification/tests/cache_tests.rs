use nebula::cache::{
    content_hash, content_hash_hex, l2_name, module_size, Cache, LoadAction, LoadEvent, LoadStage,
    Loading, Lookup, Probe, Source, Sweep, DEFAULT_L1_BYTES, DEFAULT_L2_BYTES,
};
use std::collections::HashMap;
use std::rc::Rc;

/// A module that was loaded or compiled, and by which of the two.
struct Module {
    source: Source,
}

/// The directory of the disk cache: by name, when a file was last used, its
/// size, and whether it loads.
struct Disk {
    files: HashMap<String, (i128, u64, bool)>,
    now: i128,
    /// What a compiled module takes.
    size: u64,
}

impl Disk {
    fn new(size: u64) -> Self {
        Disk {
            files: HashMap::new(),
            now: 0,
            size,
        }
    }

    fn bytes(&self) -> u64 {
        self.files.values().map(|(_, size, _)| size).sum()
    }
}

type Modules = Cache<Rc<Module>>;

fn sweep(cache: &Modules, disk: &mut Disk) -> u64 {
    let names: Vec<String> = disk.files.keys().cloned().collect();
    let files = names
        .iter()
        .map(|name| (disk.files[name].0, disk.files[name].1))
        .collect();
    let mut sweep = Sweep::new(files, cache.l2_budget());
    while let Some(at) = sweep.next() {
        sweep.settle(disk.files.remove(&names[at]).is_some());
    }
    sweep.removed()
}

/// What the caller does that was told to build.
fn build(cache: &mut Modules, disk: &mut Disk, wasm: &[u8], hash: nebula::cache::Hash) -> Rc<Module> {
    let name = l2_name(&hash, 7);
    disk.now += 1;
    let (mut loading, mut action) = Loading::begin(wasm.len());
    loop {
        let event = match action {
            LoadAction::Probe => LoadEvent::Probed(match disk.files.get(&name) {
                None => Probe::Absent,
                Some((_, _, true)) => Probe::Loaded,
                Some((_, _, false)) => Probe::Stale,
            }),
            LoadAction::Touch => {
                disk.files.get_mut(&name).unwrap().0 = disk.now;
                LoadEvent::Touched
            }
            LoadAction::Discard => {
                disk.files.remove(&name);
                LoadEvent::Discarded
            }
            LoadAction::Compile => LoadEvent::Compiled(true),
            LoadAction::Write => {
                disk.files.insert(name.clone(), (disk.now, disk.size, true));
                LoadEvent::Written(true)
            }
            LoadAction::Sweep => LoadEvent::Swept(sweep(cache, disk)),
            LoadAction::Measure => {
                LoadEvent::Measured(disk.files.get(&name).map(|(_, size, _)| *size))
            }
            LoadAction::GiveUp => panic!("every guest here compiles"),
            LoadAction::Keep { source, size } => {
                let module = Rc::new(Module { source });
                cache.built(hash, module.clone(), size);
                return module;
            }
        };
        (loading, action) = cache.load_or_compile(loading, event);
    }
}

fn get_or_compile(cache: &mut Modules, disk: &mut Disk, wasm: &[u8]) -> Rc<Module> {
    let (hash, found) = cache.get_or_compile(wasm);
    match found {
        Lookup::Hit(module) => module,
        Lookup::Build => build(cache, disk, wasm, hash),
        Lookup::Wait => panic!("nobody else is at it"),
    }
}

/// A distinct trivial module per `n`.
fn guest(n: u32) -> String {
    format!(r#"(module (func (export "run") (drop (i32.const {n}))))"#)
}

#[test]
fn single_flight_compiles_once_under_concurrency() {
    let mut cache = Modules::new();
    let mut disk = Disk::new(100);
    let wasm = guest(1).into_bytes();

    // 32 callers race for the same uncompiled hash. Exactly one may compile;
    // the rest wait and then find the finished module.
    let mut builders: Vec<nebula::cache::Hash> = Vec::new();
    let mut waiting = 0;
    for _ in 0..32 {
        let (hash, found) = cache.get_or_compile(&wasm);
        match found {
            Lookup::Build => builders.push(hash),
            Lookup::Wait => waiting += 1,
            Lookup::Hit(_) => panic!("nothing is compiled yet"),
        }
    }
    assert_eq!(builders.len(), 1);
    assert_eq!(waiting, 31);

    let mut modules = vec![build(&mut cache, &mut disk, &wasm, builders[0])];
    for _ in 0..waiting {
        match cache.get_or_compile(&wasm).1 {
            Lookup::Hit(module) => modules.push(module),
            _ => panic!("the module is there"),
        }
    }

    assert_eq!(
        cache.cranelift_compiles(),
        1,
        "32 concurrent first-requests must compile the module exactly once"
    );
    assert_eq!(cache.l1_len(), 1);
    assert_eq!(modules.len(), 32);
    for module in &modules {
        assert!(
            Rc::ptr_eq(module, &modules[0]),
            "every caller must receive the same cached module, not a copy"
        );
    }
    // 32 callers, one compile, so the other 31 were served from L1.
    assert_eq!(cache.l1_hits(), 31);
}

#[test]
fn single_flight_still_compiles_distinct_modules_in_parallel() {
    // Guards against "single-flight" degenerating into one global compile lock.
    let mut cache = Modules::new();
    let mut disk = Disk::new(100);
    let sources: Vec<Vec<u8>> = (0..8).map(|n| guest(500 + n).into_bytes()).collect();

    let hashes: Vec<nebula::cache::Hash> = sources
        .iter()
        .map(|wasm| {
            let (hash, found) = cache.get_or_compile(wasm);
            assert!(matches!(found, Lookup::Build));
            hash
        })
        .collect();
    for (wasm, hash) in sources.iter().zip(hashes) {
        build(&mut cache, &mut disk, wasm, hash);
    }

    assert_eq!(cache.cranelift_compiles(), 8);
    assert_eq!(cache.l1_len(), 8);
}

#[test]
fn a_failed_compile_lets_the_next_caller_try() {
    let mut cache = Modules::new();
    let mut disk = Disk::new(100);
    let wasm = guest(2).into_bytes();
    let (hash, found) = cache.get_or_compile(&wasm);
    assert!(matches!(found, Lookup::Build));
    assert!(matches!(cache.get_or_compile(&wasm).1, Lookup::Wait));
    cache.build_failed(&hash);
    get_or_compile(&mut cache, &mut disk, &wasm);
    assert_eq!(cache.l1_len(), 1);
}

#[test]
fn l1_hit_avoids_recompilation() {
    let mut cache = Modules::new();
    let mut disk = Disk::new(100);
    let wasm = guest(3).into_bytes();

    let first = get_or_compile(&mut cache, &mut disk, &wasm);
    let second = get_or_compile(&mut cache, &mut disk, &wasm);

    assert!(Rc::ptr_eq(&first, &second));
    assert_eq!(cache.cranelift_compiles(), 1);
    assert_eq!(cache.aot_loads(), 0, "an L1 hit must not touch the disk");
    assert_eq!(cache.l1_hits(), 1);
}

#[test]
fn l2_replays_after_a_restart_without_invoking_cranelift() {
    let mut disk = Disk::new(100);
    let wasm = guest(4).into_bytes();

    let mut before = Modules::new();
    let compiled = get_or_compile(&mut before, &mut disk, &wasm);
    assert_eq!(compiled.source, Source::Cranelift);
    assert_eq!(before.cranelift_compiles(), 1);
    drop(before);

    // Same directory, empty L1: this is what a restarted worker sees.
    let mut after = Modules::new();
    let restored = get_or_compile(&mut after, &mut disk, &wasm);

    assert_eq!(restored.source, Source::Aot);
    assert_eq!(
        after.cranelift_compiles(),
        0,
        "a restart must replay from L2, not recompile"
    );
    assert_eq!(after.aot_loads(), 1);
}

#[test]
fn a_corrupt_l2_artifact_falls_back_to_compiling() {
    let mut disk = Disk::new(100);
    let wasm = guest(5).into_bytes();

    let mut before = Modules::new();
    get_or_compile(&mut before, &mut disk, &wasm);
    drop(before);

    for file in disk.files.values_mut() {
        file.2 = false;
    }

    let mut after = Modules::new();
    let module = get_or_compile(&mut after, &mut disk, &wasm);

    assert_eq!(module.source, Source::Cranelift);
    assert_eq!(after.aot_loads(), 0);
    assert_eq!(after.cranelift_compiles(), 1);
}

#[test]
fn distinct_modules_get_distinct_entries() {
    let mut cache = Modules::new();
    let mut disk = Disk::new(100);

    for n in 10..14 {
        get_or_compile(&mut cache, &mut disk, guest(n).as_bytes());
    }

    assert_eq!(cache.l1_len(), 4);
    assert_eq!(cache.cranelift_compiles(), 4);
    assert_eq!(cache.l1_hits(), 0);
}

#[test]
fn content_hash_distinguishes_and_identifies() {
    assert_eq!(content_hash(b"same"), content_hash(b"same"));
    assert_ne!(content_hash(b"same"), content_hash(b"different"));
}

#[test]
fn a_content_hash_is_the_sha256_of_the_bytes() {
    assert_eq!(
        content_hash_hex(b"abc"),
        "ba7816bf8f01cfea414140de5dae2223b00361a396177a9cb410ff61f20015ad"
    );
    assert_eq!(
        content_hash_hex(b""),
        "e3b0c44298fc1c149afbf4c8996fb92427ae41e4649b934ca495991b7852b855"
    );
    assert_eq!(content_hash(b"abc")[..2], [0xba, 0x78]);
}

#[test]
fn eviction_is_bounded_by_bytes_not_entry_count() {
    let mut disk = Disk::new(1000);
    let mut probe = Modules::new();
    get_or_compile(&mut probe, &mut disk, guest(100).as_bytes());
    let one_module = probe.l1_bytes();
    assert!(
        one_module > 0,
        "a compiled module must have a measured size"
    );

    let budget = one_module * 3;
    let mut cache = Modules::with_budget(budget);
    for n in 200..212 {
        get_or_compile(&mut cache, &mut disk, guest(n).as_bytes());
    }

    assert!(
        cache.l1_bytes() <= budget,
        "held {} bytes against a {budget} budget",
        cache.l1_bytes()
    );
    assert!(
        cache.l1_len() < 12,
        "12 modules against a 3-module budget must have evicted something"
    );
    assert!(cache.l1_len() >= 1, "the cache must not evict itself empty");
}

#[test]
fn a_module_larger_than_the_budget_is_kept_alone() {
    let mut disk = Disk::new(1000);
    let mut cache = Modules::with_budget(10);
    get_or_compile(&mut cache, &mut disk, guest(1).as_bytes());
    get_or_compile(&mut cache, &mut disk, guest(2).as_bytes());
    assert_eq!(cache.l1_len(), 1);
    assert_eq!(cache.l1_bytes(), 1000);
    get_or_compile(&mut cache, &mut disk, guest(2).as_bytes());
    assert_eq!(cache.l1_hits(), 1);
}

#[test]
fn the_most_recently_used_module_survives_eviction() {
    let mut disk = Disk::new(1000);
    let mut probe = Modules::new();
    get_or_compile(&mut probe, &mut disk, guest(300).as_bytes());
    let budget = probe.l1_bytes() * 2;

    let mut cache = Modules::with_budget(budget);
    let keep = guest(400).into_bytes();

    get_or_compile(&mut cache, &mut disk, &keep);
    for n in 401..410 {
        get_or_compile(&mut cache, &mut disk, guest(n).as_bytes());
        // Touch `keep` so it stays the most recently used entry.
        get_or_compile(&mut cache, &mut disk, &keep);
    }

    assert_eq!(
        cache.cranelift_compiles(),
        10,
        "only the nine newcomers plus `keep` should ever have been compiled"
    );
}

#[test]
fn the_l2_cache_stays_inside_its_budget() {
    let mut disk = Disk::new(5 << 10);
    let mut cache = Modules::with_budgets(1 << 30, 64 << 10);

    for n in 0..40 {
        get_or_compile(&mut cache, &mut disk, guest(n).as_bytes());
    }

    assert!(
        disk.bytes() <= 64 << 10,
        "L2 held {} bytes against a 64 KiB budget",
        disk.bytes()
    );
    assert!(cache.evicted_l2() > 0, "nothing was evicted");
    // Twelve of them fit.
    assert_eq!(disk.files.len(), 12);
    assert_eq!(cache.evicted_l2(), 28);
}

#[test]
fn a_module_that_keeps_being_used_is_not_the_one_evicted() {
    let mut disk = Disk::new(5 << 10);
    let mut cache = Modules::with_budgets(1 << 30, 64 << 10);

    let hot = guest(9999);
    get_or_compile(&mut cache, &mut disk, hot.as_bytes());

    for n in 0..40 {
        get_or_compile(&mut cache, &mut disk, guest(n).as_bytes());
        get_or_compile(&mut cache, &mut disk, hot.as_bytes());
    }

    let compiles_before = cache.cranelift_compiles();
    get_or_compile(&mut cache, &mut disk, hot.as_bytes());
    assert_eq!(
        cache.cranelift_compiles(),
        compiles_before,
        "the hot module was evicted and had to be recompiled"
    );
}

#[test]
fn a_sweep_goes_from_the_oldest_and_stops_in_time() {
    let mut sweep = Sweep::new(vec![(30, 4), (10, 4), (20, 4)], 8);
    assert_eq!(sweep.next(), Some(1));
    // One that cannot be removed is passed over.
    sweep.settle(false);
    assert_eq!(sweep.next(), Some(2));
    sweep.settle(true);
    assert_eq!(sweep.next(), None);
    assert_eq!(sweep.removed(), 1);
}

#[test]
fn a_file_is_named_by_both_hashes() {
    let hash = content_hash(b"abc");
    assert_eq!(
        l2_name(&hash, 0xbeef),
        "ba7816bf8f01cfea414140de5dae2223b00361a396177a9cb410ff61f20015ad-000000000000beef.cwasm"
    );
    assert_eq!(module_size(Some(9), 4), 9);
    assert_eq!(module_size(None, 4), 4);
}

#[test]
fn the_default_budgets_are_a_gibibyte_and_four() {
    assert_eq!(DEFAULT_L1_BYTES, 1 << 30);
    assert_eq!(DEFAULT_L2_BYTES, 4 << 30);
    assert_eq!(Modules::new().l2_budget(), DEFAULT_L2_BYTES);
}

#[test]
fn a_load_without_a_file_or_a_module_ends_as_it_should() {
    let mut cache = Modules::new();

    // What does not compile is not kept.
    let (loading, action) = Loading::begin(3);
    assert_eq!(action, LoadAction::Probe);
    let (loading, action) = cache.load_or_compile(loading, LoadEvent::Probed(Probe::Stale));
    assert_eq!(action, LoadAction::Discard);
    let (loading, action) = cache.load_or_compile(loading, LoadEvent::Discarded);
    assert_eq!(action, LoadAction::Compile);
    let (loading, action) = cache.load_or_compile(loading, LoadEvent::Compiled(false));
    assert_eq!(action, LoadAction::GiveUp);
    assert_eq!(loading.stage, LoadStage::Ended);
    assert_eq!(cache.cranelift_compiles(), 0);

    // What cannot be serialized is used all the same, at its artifact's size.
    let (loading, _) = Loading::begin(3);
    let (loading, _) = cache.load_or_compile(loading, LoadEvent::Probed(Probe::Absent));
    let (loading, action) = cache.load_or_compile(loading, LoadEvent::Compiled(true));
    assert_eq!(action, LoadAction::Write);
    let (loading, action) = cache.load_or_compile(loading, LoadEvent::Written(false));
    assert_eq!(action, LoadAction::Measure);
    let (_, action) = cache.load_or_compile(loading, LoadEvent::Measured(None));
    assert_eq!(action, LoadAction::Keep { source: Source::Cranelift, size: 3 });
    assert_eq!(cache.cranelift_compiles(), 1);
    assert_eq!(cache.aot_loads(), 0);

    // What loads is never compiled.
    let (loading, _) = Loading::begin(3);
    let (loading, action) = cache.load_or_compile(loading, LoadEvent::Probed(Probe::Loaded));
    assert_eq!(action, LoadAction::Touch);
    let (loading, _) = cache.load_or_compile(loading, LoadEvent::Touched);
    let (_, action) = cache.load_or_compile(loading, LoadEvent::Measured(Some(9)));
    assert_eq!(action, LoadAction::Keep { source: Source::Aot, size: 9 });
    assert_eq!(cache.cranelift_compiles(), 1);
    assert_eq!(cache.aot_loads(), 1);
}
