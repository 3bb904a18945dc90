use std::sync::atomic::AtomicBool;
use std::sync::atomic::AtomicUsize;
use std::sync::atomic::Ordering;
use std::sync::Arc;
use std::sync::Mutex;

use beaver::dependency_graph::DependencyGraph;
use beaver::dependency_graph::DependencyOptions;
use beaver::dependency_graph::Ref;
use beaver::instructor::Instructor;
use beaver::scheduler::Scheduler;
use beaver::scheduler::SchedulerError;
use beaver::target_data::TargetData;
use beaver::work_pool::WorkInstruction;
use beaver::work_pool::WorkPool;
use beaver::work_pool::WorkResult;

fn describe(instr: &WorkInstruction) -> String {
    match instr {
        WorkInstruction::Compile { source_file, include_dirs, output_file } => {
            format!("compile {} -I[{}] -o {}", source_file, include_dirs.join(","), output_file)
        }
        WorkInstruction::Link { object_files, link_libraries, output_file } => {
            format!("link [{}] -l[{}] -o {}", object_files.join(","), link_libraries.join(","), output_file)
        }
    }
}

type Log = Arc<Mutex<Vec<String>>>;

fn logging_executor(log: &Log) -> impl Fn(WorkInstruction) -> Result<String, String> + Send + Clone + 'static {
    let log = log.clone();
    move |instr: WorkInstruction| {
        log.lock().unwrap().push(describe(&instr));
        Ok(String::new())
    }
}

fn plain_executor() -> impl Fn(WorkInstruction) -> Result<String, String> + Send + Clone + 'static {
    |_instr: WorkInstruction| Ok(String::new())
}

fn add_executable_with_options(g: &mut DependencyGraph, name: &str) -> Ref {
    let exe = g.add_executable(name, vec![]);
    g.set_executable_options(
        exe,
        DependencyOptions::ExecutableOptions { link_flags: vec![], link_libraries: vec![] },
    );
    exe
}

#[test]
fn single_source_build() {
    // one executable over one library over one interface
    let mut g = DependencyGraph::new();
    let hdr = g.add_interface("app_hdr", vec!["include/app.h".to_string()]);
    let lib = g.add_library("app_lib", vec!["main.c".to_string()]);
    let exe = add_executable_with_options(&mut g, "app");
    g.add_requirement(exe, lib);
    g.add_requirement(lib, hdr);

    let log: Log = Arc::new(Mutex::new(Vec::new()));
    let mut sched = Scheduler::new(2, "bd".to_string(), logging_executor(&log));
    sched.build_all(&g).unwrap();

    let entries = log.lock().unwrap().clone();
    assert_eq!(
        entries,
        vec![
            "compile main.c -I[include] -o bd/main.c.o".to_string(),
            "link [bd/main.c.o] -l[] -o bd/app".to_string(),
        ]
    );
    // two jobs were scheduled and both results were delivered
    assert_eq!(sched.workpool.next_job_id, 2);
    assert_eq!(sched.workpool.number_of_jobs_waiting, 0);
    match &sched.target_data_map[exe.idx] {
        Some(TargetData::EXECUTABLE { executable_file }) => {
            assert_eq!(executable_file, "bd/app");
        }
        _ => panic!("expected executable target data"),
    }
}

#[test]
fn diamond_build_compiles_shared_library_once() {
    // exe requires libs A and B; both require lib C
    let mut g = DependencyGraph::new();
    let c = g.add_library("C", vec!["c.c".to_string()]);
    let a = g.add_library("A", vec!["a.c".to_string()]);
    let b = g.add_library("B", vec!["b.c".to_string()]);
    let exe = add_executable_with_options(&mut g, "exe");
    g.add_requirement(exe, a);
    g.add_requirement(exe, b);
    g.add_requirement(a, c);
    g.add_requirement(b, c);

    let log: Log = Arc::new(Mutex::new(Vec::new()));
    let mut sched = Scheduler::new(4, "bd".to_string(), logging_executor(&log));
    sched.build_all(&g).unwrap();

    let entries = log.lock().unwrap().clone();
    let c_compiles =
        entries.iter().filter(|e| e.starts_with("compile c.c ")).count();
    assert_eq!(c_compiles, 1);
    // dependency order: C compiles strictly before A and B, the link is last
    let pos = |needle: &str| entries.iter().position(|e| e.starts_with(needle)).unwrap();
    assert!(pos("compile c.c") < pos("compile a.c"));
    assert!(pos("compile c.c") < pos("compile b.c"));
    // the link lists the direct dependencies' objects in declaration order
    assert_eq!(entries.last().unwrap(), "link [bd/a.c.o,bd/b.c.o] -l[] -o bd/exe");
}

#[test]
fn include_directories_propagate_in_declaration_order() {
    let mut g = DependencyGraph::new();
    let hdr1 = g.add_interface("hdr1", vec!["inc1/a.h".to_string()]);
    let hdr2 = g.add_interface("hdr2", vec!["inc2/b.h".to_string()]);
    let lib = g.add_library("L", vec!["s.c".to_string()]);
    g.add_requirement(lib, hdr1);
    g.add_requirement(lib, hdr2);
    // a root so the scheduler reaches L
    let exe = add_executable_with_options(&mut g, "tool");
    g.add_requirement(exe, lib);

    let log: Log = Arc::new(Mutex::new(Vec::new()));
    let mut sched = Scheduler::new(2, "bd".to_string(), logging_executor(&log));
    sched.build_all(&g).unwrap();
    let entries = log.lock().unwrap().clone();
    assert!(entries.contains(&"compile s.c -I[inc1,inc2] -o bd/s.c.o".to_string()));
}

#[test]
fn instructor_emits_nothing_for_interfaces() {
    let mut g = DependencyGraph::new();
    let hdr = g.add_interface("hdr", vec!["include/app.h".to_string()]);
    let mut instructor = Instructor::new(&g, "bd".to_string());
    instructor.set_node(hdr);
    instructor.process();
    assert!(instructor.get_instructions().is_empty());
    match instructor.get_targetdata() {
        TargetData::INTERFACE { include_dirs } => {
            assert_eq!(include_dirs, vec!["include".to_string()]);
        }
        _ => panic!("expected interface target data"),
    }
}

#[test]
fn compile_failure_still_completes_the_build() {
    // two independent executables; X's source fails to compile
    let mut g = DependencyGraph::new();
    let xl = g.add_library("x_lib", vec!["xs.c".to_string()]);
    let yl = g.add_library("y_lib", vec!["ys.c".to_string()]);
    let x = add_executable_with_options(&mut g, "X");
    let y = add_executable_with_options(&mut g, "Y");
    g.add_requirement(x, xl);
    g.add_requirement(y, yl);

    let log: Log = Arc::new(Mutex::new(Vec::new()));
    let inner = log.clone();
    let executor = move |instr: WorkInstruction| -> Result<String, String> {
        let text = describe(&instr);
        inner.lock().unwrap().push(text.clone());
        if text.starts_with("compile xs.c") {
            Err("exit status 1".to_string())
        } else {
            Ok(String::new())
        }
    };
    let mut sched = Scheduler::new(2, "bd".to_string(), executor);
    // failures are surfaced through the pool but the build proceeds
    sched.build_all(&g).unwrap();
    let entries = log.lock().unwrap().clone();
    assert!(entries.iter().any(|e| e.starts_with("link [bd/ys.c.o]")));
    assert!(entries.iter().any(|e| e.starts_with("link [bd/xs.c.o]")));
}

#[test]
fn one_worker_serializes_a_diamond() {
    let mut g = DependencyGraph::new();
    let c = g.add_library("C", vec!["c.c".to_string()]);
    let a = g.add_library("A", vec!["a.c".to_string()]);
    let b = g.add_library("B", vec!["b.c".to_string()]);
    let exe = add_executable_with_options(&mut g, "exe");
    g.add_requirement(exe, a);
    g.add_requirement(exe, b);
    g.add_requirement(a, c);
    g.add_requirement(b, c);

    let log: Log = Arc::new(Mutex::new(Vec::new()));
    let mut sched = Scheduler::new(1, "bd".to_string(), logging_executor(&log));
    sched.build_all(&g).unwrap();
    let entries = log.lock().unwrap().clone();
    assert_eq!(entries.iter().filter(|e| e.starts_with("compile c.c")).count(), 1);
    for (i, st) in sched.target_status_map.iter().enumerate() {
        let st = st.as_ref().expect("every node is annotated");
        assert!(st.is_built, "node {} unbuilt", i);
    }
}

#[test]
fn annotation_counts_dependencies_and_is_idempotent() {
    let mut g = DependencyGraph::new();
    let c = g.add_library("C", vec![]);
    let a = g.add_library("A", vec![]);
    let b = g.add_library("B", vec![]);
    let exe = add_executable_with_options(&mut g, "exe");
    g.add_requirement(exe, a);
    g.add_requirement(exe, b);
    g.add_requirement(a, c);
    g.add_requirement(b, c);

    let mut sched = Scheduler::new(1, "bd".to_string(), plain_executor());
    for _ in 0..g.arena.len() {
        sched.target_status_map.push(None);
        sched.target_data_map.push(None);
    }
    sched.visit_node(&g, exe);
    let counts: Vec<usize> = sched
        .target_status_map
        .iter()
        .map(|s| s.as_ref().unwrap().number_of_unbuilt_dependencies)
        .collect();
    assert_eq!(counts[exe.idx], 2);
    assert_eq!(counts[a.idx], 1);
    assert_eq!(counts[b.idx], 1);
    assert_eq!(counts[c.idx], 0);
    // a second pass changes nothing
    sched.visit_node(&g, exe);
    let counts2: Vec<usize> = sched
        .target_status_map
        .iter()
        .map(|s| s.as_ref().unwrap().number_of_unbuilt_dependencies)
        .collect();
    assert_eq!(counts, counts2);
}

#[test]
fn zero_instruction_node_unblocks_dependents_immediately() {
    let mut g = DependencyGraph::new();
    let hdr = g.add_interface("hdr", vec!["inc/a.h".to_string()]);
    let lib = g.add_library("L", vec!["l.c".to_string()]);
    g.add_requirement(lib, hdr);

    let mut sched = Scheduler::new(1, "bd".to_string(), plain_executor());
    for _ in 0..g.arena.len() {
        sched.target_status_map.push(None);
        sched.target_data_map.push(None);
    }
    sched.visit_node(&g, lib);
    assert_eq!(
        sched.target_status_map[lib.idx].as_ref().unwrap().number_of_unbuilt_dependencies,
        1
    );
    let mut instructor = Instructor::new(&g, "bd".to_string());
    sched.schedule_node(&g, &mut instructor, hdr).unwrap();
    // the interface ran no job, yet it is built and the library is unblocked
    assert!(sched.target_status_map[hdr.idx].as_ref().unwrap().is_built);
    assert_eq!(
        sched.target_status_map[lib.idx].as_ref().unwrap().number_of_unbuilt_dependencies,
        0
    );
}

#[test]
fn cyclic_graph_is_reported_as_stalled() {
    let mut g = DependencyGraph::new();
    let a = g.add_library("a", vec![]);
    let b = g.add_library("b", vec![]);
    let exe = add_executable_with_options(&mut g, "exe");
    g.add_requirement(exe, a);
    g.add_requirement(a, b);
    g.add_requirement(b, a);
    let mut sched = Scheduler::new(1, "bd".to_string(), plain_executor());
    assert_eq!(sched.build_all(&g), Err(SchedulerError::Stalled));
}

#[test]
fn foreign_result_is_reported() {
    let g = DependencyGraph::new();
    let mut sched = Scheduler::new(1, "bd".to_string(), plain_executor());
    let verdict = sched.handle_result(
        &g,
        WorkResult { job_id: 5, result: Ok(String::new()) },
    );
    assert_eq!(verdict, Err(SchedulerError::UnknownJobResult));
}

#[test]
fn results_are_correlated_across_out_of_order_completion() {
    // three jobs whose workers complete in the order 2, 0, 1
    let done0 = Arc::new(AtomicBool::new(false));
    let done2 = Arc::new(AtomicBool::new(false));
    let d0 = done0.clone();
    let d2 = done2.clone();
    let executor = move |instr: WorkInstruction| -> Result<String, String> {
        let tag = match &instr {
            WorkInstruction::Compile { source_file, .. } => source_file.clone(),
            WorkInstruction::Link { output_file, .. } => output_file.clone(),
        };
        match tag.as_str() {
            "j0" => {
                while !d2.load(Ordering::SeqCst) {
                    std::hint::spin_loop();
                }
                d0.store(true, Ordering::SeqCst);
                Ok("result for job 0".to_string())
            }
            "j1" => {
                while !d0.load(Ordering::SeqCst) {
                    std::hint::spin_loop();
                }
                Ok("result for job 1".to_string())
            }
            _ => {
                d2.store(true, Ordering::SeqCst);
                Ok("result for job 2".to_string())
            }
        }
    };
    let mut pool = WorkPool::new(3, executor);
    let compile = |name: &str| WorkInstruction::Compile {
        source_file: name.to_string(),
        include_dirs: vec![],
        output_file: "x.o".to_string(),
    };
    assert_eq!(pool.schedule_work(compile("j0")), 0);
    assert_eq!(pool.schedule_work(compile("j1")), 1);
    assert_eq!(pool.schedule_work(compile("j2")), 2);
    assert_eq!(pool.get_result_blocking(0), Ok("result for job 0".to_string()));
    assert_eq!(pool.get_result_blocking(1), Ok("result for job 1".to_string()));
    assert_eq!(pool.get_result_blocking(2), Ok("result for job 2".to_string()));
}

#[test]
fn pool_reports_an_id_that_can_never_arrive() {
    let mut pool = WorkPool::new(1, plain_executor());
    assert!(pool.get_result_blocking(7).is_err());
}

#[test]
fn next_result_is_none_only_when_nothing_is_outstanding() {
    let mut pool = WorkPool::new(1, plain_executor());
    assert!(pool.get_next_result_blocking().is_none());
    let id = pool.schedule_work(WorkInstruction::Compile {
        source_file: "a.c".to_string(),
        include_dirs: vec![],
        output_file: "a.o".to_string(),
    });
    let delivered = pool.get_next_result_blocking().expect("one job is outstanding");
    assert_eq!(delivered.job_id, id);
    assert!(pool.get_next_result_blocking().is_none());
}

#[test]
fn at_most_num_workers_jobs_run_at_once() {
    let current = Arc::new(AtomicUsize::new(0));
    let peak = Arc::new(AtomicUsize::new(0));
    let c = current.clone();
    let p = peak.clone();
    let executor = move |_instr: WorkInstruction| -> Result<String, String> {
        let now = c.fetch_add(1, Ordering::SeqCst) + 1;
        p.fetch_max(now, Ordering::SeqCst);
        for _ in 0..200000 {
            std::hint::spin_loop();
        }
        c.fetch_sub(1, Ordering::SeqCst);
        Ok(String::new())
    };
    let mut pool = WorkPool::new(2, executor);
    let mut ids = Vec::new();
    for k in 0..8 {
        ids.push(pool.schedule_work(WorkInstruction::Compile {
            source_file: format!("f{}.c", k),
            include_dirs: vec![],
            output_file: format!("f{}.o", k),
        }));
    }
    for id in ids {
        pool.get_result_blocking(id).unwrap();
    }
    let observed = peak.load(Ordering::SeqCst);
    assert!(observed >= 1 && observed <= 2, "peak parallelism was {}", observed);
}

#[test]
fn duplicate_requirements_are_counted_per_edge() {
    // the same dependency declared twice must be unlocked twice
    let mut g = DependencyGraph::new();
    let c = g.add_library("C", vec!["c.c".to_string()]);
    let a = g.add_library("A", vec!["a.c".to_string()]);
    let exe = add_executable_with_options(&mut g, "exe");
    g.add_requirement(exe, a);
    g.add_requirement(a, c);
    g.add_requirement(a, c);

    let log: Log = Arc::new(Mutex::new(Vec::new()));
    let mut sched = Scheduler::new(2, "bd".to_string(), logging_executor(&log));
    sched.build_all(&g).unwrap();
    let entries = log.lock().unwrap().clone();
    assert_eq!(entries.iter().filter(|e| e.starts_with("compile c.c")).count(), 1);
    for st in sched.target_status_map.iter() {
        assert!(st.as_ref().unwrap().is_built);
    }
}

#[test]
fn object_files_are_named_by_source_basename() {
    let mut g = DependencyGraph::new();
    let lib = g.add_library("L", vec!["src/deep/main.c".to_string()]);
    let exe = add_executable_with_options(&mut g, "tool");
    g.add_requirement(exe, lib);

    let log: Log = Arc::new(Mutex::new(Vec::new()));
    let mut sched = Scheduler::new(1, "bd".to_string(), logging_executor(&log));
    sched.build_all(&g).unwrap();
    let entries = log.lock().unwrap().clone();
    assert!(entries.contains(&"compile src/deep/main.c -I[] -o bd/main.c.o".to_string()));
    assert!(entries.contains(&"link [bd/main.c.o] -l[] -o bd/tool".to_string()));
}
