use cairo_trace_prof::call_map::{CallMap, Function, Node};
use cairo_trace_prof::errors::ProfError;
use cairo_trace_prof::utils::Program;

fn names(parts: &[&str]) -> Vec<String> {
    parts.iter().map(|s| s.to_string()).collect()
}

fn profile(name: &str, proper: u32, callees: &[&str]) -> Function {
    Function {
        file: "prog.cairo".to_string(),
        name: name.to_string(),
        module: None,
        proper_inst: proper,
        cumul_inst: 0,
        called: 0,
        calls: callees.len() as u32,
        callers: Vec::new(),
        callees: names(callees),
        no_caller: false,
    }
}

#[test]
fn function_new_with_caller() {
    let f = Function::new("prog.cairo", "foo", Some("math"), Some("main"));
    assert_eq!(f.file, "prog.cairo");
    assert_eq!(f.name, "foo");
    assert_eq!(f.module, Some("math".to_string()));
    assert_eq!(f.proper_inst, 1);
    assert_eq!(f.cumul_inst, 0);
    assert_eq!(f.called, 1);
    assert_eq!(f.calls, 0);
    assert_eq!(f.callers, vec!["main".to_string()]);
    assert!(f.callees.is_empty());
    assert!(!f.no_caller);
}

#[test]
fn function_new_for_entry_point() {
    let f = Function::new("prog.cairo", "main", None, None);
    assert_eq!(f.called, 0);
    assert!(f.callers.is_empty());
    assert!(f.no_caller);
}

#[test]
fn update_callee_creates_then_counts() {
    let mut cm = CallMap::empty();
    cm.update_callee("prog.cairo", "foo", None, Some("main"));
    assert_eq!(cm.cmap.len(), 1);
    assert_eq!(cm.cmap[0].proper_inst, 1);
    assert_eq!(cm.cmap[0].called, 1);
    cm.update_callee("prog.cairo", "foo", None, Some("bar"));
    cm.update_callee("prog.cairo", "foo", None, Some("main"));
    assert_eq!(cm.cmap.len(), 1);
    assert_eq!(cm.cmap[0].proper_inst, 3);
    assert_eq!(cm.cmap[0].called, 3);
    assert_eq!(cm.cmap[0].callers, names(&["main", "bar"]));
}

#[test]
fn update_inst_counts_one_step() {
    let mut cm = CallMap::empty();
    cm.update_callee("prog.cairo", "foo", None, None);
    cm.update_inst("foo");
    cm.update_inst("foo");
    assert_eq!(cm.cmap[0].proper_inst, 3);
}

#[test]
fn update_caller_records_edges_and_ignores_strangers() {
    let mut cm = CallMap::empty();
    cm.update_callee("prog.cairo", "main", None, None);
    cm.update_caller("main", "foo");
    cm.update_caller("main", "foo");
    cm.update_caller("main", "bar");
    assert_eq!(cm.cmap[0].calls, 3);
    assert_eq!(cm.cmap[0].callees, names(&["foo", "bar"]));
    // a caller that was never profiled records nothing
    cm.update_caller("ghost", "foo");
    assert_eq!(cm.cmap.len(), 1);
}

#[test]
fn root_requires_exactly_one_marker() {
    let mut cm = CallMap::empty();
    assert_eq!(cm.root().err(), Some(ProfError::NoRootFound));
    cm.update_callee("prog.cairo", "main", None, None);
    cm.update_callee("prog.cairo", "foo", None, Some("main"));
    assert_eq!(cm.root().unwrap().name, "main");
    cm.update_callee("prog.cairo", "other", None, None);
    assert_eq!(cm.root().err(), Some(ProfError::NoRootFound));
}

#[test]
fn cumulative_cost_overflow_is_reported() {
    let mut a = profile("a", u32::MAX, &["b"]);
    a.no_caller = true;
    let b = profile("b", 1, &[]);
    let mut cm = CallMap { cmap: vec![a, b] };
    assert_eq!(cm.compute_cumul(), Err(ProfError::CumulOverflow));
    assert_eq!(
        cm.compute_cumul_inst("a", 2),
        Err(ProfError::CumulOverflow)
    );
}

#[test]
fn indirect_cycle_is_reported() {
    let mut a = profile("a", 1, &["b"]);
    a.no_caller = true;
    let b = profile("b", 1, &["a"]);
    let mut cm = CallMap { cmap: vec![a, b] };
    assert_eq!(cm.compute_cumul(), Err(ProfError::UnboundedRecursion));
}

#[test]
fn shared_callee_is_counted_once_per_caller() {
    // a calls b and c; both call d: d's cost enters a twice.
    let mut a = profile("a", 1, &["b", "c"]);
    a.no_caller = true;
    let b = profile("b", 2, &["d"]);
    let c = profile("c", 4, &["d"]);
    let d = profile("d", 8, &[]);
    let mut cm = CallMap { cmap: vec![a, b, c, d] };
    cm.compute_cumul().unwrap();
    assert_eq!(cm.cmap[3].cumul_inst, 8);
    assert_eq!(cm.cmap[1].cumul_inst, 10);
    assert_eq!(cm.cmap[2].cumul_inst, 12);
    assert_eq!(cm.cmap[0].cumul_inst, 23);
}

#[test]
fn compute_cumul_inst_of_unknown_name_is_zero() {
    let cm = CallMap::empty();
    assert_eq!(cm.compute_cumul_inst("nobody", 5), Ok(0));
}

#[test]
fn call_tree_expands_each_edge() {
    let mut program = Program::new();
    program.insert(0, names(&["prog.cairo", "main"]));
    program.insert(1, names(&["prog.cairo", "foo"]));
    program.insert(3, names(&["prog.cairo", "main"]));
    let trace = vec![
        cairo_trace_prof::utils::State { pc: 1, ap: 100, fp: 100 },
        cairo_trace_prof::utils::State { pc: 2, ap: 200, fp: 200 },
        cairo_trace_prof::utils::State { pc: 3, ap: 210, fp: 200 },
        cairo_trace_prof::utils::State { pc: 4, ap: 150, fp: 100 },
    ];
    let cm = CallMap::new(&program, &trace).unwrap();
    let tree = cm.call_tree().unwrap();
    assert_eq!(tree.fun.name, "main");
    assert_eq!(tree.fun.cumul_inst, 4);
    assert_eq!(tree.callees.len(), 1);
    assert_eq!(tree.callees[0].fun.name, "foo");
    assert!(tree.callees[0].callees.is_empty());
}

#[test]
fn call_tree_skips_self_loops_and_fails_on_cycles() {
    let mut a = profile("a", 1, &["a", "b"]);
    a.no_caller = true;
    let b = profile("b", 1, &[]);
    let cm = CallMap { cmap: vec![a, b] };
    let tree = cm.call_tree().unwrap();
    assert_eq!(tree.fun.name, "a");
    assert_eq!(tree.callees.len(), 1);
    assert_eq!(tree.callees[0].fun.name, "b");

    let mut x = profile("x", 1, &["y"]);
    x.no_caller = true;
    let y = profile("y", 1, &["x"]);
    let cyclic = CallMap { cmap: vec![x, y] };
    assert_eq!(cyclic.call_tree().err(), Some(ProfError::UnboundedRecursion));
}

#[test]
fn next_of_unprofiled_function_is_a_leaf() {
    let cm = CallMap::empty();
    let f = profile("lonely", 7, &["ignored"]);
    let node: Node = Node::next(&f, &cm, 3).unwrap();
    assert_eq!(node.fun.name, "lonely");
    assert_eq!(node.fun.proper_inst, 7);
    assert!(node.callees.is_empty());
}

#[test]
fn call_tree_fails_on_a_dangling_callee() {
    let mut a = profile("a", 1, &["ghost"]);
    a.no_caller = true;
    let cm = CallMap { cmap: vec![a] };
    assert_eq!(cm.call_tree().err(), Some(ProfError::UnknownFunction));
}

#[test]
fn shared_callee_appears_as_two_independent_subtrees() {
    let mut a = profile("a", 1, &["b", "c"]);
    a.no_caller = true;
    let b = profile("b", 2, &["d"]);
    let c = profile("c", 4, &["d"]);
    let d = profile("d", 8, &[]);
    let cm = CallMap { cmap: vec![a, b, c, d] };
    let tree = cm.call_tree().unwrap();
    assert_eq!(tree.callees.len(), 2);
    assert_eq!(tree.callees[0].fun.name, "b");
    assert_eq!(tree.callees[1].fun.name, "c");
    assert_eq!(tree.callees[0].callees[0].fun.name, "d");
    assert_eq!(tree.callees[1].callees[0].fun.name, "d");
}

#[test]
fn program_lookup_last_binding_wins() {
    let mut program = Program::new();
    program.insert(3, names(&["f", "old"]));
    program.insert(3, names(&["f", "new"]));
    assert_eq!(program.get(3).unwrap(), &names(&["f", "new"]));
    assert!(program.get(4).is_none());
}
