use cairo_trace_prof::call_map::CallMap;
use cairo_trace_prof::errors::ProfError;
use cairo_trace_prof::utils::{Program, State};

fn st(pc: usize, ap: usize, fp: usize) -> State {
    State { pc, ap, fp }
}

fn scope(parts: &[&str]) -> Vec<String> {
    parts.iter().map(|s| s.to_string()).collect()
}

fn get<'a>(cm: &'a CallMap, name: &str) -> &'a cairo_trace_prof::call_map::Function {
    cm.cmap
        .iter()
        .find(|f| f.name == name)
        .unwrap_or_else(|| panic!("no profile for {name}"))
}

#[test]
fn five_steps_single_function() {
    let mut program = Program::new();
    program.insert(0, scope(&["prog.cairo", "main"]));
    let trace = vec![
        st(1, 100, 100),
        st(2, 110, 100),
        st(3, 120, 100),
        st(4, 130, 100),
        st(5, 140, 100),
    ];
    let cm = CallMap::new(&program, &trace).unwrap();
    assert_eq!(cm.cmap.len(), 1);
    let main = get(&cm, "main");
    assert_eq!(main.file, "prog.cairo");
    assert_eq!(main.module, None);
    assert_eq!(main.proper_inst, 5);
    assert_eq!(main.cumul_inst, 5);
    assert_eq!(main.called, 0);
    assert_eq!(main.calls, 0);
    assert!(main.callers.is_empty());
    assert!(main.callees.is_empty());
    assert!(main.no_caller);
}

#[test]
fn call_and_return() {
    let mut program = Program::new();
    program.insert(0, scope(&["prog.cairo", "main"]));
    program.insert(1, scope(&["prog.cairo", "foo"]));
    program.insert(3, scope(&["prog.cairo", "main"]));
    let trace = vec![
        st(1, 100, 100),
        st(2, 200, 200),
        st(3, 210, 200),
        st(4, 150, 100),
    ];
    let cm = CallMap::new(&program, &trace).unwrap();
    assert_eq!(cm.cmap.len(), 2);
    let main = get(&cm, "main");
    let foo = get(&cm, "foo");
    assert_eq!(main.proper_inst, 2);
    assert_eq!(main.calls, 1);
    assert_eq!(main.callees, vec!["foo".to_string()]);
    assert_eq!(main.cumul_inst, 4);
    assert!(main.no_caller);
    assert_eq!(foo.proper_inst, 2);
    assert_eq!(foo.called, 1);
    assert_eq!(foo.callers, vec!["main".to_string()]);
    assert_eq!(foo.cumul_inst, 2);
    assert!(!foo.no_caller);
}

#[test]
fn scope_chain_of_length_one_is_malformed() {
    let mut program = Program::new();
    program.insert(0, scope(&["main"]));
    let trace = vec![st(1, 100, 100)];
    assert_eq!(
        CallMap::new(&program, &trace),
        Err(ProfError::MalformedScopeChain)
    );
}

#[test]
fn scope_chain_of_length_four_is_malformed() {
    let mut program = Program::new();
    program.insert(0, scope(&["a", "b", "c", "d"]));
    let trace = vec![st(1, 100, 100)];
    assert_eq!(
        CallMap::new(&program, &trace),
        Err(ProfError::MalformedScopeChain)
    );
}

#[test]
fn address_missing_from_program() {
    let mut program = Program::new();
    program.insert(0, scope(&["prog.cairo", "main"]));
    let trace = vec![st(5, 100, 100)];
    assert_eq!(
        CallMap::new(&program, &trace),
        Err(ProfError::MissingDebugInfo)
    );
}

#[test]
fn return_into_unknown_function() {
    let mut program = Program::new();
    program.insert(0, scope(&["prog.cairo", "main"]));
    // ap != fp on the very first boundary: a return into a function that
    // no call step ever created.
    let trace = vec![st(1, 150, 100)];
    assert_eq!(
        CallMap::new(&program, &trace),
        Err(ProfError::UnknownFunction)
    );
}

#[test]
fn empty_trace_has_no_root() {
    let program = Program::new();
    let trace: Vec<State> = Vec::new();
    assert_eq!(CallMap::new(&program, &trace), Err(ProfError::NoRootFound));
}

#[test]
fn module_is_recorded_from_three_element_scopes() {
    let mut program = Program::new();
    program.insert(0, scope(&["prog.cairo", "math", "main"]));
    let trace = vec![st(1, 100, 100), st(2, 110, 100)];
    let cm = CallMap::new(&program, &trace).unwrap();
    let main = get(&cm, "main");
    assert_eq!(main.file, "prog.cairo");
    assert_eq!(main.module, Some("math".to_string()));
    assert_eq!(main.proper_inst, 2);
}

#[test]
fn direct_self_recursion_is_excluded_from_cumulative_cost() {
    let mut program = Program::new();
    program.insert(0, scope(&["prog.cairo", "main"]));
    program.insert(1, scope(&["prog.cairo", "main"]));
    // main calls itself: a second fresh activation of the same identity.
    let trace = vec![st(1, 100, 100), st(2, 200, 200), st(3, 210, 200)];
    let cm = CallMap::new(&program, &trace).unwrap();
    assert_eq!(cm.cmap.len(), 1);
    let main = get(&cm, "main");
    assert_eq!(main.proper_inst, 3);
    assert_eq!(main.called, 1);
    assert_eq!(main.calls, 1);
    assert_eq!(main.callers, vec!["main".to_string()]);
    assert_eq!(main.callees, vec!["main".to_string()]);
    assert_eq!(main.cumul_inst, 3);
    assert!(main.no_caller);
}

#[test]
fn proper_instructions_sum_to_trace_length() {
    let mut program = Program::new();
    program.insert(0, scope(&["prog.cairo", "main"]));
    program.insert(1, scope(&["prog.cairo", "foo"]));
    program.insert(3, scope(&["prog.cairo", "main"]));
    let trace = vec![
        st(1, 100, 100),
        st(2, 200, 200),
        st(3, 210, 200),
        st(4, 150, 100),
        st(5, 160, 100),
    ];
    let cm = CallMap::new(&program, &trace).unwrap();
    let total: u32 = cm.cmap.iter().map(|f| f.proper_inst).sum();
    assert_eq!(total as usize, trace.len());
    assert!(cm.check_inst_count(trace.len()).is_ok());
    assert_eq!(
        cm.check_inst_count(trace.len() + 1),
        Err(ProfError::InstructionCountMismatch)
    );
}

#[test]
fn callers_and_callees_are_symmetric() {
    let mut program = Program::new();
    program.insert(0, scope(&["prog.cairo", "main"]));
    program.insert(1, scope(&["prog.cairo", "foo"]));
    program.insert(2, scope(&["prog.cairo", "bar"]));
    program.insert(3, scope(&["prog.cairo", "foo"]));
    program.insert(4, scope(&["prog.cairo", "main"]));
    // main -> foo -> bar, return to foo, return to main
    let trace = vec![
        st(1, 100, 100),
        st(2, 200, 200),
        st(3, 300, 300),
        st(4, 250, 200),
        st(5, 150, 100),
    ];
    let cm = CallMap::new(&program, &trace).unwrap();
    for f in &cm.cmap {
        for callee in &f.callees {
            let g = get(&cm, callee);
            assert!(g.callers.contains(&f.name));
        }
        for caller in &f.callers {
            let g = get(&cm, caller);
            assert!(g.callees.contains(&f.name));
        }
    }
    let roots: Vec<_> = cm.cmap.iter().filter(|f| f.no_caller).collect();
    assert_eq!(roots.len(), 1);
    assert_eq!(roots[0].name, "main");
}
