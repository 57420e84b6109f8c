use crate::errors::ProfError;
use crate::utils::Program;
use crate::utils::State;
use vstd::prelude::*;

verus! {

/// Mathematical image of one function profile.
#[verifier::ext_equal]
pub ghost struct FunModel {
    pub file: Seq<char>,
    pub name: Seq<char>,
    pub module: Option<Seq<char>>,
    pub proper_inst: int,
    pub cumul_inst: int,
    pub called: int,
    pub calls: int,
    pub callers: Seq<Seq<char>>,
    pub callees: Seq<Seq<char>>,
    pub no_caller: bool,
}

/// The execution-cost profile of one function observed in the trace.
///
/// `callers` and `callees` hold distinct identities in first-seen order;
/// `no_caller` marks the program entry point, which was entered by the
/// synthetic outer caller rather than by any profiled function.
#[derive(Debug, Clone, PartialEq, Eq)]
pub struct Function {
    pub file: String,
    pub name: String,
    pub module: Option<String>,
    pub proper_inst: u32,
    pub cumul_inst: u32,
    pub called: u32,
    pub calls: u32,
    pub callers: Vec<String>,
    pub callees: Vec<String>,
    pub no_caller: bool,
}

impl View for Function {
    type V = FunModel;

    open spec fn view(&self) -> FunModel {
        FunModel {
            file: self.file@,
            name: self.name@,
            module: self.module.deep_view(),
            proper_inst: self.proper_inst as int,
            cumul_inst: self.cumul_inst as int,
            called: self.called as int,
            calls: self.calls as int,
            callers: self.callers.deep_view(),
            callees: self.callees.deep_view(),
            no_caller: self.no_caller,
        }
    }
}

impl DeepView for Function {
    type V = FunModel;

    open spec fn deep_view(&self) -> FunModel {
        self.view()
    }
}

/// Index of the profile named `name`, or -1 when none carries that name.
pub open spec fn find_fun(m: Seq<FunModel>, name: Seq<char>) -> int
    decreases m.len(),
{
    if m.len() == 0 {
        -1
    } else if m[0].name == name {
        0
    } else {
        let r = find_fun(m.subrange(1, m.len() as int), name);
        if r < 0 {
            -1
        } else {
            r + 1
        }
    }
}

pub open spec fn contains_fun(m: Seq<FunModel>, name: Seq<char>) -> bool {
    find_fun(m, name) >= 0
}

/// The profile named `name`; meaningful only when `contains_fun` holds.
pub open spec fn fun_of(m: Seq<FunModel>, name: Seq<char>) -> FunModel {
    m[find_fun(m, name)]
}

/// `find_fun` points at the first profile with the given name.
pub proof fn lemma_find_fun(m: Seq<FunModel>, name: Seq<char>)
    ensures
        find_fun(m, name) == -1 ==> forall|k: int|
            0 <= k < m.len() ==> (#[trigger] m[k].name) != name,
        find_fun(m, name) != -1 ==> {
            &&& 0 <= find_fun(m, name) < m.len()
            &&& m[find_fun(m, name)].name == name
            &&& forall|k: int| 0 <= k < find_fun(m, name) ==> (#[trigger] m[k].name) != name
        },
    decreases m.len(),
{
    if m.len() > 0 && m[0].name != name {
        let ms = m.subrange(1, m.len() as int);
        lemma_find_fun(ms, name);
        assert(forall|k: int| 0 <= k < ms.len() ==> ms[k] == m[k + 1]);
        if find_fun(m, name) == -1 {
            assert forall|k: int| 0 <= k < m.len() implies (#[trigger] m[k].name) != name by {
                if k > 0 {
                    assert(ms[k - 1].name != name);
                }
            }
        } else {
            assert forall|k: int| 0 <= k < find_fun(m, name) implies (#[trigger] m[k].name)
                != name by {
                if k > 0 {
                    assert(ms[k - 1].name != name);
                }
            }
        }
    }
}

/// No two elements of `s` are the same identity.
pub open spec fn distinct_names(s: Seq<Seq<char>>) -> bool {
    forall|i: int, j: int| 0 <= i < j < s.len() ==> s[i] != s[j]
}

pub open spec fn wf_fun(f: FunModel) -> bool {
    &&& distinct_names(f.callers)
    &&& distinct_names(f.callees)
}

/// Well-formed flat map: function names are unique keys, and each
/// profile's caller and callee sets hold no duplicates.
pub open spec fn wf_map(m: Seq<FunModel>) -> bool {
    &&& forall|i: int, j: int| 0 <= i < j < m.len() ==> (#[trigger] m[i].name) != (#[trigger] m[j].name)
    &&& forall|k: int| 0 <= k < m.len() ==> wf_fun(#[trigger] m[k])
}

/// Every recorded call edge is present on both of its ends, and names
/// only profiled functions.
pub open spec fn edges_symmetric(m: Seq<FunModel>) -> bool {
    &&& forall|i: int, c: Seq<char>|
        0 <= i < m.len() && (#[trigger] m[i].callees.contains(c)) ==> contains_fun(m, c)
            && fun_of(m, c).callers.contains(m[i].name)
    &&& forall|i: int, c: Seq<char>|
        0 <= i < m.len() && (#[trigger] m[i].callers.contains(c)) ==> contains_fun(m, c)
            && fun_of(m, c).callees.contains(m[i].name)
}

/// Sum of the proper instruction counts of all profiles.
pub open spec fn sum_proper(m: Seq<FunModel>) -> int
    decreases m.len(),
{
    if m.len() == 0 {
        0
    } else {
        sum_proper(m.drop_last()) + m.last().proper_inst
    }
}

/// How many profiles carry the "no caller" entry-point marker.
pub open spec fn root_count(m: Seq<FunModel>) -> int
    decreases m.len(),
{
    if m.len() == 0 {
        0
    } else {
        root_count(m.drop_last()) + if m.last().no_caller {
            1int
        } else {
            0int
        }
    }
}

pub open spec fn has_unique_root(m: Seq<FunModel>) -> bool {
    root_count(m) == 1
}

/// `s` extended with `c` unless `c` is already present.
pub open spec fn insert_name(s: Seq<Seq<char>>, c: Seq<char>) -> Seq<Seq<char>> {
    if s.contains(c) {
        s
    } else {
        s.push(c)
    }
}

/// The profile a call step creates when the callee is new: one step
/// spent, entered once if a profiled caller exists, marked as the entry
/// point otherwise.
pub open spec fn new_fun(
    file: Seq<char>,
    name: Seq<char>,
    module: Option<Seq<char>>,
    caller: Option<Seq<char>>,
) -> FunModel {
    FunModel {
        file,
        name,
        module,
        proper_inst: 1,
        cumul_inst: 0,
        called: if caller is Some {
            1int
        } else {
            0int
        },
        calls: 0,
        callers: match caller {
            Some(c) => seq![c],
            None => Seq::empty(),
        },
        callees: Seq::empty(),
        no_caller: caller is None,
    }
}

/// A known profile after one more step with its own frame active.
pub open spec fn bump_proper(f: FunModel) -> FunModel {
    FunModel { proper_inst: f.proper_inst + 1, ..f }
}

/// A known callee profile after being entered once more at a call step.
pub open spec fn callee_entered(f: FunModel, caller: Option<Seq<char>>) -> FunModel {
    FunModel {
        proper_inst: f.proper_inst + 1,
        called: f.called + if caller is Some {
            1int
        } else {
            0int
        },
        callers: match caller {
            Some(c) => insert_name(f.callers, c),
            None => f.callers,
        },
        no_caller: f.no_caller || caller is None,
        ..f
    }
}

/// A caller profile after initiating one more call to `callee`.
pub open spec fn caller_recorded(f: FunModel, callee: Seq<char>) -> FunModel {
    FunModel { calls: f.calls + 1, callees: insert_name(f.callees, callee), ..f }
}

/// The whole map after `name` runs one more step of its own frame.
pub open spec fn map_bump(m: Seq<FunModel>, name: Seq<char>) -> Seq<FunModel> {
    m.update(find_fun(m, name), bump_proper(fun_of(m, name)))
}

/// The whole map after a call step enters `name` (created on first sight).
pub open spec fn map_callee(
    m: Seq<FunModel>,
    file: Seq<char>,
    name: Seq<char>,
    module: Option<Seq<char>>,
    caller: Option<Seq<char>>,
) -> Seq<FunModel> {
    if contains_fun(m, name) {
        m.update(find_fun(m, name), callee_entered(fun_of(m, name), caller))
    } else {
        m.push(new_fun(file, name, module, caller))
    }
}

/// The whole map after the call edge `caller -> callee` is recorded on
/// the caller's side; the synthetic outer caller records nothing.
pub open spec fn map_caller(
    m: Seq<FunModel>,
    caller: Option<Seq<char>>,
    callee: Seq<char>,
) -> Seq<FunModel> {
    match caller {
        None => m,
        Some(c) => if contains_fun(m, c) {
            m.update(find_fun(m, c), caller_recorded(fun_of(m, c), callee))
        } else {
            m
        },
    }
}

/// Step count that each profile's counters cannot exceed.
pub open spec fn counters_le(m: Seq<FunModel>, n: int) -> bool {
    forall|k: int|
        0 <= k < m.len() ==> (#[trigger] m[k]).proper_inst <= n && m[k].called <= n
            && m[k].calls <= n
}

pub proof fn lemma_sum_update(m: Seq<FunModel>, j: int, f: FunModel)
    requires
        0 <= j < m.len(),
    ensures
        sum_proper(m.update(j, f)) == sum_proper(m) - m[j].proper_inst + f.proper_inst,
    decreases m.len(),
{
    let m2 = m.update(j, f);
    if j == m.len() - 1 {
        assert(m2.drop_last() =~= m.drop_last());
    } else {
        assert(m2.drop_last() =~= m.drop_last().update(j, f));
        assert(m2.last() == m.last());
        lemma_sum_update(m.drop_last(), j, f);
    }
}

pub proof fn lemma_sum_push(m: Seq<FunModel>, f: FunModel)
    ensures
        sum_proper(m.push(f)) == sum_proper(m) + f.proper_inst,
{
    assert(m.push(f).drop_last() =~= m);
}

pub proof fn lemma_root_update(m: Seq<FunModel>, j: int, f: FunModel)
    requires
        0 <= j < m.len(),
    ensures
        root_count(m.update(j, f)) == root_count(m) - (if m[j].no_caller {
            1int
        } else {
            0int
        }) + (if f.no_caller {
            1int
        } else {
            0int
        }),
    decreases m.len(),
{
    let m2 = m.update(j, f);
    if j == m.len() - 1 {
        assert(m2.drop_last() =~= m.drop_last());
    } else {
        assert(m2.drop_last() =~= m.drop_last().update(j, f));
        assert(m2.last() == m.last());
        lemma_root_update(m.drop_last(), j, f);
    }
}

pub proof fn lemma_root_push(m: Seq<FunModel>, f: FunModel)
    ensures
        root_count(m.push(f)) == root_count(m) + (if f.no_caller {
            1int
        } else {
            0int
        }),
{
    assert(m.push(f).drop_last() =~= m);
}

/// Lookup depends only on the names, position by position.
pub proof fn lemma_find_names_eq(m1: Seq<FunModel>, m2: Seq<FunModel>)
    requires
        m1.len() == m2.len(),
        forall|k: int| 0 <= k < m1.len() ==> (#[trigger] m1[k]).name == m2[k].name,
    ensures
        forall|nm: Seq<char>| (#[trigger] find_fun(m1, nm)) == find_fun(m2, nm),
    decreases m1.len(),
{
    if m1.len() > 0 {
        let t1 = m1.subrange(1, m1.len() as int);
        let t2 = m2.subrange(1, m2.len() as int);
        assert(forall|k: int| 0 <= k < t1.len() ==> t1[k] == m1[k + 1] && t2[k] == m2[k + 1]);
        lemma_find_names_eq(t1, t2);
        assert forall|nm: Seq<char>| (#[trigger] find_fun(m1, nm)) == find_fun(m2, nm) by {
            assert(find_fun(t1, nm) == find_fun(t2, nm));
        }
    }
}

/// Lookup in a map extended with a fresh profile.
pub proof fn lemma_find_push(m: Seq<FunModel>, f: FunModel, nm: Seq<char>)
    ensures
        find_fun(m.push(f), nm) == (if contains_fun(m, nm) {
            find_fun(m, nm)
        } else if f.name == nm {
            m.len() as int
        } else {
            -1
        }),
{
    lemma_find_fun(m, nm);
    lemma_find_fun(m.push(f), nm);
    assert(forall|k: int| 0 <= k < m.len() ==> m.push(f)[k] == m[k]);
    assert(m.push(f)[m.len() as int] == f);
}

pub proof fn lemma_insert_name(s: Seq<Seq<char>>, c: Seq<char>)
    ensures
        insert_name(s, c).contains(c),
        forall|x: Seq<char>| s.contains(x) ==> #[trigger] insert_name(s, c).contains(x),
        forall|x: Seq<char>| #[trigger] insert_name(s, c).contains(x) ==> s.contains(x) || x == c,
        distinct_names(s) ==> distinct_names(insert_name(s, c)),
{
    let s2 = insert_name(s, c);
    if s.contains(c) {
    } else {
        assert(s2[s.len() as int] == c);
        assert forall|x: Seq<char>| s.contains(x) implies #[trigger] s2.contains(x) by {
            let i = choose|i: int| 0 <= i < s.len() && s[i] == x;
            assert(s2[i] == x);
        }
        assert forall|x: Seq<char>| #[trigger] s2.contains(x) implies s.contains(x) || x == c by {
            let i = choose|i: int| 0 <= i < s2.len() && s2[i] == x;
            if i < s.len() {
                assert(s[i] == x);
            }
        }
        if distinct_names(s) {
            assert forall|i: int, j: int| 0 <= i < j < s2.len() implies s2[i] != s2[j] by {
                if j == s.len() {
                    assert(s[i] == s2[i]);
                    assert(!s.contains(s2[j]));
                }
            }
        }
    }
}

/// Structure shared by maps whose edge-bearing fields agree.
pub open spec fn edge_fields_eq(m1: Seq<FunModel>, m2: Seq<FunModel>) -> bool {
    &&& m1.len() == m2.len()
    &&& forall|k: int|
        0 <= k < m1.len() ==> (#[trigger] m1[k]).name == m2[k].name && m1[k].callers
            == m2[k].callers && m1[k].callees == m2[k].callees
}

pub proof fn lemma_edges_eq(m1: Seq<FunModel>, m2: Seq<FunModel>)
    requires
        edge_fields_eq(m1, m2),
        edges_symmetric(m1),
    ensures
        edges_symmetric(m2),
{
    lemma_find_names_eq(m1, m2);
    assert forall|i: int, c: Seq<char>|
        0 <= i < m2.len() && (#[trigger] m2[i].callees.contains(c)) implies contains_fun(m2, c)
        && fun_of(m2, c).callers.contains(m2[i].name) by {
        assert(m1[i].callees.contains(c));
        lemma_find_fun(m1, c);
        let jx: int = find_fun(m1, c);
        assert(0 <= jx < m1.len());
        assert(m1[jx].callers == m2[jx].callers);
        assert(fun_of(m2, c).callers == fun_of(m1, c).callers);
    }
    assert forall|i: int, c: Seq<char>|
        0 <= i < m2.len() && (#[trigger] m2[i].callers.contains(c)) implies contains_fun(m2, c)
        && fun_of(m2, c).callees.contains(m2[i].name) by {
        assert(m1[i].callers.contains(c));
        lemma_find_fun(m1, c);
        let jx: int = find_fun(m1, c);
        assert(0 <= jx < m1.len());
        assert(m1[jx].callees == m2[jx].callees);
        assert(fun_of(m2, c).callees == fun_of(m1, c).callees);
    }
}

/// State the scan carries across trace steps: the map grown so far, and
/// the frame pointer and identity of the function now active (absent
/// before the first step is seen).
pub ghost struct BuildSt {
    pub cmap: Seq<FunModel>,
    pub cur: Option<(int, Seq<char>)>,
}

pub open spec fn init_st() -> BuildSt {
    BuildSt { cmap: Seq::empty(), cur: None }
}

/// One trace step of the scan. A step whose frame pointer equals the
/// current one runs inside the current function; any other step is a
/// frame boundary, resolved through the scope chain of the instruction
/// before the jump: a call where `ap == fp` (a fresh activation), a
/// return otherwise.
pub open spec fn step_spec(
    prog: Map<int, Seq<Seq<char>>>,
    st: BuildSt,
    s: State,
) -> Result<BuildSt, ProfError> {
    let same_frame = match st.cur {
        Some(c) => c.0 == s.fp as int,
        None => false,
    };
    let cur = match st.cur {
        Some(c) => c.1,
        None => Seq::empty(),
    };
    if same_frame {
        if contains_fun(st.cmap, cur) {
            Ok(BuildSt { cmap: map_bump(st.cmap, cur), cur: st.cur })
        } else {
            Err(ProfError::UnknownFunction)
        }
    } else if s.pc == 0 || !prog.contains_key(s.pc - 1) {
        Err(ProfError::MissingDebugInfo)
    } else {
        let scope = prog[s.pc - 1];
        if scope.len() != 2 && scope.len() != 3 {
            Err(ProfError::MalformedScopeChain)
        } else if s.ap != s.fp {
            let target = scope.last();
            if contains_fun(st.cmap, target) {
                Ok(
                    BuildSt {
                        cmap: map_bump(st.cmap, target),
                        cur: Some((s.fp as int, target)),
                    },
                )
            } else {
                Err(ProfError::UnknownFunction)
            }
        } else {
            let file = scope[0];
            let module = if scope.len() == 3 {
                Some(scope[1])
            } else {
                Option::<Seq<char>>::None
            };
            let callee = if scope.len() == 3 {
                scope[2]
            } else {
                scope[1]
            };
            let caller = match st.cur {
                Some(c) => Some(c.1),
                None => None,
            };
            let m1 = map_callee(st.cmap, file, callee, module, caller);
            let m2 = map_caller(m1, caller, callee);
            Ok(BuildSt { cmap: m2, cur: Some((s.fp as int, callee)) })
        }
    }
}

/// The scan state after the first `n` trace steps, or the error that
/// aborted it.
pub open spec fn build_spec(
    prog: Map<int, Seq<Seq<char>>>,
    trace: Seq<State>,
    n: int,
) -> Result<BuildSt, ProfError>
    decreases n,
{
    if n <= 0 {
        Ok(init_st())
    } else {
        match build_spec(prog, trace, n - 1) {
            Err(e) => Err(e),
            Ok(st) => step_spec(prog, st, trace[n - 1]),
        }
    }
}

/// The finished flat map of a whole trace, before cumulative costs.
pub open spec fn build_map(prog: Map<int, Seq<Seq<char>>>, trace: Seq<State>) -> Result<
    Seq<FunModel>,
    ProfError,
> {
    match build_spec(prog, trace, trace.len() as int) {
        Ok(st) => Ok(st.cmap),
        Err(e) => Err(e),
    }
}

/// What every reachable scan state satisfies.
pub open spec fn build_inv(st: BuildSt) -> bool {
    &&& wf_map(st.cmap)
    &&& edges_symmetric(st.cmap)
    &&& match st.cur {
        Some(c) => contains_fun(st.cmap, c.1) && st.cmap.len() > 0,
        None => st.cmap.len() == 0,
    }
    &&& (st.cmap.len() > 0 ==> has_unique_root(st.cmap))
}

pub proof fn lemma_build_err_persists(
    prog: Map<int, Seq<Seq<char>>>,
    trace: Seq<State>,
    i: int,
    n: int,
)
    requires
        0 <= i <= n,
        build_spec(prog, trace, i) is Err,
    ensures
        build_spec(prog, trace, n) == build_spec(prog, trace, i),
    decreases n - i,
{
    if n > i {
        lemma_build_err_persists(prog, trace, i, n - 1);
    }
}

/// A step inside the current frame keeps every invariant and attributes
/// exactly one more instruction.
pub proof fn lemma_bump_step(m: Seq<FunModel>, name: Seq<char>, n: int)
    requires
        wf_map(m),
        edges_symmetric(m),
        counters_le(m, n),
        sum_proper(m) == n,
        contains_fun(m, name),
        m.len() > 0 ==> has_unique_root(m),
    ensures
        ({
            let m2 = map_bump(m, name);
            &&& wf_map(m2)
            &&& edges_symmetric(m2)
            &&& counters_le(m2, n + 1)
            &&& sum_proper(m2) == n + 1
            &&& m2.len() == m.len()
            &&& (m.len() > 0 ==> has_unique_root(m2))
            &&& forall|nm: Seq<char>| (#[trigger] find_fun(m2, nm)) == find_fun(m, nm)
        }),
{
    lemma_find_fun(m, name);
    let j: int = find_fun(m, name);
    let f2 = bump_proper(m[j]);
    let m2 = map_bump(m, name);
    lemma_sum_update(m, j, f2);
    lemma_root_update(m, j, f2);
    lemma_find_names_eq(m2, m);
    lemma_edges_eq(m, m2);
}

/// A call step keeps every invariant, attributes exactly one more
/// instruction, and leaves the callee profiled.
pub proof fn lemma_call_step(
    m: Seq<FunModel>,
    file: Seq<char>,
    callee: Seq<char>,
    module: Option<Seq<char>>,
    caller: Option<Seq<char>>,
    n: int,
)
    requires
        wf_map(m),
        edges_symmetric(m),
        counters_le(m, n),
        sum_proper(m) == n,
        n >= 0,
        match caller {
            Some(c) => contains_fun(m, c) && m.len() > 0,
            None => m.len() == 0,
        },
        m.len() > 0 ==> has_unique_root(m),
    ensures
        ({
            let m2 = map_caller(map_callee(m, file, callee, module, caller), caller, callee);
            &&& wf_map(m2)
            &&& edges_symmetric(m2)
            &&& counters_le(m2, n + 1)
            &&& sum_proper(m2) == n + 1
            &&& m2.len() > 0
            &&& has_unique_root(m2)
            &&& contains_fun(m2, callee)
        }),
        ({
            let m1 = map_callee(m, file, callee, module, caller);
            match caller {
                Some(c) => contains_fun(m1, c) && fun_of(m1, c).calls <= n,
                None => true,
            }
        }),
{
    let m1 = map_callee(m, file, callee, module, caller);
    let m2 = map_caller(m1, caller, callee);
    lemma_find_fun(m, callee);
    match caller {
        None => {
            let nf = new_fun(file, callee, module, None);
            assert(!contains_fun(m, callee));
            assert(m1 =~= seq![nf]);
            assert(m2 == m1);
            assert(m2[0].name == callee);
            assert(contains_fun(m2, callee));
            assert(m2.drop_last() =~= m);
            assert(sum_proper(m2) == 1);
            assert(nf.no_caller);
            assert(m2.last() == nf);
            assert(root_count(m) == 0);
            assert(root_count(m2) == 1);
            assert forall|i: int, c: Seq<char>|
                0 <= i < m2.len() implies !(#[trigger] m2[i].callees.contains(c)) && !(
            #[trigger] m2[i].callers.contains(c)) by {
                assert(m2[i] == nf);
            }
        },
        Some(c) => {
            lemma_find_fun(m, c);
            let jc: int = find_fun(m, c);
            let mlen: int = m.len() as int;
            if contains_fun(m, callee) {
                let jd: int = find_fun(m, callee);
                let f1 = callee_entered(m[jd], Some(c));
                assert(m1 == m.update(jd, f1));
                lemma_insert_name(m[jd].callers, c);
                assert(forall|k: int| 0 <= k < mlen ==> (#[trigger] m1[k]).name == m[k].name);
                lemma_find_names_eq(m1, m);
                assert(find_fun(m1, c) == jc);
                let f2 = caller_recorded(m1[jc], callee);
                assert(m2 == m1.update(jc, f2));
                lemma_insert_name(m1[jc].callees, callee);
                assert(forall|k: int| 0 <= k < mlen ==> (#[trigger] m2[k]).name == m[k].name);
                lemma_find_names_eq(m2, m);
                // sums and counters
                lemma_sum_update(m, jd, f1);
                lemma_sum_update(m1, jc, f2);
                lemma_root_update(m, jd, f1);
                lemma_root_update(m1, jc, f2);
                assert(sum_proper(m2) == n + 1);
                assert(root_count(m2) == root_count(m));
                // well-formedness
                assert forall|k: int| 0 <= k < mlen implies wf_fun(#[trigger] m2[k]) by {
                    assert(wf_fun(m[k]));
                }
                // membership facts
                assert(m2[jd].callers.contains(c));
                assert(m2[jc].callees.contains(callee));
                // edge superset and origin facts
                assert forall|k: int, x: Seq<char>|
                    0 <= k < mlen && (#[trigger] m2[k].callees.contains(x)) implies m[
                    k].callees.contains(x) || (k == jc && x == callee) by {
                    if k == jc {
                        lemma_insert_name(m1[jc].callees, callee);
                    }
                }
                assert forall|k: int, x: Seq<char>|
                    0 <= k < mlen && (#[trigger] m2[k].callers.contains(x)) implies m[
                    k].callers.contains(x) || (k == jd && x == c) by {
                    if k == jd {
                        lemma_insert_name(m[jd].callers, c);
                    }
                }
                assert forall|k: int, x: Seq<char>|
                    0 <= k < mlen && (#[trigger] m[k].callees.contains(x)) implies m2[
                    k].callees.contains(x) by {
                    if k == jc {
                        lemma_insert_name(m1[jc].callees, callee);
                    }
                }
                assert forall|k: int, x: Seq<char>|
                    0 <= k < mlen && (#[trigger] m[k].callers.contains(x)) implies m2[
                    k].callers.contains(x) by {
                    if k == jd {
                        lemma_insert_name(m[jd].callers, c);
                    }
                }
                // symmetry
                assert forall|i: int, x: Seq<char>|
                    0 <= i < m2.len() && (#[trigger] m2[i].callees.contains(x)) implies
                contains_fun(m2, x) && fun_of(m2, x).callers.contains(m2[i].name) by {
                    if m[i].callees.contains(x) {
                        lemma_find_fun(m, x);
                        let jx: int = find_fun(m, x);
                        assert(fun_of(m, x).callers.contains(m[i].name));
                        assert(m2[jx].callers.contains(m[i].name));
                    } else {
                        assert(i == jc && x == callee);
                        assert(fun_of(m2, callee) == m2[jd]);
                        assert(m2[jd].callers.contains(c));
                        assert(m2[jc].name == c);
                    }
                }
                assert forall|i: int, x: Seq<char>|
                    0 <= i < m2.len() && (#[trigger] m2[i].callers.contains(x)) implies
                contains_fun(m2, x) && fun_of(m2, x).callees.contains(m2[i].name) by {
                    if m[i].callers.contains(x) {
                        lemma_find_fun(m, x);
                        let jx: int = find_fun(m, x);
                        assert(fun_of(m, x).callees.contains(m[i].name));
                        assert(m2[jx].callees.contains(m[i].name));
                    } else {
                        assert(i == jd && x == c);
                        assert(fun_of(m2, c) == m2[jc]);
                        assert(m2[jc].callees.contains(callee));
                        assert(m2[jd].name == callee);
                    }
                }
            } else {
                let nf = new_fun(file, callee, module, Some(c));
                assert(m1 == m.push(nf));
                assert(forall|k: int| 0 <= k < mlen ==> (#[trigger] m1[k]) == m[k]);
                assert(m1[mlen] == nf);
                assert forall|nm: Seq<char>| true implies (#[trigger] find_fun(m1, nm)) == (
                if contains_fun(m, nm) {
                    find_fun(m, nm)
                } else if nm == callee {
                    mlen
                } else {
                    -1
                }) by {
                    lemma_find_push(m, nf, nm);
                }
                assert(find_fun(m1, c) == jc);
                let f2 = caller_recorded(m1[jc], callee);
                assert(m2 == m1.update(jc, f2));
                lemma_insert_name(m1[jc].callees, callee);
                assert(forall|k: int| 0 <= k < m1.len() ==> (#[trigger] m2[k]).name == m1[k].name);
                lemma_find_names_eq(m2, m1);
                // sums and counters
                lemma_sum_push(m, nf);
                lemma_sum_update(m1, jc, f2);
                lemma_root_push(m, nf);
                lemma_root_update(m1, jc, f2);
                assert(sum_proper(m2) == n + 1);
                assert(root_count(m2) == root_count(m));
                // well-formedness: names unique, per-profile sets distinct
                lemma_find_fun(m, callee);
                assert(forall|k: int| 0 <= k < mlen ==> (#[trigger] m[k]).name != callee);
                assert forall|i: int, j: int| 0 <= i < j < m2.len() implies (
                #[trigger] m2[i].name) != (#[trigger] m2[j].name) by {
                    if j == mlen {
                        assert(m2[i].name == m[i].name);
                    }
                }
                assert forall|k: int| 0 <= k < m2.len() implies wf_fun(#[trigger] m2[k]) by {
                    if k < mlen {
                        assert(wf_fun(m[k]));
                    } else {
                        assert(m2[k].callers =~= seq![c]);
                    }
                }
                // membership facts
                assert(m2[mlen].callers.contains(c)) by {
                    assert(m2[mlen].callers[0] == c);
                }
                assert(m2[jc].callees.contains(callee));
                // origin facts
                assert forall|k: int, x: Seq<char>|
                    0 <= k < m2.len() && (#[trigger] m2[k].callees.contains(x)) implies (k < mlen
                    && m[k].callees.contains(x)) || (k == jc && x == callee) by {
                    if k == jc {
                        lemma_insert_name(m1[jc].callees, callee);
                    } else if k == mlen {
                        assert(m2[k].callees =~= Seq::<Seq<char>>::empty());
                    }
                }
                assert forall|k: int, x: Seq<char>|
                    0 <= k < m2.len() && (#[trigger] m2[k].callers.contains(x)) implies (k < mlen
                    && m[k].callers.contains(x)) || (k == mlen && x == c) by {
                    if k == mlen {
                        let i0 = choose|i0: int|
                            0 <= i0 < m2[k].callers.len() && m2[k].callers[i0] == x;
                        assert(m2[k].callers =~= seq![c]);
                    }
                }
                assert forall|k: int, x: Seq<char>|
                    0 <= k < mlen && (#[trigger] m[k].callees.contains(x)) implies m2[
                    k].callees.contains(x) by {
                    if k == jc {
                        lemma_insert_name(m1[jc].callees, callee);
                    }
                }
                assert(forall|k: int, x: Seq<char>|
                    0 <= k < mlen && (#[trigger] m[k].callers.contains(x)) ==> m2[
                    k].callers.contains(x));
                // symmetry
                assert forall|i: int, x: Seq<char>|
                    0 <= i < m2.len() && (#[trigger] m2[i].callees.contains(x)) implies
                contains_fun(m2, x) && fun_of(m2, x).callers.contains(m2[i].name) by {
                    if i < mlen && m[i].callees.contains(x) {
                        lemma_find_fun(m, x);
                        let jx: int = find_fun(m, x);
                        assert(fun_of(m, x).callers.contains(m[i].name));
                        assert(m2[jx].callers.contains(m[i].name));
                        assert(find_fun(m2, x) == jx);
                    } else {
                        assert(i == jc && x == callee);
                        assert(find_fun(m2, callee) == mlen);
                        assert(m2[mlen].callers.contains(c));
                        assert(m2[jc].name == c);
                    }
                }
                assert forall|i: int, x: Seq<char>|
                    0 <= i < m2.len() && (#[trigger] m2[i].callers.contains(x)) implies
                contains_fun(m2, x) && fun_of(m2, x).callees.contains(m2[i].name) by {
                    if i < mlen && m[i].callers.contains(x) {
                        lemma_find_fun(m, x);
                        let jx: int = find_fun(m, x);
                        assert(fun_of(m, x).callees.contains(m[i].name));
                        assert(m2[jx].callees.contains(m[i].name));
                        assert(find_fun(m2, x) == jx);
                    } else {
                        assert(i == mlen && x == c);
                        assert(find_fun(m2, c) == jc);
                        assert(m2[jc].callees.contains(callee));
                        assert(m2[mlen].name == callee);
                    }
                }
            }
        },
    }
}

pub open spec fn nonneg_proper(m: Seq<FunModel>) -> bool {
    forall|k: int| 0 <= k < m.len() ==> (#[trigger] m[k]).proper_inst >= 0
}

/// Cumulative cost of `name`: its own proper count plus, recursively,
/// the cumulative cost of each distinct callee other than itself. A
/// function that is not profiled costs nothing; `None` means the given
/// recursion depth did not suffice (an indirect call cycle).
pub open spec fn cumul_spec(m: Seq<FunModel>, name: Seq<char>, fuel: nat) -> Option<int>
    decreases fuel, 0int, 0int,
{
    if !contains_fun(m, name) {
        Some(0)
    } else if fuel == 0 {
        None
    } else {
        match cumul_sum(m, fun_of(m, name).callees, name, (fuel - 1) as nat) {
            None => None,
            Some(s) => Some(fun_of(m, name).proper_inst + s),
        }
    }
}

/// Total cumulative cost of the callees in `cs`, skipping `self_name`.
pub open spec fn cumul_sum(
    m: Seq<FunModel>,
    cs: Seq<Seq<char>>,
    self_name: Seq<char>,
    fuel: nat,
) -> Option<int>
    decreases fuel, 1int, cs.len(),
{
    if cs.len() == 0 {
        Some(0)
    } else {
        match cumul_sum(m, cs.drop_last(), self_name, fuel) {
            None => None,
            Some(s0) => {
                if cs.last() == self_name {
                    Some(s0)
                } else {
                    match cumul_spec(m, cs.last(), fuel) {
                        None => None,
                        Some(v) => Some(s0 + v),
                    }
                }
            },
        }
    }
}

pub proof fn lemma_cumul_nonneg(m: Seq<FunModel>, name: Seq<char>, fuel: nat)
    requires
        nonneg_proper(m),
    ensures
        match cumul_spec(m, name, fuel) {
            Some(v) => v >= 0,
            None => true,
        },
    decreases fuel, 0int, 0int,
{
    if contains_fun(m, name) && fuel > 0 {
        lemma_find_fun(m, name);
        lemma_cumul_sum_nonneg(m, fun_of(m, name).callees, name, (fuel - 1) as nat);
    }
}

pub proof fn lemma_cumul_sum_nonneg(
    m: Seq<FunModel>,
    cs: Seq<Seq<char>>,
    self_name: Seq<char>,
    fuel: nat,
)
    requires
        nonneg_proper(m),
    ensures
        match cumul_sum(m, cs, self_name, fuel) {
            Some(v) => v >= 0,
            None => true,
        },
    decreases fuel, 1int, cs.len(),
{
    if cs.len() > 0 {
        lemma_cumul_sum_nonneg(m, cs.drop_last(), self_name, fuel);
        lemma_cumul_nonneg(m, cs.last(), fuel);
    }
}

/// Once the depth suffices, more depth does not change the cost.
pub proof fn lemma_cumul_mono(m: Seq<FunModel>, name: Seq<char>, f1: nat, f2: nat)
    requires
        f1 <= f2,
        cumul_spec(m, name, f1) is Some,
    ensures
        cumul_spec(m, name, f2) == cumul_spec(m, name, f1),
    decreases f1, 0int, 0int,
{
    if contains_fun(m, name) && f1 > 0 {
        lemma_cumul_sum_mono(m, fun_of(m, name).callees, name, (f1 - 1) as nat, (f2 - 1) as nat);
    }
}

pub proof fn lemma_cumul_sum_mono(
    m: Seq<FunModel>,
    cs: Seq<Seq<char>>,
    self_name: Seq<char>,
    f1: nat,
    f2: nat,
)
    requires
        f1 <= f2,
        cumul_sum(m, cs, self_name, f1) is Some,
    ensures
        cumul_sum(m, cs, self_name, f2) == cumul_sum(m, cs, self_name, f1),
    decreases f1, 1int, cs.len(),
{
    if cs.len() > 0 {
        lemma_cumul_sum_mono(m, cs.drop_last(), self_name, f1, f2);
        if cs.last() != self_name {
            lemma_cumul_mono(m, cs.last(), f1, f2);
        }
    }
}

/// A failed prefix dooms the whole sum.
pub proof fn lemma_cumul_sum_none_extends(
    m: Seq<FunModel>,
    cs: Seq<Seq<char>>,
    self_name: Seq<char>,
    fuel: nat,
    j0: int,
)
    requires
        0 <= j0 <= cs.len(),
        cumul_sum(m, cs.subrange(0, j0), self_name, fuel) is None,
    ensures
        cumul_sum(m, cs, self_name, fuel) is None,
    decreases cs.len() - j0,
{
    if j0 == cs.len() {
        assert(cs.subrange(0, j0) =~= cs);
    } else {
        assert(cs.subrange(0, j0 + 1).drop_last() =~= cs.subrange(0, j0));
        lemma_cumul_sum_none_extends(m, cs, self_name, fuel, j0 + 1);
    }
}

/// A successful sum dominates every successful prefix.
pub proof fn lemma_cumul_sum_prefix_le(
    m: Seq<FunModel>,
    cs: Seq<Seq<char>>,
    self_name: Seq<char>,
    fuel: nat,
    j0: int,
)
    requires
        nonneg_proper(m),
        0 <= j0 <= cs.len(),
        cumul_sum(m, cs, self_name, fuel) is Some,
    ensures
        cumul_sum(m, cs.subrange(0, j0), self_name, fuel) is Some,
        cumul_sum(m, cs, self_name, fuel)->Some_0 >= cumul_sum(
            m,
            cs.subrange(0, j0),
            self_name,
            fuel,
        )->Some_0,
    decreases cs.len() - j0,
{
    if j0 == cs.len() {
        assert(cs.subrange(0, j0) =~= cs);
    } else {
        lemma_cumul_sum_prefix_le(m, cs, self_name, fuel, j0 + 1);
        let p1 = cs.subrange(0, j0 + 1);
        assert(p1.drop_last() =~= cs.subrange(0, j0));
        assert(p1.last() == cs[j0]);
        if cs[j0] != self_name {
            lemma_cumul_nonneg(m, cs[j0], fuel);
        }
    }
}

/// Sum of the cumulative counts stored in `m` for the callees in `cs`,
/// skipping `self_name`.
pub open spec fn sum_stored_cumul(
    m: Seq<FunModel>,
    cs: Seq<Seq<char>>,
    self_name: Seq<char>,
) -> int
    decreases cs.len(),
{
    if cs.len() == 0 {
        0
    } else {
        sum_stored_cumul(m, cs.drop_last(), self_name) + if cs.last() == self_name {
            0int
        } else {
            fun_of(m, cs.last()).cumul_inst
        }
    }
}

pub proof fn lemma_sum_stored(
    flat: Seq<FunModel>,
    res: Seq<FunModel>,
    cs: Seq<Seq<char>>,
    sn: Seq<char>,
    f: nat,
)
    requires
        flat.len() == res.len(),
        forall|k: int| 0 <= k < flat.len() ==> (#[trigger] res[k]).name == flat[k].name,
        forall|k: int|
            0 <= k < flat.len() ==> cumul_spec(flat, flat[k].name, flat.len() as nat) == Some(
                (#[trigger] res[k]).cumul_inst,
            ),
        forall|t: int| 0 <= t < cs.len() ==> contains_fun(flat, #[trigger] cs[t]),
        cumul_sum(flat, cs, sn, f) is Some,
        f <= flat.len(),
    ensures
        cumul_sum(flat, cs, sn, f)->Some_0 == sum_stored_cumul(res, cs, sn),
    decreases cs.len(),
{
    if cs.len() > 0 {
        let pre = cs.drop_last();
        assert(forall|t: int| 0 <= t < pre.len() ==> pre[t] == cs[t]);
        lemma_sum_stored(flat, res, pre, sn, f);
        if cs.last() != sn {
            let c = cs.last();
            assert(cs[cs.len() - 1] == c);
            assert(contains_fun(flat, c));
            lemma_cumul_mono(flat, c, f, flat.len() as nat);
            lemma_find_fun(flat, c);
            let kx: int = find_fun(flat, c);
            assert(flat[kx].name == c);
            assert(cumul_spec(flat, flat[kx].name, flat.len() as nat) == Some(res[kx].cumul_inst));
            lemma_find_names_eq(flat, res);
            assert(fun_of(res, c) == res[kx]);
        }
    }
}

pub open spec fn cumul_ok_at(m: Seq<FunModel>, k: int) -> bool {
    match cumul_spec(m, m[k].name, m.len() as nat) {
        Some(v) => v <= u32::MAX,
        None => false,
    }
}

/// Each profile's stored cumulative count satisfies the recursive
/// cumulative-cost equation over the finished map.
pub proof fn lemma_cumul_equation(flat: Seq<FunModel>, res: Seq<FunModel>)
    requires
        flat.len() == res.len(),
        wf_map(flat),
        nonneg_proper(flat),
        edges_symmetric(flat),
        forall|k: int|
            0 <= k < flat.len() ==> (#[trigger] res[k]).name == flat[k].name && res[k].callees
                == flat[k].callees && res[k].proper_inst == flat[k].proper_inst,
        forall|k: int|
            0 <= k < flat.len() ==> cumul_spec(flat, flat[k].name, flat.len() as nat) == Some(
                (#[trigger] res[k]).cumul_inst,
            ),
    ensures
        forall|j: int|
            0 <= j < res.len() ==> (#[trigger] res[j]).cumul_inst == res[j].proper_inst
                + sum_stored_cumul(res, res[j].callees, res[j].name),
{
    let ln: nat = flat.len() as nat;
    assert forall|j: int| 0 <= j < res.len() implies (#[trigger] res[j]).cumul_inst == res[
        j].proper_inst + sum_stored_cumul(res, res[j].callees, res[j].name) by {
        lemma_find_fun(flat, flat[j].name);
        let jj: int = find_fun(flat, flat[j].name);
        assert(jj != -1);
        assert(jj == j);
        assert(contains_fun(flat, flat[j].name));
        assert(fun_of(flat, flat[j].name) == flat[j]);
        let cs = flat[j].callees;
        assert(cumul_spec(flat, flat[j].name, ln) == Some(res[j].cumul_inst));
        assert(ln > 0);
        let s = cumul_sum(flat, cs, flat[j].name, (ln - 1) as nat);
        assert(s is Some);
        assert forall|t: int| 0 <= t < cs.len() implies contains_fun(flat, #[trigger] cs[t]) by {
            assert(flat[j].callees.contains(cs[t]));
        }
        lemma_sum_stored(flat, res, cs, flat[j].name, (ln - 1) as nat);
        assert(res[j].cumul_inst == flat[j].proper_inst + s->Some_0);
    }
}

pub proof fn lemma_sum_proper_pointwise(m1: Seq<FunModel>, m2: Seq<FunModel>)
    requires
        m1.len() == m2.len(),
        forall|k: int| 0 <= k < m1.len() ==> (#[trigger] m1[k]).proper_inst == m2[k].proper_inst,
    ensures
        sum_proper(m1) == sum_proper(m2),
    decreases m1.len(),
{
    if m1.len() > 0 {
        assert(forall|k: int|
            0 <= k < m1.len() - 1 ==> (#[trigger] m1.drop_last()[k]) == m1[k] && m2.drop_last()[k]
                == m2[k]);
        lemma_sum_proper_pointwise(m1.drop_last(), m2.drop_last());
    }
}

pub proof fn lemma_root_count_pointwise(m1: Seq<FunModel>, m2: Seq<FunModel>)
    requires
        m1.len() == m2.len(),
        forall|k: int| 0 <= k < m1.len() ==> (#[trigger] m1[k]).no_caller == m2[k].no_caller,
    ensures
        root_count(m1) == root_count(m2),
    decreases m1.len(),
{
    if m1.len() > 0 {
        assert(forall|k: int|
            0 <= k < m1.len() - 1 ==> (#[trigger] m1.drop_last()[k]) == m1[k] && m2.drop_last()[k]
                == m2[k]);
        lemma_root_count_pointwise(m1.drop_last(), m2.drop_last());
    }
}

/// Whether `v` holds `x`, by identity.
fn contains_name(v: &Vec<String>, x: &str) -> (r: bool)
    ensures
        r == v.deep_view().contains(x@),
{
    let key = x.to_owned();
    let n = v.len();
    let mut j: usize = 0;
    while j < n
        invariant
            j <= n,
            n == v@.len(),
            key@ == x@,
            forall|k: int| 0 <= k < j ==> v.deep_view()[k] != x@,
        decreases n - j,
    {
        if v[j] == key {
            assert(v.deep_view()[j as int] == x@);
            return true;
        }
        j = j + 1;
    }
    false
}

/// The flat call map: one profile per distinct function observed in the
/// trace, keyed by function identity.
#[derive(Debug, PartialEq, Eq)]
pub struct CallMap {
    pub cmap: Vec<Function>,
}

impl View for CallMap {
    type V = Seq<FunModel>;

    open spec fn view(&self) -> Seq<FunModel> {
        self.cmap.deep_view()
    }
}

impl Function {
    /// A fresh profile, as a call step first entering the function
    /// leaves it; `caller` is absent for the program entry point.
    pub fn new(file: &str, name: &str, module: Option<&str>, caller: Option<&str>) -> (r: Function)
        ensures
            r@ == new_fun(file@, name@, module.deep_view(), caller.deep_view()),
    {
        let callers: Vec<String> = match caller {
            Some(c) => {
                let mut v: Vec<String> = Vec::new();
                v.push(c.to_owned());
                v
            },
            None => Vec::new(),
        };
        let called: u32 = match caller {
            Some(_) => 1,
            None => 0,
        };
        let r = Function {
            file: file.to_owned(),
            name: name.to_owned(),
            module: match module {
                Some(m) => Some(m.to_owned()),
                None => None,
            },
            proper_inst: 1,
            cumul_inst: 0,
            called,
            calls: 0,
            callers,
            callees: Vec::new(),
            no_caller: caller.is_none(),
        };
        proof {
            assert(r@ =~~= new_fun(file@, name@, module.deep_view(), caller.deep_view()));
        }
        r
    }
}

impl CallMap {
    /// An empty flat map.
    pub fn empty() -> (r: CallMap)
        ensures
            r@ == Seq::<FunModel>::empty(),
    {
        let r = CallMap { cmap: Vec::new() };
        proof {
            assert(r@ =~~= Seq::<FunModel>::empty());
        }
        r
    }

    /// Position of the profile named `name`, if one exists.
    pub fn find_index(&self, name: &str) -> (r: Option<usize>)
        ensures
            match r {
                Some(j) => find_fun(self@, name@) == j as int && j < self@.len() && self@[
                    j as int
                ].name == name@,
                None => find_fun(self@, name@) == -1,
            },
    {
        let key = name.to_owned();
        let n = self.cmap.len();
        let mut j: usize = 0;
        while j < n
            invariant
                j <= n,
                n == self.cmap@.len(),
                key@ == name@,
                forall|k: int| 0 <= k < j ==> self@[k].name != name@,
            decreases n - j,
        {
            if self.cmap[j].name == key {
                proof {
                    assert(self@[j as int] == self.cmap@[j as int]@);
                    assert(self@[j as int].name == name@);
                    lemma_find_fun(self@, name@);
                }
                return Some(j);
            }
            j = j + 1;
        }
        proof {
            lemma_find_fun(self@, name@);
        }
        None
    }

    /// One more trace step ran with `name`'s own frame active.
    pub fn update_inst(&mut self, name: &str)
        requires
            contains_fun(old(self)@, name@),
            fun_of(old(self)@, name@).proper_inst < u32::MAX,
        ensures
            final(self)@ == map_bump(old(self)@, name@),
    {
        match self.find_index(name) {
            Some(j) => {
                let p = self.cmap[j].proper_inst;
                self.cmap[j].proper_inst = p + 1;
                proof {
                    assert(final(self)@ =~~= map_bump(old(self)@, name@));
                }
            },
            None => {
                proof {
                    assert(false);
                }
            },
        }
    }

    /// Records, on the caller's side, one call from `name` to `callee`;
    /// a caller that was never profiled records nothing.
    pub fn update_caller(&mut self, name: &str, callee: &str)
        requires
            contains_fun(old(self)@, name@) ==> fun_of(old(self)@, name@).calls < u32::MAX,
        ensures
            final(self)@ == map_caller(old(self)@, Some(name@), callee@),
    {
        match self.find_index(name) {
            Some(j) => {
                if !contains_name(&self.cmap[j].callees, callee) {
                    self.cmap[j].callees.push(callee.to_owned());
                }
                let c = self.cmap[j].calls;
                self.cmap[j].calls = c + 1;
                proof {
                    assert(final(self)@ =~~= map_caller(old(self)@, Some(name@), callee@));
                }
            },
            None => {},
        }
    }

    /// Records, on the callee's side, a call step entering `name`: the
    /// profile is created on first sight, and otherwise counts one more
    /// entry and one more proper step.
    pub fn update_callee(&mut self, file: &str, name: &str, module: Option<&str>, caller: Option<
        &str,
    >)
        requires
            contains_fun(old(self)@, name@) ==> fun_of(old(self)@, name@).proper_inst < u32::MAX
                && fun_of(old(self)@, name@).called < u32::MAX,
        ensures
            final(self)@ == map_callee(
                old(self)@,
                file@,
                name@,
                module.deep_view(),
                caller.deep_view(),
            ),
    {
        match self.find_index(name) {
            Some(j) => {
                let p = self.cmap[j].proper_inst;
                self.cmap[j].proper_inst = p + 1;
                match caller {
                    Some(c) => {
                        let cd = self.cmap[j].called;
                        self.cmap[j].called = cd + 1;
                        if !contains_name(&self.cmap[j].callers, c) {
                            self.cmap[j].callers.push(c.to_owned());
                        }
                    },
                    None => {
                        self.cmap[j].no_caller = true;
                    },
                }
                proof {
                    assert(final(self)@ =~~= map_callee(
                        old(self)@,
                        file@,
                        name@,
                        module.deep_view(),
                        caller.deep_view(),
                    ));
                }
            },
            None => {
                self.cmap.push(Function::new(file, name, module, caller));
                proof {
                    assert(final(self)@ =~~= map_callee(
                        old(self)@,
                        file@,
                        name@,
                        module.deep_view(),
                        caller.deep_view(),
                    ));
                }
            },
        }
    }
}

impl CallMap {
    /// Cumulative instruction count of `name`, evaluated to recursion
    /// depth `fuel`: proper count plus the cumulative count of every
    /// distinct callee but the function itself. An unprofiled name costs
    /// nothing; exhausted depth reports an indirect call cycle.
    pub fn compute_cumul_inst(&self, name: &str, fuel: usize) -> (r: Result<u32, ProfError>)
        ensures
            match r {
                Ok(v) => cumul_spec(self@, name@, fuel as nat) == Some(v as int),
                Err(e) => {
                    &&& (e == ProfError::UnboundedRecursion || e == ProfError::CumulOverflow)
                    &&& (e == ProfError::UnboundedRecursion ==> cumul_spec(
                        self@,
                        name@,
                        fuel as nat,
                    ) is None)
                    &&& (e == ProfError::CumulOverflow ==> match cumul_spec(
                        self@,
                        name@,
                        fuel as nat,
                    ) {
                        Some(v) => v > u32::MAX,
                        None => true,
                    })
                },
            },
        decreases fuel,
    {
        let ghost m = self@;
        proof {
            assert forall|k: int| 0 <= k < m.len() implies (#[trigger] m[k]).proper_inst >= 0 by {
                assert(m[k] == self.cmap@[k]@);
            }
        }
        let j = match self.find_index(name) {
            None => {
                return Ok(0);
            },
            Some(j) => j,
        };
        if fuel == 0 {
            return Err(ProfError::UnboundedRecursion);
        }
        let mut acc: u32 = self.cmap[j].proper_inst;
        let n = self.cmap[j].callees.len();
        let ghost cs = m[j as int].callees;
        let ghost fm1: nat = (fuel - 1) as nat;
        let mut k: usize = 0;
        while k < n
            invariant
                k <= n,
                0 <= (j as int) < m.len(),
                m == self@,
                find_fun(m, name@) == j as int,
                m[j as int].name == name@,
                cs == m[j as int].callees,
                n == cs.len(),
                fuel >= 1,
                fm1 == (fuel - 1) as nat,
                nonneg_proper(m),
                cumul_sum(m, cs.subrange(0, k as int), name@, fm1) == Some(
                    acc as int - m[j as int].proper_inst,
                ),
                acc as int >= m[j as int].proper_inst,
            decreases n - k,
        {
            let cn = self.cmap[j].callees[k].clone();
            proof {
                assert(cn@ == cs[k as int]);
                assert(cs.subrange(0, k as int + 1).drop_last() =~= cs.subrange(0, k as int));
                assert(cs.subrange(0, k as int + 1).last() == cs[k as int]);
            }
            if cn == self.cmap[j].name {
                // a direct self-call contributes nothing
            } else {
                let v = match self.compute_cumul_inst(cn.as_str(), fuel - 1) {
                    Ok(v) => v,
                    Err(e) => {
                        proof {
                            if cumul_spec(m, cs[k as int], fm1) is None {
                                lemma_cumul_sum_none_extends(m, cs, name@, fm1, k as int + 1);
                            } else {
                                if cumul_sum(m, cs, name@, fm1) is Some {
                                    lemma_cumul_sum_prefix_le(m, cs, name@, fm1, k as int + 1);
                                }
                            }
                        }
                        return Err(e);
                    },
                };
                let na = match acc.checked_add(v) {
                    Some(t) => t,
                    None => {
                        proof {
                            if cumul_sum(m, cs, name@, fm1) is Some {
                                lemma_cumul_sum_prefix_le(m, cs, name@, fm1, k as int + 1);
                            }
                        }
                        return Err(ProfError::CumulOverflow);
                    },
                };
                acc = na;
            }
            k = k + 1;
        }
        proof {
            assert(cs.subrange(0, n as int) =~= cs);
        }
        Ok(acc)
    }

    /// Fills every profile's cumulative instruction count in place,
    /// evaluating each to the depth of the whole map, which suffices for
    /// every acyclic call graph. Nothing else of any profile changes. An
    /// indirect call cycle, or a count beyond the counter type, aborts
    /// without touching the map.
    pub fn compute_cumul(&mut self) -> (r: Result<(), ProfError>)
        ensures
            match r {
                Ok(_) => {
                    &&& final(self)@.len() == old(self)@.len()
                    &&& (forall|k: int|
                        0 <= k < old(self)@.len() ==> (#[trigger] final(self)@[k]) == (FunModel {
                            cumul_inst: final(self)@[k].cumul_inst,
                            ..old(self)@[k]
                        }))
                    &&& (forall|k: int|
                        0 <= k < old(self)@.len() ==> cumul_spec(
                            old(self)@,
                            old(self)@[k].name,
                            old(self)@.len() as nat,
                        ) == Some((#[trigger] final(self)@[k]).cumul_inst))
                },
                Err(e) => {
                    &&& final(self)@ == old(self)@
                    &&& (e == ProfError::UnboundedRecursion || e == ProfError::CumulOverflow)
                    &&& exists|k: int|
                        0 <= k < old(self)@.len() && !cumul_ok_at(old(self)@, k)
                },
            },
    {
        let ghost m0 = self@;
        let fuel = self.cmap.len();
        let mut vals: Vec<u32> = Vec::new();
        let mut k: usize = 0;
        while k < self.cmap.len()
            invariant
                self@ == m0,
                k <= m0.len(),
                vals@.len() == k,
                fuel == m0.len(),
                forall|t: int|
                    0 <= t < k ==> cumul_spec(m0, m0[t].name, m0.len() as nat) == Some(
                        (#[trigger] vals@[t]) as int,
                    ),
            decreases m0.len() - k,
        {
            let nm = self.cmap[k].name.clone();
            proof {
                assert(nm@ == m0[k as int].name);
            }
            match self.compute_cumul_inst(nm.as_str(), fuel) {
                Ok(v) => {
                    vals.push(v);
                },
                Err(e) => {
                    proof {
                        assert(!cumul_ok_at(m0, k as int));
                    }
                    return Err(e);
                },
            }
            k = k + 1;
        }
        let mut k2: usize = 0;
        while k2 < self.cmap.len()
            invariant
                self@.len() == m0.len(),
                self.cmap@.len() == m0.len(),
                vals@.len() == m0.len(),
                k2 <= m0.len(),
                forall|t: int|
                    0 <= t < m0.len() ==> cumul_spec(m0, m0[t].name, m0.len() as nat) == Some(
                        (#[trigger] vals@[t]) as int,
                    ),
                forall|t: int| k2 <= t < m0.len() ==> (#[trigger] self@[t]) == m0[t],
                forall|t: int|
                    0 <= t < k2 ==> (#[trigger] self@[t]) == (FunModel {
                        cumul_inst: vals@[t] as int,
                        ..m0[t]
                    }),
            decreases m0.len() - k2,
        {
            let ghost pre = self@;
            self.cmap[k2].cumul_inst = vals[k2];
            proof {
                assert forall|t: int|
                    0 <= t < m0.len() && t != k2 as int implies (#[trigger] self@[t]) == pre[t] by {
                    assert(self@[t] == self.cmap@[t]@);
                }
                assert(self@[k2 as int] =~= (FunModel {
                    cumul_inst: vals@[k2 as int] as int,
                    ..pre[k2 as int]
                }));
            }
            k2 = k2 + 1;
        }
        Ok(())
    }

    /// The program entry point: the profile that carries the "no caller"
    /// marker. Zero such profiles, or several, leave no meaningful root.
    pub fn root(&self) -> (r: Result<&Function, ProfError>)
        ensures
            match r {
                Ok(f) => has_unique_root(self@) && f@.no_caller && self@.contains(f@),
                Err(e) => e == ProfError::NoRootFound && !has_unique_root(self@),
            },
    {
        let n = self.cmap.len();
        let mut count: usize = 0;
        let mut idx: usize = 0;
        let mut j: usize = 0;
        while j < n
            invariant
                j <= n,
                n == self.cmap@.len(),
                count <= j,
                count as int == root_count(self@.subrange(0, j as int)),
                count > 0 ==> idx < j && self@[idx as int].no_caller,
            decreases n - j,
        {
            proof {
                assert(self@.subrange(0, j as int + 1).drop_last() =~= self@.subrange(
                    0,
                    j as int,
                ));
                assert(self@.subrange(0, j as int + 1).last() == self@[j as int]);
            }
            if self.cmap[j].no_caller {
                count = count + 1;
                idx = j;
            }
            j = j + 1;
        }
        proof {
            assert(self@.subrange(0, n as int) =~= self@);
        }
        if count == 1 {
            proof {
                assert(self@[idx as int] == self.cmap@[idx as int]@);
                assert(self@.contains(self@[idx as int]));
            }
            Ok(&self.cmap[idx])
        } else {
            Err(ProfError::NoRootFound)
        }
    }

    /// Scans the whole trace, inferring calls and returns from the
    /// frame-pointer column alone, and returns the finished flat map with
    /// every cumulative count filled in.
    ///
    /// On success the map attributes every trace step to exactly one
    /// function, records every call edge on both of its ends, marks
    /// exactly one profile as the program entry point, and satisfies the
    /// recursive cumulative-cost equation. Any inconsistency between the
    /// trace and the program map aborts with the error of the first step
    /// that exposes it; no partial map is ever returned.
    pub fn new(program: &Program, trace: &Vec<State>) -> (r: Result<CallMap, ProfError>)
        requires
            trace@.len() <= u32::MAX,
        ensures
            match r {
                Ok(cm) => {
                    &&& build_map(program@, trace@) is Ok
                    &&& ({
                        let flat = build_map(program@, trace@)->Ok_0;
                        &&& cm@.len() == flat.len()
                        &&& (forall|k: int|
                            0 <= k < flat.len() ==> (#[trigger] cm@[k]) == (FunModel {
                                cumul_inst: cm@[k].cumul_inst,
                                ..flat[k]
                            }))
                        &&& (forall|k: int|
                            0 <= k < flat.len() ==> cumul_spec(flat, flat[k].name, flat.len() as nat)
                                == Some((#[trigger] cm@[k]).cumul_inst))
                    })
                    &&& wf_map(cm@)
                    &&& sum_proper(cm@) == trace@.len()
                    &&& edges_symmetric(cm@)
                    &&& has_unique_root(cm@)
                    &&& (forall|j: int|
                        0 <= j < cm@.len() ==> (#[trigger] cm@[j]).cumul_inst == cm@[j].proper_inst
                            + sum_stored_cumul(cm@, cm@[j].callees, cm@[j].name))
                },
                Err(e) => {
                    &&& (build_map(program@, trace@) is Err ==> e == build_map(
                        program@,
                        trace@,
                    )->Err_0)
                    &&& (build_map(program@, trace@) is Ok && trace@.len() == 0 ==> e
                        == ProfError::NoRootFound)
                    &&& (build_map(program@, trace@) is Ok && trace@.len() > 0 ==> (e
                        == ProfError::UnboundedRecursion || e == ProfError::CumulOverflow)
                        && exists|k: int|
                        0 <= k < build_map(program@, trace@)->Ok_0.len() && !cumul_ok_at(
                            build_map(program@, trace@)->Ok_0,
                            k,
                        ))
                },
            },
            r is Ok <==> (build_map(program@, trace@) is Ok && trace@.len() > 0 && forall|k: int|
                0 <= k < build_map(program@, trace@)->Ok_0.len() ==> cumul_ok_at(
                    build_map(program@, trace@)->Ok_0,
                    k,
                )),
    {
        let mut cmap = CallMap::empty();
        let mut cur_set: bool = false;
        let mut cur_fp: usize = 0;
        let mut cur_name: String = String::new();
        let n = trace.len();
        let mut i: usize = 0;
        while i < n
            invariant
                i <= n,
                n == trace@.len(),
                trace@.len() <= u32::MAX,
                build_spec(program@, trace@, i as int) == Ok::<BuildSt, ProfError>(
                    BuildSt {
                        cmap: cmap@,
                        cur: if cur_set {
                            Some((cur_fp as int, cur_name@))
                        } else {
                            None
                        },
                    },
                ),
                build_inv(
                    BuildSt {
                        cmap: cmap@,
                        cur: if cur_set {
                            Some((cur_fp as int, cur_name@))
                        } else {
                            None
                        },
                    },
                ),
                counters_le(cmap@, i as int),
                sum_proper(cmap@) == i as int,
                i > 0 ==> cmap@.len() > 0,
            decreases n - i,
        {
            let ghost st = BuildSt {
                cmap: cmap@,
                cur: if cur_set {
                    Some((cur_fp as int, cur_name@))
                } else {
                    None
                },
            };
            let s = trace[i];
            proof {
                assert(s == trace@[i as int]);
            }
            if cur_set && s.fp == cur_fp {
                proof {
                    lemma_find_fun(cmap@, cur_name@);
                    assert(fun_of(cmap@, cur_name@).proper_inst <= i as int);
                    lemma_bump_step(cmap@, cur_name@, i as int);
                }
                cmap.update_inst(cur_name.as_str());
                proof {
                    assert(step_spec(program@, st, s) == Ok::<BuildSt, ProfError>(
                        BuildSt { cmap: cmap@, cur: st.cur },
                    ));
                }
            } else {
                if s.pc == 0 {
                    proof {
                        lemma_build_err_persists(
                            program@,
                            trace@,
                            i as int + 1,
                            trace@.len() as int,
                        );
                    }
                    return Err(ProfError::MissingDebugInfo);
                }
                match program.get(s.pc - 1) {
                    None => {
                        proof {
                            lemma_build_err_persists(
                                program@,
                                trace@,
                                i as int + 1,
                                trace@.len() as int,
                            );
                        }
                        return Err(ProfError::MissingDebugInfo);
                    },
                    Some(scope) => {
                        let slen = scope.len();
                        proof {
                            assert(scope.deep_view() == program@[s.pc - 1]);
                            assert(scope.deep_view().len() == slen as int);
                        }
                        if slen != 2 && slen != 3 {
                            proof {
                                lemma_build_err_persists(
                                    program@,
                                    trace@,
                                    i as int + 1,
                                    trace@.len() as int,
                                );
                            }
                            return Err(ProfError::MalformedScopeChain);
                        }
                        if s.ap != s.fp {
                            let target = scope[slen - 1].clone();
                            proof {
                                assert(target@ == scope.deep_view().last());
                            }
                            match cmap.find_index(target.as_str()) {
                                None => {
                                    proof {
                                        lemma_build_err_persists(
                                            program@,
                                            trace@,
                                            i as int + 1,
                                            trace@.len() as int,
                                        );
                                    }
                                    return Err(ProfError::UnknownFunction);
                                },
                                Some(_) => {
                                    proof {
                                        lemma_find_fun(cmap@, target@);
                                        assert(fun_of(cmap@, target@).proper_inst <= i as int);
                                        lemma_bump_step(cmap@, target@, i as int);
                                    }
                                    cmap.update_inst(target.as_str());
                                    cur_fp = s.fp;
                                    cur_set = true;
                                    cur_name = target;
                                },
                            }
                        } else {
                            let callee: String = if slen == 3 {
                                scope[2].clone()
                            } else {
                                scope[1].clone()
                            };
                            let ghost mod_v: Option<Seq<char>> = if slen == 3 {
                                Some(scope.deep_view()[1])
                            } else {
                                None
                            };
                            let ghost caller_v: Option<Seq<char>> = if cur_set {
                                Some(cur_name@)
                            } else {
                                None
                            };
                            proof {
                                if contains_fun(cmap@, callee@) {
                                    lemma_find_fun(cmap@, callee@);
                                    assert(fun_of(cmap@, callee@).proper_inst <= i as int);
                                    assert(fun_of(cmap@, callee@).called <= i as int);
                                }
                                lemma_call_step(
                                    cmap@,
                                    scope.deep_view()[0],
                                    callee@,
                                    mod_v,
                                    caller_v,
                                    i as int,
                                );
                            }
                            let ghost m_mid = map_callee(
                                cmap@,
                                scope.deep_view()[0],
                                callee@,
                                mod_v,
                                caller_v,
                            );
                            if slen == 3 {
                                let module_s = scope[1].clone();
                                cmap.update_callee(
                                    scope[0].as_str(),
                                    callee.as_str(),
                                    Some(module_s.as_str()),
                                    if cur_set {
                                        Some(cur_name.as_str())
                                    } else {
                                        None
                                    },
                                );
                            } else {
                                cmap.update_callee(
                                    scope[0].as_str(),
                                    callee.as_str(),
                                    None,
                                    if cur_set {
                                        Some(cur_name.as_str())
                                    } else {
                                        None
                                    },
                                );
                            }
                            proof {
                                assert(cmap@ == m_mid);
                            }
                            if cur_set {
                                cmap.update_caller(cur_name.as_str(), callee.as_str());
                            }
                            proof {
                                assert(cmap@ == map_caller(m_mid, caller_v, callee@));
                            }
                            cur_fp = s.fp;
                            cur_set = true;
                            cur_name = callee;
                        }
                    },
                }
            }
            i = i + 1;
        }
        match cmap.root() {
            Err(_) => {
                proof {
                    assert(cmap@.len() == 0);
                    assert(trace@.len() == 0);
                }
                return Err(ProfError::NoRootFound);
            },
            Ok(_) => {},
        }
        let ghost flat = cmap@;
        proof {
            assert(build_map(program@, trace@) == Ok::<Seq<FunModel>, ProfError>(flat));
            assert(trace@.len() > 0);
            assert forall|k: int| 0 <= k < flat.len() implies (#[trigger] flat[k]).proper_inst
                >= 0 by {
                assert(flat[k] == cmap.cmap@[k]@);
            }
        }
        match cmap.compute_cumul() {
            Err(e) => {
                return Err(e);
            },
            Ok(_) => {},
        }
        proof {
            assert(flat.len() == cmap@.len());
            assert forall|k: int|
                0 <= k < flat.len() implies (#[trigger] cmap@[k]).name == flat[k].name && cmap@[
                k].callees == flat[k].callees && cmap@[k].callers == flat[k].callers && cmap@[
                k].proper_inst == flat[k].proper_inst && cmap@[k].no_caller
                == flat[k].no_caller by {
                assert(cmap@[k] == (FunModel { cumul_inst: cmap@[k].cumul_inst, ..flat[k] }));
            }
            lemma_sum_proper_pointwise(cmap@, flat);
            lemma_root_count_pointwise(cmap@, flat);
            lemma_edges_eq(flat, cmap@);
            lemma_find_names_eq(flat, cmap@);
            assert forall|k: int| 0 <= k < cmap@.len() implies wf_fun(#[trigger] cmap@[k]) by {
                assert(wf_fun(flat[k]));
            }
            lemma_cumul_equation(flat, cmap@);
            assert forall|k: int| 0 <= k < flat.len() implies cumul_ok_at(flat, k) by {
                assert(cumul_spec(flat, flat[k].name, flat.len() as nat) == Some(
                    cmap@[k].cumul_inst,
                ));
            }
        }
        Ok(cmap)
    }

    /// Post-build consistency check: a finished map must attribute
    /// exactly one proper instruction per trace step.
    pub fn check_inst_count(&self, trace_len: usize) -> (r: Result<(), ProfError>)
        ensures
            r is Ok <==> sum_proper(self@) == trace_len as int,
            r is Err ==> (r matches Err(e) && e == ProfError::InstructionCountMismatch),
    {
        let n = self.cmap.len();
        let mut acc: u128 = 0;
        let mut j: usize = 0;
        while j < n
            invariant
                j <= n,
                n == self.cmap@.len(),
                acc as int == sum_proper(self@.subrange(0, j as int)),
                acc as int <= (j as int) * (u32::MAX as int),
            decreases n - j,
        {
            proof {
                assert(self@.subrange(0, j as int + 1).drop_last() =~= self@.subrange(
                    0,
                    j as int,
                ));
                assert(self@.subrange(0, j as int + 1).last() == self@[j as int]);
                assert(self@[j as int].proper_inst == self.cmap@[j as int]@.proper_inst);
                assert((j as int + 1) * (u32::MAX as int) == (j as int) * (u32::MAX as int) + (
                u32::MAX as int)) by (nonlinear_arith);
                assert((j as int + 1) * (u32::MAX as int) < 0x10000000000000000000000000000000)
                    by (nonlinear_arith)
                    requires
                        0 <= j as int,
                        j as int + 1 <= 0x10000000000000000,
                ;
            }
            acc = acc + (self.cmap[j].proper_inst as u128);
            j = j + 1;
        }
        proof {
            assert(self@.subrange(0, n as int) =~= self@);
        }
        if acc == trace_len as u128 {
            Ok(())
        } else {
            Err(ProfError::InstructionCountMismatch)
        }
    }
}

/// The identities in `cs` other than `nm`, in order.
pub open spec fn filter_not(cs: Seq<Seq<char>>, nm: Seq<char>) -> Seq<Seq<char>>
    decreases cs.len(),
{
    if cs.len() == 0 {
        Seq::empty()
    } else {
        let rest = filter_not(cs.drop_last(), nm);
        if cs.last() == nm {
            rest
        } else {
            rest.push(cs.last())
        }
    }
}

pub proof fn lemma_filter_not_mem(cs: Seq<Seq<char>>, nm: Seq<char>, t: int)
    requires
        0 <= t < cs.len(),
        cs[t] != nm,
    ensures
        filter_not(cs, nm).contains(cs[t]),
        filter_not(cs, nm).len() > 0,
    decreases cs.len(),
{
    let f = filter_not(cs, nm);
    if t == cs.len() - 1 {
        assert(f.last() == cs[t]);
        assert(f[f.len() - 1] == cs[t]);
    } else {
        lemma_filter_not_mem(cs.drop_last(), nm, t);
        let rest = filter_not(cs.drop_last(), nm);
        let w = choose|w: int| 0 <= w < rest.len() && rest[w] == cs.drop_last()[t];
        assert(cs.drop_last()[t] == cs[t]);
        assert(f[w] == cs[t]);
    }
}

/// The distinct callees a profile's subtree expands: all but itself.
pub open spec fn filtered_callees(f: FunModel) -> Seq<Seq<char>> {
    filter_not(f.callees, f.name)
}

/// `t` is the call tree that expanding `t.fun` against `m` to depth
/// `fuel` yields: the profile is the map's, and the children are the
/// subtrees of its distinct callees other than itself, in order.
pub open spec fn is_call_tree(m: Seq<FunModel>, t: Node, fuel: nat) -> bool
    decreases fuel,
{
    if !contains_fun(m, t.fun@.name) {
        false
    } else {
        let f = fun_of(m, t.fun@.name);
        let cs = filtered_callees(f);
        &&& t.fun@ == f
        &&& t.callees@.len() == cs.len()
        &&& (if cs.len() == 0 {
            true
        } else {
            fuel > 0 && (forall|k: int|
                0 <= k < cs.len() ==> (#[trigger] t.callees@[k]).fun@.name == cs[k]
                    && is_call_tree(m, t.callees@[k], (fuel - 1) as nat))
        })
    }
}

/// Whether the subtree of `name` can be expanded against `m` within
/// depth `fuel`: every callee on the way is profiled and the chains end.
pub open spec fn expandable(m: Seq<FunModel>, name: Seq<char>, fuel: nat) -> bool
    decreases fuel,
{
    contains_fun(m, name) && {
        let cs = filtered_callees(fun_of(m, name));
        cs.len() == 0 || (fuel > 0 && (forall|k: int|
            0 <= k < cs.len() ==> expandable(m, #[trigger] cs[k], (fuel - 1) as nat)))
    }
}

/// A tree that was expanded shows its root expandable.
pub proof fn lemma_tree_expandable(m: Seq<FunModel>, t: Node, fuel: nat)
    requires
        is_call_tree(m, t, fuel),
    ensures
        expandable(m, t.fun@.name, fuel),
    decreases fuel,
{
    let f = fun_of(m, t.fun@.name);
    let cs = filtered_callees(f);
    if cs.len() > 0 {
        assert forall|k: int| 0 <= k < cs.len() implies expandable(
            m,
            #[trigger] cs[k],
            (fuel - 1) as nat,
        ) by {
            assert(t.callees@[k].fun@.name == cs[k] && is_call_tree(
                m,
                t.callees@[k],
                (fuel - 1) as nat,
            ));
            lemma_tree_expandable(m, t.callees@[k], (fuel - 1) as nat);
        }
    }
}

fn clone_names(v: &Vec<String>) -> (r: Vec<String>)
    ensures
        r.deep_view() == v.deep_view(),
{
    let mut out: Vec<String> = Vec::new();
    let mut j: usize = 0;
    while j < v.len()
        invariant
            j <= v@.len(),
            out@.len() == j,
            forall|t: int| 0 <= t < j ==> (#[trigger] out@[t])@ == v@[t]@,
        decreases v@.len() - j,
    {
        out.push(v[j].clone());
        j = j + 1;
    }
    proof {
        assert forall|t: int|
            0 <= t < v@.len() implies (#[trigger] out.deep_view()[t]) == v.deep_view()[t] by {
            assert(out@[t]@ == v@[t]@);
        }
        assert(out.deep_view() =~= v.deep_view());
    }
    out
}

/// A fresh profile value equal to `f` in every field.
pub fn clone_function(f: &Function) -> (r: Function)
    ensures
        r@ == f@,
{
    let module: Option<String> = match &f.module {
        Some(m) => Some(m.clone()),
        None => None,
    };
    let r = Function {
        file: f.file.clone(),
        name: f.name.clone(),
        module,
        proper_inst: f.proper_inst,
        cumul_inst: f.cumul_inst,
        called: f.called,
        calls: f.calls,
        callers: clone_names(&f.callers),
        callees: clone_names(&f.callees),
        no_caller: f.no_caller,
    };
    proof {
        assert(r@ =~~= f@);
    }
    r
}

/// One node of the fully expanded call tree: a snapshot of a profile
/// and the subtrees of its distinct callees, in first-seen order.
#[derive(Debug)]
pub struct Node {
    pub fun: Function,
    pub callees: Vec<Node>,
}

impl Node {
    /// The call tree rooted at `fun`, expanded against `cmap` to depth
    /// `fuel`. A function absent from the map becomes a childless node of
    /// the given profile; a callee chain deeper than `fuel` means an
    /// indirect call cycle and aborts, as does a callee that was never
    /// profiled (a map finished by the scan has none).
    pub fn next(fun: &Function, cmap: &CallMap, fuel: usize) -> (r: Result<Node, ProfError>)
        ensures
            match r {
                Ok(t) => if contains_fun(cmap@, fun@.name) {
                    &&& is_call_tree(cmap@, t, fuel as nat)
                    &&& expandable(cmap@, fun@.name, fuel as nat)
                    &&& t.fun@.name == fun@.name
                } else {
                    t.fun@ == fun@ && t.callees@.len() == 0
                },
                Err(e) => {
                    &&& contains_fun(cmap@, fun@.name)
                    &&& !expandable(cmap@, fun@.name, fuel as nat)
                    &&& (e == ProfError::UnboundedRecursion || e == ProfError::UnknownFunction)
                },
            },
        decreases fuel,
    {
        let ghost m = cmap@;
        let j = match cmap.find_index(fun.name.as_str()) {
            None => {
                return Ok(Node { fun: clone_function(fun), callees: Vec::new() });
            },
            Some(j) => j,
        };
        let myfun = clone_function(&cmap.cmap[j]);
        let ghost myname = m[j as int].name;
        let n = cmap.cmap[j].callees.len();
        let ghost csall = m[j as int].callees;
        let ghost csf = filtered_callees(m[j as int]);
        let mut kids: Vec<Node> = Vec::new();
        let mut k: usize = 0;
        while k < n
            invariant
                k <= n,
                n == csall.len(),
                m == cmap@,
                0 <= (j as int) < m.len(),
                find_fun(m, fun@.name) == j as int,
                myname == m[j as int].name,
                myname == fun@.name,
                myfun@ == m[j as int],
                csall == m[j as int].callees,
                csf == filtered_callees(m[j as int]),
                kids@.len() == filter_not(csall.subrange(0, k as int), myname).len(),
                forall|t: int|
                    0 <= t < kids@.len() ==> (#[trigger] kids@[t]).fun@.name == filter_not(
                        csall.subrange(0, k as int),
                        myname,
                    )[t] && is_call_tree(m, kids@[t], (fuel - 1) as nat),
                fuel == 0 ==> filter_not(csall.subrange(0, k as int), myname).len() == 0,
            decreases n - k,
        {
            proof {
                assert(csall.subrange(0, k as int + 1).drop_last() =~= csall.subrange(
                    0,
                    k as int,
                ));
                assert(csall.subrange(0, k as int + 1).last() == csall[k as int]);
            }
            let cn = cmap.cmap[j].callees[k].clone();
            proof {
                assert(cn@ == csall[k as int]);
            }
            if cn == cmap.cmap[j].name {
                // a direct self-call spawns no subtree
                proof {
                    assert(filter_not(csall.subrange(0, k as int + 1), myname) =~= filter_not(
                        csall.subrange(0, k as int),
                        myname,
                    ));
                }
            } else {
                proof {
                    lemma_filter_not_mem(csall, myname, k as int);
                    assert(csf.contains(csall[k as int]));
                    assert(csf.len() > 0);
                }
                if fuel == 0 {
                    return Err(ProfError::UnboundedRecursion);
                }
                match cmap.find_index(cn.as_str()) {
                    None => {
                        proof {
                            let kf = choose|kf: int|
                                0 <= kf < csf.len() && csf[kf] == csall[k as int];
                            assert(!expandable(m, csf[kf], (fuel - 1) as nat));
                        }
                        return Err(ProfError::UnknownFunction);
                    },
                    Some(jj) => {
                        proof {
                            assert(m[jj as int].name == cn@);
                        }
                        match Self::next(&cmap.cmap[jj], cmap, fuel - 1) {
                            Ok(t) => {
                                kids.push(t);
                                proof {
                                    assert(filter_not(csall.subrange(0, k as int + 1), myname)
                                        =~= filter_not(
                                        csall.subrange(0, k as int),
                                        myname,
                                    ).push(csall[k as int]));
                                }
                            },
                            Err(e) => {
                                proof {
                                    let kf = choose|kf: int|
                                        0 <= kf < csf.len() && csf[kf] == csall[k as int];
                                    assert(!expandable(m, csf[kf], (fuel - 1) as nat));
                                }
                                return Err(e);
                            },
                        }
                    },
                }
            }
            k = k + 1;
        }
        proof {
            assert(csall.subrange(0, n as int) =~= csall);
        }
        let node = Node { fun: myfun, callees: kids };
        proof {
            assert(is_call_tree(m, node, fuel as nat));
            lemma_tree_expandable(m, node, fuel as nat);
        }
        Ok(node)
    }
}

impl CallMap {
    /// The fully expanded call tree of the whole run, rooted at the
    /// program entry point. Fails when no unique entry point exists, and
    /// on an indirect call cycle, whose expansion would never end.
    pub fn call_tree(&self) -> (r: Result<Node, ProfError>)
        ensures
            match r {
                Ok(t) => {
                    &&& has_unique_root(self@)
                    &&& is_call_tree(self@, t, self@.len() as nat)
                    &&& exists|j: int|
                        0 <= j < self@.len() && (#[trigger] self@[j]).no_caller && t.fun@.name
                            == self@[j].name
                },
                Err(e) => {
                    &&& (e == ProfError::NoRootFound ==> !has_unique_root(self@))
                    &&& (e != ProfError::NoRootFound ==> (e == ProfError::UnboundedRecursion || e
                        == ProfError::UnknownFunction) && exists|j: int|
                        0 <= j < self@.len() && (#[trigger] self@[j]).no_caller && !expandable(
                            self@,
                            self@[j].name,
                            self@.len() as nat,
                        ))
                },
            },
    {
        let fuel = self.cmap.len();
        let root = match self.root() {
            Err(_) => {
                return Err(ProfError::NoRootFound);
            },
            Ok(f) => f,
        };
        proof {
            assert(exists|j: int| 0 <= j < self@.len() && self@[j] == root@);
        }
        match Node::next(root, self, fuel) {
            Ok(t) => {
                proof {
                    lemma_find_fun(self@, root@.name);
                    assert(fun_of(self@, root@.name).name == root@.name);
                }
                Ok(t)
            },
            Err(e) => {
                proof {
                    let j = choose|j: int| 0 <= j < self@.len() && self@[j] == root@;
                    assert(self@[j].no_caller);
                }
                Err(e)
            },
        }
    }
}

} // verus!
