//! From written problems to terms and types with De Bruijn indices.
use crate::data::{
    plain_bind, Assignment, AssignmentView, Bind, BindId, BindView, Entry, Meta, MetaId, MetaView,
    Node, NodeView, Var, ES,
};
use crate::es::{appended, first_named, variables, vars_entry};
use crate::frames::sane;
use crate::ids::{next_u64, Fault, Ids, STRIDE};
use crate::index::{DeBruijnIndex, Index, Indexed, Polarity, Slots};
use crate::ir::{IRLet, IRSpine, IRTerm, IRVar};
use crate::memory::{Heap, Store};
use crate::meta::present;
use std::rc::Rc;
use vstd::prelude::*;

verus! {

/// Why a written problem has no meaning.
#[derive(Debug)]
pub enum ElabError {
    /// A variable is used that is not declared.
    Undeclared(String),
    Fault(Fault),
}

/// The view of an `ElabError`.
pub enum ElabErrorView {
    Undeclared(Seq<char>),
    Fault(Fault),
}

impl ElabError {
    pub open spec fn view(&self) -> ElabErrorView {
        match self {
            ElabError::Undeclared(name) => ElabErrorView::Undeclared(name@),
            ElabError::Fault(f) => ElabErrorView::Fault(*f),
        }
    }

    /// What there is to say of the error.
    pub fn message(&self) -> (r: String)
        ensures
            r@ == self@.message(),
    {
        match self {
            ElabError::Undeclared(name) => {
                let mut out: String = "Undeclared variable: ".to_string();
                out.append(name.as_str());
                out
            },
            ElabError::Fault(Fault::Overflow) => "Overflow".to_string(),
            ElabError::Fault(Fault::Exhausted) => "Exhausted".to_string(),
            ElabError::Fault(Fault::Malformed) => "Malformed".to_string(),
        }
    }
}

impl ElabErrorView {
    /// What there is to say of the error.
    pub open spec fn message(self) -> Seq<char> {
        match self {
            ElabErrorView::Undeclared(name) => "Undeclared variable: "@ + name,
            ElabErrorView::Fault(Fault::Overflow) => "Overflow"@,
            ElabErrorView::Fault(Fault::Exhausted) => "Exhausted"@,
            ElabErrorView::Fault(Fault::Malformed) => "Malformed"@,
        }
    }
}

/// What identifies a variable: its entry and its position there.
pub open spec fn var_key(v: Var) -> (u64, Index) {
    (v.entry_id, v.index)
}

/// A set of variables.
pub struct VarSet {
    pub vars: Vec<Var>,
}

impl View for VarSet {
    type V = Set<(u64, Index)>;

    open spec fn view(&self) -> Set<(u64, Index)> {
        Set::new(|k: (u64, Index)| self.holds(k))
    }
}

impl VarSet {
    /// Whether the variable with the key `k` is in the set.
    pub open spec fn holds(&self, k: (u64, Index)) -> bool {
        exists|i: int| 0 <= i < self.vars@.len() && var_key(#[trigger] self.vars@[i]) == k
    }

    /// The set without variables.
    pub fn new() -> (r: VarSet)
        ensures
            r@ == Set::<(u64, Index)>::empty(),
    {
        let r = VarSet { vars: Vec::new() };
        assert(r@ =~= Set::<(u64, Index)>::empty());
        r
    }

    /// Whether the variable is in the set.
    pub fn contains(&self, v: &Var) -> (r: bool)
        ensures
            r == self@.contains(var_key(*v)),
    {
        let mut i: usize = 0;
        while i < self.vars.len()
            invariant
                i <= self.vars@.len(),
                forall|j: int| 0 <= j < i ==> var_key(#[trigger] self.vars@[j]) != var_key(*v),
            decreases self.vars@.len() - i,
        {
            if self.vars[i].entry_id == v.entry_id && self.vars[i].index == v.index {
                assert(var_key(self.vars@[i as int]) == var_key(*v));
                return true;
            }
            i = i + 1;
        }
        false
    }

    /// Adds a variable.
    pub fn insert(&mut self, v: Var)
        ensures
            final(self)@ == old(self)@.insert(var_key(v)),
    {
        if self.contains(&v) {
            assert(self@ =~= old(self)@.insert(var_key(v)));
            return ;
        }
        let ghost before = self.vars@;
        self.vars.push(v);
        assert forall|k: (u64, Index)| #[trigger]
            self@.contains(k) == old(self)@.insert(var_key(v)).contains(k) by {
            if old(self)@.contains(k) {
                let i = choose|i: int| 0 <= i < before.len() && var_key(#[trigger] before[i]) == k;
                assert(self.vars@[i] == before[i]);
            }
            if k == var_key(v) {
                assert(var_key(self.vars@[before.len() as int]) == k);
            }
            if self.holds(k) {
                let i = choose|i: int|
                    0 <= i < self.vars@.len() && var_key(#[trigger] self.vars@[i]) == k;
                if i < before.len() {
                    assert(var_key(before[i]) == k);
                }
            }
        }
        assert(self@ =~= old(self)@.insert(var_key(v)));
    }

    /// Adds all variables of `other`.
    pub fn extend(&mut self, other: &VarSet)
        ensures
            final(self)@ == old(self)@.union(other@),
    {
        let mut i: usize = 0;
        let ghost part = |n: int|
            Set::new(
                |k: (u64, Index)|
                    exists|j: int| 0 <= j < n && var_key(#[trigger] other.vars@[j]) == k,
            );
        assert(self@ =~= old(self)@.union(part(0)));
        while i < other.vars.len()
            invariant
                i <= other.vars@.len(),
                part == (|n: int|
                    Set::new(
                        |k: (u64, Index)|
                            exists|j: int| 0 <= j < n && var_key(#[trigger] other.vars@[j]) == k,
                    )),
                self@ == old(self)@.union(part(i as int)),
            decreases other.vars@.len() - i,
        {
            self.insert(other.vars[i]);
            assert forall|k: (u64, Index)| #[trigger]
                part(i as int).insert(var_key(other.vars@[i as int])).contains(k) == part(
                    i + 1,
                ).contains(k) by {
                if part(i as int).contains(k) {
                    let j = choose|j: int| 0 <= j < i && var_key(#[trigger] other.vars@[j]) == k;
                    assert(var_key(other.vars@[j]) == k);
                }
                if k == var_key(other.vars@[i as int]) {
                    assert(var_key(other.vars@[i as int]) == k);
                }
            }
            assert(part(i as int).insert(var_key(other.vars@[i as int])) =~= part(i + 1));
            assert(self@ =~= old(self)@.union(part(i + 1)));
            i = i + 1;
        }
        assert(part(i as int) =~= other@);
    }

    /// Keeps the variables that belong to neither of the two entries.
    pub fn outside(&self, params_id: u64, lets_id: u64) -> (r: VarSet)
        ensures
            r@ == escaping(self@, params_id, lets_id),
    {
        let mut r = VarSet::new();
        let mut i: usize = 0;
        while i < self.vars.len()
            invariant
                i <= self.vars@.len(),
                forall|k: (u64, Index)| #[trigger]
                    r@.contains(k) <==> (exists|j: int|
                        0 <= j < i && var_key(#[trigger] self.vars@[j]) == k) && k.0 != params_id
                        && k.0 != lets_id,
            decreases self.vars@.len() - i,
        {
            let v: Var = self.vars[i];
            let ghost before = r@;
            if v.entry_id != params_id && v.entry_id != lets_id {
                r.insert(v);
            }
            assert forall|k: (u64, Index)| #[trigger]
                r@.contains(k) <==> (exists|j: int|
                    0 <= j < i + 1 && var_key(#[trigger] self.vars@[j]) == k) && k.0 != params_id
                    && k.0 != lets_id by {
                if before.contains(k) {
                    let j = choose|j: int| 0 <= j < i && var_key(#[trigger] self.vars@[j]) == k;
                    assert(var_key(self.vars@[j]) == k);
                }
                if k == var_key(v) {
                    assert(var_key(self.vars@[i as int]) == k);
                }
                if exists|j: int| 0 <= j < i + 1 && var_key(#[trigger] self.vars@[j]) == k {
                    let j = choose|j: int|
                        0 <= j < i + 1 && var_key(#[trigger] self.vars@[j]) == k;
                    if j < i {
                        assert(var_key(self.vars@[j]) == k);
                    }
                }
            }
            i = i + 1;
        }
        assert(r@ =~= escaping(self@, params_id, lets_id));
        r
    }
}

/// The variables of `used` that belong to neither of the two entries.
pub open spec fn escaping(used: Set<(u64, Index)>, params_id: u64, lets_id: u64) -> Set<
    (u64, Index),
> {
    used.filter(|k: (u64, Index)| k.0 != params_id && k.0 != lets_id)
}

/// How far the elaboration has come: the heap, the next identifier, and for each let
/// declaration its bind and the context in which its rules are to be read.
#[verifier::ext_equal]
pub struct Progressed {
    pub heap: Heap,
    pub next: u64,
    pub sites: Seq<(BindId, Seq<NodeView>)>,
}

/// The places of let declarations.
pub open spec fn site_views(sites: Seq<(BindId, ES)>) -> Seq<(BindId, Seq<NodeView>)> {
    sites.map_values(|s: (BindId, ES)| (s.0, s.1.view()))
}

/// The binds for `vars`.
pub open spec fn var_binds(vars: Seq<IRVar>, polarity: Polarity) -> Seq<BindView> {
    vars.map_values(|v: IRVar| plain_bind(v.name@, polarity))
}

/// The binds for the variables of `lets`.
pub open spec fn let_binds(lets: Seq<IRLet>, polarity: Polarity) -> Seq<BindView> {
    lets.map_values(|d: IRLet| plain_bind(d.var.name@, polarity))
}

/// The `n` binds from `start` on.
pub open spec fn bind_ids(start: nat, n: nat) -> Seq<BindId> {
    Seq::new(n, |i: int| (start + i) as usize)
}

/// The bindings that a term with the given parameters and lets introduces.
pub open spec fn new_bindings(h: Heap, params: Seq<IRVar>, lets: Seq<IRLet>) -> Slots<BindId> {
    Slots {
        params: bind_ids(h.binds.len(), params.len()),
        lets: bind_ids(h.binds.len() + params.len(), lets.len()),
    }
}

/// The context `es`, extended by the parameters and lets of a term.
pub open spec fn extended_es(
    s: Progressed,
    params: Seq<IRVar>,
    lets: Seq<IRLet>,
    es: Seq<NodeView>,
) -> Seq<NodeView> {
    appended(
        es,
        NodeView {
            entry: vars_entry(s.next, (s.next + STRIDE) as u64),
            bindings: new_bindings(s.heap, params, lets),
        },
    )
}

/// The state after a context has been extended by the parameters and lets of a term.
pub open spec fn extension(
    s: Progressed,
    params: Seq<IRVar>,
    lets: Seq<IRLet>,
    es: Seq<NodeView>,
    polarity: Polarity,
) -> Result<Progressed, ElabErrorView> {
    if s.next + 2 * STRIDE > u64::MAX {
        Err(ElabErrorView::Fault(Fault::Exhausted))
    } else {
        Ok(
            Progressed {
                heap: Heap {
                    binds: s.heap.binds + var_binds(params, polarity) + let_binds(lets, polarity),
                    ..s.heap
                },
                next: (s.next + 2 * STRIDE) as u64,
                sites: s.sites + new_bindings(s.heap, params, lets).lets.map_values(
                    |b: BindId| (b, extended_es(s, params, lets, es)),
                ),
            },
        )
    }
}

/// A metavariable of the original problem, yet without its assignment.
pub open spec fn original_meta(es: Seq<NodeView>, bindings: Slots<BindId>) -> MetaView {
    MetaView {
        assignment: None,
        gamma: es,
        constraints: Seq::empty(),
        typ: None,
        bindings,
        from_original_problem: true,
        had_rigid_equation: false,
        parent: None,
    }
}

/// The assignment of a metavariable of the original problem.
pub open spec fn original_assignment(
    head: DeBruijnIndex,
    args: Seq<MetaId>,
    bind: BindId,
) -> AssignmentView {
    AssignmentView {
        head,
        args,
        bind,
        changes: Seq::empty(),
        has_rigid_type: true,
        var_type: None,
    }
}

/// The variables that a head contributes to those that are used: itself, if it is a goal.
pub open spec fn head_used(h: Heap, v: Var) -> Set<(u64, Index)> {
    if h.binds[v.bind as int].polarity is Goal {
        Set::<(u64, Index)>::empty().insert(var_key(v))
    } else {
        Set::empty()
    }
}

/// A spine in the context `es`: the head is looked up, and the arguments are elaborated in turn.
/// Gives the metavariable and the variables that are used.
pub open spec fn body(
    s: Progressed,
    spine: IRSpine,
    es: Seq<NodeView>,
    bindings: Slots<BindId>,
    polarity: Polarity,
) -> Result<(Progressed, MetaId, Set<(u64, Index)>), ElabErrorView>
    decreases spine, 0nat,
{
    match first_named(s.heap, variables(es), spine.head@, 0) {
        None => Err(ElabErrorView::Undeclared(spine.head@)),
        Some((head, var)) => {
            let m = s.heap.metas.len() as MetaId;
            let s1 = Progressed {
                heap: Heap { metas: s.heap.metas.push(original_meta(es, bindings)), ..s.heap },
                ..s
            };
            match body_args(s1, spine.args@, es, polarity, spine.args@.len()) {
                Err(e) => Err(e),
                Ok((s2, args, used)) => Ok(
                    (
                        Progressed {
                            heap: s2.heap.with_assignment(
                                m,
                                Some(original_assignment(head, args, var.bind)),
                            ),
                            ..s2
                        },
                        m,
                        head_used(s.heap, var).union(used),
                    ),
                ),
            }
        },
    }
}

/// The first `k` arguments in the context `es`.
pub open spec fn body_args(
    s: Progressed,
    args: Seq<IRTerm>,
    es: Seq<NodeView>,
    polarity: Polarity,
    k: nat,
) -> Result<(Progressed, Seq<MetaId>, Set<(u64, Index)>), ElabErrorView>
    decreases args, k,
{
    if k == 0 || k > args.len() {
        Ok((s, Seq::empty(), Set::empty()))
    } else {
        match body_args(s, args, es, polarity, (k - 1) as nat) {
            Err(e) => Err(e),
            Ok((s1, ids, used)) => match term(s1, args[k - 1], es, polarity) {
                Err(e) => Err(e),
                Ok((s2, m, more)) => Ok((s2, ids.push(m), used.union(more))),
            },
        }
    }
}

/// A term in the context `es`. Gives the metavariable and the variables that are used, without
/// those that the term binds.
pub open spec fn term(
    s: Progressed,
    t: IRTerm,
    es: Seq<NodeView>,
    polarity: Polarity,
) -> Result<(Progressed, MetaId, Set<(u64, Index)>), ElabErrorView>
    decreases t, 0nat,
{
    match extension(s, t.params@, t.lets@, es, polarity.flipped()) {
        Err(e) => Err(e),
        Ok(s1) => match body(
            s1,
            t.spine,
            extended_es(s, t.params@, t.lets@, es),
            new_bindings(s.heap, t.params@, t.lets@),
            polarity,
        ) {
            Err(e) => Err(e),
            Ok((s2, m, used)) => Ok((s2, m, escaping(used, s.next, (s.next + STRIDE) as u64))),
        },
    }
}

impl IRVar {
    /// The bind of this variable.
    pub fn to_bind(&self, polarity: Polarity) -> (r: Bind)
        ensures
            r@ == plain_bind(self.name@, polarity),
    {
        Bind::new(self.name.clone(), polarity)
    }
}

/// The state as a whole.
pub open spec fn progressed(store: Store, ids: Ids, sites: Seq<(BindId, ES)>) -> Progressed {
    Progressed { heap: store@, next: ids.next, sites: site_views(sites) }
}

impl IRTerm {
    /// Return a version of `es` with the lets and params of this term. Also gives the bindings and
    /// the entry that were added. The place of each let declaration is added to `sites`.
    pub fn extend_es(
        &self,
        store: &mut Store,
        es: &ES,
        polarity: Polarity,
        ids: &mut Ids,
        sites: &mut Vec<(BindId, ES)>,
    ) -> (r: Result<(ES, Rc<Indexed<BindId>>, u64, u64), ElabError>)
        ensures
            match r {
                Ok((es2, bindings, params_id, lets_id)) => {
                    let s = progressed(*old(store), *old(ids), old(sites)@);
                    &&& extension(s, self.params@, self.lets@, es@, polarity) == Ok::<
                        Progressed,
                        ElabErrorView,
                    >(progressed(*final(store), *final(ids), final(sites)@))
                    &&& es2@ == extended_es(s, self.params@, self.lets@, es@)
                    &&& bindings@ == new_bindings(s.heap, self.params@, self.lets@)
                    &&& params_id == s.next
                    &&& lets_id == s.next + STRIDE
                },
                Err(e) => extension(
                    progressed(*old(store), *old(ids), old(sites)@),
                    self.params@,
                    self.lets@,
                    es@,
                    polarity,
                ) == Err::<Progressed, ElabErrorView>(e@),
            },
    {
        let ghost s = progressed(*store, *ids, sites@);
        let ghost h = store@;
        if ids.next > u64::MAX - 2 * STRIDE {
            return Err(ElabError::Fault(Fault::Exhausted));
        }
        let mut params: Vec<BindId> = Vec::new();
        let mut i: usize = 0;
        assert(h.binds =~= h.binds + var_binds(self.params@, polarity).take(0));
        while i < self.params.len()
            invariant
                i <= self.params@.len(),
                params@ == bind_ids(h.binds.len(), i as nat),
                store@ == (Heap {
                    binds: h.binds + var_binds(self.params@, polarity).take(i as int),
                    ..h
                }),
            decreases self.params@.len() - i,
        {
            let id: BindId = store.add_bind(self.params[i].to_bind(polarity));
            params.push(id);
            proof {
                let bs = var_binds(self.params@, polarity);
                assert(bs.take(i + 1) =~= bs.take(i as int).push(bs[i as int]));
                assert((h.binds + bs.take(i as int)).push(bs[i as int]) =~= h.binds + bs.take(
                    i + 1,
                ));
                assert(bind_ids(h.binds.len(), (i + 1) as nat) =~= bind_ids(
                    h.binds.len(),
                    i as nat,
                ).push(id));
            }
            i = i + 1;
        }
        let ghost n = self.params@.len();
        let ghost mid = h.binds + var_binds(self.params@, polarity);
        assert(var_binds(self.params@, polarity).take(n as int) =~= var_binds(
            self.params@,
            polarity,
        ));
        assert(mid =~= mid + let_binds(self.lets@, polarity).take(0));
        let mut lets: Vec<BindId> = Vec::new();
        let mut i: usize = 0;
        while i < self.lets.len()
            invariant
                i <= self.lets@.len(),
                n == self.params@.len(),
                mid.len() == h.binds.len() + n,
                lets@ == bind_ids(h.binds.len() + n, i as nat),
                store@ == (Heap {
                    binds: mid + let_binds(self.lets@, polarity).take(i as int),
                    ..h
                }),
            decreases self.lets@.len() - i,
        {
            let id: BindId = store.add_bind(self.lets[i].var.to_bind(polarity));
            lets.push(id);
            proof {
                let bs = let_binds(self.lets@, polarity);
                assert(bs.take(i + 1) =~= bs.take(i as int).push(bs[i as int]));
                assert((mid + bs.take(i as int)).push(bs[i as int]) =~= mid + bs.take(i + 1));
                assert(bind_ids(h.binds.len() + n, (i + 1) as nat) =~= bind_ids(
                    h.binds.len() + n,
                    i as nat,
                ).push(id));
            }
            i = i + 1;
        }
        assert(let_binds(self.lets@, polarity).take(self.lets@.len() as int) =~= let_binds(
            self.lets@,
            polarity,
        ));
        let params_id: u64 = next_u64(ids);
        let lets_id: u64 = next_u64(ids);
        let bindings: Rc<Indexed<BindId>> = Rc::new(Indexed { params, lets });
        assert(bindings@ == new_bindings(h, self.params@, self.lets@));
        let node = Node {
            entry: Entry { params_id, lets_id, subst: None, context: None },
            bindings: bindings.clone(),
        };
        let mut owned_linked = Vec::new();
        let es2: ES = es.append(node, &mut owned_linked);
        let ghost made = new_bindings(h, self.params@, self.lets@).lets.map_values(
            |b: BindId| (b, extended_es(s, self.params@, self.lets@, es@)),
        );
        let ghost before = site_views(sites@);
        let mut i: usize = 0;
        assert(site_views(sites@) =~= before + made.take(0));
        while i < bindings.lets.len()
            invariant
                i <= bindings.lets@.len(),
                bindings@ == new_bindings(h, self.params@, self.lets@),
                es2@ == extended_es(s, self.params@, self.lets@, es@),
                made == new_bindings(h, self.params@, self.lets@).lets.map_values(
                    |b: BindId| (b, extended_es(s, self.params@, self.lets@, es@)),
                ),
                site_views(sites@) == before + made.take(i as int),
            decreases bindings.lets@.len() - i,
        {
            let ghost done = sites@;
            sites.push((bindings.lets[i], es2.clone()));
            proof {
                assert(made[i as int] == (bindings.lets@[i as int], es2@));
                assert(made.take(i + 1) =~= made.take(i as int).push(made[i as int]));
                assert(site_views(sites@) =~= site_views(done).push(made[i as int]));
            }
            i = i + 1;
        }
        assert(made.take(i as int) =~= made);
        Ok((es2, bindings, params_id, lets_id))
    }
}

proof fn lemma_args_fail(
    s: Progressed,
    args: Seq<IRTerm>,
    es: Seq<NodeView>,
    polarity: Polarity,
    k: nat,
    n: nat,
)
    requires
        k <= n <= args.len(),
        body_args(s, args, es, polarity, k) is Err,
    ensures
        body_args(s, args, es, polarity, n) == body_args(s, args, es, polarity, k),
    decreases n - k,
{
    if k < n {
        lemma_args_fail(s, args, es, polarity, k, (n - 1) as nat);
    }
}

/// Elaboration only adds metavariables and binds.
pub proof fn lemma_body_grows(
    s: Progressed,
    spine: IRSpine,
    es: Seq<NodeView>,
    bindings: Slots<BindId>,
    polarity: Polarity,
)
    ensures
        body(s, spine, es, bindings, polarity) matches Ok((s2, m, _)) ==> {
            &&& s.heap.metas.len() < s2.heap.metas.len()
            &&& s2.heap.metas.len() <= usize::MAX ==> s2.heap.metas.take(
                s.heap.metas.len() as int,
            ) == s.heap.metas
            &&& s2.heap.binds.len() >= s.heap.binds.len()
        },
    decreases spine, 0nat,
{
    if let Some((head, var)) = first_named(s.heap, variables(es), spine.head@, 0) {
        let m = s.heap.metas.len() as MetaId;
        let s1 = Progressed {
            heap: Heap { metas: s.heap.metas.push(original_meta(es, bindings)), ..s.heap },
            ..s
        };
        lemma_args_grow(s1, spine.args@, es, polarity, spine.args@.len());
        if let Ok((s2, args, _)) = body_args(s1, spine.args@, es, polarity, spine.args@.len()) {
            let g = s2.heap.with_assignment(m, Some(original_assignment(head, args, var.bind)));
            assert(m < s2.heap.metas.len());
            if g.metas.len() <= usize::MAX {
                assert forall|x: int| 0 <= x < s.heap.metas.len() implies #[trigger] g.metas[x]
                    == s.heap.metas[x] by {
                    assert(s2.heap.metas.take(s1.heap.metas.len() as int)[x] == s1.heap.metas[x]);
                }
                assert(g.metas.take(s.heap.metas.len() as int) =~= s.heap.metas);
            }
        }
    }
}

proof fn lemma_args_grow(
    s: Progressed,
    args: Seq<IRTerm>,
    es: Seq<NodeView>,
    polarity: Polarity,
    k: nat,
)
    ensures
        body_args(s, args, es, polarity, k) matches Ok((s2, ids, _)) ==> {
            &&& s.heap.metas.len() <= s2.heap.metas.len()
            &&& s2.heap.metas.len() <= usize::MAX ==> s2.heap.metas.take(
                s.heap.metas.len() as int,
            ) == s.heap.metas
            &&& s2.heap.binds.len() >= s.heap.binds.len()
        },
    decreases args, k,
{
    if k == 0 || k > args.len() {
        assert(s.heap.metas.take(s.heap.metas.len() as int) =~= s.heap.metas);
    } else {
        lemma_args_grow(s, args, es, polarity, (k - 1) as nat);
        if let Ok((s1, ids, used)) = body_args(s, args, es, polarity, (k - 1) as nat) {
            lemma_term_grows(s1, args[k - 1], es, polarity);
            if let Ok((s2, m, more)) = term(s1, args[k - 1], es, polarity) {
                assert(s2.heap.metas.take(s.heap.metas.len() as int) =~= s2.heap.metas.take(
                    s1.heap.metas.len() as int,
                ).take(s.heap.metas.len() as int));
            }
        }
    }
}

pub proof fn lemma_term_grows(s: Progressed, t: IRTerm, es: Seq<NodeView>, polarity: Polarity)
    ensures
        term(s, t, es, polarity) matches Ok((s2, m, _)) ==> {
            &&& s.heap.metas.len() < s2.heap.metas.len()
            &&& s2.heap.metas.len() <= usize::MAX ==> s2.heap.metas.take(
                s.heap.metas.len() as int,
            ) == s.heap.metas
            &&& s2.heap.binds.len() >= s.heap.binds.len()
        },
    decreases t, 0nat,
{
    if let Ok(s1) = extension(s, t.params@, t.lets@, es, polarity.flipped()) {
        lemma_body_grows(
            s1,
            t.spine,
            extended_es(s, t.params@, t.lets@, es),
            new_bindings(s.heap, t.params@, t.lets@),
            polarity,
        );
    }
}

impl IRSpine {
    /// Finds the head `DeBruijnIndex` in the `es` and creates a Meta with `bindings` and
    /// recursively converted arguments.
    pub fn to_body(
        &self,
        store: &mut Store,
        es: &ES,
        bindings: Rc<Indexed<BindId>>,
        polarity: Polarity,
        ids: &mut Ids,
        sites: &mut Vec<(BindId, ES)>,
    ) -> (r: Result<(MetaId, VarSet), ElabError>)
        ensures
            body(
                progressed(*old(store), *old(ids), old(sites)@),
                *self,
                es@,
                bindings@,
                polarity,
            ) == match r {
                Ok((m, used)) => Ok::<(Progressed, MetaId, Set<(u64, Index)>), ElabErrorView>(
                    (progressed(*final(store), *final(ids), final(sites)@), m, used@),
                ),
                Err(e) => Err(e@),
            },
        decreases self, 0nat,
    {
        let ghost s = progressed(*store, *ids, sites@);
        let (head, var): (DeBruijnIndex, Var) = match es.index_of(store, &self.head) {
            None => {
                return Err(ElabError::Undeclared(self.head.clone()));
            },
            Some(found) => found,
        };
        proof {
            lemma_found(store@, variables(es@), self.head@, 0);
        }
        let mut used = VarSet::new();
        match store.bind(var.bind).polarity {
            Polarity::Goal => {
                used.insert(var);
            },
            _ => {},
        }
        let ghost own = used@;
        assert(own == head_used(store@, var));
        let meta = Meta {
            assignment: None,
            gamma: es.clone(),
            constraints: Vec::new(),
            typ: None,
            bindings,
            from_original_problem: true,
            had_rigid_equation: false,
            parent: None,
        };
        assert(meta@.constraints =~= Seq::empty());
        assert(meta@ == original_meta(es@, bindings@));
        let m: MetaId = store.add_meta(meta);
        let ghost s1 = progressed(*store, *ids, sites@);
        let mut args: Vec<MetaId> = Vec::new();
        let mut args_used = VarSet::new();
        let mut i: usize = 0;
        while i < self.args.len()
            invariant
                i <= self.args@.len(),
                m < s1.heap.metas.len(),
                s1.heap.metas.len() <= store@.metas.len(),
                first_named(s.heap, variables(es@), self.head@, 0) == Some((head, var)),
                s == progressed(*old(store), *old(ids), old(sites)@),
                m == s.heap.metas.len(),
                s1 == (Progressed {
                    heap: Heap {
                        metas: s.heap.metas.push(original_meta(es@, bindings@)),
                        ..s.heap
                    },
                    ..s
                }),
                body_args(s1, self.args@, es@, polarity, i as nat) == Ok::<
                    (Progressed, Seq<MetaId>, Set<(u64, Index)>),
                    ElabErrorView,
                >((progressed(*store, *ids, sites@), args@, args_used@)),
            decreases self.args@.len() - i,
        {
            let ghost mid = progressed(*store, *ids, sites@);
            assert(decreases_to!(*self => self.args@));
            assert(decreases_to!(self.args@ => self.args@[i as int]));
            match self.args[i].to_term(store, es, polarity, ids, sites) {
                Err(e) => {
                    proof {
                        lemma_args_fail(
                            s1,
                            self.args@,
                            es@,
                            polarity,
                            (i + 1) as nat,
                            self.args@.len(),
                        );
                    }
                    return Err(e);
                },
                Ok((arg, arg_used)) => {
                    proof {
                        lemma_term_grows(mid, self.args@[i as int], es@, polarity);
                    }
                    args.push(arg);
                    args_used.extend(&arg_used);
                },
            }
            i = i + 1;
        }
        used.extend(&args_used);
        let assignment = Assignment {
            head,
            args: Rc::new(args),
            bind: var.bind,
            changes: Vec::new(),
            has_rigid_type: true,
            var_type: None,
        };
        assert(assignment@ == original_assignment(head, args@, var.bind)) by {
            assert(assignment@.changes =~= Seq::empty());
        }
        store.swap_assignment(m, Some(assignment));
        Ok((m, used))
    }
}

/// A variable that is found has a bind.
proof fn lemma_found(h: Heap, vars: Seq<(DeBruijnIndex, Var)>, name: Seq<char>, k: int)
    requires
        0 <= k,
    ensures
        first_named(h, vars, name, k) matches Some((_, v)) ==> v.bind < h.binds.len()
            && h.binds[v.bind as int].name == name,
    decreases vars.len() - k,
{
    if k < vars.len() {
        lemma_found(h, vars, name, k + 1);
    }
}

impl IRTerm {
    /// Creates a term from this one in the context `es`. Also gives the variables of the context
    /// that are used.
    pub fn to_term(
        &self,
        store: &mut Store,
        es: &ES,
        polarity: Polarity,
        ids: &mut Ids,
        sites: &mut Vec<(BindId, ES)>,
    ) -> (r: Result<(MetaId, VarSet), ElabError>)
        ensures
            term(progressed(*old(store), *old(ids), old(sites)@), *self, es@, polarity) == match r {
                Ok((m, used)) => Ok::<(Progressed, MetaId, Set<(u64, Index)>), ElabErrorView>(
                    (progressed(*final(store), *final(ids), final(sites)@), m, used@),
                ),
                Err(e) => Err(e@),
            },
        decreases self, 0nat,
    {
        let (inner, bindings, params_id, lets_id) = match self.extend_es(
            store,
            es,
            polarity.opposite(),
            ids,
            sites,
        ) {
            Err(e) => {
                return Err(e);
            },
            Ok(x) => x,
        };
        match self.spine.to_body(store, &inner, bindings, polarity, ids, sites) {
            Err(e) => Err(e),
            Ok((m, used)) => Ok((m, used.outside(params_id, lets_id))),
        }
    }
}

proof fn lemma_pushed_sane(h: Heap, m: MetaView)
    requires
        sane(h),
        m.assignment is None,
    ensures
        sane(Heap { metas: h.metas.push(m), ..h }),
{
    let g = Heap { metas: h.metas.push(m), ..h };
    assert forall|x: int|
        0 <= x < g.metas.len() && (#[trigger] g.metas[x]).assignment is Some implies present(
        g,
        g.metas[x].assignment->0.changes,
    ) by {
        assert(present(h, h.metas[x].assignment->0.changes));
    }
    assert forall|x: int, i: int|
        #![trigger g.metas[x].assignment->0.args[i]]
        0 <= x < g.metas.len() && g.metas[x].assignment is Some && 0 <= i
            < g.metas[x].assignment->0.args.len() implies x < g.metas[x].assignment->0.args[i]
        < g.metas.len() by {
        assert(x < h.metas[x].assignment->0.args[i]);
    }
}

/// Elaborating a spine keeps the references within the heap in order. The new metavariable comes
/// after all that there were.
pub proof fn law_body_sane(
    s: Progressed,
    spine: IRSpine,
    es: Seq<NodeView>,
    bindings: Slots<BindId>,
    polarity: Polarity,
)
    requires
        sane(s.heap),
    ensures
        body(s, spine, es, bindings, polarity) matches Ok((s2, m, _)) ==> (s2.heap.metas.len()
            <= usize::MAX ==> sane(s2.heap) && m == s.heap.metas.len() && m < s2.heap.metas.len()),
    decreases spine, 0nat,
{
    lemma_body_grows(s, spine, es, bindings, polarity);
    if let Some((head, var)) = first_named(s.heap, variables(es), spine.head@, 0) {
        let m = s.heap.metas.len() as MetaId;
        let s1 = Progressed {
            heap: Heap { metas: s.heap.metas.push(original_meta(es, bindings)), ..s.heap },
            ..s
        };
        lemma_pushed_sane(s.heap, original_meta(es, bindings));
        lemma_args_sane(s1, spine.args@, es, polarity, spine.args@.len());
        lemma_args_grow(s1, spine.args@, es, polarity, spine.args@.len());
        if let Ok((s2, args, _)) = body_args(s1, spine.args@, es, polarity, spine.args@.len()) {
            let h = s2.heap;
            let g = h.with_assignment(m, Some(original_assignment(head, args, var.bind)));
            if g.metas.len() <= usize::MAX {
                assert forall|x: int|
                    0 <= x < g.metas.len() && (#[trigger] g.metas[x]).assignment
                        is Some implies present(g, g.metas[x].assignment->0.changes) by {
                    if x != m {
                        assert(present(h, h.metas[x].assignment->0.changes));
                    }
                }
                assert forall|x: int, i: int|
                    #![trigger g.metas[x].assignment->0.args[i]]
                    0 <= x < g.metas.len() && g.metas[x].assignment is Some && 0 <= i
                        < g.metas[x].assignment->0.args.len() implies x
                    < g.metas[x].assignment->0.args[i] < g.metas.len() by {
                    if x != m {
                        assert(x < h.metas[x].assignment->0.args[i]);
                    } else {
                        assert(args[i] >= s1.heap.metas.len());
                    }
                }
            }
        }
    }
}

proof fn lemma_args_sane(
    s: Progressed,
    args: Seq<IRTerm>,
    es: Seq<NodeView>,
    polarity: Polarity,
    k: nat,
)
    requires
        sane(s.heap),
    ensures
        body_args(s, args, es, polarity, k) matches Ok((s2, ids, _)) ==> (s2.heap.metas.len()
            <= usize::MAX ==> sane(s2.heap) && forall|i: int|
            0 <= i < ids.len() ==> s.heap.metas.len() <= (#[trigger] ids[i])
                < s2.heap.metas.len()),
    decreases args, k,
{
    if k > 0 && k <= args.len() {
        lemma_args_sane(s, args, es, polarity, (k - 1) as nat);
        lemma_args_grow(s, args, es, polarity, (k - 1) as nat);
        if let Ok((s1, ids, used)) = body_args(s, args, es, polarity, (k - 1) as nat) {
            lemma_term_grows(s1, args[k - 1], es, polarity);
            if let Ok((s2, m, more)) = term(s1, args[k - 1], es, polarity) {
                if s2.heap.metas.len() <= usize::MAX {
                    law_term_sane(s1, args[k - 1], es, polarity);
                }
            }
        }
    }
}

/// Elaborating a term keeps the references within the heap in order. The new metavariable comes
/// after all that there were.
pub proof fn law_term_sane(s: Progressed, t: IRTerm, es: Seq<NodeView>, polarity: Polarity)
    requires
        sane(s.heap),
    ensures
        term(s, t, es, polarity) matches Ok((s2, m, _)) ==> (s2.heap.metas.len() <= usize::MAX
            ==> sane(s2.heap) && m == s.heap.metas.len() && m < s2.heap.metas.len()),
    decreases t, 0nat,
{
    if let Ok(s1) = extension(s, t.params@, t.lets@, es, polarity.flipped()) {
        assert(s1.heap.metas == s.heap.metas);
        assert(sane(s1.heap));
        law_body_sane(
            s1,
            t.spine,
            extended_es(s, t.params@, t.lets@, es),
            new_bindings(s.heap, t.params@, t.lets@),
            polarity,
        );
    }
}

} // verus!
