//! The simulator proper: flattening of the hierarchy into named signals, `initial` scheduling,
//! the time loop over `always` blocks and continuous assignments, and the VCD text.
use vstd::prelude::*;
use crate::codegen::{
    prefix_arms_rel, prefix_stmt_rel, prefix_stmts_rel,
    eval_spec, lhs_width_spec, vcd_ident, vcd_ident_spec, sig_value, stmts_assign, stmts_assign_to, assoc, assoc_get, contains_name, copy_env, env_equal, mask_spec, mask_to_width, output_port_lhs, pfx_name,
    prefix_ir_expr, prefix_stmts, sig_get, sig_set, static_eval, static_spec, SigEnv, SimTables,
    clamp_spec, element_name, elem_width_of, bounds_of, pfx_spec, prefix_rel, output_lhs_spec,
};
use crate::delay_rational::{add_spec, to_femtoseconds_spec, zero_delay, DelayRational};
use crate::expr_const::env_lookup;
use crate::ir::{
    ir_expr_merge_scalar_into_packed_vec, ir_try_eval_const_index_expr, IrAlways, IrAssign, IrBinOp, IrCaseArm, IrExpr, IrInitial,
    IrEdgeKind, IrInstance, IrModule, IrPortConn, IrSensEntry, IrSensitivity, IrStmt, const_index_spec, merge_shape,
};
use crate::strutil::{join_name_index, join_names, joined_name};

verus! {

/// A node of the VCD scope tree: a module instance, its signals and its child instances.
pub struct ScopeNode {
    pub name: String,
    pub signals: Vec<String>,
    pub children: Vec<ScopeNode>,
}

/// A value an `initial` block assigns, and when (femtoseconds).
pub struct InitialEvent {
    pub time_fs: u128,
    pub lhs: String,
    pub val: i64,
}

/// `always #period ...`: a repeating process (clock generators); times in femtoseconds.
pub struct AlwaysDelayProc {
    pub period_fs: u128,
    pub next_fire_fs: u128,
    pub stmts: Vec<IrStmt>,
}

/// Flattened design being built: signal values, widths, memories and processes by name.
pub struct Flat {
    pub signals: SigEnv,
    pub tables: SimTables,
    pub assigns: Vec<IrAssign>,
    pub always_blocks: Vec<IrAlways>,
    pub initial_blocks: Vec<IrInitial>,
    pub signal_order: Vec<String>,
}

/// `ports` has an output port named `pn`.
pub open spec fn output_port_named(ports: Seq<crate::Port>, pn: Seq<char>) -> bool {
    exists|i: int|
        0 <= i < ports.len() && (#[trigger] ports[i]).name@ == pn && ports[i].direction is Some
            && ports[i].direction->0@ == "output"@
}

/// `cuts` splits `added` into `n` consecutive pieces, the `i`-th from `cuts[i]` to `cuts[i + 1]`.
pub open spec fn cut_into(added: Seq<IrAssign>, cuts: Seq<int>, n: int) -> bool {
    &&& 0 <= n
    &&& cuts.len() == n + 1
    &&& cuts[0] == 0
    &&& cuts[n] == added.len()
    &&& forall|i: int, j: int| 0 <= i <= j <= n ==> cuts[i] <= cuts[j]
}

/// The assignments `piece` that connection `c` of an instance adds towards the child: for a
/// named port that is not an output, one assignment of the prefixed parent expression to the
/// child's port signal `inst_prefix__port`; nothing otherwise.
pub open spec fn input_wire(
    c: IrPortConn,
    ports: Seq<crate::Port>,
    inst_prefix: Seq<char>,
    prefix: Seq<char>,
    piece: Seq<IrAssign>,
) -> bool {
    match c.port_name {
        Some(pn) => if !output_port_named(ports, pn@) {
            &&& piece.len() == 1
            &&& piece[0].lhs@ == joined_name(inst_prefix, pn@)
            &&& prefix_rel(c.expr, piece[0].rhs, prefix)
        } else {
            piece.len() == 0
        },
        None => piece.len() == 0,
    }
}

/// The first `n` connections of `conns` add, in order, the pieces of `added` cut at `cuts`
/// (see [`input_wire`]).
pub open spec fn inputs_wired(
    conns: Seq<IrPortConn>,
    n: int,
    ports: Seq<crate::Port>,
    inst_prefix: Seq<char>,
    prefix: Seq<char>,
    added: Seq<IrAssign>,
    cuts: Seq<int>,
) -> bool {
    &&& n <= conns.len()
    &&& cut_into(added, cuts, n)
    &&& forall|i: int|
        0 <= i < n ==> input_wire(#[trigger] conns[i], ports, inst_prefix, prefix, added.subrange(cuts[i], cuts[i + 1]))
}

/// The width recorded for `name` in `widths`, else 0.
pub open spec fn width_or_zero(widths: Seq<(String, usize)>, name: Seq<char>) -> usize {
    match assoc(widths, name) {
        Some(w) => w,
        None => 0,
    }
}

/// The assignments `added` by which the child port signal `child_port` drives the parent
/// expression `parent`: the whole parent signal where it is one ([`output_lhs_spec`]); else, for
/// a constant single-bit select `v[k]` in range of `v`'s width, a read-modify-write of that bit
/// of `v`; else nothing.
pub open spec fn output_drive(parent: IrExpr, child_port: Seq<char>, widths: Seq<(String, usize)>, added: Seq<IrAssign>) -> bool {
    match output_lhs_spec(parent, widths) {
        Some(n) => added.len() == 1 && added[0].lhs@ == n && (added[0].rhs matches IrExpr::Ident(c) && c@ == child_port),
        None => match parent {
            IrExpr::PartSelect { value, msb, lsb } => match *value {
                IrExpr::Ident(v) => {
                    let w = width_or_zero(widths, v@);
                    if const_index_spec(*msb) is Some && const_index_spec(*lsb) == const_index_spec(*msb) && w > 0
                        && 0 <= const_index_spec(*msb)->0 < w {
                        let hi = const_index_spec(*msb)->0;
                        &&& added.len() == 1
                        &&& added[0].lhs@ == v@
                        &&& exists|src: IrExpr|
                            #[trigger] merge_shape(added[0].rhs, v@, hi, src, w) && (src matches IrExpr::Ident(c) && c@
                                == child_port)
                    } else {
                        added.len() == 0
                    }
                },
                _ => added.len() == 0,
            },
            _ => added.len() == 0,
        },
    }
}

/// The assignments `piece` that connection `c` adds from the child: for a named output port,
/// the drive of the prefixed parent expression `pe` from `inst_prefix__port`; nothing otherwise.
pub open spec fn output_wire(
    c: IrPortConn,
    ports: Seq<crate::Port>,
    inst_prefix: Seq<char>,
    prefix: Seq<char>,
    widths: Seq<(String, usize)>,
    pe: IrExpr,
    piece: Seq<IrAssign>,
) -> bool {
    match c.port_name {
        Some(pn) => if output_port_named(ports, pn@) {
            prefix_rel(c.expr, pe, prefix) && output_drive(pe, joined_name(inst_prefix, pn@), widths, piece)
        } else {
            piece.len() == 0
        },
        None => piece.len() == 0,
    }
}

/// The first `n` connections of `conns` add, in order, the pieces of `added` cut at `cuts`
/// (see [`output_wire`]), `pes` holding their prefixed parent expressions.
pub open spec fn outputs_wired(
    conns: Seq<IrPortConn>,
    n: int,
    ports: Seq<crate::Port>,
    inst_prefix: Seq<char>,
    prefix: Seq<char>,
    widths: Seq<(String, usize)>,
    added: Seq<IrAssign>,
    cuts: Seq<int>,
    pes: Seq<IrExpr>,
) -> bool {
    &&& n <= conns.len()
    &&& cut_into(added, cuts, n)
    &&& pes.len() == n
    &&& forall|i: int|
        0 <= i < n ==> output_wire(
            #[trigger] conns[i],
            ports,
            inst_prefix,
            prefix,
            widths,
            pes[i],
            added.subrange(cuts[i], cuts[i + 1]),
        )
}

/// `assigns` holds, for each named connection of `inst` to a port of its (known) child module
/// that is not an output, the assignment of the prefixed parent expression to the child's port
/// signal `prefix__instance__port`.
pub open spec fn inst_inputs_present(assigns: Seq<IrAssign>, modules: Seq<IrModule>, inst: IrInstance, prefix: Seq<char>) -> bool {
    match last_module_named(modules, inst.module_name@) {
        None => true,
        Some(ci) => forall|k: int|
            #![trigger inst.connections@[k]]
            0 <= k < inst.connections@.len() && inst.connections@[k].port_name is Some && !output_port_named(
                modules[ci].ports@,
                inst.connections@[k].port_name->0@,
            ) ==> exists|q: int|
                0 <= q < assigns.len() && (#[trigger] assigns[q]).lhs@ == joined_name(
                    pfx_spec(prefix, inst.instance_name@),
                    inst.connections@[k].port_name->0@,
                ) && prefix_rel(inst.connections@[k].expr, assigns[q].rhs, prefix),
    }
}

/// `assigns` holds, for each named connection of `inst` to an output port of its (known) child
/// module, a run of assignments by which the child's port signal drives the prefixed parent
/// expression (see [`output_drive`], under some signal widths).
pub open spec fn inst_outputs_present(assigns: Seq<IrAssign>, modules: Seq<IrModule>, inst: IrInstance, prefix: Seq<char>) -> bool {
    match last_module_named(modules, inst.module_name@) {
        None => true,
        Some(ci) => forall|k: int|
            #![trigger inst.connections@[k]]
            0 <= k < inst.connections@.len() && inst.connections@[k].port_name is Some && output_port_named(
                modules[ci].ports@,
                inst.connections@[k].port_name->0@,
            ) ==> exists|pe: IrExpr, widths: Seq<(String, usize)>, a: int, b: int|
                0 <= a <= b <= assigns.len() && prefix_rel(inst.connections@[k].expr, pe, prefix) && #[trigger] output_drive(
                    pe,
                    joined_name(pfx_spec(prefix, inst.instance_name@), inst.connections@[k].port_name->0@),
                    widths,
                    assigns.subrange(a, b),
                ),
    }
}

/// The wiring of an instance found in `a` is still found in `b`, which extends `a`.
proof fn lemma_wires_present_grow(a: Seq<IrAssign>, b: Seq<IrAssign>, modules: Seq<IrModule>, inst: IrInstance, prefix: Seq<char>)
    requires
        a.len() <= b.len(),
        b.take(a.len() as int) == a,
        inst_inputs_present(a, modules, inst, prefix),
        inst_outputs_present(a, modules, inst, prefix),
    ensures
        inst_inputs_present(b, modules, inst, prefix),
        inst_outputs_present(b, modules, inst, prefix),
{
    if let Some(ci) = last_module_named(modules, inst.module_name@) {
        assert forall|k: int|
            #![trigger inst.connections@[k]]
            0 <= k < inst.connections@.len() && inst.connections@[k].port_name is Some && !output_port_named(
                modules[ci].ports@,
                inst.connections@[k].port_name->0@,
            ) implies exists|q: int|
                0 <= q < b.len() && (#[trigger] b[q]).lhs@ == joined_name(
                    pfx_spec(prefix, inst.instance_name@),
                    inst.connections@[k].port_name->0@,
                ) && prefix_rel(inst.connections@[k].expr, b[q].rhs, prefix) by {
            let q = choose|q: int|
                0 <= q < a.len() && (#[trigger] a[q]).lhs@ == joined_name(
                    pfx_spec(prefix, inst.instance_name@),
                    inst.connections@[k].port_name->0@,
                ) && prefix_rel(inst.connections@[k].expr, a[q].rhs, prefix);
            assert(b[q] == a[q]);
        }
        assert forall|k: int|
            #![trigger inst.connections@[k]]
            0 <= k < inst.connections@.len() && inst.connections@[k].port_name is Some && output_port_named(
                modules[ci].ports@,
                inst.connections@[k].port_name->0@,
            ) implies exists|pe: IrExpr, w: Seq<(String, usize)>, x: int, y: int|
                0 <= x <= y <= b.len() && prefix_rel(inst.connections@[k].expr, pe, prefix) && #[trigger] output_drive(
                    pe,
                    joined_name(pfx_spec(prefix, inst.instance_name@), inst.connections@[k].port_name->0@),
                    w,
                    b.subrange(x, y),
                ) by {
            let (pe, w, x, y) = choose|pe: IrExpr, w: Seq<(String, usize)>, x: int, y: int|
                0 <= x <= y <= a.len() && prefix_rel(inst.connections@[k].expr, pe, prefix) && #[trigger] output_drive(
                    pe,
                    joined_name(pfx_spec(prefix, inst.instance_name@), inst.connections@[k].port_name->0@),
                    w,
                    a.subrange(x, y),
                );
            assert(b.subrange(x, y) =~= a.subrange(x, y));
        }
    }
}

/// Every instance of `module` under `prefix`, and of its known child modules below it down to
/// `depth` levels, has its port connections wired in `assigns` ([`inst_inputs_present`],
/// [`inst_outputs_present`]).
pub open spec fn wired_below(assigns: Seq<IrAssign>, modules: Seq<IrModule>, module: IrModule, prefix: Seq<char>, depth: nat) -> bool
    decreases depth,
{
    depth > 0 ==> forall|j: int|
        0 <= j < module.instances@.len() ==> {
            &&& inst_inputs_present(assigns, modules, #[trigger] module.instances@[j], prefix)
            &&& inst_outputs_present(assigns, modules, module.instances@[j], prefix)
            &&& match last_module_named(modules, module.instances@[j].module_name@) {
                Some(ci) => 0 <= ci < modules.len() && wired_below(
                    assigns,
                    modules,
                    modules[ci],
                    pfx_spec(prefix, module.instances@[j].instance_name@),
                    (depth - 1) as nat,
                ),
                None => true,
            }
        }
}

/// [`wired_below`] survives appending assignments.
proof fn lemma_wired_below_grow(a: Seq<IrAssign>, b: Seq<IrAssign>, modules: Seq<IrModule>, module: IrModule, prefix: Seq<char>, depth: nat)
    requires
        a.len() <= b.len(),
        b.take(a.len() as int) == a,
        wired_below(a, modules, module, prefix, depth),
    ensures
        wired_below(b, modules, module, prefix, depth),
    decreases depth,
{
    if depth > 0 {
        assert forall|j: int| 0 <= j < module.instances@.len() implies {
            &&& inst_inputs_present(b, modules, #[trigger] module.instances@[j], prefix)
            &&& inst_outputs_present(b, modules, module.instances@[j], prefix)
            &&& match last_module_named(modules, module.instances@[j].module_name@) {
                Some(ci) => 0 <= ci < modules.len() && wired_below(
                    b,
                    modules,
                    modules[ci],
                    pfx_spec(prefix, module.instances@[j].instance_name@),
                    (depth - 1) as nat,
                ),
                None => true,
            }
        } by {
            lemma_wires_present_grow(a, b, modules, module.instances@[j], prefix);
            if let Some(ci) = last_module_named(modules, module.instances@[j].module_name@) {
                lemma_wired_below_grow(
                    a,
                    b,
                    modules,
                    modules[ci],
                    pfx_spec(prefix, module.instances@[j].instance_name@),
                    (depth - 1) as nat,
                );
            }
        }
    }
}

/// The wiring of one instance, stated on the assignments as they stand after flattening it:
/// `a0` before the inputs, `a2` after them, `a3` after the child, `a4` after the outputs.
proof fn lemma_wires_present(
    a0: Seq<IrAssign>,
    a2: Seq<IrAssign>,
    a3: Seq<IrAssign>,
    a4: Seq<IrAssign>,
    modules: Seq<IrModule>,
    inst: IrInstance,
    ci: int,
    prefix: Seq<char>,
    inst_prefix: Seq<char>,
    widths: Seq<(String, usize)>,
)
    requires
        last_module_named(modules, inst.module_name@) == Some(ci),
        0 <= ci < modules.len(),
        inst_prefix == pfx_spec(prefix, inst.instance_name@),
        a0.len() <= a2.len() <= a3.len() <= a4.len(),
        a2.take(a0.len() as int) == a0,
        a3.take(a2.len() as int) == a2,
        a4.take(a3.len() as int) == a3,
        exists|cuts: Seq<int>|
            inputs_wired(
                inst.connections@,
                inst.connections@.len() as int,
                modules[ci].ports@,
                inst_prefix,
                prefix,
                a2.skip(a0.len() as int),
                cuts,
            ),
        exists|cuts: Seq<int>, pes: Seq<IrExpr>|
            outputs_wired(
                inst.connections@,
                inst.connections@.len() as int,
                modules[ci].ports@,
                inst_prefix,
                prefix,
                widths,
                a4.skip(a3.len() as int),
                cuts,
                pes,
            ),
    ensures
        inst_inputs_present(a4, modules, inst, prefix),
        inst_outputs_present(a4, modules, inst, prefix),
{
    let cuts = choose|cuts: Seq<int>|
        inputs_wired(
            inst.connections@,
            inst.connections@.len() as int,
            modules[ci].ports@,
            inst_prefix,
            prefix,
            a2.skip(a0.len() as int),
            cuts,
        );
    let added = a2.skip(a0.len() as int);
    assert forall|k: int|
        #![trigger inst.connections@[k]]
        0 <= k < inst.connections@.len() && inst.connections@[k].port_name is Some && !output_port_named(
            modules[ci].ports@,
            inst.connections@[k].port_name->0@,
        ) implies exists|q: int|
            0 <= q < a4.len() && (#[trigger] a4[q]).lhs@ == joined_name(
                pfx_spec(prefix, inst.instance_name@),
                inst.connections@[k].port_name->0@,
            ) && prefix_rel(inst.connections@[k].expr, a4[q].rhs, prefix) by {
        assert(input_wire(
            inst.connections@[k],
            modules[ci].ports@,
            inst_prefix,
            prefix,
            added.subrange(cuts[k], cuts[k + 1]),
        ));
        let q = a0.len() + cuts[k];
        assert(cuts[k] <= cuts[k + 1] <= cuts[inst.connections@.len() as int]);
        assert(a4[q] == a3[q]);
        assert(a3[q] == a2[q]);
        assert(added.subrange(cuts[k], cuts[k + 1])[0] == a2[q]);
    }
    let (oc, pes) = choose|cuts: Seq<int>, pes: Seq<IrExpr>|
        outputs_wired(
            inst.connections@,
            inst.connections@.len() as int,
            modules[ci].ports@,
            inst_prefix,
            prefix,
            widths,
            a4.skip(a3.len() as int),
            cuts,
            pes,
        );
    let out = a4.skip(a3.len() as int);
    assert forall|k: int|
        #![trigger inst.connections@[k]]
        0 <= k < inst.connections@.len() && inst.connections@[k].port_name is Some && output_port_named(
            modules[ci].ports@,
            inst.connections@[k].port_name->0@,
        ) implies exists|pe: IrExpr, w: Seq<(String, usize)>, a: int, b: int|
            0 <= a <= b <= a4.len() && prefix_rel(inst.connections@[k].expr, pe, prefix) && #[trigger] output_drive(
                pe,
                joined_name(pfx_spec(prefix, inst.instance_name@), inst.connections@[k].port_name->0@),
                w,
                a4.subrange(a, b),
            ) by {
        assert(output_wire(
            inst.connections@[k],
            modules[ci].ports@,
            inst_prefix,
            prefix,
            widths,
            pes[k],
            out.subrange(oc[k], oc[k + 1]),
        ));
        assert(oc[k] <= oc[k + 1] <= oc[inst.connections@.len() as int]);
        let a = a3.len() + oc[k];
        let b = a3.len() + oc[k + 1];
        assert(a4.subrange(a, b) =~= out.subrange(oc[k], oc[k + 1]));
    }
}

/// Whether `p` is an output port named `pn`.
fn is_output_port(ports: &Vec<crate::Port>, pn: &String) -> (b: bool)
    ensures
        b == exists|i: int|
            0 <= i < ports@.len() && (#[trigger] ports@[i]).name@ == pn@ && ports@[i].direction is Some
                && ports@[i].direction->0@ == "output"@,
{
    let out_word = "output".to_owned();
    let mut i: usize = 0;
    while i < ports.len()
        invariant
            i <= ports.len(),
            out_word@ == "output"@,
            forall|k: int|
                0 <= k < i ==> !((#[trigger] ports@[k]).name@ == pn@ && ports@[k].direction is Some
                    && ports@[k].direction->0@ == "output"@),
        decreases ports.len() - i,
    {
        let hit = match &ports[i].direction {
            Some(d) => ports[i].name == *pn && *d == out_word,
            None => false,
        };
        if hit {
            return true;
        }
        i = i + 1;
    }
    false
}

/// Index of the last module named `name` in `modules`.
pub open spec fn last_module_named(modules: Seq<IrModule>, name: Seq<char>) -> Option<int>
    decreases modules.len(),
{
    if modules.len() == 0 {
        None
    } else if modules.last().name@ == name {
        Some(modules.len() - 1)
    } else {
        last_module_named(modules.drop_last(), name)
    }
}

/// Index of the module named `name` (the last of that name).
fn find_module(modules: &Vec<IrModule>, name: &String) -> (r: Option<usize>)
    ensures
        r matches Some(i) ==> i < modules@.len() && modules@[i as int].name@ == name@,
        r matches Some(i) ==> last_module_named(modules@, name@) == Some(i as int),
        r is None ==> last_module_named(modules@, name@) is None,
{
    let mut i = modules.len();
    assert(modules@.take(i as int) =~= modules@);
    while i > 0
        invariant
            i <= modules.len(),
            last_module_named(modules@, name@) == last_module_named(modules@.take(i as int), name@),
        decreases i,
    {
        assert(modules@.take(i as int).last() == modules@[i - 1]);
        if modules[i - 1].name == *name {
            return Some(i - 1);
        }
        assert(modules@.take(i as int).drop_last() =~= modules@.take(i - 1));
        i = i - 1;
    }
    None
}

/// The names in a list of strings.
pub open spec fn name_set(d: Seq<String>) -> Set<Seq<char>> {
    Set::new(|n: Seq<char>| exists|i: int| 0 <= i < d.len() && (#[trigger] d[i])@ == n)
}

/// The names of the strings `d`, in order.
pub open spec fn names_view(d: Seq<String>) -> Seq<Seq<char>> {
    d.map_values(|x: String| x@)
}

/// `order` with each of `names` appended, in turn, unless it is already there.
pub open spec fn order_after(order: Seq<Seq<char>>, names: Seq<Seq<char>>) -> Seq<Seq<char>>
    decreases names.len(),
{
    if names.len() == 0 {
        order
    } else {
        let o = order_after(order, names.drop_last());
        if o.contains(names.last()) { o } else { o.push(names.last()) }
    }
}

/// The signal names `module` declares under `prefix`: its ports, then its nets, in order.
pub open spec fn module_names(module: IrModule, prefix: Seq<char>) -> Seq<Seq<char>> {
    Seq::new(module.ports@.len(), |q: int| pfx_spec(prefix, module.ports@[q].name@)) + Seq::new(
        module.nets@.len(),
        |q: int| pfx_spec(prefix, module.nets@[q].name@),
    )
}

/// One more name of `names` appended as [`order_after`] says.
proof fn lemma_order_after_step(o: Seq<Seq<char>>, names: Seq<Seq<char>>, k: int)
    requires
        0 <= k < names.len(),
    ensures
        order_after(order_after(o, names.take(k)), seq![names[k]]) == order_after(o, names.take(k + 1)),
{
    let x = order_after(o, names.take(k));
    assert(seq![names[k]].drop_last() =~= Seq::<Seq<char>>::empty());
    assert(order_after(x, Seq::<Seq<char>>::empty()) == x);
    assert(names.take(k + 1).drop_last() =~= names.take(k));
    assert(names.take(k + 1).last() == names[k]);
}

/// The names of a prefix of `b` are a prefix of its names.
proof fn lemma_names_view_prefix(a: Seq<String>, b: Seq<String>)
    requires
        a.len() <= b.len(),
        b.take(a.len() as int) == a,
    ensures
        names_view(b).take(a.len() as int) == names_view(a),
{
    assert forall|i: int| 0 <= i < a.len() implies names_view(b)[i] == names_view(a)[i] by {
        assert(b[i] == a[i]);
    }
    assert(names_view(b).take(a.len() as int) =~= names_view(a));
}

/// An order that extends `s1`, which extends `s0`, extends `s0` too, and its names begin with
/// those of `s1`.
proof fn lemma_order_extends(s0: Seq<String>, s1: Seq<String>, f: Seq<String>)
    requires
        s0.len() <= s1.len() <= f.len(),
        s1.take(s0.len() as int) == s0,
        f.take(s1.len() as int) == s1,
    ensures
        f.take(s0.len() as int) == s0,
        names_view(f).take(s1.len() as int) == names_view(s1),
{
    assert(f.take(s0.len() as int) =~= f.take(s1.len() as int).take(s0.len() as int));
    lemma_names_view_prefix(s1, f);
}

/// The names `b` adds after `l0` are those `a` adds after `l0`, then those `b` adds after `a`.
proof fn lemma_names_added(a: Seq<String>, b: Seq<String>, l0: int)
    requires
        0 <= l0 <= a.len() <= b.len(),
        b.take(a.len() as int) == a,
    ensures
        names_view(b).skip(l0) == names_view(a).skip(l0) + names_view(b).skip(a.len() as int),
{
    assert forall|i: int| 0 <= i < a.len() implies names_view(b)[i] == names_view(a)[i] by {
        assert(b[i] == a[i]);
    }
    assert(names_view(b).skip(l0) =~= names_view(a).skip(l0) + names_view(b).skip(a.len() as int));
}

/// The names of the scopes `nodes`, in order.
pub open spec fn scope_names(nodes: Seq<ScopeNode>) -> Seq<Seq<char>> {
    nodes.map_values(|n: ScopeNode| n.name@)
}

/// The names of the instances of `insts` whose module is known among `modules`, in order: the
/// child scopes that flattening them opens.
pub open spec fn known_instance_names(modules: Seq<IrModule>, insts: Seq<IrInstance>) -> Seq<Seq<char>>
    decreases insts.len(),
{
    if insts.len() == 0 {
        seq![]
    } else {
        let rest = known_instance_names(modules, insts.drop_last());
        if last_module_named(modules, insts.last().module_name@) is Some {
            rest.push(insts.last().instance_name@)
        } else {
            rest
        }
    }
}

/// A name is in [`name_set`] exactly when it is among [`names_view`].
proof fn lemma_name_set_view(d: Seq<String>, n: Seq<char>)
    ensures
        name_set(d).contains(n) == names_view(d).contains(n),
{
    if name_set(d).contains(n) {
        let i = choose|i: int| 0 <= i < d.len() && (#[trigger] d[i])@ == n;
        assert(names_view(d)[i] == n);
    }
    if names_view(d).contains(n) {
        let i = choose|i: int| 0 <= i < names_view(d).len() && names_view(d)[i] == n;
        assert(d[i]@ == n);
    }
}

/// Pushing a string adds its name.
proof fn lemma_name_set_push(d: Seq<String>, s: String)
    ensures
        name_set(d.push(s)) == name_set(d).insert(s@),
{
    let e = d.push(s);
    assert(e[d.len() as int] == s);
    assert forall|n: Seq<char>| name_set(d).insert(s@).contains(n) implies name_set(e).contains(n) by {
        if n != s@ {
            let i = choose|i: int| 0 <= i < d.len() && (#[trigger] d[i])@ == n;
            assert(e[i] == d[i]);
        }
    }
    assert forall|n: Seq<char>| name_set(e).contains(n) implies name_set(d).insert(s@).contains(n) by {
        let i = choose|i: int| 0 <= i < e.len() && (#[trigger] e[i])@ == n;
        if i < d.len() {
            assert(e[i] == d[i]);
        }
    }
    assert(name_set(e) =~= name_set(d).insert(s@));
}

/// While flattening: the known signals are exactly the names of the dump order, all at 0.
pub open spec fn flat_known_wf(signals: Seq<(String, i64)>, order: Seq<String>) -> bool {
    forall|n: Seq<char>|
        #![trigger env_lookup(signals, n)]
        (env_lookup(signals, n) is Some <==> name_set(order).contains(n)) && (env_lookup(signals, n) is Some
            ==> env_lookup(signals, n) == Some(0i64))
}

/// Every port and net of `module` is known under `prefix`.
pub open spec fn module_signals_known(signals: Seq<(String, i64)>, module: IrModule, prefix: Seq<char>) -> bool {
    &&& forall|q: int| 0 <= q < module.ports@.len() ==> env_lookup(signals, pfx_spec(prefix, (#[trigger] module.ports@[q]).name@)) is Some
    &&& forall|q: int| 0 <= q < module.nets@.len() ==> env_lookup(signals, pfx_spec(prefix, (#[trigger] module.nets@[q]).name@)) is Some
}

/// `r` is the `always` block `ab` with its sensitivity signals and statements put under `p`.
pub open spec fn prefix_always_rel(ab: IrAlways, r: IrAlways, p: Seq<char>) -> bool {
    &&& prefix_stmts_rel(ab.stmts@, r.stmts@, p)
    &&& match ab.sensitivity {
        IrSensitivity::Star => r.sensitivity is Star,
        IrSensitivity::EdgeList(es) => {
            &&& r.sensitivity is EdgeList
            &&& r.sensitivity->EdgeList_0@.len() == es@.len()
            &&& forall|k: int|
                0 <= k < es@.len() ==> (#[trigger] r.sensitivity->EdgeList_0@[k]).edge == es@[k].edge
                    && r.sensitivity->EdgeList_0@[k].signal@ == pfx_spec(p, es@[k].signal@)
        },
    }
}

/// `r` is the continuous assignment `a` with both sides put under `p`.
pub open spec fn prefix_assign_rel(a: IrAssign, r: IrAssign, p: Seq<char>) -> bool {
    r.lhs@ == pfx_spec(p, a.lhs@) && prefix_rel(a.rhs, r.rhs, p)
}

/// How many `initial` blocks flattening `module` yields, instances `depth` levels down.
pub open spec fn n_flat_initials(modules: Seq<IrModule>, module: IrModule, depth: nat) -> nat
    decreases depth, 1nat, 0nat,
{
    module.initial_blocks@.len() + if depth == 0 {
        0
    } else {
        n_inst_initials(modules, module.instances@, depth)
    }
}

/// How many `initial` blocks the instances `insts` of a module at depth `depth` yield.
pub open spec fn n_inst_initials(modules: Seq<IrModule>, insts: Seq<IrInstance>, depth: nat) -> nat
    decreases depth, 0nat, insts.len(),
{
    if insts.len() == 0 {
        0
    } else {
        n_inst_initials(modules, insts.drop_last(), depth) + n_one_inst_initials(modules, insts.last(), depth)
    }
}

/// How many `initial` blocks one instance of a module at depth `depth` yields: none for an
/// unknown module.
pub open spec fn n_one_inst_initials(modules: Seq<IrModule>, inst: IrInstance, depth: nat) -> nat
    decreases depth, 0nat, 0nat,
{
    if depth == 0 {
        0
    } else {
        match last_module_named(modules, inst.module_name@) {
            None => 0,
            Some(ci) => n_flat_initials(modules, modules[ci], (depth - 1) as nat),
        }
    }
}

/// `added` is what flattening `module` under `prefix` adds to the `initial` blocks: its own
/// blocks with every name put under `prefix`, then (when `depth` allows) those of each instance
/// of a known module, under `prefix__instance`, one level less deep.
pub open spec fn flat_initials_rel(modules: Seq<IrModule>, module: IrModule, prefix: Seq<char>, depth: nat, added: Seq<IrInitial>) -> bool
    decreases depth, 1nat, 0nat,
{
    let own = module.initial_blocks@.len();
    &&& added.len() == n_flat_initials(modules, module, depth)
    &&& forall|c: int|
        0 <= c < own ==> prefix_stmts_rel((#[trigger] module.initial_blocks@[c]).stmts@, added[c].stmts@, prefix)
    &&& (depth > 0 ==> inst_initials_rel(modules, module.instances@, prefix, depth, added.skip(own as int)))
}

/// `added` is what flattening the instances `insts` adds to the `initial` blocks, in order.
pub open spec fn inst_initials_rel(modules: Seq<IrModule>, insts: Seq<IrInstance>, prefix: Seq<char>, depth: nat, added: Seq<IrInitial>) -> bool
    decreases depth, 0nat, insts.len(),
{
    &&& added.len() == n_inst_initials(modules, insts, depth)
    &&& if insts.len() == 0 {
        true
    } else {
        let k = n_inst_initials(modules, insts.drop_last(), depth);
        &&& inst_initials_rel(modules, insts.drop_last(), prefix, depth, added.take(k as int))
        &&& one_inst_initials_rel(modules, insts.last(), prefix, depth, added.skip(k as int))
    }
}

/// `piece` is what flattening one instance adds to the `initial` blocks.
pub open spec fn one_inst_initials_rel(modules: Seq<IrModule>, inst: IrInstance, prefix: Seq<char>, depth: nat, piece: Seq<IrInitial>) -> bool
    decreases depth, 0nat, 0nat,
{
    if depth == 0 {
        piece.len() == 0
    } else {
        match last_module_named(modules, inst.module_name@) {
            None => piece.len() == 0,
            Some(ci) => flat_initials_rel(modules, modules[ci], pfx_spec(prefix, inst.instance_name@), (depth - 1) as nat, piece),
        }
    }
}

/// How many `always` blocks flattening `module` yields, instances `depth` levels down.
pub open spec fn n_flat_always(modules: Seq<IrModule>, module: IrModule, depth: nat) -> nat
    decreases depth, 1nat, 0nat,
{
    module.always_blocks@.len() + if depth == 0 {
        0
    } else {
        n_inst_always(modules, module.instances@, depth)
    }
}

/// How many `always` blocks the instances `insts` of a module at depth `depth` yield.
pub open spec fn n_inst_always(modules: Seq<IrModule>, insts: Seq<IrInstance>, depth: nat) -> nat
    decreases depth, 0nat, insts.len(),
{
    if insts.len() == 0 {
        0
    } else {
        n_inst_always(modules, insts.drop_last(), depth) + n_one_inst_always(modules, insts.last(), depth)
    }
}

/// How many `always` blocks one instance of a module at depth `depth` yields.
pub open spec fn n_one_inst_always(modules: Seq<IrModule>, inst: IrInstance, depth: nat) -> nat
    decreases depth, 0nat, 0nat,
{
    if depth == 0 {
        0
    } else {
        match last_module_named(modules, inst.module_name@) {
            None => 0,
            Some(ci) => n_flat_always(modules, modules[ci], (depth - 1) as nat),
        }
    }
}

/// `added` is what flattening `module` under `prefix` adds to the `always` blocks: its own
/// blocks put under `prefix`, then those of each instance of a known module.
pub open spec fn flat_always_rel(modules: Seq<IrModule>, module: IrModule, prefix: Seq<char>, depth: nat, added: Seq<IrAlways>) -> bool
    decreases depth, 1nat, 0nat,
{
    let own = module.always_blocks@.len();
    &&& added.len() == n_flat_always(modules, module, depth)
    &&& forall|c: int| 0 <= c < own ==> prefix_always_rel(#[trigger] module.always_blocks@[c], added[c], prefix)
    &&& (depth > 0 ==> inst_always_rel(modules, module.instances@, prefix, depth, added.skip(own as int)))
}

/// `added` is what flattening the instances `insts` adds to the `always` blocks, in order.
pub open spec fn inst_always_rel(modules: Seq<IrModule>, insts: Seq<IrInstance>, prefix: Seq<char>, depth: nat, added: Seq<IrAlways>) -> bool
    decreases depth, 0nat, insts.len(),
{
    &&& added.len() == n_inst_always(modules, insts, depth)
    &&& if insts.len() == 0 {
        true
    } else {
        let k = n_inst_always(modules, insts.drop_last(), depth);
        &&& inst_always_rel(modules, insts.drop_last(), prefix, depth, added.take(k as int))
        &&& one_inst_always_rel(modules, insts.last(), prefix, depth, added.skip(k as int))
    }
}

/// `piece` is what flattening one instance adds to the `always` blocks.
pub open spec fn one_inst_always_rel(modules: Seq<IrModule>, inst: IrInstance, prefix: Seq<char>, depth: nat, piece: Seq<IrAlways>) -> bool
    decreases depth, 0nat, 0nat,
{
    if depth == 0 {
        piece.len() == 0
    } else {
        match last_module_named(modules, inst.module_name@) {
            None => piece.len() == 0,
            Some(ci) => flat_always_rel(modules, modules[ci], pfx_spec(prefix, inst.instance_name@), (depth - 1) as nat, piece),
        }
    }
}

/// One more instance of `initial` blocks appended to what the earlier instances added.
proof fn lemma_inst_initials_step(
    modules: Seq<IrModule>,
    insts: Seq<IrInstance>,
    i: int,
    prefix: Seq<char>,
    depth: nat,
    x: Seq<IrInitial>,
    piece: Seq<IrInitial>,
)
    requires
        0 <= i < insts.len(),
        depth > 0,
        inst_initials_rel(modules, insts.take(i), prefix, depth, x),
        one_inst_initials_rel(modules, insts[i], prefix, depth, piece),
    ensures
        inst_initials_rel(modules, insts.take(i + 1), prefix, depth, x + piece),
{
    let t = insts.take(i + 1);
    assert(t.drop_last() =~= insts.take(i));
    assert(t.last() == insts[i]);
    assert(piece.len() == n_one_inst_initials(modules, insts[i], depth));
    assert((x + piece).take(x.len() as int) =~= x);
    assert((x + piece).skip(x.len() as int) =~= piece);
}

/// One more instance of `always` blocks appended to what the earlier instances added.
proof fn lemma_inst_always_step(
    modules: Seq<IrModule>,
    insts: Seq<IrInstance>,
    i: int,
    prefix: Seq<char>,
    depth: nat,
    x: Seq<IrAlways>,
    piece: Seq<IrAlways>,
)
    requires
        0 <= i < insts.len(),
        depth > 0,
        inst_always_rel(modules, insts.take(i), prefix, depth, x),
        one_inst_always_rel(modules, insts[i], prefix, depth, piece),
    ensures
        inst_always_rel(modules, insts.take(i + 1), prefix, depth, x + piece),
{
    let t = insts.take(i + 1);
    assert(t.drop_last() =~= insts.take(i));
    assert(t.last() == insts[i]);
    assert(piece.len() == n_one_inst_always(modules, insts[i], depth));
    assert((x + piece).take(x.len() as int) =~= x);
    assert((x + piece).skip(x.len() as int) =~= piece);
}

impl Flat {
    /// Registers the ports, nets and unpacked arrays of `module` under `prefix`: each name not
    /// yet known gets value 0, its width, a place in the dump order and in `scope`.
    fn register_module_signals_for_prefix(&mut self, module: &IrModule, prefix: &String, scope: &mut ScopeNode)
        ensures
            final(self).signal_order@.len() >= old(self).signal_order@.len(),
            final(self).initial_blocks == old(self).initial_blocks,
            final(self).always_blocks == old(self).always_blocks,
            final(self).assigns == old(self).assigns,
            forall|n: Seq<char>| #[trigger] env_lookup(old(self).signals@, n) is Some ==> env_lookup(final(self).signals@, n) is Some,
            flat_known_wf(old(self).signals@, old(self).signal_order@) ==> flat_known_wf(
                final(self).signals@,
                final(self).signal_order@,
            ),
            module_signals_known(final(self).signals@, *module, prefix@),
            final(self).signal_order@.take(old(self).signal_order@.len() as int) == old(self).signal_order@,
            flat_known_wf(old(self).signals@, old(self).signal_order@) ==> names_view(final(self).signal_order@)
                == order_after(names_view(old(self).signal_order@), module_names(*module, prefix@)),
            final(scope).name == old(scope).name,
            final(scope).children == old(scope).children,
            names_view(final(scope).signals@) == names_view(old(scope).signals@) + names_view(final(self).signal_order@).skip(
                old(self).signal_order@.len() as int,
            ),
    {
        let ghost names = module_names(*module, prefix@);
        let ghost o0 = names_view(self.signal_order@);
        let ghost np = module.ports@.len() as int;
        assert(names.take(0) =~= Seq::<Seq<char>>::empty());
        let mut a: usize = 0;
        while a < module.mem_arrays.len()
            invariant
                a <= module.mem_arrays.len(),
                self.signal_order == old(self).signal_order,
                self.signals == old(self).signals,
                self.initial_blocks == old(self).initial_blocks,
                self.always_blocks == old(self).always_blocks,
                self.assigns == old(self).assigns,
            decreases module.mem_arrays.len() - a,
        {
            let ma = &module.mem_arrays[a];
            let s = pfx_name(prefix, &ma.stem);
            self.tables.mem_bounds.push((s.clone(), (ma.lo, ma.hi)));
            self.tables.mem_elem_width.push((s, ma.elem_width));
            a = a + 1;
        }
        let mut p: usize = 0;
        while p < module.ports.len()
            invariant
                p <= module.ports.len(),
                self.signal_order@.len() >= old(self).signal_order@.len(),
                self.initial_blocks == old(self).initial_blocks,
                self.always_blocks == old(self).always_blocks,
                self.assigns == old(self).assigns,
                forall|n: Seq<char>| #[trigger] env_lookup(old(self).signals@, n) is Some ==> env_lookup(self.signals@, n) is Some,
                flat_known_wf(old(self).signals@, old(self).signal_order@) ==> flat_known_wf(self.signals@, self.signal_order@),
                forall|q: int|
                    0 <= q < p ==> env_lookup(self.signals@, pfx_spec(prefix@, (#[trigger] module.ports@[q]).name@)) is Some,
                self.signal_order@.take(old(self).signal_order@.len() as int) == old(self).signal_order@,
                names == module_names(*module, prefix@),
                o0 == names_view(old(self).signal_order@),
                np == module.ports@.len(),
                flat_known_wf(old(self).signals@, old(self).signal_order@) ==> names_view(self.signal_order@)
                    == order_after(o0, names.take(p as int)),
                scope.name == old(scope).name,
                scope.children == old(scope).children,
                names_view(scope.signals@) == names_view(old(scope).signals@) + names_view(self.signal_order@).skip(
                    old(self).signal_order@.len() as int,
                ),
            decreases module.ports.len() - p,
        {
            let full = pfx_name(prefix, &module.ports[p].name);
            let ghost before = self.signal_order@;
            self.register_signal(full, module.ports[p].width, scope);
            proof {
                assert(self.signal_order@.take(before.len() as int).take(old(self).signal_order@.len() as int)
                    =~= self.signal_order@.take(old(self).signal_order@.len() as int));
                assert(names[p as int] == full@);
                lemma_order_after_step(o0, names, p as int);
                lemma_names_added(before, self.signal_order@, old(self).signal_order@.len() as int);
            }
            p = p + 1;
        }
        let mut n: usize = 0;
        while n < module.nets.len()
            invariant
                n <= module.nets.len(),
                self.signal_order@.len() >= old(self).signal_order@.len(),
                self.initial_blocks == old(self).initial_blocks,
                self.always_blocks == old(self).always_blocks,
                self.assigns == old(self).assigns,
                forall|n: Seq<char>| #[trigger] env_lookup(old(self).signals@, n) is Some ==> env_lookup(self.signals@, n) is Some,
                flat_known_wf(old(self).signals@, old(self).signal_order@) ==> flat_known_wf(self.signals@, self.signal_order@),
                forall|q: int|
                    0 <= q < module.ports@.len() ==> env_lookup(self.signals@, pfx_spec(prefix@, (#[trigger] module.ports@[q]).name@)) is Some,
                forall|q: int|
                    0 <= q < n ==> env_lookup(self.signals@, pfx_spec(prefix@, (#[trigger] module.nets@[q]).name@)) is Some,
                self.signal_order@.take(old(self).signal_order@.len() as int) == old(self).signal_order@,
                names == module_names(*module, prefix@),
                o0 == names_view(old(self).signal_order@),
                np == module.ports@.len(),
                flat_known_wf(old(self).signals@, old(self).signal_order@) ==> names_view(self.signal_order@)
                    == order_after(o0, names.take(np + n)),
                scope.name == old(scope).name,
                scope.children == old(scope).children,
                names_view(scope.signals@) == names_view(old(scope).signals@) + names_view(self.signal_order@).skip(
                    old(self).signal_order@.len() as int,
                ),
            decreases module.nets.len() - n,
        {
            let full = pfx_name(prefix, &module.nets[n].name);
            let ghost before = self.signal_order@;
            self.register_signal(full, module.nets[n].width, scope);
            proof {
                assert(self.signal_order@.take(before.len() as int).take(old(self).signal_order@.len() as int)
                    =~= self.signal_order@.take(old(self).signal_order@.len() as int));
                assert(names[np + n] == full@);
                lemma_order_after_step(o0, names, np + n);
                lemma_names_added(before, self.signal_order@, old(self).signal_order@.len() as int);
            }
            n = n + 1;
        }
        assert(names.take(np + module.nets@.len()) =~= names);
    }

    /// Registers one flattened signal unless it is already known.
    fn register_signal(&mut self, full: String, width: usize, scope: &mut ScopeNode)
        ensures
            final(self).signal_order@.len() >= old(self).signal_order@.len(),
            final(self).initial_blocks == old(self).initial_blocks,
            final(self).always_blocks == old(self).always_blocks,
            final(self).assigns == old(self).assigns,
            env_lookup(final(self).signals@, full@) is Some,
            forall|n: Seq<char>| #[trigger] env_lookup(old(self).signals@, n) is Some ==> env_lookup(final(self).signals@, n) is Some,
            flat_known_wf(old(self).signals@, old(self).signal_order@) ==> flat_known_wf(
                final(self).signals@,
                final(self).signal_order@,
            ),
            env_lookup(old(self).signals@, full@) is None ==> env_lookup(final(self).signals@, full@) == Some(0i64)
                && final(self).signal_order@ == old(self).signal_order@.push(full),
            env_lookup(old(self).signals@, full@) is Some ==> final(self).signals@ == old(self).signals@
                && final(self).signal_order@ == old(self).signal_order@,
            final(self).signal_order@.take(old(self).signal_order@.len() as int) == old(self).signal_order@,
            flat_known_wf(old(self).signals@, old(self).signal_order@) ==> names_view(final(self).signal_order@)
                == order_after(names_view(old(self).signal_order@), seq![full@]),
            final(scope).name == old(scope).name,
            final(scope).children == old(scope).children,
            names_view(final(scope).signals@) == names_view(old(scope).signals@) + names_view(final(self).signal_order@).skip(
                old(self).signal_order@.len() as int,
            ),
    {
        proof {
            lemma_name_set_view(self.signal_order@, full@);
            assert(seq![full@].drop_last() =~= Seq::<Seq<char>>::empty());
            let o = names_view(self.signal_order@);
            assert(order_after(o, Seq::<Seq<char>>::empty()) == o);
            assert(order_after(o, seq![full@]) == if o.contains(full@) { o } else { o.push(full@) });
            if flat_known_wf(self.signals@, self.signal_order@) {
                assert(env_lookup(self.signals@, full@) is Some <==> name_set(self.signal_order@).contains(full@));
            }
            assert(names_view(self.signal_order@.push(full)) =~= names_view(self.signal_order@).push(full@));
            assert(self.signal_order@.push(full).take(self.signal_order@.len() as int) =~= self.signal_order@);
            assert(names_view(self.signal_order@).skip(self.signal_order@.len() as int) =~= Seq::<Seq<char>>::empty());
            assert(names_view(self.signal_order@.push(full)).skip(self.signal_order@.len() as int) =~= seq![full@]);
            assert(names_view(scope.signals@.push(full)) =~= names_view(scope.signals@).push(full@));
            assert(names_view(scope.signals@) + Seq::<Seq<char>>::empty() =~= names_view(scope.signals@));
        }
        if crate::expr_const::env_get(&self.signals, &full).is_none() {
            let ghost s0 = self.signals@;
            let ghost o0 = self.signal_order@;
            sig_set(&mut self.signals, &full, 0);
            self.tables.widths.push((full.clone(), width));
            self.signal_order.push(full.clone());
            proof {
                lemma_name_set_push(o0, full);
                assert(self.signal_order@ == o0.push(full));
                if flat_known_wf(s0, o0) {
                    assert forall|n: Seq<char>|
                        #![trigger env_lookup(self.signals@, n)]
                        (env_lookup(self.signals@, n) is Some <==> name_set(self.signal_order@).contains(n)) && (
                        env_lookup(self.signals@, n) is Some ==> env_lookup(self.signals@, n) == Some(0i64)) by {
                        if n != full@ {
                            assert(env_lookup(self.signals@, n) == env_lookup(s0, n));
                        }
                    }
                }
            }
            scope.signals.push(full);
        }
    }

    /// Pushes the continuous assignments of `module` with both sides put under `prefix`.
    fn push_prefixed_assigns(&mut self, module: &IrModule, prefix: &String)
        ensures
            final(self).signals == old(self).signals,
            final(self).signal_order == old(self).signal_order,
            final(self).initial_blocks == old(self).initial_blocks,
            final(self).always_blocks == old(self).always_blocks,
            final(self).assigns@.len() == old(self).assigns@.len() + module.assigns@.len(),
            final(self).assigns@.take(old(self).assigns@.len() as int) == old(self).assigns@,
            forall|c: int|
                0 <= c < module.assigns@.len() ==> prefix_assign_rel(
                    #[trigger] module.assigns@[c],
                    final(self).assigns@[old(self).assigns@.len() + c],
                    prefix@,
                ),
    {
        let ghost a0 = self.assigns@;
        let mut a: usize = 0;
        while a < module.assigns.len()
            invariant
                a <= module.assigns.len(),
                self.signals == old(self).signals,
                self.signal_order == old(self).signal_order,
                self.initial_blocks == old(self).initial_blocks,
                self.always_blocks == old(self).always_blocks,
                a0 == old(self).assigns@,
                self.assigns@.len() == a0.len() + a,
                self.assigns@.take(a0.len() as int) == a0,
                forall|c: int| 0 <= c < a ==> prefix_assign_rel(#[trigger] module.assigns@[c], self.assigns@[a0.len() + c], prefix@),
            decreases module.assigns.len() - a,
        {
            let asg = &module.assigns[a];
            let ghost before = self.assigns@;
            self.assigns.push(IrAssign { lhs: pfx_name(prefix, &asg.lhs), rhs: prefix_ir_expr(&asg.rhs, prefix) });
            proof {
                assert(self.assigns@.take(a0.len() as int) =~= before.take(a0.len() as int));
                assert forall|c: int| 0 <= c < a + 1 implies prefix_assign_rel(
                    #[trigger] module.assigns@[c],
                    self.assigns@[a0.len() + c],
                    prefix@,
                ) by {
                    if c < a {
                        assert(self.assigns@[a0.len() + c] == before[a0.len() + c]);
                    }
                }
            }
            a = a + 1;
        }
    }

    /// Pushes the `always` blocks of `module` with sensitivity signals and statements put under
    /// `prefix`.
    fn push_prefixed_always(&mut self, module: &IrModule, prefix: &String)
        ensures
            final(self).signals == old(self).signals,
            final(self).signal_order == old(self).signal_order,
            final(self).initial_blocks == old(self).initial_blocks,
            final(self).assigns == old(self).assigns,
            final(self).always_blocks@.len() == old(self).always_blocks@.len() + module.always_blocks@.len(),
            final(self).always_blocks@.take(old(self).always_blocks@.len() as int) == old(self).always_blocks@,
            forall|c: int|
                0 <= c < module.always_blocks@.len() ==> prefix_always_rel(
                    #[trigger] module.always_blocks@[c],
                    final(self).always_blocks@[old(self).always_blocks@.len() + c],
                    prefix@,
                ),
    {
        let ghost b0 = self.always_blocks@;
        let mut b: usize = 0;
        while b < module.always_blocks.len()
            invariant
                b <= module.always_blocks.len(),
                self.signals == old(self).signals,
                self.signal_order == old(self).signal_order,
                self.initial_blocks == old(self).initial_blocks,
                self.assigns == old(self).assigns,
                b0 == old(self).always_blocks@,
                self.always_blocks@.len() == b0.len() + b,
                self.always_blocks@.take(b0.len() as int) == b0,
                forall|c: int|
                    0 <= c < b ==> prefix_always_rel(#[trigger] module.always_blocks@[c], self.always_blocks@[b0.len() + c], prefix@),
            decreases module.always_blocks.len() - b,
        {
            let ab = &module.always_blocks[b];
            let sens = match &ab.sensitivity {
                IrSensitivity::Star => IrSensitivity::Star,
                IrSensitivity::EdgeList(edges) => {
                    let mut out: Vec<IrSensEntry> = Vec::new();
                    let mut k: usize = 0;
                    while k < edges.len()
                        invariant
                            k <= edges.len(),
                            out@.len() == k,
                            forall|q: int|
                                0 <= q < k ==> (#[trigger] out@[q]).edge == edges@[q].edge && out@[q].signal@ == pfx_spec(
                                    prefix@,
                                    edges@[q].signal@,
                                ),
                        decreases edges.len() - k,
                    {
                        out.push(IrSensEntry { edge: edges[k].edge, signal: pfx_name(prefix, &edges[k].signal) });
                        k = k + 1;
                    }
                    IrSensitivity::EdgeList(out)
                },
            };
            let item = IrAlways { sensitivity: sens, stmts: prefix_stmts(&ab.stmts, prefix) };
            assert(prefix_always_rel(*ab, item, prefix@));
            let ghost before = self.always_blocks@;
            self.always_blocks.push(item);
            proof {
                assert(self.always_blocks@.take(b0.len() as int) =~= before.take(b0.len() as int));
                assert forall|c: int| 0 <= c < b + 1 implies prefix_always_rel(
                    #[trigger] module.always_blocks@[c],
                    self.always_blocks@[b0.len() + c],
                    prefix@,
                ) by {
                    if c < b {
                        assert(self.always_blocks@[b0.len() + c] == before[b0.len() + c]);
                    }
                }
            }
            b = b + 1;
        }
    }

    /// Pushes the `initial` blocks of `module` with every name put under `prefix`.
    fn push_prefixed_initials(&mut self, module: &IrModule, prefix: &String)
        ensures
            final(self).signals == old(self).signals,
            final(self).signal_order == old(self).signal_order,
            final(self).always_blocks == old(self).always_blocks,
            final(self).assigns == old(self).assigns,
            final(self).initial_blocks@.len() == old(self).initial_blocks@.len() + module.initial_blocks@.len(),
            final(self).initial_blocks@.take(old(self).initial_blocks@.len() as int) == old(self).initial_blocks@,
            forall|c: int|
                0 <= c < module.initial_blocks@.len() ==> prefix_stmts_rel(
                    (#[trigger] module.initial_blocks@[c]).stmts@,
                    final(self).initial_blocks@[old(self).initial_blocks@.len() + c].stmts@,
                    prefix@,
                ),
    {
        let ghost i0 = self.initial_blocks@;
        let mut c: usize = 0;
        while c < module.initial_blocks.len()
            invariant
                c <= module.initial_blocks.len(),
                self.signals == old(self).signals,
                self.signal_order == old(self).signal_order,
                self.always_blocks == old(self).always_blocks,
                self.assigns == old(self).assigns,
                i0 == old(self).initial_blocks@,
                self.initial_blocks@.len() == i0.len() + c,
                self.initial_blocks@.take(i0.len() as int) == i0,
                forall|q: int|
                    0 <= q < c ==> prefix_stmts_rel(
                        (#[trigger] module.initial_blocks@[q]).stmts@,
                        self.initial_blocks@[i0.len() + q].stmts@,
                        prefix@,
                    ),
            decreases module.initial_blocks.len() - c,
        {
            let stmts = prefix_stmts(&module.initial_blocks[c].stmts, prefix);
            let ghost before = self.initial_blocks@;
            let item = IrInitial { stmts };
            self.initial_blocks.push(item);
            proof {
                assert(self.initial_blocks@.take(i0.len() as int) =~= before.take(i0.len() as int));
                assert forall|q: int| 0 <= q < c + 1 implies prefix_stmts_rel(
                    (#[trigger] module.initial_blocks@[q]).stmts@,
                    self.initial_blocks@[i0.len() + q].stmts@,
                    prefix@,
                ) by {
                    if q < c {
                        assert(self.initial_blocks@[i0.len() + q] == before[i0.len() + q]);
                    }
                }
            }
            c = c + 1;
        }
    }

    /// Flattens `module` under `prefix`: its continuous assignments, `always` and `initial`
    /// blocks with every name prefixed, then each instance of a known module (at most `depth`
    /// levels down): the child's signals under `prefix__instance`, a continuous assignment into
    /// each child input port, the child itself, then its outputs driving the parent (a whole
    /// signal, or one bit of a packed vector).
    fn flatten_module(
        &mut self,
        module: &IrModule,
        prefix: &String,
        modules: &Vec<IrModule>,
        scope: &mut ScopeNode,
        skip_register: bool,
        depth: usize,
    )
        ensures
            final(self).signal_order@.len() >= old(self).signal_order@.len(),
            forall|n: Seq<char>| #[trigger] env_lookup(old(self).signals@, n) is Some ==> env_lookup(final(self).signals@, n) is Some,
            flat_known_wf(old(self).signals@, old(self).signal_order@) ==> flat_known_wf(
                final(self).signals@,
                final(self).signal_order@,
            ),
            !skip_register ==> module_signals_known(final(self).signals@, *module, prefix@),
            final(self).initial_blocks@.len() >= old(self).initial_blocks@.len(),
            final(self).initial_blocks@.take(old(self).initial_blocks@.len() as int) == old(self).initial_blocks@,
            flat_initials_rel(
                modules@,
                *module,
                prefix@,
                depth as nat,
                final(self).initial_blocks@.skip(old(self).initial_blocks@.len() as int),
            ),
            final(self).always_blocks@.len() >= old(self).always_blocks@.len(),
            final(self).always_blocks@.take(old(self).always_blocks@.len() as int) == old(self).always_blocks@,
            flat_always_rel(
                modules@,
                *module,
                prefix@,
                depth as nat,
                final(self).always_blocks@.skip(old(self).always_blocks@.len() as int),
            ),
            final(self).assigns@.len() >= old(self).assigns@.len() + module.assigns@.len(),
            final(self).assigns@.take(old(self).assigns@.len() as int) == old(self).assigns@,
            forall|c: int|
                0 <= c < module.assigns@.len() ==> prefix_assign_rel(
                    #[trigger] module.assigns@[c],
                    final(self).assigns@[old(self).assigns@.len() + c],
                    prefix@,
                ),
            final(self).signal_order@.take(old(self).signal_order@.len() as int) == old(self).signal_order@,
            !skip_register && flat_known_wf(old(self).signals@, old(self).signal_order@) ==> {
                let own = order_after(names_view(old(self).signal_order@), module_names(*module, prefix@));
                &&& names_view(final(self).signal_order@).take(own.len() as int) == own
                &&& names_view(final(scope).signals@) == names_view(old(scope).signals@) + own.skip(
                    old(self).signal_order@.len() as int,
                )
            },
            skip_register ==> final(scope).signals == old(scope).signals,
            final(scope).name == old(scope).name,
            depth > 0 ==> scope_names(final(scope).children@) == scope_names(old(scope).children@)
                + known_instance_names(modules@, module.instances@),
            wired_below(final(self).assigns@, modules@, *module, prefix@, depth as nat),
        decreases depth, 1nat,
    {
        let ghost s0 = *self;
        if !skip_register {
            self.register_module_signals_for_prefix(module, prefix, scope);
        }
        let ghost sr = *self;
        let ghost scope_r = *scope;
        self.push_prefixed_assigns(module, prefix);
        self.push_prefixed_always(module, prefix);
        self.push_prefixed_initials(module, prefix);
        let ghost s1 = *self;
        let ghost own_i = s1.initial_blocks@.skip(s0.initial_blocks@.len() as int);
        let ghost own_a = s1.always_blocks@.skip(s0.always_blocks@.len() as int);
        proof {
            assert(s1.assigns@.take(s0.assigns@.len() as int) =~= s0.assigns@);
            assert forall|c: int| 0 <= c < module.initial_blocks@.len() implies prefix_stmts_rel(
                (#[trigger] module.initial_blocks@[c]).stmts@,
                own_i[c].stmts@,
                prefix@,
            ) by {
                assert(own_i[c] == s1.initial_blocks@[s0.initial_blocks@.len() + c]);
            }
            assert forall|c: int| 0 <= c < module.always_blocks@.len() implies prefix_always_rel(
                #[trigger] module.always_blocks@[c],
                own_a[c],
                prefix@,
            ) by {
                assert(own_a[c] == s1.always_blocks@[s0.always_blocks@.len() + c]);
            }
        }
        proof {
            if skip_register {
                assert(s1.signal_order@.take(s0.signal_order@.len() as int) =~= s0.signal_order@);
            }
            assert(self.signal_order@.take(s1.signal_order@.len() as int) =~= s1.signal_order@);
            lemma_order_extends(s0.signal_order@, s1.signal_order@, self.signal_order@);
        }
        if depth == 0 {
            return;
        }
        let mut i: usize = 0;
        assert(self.initial_blocks@.skip(s1.initial_blocks@.len() as int) =~= seq![]);
        assert(self.always_blocks@.skip(s1.always_blocks@.len() as int) =~= seq![]);
        assert(module.instances@.take(0) =~= seq![]);
        while i < module.instances.len()
            invariant
                i <= module.instances.len(),
                depth > 0,
                self.signal_order@.len() >= s1.signal_order@.len(),
                forall|n: Seq<char>| #[trigger] env_lookup(s1.signals@, n) is Some ==> env_lookup(self.signals@, n) is Some,
                flat_known_wf(s1.signals@, s1.signal_order@) ==> flat_known_wf(self.signals@, self.signal_order@),
                self.initial_blocks@.len() >= s1.initial_blocks@.len(),
                self.initial_blocks@.take(s1.initial_blocks@.len() as int) == s1.initial_blocks@,
                inst_initials_rel(
                    modules@,
                    module.instances@.take(i as int),
                    prefix@,
                    depth as nat,
                    self.initial_blocks@.skip(s1.initial_blocks@.len() as int),
                ),
                self.always_blocks@.len() >= s1.always_blocks@.len(),
                self.always_blocks@.take(s1.always_blocks@.len() as int) == s1.always_blocks@,
                inst_always_rel(
                    modules@,
                    module.instances@.take(i as int),
                    prefix@,
                    depth as nat,
                    self.always_blocks@.skip(s1.always_blocks@.len() as int),
                ),
                self.assigns@.len() >= s1.assigns@.len(),
                self.assigns@.take(s1.assigns@.len() as int) == s1.assigns@,
                forall|j: int|
                    0 <= j < i ==> {
                        &&& inst_inputs_present(self.assigns@, modules@, #[trigger] module.instances@[j], prefix@)
                        &&& inst_outputs_present(self.assigns@, modules@, module.instances@[j], prefix@)
                        &&& match last_module_named(modules@, module.instances@[j].module_name@) {
                            Some(ci) => 0 <= ci < modules@.len() && wired_below(
                                self.assigns@,
                                modules@,
                                modules@[ci],
                                pfx_spec(prefix@, module.instances@[j].instance_name@),
                                (depth - 1) as nat,
                            ),
                            None => true,
                        }
                    },
                self.signal_order@.len() >= s1.signal_order@.len(),
                self.signal_order@.take(s1.signal_order@.len() as int) == s1.signal_order@,
                scope.name == scope_r.name,
                scope.signals == scope_r.signals,
                scope_names(scope.children@) == scope_names(old(scope).children@) + known_instance_names(
                    modules@,
                    module.instances@.take(i as int),
                ),
            decreases module.instances.len() - i,
        {
            let ghost t0 = *self;
            self.flatten_instance(&module.instances[i], prefix, modules, scope, depth);
            proof {
                assert(module.instances@.take(i + 1).drop_last() =~= module.instances@.take(i as int));
                assert(module.instances@.take(i + 1).last() == module.instances@[i as int]);
                let kn = known_instance_names(modules@, module.instances@.take(i as int));
                assert((scope_names(old(scope).children@) + kn).push(module.instances@[i as int].instance_name@)
                    =~= scope_names(old(scope).children@) + kn.push(module.instances@[i as int].instance_name@));
                assert(self.signal_order@.take(s1.signal_order@.len() as int) =~= self.signal_order@.take(
                    t0.signal_order@.len() as int,
                ).take(s1.signal_order@.len() as int));
                assert forall|j: int| 0 <= j < i + 1 implies {
                    &&& inst_inputs_present(self.assigns@, modules@, #[trigger] module.instances@[j], prefix@)
                    &&& inst_outputs_present(self.assigns@, modules@, module.instances@[j], prefix@)
                    &&& match last_module_named(modules@, module.instances@[j].module_name@) {
                        Some(ci) => 0 <= ci < modules@.len() && wired_below(
                            self.assigns@,
                            modules@,
                            modules@[ci],
                            pfx_spec(prefix@, module.instances@[j].instance_name@),
                            (depth - 1) as nat,
                        ),
                        None => true,
                    }
                } by {
                    if j < i {
                        lemma_wires_present_grow(t0.assigns@, self.assigns@, modules@, module.instances@[j], prefix@);
                        if let Some(ci) = last_module_named(modules@, module.instances@[j].module_name@) {
                            lemma_wired_below_grow(
                                t0.assigns@,
                                self.assigns@,
                                modules@,
                                modules@[ci],
                                pfx_spec(prefix@, module.instances@[j].instance_name@),
                                (depth - 1) as nat,
                            );
                        }
                    }
                }
                let x = t0.initial_blocks@.skip(s1.initial_blocks@.len() as int);
                let piece = self.initial_blocks@.skip(t0.initial_blocks@.len() as int);
                lemma_inst_initials_step(modules@, module.instances@, i as int, prefix@, depth as nat, x, piece);
                assert(self.initial_blocks@.skip(s1.initial_blocks@.len() as int) =~= x + piece) by {
                    assert(self.initial_blocks@.take(t0.initial_blocks@.len() as int) == t0.initial_blocks@);
                }
                assert(self.initial_blocks@.take(s1.initial_blocks@.len() as int) =~= s1.initial_blocks@) by {
                    assert(self.initial_blocks@.take(t0.initial_blocks@.len() as int) == t0.initial_blocks@);
                }
                let xa = t0.always_blocks@.skip(s1.always_blocks@.len() as int);
                let pa = self.always_blocks@.skip(t0.always_blocks@.len() as int);
                lemma_inst_always_step(modules@, module.instances@, i as int, prefix@, depth as nat, xa, pa);
                assert(self.always_blocks@.skip(s1.always_blocks@.len() as int) =~= xa + pa) by {
                    assert(self.always_blocks@.take(t0.always_blocks@.len() as int) == t0.always_blocks@);
                }
                assert(self.always_blocks@.take(s1.always_blocks@.len() as int) =~= s1.always_blocks@) by {
                    assert(self.always_blocks@.take(t0.always_blocks@.len() as int) == t0.always_blocks@);
                }
                assert(self.assigns@.take(s1.assigns@.len() as int) =~= s1.assigns@) by {
                    assert(self.assigns@.take(t0.assigns@.len() as int) == t0.assigns@);
                }
            }
            i = i + 1;
        }
        proof {
            lemma_order_extends(s0.signal_order@, s1.signal_order@, self.signal_order@);
            assert(module.instances@.take(module.instances@.len() as int) =~= module.instances@);
            let xi = self.initial_blocks@.skip(s1.initial_blocks@.len() as int);
            let all_i = self.initial_blocks@.skip(s0.initial_blocks@.len() as int);
            assert(all_i =~= own_i + xi);
            assert(all_i.skip(module.initial_blocks@.len() as int) =~= xi);
            assert forall|c: int| 0 <= c < module.initial_blocks@.len() implies prefix_stmts_rel(
                (#[trigger] module.initial_blocks@[c]).stmts@,
                all_i[c].stmts@,
                prefix@,
            ) by {
                assert(all_i[c] == own_i[c]);
            }
            let xa = self.always_blocks@.skip(s1.always_blocks@.len() as int);
            let all_a = self.always_blocks@.skip(s0.always_blocks@.len() as int);
            assert(all_a =~= own_a + xa);
            assert(all_a.skip(module.always_blocks@.len() as int) =~= xa);
            assert forall|c: int| 0 <= c < module.always_blocks@.len() implies prefix_always_rel(
                #[trigger] module.always_blocks@[c],
                all_a[c],
                prefix@,
            ) by {
                assert(all_a[c] == own_a[c]);
            }
            assert(self.initial_blocks@.take(s0.initial_blocks@.len() as int) =~= s0.initial_blocks@);
            assert(self.always_blocks@.take(s0.always_blocks@.len() as int) =~= s0.always_blocks@);
            assert(self.assigns@.take(s0.assigns@.len() as int) =~= s0.assigns@);
            assert forall|c: int| 0 <= c < module.assigns@.len() implies prefix_assign_rel(
                #[trigger] module.assigns@[c],
                self.assigns@[s0.assigns@.len() + c],
                prefix@,
            ) by {
                assert(self.assigns@[s0.assigns@.len() + c] == s1.assigns@[s0.assigns@.len() + c]);
            }
        }
    }

    /// Flattens one instance of a module at depth `depth`: when its module is known, the child's
    /// signals under `prefix__instance`, a continuous assignment into each child input port, the
    /// child itself one level less deep, then its outputs driving the parent.
    fn flatten_instance(
        &mut self,
        inst: &IrInstance,
        prefix: &String,
        modules: &Vec<IrModule>,
        scope: &mut ScopeNode,
        depth: usize,
    )
        requires
            depth > 0,
        ensures
            final(self).signal_order@.len() >= old(self).signal_order@.len(),
            forall|n: Seq<char>| #[trigger] env_lookup(old(self).signals@, n) is Some ==> env_lookup(final(self).signals@, n) is Some,
            flat_known_wf(old(self).signals@, old(self).signal_order@) ==> flat_known_wf(
                final(self).signals@,
                final(self).signal_order@,
            ),
            final(self).initial_blocks@.len() >= old(self).initial_blocks@.len(),
            final(self).initial_blocks@.take(old(self).initial_blocks@.len() as int) == old(self).initial_blocks@,
            one_inst_initials_rel(
                modules@,
                *inst,
                prefix@,
                depth as nat,
                final(self).initial_blocks@.skip(old(self).initial_blocks@.len() as int),
            ),
            final(self).always_blocks@.len() >= old(self).always_blocks@.len(),
            final(self).always_blocks@.take(old(self).always_blocks@.len() as int) == old(self).always_blocks@,
            one_inst_always_rel(
                modules@,
                *inst,
                prefix@,
                depth as nat,
                final(self).always_blocks@.skip(old(self).always_blocks@.len() as int),
            ),
            final(self).assigns@.len() >= old(self).assigns@.len(),
            final(self).assigns@.take(old(self).assigns@.len() as int) == old(self).assigns@,
            inst_inputs_present(final(self).assigns@, modules@, *inst, prefix@),
            inst_outputs_present(final(self).assigns@, modules@, *inst, prefix@),
            final(self).signal_order@.take(old(self).signal_order@.len() as int) == old(self).signal_order@,
            final(scope).name == old(scope).name,
            final(scope).signals == old(scope).signals,
            scope_names(final(scope).children@) == if last_module_named(modules@, inst.module_name@) is Some {
                scope_names(old(scope).children@).push(inst.instance_name@)
            } else {
                scope_names(old(scope).children@)
            },
            match last_module_named(modules@, inst.module_name@) {
                Some(ci) => 0 <= ci < modules@.len() && wired_below(
                    final(self).assigns@,
                    modules@,
                    modules@[ci],
                    pfx_spec(prefix@, inst.instance_name@),
                    (depth - 1) as nat,
                ),
                None => true,
            },
        decreases depth, 0nat,
    {
        let ghost s0 = *self;
        match find_module(modules, &inst.module_name) {
            None => {
                assert(self.initial_blocks@.skip(s0.initial_blocks@.len() as int) =~= seq![]);
                assert(self.always_blocks@.skip(s0.always_blocks@.len() as int) =~= seq![]);
                assert(self.initial_blocks@.take(s0.initial_blocks@.len() as int) =~= s0.initial_blocks@);
                assert(self.always_blocks@.take(s0.always_blocks@.len() as int) =~= s0.always_blocks@);
                assert(self.assigns@.take(s0.assigns@.len() as int) =~= s0.assigns@);
            },
            Some(ci) => {
                let child = &modules[ci];
                let inst_prefix = pfx_name(prefix, &inst.instance_name);
                let mut child_scope = ScopeNode {
                    name: inst.instance_name.clone(),
                    signals: Vec::new(),
                    children: Vec::new(),
                };
                self.register_module_signals_for_prefix(child, &inst_prefix, &mut child_scope);
                let ghost sw = *self;
                self.wire_child_inputs(inst, child, &inst_prefix, prefix);
                let ghost s2 = *self;
                self.flatten_module(child, &inst_prefix, modules, &mut child_scope, true, depth - 1);
                let ghost cs0 = scope.children@;
                scope.children.push(child_scope);
                assert(scope_names(scope.children@) =~= scope_names(cs0).push(inst.instance_name@));
                let ghost s3 = *self;
                self.drive_child_outputs(inst, child, &inst_prefix, prefix);
                proof {
                    assert(self.initial_blocks@.take(s0.initial_blocks@.len() as int) =~= s0.initial_blocks@) by {
                        assert(s3.initial_blocks@.take(s2.initial_blocks@.len() as int) == s2.initial_blocks@);
                    }
                    assert(self.always_blocks@.take(s0.always_blocks@.len() as int) =~= s0.always_blocks@) by {
                        assert(s3.always_blocks@.take(s2.always_blocks@.len() as int) == s2.always_blocks@);
                    }
                    assert(self.assigns@.take(s0.assigns@.len() as int) =~= s0.assigns@) by {
                        assert(s3.assigns@.take(s2.assigns@.len() as int) == s2.assigns@);
                        assert(s2.assigns@.take(s0.assigns@.len() as int) == s0.assigns@);
                        assert(self.assigns@.take(s3.assigns@.len() as int) == s3.assigns@);
                    }
                    lemma_wired_below_grow(
                        s3.assigns@,
                        self.assigns@,
                        modules@,
                        modules@[ci as int],
                        inst_prefix@,
                        (depth - 1) as nat,
                    );
                    lemma_wires_present(
                        sw.assigns@,
                        s2.assigns@,
                        s3.assigns@,
                        self.assigns@,
                        modules@,
                        *inst,
                        ci as int,
                        prefix@,
                        inst_prefix@,
                        s3.tables.widths@,
                    );
                }
            },
        }
    }

    /// A continuous assignment from the parent expression into each named child input port.
    fn wire_child_inputs(&mut self, inst: &IrInstance, child: &IrModule, inst_prefix: &String, prefix: &String)
        ensures
            final(self).signals == old(self).signals,
            final(self).tables == old(self).tables,
            final(self).signal_order == old(self).signal_order,
            final(self).initial_blocks == old(self).initial_blocks,
            final(self).always_blocks == old(self).always_blocks,
            final(self).assigns@.len() >= old(self).assigns@.len(),
            final(self).assigns@.take(old(self).assigns@.len() as int) == old(self).assigns@,
            exists|cuts: Seq<int>|
                inputs_wired(
                    inst.connections@,
                    inst.connections@.len() as int,
                    child.ports@,
                    inst_prefix@,
                    prefix@,
                    final(self).assigns@.skip(old(self).assigns@.len() as int),
                    cuts,
                ),
    {
        let ghost base = self.assigns@.len() as int;
        let ghost mut cuts: Seq<int> = seq![0int];
        let mut k: usize = 0;
        while k < inst.connections.len()
            invariant
                k <= inst.connections.len(),
                base == old(self).assigns@.len(),
                self.signals == old(self).signals,
                self.tables == old(self).tables,
                self.signal_order == old(self).signal_order,
                self.initial_blocks == old(self).initial_blocks,
                self.always_blocks == old(self).always_blocks,
                self.assigns@.len() >= old(self).assigns@.len(),
                self.assigns@.take(old(self).assigns@.len() as int) == old(self).assigns@,
                inputs_wired(inst.connections@, k as int, child.ports@, inst_prefix@, prefix@, self.assigns@.skip(base), cuts),
            decreases inst.connections.len() - k,
        {
            let conn = &inst.connections[k];
            let ghost old_added = self.assigns@.skip(base);
            match &conn.port_name {
                Some(pn) => {
                    if !is_output_port(&child.ports, pn) {
                        let child_port = join_names(inst_prefix, pn);
                        let parent_expr = prefix_ir_expr(&conn.expr, prefix);
                        let ghost before = self.assigns@;
                        self.assigns.push(IrAssign { lhs: child_port, rhs: parent_expr });
                        assert(self.assigns@.take(old(self).assigns@.len() as int) =~= before.take(
                            old(self).assigns@.len() as int,
                        ));
                    }
                },
                None => {},
            }
            proof {
                let added = self.assigns@.skip(base);
                assert(added.take(old_added.len() as int) =~= old_added);
                let nc = cuts.push(added.len() as int);
                assert forall|i: int| 0 <= i < k implies input_wire(
                    #[trigger] inst.connections@[i],
                    child.ports@,
                    inst_prefix@,
                    prefix@,
                    added.subrange(nc[i], nc[i + 1]),
                ) by {
                    assert(added.subrange(nc[i], nc[i + 1]) =~= old_added.subrange(cuts[i], cuts[i + 1]));
                }
                let piece = added.subrange(nc[k as int], nc[k + 1]);
                if added.len() > old_added.len() {
                    assert(piece =~= seq![added[old_added.len() as int]]);
                } else {
                    assert(piece.len() == 0);
                }
                assert(input_wire(inst.connections@[k as int], child.ports@, inst_prefix@, prefix@, piece));
                cuts = nc;
            }
            k = k + 1;
        }
    }

    /// Each named child output port drives its parent expression (see
    /// [`Flat::drive_parent_from_output`]).
    fn drive_child_outputs(&mut self, inst: &IrInstance, child: &IrModule, inst_prefix: &String, prefix: &String)
        ensures
            final(self).signals == old(self).signals,
            final(self).tables == old(self).tables,
            final(self).signal_order == old(self).signal_order,
            final(self).initial_blocks == old(self).initial_blocks,
            final(self).always_blocks == old(self).always_blocks,
            final(self).assigns@.len() >= old(self).assigns@.len(),
            final(self).assigns@.take(old(self).assigns@.len() as int) == old(self).assigns@,
            exists|cuts: Seq<int>, pes: Seq<IrExpr>|
                outputs_wired(
                    inst.connections@,
                    inst.connections@.len() as int,
                    child.ports@,
                    inst_prefix@,
                    prefix@,
                    old(self).tables.widths@,
                    final(self).assigns@.skip(old(self).assigns@.len() as int),
                    cuts,
                    pes,
                ),
    {
        let ghost base = self.assigns@.len() as int;
        let ghost mut cuts: Seq<int> = seq![0int];
        let ghost mut pes: Seq<IrExpr> = Seq::empty();
        let mut k: usize = 0;
        while k < inst.connections.len()
            invariant
                k <= inst.connections.len(),
                base == old(self).assigns@.len(),
                self.signals == old(self).signals,
                self.tables == old(self).tables,
                self.signal_order == old(self).signal_order,
                self.initial_blocks == old(self).initial_blocks,
                self.always_blocks == old(self).always_blocks,
                self.assigns@.len() >= old(self).assigns@.len(),
                self.assigns@.take(old(self).assigns@.len() as int) == old(self).assigns@,
                outputs_wired(
                    inst.connections@,
                    k as int,
                    child.ports@,
                    inst_prefix@,
                    prefix@,
                    old(self).tables.widths@,
                    self.assigns@.skip(base),
                    cuts,
                    pes,
                ),
            decreases inst.connections.len() - k,
        {
            let conn = &inst.connections[k];
            let ghost old_added = self.assigns@.skip(base);
            let ghost mut pe: IrExpr = conn.expr;
            match &conn.port_name {
                Some(pn) => {
                    if is_output_port(&child.ports, pn) {
                        let child_port = join_names(inst_prefix, pn);
                        let parent_expr = prefix_ir_expr(&conn.expr, prefix);
                        proof {
                            pe = parent_expr;
                        }
                        let ghost before = self.assigns@;
                        self.drive_parent_from_output(parent_expr, child_port);
                        assert(self.assigns@.take(old(self).assigns@.len() as int) =~= before.take(
                            old(self).assigns@.len() as int,
                        ));
                        assert(self.assigns@.skip(base).subrange(old_added.len() as int, self.assigns@.len() - base)
                            =~= self.assigns@.skip(before.len() as int));
                    }
                },
                None => {},
            }
            proof {
                let added = self.assigns@.skip(base);
                assert(added.take(old_added.len() as int) =~= old_added);
                let nc = cuts.push(added.len() as int);
                let np = pes.push(pe);
                assert forall|i: int| 0 <= i < k implies output_wire(
                    #[trigger] inst.connections@[i],
                    child.ports@,
                    inst_prefix@,
                    prefix@,
                    old(self).tables.widths@,
                    np[i],
                    added.subrange(nc[i], nc[i + 1]),
                ) by {
                    assert(np[i] == pes[i]);
                    assert(added.subrange(nc[i], nc[i + 1]) =~= old_added.subrange(cuts[i], cuts[i + 1]));
                }
                let piece = added.subrange(nc[k as int], nc[k + 1]);
                assert(output_wire(
                    inst.connections@[k as int],
                    child.ports@,
                    inst_prefix@,
                    prefix@,
                    old(self).tables.widths@,
                    np[k as int],
                    piece,
                ));
                cuts = nc;
                pes = np;
            }
            k = k + 1;
        }
    }

    /// Drives the parent expression of an output connection from the child port: a whole
    /// signal, or a single in-range bit of a packed vector (read-modify-write).
    fn drive_parent_from_output(&mut self, parent_expr: IrExpr, child_port: String)
        ensures
            final(self).signals == old(self).signals,
            final(self).tables == old(self).tables,
            final(self).signal_order == old(self).signal_order,
            final(self).initial_blocks == old(self).initial_blocks,
            final(self).always_blocks == old(self).always_blocks,
            final(self).assigns@.len() >= old(self).assigns@.len(),
            final(self).assigns@.take(old(self).assigns@.len() as int) == old(self).assigns@,
            output_drive(
                parent_expr,
                child_port@,
                old(self).tables.widths@,
                final(self).assigns@.skip(old(self).assigns@.len() as int),
            ),
    {
        let ghost before = self.assigns@;
        let ghost port = child_port@;
        match output_port_lhs(&parent_expr, &self.tables.widths) {
            Some(parent_sig) => {
                self.assigns.push(IrAssign { lhs: parent_sig, rhs: IrExpr::Ident(child_port) });
            },
            None => {
                if let IrExpr::PartSelect { value, msb, lsb } = &parent_expr {
                    if let IrExpr::Ident(vec_name) = &**value {
                        match (ir_try_eval_const_index_expr(msb), ir_try_eval_const_index_expr(lsb)) {
                            (Some(k_hi), Some(k_lo)) => {
                                if k_hi == k_lo {
                                    let total_w: usize = match assoc_get(&self.tables.widths, vec_name) {
                                        Some(w) => w,
                                        None => 0,
                                    };
                                    if total_w > 0 && k_hi >= 0 && (k_hi as u128) < (total_w as u128) {
                                        let ghost src = IrExpr::Ident(child_port);
                                        let rhs = ir_expr_merge_scalar_into_packed_vec(
                                            vec_name.as_str(),
                                            k_hi,
                                            IrExpr::Ident(child_port),
                                            total_w,
                                        );
                                        self.assigns.push(IrAssign { lhs: vec_name.clone(), rhs });
                                        proof {
                                            let added = self.assigns@.skip(before.len() as int);
                                            assert(added.len() == 1 && added[0].rhs == rhs);
                                            assert(merge_shape(added[0].rhs, vec_name@, k_hi, src, total_w));
                                            assert(output_drive(parent_expr, port, self.tables.widths@, added));
                                        }
                                    }
                                }
                            },
                            _ => {},
                        }
                    }
                }
            },
        }
        assert(self.assigns@.take(before.len() as int) =~= before);
        proof {
            let added = self.assigns@.skip(before.len() as int);
            if added.len() == 1 {
                assert(added[0] == self.assigns@[before.len() as int]);
            }
        }
    }
}
/// The period in femtoseconds of `ab` taken as a repeating process: a `*` sensitivity, at least
/// two statements and a first statement `#D`; 0 when it is no such block.
pub open spec fn delay_period(ab: IrAlways, unit_fs: u128) -> u128 {
    if ab.sensitivity is Star && ab.stmts@.len() > 1 && ab.stmts@[0] is Delay {
        to_femtoseconds_spec(ab.stmts@[0]->Delay_0, unit_fs as nat) as u128
    } else {
        0
    }
}

/// `keep` and `procs` are `blocks` split in order: a block with a positive [`delay_period`]
/// becomes a process of that period, first firing one period in, running the statements after
/// the delay; every other block is kept as it is.
pub open spec fn split_rel(blocks: Seq<IrAlways>, keep: Seq<IrAlways>, procs: Seq<AlwaysDelayProc>, unit_fs: u128) -> bool
    decreases blocks.len(),
{
    if blocks.len() == 0 {
        keep.len() == 0 && procs.len() == 0
    } else {
        let ab = blocks.last();
        let p = delay_period(ab, unit_fs);
        if p > 0 {
            &&& procs.len() > 0
            &&& procs.last().period_fs == p
            &&& procs.last().next_fire_fs == p
            &&& procs.last().stmts@ == ab.stmts@.drop_first()
            &&& split_rel(blocks.drop_last(), keep, procs.drop_last(), unit_fs)
        } else {
            &&& keep.len() > 0
            &&& keep.last() == ab
            &&& split_rel(blocks.drop_last(), keep.drop_last(), procs, unit_fs)
        }
    }
}

/// Splits `always #D body` blocks with a non-empty body and a positive period off as repeating
/// processes (first firing at `D`); every other block stays.
pub fn split_always_delay_processes(always_blocks: Vec<IrAlways>, unit_fs: u128) -> (r: (Vec<IrAlways>, Vec<AlwaysDelayProc>))
    ensures
        split_rel(always_blocks@, r.0@, r.1@, unit_fs),
        r.0@.len() + r.1@.len() == always_blocks@.len(),
        forall|i: int| 0 <= i < r.1@.len() ==> (#[trigger] r.1@[i]).period_fs > 0 && r.1@[i].next_fire_fs == r.1@[i].period_fs
            && r.1@[i].stmts@.len() > 0,
{
    let ghost orig = always_blocks@;
    let mut rest = crate::ir::reversed(always_blocks);
    let ghost n = rest@.len();
    let mut edge_or_star: Vec<IrAlways> = Vec::new();
    let mut procs: Vec<AlwaysDelayProc> = Vec::new();
    assert(orig.take(0) =~= seq![]);
    while rest.len() > 0
        invariant
            n == orig.len(),
            rest@.len() <= n,
            forall|i: int| 0 <= i < rest@.len() ==> #[trigger] rest@[i] == orig[n - 1 - i],
            split_rel(orig.take(n - rest@.len()), edge_or_star@, procs@, unit_fs),
            rest@.len() + edge_or_star@.len() + procs@.len() == n,
            forall|i: int| 0 <= i < procs@.len() ==> (#[trigger] procs@[i]).period_fs > 0 && procs@[i].next_fire_fs
                == procs@[i].period_fs && procs@[i].stmts@.len() > 0,
        decreases rest@.len(),
    {
        let ghost r0 = rest@;
        let ghost m = n - r0.len();
        let mut ab = rest.pop().unwrap();
        assert(ab == r0[r0.len() - 1]);
        assert(ab == orig[m]);
        assert forall|i: int| 0 <= i < rest@.len() implies #[trigger] rest@[i] == orig[n - 1 - i] by {
            assert(rest@[i] == r0[i]);
        }
        let ghost ab0 = ab;
        let mut period_fs: u128 = 0;
        let is_star = match &ab.sensitivity {
            IrSensitivity::Star => true,
            _ => false,
        };
        if is_star && ab.stmts.len() > 1 {
            if let IrStmt::Delay(d) = &ab.stmts[0] {
                period_fs = d.to_femtoseconds(unit_fs);
            }
        }
        assert(period_fs == delay_period(ab0, unit_fs));
        let ghost k0 = edge_or_star@;
        let ghost p0 = procs@;
        proof {
            assert(orig.take(m + 1).drop_last() =~= orig.take(m));
            assert(orig.take(m + 1).last() == ab0);
        }
        if period_fs > 0 {
            let _ = ab.stmts.remove(0);
            assert(ab.stmts@ =~= ab0.stmts@.drop_first());
            procs.push(AlwaysDelayProc { period_fs, next_fire_fs: period_fs, stmts: ab.stmts });
            assert(procs@.drop_last() =~= p0);
        } else {
            edge_or_star.push(ab);
            assert(edge_or_star@.drop_last() =~= k0);
        }
    }
    assert(orig.take(n as int) =~= orig);
    (edge_or_star, procs)
}

/// An event's view: (time in femtoseconds, target, value).
pub type EventView = (u128, Seq<char>, i64);

/// `s` with `x` inserted after every event at the same or an earlier time, the place found by
/// scanning from the end past the later events.
pub open spec fn ev_ins(s: Seq<EventView>, x: EventView) -> Seq<EventView>
    decreases s.len(),
{
    if s.len() == 0 {
        seq![x]
    } else if s.last().0 > x.0 {
        ev_ins(s.drop_last(), x).push(s.last())
    } else {
        s.push(x)
    }
}

/// The events of `s` sorted by time, stably: each one inserted in turn, in arrival order.
pub open spec fn ev_sort(s: Seq<EventView>) -> Seq<EventView>
    decreases s.len(),
{
    if s.len() == 0 {
        seq![]
    } else {
        ev_ins(ev_sort(s.drop_last()), s.last())
    }
}

/// Inserting at a place after the events no later than `x` and before the later ones.
proof fn lemma_ev_ins_at(s: Seq<EventView>, x: EventView, j: int)
    requires
        0 <= j <= s.len(),
        forall|k: int| j <= k < s.len() ==> (#[trigger] s[k]).0 > x.0,
        j == 0 || s[j - 1].0 <= x.0,
    ensures
        ev_ins(s, x) == s.insert(j, x),
    decreases s.len(),
{
    if s.len() == 0 {
        assert(s.insert(j, x) =~= seq![x]);
    } else if j == s.len() {
        assert(s.insert(j, x) =~= s.push(x));
    } else {
        let d = s.drop_last();
        assert forall|k: int| j <= k < d.len() implies (#[trigger] d[k]).0 > x.0 by {
            assert(d[k] == s[k]);
        }
        lemma_ev_ins_at(d, x, j);
        assert(s[s.len() - 1].0 > x.0);
        assert(d.insert(j, x).push(s.last()) =~= s.insert(j, x));
    }
}

/// An event viewed as (time, target, value).
pub open spec fn event_view(e: InitialEvent) -> EventView {
    (e.time_fs, e.lhs@, e.val)
}

/// Inserts `e` after every event at the same or an earlier time (a stable sort by time).
fn insert_event_sorted(events: &mut Vec<InitialEvent>, e: InitialEvent) -> (pos: usize)
    requires
        forall|i: int, j: int| 0 <= i <= j < old(events)@.len() ==> old(events)@[i].time_fs <= old(events)@[j].time_fs,
    ensures
        pos <= old(events)@.len(),
        final(events)@ == old(events)@.insert(pos as int, e),
        events_view(final(events)@) == ev_ins(events_view(old(events)@), event_view(e)),
        forall|i: int, j: int| 0 <= i <= j < final(events)@.len() ==> final(events)@[i].time_fs <= final(events)@[j].time_fs,
{
    let mut j = events.len();
    while j > 0 && events[j - 1].time_fs > e.time_fs
        invariant
            j <= events@.len(),
            *events == *old(events),
            forall|k: int| j <= k < events@.len() ==> events@[k].time_fs > e.time_fs,
        decreases j,
    {
        j = j - 1;
    }
    let ghost s = events@;
    proof {
        let sv = events_view(s);
        assert forall|k: int| j <= k < sv.len() implies (#[trigger] sv[k]).0 > event_view(e).0 by {
            assert(sv[k] == event_view(s[k]));
        }
        if j > 0 {
            assert(sv[j - 1] == event_view(s[j - 1]));
        }
        lemma_ev_ins_at(sv, event_view(e), j as int);
    }
    events.insert(j, e);
    proof {
        assert(events_view(events@) =~= events_view(s).insert(j as int, event_view(e)));
        assert forall|a: int, b: int| 0 <= a <= b < events@.len() implies events@[a].time_fs <= events@[b].time_fs by {
            if a < j && b > j {
                assert(events@[a] == s[a]);
                assert(events@[b] == s[b - 1]);
            } else if a < j && b == j {
                assert(events@[a] == s[a]);
                assert(s[j - 1].time_fs <= e.time_fs);
            } else if a == j && b > j {
                assert(events@[b] == s[b - 1]);
            } else if a > j {
                assert(events@[a] == s[a - 1]);
                assert(events@[b] == s[b - 1]);
            } else if b < j {
                assert(events@[a] == s[a]);
                assert(events@[b] == s[b]);
            }
        }
    }
    j
}

/// What walking an `initial` block acts on: the current time, the values so far, and the
/// recorded events (time in femtoseconds, target, value).
pub type WalkState = (DelayRational, Seq<(String, i64)>, Seq<(u128, Seq<char>, i64)>);

/// An intermediate walk state (a trigger).
pub open spec fn mid_walk(m: WalkState) -> bool {
    true
}

/// Recorded events viewed as (time, target, value).
pub open spec fn events_view(evs: Seq<InitialEvent>) -> Seq<(u128, Seq<char>, i64)> {
    evs.map_values(|e: InitialEvent| (e.time_fs, e.lhs@, e.val))
}

/// Pre-evaluated value of `e` in `env` under the tables `t`.
pub open spec fn sv(t: SimTables, e: IrExpr, env: Seq<(String, i64)>) -> i64 {
    static_spec(e, env, t.mem_bounds@)
}

/// Walking statement `s` of an `initial` block from `a` ends in `b`: a delay advances the time;
/// an assignment records its masked value at the current time (in femtoseconds of `unit_fs`),
/// and a blocking one (or a blocking memory write) also updates the values; `if` and `case`
/// follow the values so far; `for` sets its variable and runs at most 10,000,000 iterations;
/// a system task does nothing.
pub open spec fn walk_step(t: SimTables, unit_fs: u128, s: IrStmt, a: WalkState, b: WalkState) -> bool
    decreases s, 0nat,
{
    let tf = to_femtoseconds_spec(a.0, unit_fs as nat) as u128;
    match s {
        IrStmt::Delay(d) => b == (add_spec(a.0, d), a.1, a.2),
        IrStmt::BlockingAssign { lhs, rhs } => {
            let m = mask_spec(sv(t, rhs, a.1), wd(t, lhs@));
            b.0 == a.0 && writes(a.1, b.1, lhs@, m) && b.2 == a.2.push((tf, lhs@, m))
        },
        IrStmt::NonBlockingAssign { lhs, rhs } => {
            let m = mask_spec(sv(t, rhs, a.1), wd(t, lhs@));
            b == (a.0, a.1, a.2.push((tf, lhs@, m)))
        },
        IrStmt::MemAssign { stem, index, rhs, nonblocking } => {
            let (lo, hi) = bounds_of(t.mem_bounds@, stem@);
            let name = element_name(stem@, clamp_spec(sv(t, index, a.1), lo, hi));
            let m = mask_spec(sv(t, rhs, a.1), wd(t, name));
            &&& b.0 == a.0
            &&& b.2 == a.2.push((tf, name, m))
            &&& if nonblocking { b.1 == a.1 } else { writes(a.1, b.1, name, m) }
        },
        IrStmt::IfElse { cond, then_body, else_body } => if sv(t, cond, a.1) != 0 {
            walk_stmts_step(t, unit_fs, then_body@, a, b)
        } else {
            walk_stmts_step(t, unit_fs, else_body@, a, b)
        },
        IrStmt::Case { expr, arms, default } => {
            let val = sv(t, expr, a.1);
            if walk_arm_matches(t, arms@, val, a.1) {
                walk_case_step(t, unit_fs, arms@, val, a, b)
            } else {
                walk_stmts_step(t, unit_fs, default@, a, b)
            }
        },
        IrStmt::For { init_var, init_val, cond, step_var, step_expr, body } => exists|m: WalkState|
            #[trigger] mid_walk(m) && m.0 == a.0 && m.2 == a.2 && writes(a.1, m.1, init_var@, sv(t, init_val, a.1))
                && walk_for_step(t, unit_fs, body@, cond, step_var@, step_expr, 10_000_000, m, b),
        IrStmt::SystemTask { .. } => b == a,
    }
}

/// Walking `ss` in order from `a` ends in `b`.
pub open spec fn walk_stmts_step(t: SimTables, unit_fs: u128, ss: Seq<IrStmt>, a: WalkState, b: WalkState) -> bool
    decreases ss, 0nat,
{
    if ss.len() == 0 {
        b == a
    } else {
        exists|m: WalkState|
            #[trigger] mid_walk(m) && walk_stmts_step(t, unit_fs, ss.subrange(0, ss.len() - 1), a, m) && walk_step(
                t,
                unit_fs,
                ss[ss.len() - 1],
                m,
                b,
            )
    }
}

/// Some arm's value pre-evaluates to `val` in `env`.
pub open spec fn walk_arm_matches(t: SimTables, arms: Seq<IrCaseArm>, val: i64, env: Seq<(String, i64)>) -> bool
    decreases arms.len(),
{
    arms.len() > 0 && (sv(t, arms[0].value, env) == val || walk_arm_matches(t, arms.subrange(1, arms.len() as int), val, env))
}

/// Walking the first arm whose value is `val` from `a` ends in `b`.
pub open spec fn walk_case_step(t: SimTables, unit_fs: u128, arms: Seq<IrCaseArm>, val: i64, a: WalkState, b: WalkState) -> bool
    decreases arms, 0nat,
{
    if arms.len() == 0 {
        b == a
    } else if sv(t, arms[0].value, a.1) == val {
        walk_stmts_step(t, unit_fs, arms[0].body@, a, b)
    } else {
        walk_case_step(t, unit_fs, arms.subrange(1, arms.len() as int), val, a, b)
    }
}

/// At most `k` more iterations of a walked `for` loop from `a` end in `b`.
pub open spec fn walk_for_step(
    t: SimTables,
    unit_fs: u128,
    body: Seq<IrStmt>,
    cond: IrExpr,
    step_var: Seq<char>,
    step_expr: IrExpr,
    k: nat,
    a: WalkState,
    b: WalkState,
) -> bool
    decreases body, k,
{
    if k == 0 || sv(t, cond, a.1) == 0 {
        b == a
    } else {
        exists|m1: WalkState, m2: WalkState|
            #![trigger mid_walk(m1), mid_walk(m2)]
            walk_stmts_step(t, unit_fs, body, a, m1) && m2.0 == m1.0 && m2.2 == m1.2 && writes(
                m1.1,
                m2.1,
                step_var,
                sv(t, step_expr, m1.1),
            ) && walk_for_step(t, unit_fs, body, cond, step_var, step_expr, (k - 1) as nat, m2, b)
    }
}

/// Runs the statements of an `initial` block at compile time, from time `time`: delays advance
/// it, each assignment (blocking, non-blocking, memory element) records an event at the current
/// time (blocking ones also update `signals`), `if` / `case` follow the values so far, and `for`
/// loops run up to 10,000,000 iterations.
fn walk_initial_stmts(
    stmts: &Vec<IrStmt>,
    time: &mut DelayRational,
    signals: &mut SigEnv,
    tables: &SimTables,
    events: &mut Vec<InitialEvent>,
    unit_fs: u128,
)
    ensures
        final(events)@.len() >= old(events)@.len(),
        forall|i: int| 0 <= i < old(events)@.len() ==> #[trigger] final(events)@[i] == old(events)@[i],
        walk_stmts_step(
            *tables,
            unit_fs,
            stmts@,
            (*old(time), old(signals)@, events_view(old(events)@)),
            (*final(time), final(signals)@, events_view(final(events)@)),
        ),
    decreases stmts@, 1nat,
{
    let ghost a0: WalkState = (*time, signals@, events_view(events@));
    assert(stmts@.take(0) =~= Seq::<IrStmt>::empty());
    let mut i: usize = 0;
    while i < stmts.len()
        invariant
            i <= stmts.len(),
            events@.len() >= old(events)@.len(),
            forall|k: int| 0 <= k < old(events)@.len() ==> #[trigger] events@[k] == old(events)@[k],
            a0 == (*old(time), old(signals)@, events_view(old(events)@)),
            walk_stmts_step(*tables, unit_fs, stmts@.take(i as int), a0, (*time, signals@, events_view(events@))),
        decreases stmts.len() - i,
    {
        assert(decreases_to!(stmts@ => stmts@[i as int]));
        let ghost cur: WalkState = (*time, signals@, events_view(events@));
        walk_initial_stmt(&stmts[i], time, signals, tables, events, unit_fs);
        proof {
            let tk = stmts@.take(i + 1);
            assert(tk.subrange(0, tk.len() - 1) == stmts@.take(i as int));
            assert(tk[tk.len() - 1] == stmts@[i as int]);
            assert(mid_walk(cur));
        }
        i = i + 1;
    }
    assert(stmts@.take(stmts.len() as int) == stmts@);
}

fn push_event(events: &mut Vec<InitialEvent>, e: InitialEvent)
    ensures
        final(events)@ == old(events)@.push(e),
        events_view(final(events)@) == events_view(old(events)@).push((e.time_fs, e.lhs@, e.val)),
{
    let ghost e0 = events@;
    events.push(e);
    assert(events_view(events@) =~= events_view(e0).push((e.time_fs, e.lhs@, e.val)));
}

fn walk_initial_stmt(
    stmt: &IrStmt,
    time: &mut DelayRational,
    signals: &mut SigEnv,
    tables: &SimTables,
    events: &mut Vec<InitialEvent>,
    unit_fs: u128,
)
    ensures
        final(events)@.len() >= old(events)@.len(),
        forall|i: int| 0 <= i < old(events)@.len() ==> #[trigger] final(events)@[i] == old(events)@[i],
        walk_step(
            *tables,
            unit_fs,
            *stmt,
            (*old(time), old(signals)@, events_view(old(events)@)),
            (*final(time), final(signals)@, events_view(final(events)@)),
        ),
    decreases stmt, 0nat,
{
    let ghost e0 = events@;
    match stmt {
        IrStmt::Delay(d) => {
            *time = time.add(*d);
        },
        IrStmt::BlockingAssign { lhs, rhs } => {
            let val = static_eval(rhs, signals, &tables.mem_bounds);
            let w = tables.width_for_signal(lhs);
            let masked = mask_to_width(val, w);
            push_event(events, InitialEvent { time_fs: time.to_femtoseconds(unit_fs), lhs: lhs.clone(), val: masked });
            sig_set(signals, lhs, masked);
        },
        IrStmt::NonBlockingAssign { lhs, rhs } => {
            let val = static_eval(rhs, signals, &tables.mem_bounds);
            let w = tables.width_for_signal(lhs);
            let masked = mask_to_width(val, w);
            push_event(events, InitialEvent { time_fs: time.to_femtoseconds(unit_fs), lhs: lhs.clone(), val: masked });
        },
        IrStmt::MemAssign { stem, index, rhs, nonblocking } => {
            let idx = static_eval(index, signals, &tables.mem_bounds);
            let (lo, hi) = match assoc_get(&tables.mem_bounds, stem) {
                Some(b) => b,
                None => (0, 0),
            };
            let k = if idx < lo { lo } else if idx > hi { hi } else { idx };
            let lhs = join_name_index(stem, k);
            let val = static_eval(rhs, signals, &tables.mem_bounds);
            let w = tables.width_for_signal(&lhs);
            let masked = mask_to_width(val, w);
            assert(lhs@ == element_name(stem@, clamp_spec(idx, lo, hi)));
            push_event(events, InitialEvent { time_fs: time.to_femtoseconds(unit_fs), lhs: lhs.clone(), val: masked });
            if !*nonblocking {
                sig_set(signals, &lhs, masked);
            }
        },
        IrStmt::IfElse { cond, then_body, else_body } => {
            let c = static_eval(cond, signals, &tables.mem_bounds);
            if c != 0 {
                walk_initial_stmts(then_body, time, signals, tables, events, unit_fs);
            } else {
                walk_initial_stmts(else_body, time, signals, tables, events, unit_fs);
            }
        },
        IrStmt::Case { expr, arms, default } => {
            let val = static_eval(expr, signals, &tables.mem_bounds);
            let matched = walk_case(arms, val, time, signals, tables, events, unit_fs);
            if !matched {
                walk_initial_stmts(default, time, signals, tables, events, unit_fs);
            }
        },
        IrStmt::For { init_var, init_val, cond, step_var, step_expr, body } => {
            let start = static_eval(init_val, signals, &tables.mem_bounds);
            sig_set(signals, init_var, start);
            let ghost m: WalkState = (*time, signals@, events_view(events@));
            walk_for(body, cond, step_var, step_expr, time, signals, tables, events, unit_fs);
            assert(mid_walk(m));
        },
        IrStmt::SystemTask { .. } => {},
    }
}

/// Runs the first arm whose value equals `val`; whether one did.
fn walk_case(
    arms: &Vec<IrCaseArm>,
    val: i64,
    time: &mut DelayRational,
    signals: &mut SigEnv,
    tables: &SimTables,
    events: &mut Vec<InitialEvent>,
    unit_fs: u128,
) -> (matched: bool)
    ensures
        final(events)@.len() >= old(events)@.len(),
        forall|i: int| 0 <= i < old(events)@.len() ==> #[trigger] final(events)@[i] == old(events)@[i],
        matched == walk_arm_matches(*tables, arms@, val, old(signals)@),
        matched ==> walk_case_step(
            *tables,
            unit_fs,
            arms@,
            val,
            (*old(time), old(signals)@, events_view(old(events)@)),
            (*final(time), final(signals)@, events_view(final(events)@)),
        ),
        !matched ==> *final(time) == *old(time) && final(signals)@ == old(signals)@ && final(events)@ == old(events)@,
    decreases arms@, 2nat,
{
    let ghost a0: WalkState = (*time, signals@, events_view(events@));
    assert(arms@.subrange(0, arms@.len() as int) == arms@);
    let mut a: usize = 0;
    while a < arms.len()
        invariant
            a <= arms.len(),
            *time == *old(time),
            signals@ == old(signals)@,
            events@ == old(events)@,
            a0 == (*old(time), old(signals)@, events_view(old(events)@)),
            walk_arm_matches(*tables, arms@, val, old(signals)@) == walk_arm_matches(
                *tables,
                arms@.subrange(a as int, arms@.len() as int),
                val,
                old(signals)@,
            ),
            forall|b: WalkState| walk_case_step(*tables, unit_fs, arms@, val, a0, b) == walk_case_step(
                *tables,
                unit_fs,
                arms@.subrange(a as int, arms@.len() as int),
                val,
                a0,
                b,
            ),
        decreases arms.len() - a,
    {
        let av = static_eval(&arms[a].value, signals, &tables.mem_bounds);
        let ghost rest = arms@.subrange(a as int, arms@.len() as int);
        assert(rest[0] == arms@[a as int]);
        if val == av {
            assert(decreases_to!(arms@ => arms@[a as int]));
            walk_arm(&arms[a], time, signals, tables, events, unit_fs);
            return true;
        }
        assert(rest.subrange(1, rest.len() as int) == arms@.subrange(a + 1, arms@.len() as int));
        a = a + 1;
    }
    false
}

/// Runs a `for` loop body while the condition holds, at most 10,000,000 times.
fn walk_for(
    body: &Vec<IrStmt>,
    cond: &IrExpr,
    step_var: &String,
    step_expr: &IrExpr,
    time: &mut DelayRational,
    signals: &mut SigEnv,
    tables: &SimTables,
    events: &mut Vec<InitialEvent>,
    unit_fs: u128,
)
    ensures
        final(events)@.len() >= old(events)@.len(),
        forall|i: int| 0 <= i < old(events)@.len() ==> #[trigger] final(events)@[i] == old(events)@[i],
        walk_for_step(
            *tables,
            unit_fs,
            body@,
            *cond,
            step_var@,
            *step_expr,
            10_000_000,
            (*old(time), old(signals)@, events_view(old(events)@)),
            (*final(time), final(signals)@, events_view(final(events)@)),
        ),
    decreases body@, 2nat,
{
    let ghost a0: WalkState = (*time, signals@, events_view(events@));
    let mut n: usize = 0;
    loop
        invariant
            n <= 10_000_000,
            events@.len() >= old(events)@.len(),
            forall|k: int| 0 <= k < old(events)@.len() ==> #[trigger] events@[k] == old(events)@[k],
            a0 == (*old(time), old(signals)@, events_view(old(events)@)),
            forall|b: WalkState| #[trigger]
                walk_for_step(*tables, unit_fs, body@, *cond, step_var@, *step_expr, (10_000_000 - n) as nat, (*time, signals@, events_view(events@)), b)
                    ==> walk_for_step(*tables, unit_fs, body@, *cond, step_var@, *step_expr, 10_000_000, a0, b),
        ensures
            events@.len() >= old(events)@.len(),
            forall|k: int| 0 <= k < old(events)@.len() ==> #[trigger] events@[k] == old(events)@[k],
            walk_for_step(*tables, unit_fs, body@, *cond, step_var@, *step_expr, 10_000_000, a0, (*time, signals@, events_view(events@))),
        decreases 10_000_000 - n,
    {
        let ghost cur: WalkState = (*time, signals@, events_view(events@));
        if n >= 10_000_000 {
            assert(walk_for_step(*tables, unit_fs, body@, *cond, step_var@, *step_expr, (10_000_000 - n) as nat, cur, cur));
            break;
        }
        let c = static_eval(cond, signals, &tables.mem_bounds);
        if c == 0 {
            assert(walk_for_step(*tables, unit_fs, body@, *cond, step_var@, *step_expr, (10_000_000 - n) as nat, cur, cur));
            break;
        }
        walk_initial_stmts(body, time, signals, tables, events, unit_fs);
        let ghost m1: WalkState = (*time, signals@, events_view(events@));
        let next = static_eval(step_expr, signals, &tables.mem_bounds);
        sig_set(signals, step_var, next);
        proof {
            let m2: WalkState = (*time, signals@, events_view(events@));
            let k: nat = (10_000_000 - n) as nat;
            assert forall|b: WalkState| #[trigger]
                walk_for_step(*tables, unit_fs, body@, *cond, step_var@, *step_expr, (10_000_000 - (n + 1)) as nat, m2, b)
                    implies walk_for_step(*tables, unit_fs, body@, *cond, step_var@, *step_expr, 10_000_000, a0, b) by {
                assert((k - 1) as nat == (10_000_000 - (n + 1)) as nat);
                assert(walk_for_step(*tables, unit_fs, body@, *cond, step_var@, *step_expr, (k - 1) as nat, m2, b));
                assert(mid_walk(m1) && mid_walk(m2));
                assert(walk_for_step(*tables, unit_fs, body@, *cond, step_var@, *step_expr, k, cur, b));
            }
        }
        n = n + 1;
    }
}

fn walk_arm(
    arm: &IrCaseArm,
    time: &mut DelayRational,
    signals: &mut SigEnv,
    tables: &SimTables,
    events: &mut Vec<InitialEvent>,
    unit_fs: u128,
)
    ensures
        final(events)@.len() >= old(events)@.len(),
        forall|i: int| 0 <= i < old(events)@.len() ==> #[trigger] final(events)@[i] == old(events)@[i],
        walk_stmts_step(
            *tables,
            unit_fs,
            arm.body@,
            (*old(time), old(signals)@, events_view(old(events)@)),
            (*final(time), final(signals)@, events_view(final(events)@)),
        ),
    decreases arm, 1nat,
{
    walk_initial_stmts(&arm.body, time, signals, tables, events, unit_fs);
}

/// A sequence of walks (a trigger).
pub open spec fn mid_walks(ws: Seq<WalkState>) -> bool {
    true
}

/// The events recorded by the walks, walk after walk.
pub open spec fn all_walk_events(ws: Seq<WalkState>) -> Seq<EventView>
    decreases ws.len(),
{
    if ws.len() == 0 {
        seq![]
    } else {
        all_walk_events(ws.drop_last()) + ws.last().2
    }
}

/// The latest of `m` and the times of `evs`.
pub open spec fn latest_time(evs: Seq<EventView>, m: u128) -> u128
    decreases evs.len(),
{
    if evs.len() == 0 {
        m
    } else {
        let p = latest_time(evs.drop_last(), m);
        if evs.last().0 > p {
            evs.last().0
        } else {
            p
        }
    }
}

/// The latest time a walk reaches: its end time, or a later event.
pub open spec fn walk_horizon(w: WalkState, unit_fs: u128) -> u128 {
    latest_time(w.2, to_femtoseconds_spec(w.0, unit_fs as nat) as u128)
}

/// The latest time any of the walks reaches (0 for none).
pub open spec fn walks_horizon(ws: Seq<WalkState>, unit_fs: u128) -> u128
    decreases ws.len(),
{
    if ws.len() == 0 {
        0
    } else {
        let p = walks_horizon(ws.drop_last(), unit_fs);
        let h = walk_horizon(ws.last(), unit_fs);
        if h > p {
            h
        } else {
            p
        }
    }
}

/// `events` and `horizon` are the schedule of the `initial` blocks `blocks`: each block walked
/// from time 0 on the values `signals` with no events yet; the events of all walks, block after
/// block, sorted stably by time; and the latest time any walk reaches.
pub open spec fn schedule_rel(
    blocks: Seq<IrInitial>,
    signals: Seq<(String, i64)>,
    tables: SimTables,
    unit_fs: u128,
    events: Seq<InitialEvent>,
    horizon: u128,
) -> bool {
    exists|ws: Seq<WalkState>|
        #[trigger] mid_walks(ws) && ws.len() == blocks.len() && (forall|b: int|
            0 <= b < ws.len() ==> walk_stmts_step(tables, unit_fs, blocks[b].stmts@, (zero_delay(), signals, seq![]), #[trigger] ws[b]))
            && events_view(events) == ev_sort(all_walk_events(ws)) && horizon == walks_horizon(ws, unit_fs)
}

/// Events of all `initial` blocks, each block walked from time 0 on a copy of `signals` with
/// no events yet, sorted stably by time; and the latest time any block reaches (femtoseconds).
pub fn schedule_initial_blocks(
    blocks: &Vec<IrInitial>,
    signals: &SigEnv,
    tables: &SimTables,
    unit_fs: u128,
) -> (r: (Vec<InitialEvent>, u128))
    ensures
        schedule_rel(blocks@, signals@, *tables, unit_fs, r.0@, r.1),
        forall|i: int, j: int| 0 <= i <= j < r.0@.len() ==> r.0@[i].time_fs <= r.0@[j].time_fs,
{
    let mut events: Vec<InitialEvent> = Vec::new();
    let mut horizon_fs: u128 = 0;
    let ghost mut ws: Seq<WalkState> = seq![];
    let mut b: usize = 0;
    while b < blocks.len()
        invariant
            b <= blocks.len(),
            ws.len() == b,
            forall|q: int|
                0 <= q < b ==> walk_stmts_step(
                    *tables,
                    unit_fs,
                    blocks@[q].stmts@,
                    (zero_delay(), signals@, seq![]),
                    #[trigger] ws[q],
                ),
            events_view(events@) == all_walk_events(ws),
            horizon_fs == walks_horizon(ws, unit_fs),
        decreases blocks.len() - b,
    {
        let mut t = DelayRational::new(0, 1);
        let mut sig = copy_env(signals);
        let mut block_events: Vec<InitialEvent> = Vec::new();
        assert(events_view(block_events@) =~= seq![]);
        walk_initial_stmts(&blocks[b].stmts, &mut t, &mut sig, tables, &mut block_events, unit_fs);
        let ghost w: WalkState = (t, sig@, events_view(block_events@));
        let ghost bv = events_view(block_events@);
        let mut block_max = t.to_femtoseconds(unit_fs);
        let ghost t0 = block_max;
        let mut k: usize = 0;
        while k < block_events.len()
            invariant
                k <= block_events@.len(),
                bv == events_view(block_events@),
                block_max == latest_time(bv.take(k as int), t0),
            decreases block_events.len() - k,
        {
            assert(bv.take(k + 1).drop_last() =~= bv.take(k as int));
            assert(bv.take(k + 1).last() == bv[k as int]);
            if block_events[k].time_fs > block_max {
                block_max = block_events[k].time_fs;
            }
            k = k + 1;
        }
        assert(bv.take(k as int) =~= bv);
        assert(block_max == walk_horizon(w, unit_fs));
        if block_max > horizon_fs {
            horizon_fs = block_max;
        }
        let ghost before = events@;
        events.append(&mut block_events);
        proof {
            let ws2 = ws.push(w);
            assert(ws2.drop_last() =~= ws);
            assert(events_view(events@) =~= events_view(before) + bv);
            assert(horizon_fs == walks_horizon(ws2, unit_fs));
            ws = ws2;
        }
        b = b + 1;
    }
    let mut sorted: Vec<InitialEvent> = Vec::new();
    let ghost ev = events@;
    let ghost allv = events_view(ev);
    let mut rest = crate::ir::reversed(events);
    assert(events_view(sorted@) =~= ev_sort(allv.take(0)));
    while rest.len() > 0
        invariant
            rest@.len() <= ev.len(),
            allv == events_view(ev),
            forall|i: int| 0 <= i < rest@.len() ==> #[trigger] rest@[i] == ev[ev.len() - 1 - i],
            events_view(sorted@) == ev_sort(allv.take(ev.len() - rest@.len())),
            forall|i: int, j: int| 0 <= i <= j < sorted@.len() ==> sorted@[i].time_fs <= sorted@[j].time_fs,
        decreases rest@.len(),
    {
        let ghost r0 = rest@;
        let ghost m = ev.len() - r0.len();
        let e = rest.pop().unwrap();
        assert(e == r0[r0.len() - 1]);
        assert(e == ev[m]);
        assert forall|i: int| 0 <= i < rest@.len() implies #[trigger] rest@[i] == ev[ev.len() - 1 - i] by {
            assert(rest@[i] == r0[i]);
        }
        insert_event_sorted(&mut sorted, e);
        proof {
            assert(allv.take(m + 1).drop_last() =~= allv.take(m));
            assert(allv.take(m + 1).last() == event_view(e));
        }
    }
    assert(allv.take(ev.len() as int) =~= allv);
    assert(mid_walks(ws));
    (sorted, horizon_fs)
}

/// The simulation state of a flattened design.
pub struct Simulator<'a> {
    pub signals: SigEnv,
    pub prev_signals: SigEnv,
    /// Flattened signal names in dump order.
    pub signal_order: Vec<String>,
    /// VCD identifier of each dumped signal.
    pub vcd_ids: Vec<(String, String)>,
    pub tables: SimTables,
    pub assigns: Vec<IrAssign>,
    pub always_blocks: Vec<IrAlways>,
    pub always_delay_procs: Vec<AlwaysDelayProc>,
    pub initial_events: Vec<InitialEvent>,
    /// Latest time any `initial` block reaches (femtoseconds).
    pub initial_time_horizon_fs: u128,
    /// Signals explicitly driven so far (the others dump as `x`).
    pub driven: Vec<String>,
    pub scope_tree: ScopeNode,
    pub top: &'a IrModule,
    /// Latest simulated time (femtoseconds).
    pub last_sim_time_fs: u128,
}

/// Adds `name` to the driven set.
fn mark_driven(driven: &mut Vec<String>, name: &String)
    ensures
        exists|i: int| 0 <= i < final(driven)@.len() && (#[trigger] final(driven)@[i])@ == name@,
        forall|i: int| 0 <= i < old(driven)@.len() ==> #[trigger] final(driven)@[i] == old(driven)@[i],
        final(driven)@.len() >= old(driven)@.len(),
        name_set(final(driven)@) == name_set(old(driven)@).insert(name@),
{
    if !contains_name(driven, name) {
        let ghost before = driven@;
        driven.push(name.clone());
        assert(driven@[driven@.len() - 1]@ == name@);
        assert(name_set(driven@) =~= name_set(before).insert(name@)) by {
            assert forall|n: Seq<char>| name_set(before).insert(name@).contains(n) implies name_set(driven@).contains(n) by {
                if n != name@ {
                    let i = choose|i: int| 0 <= i < before.len() && (#[trigger] before[i])@ == n;
                    assert(driven@[i] == before[i]);
                }
            }
            assert forall|n: Seq<char>| name_set(driven@).contains(n) implies name_set(before).insert(name@).contains(n) by {
                let i = choose|i: int| 0 <= i < driven@.len() && (#[trigger] driven@[i])@ == n;
                if i < before.len() {
                    assert(driven@[i] == before[i]);
                }
            }
        }
    } else {
        assert(name_set(driven@) =~= name_set(driven@).insert(name@));
    }
}

/// `sim` is the simulator of `top` (instances resolved among `modules`, time unit `unit_fs`
/// femtoseconds) before its run: the VCD identifiers number the dump order; the known signals
/// are the dumped ones, all 0, among them every port and net of `top`, the dump order starting
/// with the top's ports then nets in declaration order (each name once), which are also the
/// signals of the top scope (named after `top`), whose child scopes are its instances of known
/// modules, in order; nothing is driven yet;
/// the top's continuous assignments come first, and each connection of an instance to its child,
/// at every level of the hierarchy, is wired (an input port assigned from the parent expression,
/// an output port driving it); the `initial` events are the schedule of the
/// flattened `initial` blocks; and the `always` blocks and repeating processes are the split of
/// the flattened `always` blocks.
pub open spec fn built_from(sim: Simulator, top: IrModule, modules: Seq<IrModule>, unit_fs: u128) -> bool {
    &&& sim.vcd_ids@.len() == sim.signal_order@.len()
    &&& forall|i: int| 0 <= i < sim.vcd_ids@.len() ==> (#[trigger] sim.vcd_ids@[i]).0 == sim.signal_order@[i]
        && sim.vcd_ids@[i].1@ == vcd_ident_spec(i as nat)
    &&& flat_known_wf(sim.signals@, sim.signal_order@)
    &&& module_signals_known(sim.signals@, top, seq![])
    &&& sim.prev_signals@ == sim.signals@
    &&& sim.driven@.len() == 0
    &&& sim.last_sim_time_fs == 0
    &&& *sim.top == top
    &&& forall|c: int|
        0 <= c < top.assigns@.len() ==> sim.assigns@.len() >= top.assigns@.len() && prefix_assign_rel(
            #[trigger] top.assigns@[c],
            sim.assigns@[c],
            seq![],
        )
    &&& names_view(sim.signal_order@).take(order_after(seq![], module_names(top, seq![])).len() as int) == order_after(
        seq![],
        module_names(top, seq![]),
    )
    &&& sim.scope_tree.name == top.name
    &&& names_view(sim.scope_tree.signals@) == order_after(seq![], module_names(top, seq![]))
    &&& modules.len() > 0 ==> scope_names(sim.scope_tree.children@) == known_instance_names(modules, top.instances@)
    &&& wired_below(sim.assigns@, modules, top, seq![], modules.len() as nat)
    &&& exists|ib: Seq<IrInitial>|
        #[trigger] flat_initials_rel(modules, top, seq![], modules.len() as nat, ib) && schedule_rel(
            ib,
            sim.signals@,
            sim.tables,
            unit_fs,
            sim.initial_events@,
            sim.initial_time_horizon_fs,
        )
    &&& exists|ab: Seq<IrAlways>|
        #[trigger] flat_always_rel(modules, top, seq![], modules.len() as nat, ab) && split_rel(
            ab,
            sim.always_blocks@,
            sim.always_delay_procs@,
            unit_fs,
        )
}

impl<'a> Simulator<'a> {
    /// Flattens `top` (instances resolved among `modules`), splits `always #D` processes off,
    /// pre-computes the `initial` events and numbers the signals for the VCD.
    pub fn new(top: &'a IrModule, modules: &Vec<IrModule>, unit_fs: u128) -> (sim: Self)
        ensures
            built_from(sim, *top, modules@, unit_fs),
    {
        let mut flat = Flat {
            signals: Vec::new(),
            tables: SimTables { widths: Vec::new(), mem_bounds: Vec::new(), mem_elem_width: Vec::new() },
            assigns: Vec::new(),
            always_blocks: Vec::new(),
            initial_blocks: Vec::new(),
            signal_order: Vec::new(),
        };
        let mut scope_tree = ScopeNode { name: top.name.clone(), signals: Vec::new(), children: Vec::new() };
        let empty = String::new();
        proof {
            assert(name_set(flat.signal_order@) =~= Set::empty());
            assert(names_view(flat.signal_order@) =~= Seq::<Seq<char>>::empty());
            assert(names_view(scope_tree.signals@) =~= Seq::<Seq<char>>::empty());
            assert(scope_names(scope_tree.children@) =~= Seq::<Seq<char>>::empty());
        }
        let ghost order0 = names_view(flat.signal_order@);
        let ghost scope0 = names_view(scope_tree.signals@);
        let ghost children0 = scope_names(scope_tree.children@);
        flat.flatten_module(top, &empty, modules, &mut scope_tree, false, modules.len());
        proof {
            let own = order_after(seq![], module_names(*top, seq![]));
            assert(empty@ == Seq::<char>::empty());
            assert(order0 == Seq::<Seq<char>>::empty());
            assert(own.skip(0) =~= own);
            assert(scope0 + own.skip(0) =~= own);
            assert(children0 + known_instance_names(modules@, top.instances@) =~= known_instance_names(
                modules@,
                top.instances@,
            ));
            assert(flat.initial_blocks@.skip(0) =~= flat.initial_blocks@);
            assert(flat.always_blocks@.skip(0) =~= flat.always_blocks@);
        }
        let Flat { signals, tables, assigns, always_blocks, initial_blocks, signal_order } = flat;
        let ghost flat_always = always_blocks@;
        let (always_blocks, always_delay_procs) = split_always_delay_processes(always_blocks, unit_fs);
        let (initial_events, initial_time_horizon_fs) = schedule_initial_blocks(&initial_blocks, &signals, &tables, unit_fs);
        let mut vcd_ids: Vec<(String, String)> = Vec::new();
        let mut i: usize = 0;
        while i < signal_order.len()
            invariant
                i <= signal_order.len(),
                vcd_ids@.len() == i,
                forall|k: int| 0 <= k < i ==> (#[trigger] vcd_ids@[k]).0 == signal_order@[k] && vcd_ids@[k].1@
                    == vcd_ident_spec(k as nat),
            decreases signal_order.len() - i,
        {
            vcd_ids.push((signal_order[i].clone(), vcd_ident(i)));
            i = i + 1;
        }
        let prev_signals = copy_env(&signals);
        Simulator {
            signals,
            prev_signals,
            signal_order,
            vcd_ids,
            tables,
            assigns,
            always_blocks,
            always_delay_procs,
            initial_events,
            initial_time_horizon_fs,
            driven: Vec::new(),
            scope_tree,
            top,
            last_sim_time_fs: 0,
        }
    }

    /// Width of a flattened signal (see [`lhs_width_spec`]).
    pub fn width_for_signal(&self, name: &String) -> (w: usize)
        ensures
            w == lhs_width_spec(name@, self.tables.widths@, self.tables.mem_bounds@, self.tables.mem_elem_width@),
    {
        self.tables.width_for_signal(name)
    }

    /// Value of `e` in the current signal values.
    pub fn eval_expr(&self, e: &IrExpr) -> (v: i64)
        ensures
            v == eval_spec(*e, self.signals@, self.tables.widths@, self.tables.mem_bounds@, self.tables.mem_elem_width@),
    {
        self.tables.eval_expr_with_env(e, &self.signals)
    }

    /// Applies the `initial` events scheduled at exactly `t_fs` (masked to the target's width),
    /// marking their targets driven.
    pub fn apply_initial_events_at_fs(&mut self, t_fs: u128)
        ensures
            final(self).signal_order == old(self).signal_order,
            final(self).vcd_ids == old(self).vcd_ids,
            final(self).tables == old(self).tables,
            final(self).assigns == old(self).assigns,
            final(self).always_blocks == old(self).always_blocks,
            final(self).always_delay_procs == old(self).always_delay_procs,
            final(self).initial_events == old(self).initial_events,
            final(self).initial_time_horizon_fs == old(self).initial_time_horizon_fs,
            final(self).scope_tree == old(self).scope_tree,
            final(self).prev_signals == old(self).prev_signals,
            apply_step(
                old(self).tables,
                old(self).initial_events@,
                t_fs,
                (old(self).signals@, name_set(old(self).driven@)),
                (final(self).signals@, name_set(final(self).driven@)),
            ),
    {
        let ghost a0: EnvState = (self.signals@, name_set(self.driven@));
        assert(self.initial_events@.take(0) =~= Seq::<InitialEvent>::empty());
        let mut i: usize = 0;
        while i < self.initial_events.len()
            invariant
                i <= self.initial_events.len(),
                self.signal_order == old(self).signal_order,
                self.vcd_ids == old(self).vcd_ids,
                self.tables == old(self).tables,
                self.assigns == old(self).assigns,
                self.always_blocks == old(self).always_blocks,
                self.always_delay_procs == old(self).always_delay_procs,
                self.initial_events == old(self).initial_events,
                self.initial_time_horizon_fs == old(self).initial_time_horizon_fs,
                self.scope_tree == old(self).scope_tree,
                self.prev_signals == old(self).prev_signals,
                a0 == (old(self).signals@, name_set(old(self).driven@)),
                apply_step(self.tables, self.initial_events@.take(i as int), t_fs, a0, (self.signals@, name_set(self.driven@))),
            decreases self.initial_events.len() - i,
        {
            let ghost cur: EnvState = (self.signals@, name_set(self.driven@));
            if self.initial_events[i].time_fs == t_fs {
                let w = self.tables.width_for_signal(&self.initial_events[i].lhs);
                let masked = mask_to_width(self.initial_events[i].val, w);
                sig_set(&mut self.signals, &self.initial_events[i].lhs, masked);
                mark_driven(&mut self.driven, &self.initial_events[i].lhs);
            }
            proof {
                let tk = self.initial_events@.take(i + 1);
                assert(tk.drop_last() == self.initial_events@.take(i as int));
                assert(tk.last() == self.initial_events@[i as int]);
                assert(mid_env(cur));
            }
            i = i + 1;
        }
        assert(self.initial_events@.take(self.initial_events.len() as int) == self.initial_events@);
    }

    /// Settles the continuous assignments: up to 100 rounds, each writing every assignment's
    /// masked value, until a round changes nothing. Every assignment target counts as driven.
    pub fn eval_combinational(&mut self)
        ensures
            final(self).signal_order == old(self).signal_order,
            final(self).vcd_ids == old(self).vcd_ids,
            final(self).tables == old(self).tables,
            final(self).assigns == old(self).assigns,
            final(self).always_blocks == old(self).always_blocks,
            final(self).always_delay_procs == old(self).always_delay_procs,
            final(self).initial_events == old(self).initial_events,
            final(self).initial_time_horizon_fs == old(self).initial_time_horizon_fs,
            final(self).scope_tree == old(self).scope_tree,
            final(self).prev_signals == old(self).prev_signals,
            comb_rounds(
                old(self).tables,
                old(self).assigns@,
                0,
                (old(self).signals@, name_set(old(self).driven@)),
                (final(self).signals@, name_set(final(self).driven@)),
            ),
    {
        let ghost a0: EnvState = (self.signals@, name_set(self.driven@));
        let mut round: usize = 0;
        loop
            invariant_except_break
                round <= 100,
                forall|b: EnvState| #[trigger]
                    comb_rounds(self.tables, self.assigns@, round as nat, (self.signals@, name_set(self.driven@)), b)
                        ==> comb_rounds(self.tables, self.assigns@, 0, a0, b),
            invariant
                self.signal_order == old(self).signal_order,
                self.vcd_ids == old(self).vcd_ids,
                self.tables == old(self).tables,
                self.assigns == old(self).assigns,
                self.always_blocks == old(self).always_blocks,
                self.always_delay_procs == old(self).always_delay_procs,
                self.initial_events == old(self).initial_events,
                self.initial_time_horizon_fs == old(self).initial_time_horizon_fs,
                self.scope_tree == old(self).scope_tree,
                self.prev_signals == old(self).prev_signals,
                a0 == (old(self).signals@, name_set(old(self).driven@)),
            ensures
                self.signal_order == old(self).signal_order,
                self.vcd_ids == old(self).vcd_ids,
                self.tables == old(self).tables,
                self.assigns == old(self).assigns,
                self.always_blocks == old(self).always_blocks,
                self.always_delay_procs == old(self).always_delay_procs,
                self.initial_events == old(self).initial_events,
                self.initial_time_horizon_fs == old(self).initial_time_horizon_fs,
                self.scope_tree == old(self).scope_tree,
                self.prev_signals == old(self).prev_signals,
                comb_rounds(self.tables, self.assigns@, 0, a0, (self.signals@, name_set(self.driven@))),
            decreases 100 - round,
        {
            let ghost cur: EnvState = (self.signals@, name_set(self.driven@));
            if round >= 100 {
                assert(comb_rounds(self.tables, self.assigns@, round as nat, cur, cur));
                break;
            }
            let ghost start: CombState = (self.signals@, name_set(self.driven@), false);
            assert(self.assigns@.take(0) =~= Seq::<IrAssign>::empty());
            let mut changed = false;
            let mut k: usize = 0;
            while k < self.assigns.len()
                invariant
                    k <= self.assigns.len(),
                    round < 100,
                    self.signal_order == old(self).signal_order,
                    self.vcd_ids == old(self).vcd_ids,
                    self.tables == old(self).tables,
                    self.assigns == old(self).assigns,
                    self.always_blocks == old(self).always_blocks,
                    self.always_delay_procs == old(self).always_delay_procs,
                    self.initial_events == old(self).initial_events,
                    self.initial_time_horizon_fs == old(self).initial_time_horizon_fs,
                    self.scope_tree == old(self).scope_tree,
                    self.prev_signals == old(self).prev_signals,
                    comb_pass(
                        self.tables,
                        self.assigns@.take(k as int),
                        round == 0,
                        start,
                        (self.signals@, name_set(self.driven@), changed),
                    ),
                    start == (cur.0, cur.1, false),
                    forall|b: EnvState| #[trigger] comb_rounds(self.tables, self.assigns@, round as nat, cur, b)
                        ==> comb_rounds(self.tables, self.assigns@, 0, a0, b),
                decreases self.assigns.len() - k,
            {
                let ghost pre: CombState = (self.signals@, name_set(self.driven@), changed);
                let val = self.tables.eval_expr_with_env(&self.assigns[k].rhs, &self.signals);
                let w = self.tables.width_for_signal(&self.assigns[k].lhs);
                let masked = mask_to_width(val, w);
                let old_v = sig_get(&self.signals, &self.assigns[k].lhs);
                if masked != old_v {
                    sig_set(&mut self.signals, &self.assigns[k].lhs, masked);
                    changed = true;
                }
                if round == 0 {
                    mark_driven(&mut self.driven, &self.assigns[k].lhs);
                }
                proof {
                    let tk = self.assigns@.take(k + 1);
                    assert(tk.drop_last() == self.assigns@.take(k as int));
                    assert(tk.last() == self.assigns@[k as int]);
                    assert(mid_comb(pre));
                }
                k = k + 1;
            }
            assert(self.assigns@.take(self.assigns.len() as int) == self.assigns@);
            let ghost m: CombState = (self.signals@, name_set(self.driven@), changed);
            assert(mid_comb(m));
            if !changed {
                assert(comb_rounds(self.tables, self.assigns@, round as nat, cur, (m.0, m.1)));
                assert(comb_rounds(self.tables, self.assigns@, 0, a0, (self.signals@, name_set(self.driven@))));
                break;
            }
            let ghost r0 = round;
            round = round + 1;
            proof {
                assert forall|b: EnvState| #[trigger]
                    comb_rounds(self.tables, self.assigns@, round as nat, (self.signals@, name_set(self.driven@)), b) implies comb_rounds(
                    self.tables,
                    self.assigns@,
                    0,
                    a0,
                    b,
                ) by {
                    assert(comb_pass(self.tables, self.assigns@, r0 == 0, start, m));
                    assert(r0 as nat + 1 == round as nat);
                    assert(comb_rounds(self.tables, self.assigns@, r0 as nat, cur, b));
                }
            }
        }
    }
}

// ---------------------------------------------------------------------------------------------
// Procedural statements
// ---------------------------------------------------------------------------------------------

/// `nba` extended by `more` (non-blocking writes are only ever queued).
pub open spec fn queued(before: Seq<(String, i64)>, after: Seq<(String, i64)>) -> bool {
    &&& after.len() >= before.len()
    &&& forall|i: int| 0 <= i < before.len() ==> #[trigger] after[i] == before[i]
}

/// What running statements acts on: the signal values, the queued non-blocking writes
/// (target, value), and the names marked driven.
pub type ExecState = (Seq<(String, i64)>, Seq<(Seq<char>, i64)>, Set<Seq<char>>);

/// A write queue viewed as (target, value) pairs.
pub open spec fn queue_view(nba: Seq<(String, i64)>) -> Seq<(Seq<char>, i64)> {
    nba.map_values(|p: (String, i64)| (p.0@, p.1))
}

/// `env1` is `env0` with `name` set to `v`.
pub open spec fn writes(env0: Seq<(String, i64)>, env1: Seq<(String, i64)>, name: Seq<char>, v: i64) -> bool {
    forall|n: Seq<char>| #[trigger] env_lookup(env1, n) == if n == name {
        Some(v)
    } else {
        env_lookup(env0, n)
    }
}

/// Value of `e` in `env` under the tables `t`.
pub open spec fn ev(t: SimTables, e: IrExpr, env: Seq<(String, i64)>) -> i64 {
    eval_spec(e, env, t.widths@, t.mem_bounds@, t.mem_elem_width@)
}

/// Width of signal `n` under the tables `t`.
pub open spec fn wd(t: SimTables, n: Seq<char>) -> usize {
    lhs_width_spec(n, t.widths@, t.mem_bounds@, t.mem_elem_width@)
}

/// Running statement `s` from state `a` ends in state `b`: a blocking assignment writes its
/// masked value and marks the target driven; a non-blocking one queues it; a memory write goes
/// to element `stem__k` (index clamped to the bounds, value masked to the element width); `if`
/// runs the branch its condition selects; `case` the first arm whose value equals the selector,
/// else the default; `for` sets the loop variable, then runs at most 1024 iterations while the
/// condition holds, each followed by the step; delays and system tasks change nothing.
pub open spec fn stmt_step(t: SimTables, s: IrStmt, a: ExecState, b: ExecState) -> bool
    decreases s, 0nat,
{
    match s {
        IrStmt::BlockingAssign { lhs, rhs } => {
            let v = mask_spec(ev(t, rhs, a.0), wd(t, lhs@));
            writes(a.0, b.0, lhs@, v) && b.1 == a.1 && b.2 == a.2.insert(lhs@)
        },
        IrStmt::NonBlockingAssign { lhs, rhs } => {
            let v = mask_spec(ev(t, rhs, a.0), wd(t, lhs@));
            b.0 == a.0 && b.1 == a.1.push((lhs@, v)) && b.2 == a.2
        },
        IrStmt::MemAssign { stem, index, rhs, nonblocking } => {
            let (lo, hi) = bounds_of(t.mem_bounds@, stem@);
            let name = element_name(stem@, clamp_spec(ev(t, index, a.0), lo, hi));
            let m = mask_spec(ev(t, rhs, a.0), elem_width_of(t.mem_elem_width@, stem@));
            if nonblocking {
                b.0 == a.0 && b.1 == a.1.push((name, m)) && b.2 == a.2
            } else {
                writes(a.0, b.0, name, m) && b.1 == a.1 && b.2 == a.2.insert(name)
            }
        },
        IrStmt::IfElse { cond, then_body, else_body } => if ev(t, cond, a.0) != 0 {
            stmts_step(t, then_body@, a, b)
        } else {
            stmts_step(t, else_body@, a, b)
        },
        IrStmt::Case { expr, arms, default } => {
            let val = ev(t, expr, a.0);
            if arm_matches(t, arms@, val, a.0) {
                case_step(t, arms@, val, a, b)
            } else {
                stmts_step(t, default@, a, b)
            }
        },
        IrStmt::For { init_var, init_val, cond, step_var, step_expr, body } => exists|m: ExecState|
            #[trigger] mid(m) && writes(a.0, m.0, init_var@, ev(t, init_val, a.0)) && m.1 == a.1 && m.2 == a.2 && for_step(
                t,
                body@,
                cond,
                step_var@,
                step_expr,
                1024,
                m,
                b,
            ),
        IrStmt::Delay(_) => b == a,
        IrStmt::SystemTask { .. } => b == a,
    }
}

/// An intermediate state (a trigger for the states between steps).
pub open spec fn mid(m: ExecState) -> bool {
    true
}

/// Running `ss` in order from `a` ends in `b`.
pub open spec fn stmts_step(t: SimTables, ss: Seq<IrStmt>, a: ExecState, b: ExecState) -> bool
    decreases ss, 0nat,
{
    if ss.len() == 0 {
        b == a
    } else {
        exists|m: ExecState| #[trigger] mid(m) && stmts_step(t, ss.subrange(0, ss.len() - 1), a, m) && stmt_step(
            t,
            ss[ss.len() - 1],
            m,
            b,
        )
    }
}

/// Some arm's value equals `val` in `env`.
pub open spec fn arm_matches(t: SimTables, arms: Seq<IrCaseArm>, val: i64, env: Seq<(String, i64)>) -> bool
    decreases arms.len(),
{
    arms.len() > 0 && (ev(t, arms[0].value, env) == val || arm_matches(t, arms.subrange(1, arms.len() as int), val, env))
}

/// The first arm whose value equals `val` runs from `a` to `b`.
pub open spec fn case_step(t: SimTables, arms: Seq<IrCaseArm>, val: i64, a: ExecState, b: ExecState) -> bool
    decreases arms, 0nat,
{
    if arms.len() == 0 {
        b == a
    } else if ev(t, arms[0].value, a.0) == val {
        stmts_step(t, arms[0].body@, a, b)
    } else {
        case_step(t, arms.subrange(1, arms.len() as int), val, a, b)
    }
}

/// At most `k` more loop iterations from `a` end in `b`: none once the condition is 0.
pub open spec fn for_step(
    t: SimTables,
    body: Seq<IrStmt>,
    cond: IrExpr,
    step_var: Seq<char>,
    step_expr: IrExpr,
    k: nat,
    a: ExecState,
    b: ExecState,
) -> bool
    decreases body, k,
{
    if k == 0 || ev(t, cond, a.0) == 0 {
        b == a
    } else {
        exists|m1: ExecState, m2: ExecState|
            #![trigger mid(m1), mid(m2)]
            stmts_step(t, body, a, m1) && writes(m1.0, m2.0, step_var, ev(t, step_expr, m1.0)) && m2.1 == m1.1 && m2.2
                == m1.2 && for_step(t, body, cond, step_var, step_expr, (k - 1) as nat, m2, b)
    }
}

/// The state a statement runs on.
pub open spec fn exec_state(scratch: Seq<(String, i64)>, nba: Seq<(String, i64)>, driven: Seq<String>) -> ExecState {
    (scratch, queue_view(nba), name_set(driven))
}

/// Runs one statement on the signal values `scratch`: a blocking assignment writes its masked
/// value at once, a non-blocking one is queued on `nba`, a memory write goes to element
/// `stem__k` (index clamped to the bounds, value masked to the element width), `if` / `case`
/// choose by value, `for` runs at most 1024 iterations; delays and system tasks do nothing.
pub fn exec_stmt_on_env(
    tables: &SimTables,
    driven: &mut Vec<String>,
    stmt: &IrStmt,
    scratch: &mut SigEnv,
    nba: &mut Vec<(String, i64)>,
)
    ensures
        queued(old(nba)@, final(nba)@),
        stmt_step(
            *tables,
            *stmt,
            exec_state(old(scratch)@, old(nba)@, old(driven)@),
            exec_state(final(scratch)@, final(nba)@, final(driven)@),
        ),
    decreases stmt, 0nat,
{
    let ghost a0 = exec_state(scratch@, nba@, driven@);
    match stmt {
        IrStmt::BlockingAssign { lhs, rhs } => {
            let val = tables.eval_expr_with_env(rhs, scratch);
            let w = tables.width_for_signal(lhs);
            assert(val == ev(*tables, *rhs, a0.0));
            assert(w == wd(*tables, lhs@));
            sig_set(scratch, lhs, mask_to_width(val, w));
            mark_driven(driven, lhs);
            assert(writes(a0.0, scratch@, lhs@, mask_spec(val, w)));
            assert(name_set(driven@) == a0.2.insert(lhs@));
            assert(queue_view(nba@) == a0.1);
        },
        IrStmt::NonBlockingAssign { lhs, rhs } => {
            let val = tables.eval_expr_with_env(rhs, scratch);
            let w = tables.width_for_signal(lhs);
            let ghost q0 = nba@;
            nba.push((lhs.clone(), mask_to_width(val, w)));
            assert(queue_view(nba@) =~= queue_view(q0).push((lhs@, mask_spec(val, w))));
        },
        IrStmt::MemAssign { stem, index, rhs, nonblocking } => {
            let idx = tables.eval_expr_with_env(index, scratch);
            let (lo, hi) = match assoc_get(&tables.mem_bounds, stem) {
                Some(b) => b,
                None => (0, 0),
            };
            let k = if idx < lo { lo } else if idx > hi { hi } else { idx };
            let lhs = join_name_index(stem, k);
            let val = tables.eval_expr_with_env(rhs, scratch);
            let ew = match assoc_get(&tables.mem_elem_width, stem) {
                Some(w) => w,
                None => 1,
            };
            let m = mask_to_width(val, ew);
            assert(lhs@ == element_name(stem@, clamp_spec(idx, lo, hi)));
            if *nonblocking {
                let ghost q0 = nba@;
                nba.push((lhs, m));
                assert(queue_view(nba@) =~= queue_view(q0).push((element_name(stem@, clamp_spec(idx, lo, hi)), m)));
            } else {
                sig_set(scratch, &lhs, m);
                mark_driven(driven, &lhs);
            }
        },
        IrStmt::IfElse { cond, then_body, else_body } => {
            let c = tables.eval_expr_with_env(cond, scratch);
            if c != 0 {
                exec_stmts_on_env(tables, driven, then_body, scratch, nba);
            } else {
                exec_stmts_on_env(tables, driven, else_body, scratch, nba);
            }
        },
        IrStmt::Case { expr, arms, default } => {
            let val = tables.eval_expr_with_env(expr, scratch);
            let matched = exec_case_on_env(tables, driven, arms, val, scratch, nba);
            if !matched {
                exec_stmts_on_env(tables, driven, default, scratch, nba);
            }
        },
        IrStmt::For { init_var, init_val, cond, step_var, step_expr, body } => {
            let start = tables.eval_expr_with_env(init_val, scratch);
            sig_set(scratch, init_var, start);
            let ghost m = exec_state(scratch@, nba@, driven@);
            exec_for_on_env(tables, driven, body, cond, step_var, step_expr, scratch, nba);
            assert(mid(m));
            assert(for_step(*tables, body@, *cond, step_var@, *step_expr, 1024, m, exec_state(scratch@, nba@, driven@)));
        },
        IrStmt::Delay(_) => {},
        IrStmt::SystemTask { .. } => {},
    }
}

/// Runs `stmts` in order (see [`stmts_step`]).
pub fn exec_stmts_on_env(
    tables: &SimTables,
    driven: &mut Vec<String>,
    stmts: &Vec<IrStmt>,
    scratch: &mut SigEnv,
    nba: &mut Vec<(String, i64)>,
)
    ensures
        queued(old(nba)@, final(nba)@),
        stmts_step(
            *tables,
            stmts@,
            exec_state(old(scratch)@, old(nba)@, old(driven)@),
            exec_state(final(scratch)@, final(nba)@, final(driven)@),
        ),
    decreases stmts@, 1nat,
{
    let ghost a0 = exec_state(scratch@, nba@, driven@);
    assert(stmts@.take(0) =~= Seq::<IrStmt>::empty());
    let mut i: usize = 0;
    while i < stmts.len()
        invariant
            i <= stmts.len(),
            queued(old(nba)@, nba@),
            a0 == exec_state(old(scratch)@, old(nba)@, old(driven)@),
            stmts_step(*tables, stmts@.take(i as int), a0, exec_state(scratch@, nba@, driven@)),
        decreases stmts.len() - i,
    {
        assert(decreases_to!(stmts@ => stmts@[i as int]));
        let ghost cur = exec_state(scratch@, nba@, driven@);
        exec_stmt_on_env(tables, driven, &stmts[i], scratch, nba);
        proof {
            let nxt = exec_state(scratch@, nba@, driven@);
            let tk = stmts@.take(i + 1);
            assert(tk.subrange(0, tk.len() - 1) == stmts@.take(i as int));
            assert(tk[tk.len() - 1] == stmts@[i as int]);
            assert(stmt_step(*tables, tk[tk.len() - 1], cur, nxt));
            assert(stmts_step(*tables, tk.subrange(0, tk.len() - 1), a0, cur));
            assert(mid(cur));
            assert(stmts_step(*tables, tk, a0, nxt));
        }
        i = i + 1;
    }
    assert(stmts@.take(stmts.len() as int) == stmts@);
}

fn exec_case_on_env(
    tables: &SimTables,
    driven: &mut Vec<String>,
    arms: &Vec<IrCaseArm>,
    val: i64,
    scratch: &mut SigEnv,
    nba: &mut Vec<(String, i64)>,
) -> (matched: bool)
    ensures
        queued(old(nba)@, final(nba)@),
        matched == arm_matches(*tables, arms@, val, old(scratch)@),
        matched ==> case_step(
            *tables,
            arms@,
            val,
            exec_state(old(scratch)@, old(nba)@, old(driven)@),
            exec_state(final(scratch)@, final(nba)@, final(driven)@),
        ),
        !matched ==> final(scratch)@ == old(scratch)@ && final(nba)@ == old(nba)@ && final(driven)@ == old(driven)@,
    decreases arms@, 2nat,
{
    let ghost a0 = exec_state(scratch@, nba@, driven@);
    assert(arms@.subrange(0, arms@.len() as int) == arms@);
    let mut a: usize = 0;
    while a < arms.len()
        invariant
            a <= arms.len(),
            scratch@ == old(scratch)@,
            nba@ == old(nba)@,
            driven@ == old(driven)@,
            a0 == exec_state(old(scratch)@, old(nba)@, old(driven)@),
            arm_matches(*tables, arms@, val, old(scratch)@) == arm_matches(
                *tables,
                arms@.subrange(a as int, arms@.len() as int),
                val,
                old(scratch)@,
            ),
            forall|b: ExecState| case_step(*tables, arms@, val, a0, b) == case_step(
                *tables,
                arms@.subrange(a as int, arms@.len() as int),
                val,
                a0,
                b,
            ),
        decreases arms.len() - a,
    {
        let av = tables.eval_expr_with_env(&arms[a].value, scratch);
        let ghost rest = arms@.subrange(a as int, arms@.len() as int);
        assert(rest[0] == arms@[a as int]);
        if val == av {
            assert(decreases_to!(arms@ => arms@[a as int]));
            exec_arm_on_env(tables, driven, &arms[a], scratch, nba);
            return true;
        }
        assert(rest.subrange(1, rest.len() as int) == arms@.subrange(a + 1, arms@.len() as int));
        a = a + 1;
    }
    false
}

fn exec_arm_on_env(
    tables: &SimTables,
    driven: &mut Vec<String>,
    arm: &IrCaseArm,
    scratch: &mut SigEnv,
    nba: &mut Vec<(String, i64)>,
)
    ensures
        queued(old(nba)@, final(nba)@),
        stmts_step(
            *tables,
            arm.body@,
            exec_state(old(scratch)@, old(nba)@, old(driven)@),
            exec_state(final(scratch)@, final(nba)@, final(driven)@),
        ),
    decreases arm, 1nat,
{
    exec_stmts_on_env(tables, driven, &arm.body, scratch, nba);
}

fn exec_for_on_env(
    tables: &SimTables,
    driven: &mut Vec<String>,
    body: &Vec<IrStmt>,
    cond: &IrExpr,
    step_var: &String,
    step_expr: &IrExpr,
    scratch: &mut SigEnv,
    nba: &mut Vec<(String, i64)>,
)
    ensures
        queued(old(nba)@, final(nba)@),
        for_step(
            *tables,
            body@,
            *cond,
            step_var@,
            *step_expr,
            1024,
            exec_state(old(scratch)@, old(nba)@, old(driven)@),
            exec_state(final(scratch)@, final(nba)@, final(driven)@),
        ),
    decreases body@, 2nat,
{
    let ghost a0 = exec_state(scratch@, nba@, driven@);
    let mut n: usize = 0;
    loop
        invariant
            n <= 1024,
            queued(old(nba)@, nba@),
            a0 == exec_state(old(scratch)@, old(nba)@, old(driven)@),
            forall|b: ExecState| #[trigger]
                for_step(*tables, body@, *cond, step_var@, *step_expr, (1024 - n) as nat, exec_state(scratch@, nba@, driven@), b)
                    ==> for_step(*tables, body@, *cond, step_var@, *step_expr, 1024, a0, b),
        ensures
            queued(old(nba)@, nba@),
            for_step(*tables, body@, *cond, step_var@, *step_expr, 1024, a0, exec_state(scratch@, nba@, driven@)),
        decreases 1024 - n,
    {
        let ghost cur = exec_state(scratch@, nba@, driven@);
        if n >= 1024 {
            assert(for_step(*tables, body@, *cond, step_var@, *step_expr, (1024 - n) as nat, cur, cur));
            break;
        }
        let c = tables.eval_expr_with_env(cond, scratch);
        if c == 0 {
            assert(for_step(*tables, body@, *cond, step_var@, *step_expr, (1024 - n) as nat, cur, cur));
            break;
        }
        exec_stmts_on_env(tables, driven, body, scratch, nba);
        let ghost m1 = exec_state(scratch@, nba@, driven@);
        let next = tables.eval_expr_with_env(step_expr, scratch);
        sig_set(scratch, step_var, next);
        proof {
            let m2 = exec_state(scratch@, nba@, driven@);
            let k: nat = (1024 - n) as nat;
            assert(writes(m1.0, m2.0, step_var@, ev(*tables, *step_expr, m1.0)));
            assert forall|b: ExecState| #[trigger]
                for_step(*tables, body@, *cond, step_var@, *step_expr, (1024 - (n + 1)) as nat, m2, b) implies for_step(
                *tables,
                body@,
                *cond,
                step_var@,
                *step_expr,
                1024,
                a0,
                b,
            ) by {
                assert((k - 1) as nat == (1024 - (n + 1)) as nat);
                assert(for_step(*tables, body@, *cond, step_var@, *step_expr, (k - 1) as nat, m2, b));
                assert(stmts_step(*tables, body@, cur, m1));
                assert(mid(m1) && mid(m2));
                assert(for_step(*tables, body@, *cond, step_var@, *step_expr, k, cur, b));
            }
        }
        n = n + 1;
    }
}

/// Entries of a sensitivity list with `posedge` or `negedge`.
pub open spec fn has_clock_edge(sens: IrSensitivity) -> bool {
    match sens {
        IrSensitivity::Star => false,
        IrSensitivity::EdgeList(edges) => exists|i: int| 0 <= i < edges@.len() && is_clock_entry(#[trigger] edges@[i]),
    }
}

/// A `posedge` or `negedge` entry.
pub open spec fn is_clock_entry(e: IrSensEntry) -> bool {
    e.edge == IrEdgeKind::Posedge || e.edge == IrEdgeKind::Negedge
}

/// A non-empty list of level entries only (`@(a or b)`).
pub open spec fn pure_level(edges: Seq<IrSensEntry>) -> bool {
    edges.len() > 0 && forall|i: int| 0 <= i < edges.len() ==> (#[trigger] edges[i]).edge == IrEdgeKind::Level
}

/// Whether entry `e` sees a change from `prev` to `cur`: a rise from 0 to 1, a fall from 1 to 0,
/// or any change for a level entry.
pub open spec fn entry_fires(e: IrSensEntry, cur: Seq<(String, i64)>, prev: Seq<(String, i64)>) -> bool {
    let c = sig_value(cur, e.signal@);
    let p = sig_value(prev, e.signal@);
    match e.edge {
        IrEdgeKind::Posedge => p == 0 && c == 1,
        IrEdgeKind::Negedge => p == 1 && c == 0,
        IrEdgeKind::Level => c != p,
    }
}

/// Whether an `always` block runs: `@*` always; a pure level list always while stabilising
/// before the first dump; otherwise when one of its entries fires.
pub open spec fn should_fire(sens: IrSensitivity, stabilize: bool, cur: Seq<(String, i64)>, prev: Seq<(String, i64)>) -> bool {
    match sens {
        IrSensitivity::Star => true,
        IrSensitivity::EdgeList(edges) => (stabilize && pure_level(edges@)) || exists|i: int|
            0 <= i < edges@.len() && entry_fires(#[trigger] edges@[i], cur, prev),
    }
}

/// Whether a sensitivity has a `posedge` / `negedge` entry.
pub fn sensitivity_has_clock_edge(sens: &IrSensitivity) -> (b: bool)
    ensures
        b == has_clock_edge(*sens),
{
    match sens {
        IrSensitivity::Star => false,
        IrSensitivity::EdgeList(edges) => {
            let mut i: usize = 0;
            while i < edges.len()
                invariant
                    i <= edges.len(),
                    *sens is EdgeList,
                    sens->EdgeList_0@ == edges@,
                    forall|k: int| 0 <= k < i ==> !is_clock_entry(#[trigger] edges@[k]),
                decreases edges.len() - i,
            {
                if edges[i].edge == IrEdgeKind::Posedge || edges[i].edge == IrEdgeKind::Negedge {
                    assert(is_clock_entry(edges@[i as int]));
                    return true;
                }
                i = i + 1;
            }
            false
        },
    }
}

/// Whether an entry list is non-empty and level-only.
pub fn edge_list_is_pure_combinational(edges: &Vec<IrSensEntry>) -> (b: bool)
    ensures
        b == pure_level(edges@),
{
    if edges.len() == 0 {
        return false;
    }
    let mut i: usize = 0;
    while i < edges.len()
        invariant
            i <= edges.len(),
            forall|k: int| 0 <= k < i ==> (#[trigger] edges@[k]).edge == IrEdgeKind::Level,
        decreases edges.len() - i,
    {
        if edges[i].edge != IrEdgeKind::Level {
            return false;
        }
        i = i + 1;
    }
    true
}

/// One dump line per signal (in dump order) whose value differs from `prev`, or which became
/// driven (it is in `driven` but not in `was_driven`, so its dump leaves `x`): `(name, value)`.
pub open spec fn changes_spec(
    order: Seq<String>,
    cur: Seq<(String, i64)>,
    prev: Seq<(String, i64)>,
    driven: Set<Seq<char>>,
    was_driven: Set<Seq<char>>,
) -> Seq<(Seq<char>, i64)>
    decreases order.len(),
{
    if order.len() == 0 {
        seq![]
    } else {
        let rest = changes_spec(order.drop_last(), cur, prev, driven, was_driven);
        let n = order.last()@;
        if sig_value(cur, n) != sig_value(prev, n) || (driven.contains(n) && !was_driven.contains(n)) {
            rest.push((n, sig_value(cur, n)))
        } else {
            rest
        }
    }
}

/// The view of a change list.
pub open spec fn changes_view(c: Seq<(String, i64)>) -> Seq<(Seq<char>, i64)> {
    c.map_values(|p: (String, i64)| (p.0@, p.1))
}

/// Signal values and the names marked driven.
pub type EnvState = (Seq<(String, i64)>, Set<Seq<char>>);

/// An intermediate state of a fold over writes (a trigger).
pub open spec fn mid_env(m: EnvState) -> bool {
    true
}

/// `b` is `a` after writing `v` (masked to the width of `name`) into `name` and marking it
/// driven.
pub open spec fn masked_write(t: SimTables, a: EnvState, b: EnvState, name: Seq<char>, v: i64) -> bool {
    writes(a.0, b.0, name, mask_spec(v, wd(t, name))) && b.1 == a.1.insert(name)
}

/// Committing the queued writes `q` in order from `a` ends in `b`.
pub open spec fn commit_step(t: SimTables, q: Seq<(Seq<char>, i64)>, a: EnvState, b: EnvState) -> bool
    decreases q.len(),
{
    if q.len() == 0 {
        b == a
    } else {
        exists|m: EnvState| #[trigger] mid_env(m) && commit_step(t, q.drop_last(), a, m) && masked_write(t, m, b, q.last().0, q.last().1)
    }
}

/// Applying the `initial` events at time `tfs` (in order) from `a` ends in `b`.
pub open spec fn apply_step(t: SimTables, events: Seq<InitialEvent>, tfs: u128, a: EnvState, b: EnvState) -> bool
    decreases events.len(),
{
    if events.len() == 0 {
        b == a
    } else {
        exists|m: EnvState|
            #[trigger] mid_env(m) && apply_step(t, events.drop_last(), tfs, a, m) && if events.last().time_fs == tfs {
                masked_write(t, m, b, events.last().lhs@, events.last().val)
            } else {
                b == m
            }
    }
}

/// Signal values, driven names, and whether a round changed a value.
pub type CombState = (Seq<(String, i64)>, Set<Seq<char>>, bool);

/// An intermediate state of a round of continuous assignments (a trigger).
pub open spec fn mid_comb(m: CombState) -> bool {
    true
}

/// One round over the continuous assignments `assigns` from `a` ends in `b`: each writes its
/// masked value when it differs from the current one (noting the change); in the first round
/// every target is marked driven.
pub open spec fn comb_pass(t: SimTables, assigns: Seq<IrAssign>, first: bool, a: CombState, b: CombState) -> bool
    decreases assigns.len(),
{
    if assigns.len() == 0 {
        b == a
    } else {
        exists|m: CombState|
            #[trigger] mid_comb(m) && comb_pass(t, assigns.drop_last(), first, a, m) && {
                let x = assigns.last();
                let v = mask_spec(ev(t, x.rhs, m.0), wd(t, x.lhs@));
                &&& if v != sig_value(m.0, x.lhs@) {
                    writes(m.0, b.0, x.lhs@, v) && b.2
                } else {
                    b.0 == m.0 && b.2 == m.2
                }
                &&& b.1 == if first { m.1.insert(x.lhs@) } else { m.1 }
            }
    }
}

/// Rounds `r`, `r + 1`, ... (at most 100 in all) of the continuous assignments from `a` end in
/// `b`: they stop after a round that changes nothing.
pub open spec fn comb_rounds(t: SimTables, assigns: Seq<IrAssign>, r: nat, a: EnvState, b: EnvState) -> bool
    decreases 100 - r,
{
    if r >= 100 {
        b == a
    } else {
        exists|m: CombState|
            #[trigger] mid_comb(m) && comb_pass(t, assigns, r == 0, (a.0, a.1, false), m) && if !m.2 {
                b == (m.0, m.1)
            } else {
                comb_rounds(t, assigns, r + 1, (m.0, m.1), b)
            }
    }
}

/// Whether `name` is written by a procedural block: an `always` block or an `always #D`
/// process that can assign it, or an `initial` event.
pub open spec fn register_spec(
    blocks: Seq<IrAlways>,
    events: Seq<InitialEvent>,
    procs: Seq<AlwaysDelayProc>,
    name: Seq<char>,
) -> bool {
    ||| exists|i: int| 0 <= i < blocks.len() && stmts_assign((#[trigger] blocks[i]).stmts@, name)
    ||| exists|i: int| 0 <= i < events.len() && (#[trigger] events[i]).lhs@ == name
    ||| exists|i: int| 0 <= i < procs.len() && stmts_assign((#[trigger] procs[i]).stmts@, name)
}

/// Pass one over `blocks` from `a` ends in `b`: each clocked block that fires (against `sig`
/// and `prev`) runs from the values `sig`, its queued writes and driven marks accumulating.
pub open spec fn clocked_pass(
    t: SimTables,
    blocks: Seq<IrAlways>,
    sig: Seq<(String, i64)>,
    prev: Seq<(String, i64)>,
    stab: bool,
    a: ExecState,
    b: ExecState,
) -> bool
    decreases blocks.len(),
{
    if blocks.len() == 0 {
        b == a
    } else {
        exists|m: ExecState|
            #[trigger] mid(m) && clocked_pass(t, blocks.drop_last(), sig, prev, stab, a, m) && {
                let bl = blocks.last();
                if has_clock_edge(bl.sensitivity) && should_fire(bl.sensitivity, stab, sig, prev) {
                    stmts_step(t, bl.stmts@, (sig, m.1, m.2), b)
                } else {
                    b == m
                }
            }
    }
}

/// Pass two over `blocks` from `a` ends in `b`: each `@*` or level block that fires (against
/// `sig` and `prev`) runs on the shared values.
pub open spec fn level_pass(
    t: SimTables,
    blocks: Seq<IrAlways>,
    sig: Seq<(String, i64)>,
    prev: Seq<(String, i64)>,
    stab: bool,
    a: ExecState,
    b: ExecState,
) -> bool
    decreases blocks.len(),
{
    if blocks.len() == 0 {
        b == a
    } else {
        exists|m: ExecState|
            #[trigger] mid(m) && level_pass(t, blocks.drop_last(), sig, prev, stab, a, m) && {
                let bl = blocks.last();
                if !has_clock_edge(bl.sensitivity) && should_fire(bl.sensitivity, stab, sig, prev) {
                    stmts_step(t, bl.stmts@, m, b)
                } else {
                    b == m
                }
            }
    }
}

/// One firing of the `always` blocks from values `sig` (previous values `prev`) and driven
/// names `d` ends in `b`: pass one from `sig`, its writes committed, the continuous assignments
/// settled, pass two from there, its writes committed.
pub open spec fn fire_spec(
    t: SimTables,
    assigns: Seq<IrAssign>,
    blocks: Seq<IrAlways>,
    stab: bool,
    sig: Seq<(String, i64)>,
    prev: Seq<(String, i64)>,
    d: Set<Seq<char>>,
    b: EnvState,
) -> bool {
    exists|s1: ExecState, c1: EnvState, c2: EnvState, s2: ExecState|
        #![trigger mid(s1), mid_env(c1), mid_env(c2), mid(s2)]
        clocked_pass(t, blocks, sig, prev, stab, (sig, seq![], d), s1) && commit_step(t, s1.1, (s1.0, s1.2), c1)
            && comb_rounds(t, assigns, 0, c1, c2) && level_pass(t, blocks, c2.0, prev, stab, (c2.0, seq![], c2.1), s2)
            && commit_step(t, s2.1, (s2.0, s2.2), b)
}

impl<'a> Simulator<'a> {
    /// Whether `ab` runs now (see [`should_fire`]).
    pub fn always_block_should_fire(&self, ab: &IrAlways, stabilize_level_comb: bool) -> (b: bool)
        ensures
            b == should_fire(ab.sensitivity, stabilize_level_comb, self.signals@, self.prev_signals@),
    {
        match &ab.sensitivity {
            IrSensitivity::Star => true,
            IrSensitivity::EdgeList(edges) => {
                if stabilize_level_comb && edge_list_is_pure_combinational(edges) {
                    return true;
                }
                let mut i: usize = 0;
                while i < edges.len()
                    invariant
                        i <= edges.len(),
                        ab.sensitivity is EdgeList,
                        ab.sensitivity->EdgeList_0@ == edges@,
                        forall|k: int| 0 <= k < i ==> !entry_fires(#[trigger] edges@[k], self.signals@, self.prev_signals@),
                    decreases edges.len() - i,
                {
                    let cur = sig_get(&self.signals, &edges[i].signal);
                    let prev = sig_get(&self.prev_signals, &edges[i].signal);
                    let fires = match edges[i].edge {
                        IrEdgeKind::Posedge => prev == 0 && cur == 1,
                        IrEdgeKind::Negedge => prev == 1 && cur == 0,
                        IrEdgeKind::Level => cur != prev,
                    };
                    if fires {
                        assert(entry_fires(edges@[i as int], self.signals@, self.prev_signals@));
                        return true;
                    }
                    i = i + 1;
                }
                false
            },
        }
    }

    /// Runs the `always` blocks of one time step. Pass one: the clocked blocks that fire, each
    /// from the current values; then their queued non-blocking writes (masked) and the continuous
    /// assignments. Pass two: `@*` and level blocks that fire, sharing one copy of the values;
    /// then their queued writes.
    pub fn fire_always_blocks(&mut self, stabilize_level_comb: bool)
        ensures
            final(self).signal_order == old(self).signal_order,
            final(self).vcd_ids == old(self).vcd_ids,
            final(self).tables == old(self).tables,
            final(self).assigns == old(self).assigns,
            final(self).always_blocks == old(self).always_blocks,
            final(self).always_delay_procs == old(self).always_delay_procs,
            final(self).initial_events == old(self).initial_events,
            final(self).initial_time_horizon_fs == old(self).initial_time_horizon_fs,
            final(self).scope_tree == old(self).scope_tree,
            final(self).prev_signals == old(self).prev_signals,
            fire_spec(
                old(self).tables,
                old(self).assigns@,
                old(self).always_blocks@,
                stabilize_level_comb,
                old(self).signals@,
                old(self).prev_signals@,
                name_set(old(self).driven@),
                (final(self).signals@, name_set(final(self).driven@)),
            ),
    {
        let ghost sig0 = self.signals@;
        let ghost prev0 = self.prev_signals@;
        let ghost d0 = name_set(self.driven@);
        let mut blocks: Vec<IrAlways> = Vec::new();
        std::mem::swap(&mut blocks, &mut self.always_blocks);
        let mut scratch = copy_env(&self.signals);
        let mut nba: Vec<(String, i64)> = Vec::new();
        let ghost a1: ExecState = (sig0, seq![], d0);
        assert(exec_state(scratch@, nba@, self.driven@) == a1);
        assert(blocks@.take(0) =~= Seq::<IrAlways>::empty());
        let mut b: usize = 0;
        while b < blocks.len()
            invariant
                b <= blocks.len(),
                self.signal_order == old(self).signal_order,
                self.vcd_ids == old(self).vcd_ids,
                self.tables == old(self).tables,
                self.assigns == old(self).assigns,
                self.always_delay_procs == old(self).always_delay_procs,
                self.initial_events == old(self).initial_events,
                self.initial_time_horizon_fs == old(self).initial_time_horizon_fs,
                self.scope_tree == old(self).scope_tree,
                self.prev_signals == old(self).prev_signals,
                self.signals@ == sig0,
                prev0 == old(self).prev_signals@,
                sig0 == old(self).signals@,
                d0 == name_set(old(self).driven@),
                blocks == old(self).always_blocks,
                a1 == (sig0, Seq::<(Seq<char>, i64)>::empty(), d0),
                clocked_pass(self.tables, blocks@.take(b as int), sig0, prev0, stabilize_level_comb, a1, exec_state(scratch@, nba@, self.driven@)),
            decreases blocks.len() - b,
        {
            let ghost cur = exec_state(scratch@, nba@, self.driven@);
            if sensitivity_has_clock_edge(&blocks[b].sensitivity) && self.always_block_should_fire(&blocks[b], stabilize_level_comb) {
                scratch = copy_env(&self.signals);
                exec_stmts_on_env(&self.tables, &mut self.driven, &blocks[b].stmts, &mut scratch, &mut nba);
            }
            proof {
                let tk = blocks@.take(b + 1);
                assert(tk.drop_last() == blocks@.take(b as int));
                assert(tk.last() == blocks@[b as int]);
                assert(mid(cur));
            }
            b = b + 1;
        }
        assert(blocks@.take(blocks.len() as int) == blocks@);
        let ghost s1 = exec_state(scratch@, nba@, self.driven@);
        self.commit_nba(&nba, &mut scratch);
        let ghost c1: EnvState = (scratch@, name_set(self.driven@));
        self.signals = scratch;
        self.eval_combinational();
        let ghost c2: EnvState = (self.signals@, name_set(self.driven@));
        let mut scratch = copy_env(&self.signals);
        let mut nba: Vec<(String, i64)> = Vec::new();
        let ghost a2: ExecState = (c2.0, seq![], c2.1);
        assert(exec_state(scratch@, nba@, self.driven@) == a2);
        let mut b: usize = 0;
        while b < blocks.len()
            invariant
                b <= blocks.len(),
                self.signal_order == old(self).signal_order,
                self.vcd_ids == old(self).vcd_ids,
                self.tables == old(self).tables,
                self.assigns == old(self).assigns,
                self.always_delay_procs == old(self).always_delay_procs,
                self.initial_events == old(self).initial_events,
                self.initial_time_horizon_fs == old(self).initial_time_horizon_fs,
                self.scope_tree == old(self).scope_tree,
                self.prev_signals == old(self).prev_signals,
                self.signals@ == c2.0,
                prev0 == old(self).prev_signals@,
                blocks == old(self).always_blocks,
                a2 == (c2.0, Seq::<(Seq<char>, i64)>::empty(), c2.1),
                level_pass(self.tables, blocks@.take(b as int), c2.0, prev0, stabilize_level_comb, a2, exec_state(scratch@, nba@, self.driven@)),
            decreases blocks.len() - b,
        {
            let ghost cur = exec_state(scratch@, nba@, self.driven@);
            if !sensitivity_has_clock_edge(&blocks[b].sensitivity) && self.always_block_should_fire(&blocks[b], stabilize_level_comb) {
                exec_stmts_on_env(&self.tables, &mut self.driven, &blocks[b].stmts, &mut scratch, &mut nba);
            }
            proof {
                let tk = blocks@.take(b + 1);
                assert(tk.drop_last() == blocks@.take(b as int));
                assert(tk.last() == blocks@[b as int]);
                assert(mid(cur));
            }
            b = b + 1;
        }
        let ghost s2 = exec_state(scratch@, nba@, self.driven@);
        self.commit_nba(&nba, &mut scratch);
        self.signals = scratch;
        std::mem::swap(&mut blocks, &mut self.always_blocks);
        proof {
            assert(mid(s1) && mid_env(c1) && mid_env(c2) && mid(s2));
            assert(clocked_pass(old(self).tables, old(self).always_blocks@, sig0, prev0, stabilize_level_comb, a1, s1));
            assert(level_pass(old(self).tables, old(self).always_blocks@, c2.0, prev0, stabilize_level_comb, a2, s2));
        }
    }

    /// Writes the queued non-blocking values into `scratch`, in order (each masked to its
    /// target's width), marking their targets driven.
    pub fn commit_nba(&mut self, nba: &Vec<(String, i64)>, scratch: &mut SigEnv)
        ensures
            final(self).signal_order == old(self).signal_order,
            final(self).vcd_ids == old(self).vcd_ids,
            final(self).tables == old(self).tables,
            final(self).signals == old(self).signals,
            final(self).always_blocks == old(self).always_blocks,
            final(self).assigns == old(self).assigns,
            final(self).always_delay_procs == old(self).always_delay_procs,
            final(self).initial_events == old(self).initial_events,
            final(self).initial_time_horizon_fs == old(self).initial_time_horizon_fs,
            final(self).scope_tree == old(self).scope_tree,
            final(self).prev_signals == old(self).prev_signals,
            commit_step(
                old(self).tables,
                queue_view(nba@),
                (old(scratch)@, name_set(old(self).driven@)),
                (final(scratch)@, name_set(final(self).driven@)),
            ),
    {
        let ghost a0: EnvState = (scratch@, name_set(self.driven@));
        let ghost q = queue_view(nba@);
        assert(q.take(0) =~= Seq::<(Seq<char>, i64)>::empty());
        let mut i: usize = 0;
        while i < nba.len()
            invariant
                i <= nba.len(),
                q == queue_view(nba@),
                self.signal_order == old(self).signal_order,
                self.vcd_ids == old(self).vcd_ids,
                self.tables == old(self).tables,
                self.signals == old(self).signals,
                self.always_blocks == old(self).always_blocks,
                self.assigns == old(self).assigns,
                self.always_delay_procs == old(self).always_delay_procs,
                self.initial_events == old(self).initial_events,
                self.initial_time_horizon_fs == old(self).initial_time_horizon_fs,
                self.scope_tree == old(self).scope_tree,
                self.prev_signals == old(self).prev_signals,
                a0 == (old(scratch)@, name_set(old(self).driven@)),
                commit_step(self.tables, q.take(i as int), a0, (scratch@, name_set(self.driven@))),
            decreases nba.len() - i,
        {
            let ghost cur: EnvState = (scratch@, name_set(self.driven@));
            let w = self.tables.width_for_signal(&nba[i].0);
            sig_set(scratch, &nba[i].0, mask_to_width(nba[i].1, w));
            mark_driven(&mut self.driven, &nba[i].0);
            proof {
                let tk = q.take(i + 1);
                assert(tk.drop_last() == q.take(i as int));
                assert(tk.last() == (nba@[i as int].0@, nba@[i as int].1));
                assert(mid_env(cur));
            }
            i = i + 1;
        }
        assert(q.take(nba.len() as int) == q);
    }

    /// Runs `stmts` on the current signal values, queueing non-blocking writes on `nba`.
    pub fn exec_stmts(&mut self, stmts: &Vec<IrStmt>, nba: &mut Vec<(String, i64)>)
        ensures
            final(self).signal_order == old(self).signal_order,
            final(self).vcd_ids == old(self).vcd_ids,
            final(self).tables == old(self).tables,
            final(self).assigns == old(self).assigns,
            final(self).always_blocks == old(self).always_blocks,
            final(self).always_delay_procs == old(self).always_delay_procs,
            final(self).initial_events == old(self).initial_events,
            final(self).initial_time_horizon_fs == old(self).initial_time_horizon_fs,
            final(self).scope_tree == old(self).scope_tree,
            final(self).prev_signals == old(self).prev_signals,
            queued(old(nba)@, final(nba)@),
            stmts_step(
                old(self).tables,
                stmts@,
                exec_state(old(self).signals@, old(nba)@, old(self).driven@),
                exec_state(final(self).signals@, final(nba)@, final(self).driven@),
            ),
    {
        let mut sig: SigEnv = Vec::new();
        std::mem::swap(&mut sig, &mut self.signals);
        exec_stmts_on_env(&self.tables, &mut self.driven, stmts, &mut sig, nba);
        std::mem::swap(&mut sig, &mut self.signals);
    }

    /// Runs one statement on the current signal values (see [`stmt_step`]).
    pub fn exec_stmt(&mut self, stmt: &IrStmt, nba: &mut Vec<(String, i64)>)
        ensures
            final(self).signal_order == old(self).signal_order,
            final(self).vcd_ids == old(self).vcd_ids,
            final(self).tables == old(self).tables,
            final(self).assigns == old(self).assigns,
            final(self).always_blocks == old(self).always_blocks,
            final(self).always_delay_procs == old(self).always_delay_procs,
            final(self).initial_events == old(self).initial_events,
            final(self).initial_time_horizon_fs == old(self).initial_time_horizon_fs,
            final(self).scope_tree == old(self).scope_tree,
            final(self).prev_signals == old(self).prev_signals,
            queued(old(nba)@, final(nba)@),
            stmt_step(
                old(self).tables,
                *stmt,
                exec_state(old(self).signals@, old(nba)@, old(self).driven@),
                exec_state(final(self).signals@, final(nba)@, final(self).driven@),
            ),
    {
        let mut sig: SigEnv = Vec::new();
        std::mem::swap(&mut sig, &mut self.signals);
        exec_stmt_on_env(&self.tables, &mut self.driven, stmt, &mut sig, nba);
        std::mem::swap(&mut sig, &mut self.signals);
    }

    /// Signals (in dump order) whose value changed since `prev_signals`, or which became driven
    /// since `was_driven`, with their new values.
    pub fn collect_changes(&self, was_driven: &Vec<String>) -> (r: Vec<(String, i64)>)
        ensures
            changes_view(r@) == changes_spec(
                self.signal_order@,
                self.signals@,
                self.prev_signals@,
                name_set(self.driven@),
                name_set(was_driven@),
            ),
    {
        let mut changes: Vec<(String, i64)> = Vec::new();
        let mut i: usize = 0;
        while i < self.signal_order.len()
            invariant
                i <= self.signal_order.len(),
                changes_view(changes@) == changes_spec(
                    self.signal_order@.take(i as int),
                    self.signals@,
                    self.prev_signals@,
                    name_set(self.driven@),
                    name_set(was_driven@),
                ),
            decreases self.signal_order.len() - i,
        {
            assert(self.signal_order@.take(i + 1).drop_last() == self.signal_order@.take(i as int));
            let name = &self.signal_order[i];
            let cur = sig_get(&self.signals, name);
            let prev = sig_get(&self.prev_signals, name);
            let ghost before = changes@;
            let newly = contains_name(&self.driven, name) && !contains_name(was_driven, name);
            proof {
                assert(name_set(self.driven@).contains(name@) == exists|k: int|
                    0 <= k < self.driven@.len() && (#[trigger] self.driven@[k])@ == name@);
                assert(name_set(was_driven@).contains(name@) == exists|k: int|
                    0 <= k < was_driven@.len() && (#[trigger] was_driven@[k])@ == name@);
            }
            if cur != prev || newly {
                changes.push((name.clone(), cur));
                assert(changes_view(changes@) =~= changes_view(before).push((name@, cur)));
            }
            i = i + 1;
        }
        assert(self.signal_order@.take(self.signal_order.len() as int) == self.signal_order@);
        changes
    }

    /// Whether `name` is written by a procedural block: an `always` block or an `always #D`
    /// process that can assign it, or an `initial` event.
    pub fn is_register(&self, name: &String) -> (b: bool)
        ensures
            b == register_spec(self.always_blocks@, self.initial_events@, self.always_delay_procs@, name@),
    {
        let mut i: usize = 0;
        while i < self.always_blocks.len()
            invariant
                i <= self.always_blocks.len(),
                forall|k: int| 0 <= k < i ==> !stmts_assign((#[trigger] self.always_blocks@[k]).stmts@, name@),
            decreases self.always_blocks.len() - i,
        {
            if stmts_assign_to(&self.always_blocks[i].stmts, name) {
                return true;
            }
            i = i + 1;
        }
        let mut j: usize = 0;
        while j < self.initial_events.len()
            invariant
                j <= self.initial_events.len(),
                forall|k: int| 0 <= k < j ==> (#[trigger] self.initial_events@[k]).lhs@ != name@,
            decreases self.initial_events.len() - j,
        {
            if self.initial_events[j].lhs == *name {
                return true;
            }
            j = j + 1;
        }
        let mut q: usize = 0;
        while q < self.always_delay_procs.len()
            invariant
                q <= self.always_delay_procs.len(),
                forall|k: int| 0 <= k < q ==> !stmts_assign((#[trigger] self.always_delay_procs@[k]).stmts@, name@),
            decreases self.always_delay_procs.len() - q,
        {
            if stmts_assign_to(&self.always_delay_procs[q].stmts, name) {
                return true;
            }
            q = q + 1;
        }
        false
    }
}
} // verus!
