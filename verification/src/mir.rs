//! Function bodies, and what the analysis takes from them before it starts.
use crate::context::{local_pointer, AnalysisCtxtData, Location};
use crate::flags::PointerInfo;
use crate::labeling::annotated;
use crate::pointer_id::PointerId;
use crate::text::{begins_at, chars_of, starts_with};
use crate::ty::{
    count_pointers, labeled_from, lemma_count_grows, lemma_one_info_each, pointer_infos,
    AssignPointerIds, LFnSig, LTy, LabeledNode, LabeledTy, SigView, Ty, TyNode,
};
use vstd::prelude::*;
use vstd::string::*;

verus! {

/// What sort of variable a local is.
#[derive(Clone, Copy, Debug, PartialEq, Eq, Structural)]
pub enum LocalKind {
    /// A variable of the user.
    Var,
    /// A temporary of the compiler.
    Temp,
    /// An argument of the function.
    Arg,
    /// The place of the result.
    ReturnPointer,
}

/// A local variable.
pub struct LocalDecl {
    pub kind: LocalKind,
    pub ty: Ty,
}

/// A place that can be read or written.
#[derive(Clone, Copy, Debug, PartialEq, Eq, Structural)]
pub struct Place {
    /// The local that the place starts from.
    pub local: usize,
    /// Whether the place is reached through a pointer.
    pub is_indirect: bool,
}

/// The right hand side of an assignment.
pub enum Rvalue {
    /// A reference to `place`, of type `ty`.
    Ref { place: Place, ty: Ty },
    /// The address of `place`, of type `ty`.
    AddressOf { place: Place, ty: Ty },
    /// An array of elements of type `elem_ty`, of type `array_ty`.
    Array { elem_ty: Ty, array_ty: Ty },
    /// A struct, an enum or a union of type `ty`.
    Adt { ty: Ty },
    /// A tuple of type `ty`.
    Tuple { ty: Ty },
    /// A cast to `ty`.
    Cast { ty: Ty },
    /// A constant of type `ty`, which the compiler prints as `text`.
    Constant { ty: Ty, text: String },
    /// Anything else.
    Other,
}

/// A statement.
pub enum Statement {
    /// Writes the value of `rvalue` to `place`.
    Assign { place: Place, rvalue: Rvalue },
    /// Writes the result of a call to `dest`. It ends a block.
    Call { dest: Place },
    /// Anything else.
    Other,
}

/// The body of a function.
pub struct Body {
    pub locals: Vec<LocalDecl>,
    pub blocks: Vec<Vec<Statement>>,
}

/// Whether the text is that of a string literal or of a byte string literal.
pub open spec fn is_literal_text(text: Seq<char>) -> bool {
    let rest = text.skip(6);
    &&& text.len() > 0 && text.last() == '"'
    &&& starts_with(text, "const "@)
    &&& starts_with(rest, "\""@) || starts_with(rest, "b\""@)
}

/// Whether a constant is a string literal or a byte string literal, by the way in which the
/// compiler prints it.
pub fn is_string_literal(text: &str) -> (r: bool)
    ensures
        r == is_literal_text(text@),
{
    let s = chars_of(text);
    proof {
        reveal_strlit("const ");
    }
    assert(s@.skip(0) =~= s@);
    if s.len() == 0 || s[s.len() - 1] != '"' {
        return false;
    }
    if !begins_at(&s, 0, "const ") {
        return false;
    }
    begins_at(&s, 6, "\"") || begins_at(&s, 6, "b\"")
}

/// How the pointers of a local's type are to be had.
pub open spec fn own_pointers(decl: LocalDecl) -> nat {
    match decl.kind {
        LocalKind::Var | LocalKind::Temp => count_pointers(decl.ty@),
        LocalKind::Arg | LocalKind::ReturnPointer => 0,
    }
}

/// The number of pointers for `locals`: those in the types that are not shared with the signature,
/// and one to each local.
pub open spec fn count_locals(locals: Seq<LocalDecl>) -> nat
    decreases locals.len(),
{
    if locals.len() == 0 {
        0
    } else {
        count_locals(locals.drop_last()) + own_pointers(locals.last()) + 1
    }
}

/// What is known about each pointer for `locals`.
pub open spec fn local_infos(locals: Seq<LocalDecl>) -> Seq<PointerInfo>
    decreases locals.len(),
{
    if locals.len() == 0 {
        Seq::empty()
    } else {
        let front = local_infos(locals.drop_last());
        let decl = locals.last();
        let plain = PointerInfo { bits: 0 };
        (match decl.kind {
            LocalKind::Var | LocalKind::Temp => front + pointer_infos(decl.ty@, plain),
            LocalKind::Arg | LocalKind::ReturnPointer => front,
        }).push(plain)
    }
}

/// The type `nodes`, with its pointers numbered on from the local pointer `first`.
pub open spec fn local_labels(nodes: Seq<TyNode>, first: nat) -> Seq<LabeledNode<PointerId>> {
    labeled_from(nodes, first, |i: nat| local_pointer(i))
}

/// The labeled type of the local at `l`. Arguments and the result share their pointers with the
/// signature `sig`; the other locals have their own, numbered on from `first` for the first local.
pub open spec fn local_ty(locals: Seq<LocalDecl>, sig: SigView, first: nat, l: int) -> Seq<
    LabeledNode<PointerId>,
> {
    match locals[l].kind {
        LocalKind::Var | LocalKind::Temp => local_labels(
            locals[l].ty@,
            first + count_locals(locals.take(l)),
        ),
        LocalKind::Arg => sig.inputs[l - 1],
        LocalKind::ReturnPointer => sig.output,
    }
}

/// The pointer to the local at `l`: the next one after those in its type.
pub open spec fn local_addr(locals: Seq<LocalDecl>, first: nat, l: int) -> PointerId {
    local_pointer(first + count_locals(locals.take(l)) + own_pointers(locals[l]))
}

/// Arguments come after the place of the result, and have a type in the signature.
pub open spec fn args_match(locals: Seq<LocalDecl>, sig: SigView) -> bool {
    forall|l: int|
        0 <= l < locals.len() && (#[trigger] locals[l]).kind is Arg ==> 1 <= l <= sig.inputs.len()
}

/// There is one piece of information for each pointer of the locals.
pub proof fn lemma_local_infos_len(locals: Seq<LocalDecl>)
    ensures
        local_infos(locals).len() == count_locals(locals),
    decreases locals.len(),
{
    if locals.len() > 0 {
        lemma_local_infos_len(locals.drop_last());
        lemma_one_info_each(locals.last().ty@, PointerInfo { bits: 0 });
    }
}

/// Labels the type of each local, and makes a pointer to each local.
pub fn label_locals(acx: &mut AnalysisCtxtData, body: &Body, lsig: &LFnSig)
    requires
        old(acx).local_tys@.len() == 0,
        old(acx).addr_of_local@.len() == 0,
        args_match(body.locals@, lsig@),
    ensures
        final(acx).local_tys@.len() == body.locals@.len(),
        final(acx).addr_of_local@.len() == body.locals@.len(),
        forall|l: int|
            0 <= l < body.locals@.len() ==> (#[trigger] final(acx).local_tys@[l])@ == local_ty(
                body.locals@,
                lsig@,
                old(acx).infos().len(),
                l,
            ),
        forall|l: int|
            0 <= l < body.locals@.len() ==> #[trigger] final(acx).addr_of_local@[l] == local_addr(
                body.locals@,
                old(acx).infos().len(),
                l,
            ),
        final(acx).infos() == old(acx).infos() + local_infos(body.locals@),
        final(acx).rvalue_tys == old(acx).rvalue_tys,
        final(acx).string_literal_locs == old(acx).string_literal_locs,
{
    let ghost infos0 = acx.infos();
    let ghost first = infos0.len();
    let ghost locals = body.locals@;
    let mut l: usize = 0;
    assert(infos0 + local_infos(locals.take(0)) =~= infos0);
    while l < body.locals.len()
        invariant
            l <= body.locals@.len(),
            locals == body.locals@,
            first == infos0.len(),
            args_match(locals, lsig@),
            acx.local_tys@.len() == l,
            acx.addr_of_local@.len() == l,
            forall|k: int|
                0 <= k < l ==> (#[trigger] acx.local_tys@[k])@ == local_ty(
                    locals,
                    lsig@,
                    first,
                    k,
                ),
            forall|k: int|
                0 <= k < l ==> #[trigger] acx.addr_of_local@[k] == local_addr(locals, first, k),
            acx.infos() == infos0 + local_infos(locals.take(l as int)),
            acx.rvalue_tys == old(acx).rvalue_tys,
            acx.string_literal_locs == old(acx).string_literal_locs,
        decreases body.locals@.len() - l,
    {
        let ghost tys = acx.local_tys@;
        proof {
            assert(locals.take(l + 1).drop_last() =~= locals.take(l as int));
            lemma_local_infos_len(locals.take(l as int));
            lemma_one_info_each(locals[l as int].ty@, PointerInfo { bits: 0 });
        }
        let decl = &body.locals[l];
        let lty = match decl.kind {
            LocalKind::Var | LocalKind::Temp => acx.assign_pointer_ids(&decl.ty),
            LocalKind::Arg => {
                assert(locals[l as int].kind is Arg);
                lsig.inputs[l - 1].duplicate()
            },
            LocalKind::ReturnPointer => lsig.output.duplicate(),
        };
        assert(lty@ =~= local_ty(locals, lsig@, first, l as int));
        acx.local_tys.push(lty);
        let ptr = acx.new_pointer(PointerInfo::empty());
        acx.addr_of_local.push(ptr);
        assert(acx.infos() =~= infos0 + local_infos(locals.take(l + 1)));
        l += 1;
    }
    assert(locals.take(l as int) =~= locals);
}

/// The first `n` statements of the block with number `b`, with their locations.
pub open spec fn in_block(block: Seq<Statement>, b: int, n: int) -> Seq<(Location, Statement)> {
    Seq::new(
        n as nat,
        |k: int| (Location { block: b as usize, statement_index: k as usize }, block[k]),
    )
}

/// All statements, block by block.
pub open spec fn all_statements(blocks: Seq<Vec<Statement>>) -> Seq<(Location, Statement)>
    decreases blocks.len(),
{
    if blocks.len() == 0 {
        Seq::empty()
    } else {
        all_statements(blocks.drop_last()) + in_block(
            blocks.last()@,
            blocks.len() - 1,
            blocks.last()@.len() as int,
        )
    }
}

proof fn lemma_blocks_ordered(blocks: Seq<Vec<Statement>>, i: int)
    requires
        0 <= i < all_statements(blocks).len(),
    ensures
        all_statements(blocks)[i].0.block < blocks.len(),
    decreases blocks.len(),
{
    if blocks.len() > 0 {
        let front = all_statements(blocks.drop_last());
        if i < front.len() {
            lemma_blocks_ordered(blocks.drop_last(), i);
        }
    }
}

/// No two statements of a body have the same location, so that a location stands for one statement
/// alone.
pub proof fn law_locations_distinct(blocks: Seq<Vec<Statement>>, i: int, j: int)
    requires
        blocks.len() <= usize::MAX,
        0 <= i < j < all_statements(blocks).len(),
    ensures
        all_statements(blocks)[i].0 != all_statements(blocks)[j].0,
    decreases blocks.len(),
{
    if blocks.len() > 0 {
        let front = all_statements(blocks.drop_last());
        let last = blocks.last();
        assert(last@.len() == last.len());
        if j < front.len() {
            law_locations_distinct(blocks.drop_last(), i, j);
        } else if i < front.len() {
            lemma_blocks_ordered(blocks.drop_last(), i);
        }
    }
}

/// What labeling right hand sides adds.
pub struct RvalueLabels {
    /// What is known about each new pointer.
    pub infos: Seq<PointerInfo>,
    /// The labeled types.
    pub tys: Map<Location, Seq<LabeledNode<PointerId>>>,
    /// The locations of string literals.
    pub literals: Seq<Location>,
}

/// A new type of which the part `labeled` gets pointers.
pub struct NewTy {
    /// The part that gets pointers.
    pub labeled: Seq<TyNode>,
    /// A node without a pointer above that part.
    pub above: Option<TyNode>,
    /// What is known about each of the pointers.
    pub base: PointerInfo,
}

/// The type that a right hand side needs for itself, if it needs one. References, addresses and
/// aggregates do, and so do casts, whose type the user wrote down. Of constants, only string
/// literals do.
pub open spec fn new_ty(rv: Rvalue) -> Option<NewTy> {
    let plain = PointerInfo { bits: 0 };
    match rv {
        Rvalue::Ref { ty, .. } => Some(NewTy { labeled: ty@, above: None, base: plain }),
        Rvalue::AddressOf { ty, .. } => Some(NewTy { labeled: ty@, above: None, base: plain }),
        Rvalue::Array { elem_ty, array_ty } => Some(
            NewTy {
                labeled: elem_ty@,
                above: Some(TyNode { ctor: array_ty@[0].ctor, arity: 1, ty: array_ty@[0].ty }),
                base: plain,
            },
        ),
        Rvalue::Adt { ty } => Some(NewTy { labeled: ty@, above: None, base: plain }),
        Rvalue::Tuple { ty } => Some(NewTy { labeled: ty@, above: None, base: plain }),
        Rvalue::Cast { ty } => Some(NewTy { labeled: ty@, above: None, base: annotated() }),
        Rvalue::Constant { ty, text } => if is_literal_constant(ty@, text@) {
            Some(NewTy { labeled: ty@, above: None, base: plain })
        } else {
            None
        },
        Rvalue::Other => None,
    }
}

/// Whether a constant is a reference to a string literal.
pub open spec fn is_literal_constant(nodes: Seq<TyNode>, text: Seq<char>) -> bool {
    nodes[0].ctor is Ref && is_literal_text(text)
}

/// Whether a right hand side is a string literal.
pub open spec fn is_literal_rvalue(rv: Rvalue) -> bool {
    match rv {
        Rvalue::Constant { ty, text } => is_literal_constant(ty@, text@),
        _ => false,
    }
}

/// The labeled type for `t`, with the pointers numbered on from `first`.
pub open spec fn new_ty_labels(t: NewTy, first: nat) -> Seq<LabeledNode<PointerId>> {
    match t.above {
        Some(node) => seq![LabeledNode { node, label: PointerId::Absent }] + local_labels(
            t.labeled,
            first,
        ),
        None => local_labels(t.labeled, first),
    }
}

/// What labeling the right hand sides of `stmts` adds, with the pointers numbered on from `first`.
pub open spec fn rvalue_labels(stmts: Seq<(Location, Statement)>, first: nat) -> RvalueLabels
    decreases stmts.len(),
{
    if stmts.len() == 0 {
        RvalueLabels { infos: Seq::empty(), tys: Map::empty(), literals: Seq::empty() }
    } else {
        let front = rvalue_labels(stmts.drop_last(), first);
        let loc = stmts.last().0;
        match stmts.last().1 {
            Statement::Assign { rvalue, .. } => match new_ty(rvalue) {
                Some(t) => RvalueLabels {
                    infos: front.infos + pointer_infos(t.labeled, t.base),
                    tys: front.tys.insert(loc, new_ty_labels(t, first + front.infos.len())),
                    literals: if is_literal_rvalue(rvalue) {
                        front.literals.push(loc)
                    } else {
                        front.literals
                    },
                },
                None => front,
            },
            Statement::Call { .. } => front,
            Statement::Other => front,
        }
    }
}

/// The labeled types with their locations.
pub open spec fn rvalue_ty_views(tys: Map<Location, LTy>) -> Map<
    Location,
    Seq<LabeledNode<PointerId>>,
> {
    tys.map_values(|lty: LTy| lty@)
}

/// `after` is `before` with `more` added. A new type takes the place of one at the same location.
pub open spec fn rvalues_added(
    before: AnalysisCtxtData,
    after: AnalysisCtxtData,
    more: RvalueLabels,
) -> bool {
    &&& after.infos() == before.infos() + more.infos
    &&& rvalue_ty_views(after.rvalue_tys@) == rvalue_ty_views(before.rvalue_tys@).union_prefer_right(
        more.tys,
    )
    &&& after.string_literal_locs@ == before.string_literal_locs@ + more.literals
    &&& after.local_tys == before.local_tys
    &&& after.addr_of_local == before.addr_of_local
}

/// The types in the body have at least a root, and every place starts from a local.
pub open spec fn rvalue_wf(rv: Rvalue, locals: nat) -> bool {
    match rv {
        Rvalue::Ref { place, .. } => place.local < locals,
        Rvalue::AddressOf { place, .. } => place.local < locals,
        Rvalue::Array { array_ty, .. } => array_ty.wf(),
        Rvalue::Constant { ty, .. } => ty.wf(),
        _ => true,
    }
}

/// The places of a statement start from locals, and its types have roots.
pub open spec fn statement_wf(stmt: Statement, locals: nat) -> bool {
    match stmt {
        Statement::Assign { place, rvalue } => place.local < locals && rvalue_wf(rvalue, locals),
        Statement::Call { dest } => dest.local < locals,
        Statement::Other => true,
    }
}

impl Body {
    /// The places of all statements start from locals, and their types have roots.
    pub open spec fn wf(&self) -> bool {
        forall|b: int, i: int|
            #![trigger self.blocks@[b]@[i]]
            0 <= b < self.blocks@.len() && 0 <= i < self.blocks@[b]@.len() ==> statement_wf(
                self.blocks@[b]@[i],
                self.locals@.len(),
            )
    }
}

/// Labels a string literal or a byte string literal.
///
/// String literals are references to constants. They need no constraints on what they point to,
/// because nothing else can reach it. Other constant references may lead to named items, and are
/// not handled here.
pub fn label_string_literals(
    acx: &mut AnalysisCtxtData,
    ty: &Ty,
    text: &str,
    loc: Location,
) -> (r: Option<LTy>)
    requires
        ty.wf(),
    ensures
        is_literal_constant(ty@, text@) ==> {
            &&& r matches Some(lty) && lty@ == local_labels(ty@, old(acx).infos().len())
            &&& final(acx).infos() == old(acx).infos() + pointer_infos(
                ty@,
                PointerInfo { bits: 0 },
            )
            &&& final(acx).string_literal_locs@ == old(acx).string_literal_locs@.push(loc)
            &&& final(acx).rvalue_tys == old(acx).rvalue_tys
            &&& final(acx).local_tys == old(acx).local_tys
            &&& final(acx).addr_of_local == old(acx).addr_of_local
        },
        !is_literal_constant(ty@, text@) ==> r is None && *final(acx) == *old(acx),
{
    if !ty.is_ref() {
        return None;
    }
    if is_string_literal(text) {
        acx.string_literal_locs.push(loc);
        let lty = acx.assign_pointer_ids(ty);
        assert(lty@ =~= local_labels(ty@, old(acx).infos().len()));
        Some(lty)
    } else {
        None
    }
}

/// Labels the right hand sides of the assignments in the body.
pub fn label_rvalue_tys(acx: &mut AnalysisCtxtData, body: &Body)
    requires
        body.wf(),
    ensures
        rvalues_added(
            *old(acx),
            *final(acx),
            rvalue_labels(all_statements(body.blocks@), old(acx).infos().len()),
        ),
{
    let ghost before = *acx;
    let ghost first = before.infos().len();
    let mut b: usize = 0;
    proof {
        let none = rvalue_labels(all_statements(body.blocks@.take(0)), first);
        assert(before.infos() + none.infos =~= before.infos());
        assert(rvalue_ty_views(before.rvalue_tys@).union_prefer_right(none.tys)
            =~= rvalue_ty_views(before.rvalue_tys@));
        assert(before.string_literal_locs@ + none.literals =~= before.string_literal_locs@);
    }
    while b < body.blocks.len()
        invariant
            b <= body.blocks@.len(),
            body.wf(),
            first == before.infos().len(),
            rvalues_added(
                before,
                *acx,
                rvalue_labels(all_statements(body.blocks@.take(b as int)), first),
            ),
        decreases body.blocks@.len() - b,
    {
        let ghost done = all_statements(body.blocks@.take(b as int));
        let stmts = &body.blocks[b];
        let mut i: usize = 0;
        assert(done + in_block(stmts@, b as int, 0) =~= done);
        while i < stmts.len()
            invariant
                b < body.blocks@.len(),
                body.wf(),
                *stmts == body.blocks@[b as int],
                i <= stmts@.len(),
                first == before.infos().len(),
                rvalues_added(
                    before,
                    *acx,
                    rvalue_labels(done + in_block(stmts@, b as int, i as int), first),
                ),
            decreases stmts@.len() - i,
        {
            let ghost part = done + in_block(stmts@, b as int, i as int);
            let ghost next = done + in_block(stmts@, b as int, i + 1);
            let loc = Location { block: b, statement_index: i };
            proof {
                assert(next.drop_last() =~= part);
                assert(next.last() == (loc, stmts@[i as int]));
                assert(statement_wf(body.blocks@[b as int]@[i as int], body.locals@.len()));
            }
            if let Statement::Assign { place: _, rvalue } = &stmts[i] {
                label_rvalue(acx, rvalue, loc, Ghost(before), Ghost(part));
                assert(next =~= part.push((loc, stmts@[i as int])));
            }
            i += 1;
        }
        assert(body.blocks@.take(b + 1).drop_last() =~= body.blocks@.take(b as int));
        b += 1;
    }
    assert(body.blocks@.take(b as int) =~= body.blocks@);
}

/// Labels one right hand side.
fn label_rvalue(
    acx: &mut AnalysisCtxtData,
    rv: &Rvalue,
    loc: Location,
    Ghost(before): Ghost<AnalysisCtxtData>,
    Ghost(done): Ghost<Seq<(Location, Statement)>>,
)
    requires
        rvalues_added(before, *old(acx), rvalue_labels(done, before.infos().len())),
        rvalue_wf(*rv, usize::MAX as nat + 1),
    ensures
        forall|place: Place|
            rvalues_added(
                before,
                *final(acx),
                rvalue_labels(
                    #[trigger] done.push((loc, Statement::Assign { place, rvalue: *rv })),
                    before.infos().len(),
                ),
            ),
{
    let ghost first = before.infos().len();
    let ghost front = rvalue_labels(done, first);
    let ghost was = *acx;
    let ghost plain = PointerInfo { bits: 0 };
    proof {
        assert forall|place: Place| #[trigger]
            done.push((loc, Statement::Assign { place, rvalue: *rv })).drop_last() == done by {
            assert(done.push((loc, Statement::Assign { place, rvalue: *rv })).drop_last() =~= done);
        }
    }
    let lty = match rv {
        Rvalue::Ref { place: _, ty } => acx.assign_pointer_ids(ty),
        Rvalue::AddressOf { place: _, ty } => acx.assign_pointer_ids(ty),
        Rvalue::Array { elem_ty, array_ty } => {
            let elem_lty = acx.assign_pointer_ids(elem_ty);
            let root = array_ty.nodes[0];
            let mut nodes: Vec<LabeledNode<PointerId>> = Vec::new();
            nodes.push(
                LabeledNode {
                    node: TyNode { ctor: root.ctor, arity: 1, ty: root.ty },
                    label: PointerId::Absent,
                },
            );
            let mut rest = elem_lty.nodes;
            nodes.append(&mut rest);
            LabeledTy { nodes }
        },
        Rvalue::Adt { ty } => acx.assign_pointer_ids(ty),
        Rvalue::Tuple { ty } => acx.assign_pointer_ids(ty),
        Rvalue::Cast { ty } => {
            let mut base = PointerInfo::empty();
            base.insert(PointerInfo::ANNOTATED);
            assert(base == annotated()) by {
                assert(0u16 | PointerInfo::ANNOTATED == PointerInfo::ANNOTATED) by (bit_vector);
            }
            acx.assign_pointer_ids_with_info(ty, base)
        },
        Rvalue::Constant { ty, text } => match label_string_literals(acx, ty, text.as_str(), loc) {
            Some(lty) => lty,
            None => {
                return;
            },
        },
        Rvalue::Other => {
            return;
        },
    };
    proof {
        let t = new_ty(*rv)->0;
        assert(lty@ =~= new_ty_labels(t, first + front.infos.len()));
        assert(acx.infos() =~= before.infos() + (front.infos + pointer_infos(t.labeled, t.base)));
    }
    acx.rvalue_tys.insert(loc, lty);
    proof {
        let t = new_ty(*rv)->0;
        let tys = front.tys.insert(loc, new_ty_labels(t, first + front.infos.len()));
        assert(acx.rvalue_tys@ == was.rvalue_tys@.insert(loc, lty));
        assert(rvalue_ty_views(acx.rvalue_tys@) =~= rvalue_ty_views(was.rvalue_tys@).insert(
            loc,
            lty@,
        ));
        assert(rvalue_ty_views(acx.rvalue_tys@) =~= rvalue_ty_views(
            before.rvalue_tys@,
        ).union_prefer_right(tys));
        if is_literal_rvalue(*rv) {
            assert(acx.string_literal_locs@ =~= before.string_literal_locs@ + front.literals.push(
                loc,
            ));
        }
    }
}

/// A constant is printed as a string literal exactly if the text is `const`, a space, perhaps a
/// `b`, and something in quotation marks.
pub proof fn law_literal_texts(text: Seq<char>)
    ensures
        is_literal_text(text) <==> {
            &&& text.len() >= 7
            &&& text[0] == 'c' && text[1] == 'o' && text[2] == 'n' && text[3] == 's' && text[4]
                == 't' && text[5] == ' '
            &&& text[6] == '"' || (text.len() >= 8 && text[6] == 'b' && text[7] == '"')
            &&& text[text.len() - 1] == '"'
        },
{
    reveal_strlit("const ");
    reveal_strlit("\"");
    reveal_strlit("b\"");
    let lead = "const "@;
    let rest = text.skip(6);
    let quote = "\""@;
    let byte = "b\""@;
    if text.len() >= 6 {
        assert(text.take(6) == lead <==> text[0] == 'c' && text[1] == 'o' && text[2] == 'n'
            && text[3] == 's' && text[4] == 't' && text[5] == ' ') by {
            if text[0] == 'c' && text[1] == 'o' && text[2] == 'n' && text[3] == 's' && text[4]
                == 't' && text[5] == ' ' {
                assert(text.take(6) =~= lead);
            }
            if text.take(6) == lead {
                assert(forall|i: int| 0 <= i < 6 ==> text.take(6)[i] == #[trigger] text[i]);
            }
        }
        if rest.len() >= 1 {
            assert(rest[0] == text[6]);
            assert(rest.take(1) == quote <==> rest[0] == '"') by {
                assert(rest.take(1)[0] == rest[0]);
                if rest[0] == '"' {
                    assert(rest.take(1) =~= quote);
                }
            }
        }
        if rest.len() >= 2 {
            assert(rest[1] == text[7]);
            assert(rest.take(2) == byte <==> rest[0] == 'b' && rest[1] == '"') by {
                assert(rest.take(2)[0] == rest[0]);
                assert(rest.take(2)[1] == rest[1]);
                if rest[0] == 'b' && rest[1] == '"' {
                    assert(rest.take(2) =~= byte);
                }
            }
        }
    }
}

/// Locals get their pointers one after the other: those of a first part get the first ones.
pub proof fn law_locals_in_order(a: Seq<LocalDecl>, b: Seq<LocalDecl>)
    ensures
        count_locals(a + b) == count_locals(a) + count_locals(b),
        local_infos(a + b) == local_infos(a) + local_infos(b),
    decreases b.len(),
{
    if b.len() == 0 {
        assert(a + b =~= a);
        assert(local_infos(a) + local_infos(b) =~= local_infos(a));
    } else {
        assert((a + b).drop_last() =~= a + b.drop_last());
        law_locals_in_order(a, b.drop_last());
        assert(local_infos(a + b) =~= local_infos(a) + local_infos(b));
    }
}

/// A variable or a temporary has the pointers of its type and one to itself; an argument and the
/// place of the result have but the one to themselves. Nothing is known of any but the references
/// among them.
pub proof fn law_single_local(decl: LocalDecl)
    ensures
        decl.kind == LocalKind::Var || decl.kind == LocalKind::Temp ==> local_infos(seq![decl])
            == pointer_infos(decl.ty@, PointerInfo { bits: 0 }).push(PointerInfo { bits: 0 }),
        decl.kind == LocalKind::Arg || decl.kind == LocalKind::ReturnPointer ==> local_infos(
            seq![decl],
        ) == seq![PointerInfo { bits: 0 }],
        count_locals(seq![decl]) == local_infos(seq![decl]).len(),
        decl.kind == LocalKind::Var || decl.kind == LocalKind::Temp ==> own_pointers(decl)
            == count_pointers(decl.ty@),
        decl.kind == LocalKind::Arg || decl.kind == LocalKind::ReturnPointer ==> own_pointers(decl)
            == 0,
{
    reveal_with_fuel(local_infos, 2);
    let one = seq![decl];
    let plain = PointerInfo { bits: 0 };
    assert(one.drop_last() =~= Seq::<LocalDecl>::empty());
    lemma_local_infos_len(one);
    if decl.kind == LocalKind::Var || decl.kind == LocalKind::Temp {
        assert(local_infos(one) =~= pointer_infos(decl.ty@, plain).push(plain));
    } else {
        assert(local_infos(one) =~= seq![plain]);
    }
}

proof fn lemma_locals_before(locals: Seq<LocalDecl>, l: int, n: int)
    requires
        0 <= l < n <= locals.len(),
    ensures
        count_locals(locals.take(l)) + own_pointers(locals[l]) + 1 <= count_locals(locals.take(n)),
    decreases n,
{
    assert(locals.take(n).drop_last() =~= locals.take(n - 1));
    if l < n - 1 {
        lemma_locals_before(locals, l, n - 1);
    }
}

proof fn lemma_local_label_range(nodes: Seq<TyNode>, first: nat, k: int)
    requires
        0 <= k < nodes.len(),
        nodes[k].ctor is Ref || nodes[k].ctor is RawPtr,
        first + count_pointers(nodes) <= usize::MAX,
    ensures
        local_labels(nodes, first)[k].label matches PointerId::Local(p) && first <= p < first
            + count_pointers(nodes),
{
    lemma_count_grows(nodes, k, nodes.len() as int);
    assert(nodes.take(nodes.len() as int) =~= nodes);
}

proof fn lemma_local_labels_distinct(nodes: Seq<TyNode>, first: nat, j: int, k: int)
    requires
        0 <= k < nodes.len(),
        0 <= j < nodes.len(),
        j != k,
        nodes[k].ctor is Ref || nodes[k].ctor is RawPtr,
        first + count_pointers(nodes) <= usize::MAX,
    ensures
        local_labels(nodes, first)[j].label != local_labels(nodes, first)[k].label,
{
    if nodes[j].ctor is Ref || nodes[j].ctor is RawPtr {
        lemma_local_label_range(nodes, first, j);
        lemma_local_label_range(nodes, first, k);
        if j < k {
            lemma_count_grows(nodes, j, k);
        } else {
            lemma_count_grows(nodes, k, j);
        }
        lemma_count_grows(nodes, k, nodes.len() as int);
        lemma_count_grows(nodes, j, nodes.len() as int);
        assert(nodes.take(nodes.len() as int) =~= nodes);
    }
}

/// An argument has the type of an input of the signature, with its pointers, and the place of the
/// result that of the output.
pub proof fn law_shared_local_types(
    locals: Seq<LocalDecl>,
    sig: SigView,
    first: nat,
    l: int,
)
    ensures
        locals[l].kind == LocalKind::Arg ==> local_ty(locals, sig, first, l) == sig.inputs[l - 1],
        locals[l].kind == LocalKind::ReturnPointer ==> local_ty(locals, sig, first, l)
            == sig.output,
{
}

/// The type of a variable or a temporary has new pointers of its own, at exactly its references and
/// raw pointers, and no two the same, neither in one type nor in two. The pointer to each local is
/// new as well, and different from all others.
pub proof fn law_own_local_types(
    locals: Seq<LocalDecl>,
    sig: SigView,
    first: nat,
    l: int,
    k: int,
    m: int,
    n: int,
)
    requires
        first + count_locals(locals) <= usize::MAX,
        0 <= l < locals.len(),
        locals[l].kind == LocalKind::Var || locals[l].kind == LocalKind::Temp,
        0 <= k < locals[l].ty@.len(),
        0 <= m < locals.len(),
    ensures
        ({
            let lty = local_ty(locals, sig, first, l);
            let other = local_ty(locals, sig, first, m);
            let node = locals[l].ty@[k];
            let new = node.ctor is Ref || node.ctor is RawPtr;
            &&& lty.len() == locals[l].ty@.len()
            &&& lty[k].node == node
            &&& new ==> (lty[k].label matches PointerId::Local(p) && first <= p < first
                + count_locals(locals))
            &&& !new ==> lty[k].label == PointerId::Absent
            &&& new && (locals[m].kind == LocalKind::Var || locals[m].kind == LocalKind::Temp) && 0
                <= n < locals[m].ty@.len() && (l != m || k != n) ==> other[n].label != lty[k].label
            &&& new ==> local_addr(locals, first, m) != lty[k].label
        }),
{
    let len = locals.len() as int;
    assert(locals.take(len) =~= locals);
    lemma_locals_before(locals, l, len);
    lemma_locals_before(locals, m, len);
    if l < m {
        lemma_locals_before(locals, l, m);
    } else if m < l {
        lemma_locals_before(locals, m, l);
    }
    let node = locals[l].ty@[k];
    let at = first + count_locals(locals.take(l));
    if node.ctor is Ref || node.ctor is RawPtr {
        lemma_local_label_range(locals[l].ty@, at, k);
        if (locals[m].kind == LocalKind::Var || locals[m].kind == LocalKind::Temp) && 0 <= n
            < locals[m].ty@.len() {
            let node_n = locals[m].ty@[n];
            if node_n.ctor is Ref || node_n.ctor is RawPtr {
                lemma_local_label_range(
                    locals[m].ty@,
                    first + count_locals(locals.take(m)),
                    n,
                );
            }
            if l == m && k != n {
                lemma_local_labels_distinct(locals[l].ty@, at, n, k);
            }
        }
    }
}

/// The pointers to the locals are new, and no two are the same.
pub proof fn law_local_addresses(locals: Seq<LocalDecl>, first: nat, l: int, m: int)
    requires
        first + count_locals(locals) <= usize::MAX,
        0 <= l < m < locals.len(),
    ensures
        local_addr(locals, first, l) matches PointerId::Local(p) && first <= p < first
            + count_locals(locals),
        local_addr(locals, first, l) != local_addr(locals, first, m),
{
    let len = locals.len() as int;
    assert(locals.take(len) =~= locals);
    lemma_locals_before(locals, l, m);
    lemma_locals_before(locals, m, len);
}

/// Arguments match exactly if each has a position from one up to the number of inputs.
pub proof fn law_arguments_match(locals: Seq<LocalDecl>, sig: SigView)
    ensures
        args_match(locals, sig) <==> forall|l: int|
            0 <= l < locals.len() && (#[trigger] locals[l]).kind == LocalKind::Arg ==> 1 <= l
                && l - 1 < sig.inputs.len(),
{
}

/// Where a statement of a block stands among all statements.
proof fn lemma_statement_at(blocks: Seq<Vec<Statement>>, b: int, i: int) -> (j: int)
    requires
        0 <= b < blocks.len(),
        0 <= i < blocks[b]@.len(),
    ensures
        0 <= j < all_statements(blocks).len(),
        all_statements(blocks)[j] == (
            Location { block: b as usize, statement_index: i as usize },
            blocks[b]@[i],
        ),
    decreases blocks.len(),
{
    let front = blocks.drop_last();
    if b < front.len() {
        assert(front[b] == blocks[b]);
        lemma_statement_at(front, b, i)
    } else {
        all_statements(front).len() + i
    }
}

/// Every statement of every block is among all statements, with its block and its position in it.
/// There are no others, and they are in order.
pub proof fn law_all_statements(blocks: Seq<Vec<Statement>>)
    requires
        blocks.len() <= usize::MAX,
    ensures
        forall|b: int, i: int|
            #![trigger blocks[b]@[i]]
            0 <= b < blocks.len() && 0 <= i < blocks[b]@.len() ==> all_statements(blocks).contains(
                (Location { block: b as usize, statement_index: i as usize }, blocks[b]@[i]),
            ),
        forall|j: int|
            0 <= j < all_statements(blocks).len() ==> {
                let (loc, stmt) = #[trigger] all_statements(blocks)[j];
                &&& loc.block < blocks.len()
                &&& loc.statement_index < blocks[loc.block as int]@.len()
                &&& stmt == blocks[loc.block as int]@[loc.statement_index as int]
            },
        forall|j: int, k: int|
            0 <= j < k < all_statements(blocks).len() ==> {
                let a = (#[trigger] all_statements(blocks)[j]).0;
                let b = (#[trigger] all_statements(blocks)[k]).0;
                a.block < b.block || (a.block == b.block && a.statement_index < b.statement_index)
            },
    decreases blocks.len(),
{
    let all = all_statements(blocks);
    assert forall|b: int, i: int|
        #![trigger blocks[b]@[i]]
        0 <= b < blocks.len() && 0 <= i < blocks[b]@.len() implies all.contains(
        (Location { block: b as usize, statement_index: i as usize }, blocks[b]@[i]),
    ) by {
        let j = lemma_statement_at(blocks, b, i);
        assert(all[j] == all[j]);
    }
    if blocks.len() > 0 {
        let front = blocks.drop_last();
        let last = blocks.last();
        assert(last@.len() == last.len());
        law_all_statements(front);
        let done = all_statements(front);
        assert forall|j: int| 0 <= j < all.len() implies {
            let (loc, stmt) = #[trigger] all[j];
            &&& loc.block < blocks.len()
            &&& loc.statement_index < blocks[loc.block as int]@.len()
            &&& stmt == blocks[loc.block as int]@[loc.statement_index as int]
        } by {
            if j < done.len() {
                assert(all[j] == done[j]);
                assert(front[done[j].0.block as int] == blocks[done[j].0.block as int]);
            } else {
                let i = j - done.len();
                assert(all[j] == in_block(last@, blocks.len() - 1, last@.len() as int)[i]);
            }
        }
        assert forall|j: int, k: int| 0 <= j < k < all.len() implies {
            let a = (#[trigger] all[j]).0;
            let b = (#[trigger] all[k]).0;
            a.block < b.block || (a.block == b.block && a.statement_index < b.statement_index)
        } by {
            if j < done.len() {
                assert(all[j] == done[j]);
            }
            if k < done.len() {
                assert(all[k] == done[k]);
            }
        }
    }
}

/// Right hand sides are labeled one after the other: those of a first part get the first pointers,
/// and those of a second the next ones.
pub proof fn law_rvalues_in_order(
    a: Seq<(Location, Statement)>,
    b: Seq<(Location, Statement)>,
    first: nat,
)
    ensures
        ({
            let ra = rvalue_labels(a, first);
            let rb = rvalue_labels(b, first + ra.infos.len());
            let r = rvalue_labels(a + b, first);
            &&& r.infos == ra.infos + rb.infos
            &&& r.tys == ra.tys.union_prefer_right(rb.tys)
            &&& r.literals == ra.literals + rb.literals
        }),
    decreases b.len(),
{
    let ra = rvalue_labels(a, first);
    let rb = rvalue_labels(b, first + ra.infos.len());
    let r = rvalue_labels(a + b, first);
    if b.len() == 0 {
        assert(a + b =~= a);
    } else {
        assert((a + b).drop_last() =~= a + b.drop_last());
        assert((a + b).last() == b.last());
        law_rvalues_in_order(a, b.drop_last(), first);
    }
    assert(r.infos =~= ra.infos + rb.infos);
    assert(r.tys =~= ra.tys.union_prefer_right(rb.tys));
    assert(r.literals =~= ra.literals + rb.literals);
}

/// A reference, an address, a struct, an enum or a union, a tuple and a cast each get a type of
/// their own, whose pointers are new. The user wrote down the type of a cast; nothing is known of
/// the others.
pub proof fn law_rvalues_with_types(loc: Location, place: Place, from: Place, ty: Ty, first: nat)
    ensures
        ({
            let lty = labeled_from(ty@, first, |i: nat| PointerId::Local(i as usize));
            let plain = RvalueLabels {
                infos: pointer_infos(ty@, PointerInfo { bits: 0 }),
                tys: Map::empty().insert(loc, lty),
                literals: Seq::empty(),
            };
            let of = |rvalue: Rvalue|
                rvalue_labels(seq![(loc, Statement::Assign { place, rvalue })], first);
            &&& of(Rvalue::Ref { place: from, ty }) == plain
            &&& of(Rvalue::AddressOf { place: from, ty }) == plain
            &&& of(Rvalue::Adt { ty }) == plain
            &&& of(Rvalue::Tuple { ty }) == plain
            &&& of(Rvalue::Cast { ty }) == (RvalueLabels {
                infos: pointer_infos(ty@, PointerInfo { bits: PointerInfo::ANNOTATED }),
                ..plain
            })
        }),
{
    let lty = labeled_from(ty@, first, |i: nat| PointerId::Local(i as usize));
    assert(local_labels(ty@, first) =~= lty);
    lemma_single_rvalue(loc, place, Rvalue::Ref { place: from, ty }, first);
    lemma_single_rvalue(loc, place, Rvalue::AddressOf { place: from, ty }, first);
    lemma_single_rvalue(loc, place, Rvalue::Adt { ty }, first);
    lemma_single_rvalue(loc, place, Rvalue::Tuple { ty }, first);
    lemma_single_rvalue(loc, place, Rvalue::Cast { ty }, first);
}

proof fn lemma_single_rvalue(loc: Location, place: Place, rvalue: Rvalue, first: nat)
    ensures
        rvalue_labels(seq![(loc, Statement::Assign { place, rvalue })], first) == match new_ty(
            rvalue,
        ) {
            Some(t) => RvalueLabels {
                infos: pointer_infos(t.labeled, t.base),
                tys: Map::empty().insert(loc, new_ty_labels(t, first)),
                literals: if is_literal_rvalue(rvalue) {
                    seq![loc]
                } else {
                    Seq::empty()
                },
            },
            None => RvalueLabels {
                infos: Seq::empty(),
                tys: Map::empty(),
                literals: Seq::empty(),
            },
        },
{
    reveal_with_fuel(rvalue_labels, 2);
    let one = seq![(loc, Statement::Assign { place, rvalue })];
    assert(one.drop_last() =~= Seq::<(Location, Statement)>::empty());
    let r = rvalue_labels(one, first);
    if let Some(t) = new_ty(rvalue) {
        assert(r.infos =~= pointer_infos(t.labeled, t.base));
        assert(r.literals =~= if is_literal_rvalue(rvalue) {
            seq![loc]
        } else {
            Seq::empty()
        });
    }
}

/// An array gets the pointers of its elements, below a root without a pointer. A string literal
/// gets a type of its own and is remembered. No other constant gets a type, nor does anything else.
pub proof fn law_other_rvalues(
    loc: Location,
    place: Place,
    elem_ty: Ty,
    array_ty: Ty,
    text: String,
    first: nat,
)
    ensures
        ({
            let id = |i: nat| PointerId::Local(i as usize);
            let none = RvalueLabels {
                infos: Seq::empty(),
                tys: Map::empty(),
                literals: Seq::empty(),
            };
            let root = LabeledNode {
                node: TyNode { ctor: array_ty@[0].ctor, arity: 1, ty: array_ty@[0].ty },
                label: PointerId::Absent,
            };
            let of = |stmt: Statement| rvalue_labels(seq![(loc, stmt)], first);
            let constant = Rvalue::Constant { ty: elem_ty, text };
            &&& of(
                Statement::Assign { place, rvalue: Rvalue::Array { elem_ty, array_ty } },
            ) == RvalueLabels {
                infos: pointer_infos(elem_ty@, PointerInfo { bits: 0 }),
                tys: Map::empty().insert(loc, seq![root] + labeled_from(elem_ty@, first, id)),
                literals: Seq::empty(),
            }
            &&& of(Statement::Assign { place, rvalue: constant }) == if elem_ty@[0].ctor is Ref
                && is_literal_text(text@) {
                RvalueLabels {
                    infos: pointer_infos(elem_ty@, PointerInfo { bits: 0 }),
                    tys: Map::empty().insert(loc, labeled_from(elem_ty@, first, id)),
                    literals: seq![loc],
                }
            } else {
                none
            }
            &&& of(Statement::Assign { place, rvalue: Rvalue::Other }) == none
            &&& of(Statement::Call { dest: place }) == none
            &&& of(Statement::Other) == none
        }),
{
    reveal_with_fuel(rvalue_labels, 2);
    let id = |i: nat| PointerId::Local(i as usize);
    assert(local_labels(elem_ty@, first) =~= labeled_from(elem_ty@, first, id));
    let constant = Rvalue::Constant { ty: elem_ty, text };
    lemma_single_rvalue(loc, place, Rvalue::Array { elem_ty, array_ty }, first);
    lemma_single_rvalue(loc, place, constant, first);
    lemma_single_rvalue(loc, place, Rvalue::Other, first);
    let call = seq![(loc, Statement::Call { dest: place })];
    let other = seq![(loc, Statement::Other)];
    assert(call.drop_last() =~= Seq::<(Location, Statement)>::empty());
    assert(other.drop_last() =~= Seq::<(Location, Statement)>::empty());
}

/// What labeling one right hand side adds at its location, where no later statement has the same
/// location.
proof fn lemma_rvalue_at(
    stmts: Seq<(Location, Statement)>,
    first: nat,
    j: int,
    rvalue: Rvalue,
    t: NewTy,
)
    requires
        0 <= j < stmts.len(),
        stmts[j].1 matches Statement::Assign { rvalue: rv, .. } && rv == rvalue,
        new_ty(rvalue) == Some(t),
        forall|i: int| j < i < stmts.len() ==> (#[trigger] stmts[i]).0 != stmts[j].0,
    ensures
        rvalue_labels(stmts, first).tys.contains_key(stmts[j].0),
        rvalue_labels(stmts, first).tys[stmts[j].0] == new_ty_labels(
            t,
            first + rvalue_labels(stmts.take(j), first).infos.len(),
        ),
        rvalue_labels(stmts.take(j), first).infos.len() + count_pointers(t.labeled)
            <= rvalue_labels(stmts, first).infos.len(),
    decreases stmts.len(),
{
    let front = stmts.drop_last();
    let n = stmts.len() - 1;
    lemma_one_info_each(t.labeled, t.base);
    if j == n {
        assert(stmts.take(j) =~= front);
    } else {
        assert(front.take(j) =~= stmts.take(j));
        assert(stmts[n].0 != stmts[j].0);
        assert forall|i: int| j < i < front.len() implies (#[trigger] front[i]).0 != front[j].0 by {
            assert(stmts[i].0 != stmts[j].0);
        }
        lemma_rvalue_at(front, first, j, rvalue, t);
    }
}

proof fn lemma_rvalues_before(
    stmts: Seq<(Location, Statement)>,
    first: nat,
    j: int,
    rvalue: Rvalue,
    t: NewTy,
    n: int,
)
    requires
        0 <= j < n <= stmts.len(),
        stmts[j].1 matches Statement::Assign { rvalue: rv, .. } && rv == rvalue,
        new_ty(rvalue) == Some(t),
    ensures
        rvalue_labels(stmts.take(j), first).infos.len() + count_pointers(t.labeled)
            <= rvalue_labels(stmts.take(n), first).infos.len(),
    decreases n,
{
    assert(stmts.take(n).drop_last() =~= stmts.take(n - 1));
    lemma_one_info_each(t.labeled, t.base);
    if j < n - 1 {
        lemma_rvalues_before(stmts, first, j, rvalue, t, n - 1);
    }
}

/// Every assignment of a reference, an address, an array, a struct, an enum or a union, a tuple or
/// a cast has a type of its own. Each reference and each raw pointer in it has a new pointer, below
/// the root where it is an array; no other node has one.
pub proof fn law_assigned_values_have_types(
    before: AnalysisCtxtData,
    after: AnalysisCtxtData,
    blocks: Seq<Vec<Statement>>,
    b: int,
    i: int,
    place: Place,
    rvalue: Rvalue,
    k: int,
)
    requires
        rvalues_added(before, after, rvalue_labels(all_statements(blocks), before.infos().len())),
        blocks.len() <= usize::MAX,
        after.infos().len() <= usize::MAX,
        0 <= b < blocks.len(),
        0 <= i < blocks[b]@.len(),
        blocks[b]@[i] == (Statement::Assign { place, rvalue }),
        rvalue is Ref || rvalue is AddressOf || rvalue is Array || rvalue is Adt || rvalue is Tuple
            || rvalue is Cast,
    ensures
        ({
            let loc = Location { block: b as usize, statement_index: i as usize };
            let lty = after.rvalue_tys@[loc]@;
            &&& after.rvalue_tys@.contains_key(loc)
            &&& match rvalue {
                Rvalue::Ref { ty, .. }
                | Rvalue::AddressOf { ty, .. }
                | Rvalue::Adt { ty }
                | Rvalue::Tuple { ty }
                | Rvalue::Cast { ty } => lty.len() == ty@.len() && (0 <= k < lty.len()
                    ==> lty[k].node == ty@[k]),
                Rvalue::Array { elem_ty, array_ty } => lty.len() == elem_ty@.len() + 1 && (0 < k
                    < lty.len() ==> lty[k].node == elem_ty@[k - 1]) && lty[0].label
                    == PointerId::Absent && lty[0].node.ctor == array_ty@[0].ctor,
                _ => true,
            }
            &&& 0 <= k < lty.len() && (k > 0 || !(rvalue is Array)) ==> if lty[k].node.ctor is Ref
                || lty[k].node.ctor is RawPtr {
                lty[k].label matches PointerId::Local(p) && before.infos().len() <= p
                    < after.infos().len()
            } else {
                lty[k].label == PointerId::Absent
            }
        }),
{
    let first = before.infos().len();
    let stmts = all_statements(blocks);
    let j = lemma_statement_at(blocks, b, i);
    let loc = stmts[j].0;
    let t = new_ty(rvalue)->0;
    assert forall|n: int| j < n < stmts.len() implies (#[trigger] stmts[n]).0 != loc by {
        law_locations_distinct(blocks, j, n);
    }
    lemma_rvalue_at(stmts, first, j, rvalue, t);
    let more = rvalue_labels(stmts, first);
    law_rvalues_are_added(before, after, more, loc, 0);
    let at = first + rvalue_labels(stmts.take(j), first).infos.len();
    let lty = after.rvalue_tys@[loc]@;
    assert(lty == new_ty_labels(t, at));
    let d: int = if rvalue is Array {
        1
    } else {
        0
    };
    if d <= k < lty.len() {
        assert(lty[k] == local_labels(t.labeled, at)[k - d]);
        if lty[k].node.ctor is Ref || lty[k].node.ctor is RawPtr {
            lemma_local_label_range(t.labeled, at, k - d);
        }
    }
}

/// No pointer stands at two nodes of the types of assigned values, neither in one type nor in two.
pub proof fn law_assigned_values_share_nothing(
    before: AnalysisCtxtData,
    after: AnalysisCtxtData,
    blocks: Seq<Vec<Statement>>,
    at: (int, int, int),
    other: (int, int, int),
    place: Place,
    rvalue: Rvalue,
    place2: Place,
    rvalue2: Rvalue,
)
    requires
        rvalues_added(before, after, rvalue_labels(all_statements(blocks), before.infos().len())),
        blocks.len() <= usize::MAX,
        after.infos().len() <= usize::MAX,
        0 <= at.0 < blocks.len(),
        0 <= at.1 < blocks[at.0]@.len(),
        0 <= other.0 < blocks.len(),
        0 <= other.1 < blocks[other.0]@.len(),
        at != other,
        blocks[at.0]@[at.1] == (Statement::Assign { place, rvalue }),
        blocks[other.0]@[other.1] == (Statement::Assign { place: place2, rvalue: rvalue2 }),
        rvalue is Ref || rvalue is AddressOf || rvalue is Array || rvalue is Adt || rvalue is Tuple
            || rvalue is Cast,
        rvalue2 is Ref || rvalue2 is AddressOf || rvalue2 is Array || rvalue2 is Adt
            || rvalue2 is Tuple || rvalue2 is Cast,
    ensures
        ({
            let loc = Location { block: at.0 as usize, statement_index: at.1 as usize };
            let loc2 = Location { block: other.0 as usize, statement_index: other.1 as usize };
            let lty = after.rvalue_tys@[loc]@;
            let lty2 = after.rvalue_tys@[loc2]@;
            0 <= at.2 < lty.len() && 0 <= other.2 < lty2.len() && lty[at.2].label
                != PointerId::Absent ==> lty[at.2].label != lty2[other.2].label
        }),
{
    let first = before.infos().len();
    let stmts = all_statements(blocks);
    assert(blocks[at.0]@.len() == blocks[at.0].len());
    assert(blocks[other.0]@.len() == blocks[other.0].len());
    let j = lemma_statement_at(blocks, at.0, at.1);
    let j2 = lemma_statement_at(blocks, other.0, other.1);
    let loc = stmts[j].0;
    let loc2 = stmts[j2].0;
    let t = new_ty(rvalue)->0;
    let t2 = new_ty(rvalue2)->0;
    assert forall|n: int| j < n < stmts.len() implies (#[trigger] stmts[n]).0 != loc by {
        law_locations_distinct(blocks, j, n);
    }
    assert forall|n: int| j2 < n < stmts.len() implies (#[trigger] stmts[n]).0 != loc2 by {
        law_locations_distinct(blocks, j2, n);
    }
    lemma_rvalue_at(stmts, first, j, rvalue, t);
    lemma_rvalue_at(stmts, first, j2, rvalue2, t2);
    let more = rvalue_labels(stmts, first);
    law_rvalues_are_added(before, after, more, loc, 0);
    law_rvalues_are_added(before, after, more, loc2, 0);
    let from = first + rvalue_labels(stmts.take(j), first).infos.len();
    let from2 = first + rvalue_labels(stmts.take(j2), first).infos.len();
    let lty = after.rvalue_tys@[loc]@;
    let lty2 = after.rvalue_tys@[loc2]@;
    assert(lty == new_ty_labels(t, from));
    assert(lty2 == new_ty_labels(t2, from2));
    let d: int = if rvalue is Array {
        1
    } else {
        0
    };
    let d2: int = if rvalue2 is Array {
        1
    } else {
        0
    };
    let k = at.2;
    let k2 = other.2;
    if d <= k < lty.len() && d2 <= k2 < lty2.len() && lty[k].label != PointerId::Absent
        && lty2[k2].label != PointerId::Absent {
        assert(lty[k] == local_labels(t.labeled, from)[k - d]);
        assert(lty2[k2] == local_labels(t2.labeled, from2)[k2 - d2]);
        lemma_local_label_range(t.labeled, from, k - d);
        lemma_local_label_range(t2.labeled, from2, k2 - d2);
        if j < j2 {
            lemma_rvalues_before(stmts, first, j, rvalue, t, j2);
        } else if j2 < j {
            lemma_rvalues_before(stmts, first, j2, rvalue2, t2, j);
        } else {
            lemma_local_labels_distinct(t.labeled, from, k - d, k2 - d);
        }
    }
}

/// Labeling right hand sides adds pointers, types and the locations of literals, and changes
/// nothing else: what is known of the pointers so far, the types at other locations, and the labels
/// of the locals stay.
pub proof fn law_rvalues_are_added(
    before: AnalysisCtxtData,
    after: AnalysisCtxtData,
    more: RvalueLabels,
    loc: Location,
    i: int,
)
    requires
        rvalues_added(before, after, more),
    ensures
        after.local_tys@ == before.local_tys@,
        after.addr_of_local@ == before.addr_of_local@,
        after.infos().len() == before.infos().len() + more.infos.len(),
        0 <= i < before.infos().len() ==> after.infos()[i] == before.infos()[i],
        0 <= i < more.infos.len() ==> after.infos()[before.infos().len() + i] == more.infos[i],
        after.string_literal_locs@ == before.string_literal_locs@ + more.literals,
        after.rvalue_tys@.contains_key(loc) <==> before.rvalue_tys@.contains_key(loc)
            || more.tys.contains_key(loc),
        more.tys.contains_key(loc) ==> after.rvalue_tys@[loc]@ == more.tys[loc],
        !more.tys.contains_key(loc) && before.rvalue_tys@.contains_key(loc)
            ==> after.rvalue_tys@[loc]@ == before.rvalue_tys@[loc]@,
{
    let b = rvalue_ty_views(before.rvalue_tys@);
    let a = rvalue_ty_views(after.rvalue_tys@);
    assert(b.contains_key(loc) <==> before.rvalue_tys@.contains_key(loc));
    assert(a.contains_key(loc) <==> after.rvalue_tys@.contains_key(loc));
    assert(a == b.union_prefer_right(more.tys));
    if before.rvalue_tys@.contains_key(loc) {
        assert(b[loc] == before.rvalue_tys@[loc]@);
    }
    if after.rvalue_tys@.contains_key(loc) {
        assert(a[loc] == after.rvalue_tys@[loc]@);
    }
}

/// A statement is in order exactly if all its places start from locals, and the types whose roots
/// are looked at have one.
pub proof fn law_statements_in_order(rvalue: Rvalue, place: Place, locals: nat)
    ensures
        statement_wf(Statement::Other, locals),
        statement_wf(Statement::Call { dest: place }, locals) <==> place.local < locals,
        statement_wf(Statement::Assign { place, rvalue }, locals) <==> place.local < locals
            && rvalue_wf(rvalue, locals),
        rvalue matches Rvalue::Ref { place: p, .. } ==> (rvalue_wf(rvalue, locals) <==> p.local
            < locals),
        rvalue matches Rvalue::AddressOf { place: p, .. } ==> (rvalue_wf(rvalue, locals)
            <==> p.local < locals),
        rvalue matches Rvalue::Array { array_ty, .. } ==> (rvalue_wf(rvalue, locals)
            <==> array_ty@.len() > 0),
        rvalue matches Rvalue::Constant { ty, .. } ==> (rvalue_wf(rvalue, locals) <==> ty@.len()
            > 0),
        rvalue is Adt || rvalue is Tuple || rvalue is Cast || rvalue is Other ==> rvalue_wf(
            rvalue,
            locals,
        ),
{
}

/// A body is well formed exactly if each statement of each of its blocks is in order.
pub proof fn law_well_formed_bodies(body: Body)
    ensures
        body.wf() <==> forall|b: int, i: int|
            #![trigger body.blocks@[b]@[i]]
            0 <= b < body.blocks@.len() && 0 <= i < body.blocks@[b]@.len() ==> statement_wf(
                body.blocks@[b]@[i],
                body.locals@.len(),
            ),
{
}

} // verus!
