//! What is known about the whole program, and about one function of it.
use crate::def_id::{DefId, DefMap};
use crate::flags::PointerInfo;
use crate::keyed_map::{KeyedMap, MapKey};
use crate::pointer_id::{is_label, GlobalPointerTable, LocalPointerTable, PointerId};
use crate::ty::{AssignPointerIds, LFnSig, LTy, LabeledNode, SigView};
use vstd::prelude::*;

verus! {

/// Why the analysis of a function was given up.
pub struct PanicDetail {
    /// What happened, in one line.
    pub short: String,
    /// What happened, with the backtrace where there is one.
    pub full: String,
    pub has_backtrace: bool,
}

impl PanicDetail {
    /// A reason that was given on purpose, without a backtrace.
    pub open spec fn says(&self, msg: Seq<char>) -> bool {
        self.short@ == msg && self.full@ == msg && !self.has_backtrace
    }

    /// The reason `msg`, without a backtrace.
    pub fn new(msg: &str) -> (r: PanicDetail)
        ensures
            r.says(msg@),
            r.short@ == msg@,
            r.full@ == msg@,
            !r.has_backtrace,
    {
        PanicDetail { short: msg.to_owned(), full: msg.to_owned(), has_backtrace: false }
    }
}

/// What is known about the whole program.
pub struct GlobalAnalysisCtxt {
    /// What is known about each global pointer.
    pub ptr_info: GlobalPointerTable<PointerInfo>,
    /// The labeled signatures of functions.
    pub fn_sigs: DefMap<LFnSig>,
    /// The labeled types of statics.
    pub static_tys: DefMap<LTy>,
    /// The pointer to each static itself.
    pub addr_of_static: DefMap<PointerId>,
    /// The labeled types of fields.
    pub field_ltys: DefMap<LTy>,
    /// The functions whose analysis was given up.
    pub fns_failed: DefMap<PanicDetail>,
}

/// A statement of a body: the basic block, and the position in the block.
#[derive(Clone, Copy, Debug, PartialEq, Eq, Structural)]
pub struct Location {
    pub block: usize,
    pub statement_index: usize,
}

impl MapKey for Location {
    closed spec fn spec_number(self) -> u128 {
        (self.block * 0x1_0000_0000_0000_0000 + self.statement_index) as u128
    }

    fn number(self) -> (r: u128) {
        self.block as u128 * 0x1_0000_0000_0000_0000 + self.statement_index as u128
    }

    proof fn lemma_number_distinct(a: Location, b: Location) {
    }
}

/// What is known about one function.
pub struct AnalysisCtxtData {
    /// What is known about each local pointer.
    pub ptr_info: LocalPointerTable<PointerInfo>,
    /// The labeled type of each local.
    pub local_tys: Vec<LTy>,
    /// The pointer to each local itself.
    pub addr_of_local: Vec<PointerId>,
    /// The labeled types of the right hand sides that have types of their own.
    pub rvalue_tys: KeyedMap<Location, LTy>,
    /// Where string literals stand.
    pub string_literal_locs: Vec<Location>,
}

/// The pointers of the whole program have global numbers.
pub open spec fn global_pointer(i: nat) -> PointerId {
    PointerId::Global(i as usize)
}

/// The pointers of one function have local numbers.
pub open spec fn local_pointer(i: nat) -> PointerId {
    PointerId::Local(i as usize)
}

impl AssignPointerIds for GlobalAnalysisCtxt {
    type Others = (
        DefMap<LFnSig>,
        DefMap<LTy>,
        DefMap<PointerId>,
        DefMap<LTy>,
        DefMap<PanicDetail>,
    );

    open spec fn infos(&self) -> Seq<PointerInfo> {
        self.ptr_info@
    }

    open spec fn others(&self) -> Self::Others {
        (self.fn_sigs, self.static_tys, self.addr_of_static, self.field_ltys, self.fns_failed)
    }

    open spec fn pointer(i: nat) -> PointerId {
        global_pointer(i)
    }

    fn new_pointer(&mut self, info: PointerInfo) -> (r: PointerId) {
        let i = self.ptr_info.values.len();
        self.ptr_info.values.push(info);
        PointerId::Global(i)
    }
}

impl AssignPointerIds for AnalysisCtxtData {
    type Others = (Vec<LTy>, Vec<PointerId>, KeyedMap<Location, LTy>, Vec<Location>);

    open spec fn infos(&self) -> Seq<PointerInfo> {
        self.ptr_info@
    }

    open spec fn others(&self) -> Self::Others {
        (self.local_tys, self.addr_of_local, self.rvalue_tys, self.string_literal_locs)
    }

    open spec fn pointer(i: nat) -> PointerId {
        local_pointer(i)
    }

    fn new_pointer(&mut self, info: PointerInfo) -> (r: PointerId) {
        let i = self.ptr_info.values.len();
        self.ptr_info.values.push(info);
        PointerId::Local(i)
    }
}

/// All labels of the type are absent, or pointers of a program with so many global and local
/// pointers.
pub open spec fn lty_fits(lty: Seq<LabeledNode<PointerId>>, globals: nat, locals: nat) -> bool {
    forall|k: int| 0 <= k < lty.len() ==> is_label(globals, locals, (#[trigger] lty[k]).label)
}

/// All labels of the signature are absent, or global pointers of a program with so many of them.
pub open spec fn sig_fits(sig: SigView, globals: nat) -> bool {
    &&& lty_fits(sig.output, globals, 0)
    &&& forall|i: int| 0 <= i < sig.inputs.len() ==> lty_fits(#[trigger] sig.inputs[i], globals, 0)
}

impl GlobalAnalysisCtxt {
    /// No pointers, and nothing known.
    pub fn new() -> (r: GlobalAnalysisCtxt)
        ensures
            r.ptr_info@ == Seq::<PointerInfo>::empty(),
            r.fn_sigs@ == Map::<DefId, LFnSig>::empty(),
            r.static_tys@ == Map::<DefId, LTy>::empty(),
            r.addr_of_static@ == Map::<DefId, PointerId>::empty(),
            r.field_ltys@ == Map::<DefId, LTy>::empty(),
            r.fns_failed@ == Map::<DefId, PanicDetail>::empty(),
            r.wf(),
    {
        GlobalAnalysisCtxt {
            ptr_info: GlobalPointerTable { values: Vec::new() },
            fn_sigs: DefMap::new(),
            static_tys: DefMap::new(),
            addr_of_static: DefMap::new(),
            field_ltys: DefMap::new(),
            fns_failed: DefMap::new(),
        }
    }

    /// Every label is absent or one of the global pointers, and there is a pointer to every
    /// static.
    pub open spec fn wf(&self) -> bool {
        let n = self.ptr_info@.len();
        &&& forall|d: DefId| #[trigger]
            self.fn_sigs@.contains_key(d) ==> sig_fits(self.fn_sigs@[d]@, n)
        &&& forall|d: DefId| #[trigger]
            self.static_tys@.contains_key(d) ==> lty_fits(self.static_tys@[d]@, n, 0)
        &&& forall|d: DefId| #[trigger]
            self.field_ltys@.contains_key(d) ==> lty_fits(self.field_ltys@[d]@, n, 0)
        &&& forall|d: DefId| #[trigger]
            self.addr_of_static@.contains_key(d) ==> is_label(n, 0, self.addr_of_static@[d])
        &&& self.addr_of_static@.dom() == self.static_tys@.dom()
    }

    /// Whether the analysis of `did` was given up.
    pub fn fn_failed(&self, did: DefId) -> (r: bool)
        ensures
            r == self.fns_failed@.contains_key(did),
    {
        self.fns_failed.contains_key(did)
    }

    /// Gives up the analysis of `did`. If it was given up before, the earlier reason stays.
    pub fn mark_fn_failed(&mut self, did: DefId, detail: PanicDetail)
        ensures
            final(self).fns_failed@ == if old(self).fns_failed@.contains_key(did) {
                old(self).fns_failed@
            } else {
                old(self).fns_failed@.insert(did, detail)
            },
            final(self).ptr_info == old(self).ptr_info,
            final(self).fn_sigs == old(self).fn_sigs,
            final(self).static_tys == old(self).static_tys,
            final(self).addr_of_static == old(self).addr_of_static,
            final(self).field_ltys == old(self).field_ltys,
    {
        if !self.fns_failed.contains_key(did) {
            self.fns_failed.insert(did, detail);
        }
    }
}

/// The pointers of the program and those of a function are of different sorts, and pointers with
/// different numbers differ.
pub proof fn law_pointer_numbers(i: nat, j: nat)
    requires
        i <= usize::MAX,
        j <= usize::MAX,
    ensures
        global_pointer(i) == PointerId::Global(i as usize),
        local_pointer(i) == PointerId::Local(i as usize),
        global_pointer(i) != local_pointer(j),
        i != j ==> global_pointer(i) != global_pointer(j) && local_pointer(i) != local_pointer(j),
{
}

/// A type fits a program exactly if each of its labels is absent or one of the pointers that there
/// are; a signature fits exactly if all of its labels are absent or global pointers.
pub proof fn law_fitting(
    lty: Seq<LabeledNode<PointerId>>,
    sig: SigView,
    globals: nat,
    locals: nat,
    i: int,
    k: int,
)
    ensures
        lty_fits(lty, globals, locals) && 0 <= k < lty.len() ==> match lty[k].label {
            PointerId::Absent => true,
            PointerId::Global(p) => p < globals,
            PointerId::Local(p) => p < locals,
        },
        sig_fits(sig, globals) && 0 <= k < sig.output.len() ==> match sig.output[k].label {
            PointerId::Absent => true,
            PointerId::Global(p) => p < globals,
            PointerId::Local(p) => false,
        },
        sig_fits(sig, globals) && 0 <= i < sig.inputs.len() && 0 <= k < sig.inputs[i].len()
            ==> match sig.inputs[i][k].label {
            PointerId::Absent => true,
            PointerId::Global(p) => p < globals,
            PointerId::Local(p) => false,
        },
{
    if sig_fits(sig, globals) && 0 <= i < sig.inputs.len() {
        assert(lty_fits(sig.inputs[i], globals, 0));
    }
}

/// A reason that was given on purpose has the same text in short and in full, and no backtrace.
pub proof fn law_given_reasons(detail: PanicDetail, msg: Seq<char>)
    ensures
        detail.says(msg) <==> detail.short@ == msg && detail.full@ == msg && !detail.has_backtrace,
{
}

} // verus!
