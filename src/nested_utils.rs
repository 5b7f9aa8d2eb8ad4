//! Per-depth accumulators of offsets and validity, and the decoder that fills
//! them from a page's repetition and definition levels.
use vstd::prelude::*;

use crate::array::{Array, ListArray};
use crate::datatypes::{DataType, Field};
use crate::error::ArrowError;

verus! {

/// Which kind of nesting boundary a level stands for.
#[derive(Clone, Copy, Debug, PartialEq, Eq, Structural)]
pub enum LevelKind {
    /// A leaf (or a struct) that contributes no offsets.
    Terminal,
    /// A nullable list: offsets and a validity bit per slot.
    Optional,
    /// A non-nullable list: offsets only.
    Valid,
}

/// The mathematical content of one level of the nested state.
pub struct LevelModel {
    pub kind: LevelKind,
    pub nullable: bool,
    pub offsets: Seq<i64>,
    pub validity: Seq<bool>,
}

impl LevelModel {
    /// The level after `push(length, is_valid)`.
    pub open spec fn pushed(self, length: i64, is_valid: bool) -> LevelModel {
        match self.kind {
            LevelKind::Terminal => self,
            LevelKind::Optional => LevelModel {
                offsets: self.offsets.push(length),
                validity: self.validity.push(is_valid),
                ..self
            },
            LevelKind::Valid => LevelModel { offsets: self.offsets.push(length), ..self },
        }
    }

    /// The level after `close(length)`.
    pub open spec fn closed(self, length: i64) -> LevelModel {
        match self.kind {
            LevelKind::Terminal => self,
            _ => LevelModel { offsets: self.offsets.push(length), ..self },
        }
    }

    /// The level after its offsets and validity were moved out.
    pub open spec fn drained(self) -> LevelModel {
        LevelModel { offsets: Seq::empty(), validity: Seq::empty(), ..self }
    }

    /// What `last_offset` returns.
    pub open spec fn last_offset(self) -> i64 {
        match self.kind {
            LevelKind::Terminal => 0,
            _ => self.offsets.last(),
        }
    }

    /// A level as it stands right after construction.
    pub open spec fn is_fresh(self) -> bool {
        &&& self.offsets == Seq::<i64>::empty()
        &&& self.validity == Seq::<bool>::empty()
        &&& self.kind == LevelKind::Optional ==> self.nullable
        &&& self.kind == LevelKind::Valid ==> !self.nullable
    }
}

/// Deserialized repetition and definition levels of one nesting depth.
pub trait Nested {
    spec fn model(&self) -> LevelModel;

    /// Moves the accumulated offsets and validity out, leaving the level empty.
    fn inner(&mut self) -> (r: (Vec<i64>, Option<Vec<bool>>))
        ensures
            r.0@ == old(self).model().offsets,
            r.1.is_some() <==> old(self).model().kind == LevelKind::Optional,
            r.1.is_some() ==> r.1.unwrap()@ == old(self).model().validity,
            final(self).model() == old(self).model().drained(),
    ;

    /// The last offset pushed; zero for a terminal level.
    fn last_offset(&self) -> (r: i64)
        requires
            self.model().kind != LevelKind::Terminal ==> self.model().offsets.len() > 0,
        ensures
            r == self.model().last_offset(),
    ;

    /// Appends a slot that starts at `length`, valid or null.
    fn push(&mut self, length: i64, is_valid: bool)
        ensures
            final(self).model() == old(self).model().pushed(length, is_valid),
    ;

    /// The offsets pushed so far.
    fn offsets(&self) -> (r: &[i64])
        ensures
            r@ == self.model().offsets,
    ;

    /// Appends the terminal offset `length`.
    fn close(&mut self, length: i64)
        ensures
            final(self).model() == old(self).model().closed(length),
    ;

    fn is_nullable(&self) -> (r: bool)
        ensures
            r == self.model().nullable,
    ;
}

/// A level without offsets: a leaf, or a struct.
#[derive(Debug, Default)]
pub struct NestedPrimitive {
    pub is_nullable: bool,
}

impl NestedPrimitive {
    pub fn new(is_nullable: bool) -> (r: Self)
        ensures
            r.is_nullable == is_nullable,
    {
        Self { is_nullable }
    }
}

impl Nested for NestedPrimitive {
    open spec fn model(&self) -> LevelModel {
        LevelModel {
            kind: LevelKind::Terminal,
            nullable: self.is_nullable,
            offsets: Seq::empty(),
            validity: Seq::empty(),
        }
    }

    fn inner(&mut self) -> (r: (Vec<i64>, Option<Vec<bool>>)) {
        (Vec::new(), None)
    }

    fn last_offset(&self) -> (r: i64) {
        0
    }

    fn push(&mut self, length: i64, is_valid: bool) {
    }

    fn offsets(&self) -> (r: &[i64]) {
        &[]
    }

    fn close(&mut self, length: i64) {
    }

    fn is_nullable(&self) -> (r: bool) {
        self.is_nullable
    }
}

/// A nullable list level: one offset and one validity bit per slot.
#[derive(Debug, Default)]
pub struct NestedOptional {
    pub validity: Vec<bool>,
    pub offsets: Vec<i64>,
}

impl NestedOptional {
    pub fn with_capacity(capacity: usize) -> (r: Self)
        ensures
            r.model().is_fresh(),
    {
        let offsets = Vec::with_capacity(if capacity < usize::MAX { capacity + 1 } else { capacity });
        let validity = Vec::with_capacity(capacity);
        assert(offsets@ =~= Seq::empty());
        assert(validity@ =~= Seq::empty());
        Self { validity, offsets }
    }
}

impl Nested for NestedOptional {
    open spec fn model(&self) -> LevelModel {
        LevelModel {
            kind: LevelKind::Optional,
            nullable: true,
            offsets: self.offsets@,
            validity: self.validity@,
        }
    }

    fn inner(&mut self) -> (r: (Vec<i64>, Option<Vec<bool>>)) {
        let offsets = self.offsets.split_off(0);
        let validity = self.validity.split_off(0);
        assert(self.offsets@ =~= Seq::empty());
        assert(self.validity@ =~= Seq::empty());
        (offsets, Some(validity))
    }

    fn last_offset(&self) -> (r: i64) {
        self.offsets[self.offsets.len() - 1]
    }

    fn push(&mut self, length: i64, is_valid: bool) {
        self.offsets.push(length);
        self.validity.push(is_valid);
    }

    fn offsets(&self) -> (r: &[i64]) {
        self.offsets.as_slice()
    }

    fn close(&mut self, length: i64) {
        self.offsets.push(length);
    }

    fn is_nullable(&self) -> (r: bool) {
        true
    }
}

/// A non-nullable list level: one offset per slot.
#[derive(Debug, Default)]
pub struct NestedValid {
    pub offsets: Vec<i64>,
}

impl NestedValid {
    pub fn with_capacity(capacity: usize) -> (r: Self)
        ensures
            r.model().is_fresh(),
    {
        let offsets = Vec::with_capacity(if capacity < usize::MAX { capacity + 1 } else { capacity });
        assert(offsets@ =~= Seq::empty());
        Self { offsets }
    }
}

impl Nested for NestedValid {
    open spec fn model(&self) -> LevelModel {
        LevelModel {
            kind: LevelKind::Valid,
            nullable: false,
            offsets: self.offsets@,
            validity: Seq::empty(),
        }
    }

    fn inner(&mut self) -> (r: (Vec<i64>, Option<Vec<bool>>)) {
        let offsets = self.offsets.split_off(0);
        assert(self.offsets@ =~= Seq::empty());
        (offsets, None)
    }

    fn last_offset(&self) -> (r: i64) {
        self.offsets[self.offsets.len() - 1]
    }

    fn push(&mut self, length: i64, is_valid: bool) {
        self.offsets.push(length);
    }

    fn offsets(&self) -> (r: &[i64]) {
        self.offsets.as_slice()
    }

    fn close(&mut self, length: i64) {
        self.offsets.push(length);
    }

    fn is_nullable(&self) -> (r: bool) {
        false
    }
}


/// One level of a nested state stack.
#[derive(Debug)]
pub enum NestedLevel {
    Primitive(NestedPrimitive),
    Optional(NestedOptional),
    Valid(NestedValid),
}

impl Nested for NestedLevel {
    open spec fn model(&self) -> LevelModel {
        match self {
            NestedLevel::Primitive(l) => l.model(),
            NestedLevel::Optional(l) => l.model(),
            NestedLevel::Valid(l) => l.model(),
        }
    }

    fn inner(&mut self) -> (r: (Vec<i64>, Option<Vec<bool>>)) {
        match self {
            NestedLevel::Primitive(l) => l.inner(),
            NestedLevel::Optional(l) => l.inner(),
            NestedLevel::Valid(l) => l.inner(),
        }
    }

    fn last_offset(&self) -> (r: i64) {
        match self {
            NestedLevel::Primitive(l) => l.last_offset(),
            NestedLevel::Optional(l) => l.last_offset(),
            NestedLevel::Valid(l) => l.last_offset(),
        }
    }

    fn push(&mut self, length: i64, is_valid: bool) {
        match self {
            NestedLevel::Primitive(l) => l.push(length, is_valid),
            NestedLevel::Optional(l) => l.push(length, is_valid),
            NestedLevel::Valid(l) => l.push(length, is_valid),
        }
    }

    fn offsets(&self) -> (r: &[i64]) {
        match self {
            NestedLevel::Primitive(l) => l.offsets(),
            NestedLevel::Optional(l) => l.offsets(),
            NestedLevel::Valid(l) => l.offsets(),
        }
    }

    fn close(&mut self, length: i64) {
        match self {
            NestedLevel::Primitive(l) => l.close(length),
            NestedLevel::Optional(l) => l.close(length),
            NestedLevel::Valid(l) => l.close(length),
        }
    }

    fn is_nullable(&self) -> (r: bool) {
        match self {
            NestedLevel::Primitive(l) => l.is_nullable(),
            NestedLevel::Optional(l) => l.is_nullable(),
            NestedLevel::Valid(l) => l.is_nullable(),
        }
    }
}

/// The models of a stack of levels, outermost first.
pub open spec fn stack_model(s: Seq<NestedLevel>) -> Seq<LevelModel> {
    s.map_values(|l: NestedLevel| l.model())
}

/// How many levels a slot closes: all of them on the first slot, one after a
/// slot that was null at a shallow depth, else those deeper than `rep`.
pub open spec fn closures_of(is_first: bool, prev_def: u32, rep: u32, max_rep: u32) -> int {
    if is_first {
        max_rep as int
    } else if prev_def <= 1 {
        1
    } else {
        max_rep - rep
    }
}

/// Whether the slot `(rep, def)` is valid at `depth`: it is null only at the
/// depth `rep`, and only where `def - rep` equals it.
pub open spec fn slot_is_valid(rep: u32, def: u32, depth: int) -> bool {
    !(def - rep == depth && depth == rep)
}

/// Pushes the slot `(rep, def)` into every level of the window
/// `[rep, rep + closures)`, each at its running count.
pub open spec fn levels_step(
    levels: Seq<LevelModel>,
    counts: Seq<int>,
    rep: u32,
    def: u32,
    closures: int,
) -> Seq<LevelModel> {
    Seq::new(
        levels.len(),
        |d: int|
            if rep <= d < rep + closures {
                levels[d].pushed(counts[d] as i64, slot_is_valid(rep, def, d))
            } else {
                levels[d]
            },
    )
}

/// Whether the slot counts as a value at depth one.
pub open spec fn counts_at_one(def: u32, is_nullable: bool, max_def: u32) -> bool {
    def == max_def || (is_nullable && def == max_def - 1)
}

/// Whether the slot counts as a value at the root.
pub open spec fn counts_at_root(
    levels: Seq<LevelModel>,
    rep: u32,
    def: u32,
    is_nullable: bool,
    max_def: u32,
) -> bool {
    let next_nullable: int = if levels.len() > 1 && levels[1].nullable { 1 } else { 0 };
    let column_nullable: int = if is_nullable { 1 } else { 0 };
    let bound: int = if max_def >= next_nullable + column_nullable {
        max_def - (next_nullable + column_nullable)
    } else {
        0
    };
    rep == 1 || (rep == 0 && def >= bound)
}

/// The running value counts after the slot `(rep, def)`.
pub open spec fn counts_step(
    levels: Seq<LevelModel>,
    counts: Seq<int>,
    rep: u32,
    def: u32,
    is_nullable: bool,
    max_def: u32,
) -> Seq<int> {
    Seq::new(
        counts.len(),
        |d: int|
            if d == 1 && counts_at_one(def, is_nullable, max_def) {
                counts[d] + 1
            } else if d == 0 && counts_at_root(levels, rep, def, is_nullable, max_def) {
                counts[d] + 1
            } else {
                counts[d]
            },
    )
}

/// The levels and running counts after the first `k` slots of a column's
/// decode, its pages' level streams joined in storage order.
pub open spec fn decode_prefix(
    levels: Seq<LevelModel>,
    reps: Seq<u32>,
    defs: Seq<u32>,
    k: int,
    is_nullable: bool,
    max_rep: u32,
    max_def: u32,
) -> (Seq<LevelModel>, Seq<int>)
    decreases k,
{
    if k <= 0 {
        (levels, Seq::new(levels.len(), |d: int| 0))
    } else {
        let (l, c) = decode_prefix(levels, reps, defs, k - 1, is_nullable, max_rep, max_def);
        let prev_def: u32 = if k == 1 { 0 } else { defs[k - 2] };
        let rep = reps[k - 1];
        let def = defs[k - 1];
        let closures = closures_of(k == 1, prev_def, rep, max_rep);
        (
            levels_step(l, c, rep, def, closures),
            counts_step(l, c, rep, def, is_nullable, max_def),
        )
    }
}

/// The levels after a column's whole decode: every slot of its pages' level
/// streams joined in storage order, then one closing offset per level at its
/// running count.
pub open spec fn decode_page(
    levels: Seq<LevelModel>,
    reps: Seq<u32>,
    defs: Seq<u32>,
    is_nullable: bool,
    max_rep: u32,
    max_def: u32,
) -> Seq<LevelModel> {
    let (l, c) = decode_prefix(levels, reps, defs, reps.len() as int, is_nullable, max_rep, max_def);
    Seq::new(l.len(), |d: int| l[d].closed(c[d] as i64))
}

/// The shape of the decoded prefix: lengths kept, counts within `[0, k]`.
pub proof fn lemma_decode_prefix_shape(
    levels: Seq<LevelModel>,
    reps: Seq<u32>,
    defs: Seq<u32>,
    k: int,
    is_nullable: bool,
    max_rep: u32,
    max_def: u32,
)
    requires
        0 <= k,
    ensures
        ({
            let (l, c) = decode_prefix(levels, reps, defs, k, is_nullable, max_rep, max_def);
            &&& l.len() == levels.len()
            &&& c.len() == levels.len()
            &&& forall|d: int| 0 <= d < c.len() ==> 0 <= #[trigger] c[d] <= k
        }),
    decreases k,
{
    if k > 0 {
        lemma_decode_prefix_shape(levels, reps, defs, k - 1, is_nullable, max_rep, max_def);
    }
}

/// The running state of a column's decode, at the model level: the levels,
/// the running value count of each depth, the previous slot's definition
/// level, and whether no slot was seen yet.
pub struct DecoderModel {
    pub levels: Seq<LevelModel>,
    pub counts: Seq<int>,
    pub prev_def: u32,
    pub is_first: bool,
}

/// The state before the first slot of a column.
pub open spec fn start_model(levels: Seq<LevelModel>) -> DecoderModel {
    DecoderModel {
        levels,
        counts: Seq::new(levels.len(), |d: int| 0),
        prev_def: 0,
        is_first: true,
    }
}

/// The state after one more slot `(rep, def)`.
pub open spec fn slot_step(
    m: DecoderModel,
    rep: u32,
    def: u32,
    is_nullable: bool,
    max_rep: u32,
    max_def: u32,
) -> DecoderModel {
    DecoderModel {
        levels: levels_step(m.levels, m.counts, rep, def, closures_of(m.is_first, m.prev_def, rep, max_rep)),
        counts: counts_step(m.levels, m.counts, rep, def, is_nullable, max_def),
        prev_def: def,
        is_first: false,
    }
}

/// The state after the first `k` slots of the streams, from `m`.
pub open spec fn run_slots(
    m: DecoderModel,
    reps: Seq<u32>,
    defs: Seq<u32>,
    k: int,
    is_nullable: bool,
    max_rep: u32,
    max_def: u32,
) -> DecoderModel
    decreases k,
{
    if k <= 0 {
        m
    } else {
        slot_step(
            run_slots(m, reps, defs, k - 1, is_nullable, max_rep, max_def),
            reps[k - 1],
            defs[k - 1],
            is_nullable,
            max_rep,
            max_def,
        )
    }
}

/// Every level closed at its running count.
pub open spec fn finish_model(m: DecoderModel) -> Seq<LevelModel> {
    Seq::new(m.levels.len(), |d: int| m.levels[d].closed(m.counts[d] as i64))
}

/// Running from the start state is the decode of `decode_prefix`.
pub proof fn lemma_decode_prefix_is_run(
    levels: Seq<LevelModel>,
    reps: Seq<u32>,
    defs: Seq<u32>,
    k: int,
    is_nullable: bool,
    max_rep: u32,
    max_def: u32,
)
    requires
        0 <= k <= defs.len(),
    ensures
        ({
            let m = run_slots(start_model(levels), reps, defs, k, is_nullable, max_rep, max_def);
            let (l, c) = decode_prefix(levels, reps, defs, k, is_nullable, max_rep, max_def);
            &&& m.levels == l
            &&& m.counts == c
            &&& m.is_first == (k == 0)
            &&& m.prev_def == if k == 0 { 0 } else { defs[k - 1] }
        }),
    decreases k,
{
    if k > 0 {
        lemma_decode_prefix_is_run(levels, reps, defs, k - 1, is_nullable, max_rep, max_def);
    }
}

/// A whole decode is the start state run over every slot, then closed.
pub proof fn lemma_decode_page_is_run(
    levels: Seq<LevelModel>,
    reps: Seq<u32>,
    defs: Seq<u32>,
    is_nullable: bool,
    max_rep: u32,
    max_def: u32,
)
    requires
        reps.len() == defs.len(),
    ensures
        decode_page(levels, reps, defs, is_nullable, max_rep, max_def) == finish_model(
            run_slots(start_model(levels), reps, defs, reps.len() as int, is_nullable, max_rep, max_def),
        ),
{
    lemma_decode_prefix_is_run(levels, reps, defs, reps.len() as int, is_nullable, max_rep, max_def);
}

/// Running keeps the lengths and raises each count by at most one per slot.
pub proof fn lemma_run_shape(
    m: DecoderModel,
    reps: Seq<u32>,
    defs: Seq<u32>,
    k: int,
    is_nullable: bool,
    max_rep: u32,
    max_def: u32,
)
    requires
        0 <= k,
        m.counts.len() == m.levels.len(),
    ensures
        ({
            let r = run_slots(m, reps, defs, k, is_nullable, max_rep, max_def);
            &&& r.levels.len() == m.levels.len()
            &&& r.counts.len() == m.levels.len()
            &&& forall|d: int| 0 <= d < r.counts.len() ==> m.counts[d] <= #[trigger] r.counts[d] <= m.counts[d] + k
        }),
    decreases k,
{
    if k > 0 {
        lemma_run_shape(m, reps, defs, k - 1, is_nullable, max_rep, max_def);
    }
}

proof fn lemma_run_prefix(
    m: DecoderModel,
    reps: Seq<u32>,
    defs: Seq<u32>,
    more_reps: Seq<u32>,
    more_defs: Seq<u32>,
    k: int,
    is_nullable: bool,
    max_rep: u32,
    max_def: u32,
)
    requires
        0 <= k <= reps.len(),
        reps.len() == defs.len(),
    ensures
        run_slots(m, reps + more_reps, defs + more_defs, k, is_nullable, max_rep, max_def)
            == run_slots(m, reps, defs, k, is_nullable, max_rep, max_def),
    decreases k,
{
    if k > 0 {
        lemma_run_prefix(m, reps, defs, more_reps, more_defs, k - 1, is_nullable, max_rep, max_def);
        assert((reps + more_reps)[k - 1] == reps[k - 1]);
        assert((defs + more_defs)[k - 1] == defs[k - 1]);
    }
}

/// Running over one stream and then another is running over both joined:
/// the decode carries its state from page to page.
pub proof fn lemma_run_concat(
    m: DecoderModel,
    reps: Seq<u32>,
    defs: Seq<u32>,
    more_reps: Seq<u32>,
    more_defs: Seq<u32>,
    j: int,
    is_nullable: bool,
    max_rep: u32,
    max_def: u32,
)
    requires
        reps.len() == defs.len(),
        0 <= j <= more_reps.len(),
        more_reps.len() == more_defs.len(),
    ensures
        run_slots(
            run_slots(m, reps, defs, reps.len() as int, is_nullable, max_rep, max_def),
            more_reps,
            more_defs,
            j,
            is_nullable,
            max_rep,
            max_def,
        ) == run_slots(m, reps + more_reps, defs + more_defs, reps.len() + j, is_nullable, max_rep, max_def),
    decreases j,
{
    if j == 0 {
        lemma_run_prefix(m, reps, defs, more_reps, more_defs, reps.len() as int, is_nullable, max_rep, max_def);
    } else {
        lemma_run_concat(m, reps, defs, more_reps, more_defs, j - 1, is_nullable, max_rep, max_def);
        assert((reps + more_reps)[reps.len() + j - 1] == more_reps[j - 1]);
        assert((defs + more_defs)[reps.len() + j - 1] == more_defs[j - 1]);
    }
}

/// The running state of a column's decode, carried from page to page.
#[derive(Debug)]
pub struct DecodeState {
    pub values_count: Vec<i64>,
    pub prev_def: u32,
    pub is_first: bool,
}

impl DecodeState {
    /// The state before the first page of a column with `depth` levels.
    pub fn new(depth: usize) -> (r: Self)
        ensures
            r.values_count@ == Seq::new(depth as nat, |d: int| 0i64),
            r.prev_def == 0,
            r.is_first,
    {
        let mut values_count: Vec<i64> = Vec::with_capacity(depth);
        while values_count.len() < depth
            invariant
                values_count@.len() <= depth,
                forall|d: int| 0 <= d < values_count@.len() ==> values_count@[d] == 0,
            decreases depth - values_count@.len(),
        {
            values_count.push(0);
        }
        assert(values_count@ =~= Seq::new(depth as nat, |d: int| 0i64));
        DecodeState { values_count, prev_def: 0, is_first: true }
    }

    /// The model of this state together with the stack `levels`.
    pub open spec fn model(&self, levels: Seq<LevelModel>) -> DecoderModel {
        DecoderModel {
            levels,
            counts: self.values_count@.map_values(|c: i64| c as int),
            prev_def: self.prev_def,
            is_first: self.is_first,
        }
    }
}

/// The level pairs are well formed for the column's bounds: equal lengths,
/// and `rep <= max_rep`, `rep <= def <= max_def` for every pair.
pub open spec fn levels_are_valid(reps: Seq<u32>, defs: Seq<u32>, max_rep: u32, max_def: u32) -> bool {
    &&& reps.len() == defs.len()
    &&& forall|i: int| 0 <= i < reps.len() ==> #[trigger] reps[i] <= max_rep
    &&& forall|i: int| 0 <= i < reps.len() ==> reps[i] <= #[trigger] defs[i] <= max_def
}

/// Registers a page's level pairs in the nested state stack, continuing the
/// column's decode from `state`.
///
/// Each slot pushes its running count into the levels it closes (see
/// `closures_of`), then the running counts advance. The levels are closed
/// once, after the last page, by `close_offsets`.
pub fn extend_offsets(
    rep_levels: &Vec<u32>,
    def_levels: &Vec<u32>,
    is_nullable: bool,
    max_rep: u32,
    max_def: u32,
    nested: &mut Vec<NestedLevel>,
    state: &mut DecodeState,
)
    requires
        levels_are_valid(rep_levels@, def_levels@, max_rep, max_def),
        old(state).values_count@.len() == old(nested)@.len(),
        forall|d: int|
            0 <= d < old(state).values_count@.len() ==> #[trigger] old(state).values_count@[d] + rep_levels@.len()
                <= i64::MAX,
    ensures
        ({
            let m = run_slots(
                old(state).model(stack_model(old(nested)@)),
                rep_levels@,
                def_levels@,
                rep_levels@.len() as int,
                is_nullable,
                max_rep,
                max_def,
            );
            &&& final(state).model(stack_model(final(nested)@)) == m
            &&& final(nested)@.len() == old(nested)@.len()
            &&& final(state).values_count@.len() == old(state).values_count@.len()
        }),
{
    let ghost m0 = state.model(stack_model(nested@));
    let n = nested.len();
    let len = rep_levels.len();
    let mut k: usize = 0;
    proof {
        assert(m0.counts.len() == m0.levels.len());
    }
    while k < len
        invariant
            0 <= k <= len,
            len == rep_levels@.len(),
            levels_are_valid(rep_levels@, def_levels@, max_rep, max_def),
            n == nested@.len(),
            n == state.values_count@.len(),
            n == m0.levels.len(),
            n == m0.counts.len(),
            forall|d: int| 0 <= d < n ==> #[trigger] m0.counts[d] + len <= i64::MAX,
            state.model(stack_model(nested@)) == run_slots(m0, rep_levels@, def_levels@, k as int, is_nullable, max_rep, max_def),
        decreases len - k,
    {
        let rep = rep_levels[k];
        let def = def_levels[k];
        proof {
            lemma_run_shape(m0, rep_levels@, def_levels@, k as int, is_nullable, max_rep, max_def);
        }
        let ghost pre = stack_model(nested@);
        let ghost counts = state.model(pre).counts;
        assert(forall|j: int| 0 <= j < n ==> state.values_count@[j] as int == #[trigger] counts[j]);
        let mut closures: u32 = max_rep - rep;
        if state.prev_def <= 1 {
            closures = 1;
        }
        if state.is_first {
            closures = max_rep;
            state.is_first = false;
        }
        let end: u64 = rep as u64 + closures as u64;
        let mut d: usize = rep as usize;
        while d < n && (d as u64) < end
            invariant
                n == nested@.len(),
                n == state.values_count@.len(),
                n == pre.len(),
                n == counts.len(),
                rep <= d,
                d <= end,
                end == rep + closures,
                forall|j: int| 0 <= j < n ==> state.values_count@[j] as int == #[trigger] counts[j],
                forall|j: int|
                    0 <= j < n ==> #[trigger] nested@[j].model() == if rep <= j < d {
                        pre[j].pushed(counts[j] as i64, slot_is_valid(rep, def, j))
                    } else {
                        pre[j]
                    },
            decreases n - d,
        {
            let is_null = def as u64 == rep as u64 + d as u64 && d as u64 == rep as u64;
            let length = state.values_count[d];
            nested[d].push(length, !is_null);
            d = d + 1;
        }
        assert(stack_model(nested@) =~= levels_step(pre, counts, rep, def, closures as int));
        if n > 1 {
            if def == max_def || (is_nullable && def as u64 + 1 == max_def as u64) {
                assert(counts[1] <= m0.counts[1] + k);
                let v = state.values_count[1];
                state.values_count.set(1, v + 1);
            }
        }
        if n > 0 {
            let next_nullable: u32 = if n > 1 && nested[1].is_nullable() { 1 } else { 0 };
            let column_nullable: u32 = if is_nullable { 1 } else { 0 };
            let bound: u32 = max_def.saturating_sub(next_nullable + column_nullable);
            if rep == 1 || (rep == 0 && def >= bound) {
                assert(counts[0] <= m0.counts[0] + k);
                let v = state.values_count[0];
                state.values_count.set(0, v + 1);
            }
        }
        state.prev_def = def;
        k = k + 1;
        assert(state.model(stack_model(nested@)).counts =~= run_slots(m0, rep_levels@, def_levels@, k as int, is_nullable, max_rep, max_def).counts);
    }
}

/// Closes every level of the stack at its running count: the terminal
/// offsets, appended once after the last page of the column.
pub fn close_offsets(nested: &mut Vec<NestedLevel>, state: &DecodeState)
    requires
        state.values_count@.len() == old(nested)@.len(),
    ensures
        stack_model(final(nested)@) == finish_model(state.model(stack_model(old(nested)@))),
{
    let ghost before_close = stack_model(nested@);
    let n = nested.len();
    let mut d: usize = 0;
    while d < n
        invariant
            n == nested@.len(),
            n == state.values_count@.len(),
            n == before_close.len(),
            d <= n,
            forall|j: int|
                0 <= j < n ==> #[trigger] nested@[j].model() == if j < d {
                    before_close[j].closed(state.values_count@[j])
                } else {
                    before_close[j]
                },
        decreases n - d,
    {
        let length = state.values_count[d];
        nested[d].close(length);
        d = d + 1;
    }
    assert(stack_model(nested@) =~= finish_model(state.model(before_close)));
}

/// A fresh level of the given kind and nullability.
pub open spec fn fresh_level(kind: LevelKind, nullable: bool) -> LevelModel {
    LevelModel { kind, nullable, offsets: Seq::empty(), validity: Seq::empty() }
}

/// The levels that a field contributes to a nested state stack, outermost
/// first; `None` where its type is not supported.
pub open spec fn field_levels(field: Field) -> Option<Seq<LevelModel>>
    decreases field, 0int,
{
    match field.data_type {
        DataType::List(inner) | DataType::LargeList(inner) | DataType::FixedSizeList(inner, _) => {
            let kind = if field.is_nullable { LevelKind::Optional } else { LevelKind::Valid };
            match field_levels(*inner) {
                Some(s) => Some(seq![fresh_level(kind, field.is_nullable)] + s),
                None => None,
            }
        },
        DataType::Struct(fields) => match fields_levels(fields@, fields@.len() as int) {
            Some(s) => Some(seq![fresh_level(LevelKind::Terminal, field.is_nullable)] + s),
            None => None,
        },
        DataType::Union(_) => None,
        _ => Some(seq![fresh_level(LevelKind::Terminal, field.is_nullable)]),
    }
}

/// The levels of the first `k` fields, one after the other.
pub open spec fn fields_levels(fields: Seq<Field>, k: int) -> Option<Seq<LevelModel>>
    decreases fields, k,
{
    if k <= 0 || k > fields.len() {
        Some(Seq::empty())
    } else {
        match fields_levels(fields, k - 1) {
            Some(s) => match field_levels(fields[k - 1]) {
                Some(t) => Some(s + t),
                None => None,
            },
            None => None,
        }
    }
}

/// Appends to `container` one level per nesting boundary of `field`, from
/// the outside in: a list adds an optional or valid level and recurses into
/// its item, a struct adds a terminal level and recurses into each child, any
/// other supported type adds a terminal level.
pub fn init_nested(field: &Field, capacity: usize, container: &mut Vec<NestedLevel>) -> (r: Result<(), ArrowError>)
    ensures
        r.is_ok() <==> field_levels(*field).is_some(),
        r.is_err() ==> (r matches Err(ArrowError::NotYetImplemented(t)) && t is Union),
        r.is_ok() ==> stack_model(final(container)@) == stack_model(old(container)@) + field_levels(*field).unwrap(),
    decreases field, 0int,
{
    let is_nullable = field.is_nullable();
    match field.data_type() {
        DataType::List(inner) | DataType::LargeList(inner) | DataType::FixedSizeList(inner, _) => {
            let ghost before = stack_model(container@);
            if is_nullable {
                container.push(NestedLevel::Optional(NestedOptional::with_capacity(capacity)));
            } else {
                container.push(NestedLevel::Valid(NestedValid::with_capacity(capacity)));
            }
            let ghost kind = if is_nullable { LevelKind::Optional } else { LevelKind::Valid };
            assert(stack_model(container@) =~= before + seq![fresh_level(kind, is_nullable)]);
            let r = init_nested(inner, capacity, container);
            proof {
                if r.is_ok() {
                    assert(stack_model(container@) =~= before + field_levels(*field).unwrap());
                }
            }
            r
        },
        DataType::Struct(fields) => {
            let ghost before = stack_model(container@);
            container.push(NestedLevel::Primitive(NestedPrimitive::new(is_nullable)));
            assert(stack_model(container@) =~= before + seq![fresh_level(LevelKind::Terminal, is_nullable)]);
            let mut i: usize = 0;
            while i < fields.len()
                invariant
                    0 <= i <= fields@.len(),
                    field.data_type == DataType::Struct(*fields),
                    fields_levels(fields@, i as int).is_some(),
                    stack_model(container@) == before + seq![fresh_level(LevelKind::Terminal, is_nullable)]
                        + fields_levels(fields@, i as int).unwrap(),
                decreases fields@.len() - i,
            {
                let ghost mid = stack_model(container@);
                let r = init_nested(&fields[i], capacity, container);
                if r.is_err() {
                    assert(fields_levels(fields@, i + 1).is_none());
                    assert(fields_levels(fields@, fields@.len() as int).is_none()) by {
                        lemma_fields_levels_none(fields@, i + 1, fields@.len() as int);
                    }
                    return r;
                }
                assert(stack_model(container@) =~= before + seq![fresh_level(LevelKind::Terminal, is_nullable)]
                    + fields_levels(fields@, i + 1).unwrap());
                i = i + 1;
            }
            Ok(())
        },
        DataType::Union(_) => {
            Err(ArrowError::NotYetImplemented(DataType::Union(Vec::new())))
        },
        _ => {
            let ghost before = stack_model(container@);
            container.push(NestedLevel::Primitive(NestedPrimitive::new(is_nullable)));
            assert(stack_model(container@) =~= before + field_levels(*field).unwrap());
            Ok(())
        },
    }
}

/// Once a prefix of the fields is unsupported, every longer prefix is.
proof fn lemma_fields_levels_none(fields: Seq<Field>, i: int, k: int)
    requires
        0 < i <= k <= fields.len(),
        fields_levels(fields, i).is_none(),
    ensures
        fields_levels(fields, k).is_none(),
    decreases k - i,
{
    if i < k {
        lemma_fields_levels_none(fields, i, k - 1);
    }
}


/// Offsets narrowed to 32 bits, each truncated as `as` does.
pub open spec fn narrow_offsets(offsets: Seq<i64>) -> Seq<i32> {
    offsets.map_values(|x: i64| x as i32)
}

fn to_i32_offsets(offsets: &Vec<i64>) -> (r: Vec<i32>)
    ensures
        r@ == narrow_offsets(offsets@),
{
    let mut r: Vec<i32> = Vec::with_capacity(offsets.len());
    let mut i: usize = 0;
    while i < offsets.len()
        invariant
            i <= offsets@.len(),
            r@ =~= narrow_offsets(offsets@.take(i as int)),
        decreases offsets@.len() - i,
    {
        #[verifier::truncate]
        let x = offsets[i] as i32;
        r.push(x);
        i = i + 1;
        assert(offsets@.take(i as int) =~= offsets@.take(i - 1).push(offsets@[i - 1]));
    }
    assert(offsets@.take(i as int) =~= offsets@);
    r
}

/// Wraps `values` in a list of the flavor `data_type` names, with the offsets
/// and validity drained from the innermost level of `nested`, which is popped.
/// A type that is neither a list nor a large list is refused and `nested` is
/// left as it was.
pub fn create_list(data_type: DataType, nested: &mut Vec<NestedLevel>, values: Array) -> (r: Result<Array, ArrowError>)
    requires
        (data_type is List || data_type is LargeList) ==> old(nested)@.len() > 0,
    ensures
        data_type is List ==> {
            &&& final(nested)@ == old(nested)@.drop_last()
            &&& r matches Ok(Array::List(l)) && {
                let level = old(nested)@.last().model();
                &&& l.data_type == data_type
                &&& l.offsets@ == narrow_offsets(level.offsets)
                &&& *l.values == values
                &&& (l.validity is Some <==> level.kind == LevelKind::Optional)
                &&& (l.validity is Some ==> l.validity.unwrap()@ == level.validity)
            }
        },
        data_type is LargeList ==> {
            &&& final(nested)@ == old(nested)@.drop_last()
            &&& r matches Ok(Array::LargeList(l)) && {
                let level = old(nested)@.last().model();
                &&& l.data_type == data_type
                &&& l.offsets@ == level.offsets
                &&& *l.values == values
                &&& (l.validity is Some <==> level.kind == LevelKind::Optional)
                &&& (l.validity is Some ==> l.validity.unwrap()@ == level.validity)
            }
        },
        !(data_type is List || data_type is LargeList) ==> {
            &&& final(nested)@ == old(nested)@
            &&& r matches Err(ArrowError::NotYetImplemented(t)) && t == data_type
        },
{
    match data_type {
        DataType::List(_) => {
            let mut level = nested.pop().unwrap();
            let (offsets, validity) = level.inner();
            let offsets = to_i32_offsets(&offsets);
            Ok(Array::List(ListArray { data_type, offsets, values: Box::new(values), validity }))
        },
        DataType::LargeList(_) => {
            let mut level = nested.pop().unwrap();
            let (offsets, validity) = level.inner();
            Ok(Array::LargeList(ListArray { data_type, offsets, values: Box::new(values), validity }))
        },
        _ => Err(ArrowError::NotYetImplemented(data_type)),
    }
}


/// Every offset is at most the next one.
pub open spec fn is_nondecreasing(s: Seq<i64>) -> bool {
    forall|i: int, j: int| 0 <= i <= j < s.len() ==> s[i] <= s[j]
}

/// The first slot opens the depth `d`: `d` lies in its window of closures.
pub open spec fn in_first_window(reps: Seq<u32>, max_rep: u32, d: int) -> bool {
    reps.len() > 0 && reps[0] <= d < reps[0] + max_rep
}

proof fn lemma_prefix_offsets(
    levels: Seq<LevelModel>,
    reps: Seq<u32>,
    defs: Seq<u32>,
    k: int,
    is_nullable: bool,
    max_rep: u32,
    max_def: u32,
)
    requires
        0 <= k <= reps.len(),
        reps.len() <= i64::MAX,
        forall|d: int| 0 <= d < levels.len() ==> (#[trigger] levels[d]).is_fresh(),
    ensures
        ({
            let (l, c) = decode_prefix(levels, reps, defs, k, is_nullable, max_rep, max_def);
            &&& l.len() == levels.len()
            &&& c.len() == levels.len()
            &&& forall|d: int| 0 <= d < l.len() ==> (#[trigger] l[d]).kind == levels[d].kind
            &&& forall|d: int| 0 <= d < l.len() ==> 0 <= #[trigger] c[d] <= k
            &&& forall|d: int| 0 <= d < l.len() ==> is_nondecreasing(#[trigger] l[d].offsets)
            &&& forall|d: int, i: int|
                0 <= d < l.len() && 0 <= i < l[d].offsets.len() ==> #[trigger] l[d].offsets[i] <= c[d]
            &&& forall|d: int|
                0 <= d < l.len() && l[d].kind == LevelKind::Optional ==> (#[trigger] l[d]).offsets.len()
                    == l[d].validity.len()
            &&& forall|d: int|
                0 <= d < l.len() && l[d].kind != LevelKind::Optional ==> (#[trigger] l[d]).validity.len()
                    == 0
            &&& forall|d: int|
                0 <= d < l.len() && l[d].kind == LevelKind::Terminal ==> (#[trigger] l[d]).offsets.len()
                    == 0
            &&& forall|d: int|
                0 <= d < l.len() && k >= 1 && in_first_window(reps, max_rep, d) && l[d].kind
                    != LevelKind::Terminal ==> (#[trigger] l[d]).offsets.len() > 0 && l[d].offsets[0] == 0
        }),
    decreases k,
{
    if k > 0 {
        lemma_prefix_offsets(levels, reps, defs, k - 1, is_nullable, max_rep, max_def);
        let (l0, c0) = decode_prefix(levels, reps, defs, k - 1, is_nullable, max_rep, max_def);
        let (l, c) = decode_prefix(levels, reps, defs, k, is_nullable, max_rep, max_def);
        assert forall|d: int| 0 <= d < l.len() implies c0[d] <= #[trigger] c[d] by {}
        assert forall|d: int| 0 <= d < l.len() implies is_nondecreasing(#[trigger] l[d].offsets) by {
            if l[d] != l0[d] && l0[d].kind != LevelKind::Terminal {
                assert(l[d].offsets == l0[d].offsets.push(c0[d] as i64));
                assert forall|i: int, j: int| 0 <= i <= j < l[d].offsets.len() implies l[d].offsets[i]
                    <= l[d].offsets[j] by {
                    if j == l[d].offsets.len() - 1 && i < j {
                        assert(l0[d].offsets[i] <= c0[d]);
                    }
                }
            }
        }
        assert forall|d: int, i: int|
            0 <= d < l.len() && 0 <= i < l[d].offsets.len() implies #[trigger] l[d].offsets[i] <= c[d] by {
            if l[d] != l0[d] && l0[d].kind != LevelKind::Terminal {
                assert(l[d].offsets == l0[d].offsets.push(c0[d] as i64));
                if i < l0[d].offsets.len() {
                    assert(l0[d].offsets[i] <= c0[d]);
                }
            }
        }
        assert forall|d: int|
            0 <= d < l.len() && k >= 1 && in_first_window(reps, max_rep, d) && l[d].kind
                != LevelKind::Terminal implies (#[trigger] l[d]).offsets.len() > 0 && l[d].offsets[0] == 0 by {
            if k == 1 {
                assert(c0[d] == 0);
                assert(l[d].offsets == l0[d].offsets.push(c0[d] as i64));
            } else {
                if l[d] != l0[d] {
                    assert(l[d].offsets == l0[d].offsets.push(c0[d] as i64));
                }
            }
        }
    }
}

/// Decoding a column (all its pages' level streams, joined) into fresh
/// levels leaves every offsets sequence
/// non-decreasing and, for a nullable list, one offset more than validity
/// bits; each list level holds at least its closing offset.
pub proof fn lemma_page_offsets_well_formed(
    levels: Seq<LevelModel>,
    reps: Seq<u32>,
    defs: Seq<u32>,
    is_nullable: bool,
    max_rep: u32,
    max_def: u32,
)
    requires
        reps.len() <= i64::MAX,
        forall|d: int| 0 <= d < levels.len() ==> (#[trigger] levels[d]).is_fresh(),
    ensures
        ({
            let out = decode_page(levels, reps, defs, is_nullable, max_rep, max_def);
            &&& out.len() == levels.len()
            &&& forall|d: int| 0 <= d < out.len() ==> is_nondecreasing(#[trigger] out[d].offsets)
            &&& forall|d: int|
                0 <= d < out.len() && levels[d].kind == LevelKind::Optional ==> (#[trigger] out[d]).offsets.len()
                    == out[d].validity.len() + 1
            &&& forall|d: int|
                0 <= d < out.len() && levels[d].kind != LevelKind::Terminal ==> (#[trigger] out[d]).offsets.len()
                    >= 1
        }),
{
    let k = reps.len() as int;
    lemma_prefix_offsets(levels, reps, defs, k, is_nullable, max_rep, max_def);
    let (l, c) = decode_prefix(levels, reps, defs, k, is_nullable, max_rep, max_def);
    let out = decode_page(levels, reps, defs, is_nullable, max_rep, max_def);
    assert forall|d: int| 0 <= d < out.len() implies is_nondecreasing(#[trigger] out[d].offsets) by {
        if l[d].kind != LevelKind::Terminal {
            assert(out[d].offsets == l[d].offsets.push(c[d] as i64));
            assert forall|i: int, j: int| 0 <= i <= j < out[d].offsets.len() implies out[d].offsets[i]
                <= out[d].offsets[j] by {
                if j == out[d].offsets.len() - 1 && i < j {
                    assert(l[d].offsets[i] <= c[d]);
                }
            }
        }
    }
}

/// The first slot of a column's decode opens every level of its window at offset zero,
/// whatever its repetition level: a list level in that window starts at 0.
pub proof fn lemma_first_slot_starts_at_zero(
    levels: Seq<LevelModel>,
    reps: Seq<u32>,
    defs: Seq<u32>,
    is_nullable: bool,
    max_rep: u32,
    max_def: u32,
)
    requires
        reps.len() <= i64::MAX,
        forall|d: int| 0 <= d < levels.len() ==> (#[trigger] levels[d]).is_fresh(),
    ensures
        ({
            let out = decode_page(levels, reps, defs, is_nullable, max_rep, max_def);
            forall|d: int|
                0 <= d < out.len() && levels[d].kind != LevelKind::Terminal && (reps.len() == 0
                    || in_first_window(reps, max_rep, d)) ==> (#[trigger] out[d]).offsets[0] == 0
        }),
{
    let k = reps.len() as int;
    lemma_prefix_offsets(levels, reps, defs, k, is_nullable, max_rep, max_def);
    let (l, c) = decode_prefix(levels, reps, defs, k, is_nullable, max_rep, max_def);
    let out = decode_page(levels, reps, defs, is_nullable, max_rep, max_def);
    assert forall|d: int|
        0 <= d < out.len() && levels[d].kind != LevelKind::Terminal && (reps.len() == 0
            || in_first_window(reps, max_rep, d)) implies (#[trigger] out[d]).offsets[0] == 0 by {
        assert(out[d].offsets == l[d].offsets.push(c[d] as i64));
        if reps.len() == 0 {
            assert(l[d].offsets.len() == 0);
        }
    }
}


/// Every level that a field contributes is fresh, and a list level is
/// nullable exactly when it is optional.
pub proof fn lemma_field_levels_fresh(field: Field)
    requires
        field_levels(field) is Some,
    ensures
        forall|d: int|
            0 <= d < field_levels(field).unwrap().len() ==> (#[trigger] field_levels(field).unwrap()[d]).is_fresh(),
    decreases field, 0int,
{
    match field.data_type {
        DataType::List(inner) | DataType::LargeList(inner) | DataType::FixedSizeList(inner, _) => {
            lemma_field_levels_fresh(*inner);
        },
        DataType::Struct(fields) => {
            lemma_fields_levels_fresh(fields@, fields@.len() as int);
        },
        _ => {},
    }
}

proof fn lemma_fields_levels_fresh(fields: Seq<Field>, k: int)
    requires
        fields_levels(fields, k) is Some,
    ensures
        forall|d: int|
            0 <= d < fields_levels(fields, k).unwrap().len() ==> (#[trigger] fields_levels(fields, k).unwrap()[d]).is_fresh(),
    decreases fields, k,
{
    if 0 < k <= fields.len() {
        lemma_fields_levels_fresh(fields, k - 1);
        lemma_field_levels_fresh(fields[k - 1]);
    }
}

/// Initializing from one field twice, with any capacities, gives stacks of
/// the same depth with the same kind and nullability at each depth, all
/// fresh.
pub proof fn lemma_init_nested_idempotent(field: Field, first: Seq<NestedLevel>, second: Seq<NestedLevel>)
    requires
        field_levels(field) is Some,
        stack_model(first) == field_levels(field).unwrap(),
        stack_model(second) == field_levels(field).unwrap(),
    ensures
        first.len() == second.len(),
        forall|d: int|
            0 <= d < first.len() ==> (#[trigger] first[d].model()).nullable == second[d].model().nullable
                && first[d].model().kind == second[d].model().kind,
        forall|d: int| 0 <= d < first.len() ==> (#[trigger] first[d].model()).is_fresh(),
{
    lemma_field_levels_fresh(field);
    assert(stack_model(first).len() == first.len());
    assert(stack_model(second).len() == second.len());
    assert forall|d: int| 0 <= d < first.len() implies (#[trigger] first[d].model()).nullable
        == second[d].model().nullable && first[d].model().kind == second[d].model().kind by {
        assert(stack_model(first)[d] == first[d].model());
        assert(stack_model(second)[d] == second[d].model());
    }
    assert forall|d: int| 0 <= d < first.len() implies (#[trigger] first[d].model()).is_fresh() by {
        assert(stack_model(first)[d] == first[d].model());
    }
}

proof fn lemma_prefix_all_null(
    levels: Seq<LevelModel>,
    reps: Seq<u32>,
    defs: Seq<u32>,
    k: int,
    is_nullable: bool,
    max_rep: u32,
    max_def: u32,
)
    requires
        0 <= k <= reps.len(),
        reps.len() == defs.len(),
        max_rep >= 1,
        levels.len() >= 1,
        levels[0].kind == LevelKind::Optional,
        levels[0].validity.len() == 0,
        forall|i: int| 0 <= i < reps.len() ==> #[trigger] reps[i] == 0,
        forall|i: int| 0 <= i < defs.len() ==> #[trigger] defs[i] == 0,
    ensures
        ({
            let (l, c) = decode_prefix(levels, reps, defs, k, is_nullable, max_rep, max_def);
            &&& l.len() == levels.len()
            &&& l[0].kind == LevelKind::Optional
            &&& l[0].validity == Seq::new(k as nat, |i: int| false)
            &&& max_rep == 1 ==> forall|d: int| 1 <= d < l.len() ==> #[trigger] l[d] == levels[d]
        }),
    decreases k,
{
    if k > 0 {
        lemma_prefix_all_null(levels, reps, defs, k - 1, is_nullable, max_rep, max_def);
        lemma_decode_prefix_shape(levels, reps, defs, k - 1, is_nullable, max_rep, max_def);
        let (l0, c0) = decode_prefix(levels, reps, defs, k - 1, is_nullable, max_rep, max_def);
        let (l, c) = decode_prefix(levels, reps, defs, k, is_nullable, max_rep, max_def);
        assert(reps[k - 1] == 0 && defs[k - 1] == 0);
        if k > 1 {
            assert(defs[k - 2] == 0);
        }
        assert(l[0] == l0[0].pushed(c0[0] as i64, false));
        assert(l[0].validity =~= Seq::new(k as nat, |i: int| false));
    }
}

/// A decode whose every slot is null at the root (repetition and definition
/// level zero) marks each slot invalid at depth 0, one validity bit per slot;
/// with a single repetition level no deeper level receives a slot.
pub proof fn lemma_all_null_page(
    levels: Seq<LevelModel>,
    reps: Seq<u32>,
    defs: Seq<u32>,
    is_nullable: bool,
    max_rep: u32,
    max_def: u32,
)
    requires
        reps.len() == defs.len(),
        max_rep >= 1,
        levels.len() >= 1,
        levels[0].kind == LevelKind::Optional,
        forall|d: int| 0 <= d < levels.len() ==> (#[trigger] levels[d]).is_fresh(),
        forall|i: int| 0 <= i < reps.len() ==> #[trigger] reps[i] == 0,
        forall|i: int| 0 <= i < defs.len() ==> #[trigger] defs[i] == 0,
    ensures
        ({
            let out = decode_page(levels, reps, defs, is_nullable, max_rep, max_def);
            &&& out[0].validity == Seq::new(reps.len(), |i: int| false)
            &&& max_rep == 1 ==> forall|d: int|
                1 <= d < out.len() ==> (#[trigger] out[d]).validity.len() == 0 && out[d].offsets.len() <= 1
        }),
{
    let k = reps.len() as int;
    assert(levels[0].is_fresh());
    lemma_prefix_all_null(levels, reps, defs, k, is_nullable, max_rep, max_def);
    lemma_decode_prefix_shape(levels, reps, defs, k, is_nullable, max_rep, max_def);
    let (l, c) = decode_prefix(levels, reps, defs, k, is_nullable, max_rep, max_def);
    let out = decode_page(levels, reps, defs, is_nullable, max_rep, max_def);
    if max_rep == 1 {
        assert forall|d: int| 1 <= d < out.len() implies (#[trigger] out[d]).validity.len() == 0
            && out[d].offsets.len() <= 1 by {
            assert(l[d] == levels[d]);
            assert(levels[d].is_fresh());
        }
    }
}

} // verus!
