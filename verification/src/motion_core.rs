//! The motion space: a dimension, an append-only list of entries (users and
//! posts), and the active kernel. Interaction updates blend coordinates,
//! renormalize best-effort, and decay the per-user motion accumulator. Every
//! operation is pinned to a functional model over `SpaceModel`.

use vstd::prelude::*;

use crate::embedding::{embed_post, spec_embed_raw, EMBEDDING_DIM};
use crate::exponential::{lemma_exp_neg_range, spec_exp_neg};
use crate::kernel::{spec_clamp_arg, spec_kernel_apply, spec_sq_dist, Kernel};
use crate::math::{coords_ok, copy_comps, MathError, VecN};
use crate::motion_input::{
    InputModel, Interaction, InteractionModel, InteractionType, MotionInput,
};
use crate::{COORD_LIMIT, SCALE};

verus! {

/// Largest value the motion accumulator may take.
pub const MOTION_LIMIT: i64 = 1_000_000_000_000_000;

/// Fraction of the motion kept on each update: 98 of 100 (a 0.02 decay).
pub const DECAY_KEEP: i64 = 98;

/// A fault raised by the motion space.
#[derive(Debug, Clone)]
pub enum CoreError {
    /// No user entry carries the id.
    UserNotFound { user_id: String },
    /// No post entry carries the id.
    PostNotFound { post_id: String },
    /// The user exists but has no coordinate yet.
    CoordNotLoaded { user_id: String },
    /// A vector or kernel fault.
    Math(MathError),
    /// An output could not be delivered.
    ChannelError,
}

/// The model of a fault: ids become character sequences.
pub ghost enum ErrorModel {
    UserNotFound(Seq<char>),
    PostNotFound(Seq<char>),
    CoordNotLoaded(Seq<char>),
    Math(MathError),
    Channel,
}

impl View for CoreError {
    type V = ErrorModel;

    open spec fn view(&self) -> ErrorModel {
        match self {
            CoreError::UserNotFound { user_id } => ErrorModel::UserNotFound(user_id@),
            CoreError::PostNotFound { post_id } => ErrorModel::PostNotFound(post_id@),
            CoreError::CoordNotLoaded { user_id } => ErrorModel::CoordNotLoaded(user_id@),
            CoreError::Math(e) => ErrorModel::Math(*e),
            CoreError::ChannelError => ErrorModel::Channel,
        }
    }
}

impl CoreError {
    /// A short human-readable description of the fault.
    pub fn message(&self) -> (r: String)
        ensures
            r@.len() > 0,
    {
        proof {
            reveal_strlit("user not found for id: ");
            reveal_strlit("post not found for id: ");
            reveal_strlit("no coord loaded for user id: ");
            reveal_strlit("math error: ");
            reveal_strlit("channel closed while sending motion entry");
        }
        match self {
            CoreError::UserNotFound { user_id } => "user not found for id: ".to_owned().concat(
                user_id.as_str(),
            ),
            CoreError::PostNotFound { post_id } => "post not found for id: ".to_owned().concat(
                post_id.as_str(),
            ),
            CoreError::CoordNotLoaded { user_id } => "no coord loaded for user id: ".to_owned()
                .concat(user_id.as_str()),
            CoreError::Math(e) => "math error: ".to_owned().concat(e.message().as_str()),
            CoreError::ChannelError => "channel closed while sending motion entry".to_owned(),
        }
    }
}

/// A user: an id, an optional coordinate (absent until an interaction first
/// touches it), and the motion accumulator.
#[derive(Debug, Clone)]
pub struct MotionUser {
    pub id: String,
    pub coord: Option<VecN>,
    pub motion: i64,
}

impl MotionUser {
    /// A fresh user: no coordinate, zero motion.
    pub fn new(id: &str, _dim: usize) -> (r: MotionUser)
        ensures
            r.id@ == id@,
            r.coord is None,
            r.motion == 0,
    {
        MotionUser { id: id.to_owned(), coord: None, motion: 0 }
    }
}

/// A post: an id, a coordinate fixed at creation, and a reserved feature
/// list.
#[derive(Debug, Clone)]
pub struct MotionPost {
    pub id: String,
    pub coord: VecN,
    pub features: Vec<VecN>,
}

impl MotionPost {
    /// A fresh post at the given coordinate, with no features.
    pub fn new(id: String, coord: VecN) -> (r: MotionPost)
        ensures
            r.id@ == id@,
            r.coord == coord,
            r.features@.len() == 0,
    {
        MotionPost { id, coord, features: Vec::new() }
    }
}

/// An entry of the space: a user or a post.
#[derive(Debug, Clone)]
pub enum MotionEntry {
    User(MotionUser),
    Post(MotionPost),
}

/// The model of an entry: ids as character sequences, coordinates as plain
/// component sequences, caches dropped.
pub ghost enum EntryModel {
    User { id: Seq<char>, coord: Option<Seq<i64>>, motion: int },
    Post { id: Seq<char>, coord: Seq<i64>, features: Seq<Seq<i64>> },
}

impl View for MotionEntry {
    type V = EntryModel;

    open spec fn view(&self) -> EntryModel {
        match self {
            MotionEntry::User(u) => EntryModel::User {
                id: u.id@,
                coord: match u.coord {
                    Some(c) => Some(c.data@),
                    None => None,
                },
                motion: u.motion as int,
            },
            MotionEntry::Post(p) => EntryModel::Post {
                id: p.id@,
                coord: p.coord.data@,
                features: Seq::new(p.features@.len(), |i: int| p.features@[i].data@),
            },
        }
    }
}

impl DeepView for MotionEntry {
    type V = EntryModel;

    open spec fn deep_view(&self) -> EntryModel {
        self.view()
    }
}

impl MotionEntry {
    /// The entry's id.
    pub fn id(&self) -> (r: &str)
        ensures
            r@ == spec_entry_id(self@),
    {
        match self {
            MotionEntry::User(u) => u.id.as_str(),
            MotionEntry::Post(p) => p.id.as_str(),
        }
    }

    /// Caches consistent, components and motion within range.
    pub open spec fn wf(&self) -> bool {
        match self {
            MotionEntry::User(u) => {
                &&& match u.coord {
                    Some(c) => c.wf(),
                    None => true,
                }
                &&& 0 <= u.motion <= MOTION_LIMIT
            },
            MotionEntry::Post(p) => {
                &&& p.coord.wf()
                &&& forall|i: int| 0 <= i < p.features@.len() ==> (#[trigger] p.features@[i]).wf()
            },
        }
    }
}

/// The id of a model entry.
pub open spec fn spec_entry_id(e: EntryModel) -> Seq<char> {
    match e {
        EntryModel::User { id, .. } => id,
        EntryModel::Post { id, .. } => id,
    }
}

/// Whether a model entry is a user carrying the id.
pub open spec fn is_user_with(e: EntryModel, id: Seq<char>) -> bool {
    match e {
        EntryModel::User { id: uid, .. } => uid == id,
        EntryModel::Post { .. } => false,
    }
}

/// Whether a model entry is a post carrying the id.
pub open spec fn is_post_with(e: EntryModel, id: Seq<char>) -> bool {
    match e {
        EntryModel::Post { id: pid, .. } => pid == id,
        EntryModel::User { .. } => false,
    }
}

/// The first index holding a user with the id, scanning from the front.
pub open spec fn find_user(entries: Seq<EntryModel>, id: Seq<char>) -> Option<int>
    decreases entries.len(),
{
    if entries.len() == 0 {
        None
    } else if is_user_with(entries[0], id) {
        Some(0)
    } else {
        match find_user(entries.drop_first(), id) {
            Some(i) => Some(i + 1),
            None => None,
        }
    }
}

/// The first index holding a post with the id, scanning from the front.
pub open spec fn find_post(entries: Seq<EntryModel>, id: Seq<char>) -> Option<int>
    decreases entries.len(),
{
    if entries.len() == 0 {
        None
    } else if is_post_with(entries[0], id) {
        Some(0)
    } else {
        match find_post(entries.drop_first(), id) {
            Some(i) => Some(i + 1),
            None => None,
        }
    }
}

/// `find_user` returns exactly the first match, or nothing when no entry
/// matches.
pub proof fn lemma_find_user_char(entries: Seq<EntryModel>, id: Seq<char>)
    ensures
        match find_user(entries, id) {
            Some(i) => 0 <= i < entries.len() && is_user_with(entries[i], id) && (forall|j: int|
                0 <= j < i ==> !is_user_with(#[trigger] entries[j], id)),
            None => forall|j: int|
                0 <= j < entries.len() ==> !is_user_with(#[trigger] entries[j], id),
        },
    decreases entries.len(),
{
    if entries.len() > 0 && !is_user_with(entries[0], id) {
        let d = entries.drop_first();
        lemma_find_user_char(d, id);
        match find_user(d, id) {
            Some(i) => {
                assert(entries[i + 1] == d[i]);
                assert forall|j: int| 0 <= j < i + 1 implies !is_user_with(
                    #[trigger] entries[j],
                    id,
                ) by {
                    if j >= 1 {
                        assert(entries[j] == d[j - 1]);
                        assert(!is_user_with(d[j - 1], id));
                    }
                };
            },
            None => {
                assert forall|j: int| 0 <= j < entries.len() implies !is_user_with(
                    #[trigger] entries[j],
                    id,
                ) by {
                    if j >= 1 {
                        assert(entries[j] == d[j - 1]);
                        assert(!is_user_with(d[j - 1], id));
                    }
                };
            },
        }
    }
}

/// `find_post` returns exactly the first match, or nothing when no entry
/// matches.
pub proof fn lemma_find_post_char(entries: Seq<EntryModel>, id: Seq<char>)
    ensures
        match find_post(entries, id) {
            Some(i) => 0 <= i < entries.len() && is_post_with(entries[i], id) && (forall|j: int|
                0 <= j < i ==> !is_post_with(#[trigger] entries[j], id)),
            None => forall|j: int|
                0 <= j < entries.len() ==> !is_post_with(#[trigger] entries[j], id),
        },
    decreases entries.len(),
{
    if entries.len() > 0 && !is_post_with(entries[0], id) {
        let d = entries.drop_first();
        lemma_find_post_char(d, id);
        match find_post(d, id) {
            Some(i) => {
                assert(entries[i + 1] == d[i]);
                assert forall|j: int| 0 <= j < i + 1 implies !is_post_with(
                    #[trigger] entries[j],
                    id,
                ) by {
                    if j >= 1 {
                        assert(entries[j] == d[j - 1]);
                        assert(!is_post_with(d[j - 1], id));
                    }
                };
            },
            None => {
                assert forall|j: int| 0 <= j < entries.len() implies !is_post_with(
                    #[trigger] entries[j],
                    id,
                ) by {
                    if j >= 1 {
                        assert(entries[j] == d[j - 1]);
                        assert(!is_post_with(d[j - 1], id));
                    }
                };
            },
        }
    }
}

/// Relies on str's PartialEq: two string slices are equal exactly when their
/// character sequences are.
#[verifier::external_body]
pub(crate) fn str_eq(a: &str, b: &str) -> (r: bool)
    ensures
        r == (a@ == b@),
{
    a == b
}

/// The first user entry with the id, by linear scan.
fn find_user_idx(entries: &Vec<MotionEntry>, id: &str) -> (r: Option<usize>)
    ensures
        match r {
            Some(i) => find_user(entries.deep_view(), id@) == Some(i as int),
            None => find_user(entries.deep_view(), id@) is None,
        },
{
    let ghost ev = entries.deep_view();
    proof {
        lemma_find_user_char(ev, id@);
    }
    let mut i: usize = 0;
    while i < entries.len()
        invariant
            ev == entries.deep_view(),
            ev.len() == entries@.len(),
            i <= entries@.len(),
            forall|j: int| 0 <= j < i as int ==> !is_user_with(#[trigger] ev[j], id@),
        decreases entries@.len() - i,
    {
        let hit = match &entries[i] {
            MotionEntry::User(u) => str_eq(u.id.as_str(), id),
            MotionEntry::Post(_) => false,
        };
        if hit {
            proof {
                lemma_find_user_char(ev, id@);
                assert(is_user_with(ev[i as int], id@));
                match find_user(ev, id@) {
                    Some(k) => {
                        assert(!(k < (i as int)));
                        assert(!((i as int) < k));
                    },
                    None => {
                        assert(false);
                    },
                }
            }
            return Some(i);
        }
        proof {
            assert(!is_user_with(ev[i as int], id@));
        }
        i = i + 1;
    }
    proof {
        lemma_find_user_char(ev, id@);
        if let Some(k) = find_user(ev, id@) {
            assert(false);
        }
    }
    None
}

/// The first post entry with the id, by linear scan.
fn find_post_idx(entries: &Vec<MotionEntry>, id: &str) -> (r: Option<usize>)
    ensures
        match r {
            Some(i) => find_post(entries.deep_view(), id@) == Some(i as int),
            None => find_post(entries.deep_view(), id@) is None,
        },
{
    let ghost ev = entries.deep_view();
    proof {
        lemma_find_post_char(ev, id@);
    }
    let mut i: usize = 0;
    while i < entries.len()
        invariant
            ev == entries.deep_view(),
            ev.len() == entries@.len(),
            i <= entries@.len(),
            forall|j: int| 0 <= j < i as int ==> !is_post_with(#[trigger] ev[j], id@),
        decreases entries@.len() - i,
    {
        let hit = match &entries[i] {
            MotionEntry::Post(p) => str_eq(p.id.as_str(), id),
            MotionEntry::User(_) => false,
        };
        if hit {
            proof {
                lemma_find_post_char(ev, id@);
                assert(is_post_with(ev[i as int], id@));
                match find_post(ev, id@) {
                    Some(k) => {
                        assert(!(k < (i as int)));
                        assert(!((i as int) < k));
                    },
                    None => {
                        assert(false);
                    },
                }
            }
            return Some(i);
        }
        proof {
            assert(!is_post_with(ev[i as int], id@));
        }
        i = i + 1;
    }
    proof {
        lemma_find_post_char(ev, id@);
        if let Some(k) = find_post(ev, id@) {
            assert(false);
        }
    }
    None
}

/// The outcome of one applied interaction.
#[derive(Debug, Clone)]
pub struct InteractionResult {
    pub src_id: String,
    pub dst_id: String,
    pub weight: i64,
    pub similarity: i64,
}

/// The model of an interaction outcome.
pub ghost struct ResultModel {
    pub src: Seq<char>,
    pub dst: Seq<char>,
    pub weight: int,
    pub similarity: int,
}

impl View for InteractionResult {
    type V = ResultModel;

    open spec fn view(&self) -> ResultModel {
        ResultModel {
            src: self.src_id@,
            dst: self.dst_id@,
            weight: self.weight as int,
            similarity: self.similarity as int,
        }
    }
}

/// An event the space emits while processing inputs.
#[derive(Debug, Clone)]
pub enum MotionOutput {
    Entered(MotionEntry),
    Updated(MotionEntry),
    InteractionApplied(InteractionResult),
}

/// The model of an emitted event.
pub ghost enum OutputModel {
    Entered(EntryModel),
    Updated(EntryModel),
    InteractionApplied(ResultModel),
}

impl View for MotionOutput {
    type V = OutputModel;

    open spec fn view(&self) -> OutputModel {
        match self {
            MotionOutput::Entered(e) => OutputModel::Entered(e@),
            MotionOutput::Updated(e) => OutputModel::Updated(e@),
            MotionOutput::InteractionApplied(r) => OutputModel::InteractionApplied(r@),
        }
    }
}

impl DeepView for MotionOutput {
    type V = OutputModel;

    open spec fn deep_view(&self) -> OutputModel {
        self.view()
    }
}

/// The motion space: its dimension, the entries in insertion order, and the
/// active kernel.
#[derive(Debug, Clone)]
pub struct MotionSpace {
    pub dim: usize,
    pub entries: Vec<MotionEntry>,
    pub kernel: Kernel,
}

/// The model of the space.
pub ghost struct SpaceModel {
    pub dim: nat,
    pub kernel: Kernel,
    pub entries: Seq<EntryModel>,
}

impl View for MotionSpace {
    type V = SpaceModel;

    open spec fn view(&self) -> SpaceModel {
        SpaceModel { dim: self.dim as nat, kernel: self.kernel, entries: self.entries.deep_view() }
    }
}

impl MotionSpace {
    /// Every entry is well-formed.
    pub open spec fn wf(&self) -> bool {
        forall|i: int|
            0 <= i < self.entries@.len() ==> (#[trigger] self.entries@[i]).wf()
    }

    /// A fresh space of the given dimension with the default RBF kernel
    /// (bandwidth two units).
    pub fn new(dim: usize) -> (r: MotionSpace)
        ensures
            r.wf(),
            r@.dim == dim as nat,
            r@.entries.len() == 0,
            r@.kernel == (Kernel::RBF { gamma: 2_000_000i64 }),
    {
        let r = MotionSpace { dim, entries: Vec::new(), kernel: Kernel::RBF { gamma: 2_000_000 } };
        proof {
            assert(r@.entries =~= Seq::<EntryModel>::empty());
        }
        r
    }

    /// Append an entry; no uniqueness check.
    pub fn enter(&mut self, entry: MotionEntry)
        requires
            old(self).wf(),
            entry.wf(),
        ensures
            final(self).wf(),
            final(self)@.entries == old(self)@.entries.push(entry@),
            final(self)@.dim == old(self)@.dim,
            final(self)@.kernel == old(self)@.kernel,
    {
        self.entries.push(entry);
        proof {
            assert(self@.entries =~= old(self)@.entries.push(entry@));
        }
    }
}

/// Half of a fixed-point value, rounded toward zero.
pub open spec fn spec_half(w: int) -> int {
    if w >= 0 {
        w / 2
    } else {
        -((-w) / 2)
    }
}

/// The exponent for the weight: `alpha * similarity`, brought back to
/// micro-units and clamped.
pub open spec fn spec_weight_arg(alpha: i64, sim: int) -> int {
    if alpha >= 0 {
        spec_clamp_arg((alpha * sim) / 1_000_000)
    } else {
        spec_clamp_arg(-(((-alpha) * sim) / 1_000_000))
    }
}

/// The blend weight of an interaction: `1 - exp(-alpha * similarity)` in
/// fixed point. Non-negative and below one unit whenever `alpha` is
/// non-negative; saturates toward one unit as the exponent grows.
pub open spec fn spec_weight(alpha: i64, sim: int) -> int {
    1_000_000 - spec_exp_neg(spec_weight_arg(alpha, sim))
}

/// The range of the weight.
pub proof fn lemma_weight_range(alpha: i64, sim: int)
    requires
        1 <= sim <= 1_000_000_000_000,
    ensures
        -999_999_000_000 <= spec_weight(alpha, sim) <= 999_999,
        alpha >= 0 ==> 0 <= spec_weight(alpha, sim),
{
    let arg = spec_weight_arg(alpha, sim);
    lemma_exp_neg_range(arg);
    if alpha >= 0 {
        assert(alpha * sim >= 0) by (nonlinear_arith)
            requires
                alpha >= 0,
                sim >= 0,
        ;
        vstd::arithmetic::div_mod::lemma_div_pos_is_pos(alpha * sim, 1_000_000);
    }
}

/// Clamp a blended component into the coordinate range.
pub open spec fn spec_sat_coord(v: int) -> i64 {
    if v > COORD_LIMIT {
        COORD_LIMIT
    } else if v < -(COORD_LIMIT as int) {
        (-(COORD_LIMIT as int)) as i64
    } else {
        v as i64
    }
}

/// One blended component: `a * (1 - w) + b * w` in fixed point, rounded
/// toward zero and clamped.
pub open spec fn spec_blend_comp(a: i64, b: i64, w: int) -> i64 {
    let num = a * (1_000_000 - w) + b * w;
    spec_sat_coord(
        if num >= 0 {
            num / 1_000_000
        } else {
            -((-num) / 1_000_000)
        },
    )
}

/// The blend of two equal-length vectors at the given weight.
pub open spec fn spec_blend(a: Seq<i64>, b: Seq<i64>, w: int) -> Seq<i64> {
    Seq::new(a.len(), |i: int| spec_blend_comp(a[i], b[i], w))
}

/// The decayed motion: keep 98 of 100 parts and add the gained weight,
/// clamped into `[0, MOTION_LIMIT]`.
pub open spec fn spec_motion_next(m: int, gain_w: int) -> int {
    let v = (m * 98) / 100 + gain_w;
    if v < 0 {
        0
    } else if v > MOTION_LIMIT {
        MOTION_LIMIT as int
    } else {
        v
    }
}

/// The blend weight, executable.
fn weight(alpha: i64, sim: i64) -> (r: i64)
    requires
        1 <= sim <= 1_000_000_000_000,
    ensures
        r as int == spec_weight(alpha, sim as int),
        -999_999_000_000 <= r <= 999_999,
        alpha >= 0 ==> r >= 0,
{
    proof {
        lemma_weight_range(alpha, sim as int);
    }
    let (neg, am) = if alpha >= 0 {
        (false, alpha as i128)
    } else {
        (true, -(alpha as i128))
    };
    proof {
        assert(0 <= (am as int) * (sim as int) <= 0x8000_0000_0000_0000 * 1_000_000_000_000)
            by (nonlinear_arith)
            requires
                0 <= am as int <= 0x8000_0000_0000_0000,
                1 <= sim as int <= 1_000_000_000_000,
        ;
    }
    let p: i128 = am * (sim as i128);
    proof {
        vstd::arithmetic::div_mod::lemma_div_pos_is_pos(p as int, 1_000_000);
        vstd::arithmetic::div_mod::lemma_div_is_ordered(
            0,
            p as int,
            1_000_000,
        );
    }
    let v: i128 = ((p as u128) / 1_000_000u128) as i128;
    let mag: i64 = if v >= 8_000_000 {
        8_000_000
    } else {
        v as i64
    };
    let arg: i64 = if neg {
        -mag
    } else {
        mag
    };
    proof {
        assert(arg as int == spec_weight_arg(alpha, sim as int));
    }
    let e = crate::exponential::exp_neg(arg);
    1_000_000 - e
}

/// The blend of two equal-length component slices, executable.
fn blend(a: &[i64], b: &[i64], w: i64) -> (r: Vec<i64>)
    requires
        crate::math::comps_ok(a@),
        crate::math::comps_ok(b@),
        a@.len() == b@.len(),
        -999_999_000_000 <= w <= 999_999,
    ensures
        r@ == spec_blend(a@, b@, w as int),
        crate::math::comps_ok(r@),
        r@.len() == a@.len(),
{
    let mut out: Vec<i64> = Vec::new();
    let mut i: usize = 0;
    while i < a.len()
        invariant
            crate::math::comps_ok(a@),
            crate::math::comps_ok(b@),
            a@.len() == b@.len(),
            -999_999_000_000 <= w <= 999_999,
            i <= a@.len(),
            out@.len() == i as int,
            forall|j: int| 0 <= j < i as int ==> out@[j] == spec_blend_comp(a@[j], b@[j], w as int),
            crate::math::comps_ok(out@),
        decreases a@.len() - i,
    {
        let av = a[i];
        let bv = b[i];
        proof {
            assert(-1_100_000_000_000_000_000_000_000 <= (av as int) * (1_000_000 - w as int)
                <= 1_100_000_000_000_000_000_000_000) by (nonlinear_arith)
                requires
                    -COORD_LIMIT <= av <= COORD_LIMIT,
                    -999_999_000_000 <= w <= 999_999,
            ;
            assert(-1_100_000_000_000_000_000_000_000 <= (bv as int) * (w as int)
                <= 1_100_000_000_000_000_000_000_000) by (nonlinear_arith)
                requires
                    -COORD_LIMIT <= bv <= COORD_LIMIT,
                    -999_999_000_000 <= w <= 999_999,
            ;
        }
        let num: i128 = (av as i128) * (1_000_000i128 - (w as i128)) + (bv as i128) * (w as i128);
        let q: i128 = if num >= 0 {
            proof {
                vstd::arithmetic::div_mod::lemma_div_pos_is_pos(num as int, 1_000_000);
                vstd::arithmetic::div_mod::lemma_div_is_ordered(
                    num as int,
                    2_200_000_000_000_000_000_000_000,
                    1_000_000,
                );
                assert(num as int <= 2_200_000_000_000_000_000_000_000);
            }
            ((num as u128) / 1_000_000u128) as i128
        } else {
            proof {
                vstd::arithmetic::div_mod::lemma_div_pos_is_pos(-num as int, 1_000_000);
                vstd::arithmetic::div_mod::lemma_div_is_ordered(
                    -num as int,
                    2_200_000_000_000_000_000_000_000,
                    1_000_000,
                );
                assert(-num as int <= 2_200_000_000_000_000_000_000_000);
            }
            -((((-num) as u128) / 1_000_000u128) as i128)
        };
        let c: i64 = if q > COORD_LIMIT as i128 {
            COORD_LIMIT
        } else if q < -(COORD_LIMIT as i128) {
            -COORD_LIMIT
        } else {
            q as i64
        };
        proof {
            assert(out@.push(c)[i as int] == c);
        }
        out.push(c);
        i = i + 1;
    }
    proof {
        assert(out@ =~= spec_blend(a@, b@, w as int));
    }
    out
}

/// The decayed motion, executable.
fn motion_next(m: i64, gain_w: i64) -> (r: i64)
    requires
        0 <= m <= MOTION_LIMIT,
        -1_000_000_000_000 <= gain_w <= 1_000_000_000_000,
    ensures
        r as int == spec_motion_next(m as int, gain_w as int),
        0 <= r <= MOTION_LIMIT,
{
    proof {
        vstd::arithmetic::div_mod::lemma_div_pos_is_pos(m as int * 98, 100);
        vstd::arithmetic::div_mod::lemma_div_is_ordered(
            m as int * 98,
            98_000_000_000_000_000,
            100,
        );
        assert(0 <= m as int * 98 <= 98_000_000_000_000_000) by (nonlinear_arith)
            requires
                0 <= m <= MOTION_LIMIT,
        ;
    }
    let kept: i64 = (((m as u64) * 98) / 100) as i64;
    let v: i64 = kept + gain_w;
    if v < 0 {
        0
    } else if v > MOTION_LIMIT {
        MOTION_LIMIT
    } else {
        v
    }
}

/// The coordinate of a model user entry.
pub open spec fn user_coord(e: EntryModel) -> Option<Seq<i64>> {
    match e {
        EntryModel::User { coord, .. } => coord,
        EntryModel::Post { .. } => None,
    }
}

/// The motion of a model user entry.
pub open spec fn user_motion(e: EntryModel) -> int {
    match e {
        EntryModel::User { motion, .. } => motion,
        EntryModel::Post { .. } => 0,
    }
}

/// The coordinate of a model post entry.
pub open spec fn post_coord(e: EntryModel) -> Seq<i64> {
    match e {
        EntryModel::Post { coord, .. } => coord,
        EntryModel::User { .. } => Seq::empty(),
    }
}

/// What a Post-to-User interaction does to the space, and what it returns.
/// The post is read-only source data; a missing user is created fresh, and a
/// user without a coordinate is seeded with the post's; the user's
/// coordinate moves toward the post's by the blend weight and its motion
/// decays and gains the weight.
pub open spec fn spec_post_to_user(
    s: SpaceModel,
    user_id: Seq<char>,
    post_id: Seq<char>,
    alpha: i64,
) -> (SpaceModel, Result<ResultModel, ErrorModel>) {
    match find_post(s.entries, post_id) {
        None => (s, Err(ErrorModel::PostNotFound(post_id))),
        Some(pi) => {
            let pcoord = post_coord(s.entries[pi]);
            let found = find_user(s.entries, user_id);
            let entries1 = if found is Some {
                s.entries
            } else {
                s.entries.push(EntryModel::User { id: user_id, coord: None, motion: 0 })
            };
            let ui = match found {
                Some(i) => i,
                None => s.entries.len() as int,
            };
            let ucoord = match user_coord(entries1[ui]) {
                Some(c) => c,
                None => pcoord,
            };
            let umotion = user_motion(entries1[ui]);
            if ucoord.len() != pcoord.len() {
                (
                    SpaceModel { entries: entries1, ..s },
                    Err(
                        ErrorModel::Math(
                            MathError::DimensionMismatch {
                                left: ucoord.len() as usize,
                                right: pcoord.len() as usize,
                            },
                        ),
                    ),
                )
            } else {
                let sim = spec_kernel_apply(s.kernel, ucoord, pcoord);
                let w = spec_weight(alpha, sim);
                let ne = EntryModel::User {
                    id: user_id,
                    coord: Some(spec_blend(ucoord, pcoord, w)),
                    motion: spec_motion_next(umotion, w),
                };
                (
                    SpaceModel { entries: entries1.update(ui, ne), ..s },
                    Ok(ResultModel { src: post_id, dst: user_id, weight: w, similarity: sim }),
                )
            }
        },
    }
}

impl MotionSpace {
    /// Apply a Post-to-User interaction: locate the post (fault if absent),
    /// locate or create the user, seed a missing user coordinate from the
    /// post, then blend, renormalize best-effort, and decay-and-gain the
    /// motion. Exactly `spec_post_to_user` on the model.
    pub fn apply_post_to_user(&mut self, user_id: &str, post_id: &str, alpha: i64) -> (r: Result<
        InteractionResult,
        CoreError,
    >)
        requires
            old(self).wf(),
        ensures
            final(self).wf(),
            final(self)@ == spec_post_to_user(old(self)@, user_id@, post_id@, alpha).0,
            match (r, spec_post_to_user(old(self)@, user_id@, post_id@, alpha).1) {
                (Ok(ir), Ok(irm)) => ir@ == irm,
                (Err(e), Err(em)) => e@ == em,
                _ => false,
            },
    {
        let ghost s0 = self@;
        let post_idx = match find_post_idx(&self.entries, post_id) {
            Some(i) => i,
            None => {
                return Err(CoreError::PostNotFound { post_id: post_id.to_owned() });
            },
        };
        proof {
            lemma_find_post_char(s0.entries, post_id@);
        }
        let pdata: Vec<i64> = match &self.entries[post_idx] {
            MotionEntry::Post(p) => copy_comps(&p.coord.data),
            MotionEntry::User(_) => {
                proof {
                    assert(false);
                }
                Vec::new()
            },
        };
        let ghost pcoord = post_coord(s0.entries[post_idx as int]);
        let found_user = find_user_idx(&self.entries, user_id);
        let user_idx: usize = match found_user {
            Some(i) => i,
            None => {
                let nu = MotionUser::new(user_id, self.dim);
                let ghost pre = self@.entries;
                self.entries.push(MotionEntry::User(nu));
                proof {
                    assert(self@.entries =~= pre.push(
                        EntryModel::User { id: user_id@, coord: None, motion: 0 },
                    ));
                    assert forall|i: int|
                        0 <= i < self.entries@.len() implies (
                    #[trigger] self.entries@[i]).wf() by {
                        if i < pre.len() {
                            assert(self.entries@[i] == old(self).entries@[i]);
                        }
                    };
                }
                self.entries.len() - 1
            },
        };
        let ghost entries1 = self@.entries;
        proof {
            lemma_find_user_char(s0.entries, user_id@);
            assert(is_user_with(entries1[user_idx as int], user_id@));
        }
        let (udata, umotion, uid2): (Vec<i64>, i64, String) = match &self.entries[user_idx] {
            MotionEntry::User(u) => {
                let idc = u.id.clone();
                match &u.coord {
                    Some(c) => (copy_comps(&c.data), u.motion, idc),
                    None => (copy_comps(&pdata), u.motion, idc),
                }
            },
            MotionEntry::Post(_) => {
                proof {
                    assert(false);
                }
                (Vec::new(), 0, String::new())
            },
        };
        let ghost ucoord = match user_coord(entries1[user_idx as int]) {
            Some(c) => c,
            None => pcoord,
        };
        proof {
            assert(udata@ == ucoord);
            assert(umotion as int == user_motion(entries1[user_idx as int]));
            assert(self.entries@[user_idx as int].wf());
            assert(self.entries@[post_idx as int].wf());
        }
        let sim = match self.kernel.apply(udata.as_slice(), pdata.as_slice()) {
            Ok(sv) => sv,
            Err(e) => {
                return Err(CoreError::Math(e));
            },
        };
        let w = weight(alpha, sim);
        let bdata = blend(udata.as_slice(), pdata.as_slice(), w);
        proof {
            assert(coords_ok(bdata@));
        }
        let mut ncoord = VecN::new(bdata);
        let _renorm = ncoord.normalize();
        let nm = motion_next(umotion, w);
        let nu = MotionUser { id: uid2, coord: Some(ncoord), motion: nm };
        let ghost ne = MotionEntry::User(nu)@;
        self.entries.set(user_idx, MotionEntry::User(nu));
        proof {
            assert(self@.entries =~= entries1.update(user_idx as int, ne));
            let target = spec_post_to_user(s0, user_id@, post_id@, alpha).0;
            assert(self@.entries =~= target.entries);
            assert forall|i: int|
                0 <= i < self.entries@.len() implies (#[trigger] self.entries@[i]).wf() by {
                if i != user_idx as int {
                    assert(self.entries@[i] == old(self).entries@[i]);
                }
            };
        }
        Ok(
            InteractionResult {
                src_id: post_id.to_owned(),
                dst_id: user_id.to_owned(),
                weight: w,
                similarity: sim,
            },
        )
    }
}

/// What a User-to-User interaction does to the space, and what it returns.
/// Both users must exist and both must already hold a coordinate; they pull
/// each other symmetrically by half the blend weight, and the motion gains
/// the full weight for the target but only half for the actor.
pub open spec fn spec_user_to_user(
    s: SpaceModel,
    actor_id: Seq<char>,
    target_id: Seq<char>,
    alpha: i64,
) -> (SpaceModel, Result<ResultModel, ErrorModel>) {
    match find_user(s.entries, actor_id) {
        None => (s, Err(ErrorModel::UserNotFound(actor_id))),
        Some(ai) => match find_user(s.entries, target_id) {
            None => (s, Err(ErrorModel::UserNotFound(target_id))),
            Some(ti) => match user_coord(s.entries[ai]) {
                None => (s, Err(ErrorModel::CoordNotLoaded(actor_id))),
                Some(acoord) => match user_coord(s.entries[ti]) {
                    None => (s, Err(ErrorModel::CoordNotLoaded(target_id))),
                    Some(tcoord) => {
                        if acoord.len() != tcoord.len() {
                            (
                                s,
                                Err(
                                    ErrorModel::Math(
                                        MathError::DimensionMismatch {
                                            left: acoord.len() as usize,
                                            right: tcoord.len() as usize,
                                        },
                                    ),
                                ),
                            )
                        } else {
                            let sim = spec_kernel_apply(s.kernel, acoord, tcoord);
                            let w = spec_weight(alpha, sim);
                            let step = spec_half(w);
                            let nt = EntryModel::User {
                                id: target_id,
                                coord: Some(spec_blend(tcoord, acoord, step)),
                                motion: spec_motion_next(user_motion(s.entries[ti]), w),
                            };
                            let na = EntryModel::User {
                                id: actor_id,
                                coord: Some(spec_blend(acoord, tcoord, step)),
                                motion: spec_motion_next(
                                    user_motion(s.entries[ai]),
                                    spec_half(w),
                                ),
                            };
                            (
                                SpaceModel { entries: s.entries.update(ti, nt).update(ai, na), ..s },
                                Ok(
                                    ResultModel {
                                        src: actor_id,
                                        dst: target_id,
                                        weight: w,
                                        similarity: sim,
                                    },
                                ),
                            )
                        }
                    },
                },
            },
        },
    }
}

/// Half of a fixed-point value, executable.
fn half(w: i64) -> (r: i64)
    requires
        -999_999_000_000 <= w <= 999_999,
    ensures
        r as int == spec_half(w as int),
        -499_999_500_000 <= r <= 499_999,
{
    proof {
        if w >= 0 {
            vstd::arithmetic::div_mod::lemma_div_pos_is_pos(w as int, 2);
            vstd::arithmetic::div_mod::lemma_div_is_ordered(w as int, 999_999, 2);
        } else {
            vstd::arithmetic::div_mod::lemma_div_pos_is_pos(-(w as int), 2);
            vstd::arithmetic::div_mod::lemma_div_is_ordered(-(w as int), 999_999_000_000, 2);
        }
    }
    if w >= 0 {
        ((w as u64) / 2) as i64
    } else {
        -((((-w) as u64) / 2) as i64)
    }
}

impl MotionSpace {
    /// Apply a User-to-User interaction: locate both users (fault if either
    /// is missing or has no coordinate yet), then pull each toward the other
    /// by half the blend weight, renormalize best-effort, and decay the
    /// motions with asymmetric gains. Exactly `spec_user_to_user` on the
    /// model.
    pub fn apply_user_to_user(&mut self, actor_id: &str, target_id: &str, alpha: i64) -> (r:
        Result<InteractionResult, CoreError>)
        requires
            old(self).wf(),
        ensures
            final(self).wf(),
            final(self)@ == spec_user_to_user(old(self)@, actor_id@, target_id@, alpha).0,
            match (r, spec_user_to_user(old(self)@, actor_id@, target_id@, alpha).1) {
                (Ok(ir), Ok(irm)) => ir@ == irm,
                (Err(e), Err(em)) => e@ == em,
                _ => false,
            },
    {
        let ghost s0 = self@;
        let actor_idx = match find_user_idx(&self.entries, actor_id) {
            Some(i) => i,
            None => {
                return Err(CoreError::UserNotFound { user_id: actor_id.to_owned() });
            },
        };
        let target_idx = match find_user_idx(&self.entries, target_id) {
            Some(i) => i,
            None => {
                return Err(CoreError::UserNotFound { user_id: target_id.to_owned() });
            },
        };
        proof {
            lemma_find_user_char(s0.entries, actor_id@);
            lemma_find_user_char(s0.entries, target_id@);
        }
        let (adata, amotion, aid2): (Vec<i64>, i64, String) = match &self.entries[actor_idx] {
            MotionEntry::User(u) => {
                let idc = u.id.clone();
                match &u.coord {
                    Some(c) => (copy_comps(&c.data), u.motion, idc),
                    None => {
                        return Err(CoreError::CoordNotLoaded { user_id: actor_id.to_owned() });
                    },
                }
            },
            MotionEntry::Post(_) => {
                proof {
                    assert(false);
                }
                (Vec::new(), 0, String::new())
            },
        };
        let (tdata, tmotion, tid2): (Vec<i64>, i64, String) = match &self.entries[target_idx] {
            MotionEntry::User(u) => {
                let idc = u.id.clone();
                match &u.coord {
                    Some(c) => (copy_comps(&c.data), u.motion, idc),
                    None => {
                        return Err(CoreError::CoordNotLoaded { user_id: target_id.to_owned() });
                    },
                }
            },
            MotionEntry::Post(_) => {
                proof {
                    assert(false);
                }
                (Vec::new(), 0, String::new())
            },
        };
        proof {
            assert(self.entries@[actor_idx as int].wf());
            assert(self.entries@[target_idx as int].wf());
        }
        let sim = match self.kernel.apply(adata.as_slice(), tdata.as_slice()) {
            Ok(sv) => sv,
            Err(e) => {
                return Err(CoreError::Math(e));
            },
        };
        let w = weight(alpha, sim);
        let step = half(w);
        let nadata = blend(adata.as_slice(), tdata.as_slice(), step);
        let ntdata = blend(tdata.as_slice(), adata.as_slice(), step);
        let mut nacoord = VecN::new(nadata);
        let _renorm_a = nacoord.normalize();
        let mut ntcoord = VecN::new(ntdata);
        let _renorm_t = ntcoord.normalize();
        let nmt = motion_next(tmotion, w);
        let nma = motion_next(amotion, step);
        let ghost entries0 = self@.entries;
        let nt = MotionUser { id: tid2, coord: Some(ntcoord), motion: nmt };
        let ghost ntm = MotionEntry::User(nt)@;
        self.entries.set(target_idx, MotionEntry::User(nt));
        let na = MotionUser { id: aid2, coord: Some(nacoord), motion: nma };
        let ghost nam = MotionEntry::User(na)@;
        self.entries.set(actor_idx, MotionEntry::User(na));
        proof {
            assert(self@.entries =~= entries0.update(target_idx as int, ntm).update(
                actor_idx as int,
                nam,
            ));
            let target = spec_user_to_user(s0, actor_id@, target_id@, alpha).0;
            assert(self@.entries =~= target.entries);
            assert forall|i: int|
                0 <= i < self.entries@.len() implies (#[trigger] self.entries@[i]).wf() by {
                if i != actor_idx as int && i != target_idx as int {
                    assert(self.entries@[i] == old(self).entries@[i]);
                }
            };
        }
        Ok(
            InteractionResult {
                src_id: actor_id.to_owned(),
                dst_id: target_id.to_owned(),
                weight: w,
                similarity: sim,
            },
        )
    }
}

/// A fresh vector with the same components (caches not carried over).
fn copy_vecn(v: &VecN) -> (r: VecN)
    requires
        v.wf(),
    ensures
        r.wf(),
        r.data@ == v.data@,
{
    VecN::new(copy_comps(&v.data))
}

/// A fresh entry with the same model: same id, components and motion.
fn copy_entry(e: &MotionEntry) -> (r: MotionEntry)
    requires
        e.wf(),
    ensures
        r.wf(),
        r@ == e@,
{
    match e {
        MotionEntry::User(u) => {
            let coord = match &u.coord {
                Some(c) => Some(copy_vecn(c)),
                None => None,
            };
            MotionEntry::User(MotionUser { id: u.id.clone(), coord, motion: u.motion })
        },
        MotionEntry::Post(p) => {
            let mut feats: Vec<VecN> = Vec::new();
            let mut i: usize = 0;
            while i < p.features.len()
                invariant
                    e is Post,
                    e matches MotionEntry::Post(pp) && pp == p,
                    p.features@.len() >= i,
                    (forall|k: int|
                        0 <= k < p.features@.len() ==> (#[trigger] p.features@[k]).wf()),
                    feats@.len() == i as int,
                    forall|k: int|
                        0 <= k < i as int ==> (#[trigger] feats@[k]).data@ == p.features@[k].data@
                            && feats@[k].wf(),
                decreases p.features@.len() - i,
            {
                let f = copy_vecn(&p.features[i]);
                feats.push(f);
                i = i + 1;
            }
            let r = MotionEntry::Post(
                MotionPost { id: p.id.clone(), coord: copy_vecn(&p.coord), features: feats },
            );
            proof {
                assert(Seq::new(feats@.len(), |i: int| feats@[i].data@) =~= Seq::new(
                    p.features@.len(),
                    |i: int| p.features@[i].data@,
                ));
            }
            r
        },
    }
}

/// What an interaction does, routed by its tag: a Post-to-User interaction
/// reads the source as the post and the destination as the user.
pub open spec fn spec_apply_interaction(s: SpaceModel, im: InteractionModel) -> (
    SpaceModel,
    Result<ResultModel, ErrorModel>,
) {
    match im.kind {
        InteractionType::PostToUser => spec_post_to_user(s, im.dst, im.src, im.alpha),
        InteractionType::UserToUser => spec_user_to_user(s, im.src, im.dst, im.alpha),
    }
}

/// What processing one input event does: the new space, the emitted outputs
/// in order, and the fault that stopped it, if one did.
pub open spec fn spec_step(s: SpaceModel, im: InputModel) -> (
    SpaceModel,
    Seq<OutputModel>,
    Option<ErrorModel>,
) {
    match im {
        InputModel::User(uid) => {
            let ue = EntryModel::User { id: uid, coord: None, motion: 0 };
            (
                SpaceModel { entries: s.entries.push(ue), ..s },
                seq![OutputModel::Entered(ue)],
                None,
            )
        },
        InputModel::Post { id, user_id, text } => {
            let pe = EntryModel::Post {
                id,
                coord: spec_embed_raw(text, EMBEDDING_DIM as int),
                features: Seq::empty(),
            };
            let s1 = SpaceModel { entries: s.entries.push(pe), ..s };
            let out0 = seq![OutputModel::Entered(pe)];
            let ue = EntryModel::User { id: user_id, coord: None, motion: 0 };
            let known = find_user(s1.entries, user_id) is Some;
            let s2 = if known {
                s1
            } else {
                SpaceModel { entries: s1.entries.push(ue), ..s1 }
            };
            let out1 = if known {
                out0
            } else {
                out0.push(OutputModel::Entered(ue))
            };
            let stepped = spec_post_to_user(s2, user_id, id, 500_000i64);
            match stepped.1 {
                Ok(ir) => (stepped.0, out1.push(OutputModel::InteractionApplied(ir)), None),
                Err(e) => (stepped.0, out1, Some(e)),
            }
        },
        InputModel::Interaction(act) => {
            let stepped = spec_apply_interaction(s, act);
            match stepped.1 {
                Ok(ir) => (stepped.0, seq![OutputModel::InteractionApplied(ir)], None),
                Err(e) => (stepped.0, Seq::empty(), Some(e)),
            }
        },
    }
}

/// What processing a whole input sequence does: inputs are taken in arrival
/// order, their outputs are concatenated in emission order, and the first
/// fault stops the run.
pub open spec fn spec_run(s: SpaceModel, inputs: Seq<InputModel>) -> (
    SpaceModel,
    Seq<OutputModel>,
    Option<ErrorModel>,
)
    decreases inputs.len(),
{
    if inputs.len() == 0 {
        (s, Seq::empty(), None)
    } else {
        let stepped = spec_step(s, inputs[0]);
        if stepped.2 is Some {
            stepped
        } else {
            let rest = spec_run(stepped.0, inputs.drop_first());
            (rest.0, stepped.1 + rest.1, rest.2)
        }
    }
}

impl MotionSpace {
    /// Route an interaction to its update rule by tag; any fault aborts this
    /// single interaction and propagates. Exactly `spec_apply_interaction` on
    /// the model.
    pub fn apply_interaction(&mut self, interaction: &Interaction) -> (r: Result<
        InteractionResult,
        CoreError,
    >)
        requires
            old(self).wf(),
        ensures
            final(self).wf(),
            final(self)@ == spec_apply_interaction(old(self)@, interaction@).0,
            match (r, spec_apply_interaction(old(self)@, interaction@).1) {
                (Ok(ir), Ok(irm)) => ir@ == irm,
                (Err(e), Err(em)) => e@ == em,
                _ => false,
            },
    {
        match interaction.interaction_type {
            InteractionType::PostToUser => self.apply_post_to_user(
                interaction.dst_id.as_str(),
                interaction.src_id.as_str(),
                interaction.alpha,
            ),
            InteractionType::UserToUser => self.apply_user_to_user(
                interaction.src_id.as_str(),
                interaction.dst_id.as_str(),
                interaction.alpha,
            ),
        }
    }

    /// Process one input event: create entries, apply the synthesized or
    /// requested interaction, and return the emitted outputs in order
    /// together with the fault that stopped processing, if one did. Exactly
    /// `spec_step` on the model.
    pub fn process_input(&mut self, input: &MotionInput) -> (r: (
        Vec<MotionOutput>,
        Result<(), CoreError>,
    ))
        requires
            old(self).wf(),
        ensures
            final(self).wf(),
            final(self)@ == spec_step(old(self)@, input@).0,
            r.0.deep_view() == spec_step(old(self)@, input@).1,
            match (r.1, spec_step(old(self)@, input@).2) {
                (Ok(_), None) => true,
                (Err(e), Some(em)) => e@ == em,
                _ => false,
            },
    {
        let ghost s0 = self@;
        match input {
            MotionInput::User(user) => {
                let mu = MotionUser::new(user.id.as_str(), self.dim);
                let entry = MotionEntry::User(mu);
                let out_entry = copy_entry(&entry);
                self.enter(entry);
                let mut outs: Vec<MotionOutput> = Vec::new();
                outs.push(MotionOutput::Entered(out_entry));
                proof {
                    assert(outs.deep_view() =~= spec_step(s0, input@).1);
                }
                (outs, Ok(()))
            },
            MotionInput::Post(post) => {
                let emb = embed_post(post.text.as_str());
                let mp = MotionPost::new(post.id.clone(), emb);
                let entry = MotionEntry::Post(mp);
                let out_entry = copy_entry(&entry);
                proof {
                    assert(entry@ matches EntryModel::Post { features: fs, .. } && fs
                        =~= Seq::<Seq<i64>>::empty());
                    assert(out_entry@ == EntryModel::Post {
                        id: post.id@,
                        coord: spec_embed_raw(post.text@, EMBEDDING_DIM as int),
                        features: Seq::empty(),
                    });
                }
                self.enter(entry);
                let mut outs: Vec<MotionOutput> = Vec::new();
                outs.push(MotionOutput::Entered(out_entry));
                if find_user_idx(&self.entries, post.user_id.as_str()).is_none() {
                    let mu = MotionUser::new(post.user_id.as_str(), self.dim);
                    let ue = MotionEntry::User(mu);
                    let out_u = copy_entry(&ue);
                    self.enter(ue);
                    outs.push(MotionOutput::Entered(out_u));
                }
                match self.apply_post_to_user(post.user_id.as_str(), post.id.as_str(), 500_000) {
                    Ok(ir) => {
                        outs.push(MotionOutput::InteractionApplied(ir));
                        proof {
                            assert(outs.deep_view() =~= spec_step(s0, input@).1);
                        }
                        (outs, Ok(()))
                    },
                    Err(e) => {
                        proof {
                            assert(outs.deep_view() =~= spec_step(s0, input@).1);
                        }
                        (outs, Err(e))
                    },
                }
            },
            MotionInput::Interaction(inter) => {
                match self.apply_interaction(inter) {
                    Ok(ir) => {
                        let mut outs: Vec<MotionOutput> = Vec::new();
                        outs.push(MotionOutput::InteractionApplied(ir));
                        proof {
                            assert(outs.deep_view() =~= spec_step(s0, input@).1);
                        }
                        (outs, Ok(()))
                    },
                    Err(e) => {
                        let outs: Vec<MotionOutput> = Vec::new();
                        proof {
                            assert(outs.deep_view() =~= spec_step(s0, input@).1);
                        }
                        (outs, Err(e))
                    },
                }
            },
        }
    }
}

/// Splitting a run after an error-free prefix: the whole run is the prefix's
/// outputs followed by the run of the rest from the prefix's final state.
proof fn lemma_run_split(s: SpaceModel, inputs: Seq<InputModel>, k: int)
    requires
        0 <= k <= inputs.len(),
        spec_run(s, inputs.take(k)).2 is None,
    ensures
        ({
            let pre = spec_run(s, inputs.take(k));
            let rest = spec_run(pre.0, inputs.skip(k));
            spec_run(s, inputs) == (rest.0, pre.1 + rest.1, rest.2)
        }),
    decreases k,
{
    let pre = spec_run(s, inputs.take(k));
    let rest = spec_run(pre.0, inputs.skip(k));
    if k == 0 {
        assert(inputs.take(0) =~= Seq::<InputModel>::empty());
        assert(inputs.skip(0) =~= inputs);
        assert(pre.1 + rest.1 =~= rest.1);
    } else {
        let t = inputs.take(k);
        assert(t.len() == k);
        assert(t[0] == inputs[0]);
        let stepped = spec_step(s, inputs[0]);
        assert(t.drop_first() =~= inputs.drop_first().take(k - 1));
        assert(stepped.2 is None) by {
            if stepped.2 is Some {
                assert(spec_run(s, t) == stepped);
            }
        };
        let pre2 = spec_run(stepped.0, inputs.drop_first().take(k - 1));
        assert(pre == (pre2.0, stepped.1 + pre2.1, pre2.2));
        assert(pre2.2 is None);
        lemma_run_split(stepped.0, inputs.drop_first(), k - 1);
        assert(inputs.drop_first().skip(k - 1) =~= inputs.skip(k));
        let rest2 = spec_run(pre2.0, inputs.drop_first().skip(k - 1));
        assert(rest2 == rest);
        let full_rest = spec_run(stepped.0, inputs.drop_first());
        assert(full_rest == (rest2.0, pre2.1 + rest2.1, rest2.2));
        assert(spec_run(s, inputs) == (full_rest.0, stepped.1 + full_rest.1, full_rest.2));
        assert(stepped.1 + (pre2.1 + rest2.1) =~= (stepped.1 + pre2.1) + rest2.1);
    }
}

impl MotionSpace {
    /// Process a whole sequence of inputs in arrival order, stopping at the
    /// first fault; the outputs are concatenated in emission order. Exactly
    /// `spec_run` on the model.
    pub fn run_inputs(&mut self, inputs: &Vec<MotionInput>) -> (r: (
        Vec<MotionOutput>,
        Result<(), CoreError>,
    ))
        requires
            old(self).wf(),
        ensures
            final(self).wf(),
            final(self)@ == spec_run(old(self)@, inputs.deep_view()).0,
            r.0.deep_view() == spec_run(old(self)@, inputs.deep_view()).1,
            match (r.1, spec_run(old(self)@, inputs.deep_view()).2) {
                (Ok(_), None) => true,
                (Err(e), Some(em)) => e@ == em,
                _ => false,
            },
    {
        let ghost s0 = self@;
        let ghost dv = inputs.deep_view();
        let mut outs: Vec<MotionOutput> = Vec::new();
        let mut i: usize = 0;
        proof {
            assert(dv.take(0) =~= Seq::<InputModel>::empty());
            assert(outs.deep_view() =~= Seq::<OutputModel>::empty());
        }
        while i < inputs.len()
            invariant
                self.wf(),
                s0 == old(self)@,
                dv == inputs.deep_view(),
                dv.len() == inputs@.len(),
                i <= inputs@.len(),
                spec_run(s0, dv.take(i as int)) == (self@, outs.deep_view(), None::<ErrorModel>),
            decreases inputs@.len() - i,
        {
            let ghost pre_state = self@;
            let ghost outs_pre = outs.deep_view();
            let (mut step_outs, st) = self.process_input(&inputs[i]);
            let ghost step_dv = step_outs.deep_view();
            proof {
                assert(dv[i as int] == inputs@[i as int].deep_view());
            }
            outs.append(&mut step_outs);
            proof {
                assert(outs.deep_view() =~= outs_pre + step_dv);
            }
            match st {
                Ok(_) => {
                    proof {
                        let t1 = dv.take(i as int + 1);
                        assert(t1.take(i as int) =~= dv.take(i as int));
                        lemma_run_split(s0, t1, i as int);
                        let single = t1.skip(i as int);
                        assert(single =~= seq![dv[i as int]]);
                        assert(single[0] == dv[i as int]);
                        assert(single.drop_first() =~= Seq::<InputModel>::empty());
                        let stepped = spec_step(pre_state, dv[i as int]);
                        assert(stepped == (self@, step_dv, None::<ErrorModel>));
                        assert(spec_run(stepped.0, Seq::<InputModel>::empty()) == (
                            stepped.0,
                            Seq::<OutputModel>::empty(),
                            None::<ErrorModel>,
                        ));
                        assert(spec_run(pre_state, single) == (self@, step_dv
                            + Seq::<OutputModel>::empty(), None::<ErrorModel>));
                        assert(step_dv + Seq::<OutputModel>::empty() =~= step_dv);
                        assert(outs_pre + step_dv =~= outs.deep_view());
                        assert(spec_run(s0, t1) == (self@, outs.deep_view(), None::<ErrorModel>));
                    }
                },
                Err(e) => {
                    proof {
                        lemma_run_split(s0, dv, i as int);
                        let rest_inputs = dv.skip(i as int);
                        assert(rest_inputs[0] == dv[i as int]);
                        let stepped = spec_step(pre_state, dv[i as int]);
                        assert(stepped == (self@, step_dv, Some(e@)));
                        assert(spec_run(pre_state, rest_inputs) == stepped);
                        assert(spec_run(s0, dv) == (self@, outs_pre + step_dv, Some(e@)));
                    }
                    return (outs, Err(e));
                },
            }
            i = i + 1;
        }
        proof {
            assert(dv.take(dv.len() as int) =~= dv);
        }
        (outs, Ok(()))
    }
}

/// Closing the input with nothing pending: the run of an empty input
/// sequence terminates cleanly, leaves the space unchanged and emits no
/// further outputs.
pub proof fn lemma_run_empty_clean(s: SpaceModel)
    ensures
        spec_run(s, Seq::empty()) == (s, Seq::<OutputModel>::empty(), None::<ErrorModel>),
{
}

/// Whether an output is the applied form of an interaction input: an
/// `InteractionApplied` event naming the same source and destination.
pub open spec fn output_matches_interaction(o: OutputModel, im: InputModel) -> bool {
    match (o, im) {
        (
            OutputModel::InteractionApplied(ir),
            InputModel::Interaction(am),
        ) => ir.src == am.src && ir.dst == am.dst,
        _ => false,
    }
}

/// A batch of interaction inputs that runs without fault produces exactly
/// one `InteractionApplied` event per input, in the same relative order: the
/// event at each position names the participants of the input at that
/// position.
pub proof fn lemma_interactions_in_order(s: SpaceModel, inputs: Seq<InputModel>)
    requires
        forall|i: int| 0 <= i < inputs.len() ==> (#[trigger] inputs[i]) is Interaction,
        spec_run(s, inputs).2 is None,
    ensures
        spec_run(s, inputs).1.len() == inputs.len(),
        forall|i: int|
            0 <= i < inputs.len() ==> output_matches_interaction(
                #[trigger] spec_run(s, inputs).1[i],
                inputs[i],
            ),
    decreases inputs.len(),
{
    if inputs.len() > 0 {
        let stepped = spec_step(s, inputs[0]);
        assert(stepped.2 is None) by {
            if stepped.2 is Some {
                assert(spec_run(s, inputs) == stepped);
            }
        };
        assert(inputs[0] is Interaction);
        assert(stepped.1.len() == 1);
        assert(output_matches_interaction(stepped.1[0], inputs[0]));
        let rest_in = inputs.drop_first();
        assert(forall|i: int|
            0 <= i < rest_in.len() ==> (#[trigger] rest_in[i]) == inputs[i + 1]);
        let rest = spec_run(stepped.0, rest_in);
        assert(spec_run(s, inputs) == (rest.0, stepped.1 + rest.1, rest.2));
        lemma_interactions_in_order(stepped.0, rest_in);
        assert forall|i: int| 0 <= i < inputs.len() implies output_matches_interaction(
            #[trigger] spec_run(s, inputs).1[i],
            inputs[i],
        ) by {
            if i == 0 {
                assert(spec_run(s, inputs).1[0] == stepped.1[0]);
            } else {
                assert(spec_run(s, inputs).1[i] == rest.1[i - 1]);
                assert(rest_in[i - 1] == inputs[i]);
            }
        };
    }
}

/// Blending a coordinate with itself leaves it unchanged, whatever the
/// weight: the update rule is idempotent on a converged coordinate.
pub proof fn lemma_blend_self(c: Seq<i64>, w: int)
    requires
        crate::math::comps_ok(c),
    ensures
        spec_blend(c, c, w) == c,
{
    assert forall|i: int| 0 <= i < c.len() implies spec_blend(c, c, w)[i] == c[i] by {
        let a = c[i];
        assert(a * (1_000_000 - w) + a * w == a * 1_000_000) by (nonlinear_arith);
        if a >= 0 {
            assert(a * 1_000_000 == 1_000_000 * a) by (nonlinear_arith);
            vstd::arithmetic::div_mod::lemma_div_multiples_vanish(a as int, 1_000_000);
            assert(a * 1_000_000 >= 0) by (nonlinear_arith)
                requires
                    a >= 0,
            ;
        } else {
            assert(-(a * 1_000_000) == 1_000_000 * (-a)) by (nonlinear_arith);
            vstd::arithmetic::div_mod::lemma_div_multiples_vanish(-a as int, 1_000_000);
            assert(a * 1_000_000 < 0) by (nonlinear_arith)
                requires
                    a < 0,
            ;
        }
    };
    assert(spec_blend(c, c, w) =~= c);
}

proof fn lemma_find_user_pointwise(e1: Seq<EntryModel>, e2: Seq<EntryModel>, id: Seq<char>)
    requires
        e1.len() == e2.len(),
        forall|i: int|
            0 <= i < e1.len() ==> is_user_with(#[trigger] e1[i], id) == is_user_with(e2[i], id),
    ensures
        find_user(e1, id) == find_user(e2, id),
    decreases e1.len(),
{
    if e1.len() > 0 {
        assert(is_user_with(e1[0], id) == is_user_with(e2[0], id));
        assert forall|i: int|
            0 <= i < e1.drop_first().len() implies is_user_with(
            #[trigger] e1.drop_first()[i],
            id,
        ) == is_user_with(e2.drop_first()[i], id) by {
            assert(e1.drop_first()[i] == e1[i + 1]);
            assert(e2.drop_first()[i] == e2[i + 1]);
        };
        lemma_find_user_pointwise(e1.drop_first(), e2.drop_first(), id);
    }
}

proof fn lemma_find_post_pointwise(e1: Seq<EntryModel>, e2: Seq<EntryModel>, id: Seq<char>)
    requires
        e1.len() == e2.len(),
        forall|i: int|
            0 <= i < e1.len() ==> is_post_with(#[trigger] e1[i], id) == is_post_with(e2[i], id),
    ensures
        find_post(e1, id) == find_post(e2, id),
    decreases e1.len(),
{
    if e1.len() > 0 {
        assert(is_post_with(e1[0], id) == is_post_with(e2[0], id));
        assert forall|i: int|
            0 <= i < e1.drop_first().len() implies is_post_with(
            #[trigger] e1.drop_first()[i],
            id,
        ) == is_post_with(e2.drop_first()[i], id) by {
            assert(e1.drop_first()[i] == e1[i + 1]);
            assert(e2.drop_first()[i] == e2[i + 1]);
        };
        lemma_find_post_pointwise(e1.drop_first(), e2.drop_first(), id);
    }
}

/// Repeating a Post-to-User interaction against the same post: once the
/// user's coordinate sits exactly on the post's (as the cold-start seeding
/// leaves it), the interaction succeeds, reports the maximal similarity, and
/// leaves the coordinate on the post again, with both participants found at
/// the same positions. The next repetition therefore reports a similarity at
/// least as large: successive interactions with one post never lower it.
pub proof fn lemma_same_post_keeps_similarity(
    s: SpaceModel,
    user_id: Seq<char>,
    post_id: Seq<char>,
    alpha: i64,
    gamma: i64,
)
    requires
        s.kernel == (Kernel::RBF { gamma }),
        gamma > 0,
        find_post(s.entries, post_id) is Some,
        find_user(s.entries, user_id) is Some,
        user_coord(s.entries[find_user(s.entries, user_id).unwrap()]) == Some(
            post_coord(s.entries[find_post(s.entries, post_id).unwrap()]),
        ),
        crate::math::comps_ok(post_coord(s.entries[find_post(s.entries, post_id).unwrap()])),
    ensures
        ({
            let stepped = spec_post_to_user(s, user_id, post_id, alpha);
            let pi = find_post(s.entries, post_id).unwrap();
            let ui = find_user(s.entries, user_id).unwrap();
            &&& stepped.1 is Ok
            &&& stepped.1->Ok_0.similarity == SCALE
            &&& find_post(stepped.0.entries, post_id) == Some(pi)
            &&& find_user(stepped.0.entries, user_id) == Some(ui)
            &&& user_coord(stepped.0.entries[ui]) == Some(post_coord(stepped.0.entries[pi]))
            &&& stepped.0.kernel == s.kernel
        }),
{
    let pi = find_post(s.entries, post_id).unwrap();
    let ui = find_user(s.entries, user_id).unwrap();
    lemma_find_post_char(s.entries, post_id);
    lemma_find_user_char(s.entries, user_id);
    let pcoord = post_coord(s.entries[pi]);
    crate::kernel::lemma_kernel_range(gamma, pcoord, pcoord);
    let sim = spec_kernel_apply(s.kernel, pcoord, pcoord);
    assert(sim == SCALE);
    lemma_weight_range(alpha, sim);
    let w = spec_weight(alpha, sim);
    lemma_blend_self(pcoord, w);
    let stepped = spec_post_to_user(s, user_id, post_id, alpha);
    let ne = EntryModel::User {
        id: user_id,
        coord: Some(spec_blend(pcoord, pcoord, w)),
        motion: spec_motion_next(user_motion(s.entries[ui]), w),
    };
    assert(stepped.0.entries == s.entries.update(ui, ne));
    assert(ui != pi);
    assert(stepped.0.entries[pi] == s.entries[pi]);
    assert forall|i: int|
        0 <= i < s.entries.len() implies is_user_with(
        #[trigger] s.entries[i],
        user_id,
    ) == is_user_with(stepped.0.entries[i], user_id) by {
        if i == ui {
            assert(is_user_with(ne, user_id));
        }
    };
    lemma_find_user_pointwise(s.entries, stepped.0.entries, user_id);
    assert forall|i: int|
        0 <= i < s.entries.len() implies is_post_with(
        #[trigger] s.entries[i],
        post_id,
    ) == is_post_with(stepped.0.entries[i], post_id) by {
        if i == ui {
            assert(!is_post_with(ne, post_id));
            assert(!is_post_with(s.entries[ui], post_id));
        }
    };
    lemma_find_post_pointwise(s.entries, stepped.0.entries, post_id);
}

/// A blend with a weight below one unit keeps each component between the two
/// blended values, so it lands no further from the second than the first
/// was.
proof fn lemma_blend_comp_between(a: i64, b: i64, w: int)
    requires
        crate::math::in_coord_range(a),
        crate::math::in_coord_range(b),
        0 <= w <= 999_999,
    ensures
        (spec_blend_comp(a, b, w) - b) * (spec_blend_comp(a, b, w) - b) <= (a - b) * (a - b),
{
    let sc = 1_000_000int;
    let lo: int = if a <= b {
        a as int
    } else {
        b as int
    };
    let hi: int = if a <= b {
        b as int
    } else {
        a as int
    };
    let num = a * (sc - w) + b * w;
    assert(lo * sc <= num <= hi * sc) by (nonlinear_arith)
        requires
            lo <= a as int <= hi,
            lo <= b as int <= hi,
            0 <= w <= 999_999,
            sc == 1_000_000,
            num == a * (sc - w) + b * w,
    ;
    let q: int = if num >= 0 {
        num / sc
    } else {
        -((-num) / sc)
    };
    if num >= 0 {
        vstd::arithmetic::div_mod::lemma_div_is_ordered(lo * sc, num, sc);
        assert(lo * sc == sc * lo) by (nonlinear_arith);
        vstd::arithmetic::div_mod::lemma_div_multiples_vanish(lo, sc);
        vstd::arithmetic::div_mod::lemma_div_is_ordered(num, hi * sc, sc);
        assert(hi * sc == sc * hi) by (nonlinear_arith);
        vstd::arithmetic::div_mod::lemma_div_multiples_vanish(hi, sc);
        assert(lo <= q <= hi);
    } else {
        vstd::arithmetic::div_mod::lemma_div_is_ordered(-num, (-lo) * sc, sc);
        assert((-lo) * sc == sc * (-lo)) by (nonlinear_arith);
        vstd::arithmetic::div_mod::lemma_div_multiples_vanish(-lo, sc);
        vstd::arithmetic::div_mod::lemma_div_is_ordered((-hi) * sc, -num, sc);
        assert((-hi) * sc == sc * (-hi)) by (nonlinear_arith);
        vstd::arithmetic::div_mod::lemma_div_multiples_vanish(-hi, sc);
        assert(lo <= q <= hi);
    }
    assert(spec_blend_comp(a, b, w) == q);
    assert((q - b) * (q - b) <= (a - b) * (a - b)) by (nonlinear_arith)
        requires
            lo <= q <= hi,
            (lo == a as int && hi == b as int) || (lo == b as int && hi == a as int),
    ;
}

/// Blending toward a target with a weight below one unit never increases the
/// squared distance to that target.
pub proof fn lemma_blend_contracts(a: Seq<i64>, b: Seq<i64>, w: int)
    requires
        crate::math::comps_ok(a),
        crate::math::comps_ok(b),
        a.len() == b.len(),
        0 <= w <= 999_999,
    ensures
        spec_sq_dist(spec_blend(a, b, w), b) <= spec_sq_dist(a, b),
    decreases a.len(),
{
    if a.len() == 0 {
    } else {
        let c = spec_blend(a, b, w);
        assert(c.drop_last() =~= spec_blend(a.drop_last(), b.drop_last(), w));
        assert(crate::math::comps_ok(a.drop_last())) by {
            assert(forall|i: int|
                0 <= i < a.len() - 1 ==> #[trigger] a.drop_last()[i] == a[i]);
        };
        assert(crate::math::comps_ok(b.drop_last())) by {
            assert(forall|i: int|
                0 <= i < b.len() - 1 ==> #[trigger] b.drop_last()[i] == b[i]);
        };
        lemma_blend_contracts(a.drop_last(), b.drop_last(), w);
        lemma_blend_comp_between(a.last(), b.last(), w);
        assert(c.last() == spec_blend_comp(a.last(), b.last(), w));
        assert(spec_sq_dist(c, b) == spec_sq_dist(c.drop_last(), b.drop_last()) + (c.last()
            - b.last()) * (c.last() - b.last()));
    }
}

/// Every coordinate stored in a model entry has components within range.
pub open spec fn entry_comps_ok(e: EntryModel) -> bool {
    match e {
        EntryModel::User { coord, .. } => match coord {
            Some(c) => crate::math::comps_ok(c),
            None => true,
        },
        EntryModel::Post { coord, features, .. } => crate::math::comps_ok(coord) && (forall|i: int|
            0 <= i < features.len() ==> crate::math::comps_ok(#[trigger] features[i])),
    }
}

/// Every coordinate in the model has components within range.
pub open spec fn model_comps_ok(s: SpaceModel) -> bool {
    forall|i: int| 0 <= i < s.entries.len() ==> entry_comps_ok(#[trigger] s.entries[i])
}

/// A well-formed space views to a model whose coordinates are in range.
pub proof fn lemma_wf_model_comps_ok(space: &MotionSpace)
    requires
        space.wf(),
    ensures
        model_comps_ok(space@),
{
    assert forall|i: int|
        0 <= i < space@.entries.len() implies entry_comps_ok(#[trigger] space@.entries[i]) by {
        assert(space@.entries[i] == space.entries@[i]@);
        assert(space.entries@[i].wf());
        match space.entries@[i] {
            MotionEntry::User(u) => {
            },
            MotionEntry::Post(p) => {
                let fv = Seq::new(p.features@.len(), |k: int| p.features@[k].data@);
                assert forall|j: int|
                    0 <= j < fv.len() implies crate::math::comps_ok(#[trigger] fv[j]) by {
                    assert(p.features@[j].wf());
                    assert(fv[j] == p.features@[j].data@);
                };
            },
        }
    };
}

/// Two successive Post-to-User interactions for the same user and post, with
/// a non-negative coefficient: the first pulls the user's coordinate
/// componentwise toward the post's, so the similarity the second reports is
/// at least the first's, whatever the embeddings.
pub proof fn lemma_repeat_post_to_user_monotone(
    s: SpaceModel,
    user_id: Seq<char>,
    post_id: Seq<char>,
    alpha: i64,
    gamma: i64,
)
    requires
        s.kernel == (Kernel::RBF { gamma }),
        gamma >= 0,
        alpha >= 0,
        model_comps_ok(s),
        spec_post_to_user(s, user_id, post_id, alpha).1 is Ok,
    ensures
        ({
            let first = spec_post_to_user(s, user_id, post_id, alpha);
            let second = spec_post_to_user(first.0, user_id, post_id, alpha);
            &&& second.1 is Ok
            &&& second.1->Ok_0.similarity >= first.1->Ok_0.similarity
        }),
{
    let first = spec_post_to_user(s, user_id, post_id, alpha);
    lemma_find_post_char(s.entries, post_id);
    lemma_find_user_char(s.entries, user_id);
    let pi = find_post(s.entries, post_id)->Some_0;
    let pcoord = post_coord(s.entries[pi]);
    let found = find_user(s.entries, user_id);
    let entries1 = if found is Some {
        s.entries
    } else {
        s.entries.push(EntryModel::User { id: user_id, coord: None, motion: 0 })
    };
    let ui = match found {
        Some(i) => i,
        None => s.entries.len() as int,
    };
    let ucoord = match user_coord(entries1[ui]) {
        Some(c) => c,
        None => pcoord,
    };
    assert(ucoord.len() == pcoord.len());
    assert(crate::math::comps_ok(pcoord)) by {
        assert(entry_comps_ok(s.entries[pi]));
    };
    assert(crate::math::comps_ok(ucoord)) by {
        if found is Some {
            assert(entry_comps_ok(s.entries[ui]));
        }
    };
    let sim1 = spec_kernel_apply(s.kernel, ucoord, pcoord);
    lemma_exp_neg_range(crate::kernel::spec_rbf_arg(gamma, spec_sq_dist(ucoord, pcoord)));
    lemma_weight_range(alpha, sim1);
    let w = spec_weight(alpha, sim1);
    let bl = spec_blend(ucoord, pcoord, w);
    let ne = EntryModel::User { id: user_id, coord: Some(bl), motion: spec_motion_next(user_motion(entries1[ui]), w) };
    assert(first.0.entries == entries1.update(ui, ne));
    assert(first.1->Ok_0.similarity == sim1);
    // the user sits at the same index afterwards, and the post is untouched
    assert(is_user_with(entries1[ui], user_id));
    assert(is_post_with(entries1[pi], post_id)) by {
        if found is None {
            assert(entries1[pi] == s.entries[pi]);
        }
    };
    assert(ui != pi);
    assert(find_user(entries1, user_id) == Some(ui)) by {
        lemma_find_user_char(entries1, user_id);
        match find_user(entries1, user_id) {
            Some(k) => {
                if k < ui {
                    assert(entries1[k] == s.entries[k]);
                }
                assert(!(k < ui));
                assert(!(ui < k));
            },
            None => {
                assert(false);
            },
        }
    };
    assert(find_post(entries1, post_id) == Some(pi)) by {
        lemma_find_post_char(entries1, post_id);
        match find_post(entries1, post_id) {
            Some(k) => {
                if k < pi {
                    assert(entries1[k] == s.entries[k]);
                }
                assert(!(k < pi));
                assert(!(pi < k));
            },
            None => {
                assert(false);
            },
        }
    };
    assert forall|i: int|
        0 <= i < entries1.len() implies is_user_with(#[trigger] entries1[i], user_id)
        == is_user_with(first.0.entries[i], user_id) by {
        if i == ui {
            assert(is_user_with(ne, user_id));
        }
    };
    lemma_find_user_pointwise(entries1, first.0.entries, user_id);
    assert forall|i: int|
        0 <= i < entries1.len() implies is_post_with(#[trigger] entries1[i], post_id)
        == is_post_with(first.0.entries[i], post_id) by {
        if i == ui {
            assert(!is_post_with(ne, post_id));
            assert(!is_post_with(entries1[ui], post_id));
        }
    };
    lemma_find_post_pointwise(entries1, first.0.entries, post_id);
    // the second application blends again from the blended coordinate
    assert(first.0.entries[pi] == entries1[pi]);
    assert(user_coord(first.0.entries[ui]) == Some(bl));
    assert(bl.len() == pcoord.len());
    let second = spec_post_to_user(first.0, user_id, post_id, alpha);
    let sim2 = spec_kernel_apply(first.0.kernel, bl, pcoord);
    assert(second.1 is Ok);
    assert(second.1->Ok_0.similarity == sim2);
    lemma_blend_contracts(ucoord, pcoord, w);
    crate::kernel::lemma_sq_dist_nonneg(bl, pcoord);
    crate::kernel::lemma_rbf_antitone(gamma, bl, pcoord, ucoord, pcoord);
}

} // verus!
