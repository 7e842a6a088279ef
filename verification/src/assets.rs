//! Character, motion, retarget and deterministic variation contracts.
//!
//! An asset library is validated once, reporting every problem in a fixed
//! order; a valid library then picks each agent's look from weighted lists,
//! by a hash of the project seed, the agent and the channel, so the choice
//! never depends on spawn order.

use vstd::prelude::*;
use crate::diagnostics::{Diagnostic, DiagnosticKey, keys, keys_sorted, sort_diagnostics};
use crate::ids::{AgentId, hash_combine, hash_combine_spec, hash_str, hash_str_spec};
use crate::keyed::TextMap;
use crate::text::{contains_text, join3, owned, str_eq, text_in, views};

verus! {

/// One weighted choice.
#[derive(Debug)]
pub struct WeightedAssetV1 {
    pub id: String,
    pub weight: u32,
}

impl WeightedAssetV1 {
    pub fn new(id: &str, weight: u32) -> (r: Self)
        ensures
            r.id@ == id@,
            r.weight == weight,
    {
        Self { id: owned(id), weight }
    }

    /// An exact copy.
    pub fn duplicate(&self) -> (r: Self)
        ensures
            r == *self,
    {
        Self { id: self.id.clone(), weight: self.weight }
    }
}

/// An exact copy of a weighted list.
pub fn duplicate_weighted(items: &Vec<WeightedAssetV1>) -> (r: Vec<WeightedAssetV1>)
    ensures
        r@ == items@,
{
    let mut out: Vec<WeightedAssetV1> = Vec::new();
    let mut i: usize = 0;
    while i < items.len()
        invariant
            i <= items@.len(),
            out@ == items@.take(i as int),
        decreases items@.len() - i,
    {
        out.push(items[i].duplicate());
        proof {
            assert(items@.take(i + 1) =~= items@.take(i as int).push(items@[i as int]));
        }
        i = i + 1;
    }
    assert(items@.take(items@.len() as int) =~= items@);
    out
}

/// The weighted lists an agent's look is drawn from.
#[derive(Debug)]
pub struct VariationProfileV1 {
    pub id: String,
    pub bodies: Vec<WeightedAssetV1>,
    pub clothing: Vec<WeightedAssetV1>,
    pub materials: Vec<WeightedAssetV1>,
    pub props: Vec<WeightedAssetV1>,
    pub clips: Vec<WeightedAssetV1>,
}

impl VariationProfileV1 {
    /// An exact copy.
    pub fn duplicate(&self) -> (r: Self)
        ensures
            r.id == self.id,
            r.bodies@ == self.bodies@,
            r.clothing@ == self.clothing@,
            r.materials@ == self.materials@,
            r.props@ == self.props@,
            r.clips@ == self.clips@,
    {
        Self {
            id: self.id.clone(),
            bodies: duplicate_weighted(&self.bodies),
            clothing: duplicate_weighted(&self.clothing),
            materials: duplicate_weighted(&self.materials),
            props: duplicate_weighted(&self.props),
            clips: duplicate_weighted(&self.clips),
        }
    }
}

/// How a source rig maps onto the canonical skeleton.
#[derive(Debug)]
pub struct RetargetProfileV1 {
    pub id: String,
    pub source_rig_id: String,
    pub root_bone: String,
    pub forward_axis: String,
    pub scale_millimeters: u32,
    pub bone_map: TextMap<String>,
}

/// A closed interval of ticks.
#[derive(Clone, Copy, Debug, PartialEq, Eq, Structural)]
pub struct ContactIntervalV1 {
    pub start: u32,
    pub end: u32,
}

/// Timing facts about one clip.
#[derive(Debug)]
pub struct ClipMetadataV1 {
    pub id: String,
    pub retarget_profile_id: String,
    pub duration_ticks: u32,
    pub loop_start_tick: u32,
    pub loop_end_tick: u32,
    pub average_root_speed_mmps: u32,
    pub left_foot_contacts: Vec<ContactIntervalV1>,
    pub right_foot_contacts: Vec<ContactIntervalV1>,
}

/// Everything a project declares about its character assets.
#[derive(Debug)]
pub struct AssetLibraryV1 {
    pub retarget_profiles: Vec<RetargetProfileV1>,
    pub clips: Vec<ClipMetadataV1>,
    pub variations: Vec<VariationProfileV1>,
}

/// What is wrong with an asset; the variant order is the report order.
#[derive(Clone, Copy, Debug, PartialEq, Eq, PartialOrd, Ord, Structural)]
pub enum AssetDiagnosticCode {
    DuplicateId,
    InvalidRetargetProfile,
    MissingBone,
    MissingRetargetProfile,
    InvalidClipLoop,
    InvalidFootContact,
    InvalidVariation,
    MissingClip,
}

impl AssetDiagnosticCode {
    /// The position of the code in report order.
    pub open spec fn rank(self) -> nat {
        match self {
            AssetDiagnosticCode::DuplicateId => 0,
            AssetDiagnosticCode::InvalidRetargetProfile => 1,
            AssetDiagnosticCode::MissingBone => 2,
            AssetDiagnosticCode::MissingRetargetProfile => 3,
            AssetDiagnosticCode::InvalidClipLoop => 4,
            AssetDiagnosticCode::InvalidFootContact => 5,
            AssetDiagnosticCode::InvalidVariation => 6,
            AssetDiagnosticCode::MissingClip => 7,
        }
    }

    pub fn rank_of(self) -> (r: u8)
        ensures
            r as nat == self.rank(),
    {
        match self {
            AssetDiagnosticCode::DuplicateId => 0,
            AssetDiagnosticCode::InvalidRetargetProfile => 1,
            AssetDiagnosticCode::MissingBone => 2,
            AssetDiagnosticCode::MissingRetargetProfile => 3,
            AssetDiagnosticCode::InvalidClipLoop => 4,
            AssetDiagnosticCode::InvalidFootContact => 5,
            AssetDiagnosticCode::InvalidVariation => 6,
            AssetDiagnosticCode::MissingClip => 7,
        }
    }
}

/// One problem found in an asset library.
#[derive(Debug)]
pub struct AssetDiagnostic {
    pub code: AssetDiagnosticCode,
    pub entity_id: String,
    pub message: String,
}

/// The key of a diagnostic with these parts.
pub open spec fn asset_key(code: AssetDiagnosticCode, entity: Seq<char>, message: Seq<char>) -> DiagnosticKey {
    (0, entity, code.rank(), message)
}

impl Diagnostic for AssetDiagnostic {
    open spec fn key(&self) -> DiagnosticKey {
        asset_key(self.code, self.entity_id@, self.message@)
    }

    fn class_rank(&self) -> (r: u8) {
        0
    }

    fn subject_str(&self) -> (r: &str) {
        self.entity_id.as_str()
    }

    fn code_rank(&self) -> (r: u8) {
        self.code.rank_of()
    }

    fn message_str(&self) -> (r: &str) {
        self.message.as_str()
    }
}

/// Record one diagnostic.
fn report(diagnostics: &mut Vec<AssetDiagnostic>, code: AssetDiagnosticCode, entity_id: String, message: String)
    ensures
        keys(final(diagnostics)@) == keys(old(diagnostics)@).push(asset_key(code, entity_id@, message@)),
{
    let d = AssetDiagnostic { code, entity_id, message };
    diagnostics.push(d);
    proof {
        assert(keys(diagnostics@) =~= keys(old(diagnostics)@).push(d.key()));
    }
}

/// The look picked for one agent.
#[derive(Debug)]
pub struct VariationChoice {
    pub body: String,
    pub clothing: String,
    pub material: String,
    pub prop: String,
    pub clip: String,
}

impl VariationChoice {
    /// The same choice with another material.
    pub fn with_material(self, material: &str) -> (r: Self)
        ensures
            r.body == self.body,
            r.clothing == self.clothing,
            r.material@ == material@,
            r.prop == self.prop,
            r.clip == self.clip,
    {
        VariationChoice { material: owned(material), ..self }
    }
}

// ---------------------------------------------------------------------------
// Weighted choice
// ---------------------------------------------------------------------------

/// The sum of the weights.
pub open spec fn weight_total(items: Seq<WeightedAssetV1>) -> nat
    decreases items.len(),
{
    if items.len() == 0 {
        0
    } else {
        weight_total(items.drop_last()) + items.last().weight as nat
    }
}

/// The item whose weight band holds `value`, bands laid end to end in list
/// order.
pub open spec fn pick(items: Seq<WeightedAssetV1>, value: nat) -> Option<Seq<char>>
    decreases items.len(),
{
    if items.len() == 0 {
        None
    } else if value < items[0].weight {
        Some(items[0].id@)
    } else {
        pick(items.drop_first(), (value - items[0].weight) as nat)
    }
}

/// The hash that picks on one channel for one agent.
pub open spec fn channel_sample(global_seed: u64, agent_id: AgentId, channel: &str) -> u64 {
    hash_combine_spec(hash_combine_spec(global_seed, agent_id.0), hash_str_spec(channel))
}

/// The item picked on one channel; none when every weight is zero.
pub open spec fn choose_spec(items: Seq<WeightedAssetV1>, global_seed: u64, agent_id: AgentId, channel: &str) -> Option<
    Seq<char>,
> {
    if weight_total(items) == 0 {
        None
    } else {
        pick(items, (channel_sample(global_seed, agent_id, channel) as nat) % weight_total(items))
    }
}

proof fn lemma_weight_total_first(items: Seq<WeightedAssetV1>)
    requires
        items.len() > 0,
    ensures
        weight_total(items) == items[0].weight + weight_total(items.drop_first()),
    decreases items.len(),
{
    if items.len() > 1 {
        let dl = items.drop_last();
        let df = items.drop_first();
        lemma_weight_total_first(dl);
        assert(dl.drop_first() =~= df.drop_last());
        assert(df.last() == items.last());
        assert(dl[0] == items[0]);
        assert(weight_total(items) == weight_total(dl) + items.last().weight);
        assert(weight_total(df) == weight_total(df.drop_last()) + df.last().weight);
        assert(weight_total(dl) == dl[0].weight + weight_total(dl.drop_first()));
    } else {
        assert(items.drop_first().len() == 0);
        assert(items.drop_last().len() == 0);
        assert(items.last() == items[0]);
        assert(weight_total(items.drop_first()) == 0);
        assert(weight_total(items.drop_last()) == 0);
        assert(weight_total(items) == weight_total(items.drop_last()) + items.last().weight);
    }
}

proof fn lemma_pick_unfold(items: Seq<WeightedAssetV1>, value: nat)
    requires
        items.len() > 0,
    ensures
        value < items[0].weight ==> pick(items, value) == Some(items[0].id@),
        value >= items[0].weight ==> pick(items, value) == pick(items.drop_first(), (value - items[0].weight) as nat),
{
}

proof fn lemma_weight_total_prefix(items: Seq<WeightedAssetV1>, i: int)
    requires
        0 <= i <= items.len(),
    ensures
        weight_total(items.take(i)) <= weight_total(items),
    decreases items.len() - i,
{
    if i < items.len() {
        lemma_weight_total_prefix(items, i + 1);
        assert(items.take(i + 1).drop_last() =~= items.take(i));
    } else {
        assert(items.take(i) =~= items);
    }
}

/// The id picked from `items` by `global_seed`, the agent and the channel.
fn choose_weighted(items: &Vec<WeightedAssetV1>, global_seed: u64, agent_id: AgentId, channel: &str) -> (r: Option<String>)
    requires
        weight_total(items@) <= u64::MAX,
    ensures
        r is Some <==> choose_spec(items@, global_seed, agent_id, channel) is Some,
        r matches Some(s) ==> choose_spec(items@, global_seed, agent_id, channel) == Some(s@),
{
    let ghost expected = choose_spec(items@, global_seed, agent_id, channel);
    let mut total: u64 = 0;
    let mut i: usize = 0;
    while i < items.len()
        invariant
            i <= items@.len(),
            total == weight_total(items@.take(i as int)),
            weight_total(items@) <= u64::MAX,
        decreases items@.len() - i,
    {
        proof {
            assert(items@.take(i + 1).drop_last() =~= items@.take(i as int));
            lemma_weight_total_prefix(items@, i + 1);
        }
        total = total + items[i].weight as u64;
        i = i + 1;
    }
    assert(items@.take(items@.len() as int) =~= items@);
    if total == 0 {
        return None;
    }
    let value = hash_combine(hash_combine(global_seed, agent_id.0), hash_str(channel)) % total;
    pick_in(items, value)
}

/// The id whose weight band holds `value`.
fn pick_in(items: &Vec<WeightedAssetV1>, value: u64) -> (r: Option<String>)
    requires
        value < weight_total(items@),
    ensures
        r is Some,
        r matches Some(s) ==> pick(items@, value as nat) == Some(s@),
{
    let ghost expected = pick(items@, value as nat);
    assert(items@.skip(0) =~= items@);
    let mut rest_value = value;
    let mut k: usize = 0;
    while k < items.len()
        invariant
            k <= items@.len(),
            expected == pick(items@, value as nat),
            expected == pick(items@.skip(k as int), rest_value as nat),
            rest_value < weight_total(items@.skip(k as int)),
        decreases items@.len() - k,
    {
        let weight = items[k].weight as u64;
        proof {
            let rest = items@.skip(k as int);
            assert(rest[0] == items@[k as int]);
            assert(rest.drop_first() =~= items@.skip(k + 1));
            lemma_weight_total_first(rest);
            lemma_pick_unfold(rest, rest_value as nat);
        }
        if rest_value < weight {
            return Some(items[k].id.clone());
        }
        rest_value = rest_value - weight;
        k = k + 1;
    }
    proof {
        assert(items@.skip(k as int).len() == 0);
    }
    None
}

// ---------------------------------------------------------------------------
// Compiled library
// ---------------------------------------------------------------------------

/// A validated library, its variation profiles keyed by ID.
#[derive(Debug)]
pub struct CompiledAssetLibrary {
    variations: TextMap<VariationProfileV1>,
}

/// Every weighted list of the profile sums to a `u64`.
pub open spec fn profile_totals_fit(p: VariationProfileV1) -> bool {
    &&& weight_total(p.bodies@) <= u64::MAX
    &&& weight_total(p.clothing@) <= u64::MAX
    &&& weight_total(p.materials@) <= u64::MAX
    &&& weight_total(p.props@) <= u64::MAX
    &&& weight_total(p.clips@) <= u64::MAX
}

impl CompiledAssetLibrary {
    /// The variation profiles, by ID.
    pub closed spec fn profiles(&self) -> Map<Seq<char>, VariationProfileV1> {
        self.variations.as_map()
    }

    pub closed spec fn wf(&self) -> bool {
        &&& self.variations.wf()
        &&& forall|k: Seq<char>| #[trigger] self.variations.as_map().dom().contains(k) ==> profile_totals_fit(
            self.variations.as_map()[k],
        )
    }

    /// The look of one agent under the profile `profile_id`: each channel
    /// picked by weight from a hash of the seed, the agent and the channel.
    ///
    /// `None` for an unknown profile, or when a channel's weights are all zero.
    pub fn select(&self, profile_id: &str, global_seed: u64, agent_id: AgentId) -> (r: Option<VariationChoice>)
        requires
            self.wf(),
        ensures
            !self.profiles().dom().contains(profile_id@) ==> r is None,
            self.profiles().dom().contains(profile_id@) ==> {
                let p = self.profiles()[profile_id@];
                let body = choose_spec(p.bodies@, global_seed, agent_id, "body");
                let clothing = choose_spec(p.clothing@, global_seed, agent_id, "clothing");
                let material = choose_spec(p.materials@, global_seed, agent_id, "material");
                let prop = choose_spec(p.props@, global_seed, agent_id, "prop");
                let clip = choose_spec(p.clips@, global_seed, agent_id, "clip");
                &&& r is Some <==> (body is Some && clothing is Some && material is Some && prop is Some
                    && clip is Some)
                &&& r matches Some(c) ==> {
                    &&& body == Some(c.body@)
                    &&& clothing == Some(c.clothing@)
                    &&& material == Some(c.material@)
                    &&& prop == Some(c.prop@)
                    &&& clip == Some(c.clip@)
                }
            },
    {
        let profile = match self.variations.get(profile_id) {
            Some(p) => p,
            None => {
                return None;
            },
        };
        proof {
            assert(self.variations.as_map().dom().contains(profile_id@));
        }
        let body = match choose_weighted(&profile.bodies, global_seed, agent_id, "body") {
            Some(s) => s,
            None => {
                return None;
            },
        };
        let clothing = match choose_weighted(&profile.clothing, global_seed, agent_id, "clothing") {
            Some(s) => s,
            None => {
                return None;
            },
        };
        let material = match choose_weighted(&profile.materials, global_seed, agent_id, "material") {
            Some(s) => s,
            None => {
                return None;
            },
        };
        let prop = match choose_weighted(&profile.props, global_seed, agent_id, "prop") {
            Some(s) => s,
            None => {
                return None;
            },
        };
        let clip = match choose_weighted(&profile.clips, global_seed, agent_id, "clip") {
            Some(s) => s,
            None => {
                return None;
            },
        };
        Some(VariationChoice { body, clothing, material, prop, clip })
    }
}

// ---------------------------------------------------------------------------
// Validation
// ---------------------------------------------------------------------------

/// The subject of a diagnostic about the asset `id` of `kind`.
pub open spec fn asset_entity(kind: Seq<char>, id: Seq<char>) -> Seq<char> {
    kind + ":"@ + id
}

/// `d` when `cond` holds, nothing otherwise.
pub open spec fn key_if(cond: bool, d: DiagnosticKey) -> Seq<DiagnosticKey> {
    if cond {
        seq![d]
    } else {
        Seq::empty()
    }
}

/// Duplicate or empty IDs among assets of one kind: an ID is reported when it
/// is empty or an earlier asset of the kind has it.
pub open spec fn duplicate_id_keys(kind: Seq<char>, ids: Seq<Seq<char>>) -> Seq<DiagnosticKey>
    decreases ids.len(),
{
    if ids.len() == 0 {
        Seq::empty()
    } else {
        let k = ids.len() - 1;
        duplicate_id_keys(kind, ids.take(k)) + key_if(
            ids[k].len() == 0 || ids.take(k).contains(ids[k]),
            asset_key(
                AssetDiagnosticCode::DuplicateId,
                asset_entity(kind, ids[k]),
                "give this asset contract a unique stable ID"@,
            ),
        )
    }
}

pub open spec fn retarget_ids(ps: Seq<RetargetProfileV1>) -> Seq<Seq<char>> {
    ps.map_values(|p: RetargetProfileV1| p.id@)
}

pub open spec fn clip_ids(cs: Seq<ClipMetadataV1>) -> Seq<Seq<char>> {
    cs.map_values(|c: ClipMetadataV1| c.id@)
}

pub open spec fn variation_ids(vs: Seq<VariationProfileV1>) -> Seq<Seq<char>> {
    vs.map_values(|v: VariationProfileV1| v.id@)
}

/// A retarget profile without source rig, root bone, a supported forward
/// axis or a positive scale.
pub open spec fn invalid_retarget(p: RetargetProfileV1) -> bool {
    ||| p.source_rig_id@.len() == 0
    ||| p.root_bone@.len() == 0
    ||| !(p.forward_axis@ == "X"@ || p.forward_axis@ == "-X"@ || p.forward_axis@ == "Y"@ || p.forward_axis@
        == "-Y"@)
    ||| p.scale_millimeters == 0
}

/// The profile maps the canonical bone `bone` to no bone or an empty one.
pub open spec fn bone_missing(p: RetargetProfileV1, bone: Seq<char>) -> bool {
    !p.bone_map.as_map().dom().contains(bone) || p.bone_map.as_map()[bone]@.len() == 0
}

pub open spec fn missing_bone_key(p: RetargetProfileV1, bone: Seq<char>) -> Seq<DiagnosticKey> {
    key_if(
        bone_missing(p, bone),
        asset_key(
            AssetDiagnosticCode::MissingBone,
            asset_entity("retarget"@, p.id@),
            "map the required canonical bone '"@ + bone + "'"@,
        ),
    )
}

/// What is wrong with one retarget profile, in report order.
pub open spec fn retarget_keys(p: RetargetProfileV1) -> Seq<DiagnosticKey> {
    key_if(
        invalid_retarget(p),
        asset_key(
            AssetDiagnosticCode::InvalidRetargetProfile,
            asset_entity("retarget"@, p.id@),
            "set source rig, root bone, supported forward axis, and positive scale"@,
        ),
    ) + missing_bone_key(p, "hips"@) + missing_bone_key(p, "left_foot"@) + missing_bone_key(p, "right_foot"@)
}

pub open spec fn all_retarget_keys(ps: Seq<RetargetProfileV1>) -> Seq<DiagnosticKey>
    decreases ps.len(),
{
    if ps.len() == 0 {
        Seq::empty()
    } else {
        all_retarget_keys(ps.drop_last()) + retarget_keys(ps.last())
    }
}

/// A contact interval out of order or reaching past the clip.
pub open spec fn bad_contact(c: ContactIntervalV1, duration: u32) -> bool {
    c.start > c.end || c.end >= duration
}

pub open spec fn any_bad_contact(cs: Seq<ContactIntervalV1>, duration: u32) -> bool {
    exists|i: int| 0 <= i < cs.len() && bad_contact(#[trigger] cs[i], duration)
}

/// A clip without positive duration and root speed, or whose loop range
/// is empty or reaches past the clip.
pub open spec fn invalid_clip_loop(c: ClipMetadataV1) -> bool {
    ||| c.duration_ticks == 0
    ||| c.loop_start_tick >= c.loop_end_tick
    ||| c.loop_end_tick >= c.duration_ticks
    ||| c.average_root_speed_mmps == 0
}

/// What is wrong with one clip, in report order.
pub open spec fn clip_keys(c: ClipMetadataV1, profile_ids: Seq<Seq<char>>) -> Seq<DiagnosticKey> {
    let e = asset_entity("clip"@, c.id@);
    key_if(
        !profile_ids.contains(c.retarget_profile_id@),
        asset_key(AssetDiagnosticCode::MissingRetargetProfile, e, "choose an existing retarget profile"@),
    ) + key_if(
        invalid_clip_loop(c),
        asset_key(
            AssetDiagnosticCode::InvalidClipLoop,
            e,
            "set a positive duration, root speed, and loop range inside the clip"@,
        ),
    ) + key_if(
        any_bad_contact(c.left_foot_contacts@, c.duration_ticks) || any_bad_contact(
            c.right_foot_contacts@,
            c.duration_ticks,
        ),
        asset_key(
            AssetDiagnosticCode::InvalidFootContact,
            e,
            "keep ordered foot-contact intervals inside the clip duration"@,
        ),
    )
}

pub open spec fn all_clip_keys(cs: Seq<ClipMetadataV1>, profile_ids: Seq<Seq<char>>) -> Seq<DiagnosticKey>
    decreases cs.len(),
{
    if cs.len() == 0 {
        Seq::empty()
    } else {
        all_clip_keys(cs.drop_last(), profile_ids) + clip_keys(cs.last(), profile_ids)
    }
}

/// A weighted list that is empty, names an empty ID, or weighs nothing.
pub open spec fn invalid_weights(items: Seq<WeightedAssetV1>) -> bool {
    ||| items.len() == 0
    ||| exists|i: int| 0 <= i < items.len() && (#[trigger] items[i]).id@.len() == 0
    ||| weight_total(items) == 0
}

/// Clip choices of a variation that name no clip of the library.
pub open spec fn missing_clip_keys(entity: Seq<char>, choices: Seq<WeightedAssetV1>, clips: Seq<Seq<char>>) -> Seq<
    DiagnosticKey,
>
    decreases choices.len(),
{
    if choices.len() == 0 {
        Seq::empty()
    } else {
        let w = choices.last();
        missing_clip_keys(entity, choices.drop_last(), clips) + key_if(
            !clips.contains(w.id@),
            asset_key(
                AssetDiagnosticCode::MissingClip,
                entity,
                "choose an existing clip instead of '"@ + w.id@ + "'"@,
            ),
        )
    }
}

/// What is wrong with one variation profile, in report order.
pub open spec fn variation_keys(v: VariationProfileV1, clips: Seq<Seq<char>>) -> Seq<DiagnosticKey> {
    let e = asset_entity("variation"@, v.id@);
    key_if(
        invalid_weights(v.bodies@) || invalid_weights(v.clothing@) || invalid_weights(v.materials@)
            || invalid_weights(v.props@) || invalid_weights(v.clips@),
        asset_key(
            AssetDiagnosticCode::InvalidVariation,
            e,
            "provide non-empty weighted body, clothing, material, prop, and clip choices"@,
        ),
    ) + missing_clip_keys(e, v.clips@, clips)
}

pub open spec fn all_variation_keys(vs: Seq<VariationProfileV1>, clips: Seq<Seq<char>>) -> Seq<DiagnosticKey>
    decreases vs.len(),
{
    if vs.len() == 0 {
        Seq::empty()
    } else {
        all_variation_keys(vs.drop_last(), clips) + variation_keys(vs.last(), clips)
    }
}

/// Every problem of the library, in the order they are found.
pub open spec fn asset_library_keys(library: AssetLibraryV1) -> Seq<DiagnosticKey> {
    let rs = library.retarget_profiles@;
    let cs = library.clips@;
    let vs = library.variations@;
    duplicate_id_keys("retarget"@, retarget_ids(rs)) + duplicate_id_keys("clip"@, clip_ids(cs))
        + duplicate_id_keys("variation"@, variation_ids(vs)) + all_retarget_keys(rs) + all_clip_keys(
        cs,
        retarget_ids(rs),
    ) + all_variation_keys(vs, clip_ids(cs))
}

/// What validation needs of a library that the machine must hold: bone maps
/// built as maps, and weights that sum within a `u64`.
pub open spec fn asset_library_fits(library: AssetLibraryV1) -> bool {
    &&& forall|i: int| 0 <= i < library.retarget_profiles@.len() ==> (#[trigger] library.retarget_profiles@[i]).bone_map.wf()
    &&& forall|i: int| 0 <= i < library.variations@.len() ==> profile_totals_fit(#[trigger] library.variations@[i])
}

proof fn lemma_text_in_views(list: Seq<String>, s: Seq<char>)
    ensures
        text_in(list, s) == views(list).contains(s),
{
    if text_in(list, s) {
        let i = choose|i: int| 0 <= i < list.len() && (#[trigger] list[i])@ == s;
        assert(views(list)[i] == s);
    }
    if views(list).contains(s) {
        let i = views(list).index_of(s);
        assert(list[i]@ == s);
    }
}

/// Whether one of the first `end` IDs is `id`.
fn appears_before(ids: &Vec<String>, end: usize, id: &str) -> (r: bool)
    requires
        end <= ids@.len(),
    ensures
        r == views(ids@).take(end as int).contains(id@),
{
    let ghost t = views(ids@).take(end as int);
    let mut k: usize = 0;
    while k < end
        invariant
            end <= ids@.len(),
            t == views(ids@).take(end as int),
            k <= end,
            forall|j: int| 0 <= j < k ==> t[j] != id@,
        decreases end - k,
    {
        assert(t[k as int] == ids@[k as int]@);
        if str_eq(ids[k].as_str(), id) {
            assert(t[k as int] == id@);
            return true;
        }
        k = k + 1;
    }
    proof {
        if t.contains(id@) {
            let j = t.index_of(id@);
            assert(t[j] == id@);
        }
    }
    false
}

/// Report the empty and repeated IDs among `ids`, assets of kind `kind`.
fn duplicate_id_pass(diagnostics: &mut Vec<AssetDiagnostic>, kind: &str, ids: &Vec<String>)
    ensures
        keys(final(diagnostics)@) == keys(old(diagnostics)@) + duplicate_id_keys(kind@, views(ids@)),
{
    let ghost t = views(ids@);
    let mut i: usize = 0;
    proof {
        assert(t.take(0) =~= Seq::<Seq<char>>::empty());
        assert(keys(diagnostics@) =~= keys(old(diagnostics)@) + duplicate_id_keys(kind@, t.take(0)));
    }
    while i < ids.len()
        invariant
            t == views(ids@),
            i <= ids@.len(),
            keys(diagnostics@) == keys(old(diagnostics)@) + duplicate_id_keys(kind@, t.take(i as int)),
        decreases ids@.len() - i,
    {
        let id = ids[i].as_str();
        assert(id@ == t[i as int]);
        let flagged = id.is_empty() || appears_before(ids, i, id);
        proof {
            assert(t.take(i + 1).take(i as int) =~= t.take(i as int));
            assert(t.take(i + 1)[i as int] == t[i as int]);
            assert(t.take(i + 1).len() - 1 == i);
        }
        if flagged {
            report(
                diagnostics,
                AssetDiagnosticCode::DuplicateId,
                join3(kind, ":", id),
                owned("give this asset contract a unique stable ID"),
            );
        }
        proof {
            assert(keys(diagnostics@) =~= keys(old(diagnostics)@) + duplicate_id_keys(kind@, t.take(i + 1)));
        }
        i = i + 1;
    }
    assert(t.take(ids@.len() as int) =~= t);
}

fn retarget_id_list(ps: &Vec<RetargetProfileV1>) -> (r: Vec<String>)
    ensures
        views(r@) == retarget_ids(ps@),
{
    let mut out: Vec<String> = Vec::new();
    let mut i: usize = 0;
    while i < ps.len()
        invariant
            i <= ps@.len(),
            views(out@) == retarget_ids(ps@).take(i as int),
        decreases ps@.len() - i,
    {
        let ghost prior = out@;
        let id = ps[i].id.clone();
        out.push(id);
        proof {
            assert(views(out@) =~= views(prior).push(ps@[i as int].id@));
            assert(retarget_ids(ps@).take(i + 1) =~= retarget_ids(ps@).take(i as int).push(ps@[i as int].id@));
        }
        i = i + 1;
    }
    assert(retarget_ids(ps@).take(ps@.len() as int) =~= retarget_ids(ps@));
    out
}

fn clip_id_list(cs: &Vec<ClipMetadataV1>) -> (r: Vec<String>)
    ensures
        views(r@) == clip_ids(cs@),
{
    let mut out: Vec<String> = Vec::new();
    let mut i: usize = 0;
    while i < cs.len()
        invariant
            i <= cs@.len(),
            views(out@) == clip_ids(cs@).take(i as int),
        decreases cs@.len() - i,
    {
        let ghost prior = out@;
        let id = cs[i].id.clone();
        out.push(id);
        proof {
            assert(views(out@) =~= views(prior).push(cs@[i as int].id@));
            assert(clip_ids(cs@).take(i + 1) =~= clip_ids(cs@).take(i as int).push(cs@[i as int].id@));
        }
        i = i + 1;
    }
    assert(clip_ids(cs@).take(cs@.len() as int) =~= clip_ids(cs@));
    out
}

fn variation_id_list(vs: &Vec<VariationProfileV1>) -> (r: Vec<String>)
    ensures
        views(r@) == variation_ids(vs@),
{
    let mut out: Vec<String> = Vec::new();
    let mut i: usize = 0;
    while i < vs.len()
        invariant
            i <= vs@.len(),
            views(out@) == variation_ids(vs@).take(i as int),
        decreases vs@.len() - i,
    {
        let ghost prior = out@;
        let id = vs[i].id.clone();
        out.push(id);
        proof {
            assert(views(out@) =~= views(prior).push(vs@[i as int].id@));
            assert(variation_ids(vs@).take(i + 1) =~= variation_ids(vs@).take(i as int).push(vs@[i as int].id@));
        }
        i = i + 1;
    }
    assert(variation_ids(vs@).take(vs@.len() as int) =~= variation_ids(vs@));
    out
}

/// Report `code` about `entity` with `message` when `cond` holds.
fn report_if(
    diagnostics: &mut Vec<AssetDiagnostic>,
    cond: bool,
    code: AssetDiagnosticCode,
    entity: &str,
    message: String,
)
    ensures
        keys(final(diagnostics)@) == keys(old(diagnostics)@) + key_if(cond, asset_key(code, entity@, message@)),
{
    if cond {
        report(diagnostics, code, owned(entity), message);
    }
    proof {
        assert(keys(diagnostics@) =~= keys(old(diagnostics)@) + key_if(cond, asset_key(code, entity@, message@)));
    }
}

/// Report the canonical bone `bone` if the profile leaves it unmapped.
fn bone_pass(diagnostics: &mut Vec<AssetDiagnostic>, p: &RetargetProfileV1, entity: &str, bone: &str)
    requires
        p.bone_map.wf(),
        entity@ == asset_entity("retarget"@, p.id@),
    ensures
        keys(final(diagnostics)@) == keys(old(diagnostics)@) + missing_bone_key(*p, bone@),
{
    let missing = match p.bone_map.get(bone) {
        None => true,
        Some(b) => b.as_str().is_empty(),
    };
    report_if(
        diagnostics,
        missing,
        AssetDiagnosticCode::MissingBone,
        entity,
        join3("map the required canonical bone '", bone, "'"),
    );
}

/// Report what is wrong with one retarget profile.
fn retarget_pass(diagnostics: &mut Vec<AssetDiagnostic>, p: &RetargetProfileV1)
    requires
        p.bone_map.wf(),
    ensures
        keys(final(diagnostics)@) == keys(old(diagnostics)@) + retarget_keys(*p),
{
    let entity = join3("retarget", ":", p.id.as_str());
    let axis = p.forward_axis.as_str();
    let invalid = p.source_rig_id.as_str().is_empty() || p.root_bone.as_str().is_empty() || !(str_eq(axis, "X")
        || str_eq(axis, "-X") || str_eq(axis, "Y") || str_eq(axis, "-Y")) || p.scale_millimeters == 0;
    let ghost k0 = keys(diagnostics@);
    report_if(
        diagnostics,
        invalid,
        AssetDiagnosticCode::InvalidRetargetProfile,
        entity.as_str(),
        owned("set source rig, root bone, supported forward axis, and positive scale"),
    );
    let ghost k1 = keys(diagnostics@);
    bone_pass(diagnostics, p, entity.as_str(), "hips");
    let ghost k2 = keys(diagnostics@);
    bone_pass(diagnostics, p, entity.as_str(), "left_foot");
    let ghost k3 = keys(diagnostics@);
    bone_pass(diagnostics, p, entity.as_str(), "right_foot");
    proof {
        assert(keys(diagnostics@) =~= k0 + retarget_keys(*p));
    }
}

/// Whether any interval is out of order or reaches past `duration`.
fn has_bad_contact(cs: &Vec<ContactIntervalV1>, duration: u32) -> (r: bool)
    ensures
        r == any_bad_contact(cs@, duration),
{
    let mut i: usize = 0;
    while i < cs.len()
        invariant
            i <= cs@.len(),
            forall|j: int| 0 <= j < i ==> !bad_contact(#[trigger] cs@[j], duration),
        decreases cs@.len() - i,
    {
        let c = cs[i];
        if c.start > c.end || c.end >= duration {
            assert(bad_contact(cs@[i as int], duration));
            return true;
        }
        i = i + 1;
    }
    false
}

/// Report what is wrong with one clip.
fn clip_pass(diagnostics: &mut Vec<AssetDiagnostic>, c: &ClipMetadataV1, profile_ids: &Vec<String>)
    ensures
        keys(final(diagnostics)@) == keys(old(diagnostics)@) + clip_keys(*c, views(profile_ids@)),
{
    let entity = join3("clip", ":", c.id.as_str());
    let known = contains_text(profile_ids, c.retarget_profile_id.as_str());
    proof {
        lemma_text_in_views(profile_ids@, c.retarget_profile_id@);
    }
    let ghost k0 = keys(diagnostics@);
    report_if(
        diagnostics,
        !known,
        AssetDiagnosticCode::MissingRetargetProfile,
        entity.as_str(),
        owned("choose an existing retarget profile"),
    );
    let bad_loop = c.duration_ticks == 0 || c.loop_start_tick >= c.loop_end_tick || c.loop_end_tick
        >= c.duration_ticks || c.average_root_speed_mmps == 0;
    report_if(
        diagnostics,
        bad_loop,
        AssetDiagnosticCode::InvalidClipLoop,
        entity.as_str(),
        owned("set a positive duration, root speed, and loop range inside the clip"),
    );
    let bad_contact = has_bad_contact(&c.left_foot_contacts, c.duration_ticks) || has_bad_contact(
        &c.right_foot_contacts,
        c.duration_ticks,
    );
    report_if(
        diagnostics,
        bad_contact,
        AssetDiagnosticCode::InvalidFootContact,
        entity.as_str(),
        owned("keep ordered foot-contact intervals inside the clip duration"),
    );
    proof {
        assert(keys(diagnostics@) =~= k0 + clip_keys(*c, views(profile_ids@)));
    }
}

/// Whether a weighted list is empty, names an empty ID, or weighs nothing.
fn weights_invalid(items: &Vec<WeightedAssetV1>) -> (r: bool)
    requires
        weight_total(items@) <= u64::MAX,
    ensures
        r == invalid_weights(items@),
{
    if items.len() == 0 {
        return true;
    }
    let mut total: u64 = 0;
    let mut empty_id = false;
    let mut i: usize = 0;
    while i < items.len()
        invariant
            i <= items@.len(),
            total == weight_total(items@.take(i as int)),
            weight_total(items@) <= u64::MAX,
            empty_id == exists|j: int| 0 <= j < i && (#[trigger] items@[j]).id@.len() == 0,
        decreases items@.len() - i,
    {
        proof {
            assert(items@.take(i + 1).drop_last() =~= items@.take(i as int));
            lemma_weight_total_prefix(items@, i + 1);
        }
        if items[i].id.as_str().is_empty() {
            empty_id = true;
        }
        total = total + items[i].weight as u64;
        i = i + 1;
    }
    assert(items@.take(items@.len() as int) =~= items@);
    empty_id || total == 0
}

/// Report the clip choices of a variation that name no clip of the library.
fn missing_clip_pass(
    diagnostics: &mut Vec<AssetDiagnostic>,
    entity: &str,
    choices: &Vec<WeightedAssetV1>,
    clips: &Vec<String>,
)
    ensures
        keys(final(diagnostics)@) == keys(old(diagnostics)@) + missing_clip_keys(entity@, choices@, views(clips@)),
{
    let mut i: usize = 0;
    proof {
        assert(choices@.take(0) =~= Seq::<WeightedAssetV1>::empty());
        assert(keys(diagnostics@) =~= keys(old(diagnostics)@) + missing_clip_keys(entity@, choices@.take(0), views(clips@)));
    }
    while i < choices.len()
        invariant
            i <= choices@.len(),
            keys(diagnostics@) == keys(old(diagnostics)@) + missing_clip_keys(entity@, choices@.take(i as int), views(clips@)),
        decreases choices@.len() - i,
    {
        let w = &choices[i];
        let known = contains_text(clips, w.id.as_str());
        proof {
            lemma_text_in_views(clips@, w.id@);
            assert(choices@.take(i + 1).drop_last() =~= choices@.take(i as int));
            assert(choices@.take(i + 1).last() == choices@[i as int]);
        }
        report_if(
            diagnostics,
            !known,
            AssetDiagnosticCode::MissingClip,
            entity,
            join3("choose an existing clip instead of '", w.id.as_str(), "'"),
        );
        proof {
            assert(keys(diagnostics@) =~= keys(old(diagnostics)@) + missing_clip_keys(entity@, choices@.take(i + 1), views(clips@)));
        }
        i = i + 1;
    }
    assert(choices@.take(choices@.len() as int) =~= choices@);
}

/// Report what is wrong with one variation profile.
fn variation_pass(diagnostics: &mut Vec<AssetDiagnostic>, v: &VariationProfileV1, clips: &Vec<String>)
    requires
        profile_totals_fit(*v),
    ensures
        keys(final(diagnostics)@) == keys(old(diagnostics)@) + variation_keys(*v, views(clips@)),
{
    let entity = join3("variation", ":", v.id.as_str());
    let invalid = weights_invalid(&v.bodies) || weights_invalid(&v.clothing) || weights_invalid(&v.materials)
        || weights_invalid(&v.props) || weights_invalid(&v.clips);
    let ghost k0 = keys(diagnostics@);
    report_if(
        diagnostics,
        invalid,
        AssetDiagnosticCode::InvalidVariation,
        entity.as_str(),
        owned("provide non-empty weighted body, clothing, material, prop, and clip choices"),
    );
    missing_clip_pass(diagnostics, entity.as_str(), &v.clips, clips);
    proof {
        assert(keys(diagnostics@) =~= k0 + variation_keys(*v, views(clips@)));
    }
}

/// Two profiles with the same ID and the same weighted lists.
pub open spec fn same_profile(a: VariationProfileV1, b: VariationProfileV1) -> bool {
    &&& a.id@ == b.id@
    &&& a.bodies@ == b.bodies@
    &&& a.clothing@ == b.clothing@
    &&& a.materials@ == b.materials@
    &&& a.props@ == b.props@
    &&& a.clips@ == b.clips@
}

/// The compiled profiles are exactly the library's variations, by ID.
pub open spec fn compiled_from(m: Map<Seq<char>, VariationProfileV1>, vs: Seq<VariationProfileV1>) -> bool {
    &&& forall|k: Seq<char>| #[trigger] m.dom().contains(k) <==> variation_ids(vs).contains(k)
    &&& forall|i: int| 0 <= i < vs.len() ==> same_profile(m[(#[trigger] vs[i]).id@], vs[i])
}

proof fn lemma_no_duplicate_keys(kind: Seq<char>, ids: Seq<Seq<char>>)
    requires
        duplicate_id_keys(kind, ids).len() == 0,
    ensures
        forall|j: int, k: int| 0 <= j < k < ids.len() ==> ids[j] != ids[k],
    decreases ids.len(),
{
    if ids.len() > 0 {
        let n = ids.len() - 1;
        lemma_no_duplicate_keys(kind, ids.take(n));
        assert forall|j: int, k: int| 0 <= j < k < ids.len() implies ids[j] != ids[k] by {
            if k < n {
                assert(ids.take(n)[j] == ids[j] && ids.take(n)[k] == ids[k]);
            } else {
                assert(ids.take(n)[j] == ids[j]);
                assert(!ids.take(n).contains(ids[n]));
            }
        }
    }
}

/// Report what is wrong with each retarget profile.
fn retarget_section(diagnostics: &mut Vec<AssetDiagnostic>, rs: &Vec<RetargetProfileV1>)
    requires
        forall|i: int| 0 <= i < rs@.len() ==> (#[trigger] rs@[i]).bone_map.wf(),
    ensures
        keys(final(diagnostics)@) == keys(old(diagnostics)@) + all_retarget_keys(rs@),
{
    let ghost start = keys(diagnostics@);
    let mut i: usize = 0;
    proof {
        assert(rs@.take(0) =~= Seq::<RetargetProfileV1>::empty());
        assert(keys(diagnostics@) =~= start + all_retarget_keys(rs@.take(0)));
    }
    while i < rs.len()
        invariant
            forall|i: int| 0 <= i < rs@.len() ==> (#[trigger] rs@[i]).bone_map.wf(),
            i <= rs@.len(),
            start == keys(old(diagnostics)@),
            keys(diagnostics@) == start + all_retarget_keys(rs@.take(i as int)),
        decreases rs@.len() - i,
    {
        assert(rs@[i as int].bone_map.wf());
        retarget_pass(diagnostics, &rs[i]);
        proof {
            assert(rs@.take(i + 1).drop_last() =~= rs@.take(i as int));
            assert(rs@.take(i + 1).last() == rs@[i as int]);
            assert(keys(diagnostics@) =~= start + all_retarget_keys(rs@.take(i + 1)));
        }
        i = i + 1;
    }
    assert(rs@.take(rs@.len() as int) =~= rs@);
}

/// Report what is wrong with each clip.
fn clip_section(diagnostics: &mut Vec<AssetDiagnostic>, cs: &Vec<ClipMetadataV1>, rids: &Vec<String>)
    ensures
        keys(final(diagnostics)@) == keys(old(diagnostics)@) + all_clip_keys(cs@, views(rids@)),
{
    let ghost start = keys(diagnostics@);
    let mut i: usize = 0;
    proof {
        assert(cs@.take(0) =~= Seq::<ClipMetadataV1>::empty());
        assert(keys(diagnostics@) =~= start + all_clip_keys(cs@.take(0), views(rids@)));
    }
    while i < cs.len()
        invariant
            i <= cs@.len(),
            start == keys(old(diagnostics)@),
            keys(diagnostics@) == start + all_clip_keys(cs@.take(i as int), views(rids@)),
        decreases cs@.len() - i,
    {
        clip_pass(diagnostics, &cs[i], rids);
        proof {
            assert(cs@.take(i + 1).drop_last() =~= cs@.take(i as int));
            assert(cs@.take(i + 1).last() == cs@[i as int]);
            assert(keys(diagnostics@) =~= start + all_clip_keys(cs@.take(i + 1), views(rids@)));
        }
        i = i + 1;
    }
    assert(cs@.take(cs@.len() as int) =~= cs@);
}

/// The profiles of `vs` by ID, the later winning; each kept one is the last of
/// its ID.
pub open spec fn holds_last_profiles(m: TextMap<VariationProfileV1>, vs: Seq<VariationProfileV1>, n: int) -> bool {
    &&& m.wf()
    &&& forall|k: Seq<char>| #[trigger] m.as_map().dom().contains(k) <==> variation_ids(vs).take(n).contains(k)
    &&& forall|k: Seq<char>| #[trigger] m.as_map().dom().contains(k) ==> profile_totals_fit(m.as_map()[k])
    &&& forall|j: int|
        0 <= j < n && (forall|l: int| j < l < n ==> vs[l].id@ != vs[j].id@) ==> same_profile(
            m.as_map()[(#[trigger] vs[j]).id@],
            vs[j],
        )
}

/// Report what is wrong with each variation profile, and key the profiles by
/// ID.
fn variation_section(diagnostics: &mut Vec<AssetDiagnostic>, vs: &Vec<VariationProfileV1>, cids: &Vec<String>) -> (m:
    TextMap<VariationProfileV1>)
    requires
        forall|i: int| 0 <= i < vs@.len() ==> profile_totals_fit(#[trigger] vs@[i]),
    ensures
        keys(final(diagnostics)@) == keys(old(diagnostics)@) + all_variation_keys(vs@, views(cids@)),
        holds_last_profiles(m, vs@, vs@.len() as int),
{
    let ghost start = keys(diagnostics@);
    let mut variations: TextMap<VariationProfileV1> = TextMap::new();
    let ghost ids = variation_ids(vs@);
    let mut i: usize = 0;
    proof {
        assert(vs@.take(0) =~= Seq::<VariationProfileV1>::empty());
        assert(keys(diagnostics@) =~= start + all_variation_keys(vs@.take(0), views(cids@)));
        assert(ids.take(0) =~= Seq::<Seq<char>>::empty());
    }
    while i < vs.len()
        invariant
            forall|i: int| 0 <= i < vs@.len() ==> profile_totals_fit(#[trigger] vs@[i]),
            ids == variation_ids(vs@),
            i <= vs@.len(),
            start == keys(old(diagnostics)@),
            keys(diagnostics@) == start + all_variation_keys(vs@.take(i as int), views(cids@)),
            holds_last_profiles(variations, vs@, i as int),
        decreases vs@.len() - i,
    {
        assert(profile_totals_fit(vs@[i as int]));
        variation_pass(diagnostics, &vs[i], cids);
        let copy = vs[i].duplicate();
        let ghost old_map = variations.as_map();
        variations.insert(vs[i].id.clone(), copy);
        proof {
            assert(vs@.take(i + 1).drop_last() =~= vs@.take(i as int));
            assert(vs@.take(i + 1).last() == vs@[i as int]);
            assert(keys(diagnostics@) =~= start + all_variation_keys(vs@.take(i + 1), views(cids@)));
            assert(ids[i as int] == vs@[i as int].id@);
            assert forall|k: Seq<char>| #[trigger] variations.as_map().dom().contains(k) <==> ids.take(i + 1).contains(k) by {
                if ids.take(i + 1).contains(k) {
                    let m = ids.take(i + 1).index_of(k);
                    if m < i {
                        assert(ids.take(i as int)[m] == k);
                    }
                }
                if ids.take(i as int).contains(k) {
                    let m = ids.take(i as int).index_of(k);
                    assert(ids.take(i + 1)[m] == k);
                }
                if k == ids[i as int] {
                    assert(ids.take(i + 1)[i as int] == k);
                }
            }
            assert forall|k: Seq<char>| #[trigger] variations.as_map().dom().contains(k) implies profile_totals_fit(
                variations.as_map()[k],
            ) by {
                if k != vs@[i as int].id@ {
                    assert(old_map.dom().contains(k));
                }
            }
            assert forall|j: int|
                0 <= j < i + 1 && (forall|l: int| j < l < i + 1 ==> vs@[l].id@ != vs@[j].id@) implies same_profile(
                variations.as_map()[(#[trigger] vs@[j]).id@],
                vs@[j],
            ) by {
                if j < i {
                    assert(vs@[i as int].id@ != vs@[j].id@);
                }
            }
        }
        i = i + 1;
    }
    assert(vs@.take(vs@.len() as int) =~= vs@);
    variations
}

proof fn lemma_unique_profiles(m: TextMap<VariationProfileV1>, vs: Seq<VariationProfileV1>)
    requires
        holds_last_profiles(m, vs, vs.len() as int),
        duplicate_id_keys("variation"@, variation_ids(vs)).len() == 0,
    ensures
        compiled_from(m.as_map(), vs),
{
    lemma_no_duplicate_keys("variation"@, variation_ids(vs));
    assert(variation_ids(vs).take(vs.len() as int) =~= variation_ids(vs));
    assert forall|j: int| 0 <= j < vs.len() implies same_profile(m.as_map()[(#[trigger] vs[j]).id@], vs[j]) by {
        assert forall|l: int| j < l < vs.len() implies vs[l].id@ != vs[j].id@ by {
            assert(variation_ids(vs)[l] == vs[l].id@ && variation_ids(vs)[j] == vs[j].id@);
        }
    }
}

/// Check an asset library, reporting every problem.
///
/// `Ok` holds the variation profiles by ID when nothing is wrong; otherwise
/// `Err` holds every problem of `asset_library_keys`, sorted by subject, code
/// and message.
pub fn validate_asset_library(library: &AssetLibraryV1) -> (r: Result<CompiledAssetLibrary, Vec<AssetDiagnostic>>)
    requires
        asset_library_fits(*library),
    ensures
        r is Ok <==> asset_library_keys(*library).len() == 0,
        r matches Err(d) ==> keys(d@).to_multiset() == asset_library_keys(*library).to_multiset() && keys_sorted(
            keys(d@),
        ),
        r matches Ok(c) ==> c.wf() && compiled_from(c.profiles(), library.variations@),
{
    let rs = &library.retarget_profiles;
    let cs = &library.clips;
    let vs = &library.variations;
    let mut diagnostics: Vec<AssetDiagnostic> = Vec::new();
    let rids = retarget_id_list(rs);
    let cids = clip_id_list(cs);
    let vids = variation_id_list(vs);
    duplicate_id_pass(&mut diagnostics, "retarget", &rids);
    duplicate_id_pass(&mut diagnostics, "clip", &cids);
    duplicate_id_pass(&mut diagnostics, "variation", &vids);
    retarget_section(&mut diagnostics, rs);
    clip_section(&mut diagnostics, cs, &rids);
    let variations = variation_section(&mut diagnostics, vs, &cids);
    proof {
        assert(keys(diagnostics@) =~= asset_library_keys(*library));
    }
    let sorted = sort_diagnostics(diagnostics);
    proof {
        vstd::seq_lib::to_multiset_len(keys(sorted@));
        vstd::seq_lib::to_multiset_len(asset_library_keys(*library));
    }
    if sorted.len() == 0 {
        proof {
            lemma_unique_profiles(variations, vs@);
        }
        Ok(CompiledAssetLibrary { variations })
    } else {
        Err(sorted)
    }
}

/// A pick names an item of positive weight.
proof fn lemma_pick_positive(items: Seq<WeightedAssetV1>, value: nat)
    ensures
        pick(items, value) matches Some(id) ==> exists|i: int|
            0 <= i < items.len() && (#[trigger] items[i]).id@ == id && items[i].weight > 0,
    decreases items.len(),
{
    if items.len() > 0 && !(value < items[0].weight) {
        lemma_pick_positive(items.drop_first(), (value - items[0].weight) as nat);
        if let Some(id) = pick(items, value) {
            let i = choose|i: int|
                0 <= i < items.drop_first().len() && (#[trigger] items.drop_first()[i]).id@ == id
                    && items.drop_first()[i].weight > 0;
            assert(items[i + 1] == items.drop_first()[i]);
        }
    } else if items.len() > 0 {
        assert(items[0].weight > 0);
    }
}

/// The total weight of the first `k` items.
pub open spec fn weight_before(items: Seq<WeightedAssetV1>, k: int) -> int
    decreases k,
{
    if k <= 0 {
        0
    } else {
        weight_before(items, k - 1) + items[k - 1].weight
    }
}

proof fn lemma_weight_before_shift(items: Seq<WeightedAssetV1>, k: int)
    requires
        items.len() > 0,
        0 <= k < items.len(),
    ensures
        weight_before(items, k + 1) == items[0].weight + weight_before(items.drop_first(), k),
    decreases k,
{
    if k > 0 {
        lemma_weight_before_shift(items, k - 1);
        assert(items.drop_first()[k - 1] == items[k]);
    } else {
        assert(weight_before(items, 0) == 0);
        assert(weight_before(items.drop_first(), 0) == 0);
    }
}

/// A weighted pick lays the items end to end by weight and takes the one
/// whose stretch holds the drawn value: it picks exactly when the value is
/// below the total weight, and then the item `k` with the weight of the
/// items before it at most the value and that weight plus its own above it.
pub proof fn lemma_pick_is_weighted(items: Seq<WeightedAssetV1>, value: nat)
    ensures
        pick(items, value) is Some <==> value < weight_before(items, items.len() as int),
        pick(items, value) matches Some(id) ==> exists|k: int|
            0 <= k < items.len() && (#[trigger] items[k]).id@ == id && weight_before(items, k) <= value
                < weight_before(items, k) + items[k].weight,
    decreases items.len(),
{
    if items.len() > 0 {
        let t = items.drop_first();
        lemma_weight_before_shift(items, t.len() as int);
        if value < items[0].weight {
            assert(weight_before(items, 0) == 0);
            assert(weight_before(items, 1) == items[0].weight);
            lemma_weight_before_nonneg(t, t.len() as int);
        } else {
            lemma_pick_is_weighted(t, (value - items[0].weight) as nat);
            if let Some(id) = pick(items, value) {
                let k = choose|k: int|
                    0 <= k < t.len() && (#[trigger] t[k]).id@ == id && weight_before(t, k) <= (value - items[0].weight)
                        < weight_before(t, k) + t[k].weight;
                lemma_weight_before_shift(items, k);
                assert(items[k + 1] == t[k]);
            }
        }
    }
}

proof fn lemma_weight_before_nonneg(items: Seq<WeightedAssetV1>, k: int)
    requires
        k <= items.len(),
    ensures
        weight_before(items, k) >= 0,
    decreases k,
{
    if k > 0 {
        lemma_weight_before_nonneg(items, k - 1);
    }
}

/// A selection from a checked library names, on every channel, an item of
/// positive weight of the variation with the profile's ID; a zero-weight
/// item is never chosen. The same profile, seed and agent always give the
/// same selection (the choice is a function of them).
pub proof fn lemma_selection_uses_weighted_items(
    library: AssetLibraryV1,
    compiled: CompiledAssetLibrary,
    i: int,
    global_seed: u64,
    agent_id: AgentId,
    channel: &str,
)
    requires
        compiled_from(compiled.profiles(), library.variations@),
        0 <= i < library.variations@.len(),
    ensures
        compiled.profiles().dom().contains(library.variations@[i].id@),
        ({
            let v = library.variations@[i];
            let p = compiled.profiles()[v.id@];
            &&& p.bodies@ == v.bodies@ && p.clothing@ == v.clothing@ && p.materials@ == v.materials@
                && p.props@ == v.props@ && p.clips@ == v.clips@
            &&& choose_spec(v.bodies@, global_seed, agent_id, channel) matches Some(id) ==> exists|k: int|
                0 <= k < v.bodies@.len() && (#[trigger] v.bodies@[k]).id@ == id && v.bodies@[k].weight > 0
            &&& choose_spec(v.clothing@, global_seed, agent_id, channel) matches Some(id) ==> exists|k: int|
                0 <= k < v.clothing@.len() && (#[trigger] v.clothing@[k]).id@ == id && v.clothing@[k].weight > 0
            &&& choose_spec(v.materials@, global_seed, agent_id, channel) matches Some(id) ==> exists|k: int|
                0 <= k < v.materials@.len() && (#[trigger] v.materials@[k]).id@ == id && v.materials@[k].weight > 0
            &&& choose_spec(v.props@, global_seed, agent_id, channel) matches Some(id) ==> exists|k: int|
                0 <= k < v.props@.len() && (#[trigger] v.props@[k]).id@ == id && v.props@[k].weight > 0
            &&& choose_spec(v.clips@, global_seed, agent_id, channel) matches Some(id) ==> exists|k: int|
                0 <= k < v.clips@.len() && (#[trigger] v.clips@[k]).id@ == id && v.clips@[k].weight > 0
        }),
{
    let v = library.variations@[i];
    assert(variation_ids(library.variations@)[i] == v.id@);
    assert(same_profile(compiled.profiles()[v.id@], v));
    let s = channel_sample(global_seed, agent_id, channel) as nat;
    if weight_total(v.bodies@) > 0 {
        lemma_pick_positive(v.bodies@, s % weight_total(v.bodies@));
    }
    if weight_total(v.clothing@) > 0 {
        lemma_pick_positive(v.clothing@, s % weight_total(v.clothing@));
    }
    if weight_total(v.materials@) > 0 {
        lemma_pick_positive(v.materials@, s % weight_total(v.materials@));
    }
    if weight_total(v.props@) > 0 {
        lemma_pick_positive(v.props@, s % weight_total(v.props@));
    }
    if weight_total(v.clips@) > 0 {
        lemma_pick_positive(v.clips@, s % weight_total(v.clips@));
    }
}

} // verus!
