//! Validation of the versioned crowd-project authoring IR.
//!
//! A project is checked as a whole: every problem is reported, the report is
//! sorted by code, entity and message, and a problem found twice is reported
//! once. Measurements the checks make of authored numbers (that a range is
//! finite and ordered, that a region lies inside another) are carried by the
//! IR as the answers the checks read.

use vstd::prelude::*;
use crate::diagnostics::{DiagnosticKey, keys, keys_strictly_sorted, lemma_is_report_of, report_of, sort_unique_diagnostics};
use crate::text::{decimal, join2, join3, owned, push_decimal, str_eq, views};
use crate::keyed::{TextMap, sorted_keys, lemma_is_sorted_keys, lemma_sorted_distinct};
use crate::route::{edge_lists, edges_in_range, reachable, reachable_from};
use vstd::string::StringSliceAdditionalSpecFns;
use vstd::utf8::encode_utf8;

verus! {

/// The project schema version this library reads.
pub const PROJECT_IR_SCHEMA_VERSION: u32 = 1;

/// The units the project is authored in.
#[derive(Debug)]
pub struct UnitsIrV1 {
    pub length: String,
    pub angle: String,
}

/// The simulation clock and the frame range to bake.
#[derive(Clone, Copy, Debug, PartialEq, Eq, Structural)]
pub struct ClockIrV1 {
    pub ticks_per_second: u32,
    pub frame_start: i32,
    pub frame_end: i32,
    pub frames_per_second: u32,
}

/// How strictly a bake must reproduce.
#[derive(Clone, Copy, Debug, PartialEq, Eq, Structural)]
pub enum DeterminismModeIrV1 {
    Strict,
    Fast,
}

/// A character archetype: its asset and clip set.
#[derive(Debug)]
pub struct ArchetypeIrV1 {
    pub id: String,
    pub asset_id: String,
    pub clip_set_id: String,
}

/// A material variation.
#[derive(Debug)]
pub struct AppearanceIrV1 {
    pub id: String,
    pub material_id: String,
}

/// A weighted reference, as validation reads it: the ID it names. Its weight
/// is judged with the rest of its list, by the population that holds it.
#[derive(Debug)]
pub struct WeightedRefIrV1 {
    pub id: String,
}

/// A population: how many agents, from which spawns, to which destinations,
/// with which looks.
#[derive(Debug)]
pub struct PopulationIrV1 {
    pub id: String,
    pub count: u32,
    pub spawn_source_ids: Vec<String>,
    pub destinations: Vec<WeightedRefIrV1>,
    pub archetypes: Vec<WeightedRefIrV1>,
    pub appearances: Vec<WeightedRefIrV1>,
    /// The destination weights are finite, not negative, and have a positive
    /// finite total.
    pub destination_weights_valid: bool,
    /// The archetype weights are finite, not negative, and have a positive
    /// finite total.
    pub archetype_weights_valid: bool,
    /// The appearance weights are finite, not negative, and have a positive
    /// finite total.
    pub appearance_weights_valid: bool,
    /// The radius and scale ranges are finite, ordered and positive, and the
    /// preferred speed has a finite mean no lower than the slowest preferred
    /// speed and a finite, non-negative spread.
    pub distributions_valid: bool,
}

/// A walkable region.
#[derive(Debug)]
pub struct WalkableIrV1 {
    pub id: String,
    /// Its bounds are finite and have positive area.
    pub bounds_valid: bool,
}

/// An obstacle inside a walkable region.
#[derive(Debug)]
pub struct BlockedIrV1 {
    pub id: String,
    pub walkable_id: String,
    /// Its bounds are finite and have positive area.
    pub bounds_valid: bool,
    /// Its bounds lie inside those of the last walkable region named
    /// `walkable_id`, when there is one.
    pub inside_walkable: bool,
}

/// A spawn area inside a walkable region.
#[derive(Debug)]
pub struct SpawnIrV1 {
    pub id: String,
    pub walkable_id: String,
    /// Its bounds are finite and have positive area.
    pub bounds_valid: bool,
    /// Its bounds lie inside those of the last walkable region named
    /// `walkable_id`, when there is one.
    pub inside_walkable: bool,
}

/// A destination point inside a walkable region.
#[derive(Debug)]
pub struct DestinationIrV1 {
    pub id: String,
    pub walkable_id: String,
    /// Its coordinates are finite.
    pub point_finite: bool,
    /// The point lies inside the bounds of the last walkable region named
    /// `walkable_id`, when there is one.
    pub inside_walkable: bool,
}

/// The axis a portal opens across.
#[derive(Clone, Copy, Debug, PartialEq, Eq, Structural)]
pub enum PortalAxisIrV1 {
    EastWest,
    NorthSouth,
}

/// A door between two walkable regions.
#[derive(Debug)]
pub struct PortalIrV1 {
    pub id: String,
    pub from_walkable_id: String,
    pub to_walkable_id: String,
    /// Its center is finite and its width finite and positive.
    pub geometry_valid: bool,
    pub axis: PortalAxisIrV1,
    pub bidirectional: bool,
    pub initially_open: bool,
}

/// The semantic layout: walkable regions and what stands in them.
#[derive(Debug)]
pub struct SemanticIrV1 {
    pub walkable: Vec<WalkableIrV1>,
    pub blocked: Vec<BlockedIrV1>,
    pub spawns: Vec<SpawnIrV1>,
    pub destinations: Vec<DestinationIrV1>,
    pub portals: Vec<PortalIrV1>,
}

/// A portal opening or closing at a tick.
#[derive(Debug)]
pub struct TimedPortalEventV1 {
    pub tick: u64,
    pub portal_id: String,
    pub open: bool,
}

/// Navigation settings, as validation reads them.
#[derive(Clone, Copy, Debug, PartialEq, Eq, Structural)]
pub struct NavigationSettingsIrV1 {
    /// The tile size is finite and positive.
    pub tile_size_valid: bool,
    /// The agent radius is finite and positive.
    pub agent_radius_valid: bool,
}

/// The avoidance solver to run.
#[derive(Debug)]
pub struct AvoidanceSettingsIrV1 {
    pub solver: String,
}

/// Animation settings, as validation reads them.
#[derive(Debug)]
pub struct AnimationSettingsIrV1 {
    pub locomotion_set_id: String,
    /// The jog threshold is finite and positive.
    pub jog_threshold_valid: bool,
}

/// Project-wide settings.
#[derive(Debug)]
pub struct ProjectSettingsIrV1 {
    pub navigation: NavigationSettingsIrV1,
    pub avoidance: AvoidanceSettingsIrV1,
    pub animation: AnimationSettingsIrV1,
}

/// A crowd project as authored.
#[derive(Debug)]
pub struct ProjectIrV1 {
    pub schema_version: u32,
    pub project_id: String,
    pub seed: u64,
    pub units: UnitsIrV1,
    pub clock: ClockIrV1,
    pub mode: DeterminismModeIrV1,
    pub commuter_program: String,
    pub archetypes: Vec<ArchetypeIrV1>,
    pub appearances: Vec<AppearanceIrV1>,
    pub populations: Vec<PopulationIrV1>,
    pub semantics: SemanticIrV1,
    pub portal_events: Vec<TimedPortalEventV1>,
    pub settings: ProjectSettingsIrV1,
}

/// How serious a problem is.
#[derive(Clone, Copy, Debug, PartialEq, Eq, PartialOrd, Ord, Structural)]
pub enum DiagnosticSeverity {
    Error,
}

/// What is wrong with a project; the variant order is the report order.
#[derive(Clone, Copy, Debug, PartialEq, Eq, PartialOrd, Ord, Structural)]
pub enum DiagnosticCode {
    UnsupportedVersion,
    InvalidProjectId,
    InvalidUnits,
    InvalidClock,
    DuplicateId,
    InvalidCount,
    InvalidRange,
    MissingSpawn,
    MissingDestination,
    MissingWalkable,
    MissingBlocked,
    MissingPortal,
    MissingArchetype,
    MissingAppearance,
    UnreachableDestination,
    InvalidWeights,
    ContradictoryPortalEvent,
    UnsupportedProgram,
    UnsupportedSetting,
}

impl DiagnosticCode {
    /// The position of the code in report order.
    pub open spec fn rank(self) -> nat {
        match self {
            DiagnosticCode::UnsupportedVersion => 0,
            DiagnosticCode::InvalidProjectId => 1,
            DiagnosticCode::InvalidUnits => 2,
            DiagnosticCode::InvalidClock => 3,
            DiagnosticCode::DuplicateId => 4,
            DiagnosticCode::InvalidCount => 5,
            DiagnosticCode::InvalidRange => 6,
            DiagnosticCode::MissingSpawn => 7,
            DiagnosticCode::MissingDestination => 8,
            DiagnosticCode::MissingWalkable => 9,
            DiagnosticCode::MissingBlocked => 10,
            DiagnosticCode::MissingPortal => 11,
            DiagnosticCode::MissingArchetype => 12,
            DiagnosticCode::MissingAppearance => 13,
            DiagnosticCode::UnreachableDestination => 14,
            DiagnosticCode::InvalidWeights => 15,
            DiagnosticCode::ContradictoryPortalEvent => 16,
            DiagnosticCode::UnsupportedProgram => 17,
            DiagnosticCode::UnsupportedSetting => 18,
        }
    }

    pub fn rank_of(self) -> (r: u8)
        ensures
            r as nat == self.rank(),
    {
        match self {
            DiagnosticCode::UnsupportedVersion => 0,
            DiagnosticCode::InvalidProjectId => 1,
            DiagnosticCode::InvalidUnits => 2,
            DiagnosticCode::InvalidClock => 3,
            DiagnosticCode::DuplicateId => 4,
            DiagnosticCode::InvalidCount => 5,
            DiagnosticCode::InvalidRange => 6,
            DiagnosticCode::MissingSpawn => 7,
            DiagnosticCode::MissingDestination => 8,
            DiagnosticCode::MissingWalkable => 9,
            DiagnosticCode::MissingBlocked => 10,
            DiagnosticCode::MissingPortal => 11,
            DiagnosticCode::MissingArchetype => 12,
            DiagnosticCode::MissingAppearance => 13,
            DiagnosticCode::UnreachableDestination => 14,
            DiagnosticCode::InvalidWeights => 15,
            DiagnosticCode::ContradictoryPortalEvent => 16,
            DiagnosticCode::UnsupportedProgram => 17,
            DiagnosticCode::UnsupportedSetting => 18,
        }
    }
}

/// One problem found in a project.
#[derive(Debug)]
pub struct Diagnostic {
    pub severity: DiagnosticSeverity,
    pub code: DiagnosticCode,
    pub entity_id: String,
    pub message: String,
}

/// The key of a project diagnostic: reports sort by code, then entity, then
/// message.
pub open spec fn project_key(code: DiagnosticCode, entity: Seq<char>, message: Seq<char>) -> DiagnosticKey {
    (code.rank(), entity, 0, message)
}

impl crate::diagnostics::Diagnostic for Diagnostic {
    open spec fn key(&self) -> DiagnosticKey {
        project_key(self.code, self.entity_id@, self.message@)
    }

    fn class_rank(&self) -> (r: u8) {
        self.code.rank_of()
    }

    fn subject_str(&self) -> (r: &str) {
        self.entity_id.as_str()
    }

    fn code_rank(&self) -> (r: u8) {
        0
    }

    fn message_str(&self) -> (r: &str) {
        self.message.as_str()
    }
}

/// A diagnostic with these parts when `cond` holds, nothing otherwise.
pub open spec fn report_when(cond: bool, code: DiagnosticCode, entity: Seq<char>, message: Seq<char>) -> Seq<
    DiagnosticKey,
> {
    if cond {
        seq![project_key(code, entity, message)]
    } else {
        Seq::empty()
    }
}

/// Record a diagnostic with these parts when `cond` holds.
fn report(diagnostics: &mut Vec<Diagnostic>, cond: bool, code: DiagnosticCode, entity: String, message: String)
    ensures
        keys(final(diagnostics)@) == keys(old(diagnostics)@) + report_when(cond, code, entity@, message@),
{
    if cond {
        let d = Diagnostic { severity: DiagnosticSeverity::Error, code, entity_id: entity, message };
        diagnostics.push(d);
        proof {
            assert(keys(diagnostics@) =~= keys(old(diagnostics)@) + report_when(cond, code, entity@, message@));
        }
    } else {
        proof {
            assert(keys(diagnostics@) =~= keys(old(diagnostics)@) + report_when(cond, code, entity@, message@));
        }
    }
}

/// An ASCII hexadecimal digit, either case.
pub open spec fn is_hex_digit(b: u8) -> bool {
    (48 <= b && b <= 57) || (65 <= b && b <= 70) || (97 <= b && b <= 102)
}

/// A canonical hyphenated UUID: 36 bytes, hyphens at 8, 13, 18 and 23, and
/// hexadecimal digits elsewhere.
pub open spec fn is_uuid(s: Seq<u8>) -> bool {
    &&& s.len() == 36
    &&& forall|i: int|
        0 <= i < 36 ==> if i == 8 || i == 13 || i == 18 || i == 23 {
            #[trigger] s[i] == 45
        } else {
            is_hex_digit(s[i])
        }
}

/// Whether `value` is a canonical hyphenated UUID.
pub fn valid_uuid(value: &str) -> (r: bool)
    ensures
        r == is_uuid(encode_utf8(value@)),
{
    let bytes = value.as_bytes();
    if bytes.len() != 36 {
        return false;
    }
    let mut i: usize = 0;
    while i < 36
        invariant
            bytes@ == value.spec_bytes(),
            bytes@.len() == 36,
            i <= 36,
            forall|j: int|
                0 <= j < i ==> if j == 8 || j == 13 || j == 18 || j == 23 {
                    #[trigger] bytes@[j] == 45
                } else {
                    is_hex_digit(bytes@[j])
                },
        decreases 36 - i,
    {
        let b = bytes[i];
        let ok = if i == 8 || i == 13 || i == 18 || i == 23 {
            b == 45
        } else {
            (48 <= b && b <= 57) || (65 <= b && b <= 70) || (97 <= b && b <= 102)
        };
        if !ok {
            return false;
        }
        i = i + 1;
    }
    true
}

/// `kind:id`, the entity a diagnostic about an item names.
pub open spec fn entity(kind: Seq<char>, id: Seq<char>) -> Seq<char> {
    kind + ":"@ + id
}

/// The entity of the project itself.
pub open spec fn project_entity(p: ProjectIrV1) -> Seq<char> {
    entity("project"@, p.project_id@)
}

/// An ID that is empty or repeats an earlier one, each reported under `kind`.
pub open spec fn duplicate_id_keys(kind: Seq<char>, ids: Seq<Seq<char>>) -> Seq<DiagnosticKey>
    decreases ids.len(),
{
    if ids.len() == 0 {
        Seq::empty()
    } else {
        let id = ids.last();
        duplicate_id_keys(kind, ids.drop_last()) + report_when(
            id.len() == 0 || ids.drop_last().contains(id),
            DiagnosticCode::DuplicateId,
            entity(kind, id),
            kind + " IDs must be non-empty and unique"@,
        )
    }
}

/// Whether one of the first `end` texts is `id`.
fn text_seen(ids: &Vec<&str>, end: usize, id: &str) -> (r: bool)
    requires
        end <= ids@.len(),
    ensures
        r == text_views(ids@).take(end as int).contains(id@),
{
    let ghost t = text_views(ids@).take(end as int);
    let mut k: usize = 0;
    while k < end
        invariant
            end <= ids@.len(),
            t == text_views(ids@).take(end as int),
            k <= end,
            forall|j: int| 0 <= j < k ==> t[j] != id@,
        decreases end - k,
    {
        assert(t[k as int] == ids@[k as int]@);
        if str_eq(ids[k], id) {
            return true;
        }
        k = k + 1;
    }
    proof {
        if t.contains(id@) {
            let j = t.index_of(id@);
            assert(t[j] == id@);
        }
    }
    false
}

/// The texts of a list of string slices.
pub open spec fn text_views(v: Seq<&str>) -> Seq<Seq<char>> {
    v.map_values(|s: &str| s@)
}

/// Report every ID that is empty or repeats an earlier one.
pub fn duplicate_ids(kind: &str, ids: &Vec<&str>, diagnostics: &mut Vec<Diagnostic>)
    ensures
        keys(final(diagnostics)@) == keys(old(diagnostics)@) + duplicate_id_keys(kind@, text_views(ids@)),
{
    let ghost k0 = keys(diagnostics@);
    let ghost all = text_views(ids@);
    let mut i: usize = 0;
    proof {
        assert(all.take(0) =~= Seq::<Seq<char>>::empty());
        assert(keys(diagnostics@) =~= k0 + duplicate_id_keys(kind@, all.take(0)));
    }
    while i < ids.len()
        invariant
            all == text_views(ids@),
            i <= ids@.len(),
            k0 == keys(old(diagnostics)@),
            keys(diagnostics@) == k0 + duplicate_id_keys(kind@, all.take(i as int)),
        decreases ids@.len() - i,
    {
        let id = ids[i];
        let bad = id.is_empty() || text_seen(ids, i, id);
        report(
            diagnostics,
            bad,
            DiagnosticCode::DuplicateId,
            join3(kind, ":", id),
            join2(kind, " IDs must be non-empty and unique"),
        );
        proof {
            let t = all.take(i + 1);
            assert(t.drop_last() =~= all.take(i as int));
            assert(t.last() == id@);
            assert(keys(diagnostics@) =~= k0 + duplicate_id_keys(kind@, t));
        }
        i = i + 1;
    }
    assert(all.take(ids@.len() as int) =~= all);
}

pub open spec fn archetype_ids(v: Seq<ArchetypeIrV1>) -> Seq<Seq<char>> {
    v.map_values(|a: ArchetypeIrV1| a.id@)
}

pub open spec fn appearance_ids(v: Seq<AppearanceIrV1>) -> Seq<Seq<char>> {
    v.map_values(|a: AppearanceIrV1| a.id@)
}

pub open spec fn population_ids(v: Seq<PopulationIrV1>) -> Seq<Seq<char>> {
    v.map_values(|a: PopulationIrV1| a.id@)
}

pub open spec fn ref_ids(v: Seq<WeightedRefIrV1>) -> Seq<Seq<char>> {
    v.map_values(|a: WeightedRefIrV1| a.id@)
}

pub open spec fn walkable_ids(v: Seq<WalkableIrV1>) -> Seq<Seq<char>> {
    v.map_values(|a: WalkableIrV1| a.id@)
}

pub open spec fn blocked_ids(v: Seq<BlockedIrV1>) -> Seq<Seq<char>> {
    v.map_values(|a: BlockedIrV1| a.id@)
}

pub open spec fn spawn_ids(v: Seq<SpawnIrV1>) -> Seq<Seq<char>> {
    v.map_values(|a: SpawnIrV1| a.id@)
}

pub open spec fn destination_ids(v: Seq<DestinationIrV1>) -> Seq<Seq<char>> {
    v.map_values(|a: DestinationIrV1| a.id@)
}

pub open spec fn portal_ids(v: Seq<PortalIrV1>) -> Seq<Seq<char>> {
    v.map_values(|a: PortalIrV1| a.id@)
}

/// Problems of the project's header, settings and top-level IDs, in the
/// order found.
pub open spec fn header_keys(p: ProjectIrV1) -> Seq<DiagnosticKey> {
    let e = project_entity(p);
    report_when(
        p.schema_version != PROJECT_IR_SCHEMA_VERSION,
        DiagnosticCode::UnsupportedVersion,
        e,
        "unsupported project schema "@ + decimal(p.schema_version as nat),
    ) + report_when(
        !is_uuid(encode_utf8(p.project_id@)),
        DiagnosticCode::InvalidProjectId,
        e,
        "project_id must be a canonical hyphenated UUID"@,
    ) + report_when(
        p.units.length@ != "meters"@ || p.units.angle@ != "radians"@,
        DiagnosticCode::InvalidUnits,
        e,
        "units must be meters and radians"@,
    ) + report_when(
        p.clock.ticks_per_second == 0 || p.clock.frames_per_second == 0 || p.clock.frame_end < p.clock.frame_start,
        DiagnosticCode::InvalidClock,
        e,
        "clock rate and inclusive frame range must be valid"@,
    ) + report_when(
        p.commuter_program@ != "commuter_v1"@,
        DiagnosticCode::UnsupportedProgram,
        e,
        "M1 supports commuter_v1 only"@,
    ) + report_when(
        p.settings.avoidance.solver@ != "sampled_velocity"@ || !p.settings.navigation.tile_size_valid
            || !p.settings.navigation.agent_radius_valid || !p.settings.animation.jog_threshold_valid
            || p.settings.animation.locomotion_set_id@.len() == 0,
        DiagnosticCode::UnsupportedSetting,
        e,
        "navigation, sampled-velocity avoidance, and animation settings are invalid"@,
    ) + duplicate_id_keys("archetype"@, archetype_ids(p.archetypes@)) + duplicate_id_keys(
        "appearance"@,
        appearance_ids(p.appearances@),
    ) + duplicate_id_keys("population"@, population_ids(p.populations@))
}

fn archetype_id_list(v: &Vec<ArchetypeIrV1>) -> (r: Vec<&str>)
    ensures
        text_views(r@) == archetype_ids(v@),
{
    let mut out: Vec<&str> = Vec::new();
    let mut i: usize = 0;
    while i < v.len()
        invariant
            i <= v@.len(),
            text_views(out@) == archetype_ids(v@).take(i as int),
        decreases v@.len() - i,
    {
        let ghost before = out@;
        let id = v[i].id.as_str();
        out.push(id);
        proof {
            assert(text_views(out@) =~= text_views(before).push(id@));
            assert(archetype_ids(v@).take(i + 1) =~= archetype_ids(v@).take(i as int).push(v@[i as int].id@));
        }
        i = i + 1;
    }
    assert(archetype_ids(v@).take(v@.len() as int) =~= archetype_ids(v@));
    out
}

fn appearance_id_list(v: &Vec<AppearanceIrV1>) -> (r: Vec<&str>)
    ensures
        text_views(r@) == appearance_ids(v@),
{
    let mut out: Vec<&str> = Vec::new();
    let mut i: usize = 0;
    while i < v.len()
        invariant
            i <= v@.len(),
            text_views(out@) == appearance_ids(v@).take(i as int),
        decreases v@.len() - i,
    {
        let ghost before = out@;
        let id = v[i].id.as_str();
        out.push(id);
        proof {
            assert(text_views(out@) =~= text_views(before).push(id@));
            assert(appearance_ids(v@).take(i + 1) =~= appearance_ids(v@).take(i as int).push(v@[i as int].id@));
        }
        i = i + 1;
    }
    assert(appearance_ids(v@).take(v@.len() as int) =~= appearance_ids(v@));
    out
}

pub(crate) fn population_id_list(v: &Vec<PopulationIrV1>) -> (r: Vec<&str>)
    ensures
        text_views(r@) == population_ids(v@),
{
    let mut out: Vec<&str> = Vec::new();
    let mut i: usize = 0;
    while i < v.len()
        invariant
            i <= v@.len(),
            text_views(out@) == population_ids(v@).take(i as int),
        decreases v@.len() - i,
    {
        let ghost before = out@;
        let id = v[i].id.as_str();
        out.push(id);
        proof {
            assert(text_views(out@) =~= text_views(before).push(id@));
            assert(population_ids(v@).take(i + 1) =~= population_ids(v@).take(i as int).push(v@[i as int].id@));
        }
        i = i + 1;
    }
    assert(population_ids(v@).take(v@.len() as int) =~= population_ids(v@));
    out
}

/// The problems of the project's header, settings and top-level IDs.
fn header_diagnostics(p: &ProjectIrV1) -> (r: Vec<Diagnostic>)
    ensures
        keys(r@) == header_keys(*p),
{
    let mut d: Vec<Diagnostic> = Vec::new();
    let entity = join3("project", ":", p.project_id.as_str());
    let mut schema_message = owned("unsupported project schema ");
    push_decimal(&mut schema_message, p.schema_version as u64);
    report(
        &mut d,
        p.schema_version != PROJECT_IR_SCHEMA_VERSION,
        DiagnosticCode::UnsupportedVersion,
        entity.clone(),
        schema_message,
    );
    report(
        &mut d,
        !valid_uuid(p.project_id.as_str()),
        DiagnosticCode::InvalidProjectId,
        entity.clone(),
        owned("project_id must be a canonical hyphenated UUID"),
    );
    report(
        &mut d,
        !str_eq(p.units.length.as_str(), "meters") || !str_eq(p.units.angle.as_str(), "radians"),
        DiagnosticCode::InvalidUnits,
        entity.clone(),
        owned("units must be meters and radians"),
    );
    report(
        &mut d,
        p.clock.ticks_per_second == 0 || p.clock.frames_per_second == 0 || p.clock.frame_end < p.clock.frame_start,
        DiagnosticCode::InvalidClock,
        entity.clone(),
        owned("clock rate and inclusive frame range must be valid"),
    );
    report(
        &mut d,
        !str_eq(p.commuter_program.as_str(), "commuter_v1"),
        DiagnosticCode::UnsupportedProgram,
        entity.clone(),
        owned("M1 supports commuter_v1 only"),
    );
    report(
        &mut d,
        !str_eq(p.settings.avoidance.solver.as_str(), "sampled_velocity") || !p.settings.navigation.tile_size_valid
            || !p.settings.navigation.agent_radius_valid || !p.settings.animation.jog_threshold_valid
            || p.settings.animation.locomotion_set_id.as_str().is_empty(),
        DiagnosticCode::UnsupportedSetting,
        entity,
        owned("navigation, sampled-velocity avoidance, and animation settings are invalid"),
    );
    let ghost k6 = keys(d@);
    proof {
        let e = project_entity(*p);
        assert(k6 =~= report_when(
            p.schema_version != PROJECT_IR_SCHEMA_VERSION,
            DiagnosticCode::UnsupportedVersion,
            e,
            "unsupported project schema "@ + decimal(p.schema_version as nat),
        ) + report_when(
            !is_uuid(encode_utf8(p.project_id@)),
            DiagnosticCode::InvalidProjectId,
            e,
            "project_id must be a canonical hyphenated UUID"@,
        ) + report_when(
            p.units.length@ != "meters"@ || p.units.angle@ != "radians"@,
            DiagnosticCode::InvalidUnits,
            e,
            "units must be meters and radians"@,
        ) + report_when(
            p.clock.ticks_per_second == 0 || p.clock.frames_per_second == 0 || p.clock.frame_end
                < p.clock.frame_start,
            DiagnosticCode::InvalidClock,
            e,
            "clock rate and inclusive frame range must be valid"@,
        ) + report_when(
            p.commuter_program@ != "commuter_v1"@,
            DiagnosticCode::UnsupportedProgram,
            e,
            "M1 supports commuter_v1 only"@,
        ) + report_when(
            p.settings.avoidance.solver@ != "sampled_velocity"@ || !p.settings.navigation.tile_size_valid
                || !p.settings.navigation.agent_radius_valid || !p.settings.animation.jog_threshold_valid
                || p.settings.animation.locomotion_set_id@.len() == 0,
            DiagnosticCode::UnsupportedSetting,
            e,
            "navigation, sampled-velocity avoidance, and animation settings are invalid"@,
        ));
    }
    duplicate_ids("archetype", &archetype_id_list(&p.archetypes), &mut d);
    let ghost k7 = keys(d@);
    duplicate_ids("appearance", &appearance_id_list(&p.appearances), &mut d);
    let ghost k8 = keys(d@);
    duplicate_ids("population", &population_id_list(&p.populations), &mut d);
    proof {
        let a = duplicate_id_keys("archetype"@, archetype_ids(p.archetypes@));
        let b = duplicate_id_keys("appearance"@, appearance_ids(p.appearances@));
        let c = duplicate_id_keys("population"@, population_ids(p.populations@));
        assert(keys(d@) == k6 + a + b + c);
        assert(keys(d@) =~= header_keys(*p));
    }
    d
}

/// Semantic IDs of `kind` that are empty or repeat any semantic ID before
/// them, `before` being the IDs of the kinds listed earlier.
pub open spec fn chained_id_keys(kind: Seq<char>, before: Seq<Seq<char>>, ids: Seq<Seq<char>>) -> Seq<DiagnosticKey>
    decreases ids.len(),
{
    if ids.len() == 0 {
        Seq::empty()
    } else {
        let id = ids.last();
        chained_id_keys(kind, before, ids.drop_last()) + report_when(
            id.len() == 0 || (before + ids.drop_last()).contains(id),
            DiagnosticCode::DuplicateId,
            entity(kind, id),
            "semantic IDs must be non-empty and globally unique"@,
        )
    }
}

/// Every semantic ID, walkable regions first, then obstacles, spawns,
/// destinations and portals.
pub open spec fn semantic_id_chain(s: SemanticIrV1) -> Seq<Seq<char>> {
    walkable_ids(s.walkable@) + blocked_ids(s.blocked@) + spawn_ids(s.spawns@) + destination_ids(s.destinations@)
        + portal_ids(s.portals@)
}

/// Semantic IDs that are empty or not globally unique.
pub open spec fn semantic_id_keys(s: SemanticIrV1) -> Seq<DiagnosticKey> {
    let w = walkable_ids(s.walkable@);
    let b = blocked_ids(s.blocked@);
    let sp = spawn_ids(s.spawns@);
    let d = destination_ids(s.destinations@);
    let po = portal_ids(s.portals@);
    chained_id_keys("walkable"@, Seq::empty(), w) + chained_id_keys("blocked"@, w, b) + chained_id_keys(
        "spawn"@,
        w + b,
        sp,
    ) + chained_id_keys("destination"@, w + b + sp, d) + chained_id_keys("portal"@, w + b + sp + d, po)
}

/// Report the semantic IDs `chain[start..end]`, all of `kind`.
fn chained_ids(kind: &str, chain: &Vec<&str>, start: usize, end: usize, diagnostics: &mut Vec<Diagnostic>)
    requires
        start <= end <= chain@.len(),
    ensures
        keys(final(diagnostics)@) == keys(old(diagnostics)@) + chained_id_keys(
            kind@,
            text_views(chain@).take(start as int),
            text_views(chain@).subrange(start as int, end as int),
        ),
{
    let ghost k0 = keys(diagnostics@);
    let ghost all = text_views(chain@);
    let ghost before = all.take(start as int);
    let mut j: usize = start;
    proof {
        assert(all.subrange(start as int, start as int) =~= Seq::<Seq<char>>::empty());
    }
    while j < end
        invariant
            start <= j <= end <= chain@.len(),
            all == text_views(chain@),
            before == all.take(start as int),
            k0 == keys(old(diagnostics)@),
            keys(diagnostics@) == k0 + chained_id_keys(kind@, before, all.subrange(start as int, j as int)),
        decreases end - j,
    {
        let id = chain[j];
        let bad = id.is_empty() || text_seen(chain, j, id);
        report(
            diagnostics,
            bad,
            DiagnosticCode::DuplicateId,
            join3(kind, ":", id),
            owned("semantic IDs must be non-empty and globally unique"),
        );
        proof {
            let t = all.subrange(start as int, j + 1);
            assert(t.drop_last() =~= all.subrange(start as int, j as int));
            assert(t.last() == id@);
            assert(before + t.drop_last() =~= all.take(j as int));
            assert(keys(diagnostics@) =~= k0 + chained_id_keys(kind@, before, t));
        }
        j = j + 1;
    }
}

/// The semantic IDs in chain order.
fn semantic_id_list(s: &SemanticIrV1) -> (r: Vec<&str>)
    ensures
        text_views(r@) == semantic_id_chain(*s),
{
    let mut out: Vec<&str> = Vec::new();
    let mut i: usize = 0;
    while i < s.walkable.len()
        invariant
            i <= s.walkable@.len(),
            text_views(out@) == walkable_ids(s.walkable@).take(i as int),
        decreases s.walkable@.len() - i,
    {
        let ghost before = out@;
        let id = s.walkable[i].id.as_str();
        out.push(id);
        proof {
            assert(text_views(out@) =~= text_views(before).push(id@));
            assert(walkable_ids(s.walkable@).take(i + 1) =~= walkable_ids(s.walkable@).take(i as int).push(id@));
        }
        i = i + 1;
    }
    let ghost c1 = walkable_ids(s.walkable@);
    assert(c1.take(c1.len() as int) =~= c1);
    i = 0;
    while i < s.blocked.len()
        invariant
            i <= s.blocked@.len(),
            text_views(out@) == c1 + blocked_ids(s.blocked@).take(i as int),
        decreases s.blocked@.len() - i,
    {
        let ghost before = out@;
        let id = s.blocked[i].id.as_str();
        out.push(id);
        proof {
            assert(text_views(out@) =~= text_views(before).push(id@));
            assert(blocked_ids(s.blocked@).take(i + 1) =~= blocked_ids(s.blocked@).take(i as int).push(id@));
        }
        i = i + 1;
    }
    let ghost c2 = c1 + blocked_ids(s.blocked@);
    assert(blocked_ids(s.blocked@).take(s.blocked@.len() as int) =~= blocked_ids(s.blocked@));
    i = 0;
    while i < s.spawns.len()
        invariant
            i <= s.spawns@.len(),
            text_views(out@) == c2 + spawn_ids(s.spawns@).take(i as int),
        decreases s.spawns@.len() - i,
    {
        let ghost before = out@;
        let id = s.spawns[i].id.as_str();
        out.push(id);
        proof {
            assert(text_views(out@) =~= text_views(before).push(id@));
            assert(spawn_ids(s.spawns@).take(i + 1) =~= spawn_ids(s.spawns@).take(i as int).push(id@));
        }
        i = i + 1;
    }
    let ghost c3 = c2 + spawn_ids(s.spawns@);
    assert(spawn_ids(s.spawns@).take(s.spawns@.len() as int) =~= spawn_ids(s.spawns@));
    i = 0;
    while i < s.destinations.len()
        invariant
            i <= s.destinations@.len(),
            text_views(out@) == c3 + destination_ids(s.destinations@).take(i as int),
        decreases s.destinations@.len() - i,
    {
        let ghost before = out@;
        let id = s.destinations[i].id.as_str();
        out.push(id);
        proof {
            assert(text_views(out@) =~= text_views(before).push(id@));
            assert(destination_ids(s.destinations@).take(i + 1) =~= destination_ids(s.destinations@).take(
                i as int,
            ).push(id@));
        }
        i = i + 1;
    }
    let ghost c4 = c3 + destination_ids(s.destinations@);
    assert(destination_ids(s.destinations@).take(s.destinations@.len() as int) =~= destination_ids(s.destinations@));
    i = 0;
    while i < s.portals.len()
        invariant
            i <= s.portals@.len(),
            text_views(out@) == c4 + portal_ids(s.portals@).take(i as int),
        decreases s.portals@.len() - i,
    {
        let ghost before = out@;
        let id = s.portals[i].id.as_str();
        out.push(id);
        proof {
            assert(text_views(out@) =~= text_views(before).push(id@));
            assert(portal_ids(s.portals@).take(i + 1) =~= portal_ids(s.portals@).take(i as int).push(id@));
        }
        i = i + 1;
    }
    assert(portal_ids(s.portals@).take(s.portals@.len() as int) =~= portal_ids(s.portals@));
    out
}

/// The problems of the semantic IDs.
fn semantic_id_diagnostics(s: &SemanticIrV1) -> (r: Vec<Diagnostic>)
    ensures
        keys(r@) == semantic_id_keys(*s),
{
    let chain = semantic_id_list(s);
    let ghost all = text_views(chain@);
    let ghost w = walkable_ids(s.walkable@);
    let ghost b = blocked_ids(s.blocked@);
    let ghost sp = spawn_ids(s.spawns@);
    let ghost d = destination_ids(s.destinations@);
    let ghost po = portal_ids(s.portals@);
    let total = chain.len();
    assert(all.len() == total);
    assert(all.len() == w.len() + b.len() + sp.len() + d.len() + po.len());
    let n1 = s.walkable.len();
    let n2 = n1 + s.blocked.len();
    let n3 = n2 + s.spawns.len();
    let n4 = n3 + s.destinations.len();
    let n5 = n4 + s.portals.len();
    proof {
        assert(all.take(0) =~= Seq::<Seq<char>>::empty());
        assert(all.take(n1 as int) =~= w);
        assert(all.subrange(0, n1 as int) =~= w);
        assert(all.take(n2 as int) =~= w + b);
        assert(all.subrange(n1 as int, n2 as int) =~= b);
        assert(all.take(n3 as int) =~= w + b + sp);
        assert(all.subrange(n2 as int, n3 as int) =~= sp);
        assert(all.take(n4 as int) =~= w + b + sp + d);
        assert(all.subrange(n3 as int, n4 as int) =~= d);
        assert(all.subrange(n4 as int, n5 as int) =~= po);
    }
    let mut out: Vec<Diagnostic> = Vec::new();
    chained_ids("walkable", &chain, 0, n1, &mut out);
    chained_ids("blocked", &chain, n1, n2, &mut out);
    chained_ids("spawn", &chain, n2, n3, &mut out);
    chained_ids("destination", &chain, n3, n4, &mut out);
    chained_ids("portal", &chain, n4, n5, &mut out);
    proof {
        assert(keys(out@) =~= semantic_id_keys(*s));
    }
    out
}

/// A walkable region that `wids` does not name.
pub open spec fn missing_walkable_keys(e: Seq<char>, wid: Seq<char>, wids: Seq<Seq<char>>) -> Seq<DiagnosticKey> {
    report_when(!wids.contains(wid), DiagnosticCode::MissingWalkable, e, "missing walkable region "@ + wid)
}

/// Bounds that are not finite or have no area.
pub open spec fn bounds_keys(e: Seq<char>, valid: bool) -> Seq<DiagnosticKey> {
    report_when(!valid, DiagnosticCode::InvalidRange, e, "bounds must be finite and have positive area"@)
}

pub open spec fn walkable_keys(ws: Seq<WalkableIrV1>) -> Seq<DiagnosticKey>
    decreases ws.len(),
{
    if ws.len() == 0 {
        Seq::empty()
    } else {
        let w = ws.last();
        walkable_keys(ws.drop_last()) + bounds_keys(entity("walkable"@, w.id@), w.bounds_valid)
    }
}

pub open spec fn blocked_keys(bs: Seq<BlockedIrV1>, wids: Seq<Seq<char>>) -> Seq<DiagnosticKey>
    decreases bs.len(),
{
    if bs.len() == 0 {
        Seq::empty()
    } else {
        let b = bs.last();
        let e = entity("blocked"@, b.id@);
        blocked_keys(bs.drop_last(), wids) + bounds_keys(e, b.bounds_valid) + missing_walkable_keys(
            e,
            b.walkable_id@,
            wids,
        ) + report_when(
            wids.contains(b.walkable_id@) && !b.inside_walkable,
            DiagnosticCode::InvalidRange,
            e,
            "blocked bounds must stay inside their walkable region"@,
        )
    }
}

pub open spec fn spawn_keys(ss: Seq<SpawnIrV1>, wids: Seq<Seq<char>>) -> Seq<DiagnosticKey>
    decreases ss.len(),
{
    if ss.len() == 0 {
        Seq::empty()
    } else {
        let sp = ss.last();
        let e = entity("spawn"@, sp.id@);
        spawn_keys(ss.drop_last(), wids) + bounds_keys(e, sp.bounds_valid) + missing_walkable_keys(
            e,
            sp.walkable_id@,
            wids,
        ) + report_when(
            wids.contains(sp.walkable_id@) && !sp.inside_walkable,
            DiagnosticCode::InvalidRange,
            e,
            "spawn bounds must stay inside their walkable region"@,
        )
    }
}

pub open spec fn destination_keys(ds: Seq<DestinationIrV1>, wids: Seq<Seq<char>>) -> Seq<DiagnosticKey>
    decreases ds.len(),
{
    if ds.len() == 0 {
        Seq::empty()
    } else {
        let d = ds.last();
        let e = entity("destination"@, d.id@);
        destination_keys(ds.drop_last(), wids) + report_when(
            !d.point_finite,
            DiagnosticCode::InvalidRange,
            e,
            "destination point must be finite"@,
        ) + missing_walkable_keys(e, d.walkable_id@, wids) + report_when(
            wids.contains(d.walkable_id@) && !d.inside_walkable,
            DiagnosticCode::InvalidRange,
            e,
            "destination must stay inside its walkable region"@,
        )
    }
}

pub open spec fn portal_keys(ps: Seq<PortalIrV1>, wids: Seq<Seq<char>>) -> Seq<DiagnosticKey>
    decreases ps.len(),
{
    if ps.len() == 0 {
        Seq::empty()
    } else {
        let po = ps.last();
        let e = entity("portal"@, po.id@);
        portal_keys(ps.drop_last(), wids) + report_when(
            !po.geometry_valid,
            DiagnosticCode::InvalidRange,
            e,
            "portal center and width must be valid"@,
        ) + missing_walkable_keys(e, po.from_walkable_id@, wids) + missing_walkable_keys(
            e,
            po.to_walkable_id@,
            wids,
        )
    }
}

/// The last event before that sets `id` at `tick`.
pub open spec fn last_event(es: Seq<TimedPortalEventV1>, tick: u64, id: Seq<char>) -> Option<int>
    decreases es.len(),
{
    if es.len() == 0 {
        None
    } else if es.last().tick == tick && es.last().portal_id@ == id {
        Some(es.len() - 1)
    } else {
        last_event(es.drop_last(), tick, id)
    }
}

/// The entity of a portal event.
pub open spec fn event_entity(e: TimedPortalEventV1) -> Seq<char> {
    entity("portal_event"@, e.portal_id@) + "@"@ + decimal(e.tick as nat)
}

pub open spec fn event_keys(es: Seq<TimedPortalEventV1>, pids: Seq<Seq<char>>) -> Seq<DiagnosticKey>
    decreases es.len(),
{
    if es.len() == 0 {
        Seq::empty()
    } else {
        let e = es.last();
        let before = es.drop_last();
        event_keys(before, pids) + report_when(
            !pids.contains(e.portal_id@),
            DiagnosticCode::MissingPortal,
            event_entity(e),
            "portal event references a missing portal"@,
        ) + report_when(
            match last_event(before, e.tick, e.portal_id@) {
                Some(j) => before[j].open != e.open,
                None => false,
            },
            DiagnosticCode::ContradictoryPortalEvent,
            event_entity(e),
            "portal has contradictory states at one tick"@,
        )
    }
}

/// Every problem of the semantic layout and the portal schedule, in the
/// order found.
pub open spec fn semantic_keys(p: ProjectIrV1) -> Seq<DiagnosticKey> {
    let s = p.semantics;
    let wids = walkable_ids(s.walkable@);
    semantic_id_keys(s) + report_when(
        s.walkable@.len() == 0,
        DiagnosticCode::MissingWalkable,
        project_entity(p),
        "project has no walkable domain"@,
    ) + walkable_keys(s.walkable@) + blocked_keys(s.blocked@, wids) + spawn_keys(s.spawns@, wids)
        + destination_keys(s.destinations@, wids) + portal_keys(s.portals@, wids) + event_keys(
        p.portal_events@,
        portal_ids(s.portals@),
    )
}

/// Whether `id` is among `ids`.
fn text_listed(ids: &Vec<&str>, id: &str) -> (r: bool)
    ensures
        r == text_views(ids@).contains(id@),
{
    let r = text_seen(ids, ids.len(), id);
    assert(text_views(ids@).take(ids@.len() as int) =~= text_views(ids@));
    r
}

pub(crate) fn walkable_id_list(v: &Vec<WalkableIrV1>) -> (r: Vec<&str>)
    ensures
        text_views(r@) == walkable_ids(v@),
{
    let mut out: Vec<&str> = Vec::new();
    let mut i: usize = 0;
    while i < v.len()
        invariant
            i <= v@.len(),
            text_views(out@) == walkable_ids(v@).take(i as int),
        decreases v@.len() - i,
    {
        let ghost before = out@;
        let id = v[i].id.as_str();
        out.push(id);
        proof {
            assert(text_views(out@) =~= text_views(before).push(id@));
            assert(walkable_ids(v@).take(i + 1) =~= walkable_ids(v@).take(i as int).push(v@[i as int].id@));
        }
        i = i + 1;
    }
    assert(walkable_ids(v@).take(v@.len() as int) =~= walkable_ids(v@));
    out
}

pub(crate) fn portal_id_list(v: &Vec<PortalIrV1>) -> (r: Vec<&str>)
    ensures
        text_views(r@) == portal_ids(v@),
{
    let mut out: Vec<&str> = Vec::new();
    let mut i: usize = 0;
    while i < v.len()
        invariant
            i <= v@.len(),
            text_views(out@) == portal_ids(v@).take(i as int),
        decreases v@.len() - i,
    {
        let ghost before = out@;
        let id = v[i].id.as_str();
        out.push(id);
        proof {
            assert(text_views(out@) =~= text_views(before).push(id@));
            assert(portal_ids(v@).take(i + 1) =~= portal_ids(v@).take(i as int).push(v@[i as int].id@));
        }
        i = i + 1;
    }
    assert(portal_ids(v@).take(v@.len() as int) =~= portal_ids(v@));
    out
}

/// Report a walkable region that `wids` does not name.
pub fn missing_walkable(entity: &str, walkable_id: &str, wids: &Vec<&str>, diagnostics: &mut Vec<Diagnostic>)
    ensures
        keys(final(diagnostics)@) == keys(old(diagnostics)@) + missing_walkable_keys(
            entity@,
            walkable_id@,
            text_views(wids@),
        ),
{
    report(
        diagnostics,
        !text_listed(wids, walkable_id),
        DiagnosticCode::MissingWalkable,
        owned(entity),
        join2("missing walkable region ", walkable_id),
    );
}

fn walkable_pass(ws: &Vec<WalkableIrV1>, diagnostics: &mut Vec<Diagnostic>)
    ensures
        keys(final(diagnostics)@) == keys(old(diagnostics)@) + walkable_keys(ws@),
{
    let ghost k0 = keys(diagnostics@);
    let mut i: usize = 0;
    proof {
        assert(ws@.take(0) =~= Seq::<WalkableIrV1>::empty());
        assert(keys(diagnostics@) =~= k0 + walkable_keys(ws@.take(0)));
    }
    while i < ws.len()
        invariant
            i <= ws@.len(),
            k0 == keys(old(diagnostics)@),
            keys(diagnostics@) == k0 + walkable_keys(ws@.take(i as int)),
        decreases ws@.len() - i,
    {
        let w = &ws[i];
        report(
            diagnostics,
            !w.bounds_valid,
            DiagnosticCode::InvalidRange,
            join3("walkable", ":", w.id.as_str()),
            owned("bounds must be finite and have positive area"),
        );
        proof {
            let t = ws@.take(i + 1);
            assert(t.drop_last() =~= ws@.take(i as int));
            assert(t.last() == ws@[i as int]);
            assert(keys(diagnostics@) =~= k0 + walkable_keys(t));
        }
        i = i + 1;
    }
    assert(ws@.take(ws@.len() as int) =~= ws@);
}

fn blocked_pass(bs: &Vec<BlockedIrV1>, wids: &Vec<&str>, diagnostics: &mut Vec<Diagnostic>)
    ensures
        keys(final(diagnostics)@) == keys(old(diagnostics)@) + blocked_keys(bs@, text_views(wids@)),
{
    let ghost k0 = keys(diagnostics@);
    let ghost w = text_views(wids@);
    let mut i: usize = 0;
    proof {
        assert(bs@.take(0) =~= Seq::<BlockedIrV1>::empty());
        assert(keys(diagnostics@) =~= k0 + blocked_keys(bs@.take(0), w));
    }
    while i < bs.len()
        invariant
            i <= bs@.len(),
            w == text_views(wids@),
            k0 == keys(old(diagnostics)@),
            keys(diagnostics@) == k0 + blocked_keys(bs@.take(i as int), w),
        decreases bs@.len() - i,
    {
        let b = &bs[i];
        let e = join3("blocked", ":", b.id.as_str());
        let ghost m0 = keys(diagnostics@);
        report(
            diagnostics,
            !b.bounds_valid,
            DiagnosticCode::InvalidRange,
            e.clone(),
            owned("bounds must be finite and have positive area"),
        );
        let ghost m1 = keys(diagnostics@);
        missing_walkable(e.as_str(), b.walkable_id.as_str(), wids, diagnostics);
        let ghost m2 = keys(diagnostics@);
        report(
            diagnostics,
            text_listed(wids, b.walkable_id.as_str()) && !b.inside_walkable,
            DiagnosticCode::InvalidRange,
            e,
            owned("blocked bounds must stay inside their walkable region"),
        );
        proof {
            let t = bs@.take(i + 1);
            assert(t.drop_last() =~= bs@.take(i as int));
            assert(t.last() == bs@[i as int]);
            assert(keys(diagnostics@) =~= k0 + blocked_keys(t, w));
        }
        i = i + 1;
    }
    assert(bs@.take(bs@.len() as int) =~= bs@);
}

fn spawn_pass(ss: &Vec<SpawnIrV1>, wids: &Vec<&str>, diagnostics: &mut Vec<Diagnostic>)
    ensures
        keys(final(diagnostics)@) == keys(old(diagnostics)@) + spawn_keys(ss@, text_views(wids@)),
{
    let ghost k0 = keys(diagnostics@);
    let ghost w = text_views(wids@);
    let mut i: usize = 0;
    proof {
        assert(ss@.take(0) =~= Seq::<SpawnIrV1>::empty());
        assert(keys(diagnostics@) =~= k0 + spawn_keys(ss@.take(0), w));
    }
    while i < ss.len()
        invariant
            i <= ss@.len(),
            w == text_views(wids@),
            k0 == keys(old(diagnostics)@),
            keys(diagnostics@) == k0 + spawn_keys(ss@.take(i as int), w),
        decreases ss@.len() - i,
    {
        let sp = &ss[i];
        let e = join3("spawn", ":", sp.id.as_str());
        report(
            diagnostics,
            !sp.bounds_valid,
            DiagnosticCode::InvalidRange,
            e.clone(),
            owned("bounds must be finite and have positive area"),
        );
        missing_walkable(e.as_str(), sp.walkable_id.as_str(), wids, diagnostics);
        report(
            diagnostics,
            text_listed(wids, sp.walkable_id.as_str()) && !sp.inside_walkable,
            DiagnosticCode::InvalidRange,
            e,
            owned("spawn bounds must stay inside their walkable region"),
        );
        proof {
            let t = ss@.take(i + 1);
            assert(t.drop_last() =~= ss@.take(i as int));
            assert(t.last() == ss@[i as int]);
            assert(keys(diagnostics@) =~= k0 + spawn_keys(t, w));
        }
        i = i + 1;
    }
    assert(ss@.take(ss@.len() as int) =~= ss@);
}

fn destination_pass(ds: &Vec<DestinationIrV1>, wids: &Vec<&str>, diagnostics: &mut Vec<Diagnostic>)
    ensures
        keys(final(diagnostics)@) == keys(old(diagnostics)@) + destination_keys(ds@, text_views(wids@)),
{
    let ghost k0 = keys(diagnostics@);
    let ghost w = text_views(wids@);
    let mut i: usize = 0;
    proof {
        assert(ds@.take(0) =~= Seq::<DestinationIrV1>::empty());
        assert(keys(diagnostics@) =~= k0 + destination_keys(ds@.take(0), w));
    }
    while i < ds.len()
        invariant
            i <= ds@.len(),
            w == text_views(wids@),
            k0 == keys(old(diagnostics)@),
            keys(diagnostics@) == k0 + destination_keys(ds@.take(i as int), w),
        decreases ds@.len() - i,
    {
        let d = &ds[i];
        let e = join3("destination", ":", d.id.as_str());
        report(
            diagnostics,
            !d.point_finite,
            DiagnosticCode::InvalidRange,
            e.clone(),
            owned("destination point must be finite"),
        );
        missing_walkable(e.as_str(), d.walkable_id.as_str(), wids, diagnostics);
        report(
            diagnostics,
            text_listed(wids, d.walkable_id.as_str()) && !d.inside_walkable,
            DiagnosticCode::InvalidRange,
            e,
            owned("destination must stay inside its walkable region"),
        );
        proof {
            let t = ds@.take(i + 1);
            assert(t.drop_last() =~= ds@.take(i as int));
            assert(t.last() == ds@[i as int]);
            assert(keys(diagnostics@) =~= k0 + destination_keys(t, w));
        }
        i = i + 1;
    }
    assert(ds@.take(ds@.len() as int) =~= ds@);
}

fn portal_pass(ps: &Vec<PortalIrV1>, wids: &Vec<&str>, diagnostics: &mut Vec<Diagnostic>)
    ensures
        keys(final(diagnostics)@) == keys(old(diagnostics)@) + portal_keys(ps@, text_views(wids@)),
{
    let ghost k0 = keys(diagnostics@);
    let ghost w = text_views(wids@);
    let mut i: usize = 0;
    proof {
        assert(ps@.take(0) =~= Seq::<PortalIrV1>::empty());
        assert(keys(diagnostics@) =~= k0 + portal_keys(ps@.take(0), w));
    }
    while i < ps.len()
        invariant
            i <= ps@.len(),
            w == text_views(wids@),
            k0 == keys(old(diagnostics)@),
            keys(diagnostics@) == k0 + portal_keys(ps@.take(i as int), w),
        decreases ps@.len() - i,
    {
        let po = &ps[i];
        let e = join3("portal", ":", po.id.as_str());
        report(
            diagnostics,
            !po.geometry_valid,
            DiagnosticCode::InvalidRange,
            e.clone(),
            owned("portal center and width must be valid"),
        );
        missing_walkable(e.as_str(), po.from_walkable_id.as_str(), wids, diagnostics);
        missing_walkable(e.as_str(), po.to_walkable_id.as_str(), wids, diagnostics);
        proof {
            let t = ps@.take(i + 1);
            assert(t.drop_last() =~= ps@.take(i as int));
            assert(t.last() == ps@[i as int]);
            assert(keys(diagnostics@) =~= k0 + portal_keys(t, w));
        }
        i = i + 1;
    }
    assert(ps@.take(ps@.len() as int) =~= ps@);
}

/// The last of the first `end` events that sets `id` at `tick`.
fn last_event_index(es: &Vec<TimedPortalEventV1>, end: usize, tick: u64, id: &str) -> (r: Option<usize>)
    requires
        end <= es@.len(),
    ensures
        match last_event(es@.take(end as int), tick, id@) {
            Some(j) => r matches Some(k) && k == j,
            None => r is None,
        },
        last_event(es@.take(end as int), tick, id@) matches Some(j) ==> 0 <= j < end,
{
    let ghost whole = es@.take(end as int);
    let mut k = end;
    proof {
        assert(whole.take(end as int) =~= whole);
    }
    while k > 0
        invariant
            k <= end <= es@.len(),
            whole == es@.take(end as int),
            last_event(whole, tick, id@) == last_event(whole.take(k as int), tick, id@),
        decreases k,
    {
        proof {
            let t = whole.take(k as int);
            assert(t.last() == es@[k - 1]);
            assert(t.drop_last() =~= whole.take(k - 1));
        }
        if es[k - 1].tick == tick && str_eq(es[k - 1].portal_id.as_str(), id) {
            return Some(k - 1);
        }
        k = k - 1;
    }
    None
}

fn event_pass(es: &Vec<TimedPortalEventV1>, pids: &Vec<&str>, diagnostics: &mut Vec<Diagnostic>)
    ensures
        keys(final(diagnostics)@) == keys(old(diagnostics)@) + event_keys(es@, text_views(pids@)),
{
    let ghost k0 = keys(diagnostics@);
    let ghost w = text_views(pids@);
    let mut i: usize = 0;
    proof {
        assert(es@.take(0) =~= Seq::<TimedPortalEventV1>::empty());
        assert(keys(diagnostics@) =~= k0 + event_keys(es@.take(0), w));
    }
    while i < es.len()
        invariant
            i <= es@.len(),
            w == text_views(pids@),
            k0 == keys(old(diagnostics)@),
            keys(diagnostics@) == k0 + event_keys(es@.take(i as int), w),
        decreases es@.len() - i,
    {
        let ev = &es[i];
        let mut e = join3("portal_event", ":", ev.portal_id.as_str());
        e.append("@");
        push_decimal(&mut e, ev.tick);
        report(
            diagnostics,
            !text_listed(pids, ev.portal_id.as_str()),
            DiagnosticCode::MissingPortal,
            e.clone(),
            owned("portal event references a missing portal"),
        );
        let contradictory = match last_event_index(es, i, ev.tick, ev.portal_id.as_str()) {
            Some(j) => es[j].open != ev.open,
            None => false,
        };
        report(
            diagnostics,
            contradictory,
            DiagnosticCode::ContradictoryPortalEvent,
            e,
            owned("portal has contradictory states at one tick"),
        );
        proof {
            let t = es@.take(i + 1);
            assert(t.drop_last() =~= es@.take(i as int));
            assert(t.last() == es@[i as int]);
            assert(keys(diagnostics@) =~= k0 + event_keys(t, w));
        }
        i = i + 1;
    }
    assert(es@.take(es@.len() as int) =~= es@);
}

/// The problems of the semantic layout and the portal schedule.
fn semantic_diagnostics(p: &ProjectIrV1) -> (r: Vec<Diagnostic>)
    ensures
        keys(r@) == semantic_keys(*p),
{
    let s = &p.semantics;
    let mut d = semantic_id_diagnostics(s);
    let ghost k1 = keys(d@);
    report(
        &mut d,
        s.walkable.len() == 0,
        DiagnosticCode::MissingWalkable,
        join3("project", ":", p.project_id.as_str()),
        owned("project has no walkable domain"),
    );
    let ghost k2 = keys(d@);
    let wids = walkable_id_list(&s.walkable);
    walkable_pass(&s.walkable, &mut d);
    let ghost k3 = keys(d@);
    blocked_pass(&s.blocked, &wids, &mut d);
    let ghost k4 = keys(d@);
    spawn_pass(&s.spawns, &wids, &mut d);
    let ghost k5 = keys(d@);
    destination_pass(&s.destinations, &wids, &mut d);
    let ghost k6 = keys(d@);
    portal_pass(&s.portals, &wids, &mut d);
    let ghost k7 = keys(d@);
    let pids = portal_id_list(&s.portals);
    event_pass(&p.portal_events, &pids, &mut d);
    proof {
        assert(keys(d@) =~= semantic_keys(*p));
    }
    d
}

/// Every ID of `ids` is among `known`.
pub open spec fn all_listed(ids: Seq<Seq<char>>, known: Seq<Seq<char>>) -> bool {
    forall|i: int| 0 <= i < ids.len() ==> known.contains(#[trigger] ids[i])
}

/// The problems of one population, given the IDs of the spawns,
/// destinations, archetypes and appearances it may name.
pub open spec fn population_keys(
    pop: PopulationIrV1,
    sids: Seq<Seq<char>>,
    dids: Seq<Seq<char>>,
    aids: Seq<Seq<char>>,
    apids: Seq<Seq<char>>,
) -> Seq<DiagnosticKey> {
    let e = entity("population"@, pop.id@);
    report_when(pop.count == 0, DiagnosticCode::InvalidCount, e, "population count must be positive"@)
        + report_when(
        pop.spawn_source_ids@.len() == 0 || !all_listed(views(pop.spawn_source_ids@), sids),
        DiagnosticCode::MissingSpawn,
        e,
        "population references a missing spawn source"@,
    ) + report_when(
        pop.destinations@.len() == 0 || !all_listed(ref_ids(pop.destinations@), dids),
        DiagnosticCode::MissingDestination,
        e,
        "population references a missing destination"@,
    ) + (if !pop.archetype_weights_valid {
        report_when(true, DiagnosticCode::InvalidWeights, e, "archetype weights must have a positive finite total"@)
    } else {
        report_when(
            !all_listed(ref_ids(pop.archetypes@), aids),
            DiagnosticCode::MissingArchetype,
            e,
            "population references a missing archetype"@,
        )
    }) + (if !pop.appearance_weights_valid {
        report_when(true, DiagnosticCode::InvalidWeights, e, "appearance weights must have a positive finite total"@)
    } else {
        report_when(
            !all_listed(ref_ids(pop.appearances@), apids),
            DiagnosticCode::MissingAppearance,
            e,
            "population references a missing appearance"@,
        )
    }) + report_when(
        !pop.destination_weights_valid,
        DiagnosticCode::InvalidWeights,
        e,
        "destination weights must have a positive finite total"@,
    ) + report_when(
        !pop.distributions_valid,
        DiagnosticCode::InvalidRange,
        e,
        "radius, speed, or scale distribution is invalid"@,
    )
}

pub open spec fn all_population_keys(
    pops: Seq<PopulationIrV1>,
    sids: Seq<Seq<char>>,
    dids: Seq<Seq<char>>,
    aids: Seq<Seq<char>>,
    apids: Seq<Seq<char>>,
) -> Seq<DiagnosticKey>
    decreases pops.len(),
{
    if pops.len() == 0 {
        Seq::empty()
    } else {
        all_population_keys(pops.drop_last(), sids, dids, aids, apids) + population_keys(
            pops.last(),
            sids,
            dids,
            aids,
            apids,
        )
    }
}

fn strings_listed(ids: &Vec<String>, known: &Vec<&str>) -> (r: bool)
    ensures
        r == all_listed(views(ids@), text_views(known@)),
{
    let mut i: usize = 0;
    while i < ids.len()
        invariant
            i <= ids@.len(),
            forall|j: int| 0 <= j < i ==> text_views(known@).contains(#[trigger] views(ids@)[j]),
        decreases ids@.len() - i,
    {
        if !text_listed(known, ids[i].as_str()) {
            assert(views(ids@)[i as int] == ids@[i as int]@);
            return false;
        }
        i = i + 1;
    }
    true
}

fn refs_listed(refs: &Vec<WeightedRefIrV1>, known: &Vec<&str>) -> (r: bool)
    ensures
        r == all_listed(ref_ids(refs@), text_views(known@)),
{
    let mut i: usize = 0;
    while i < refs.len()
        invariant
            i <= refs@.len(),
            forall|j: int| 0 <= j < i ==> text_views(known@).contains(#[trigger] ref_ids(refs@)[j]),
        decreases refs@.len() - i,
    {
        if !text_listed(known, refs[i].id.as_str()) {
            assert(ref_ids(refs@)[i as int] == refs@[i as int].id@);
            return false;
        }
        i = i + 1;
    }
    true
}

pub(crate) fn spawn_id_list(v: &Vec<SpawnIrV1>) -> (r: Vec<&str>)
    ensures
        text_views(r@) == spawn_ids(v@),
{
    let mut out: Vec<&str> = Vec::new();
    let mut i: usize = 0;
    while i < v.len()
        invariant
            i <= v@.len(),
            text_views(out@) == spawn_ids(v@).take(i as int),
        decreases v@.len() - i,
    {
        let ghost before = out@;
        let id = v[i].id.as_str();
        out.push(id);
        proof {
            assert(text_views(out@) =~= text_views(before).push(id@));
            assert(spawn_ids(v@).take(i + 1) =~= spawn_ids(v@).take(i as int).push(v@[i as int].id@));
        }
        i = i + 1;
    }
    assert(spawn_ids(v@).take(v@.len() as int) =~= spawn_ids(v@));
    out
}

pub(crate) fn destination_id_list(v: &Vec<DestinationIrV1>) -> (r: Vec<&str>)
    ensures
        text_views(r@) == destination_ids(v@),
{
    let mut out: Vec<&str> = Vec::new();
    let mut i: usize = 0;
    while i < v.len()
        invariant
            i <= v@.len(),
            text_views(out@) == destination_ids(v@).take(i as int),
        decreases v@.len() - i,
    {
        let ghost before = out@;
        let id = v[i].id.as_str();
        out.push(id);
        proof {
            assert(text_views(out@) =~= text_views(before).push(id@));
            assert(destination_ids(v@).take(i + 1) =~= destination_ids(v@).take(i as int).push(v@[i as int].id@));
        }
        i = i + 1;
    }
    assert(destination_ids(v@).take(v@.len() as int) =~= destination_ids(v@));
    out
}

/// The problems of one population.
fn one_population(
    pop: &PopulationIrV1,
    sids: &Vec<&str>,
    dids: &Vec<&str>,
    aids: &Vec<&str>,
    apids: &Vec<&str>,
) -> (r: Vec<Diagnostic>)
    ensures
        keys(r@) == population_keys(*pop, text_views(sids@), text_views(dids@), text_views(aids@), text_views(apids@)),
{
    let mut d: Vec<Diagnostic> = Vec::new();
    let e = join3("population", ":", pop.id.as_str());
    report(
        &mut d,
        pop.count == 0,
        DiagnosticCode::InvalidCount,
        e.clone(),
        owned("population count must be positive"),
    );
    report(
        &mut d,
        pop.spawn_source_ids.len() == 0 || !strings_listed(&pop.spawn_source_ids, sids),
        DiagnosticCode::MissingSpawn,
        e.clone(),
        owned("population references a missing spawn source"),
    );
    report(
        &mut d,
        pop.destinations.len() == 0 || !refs_listed(&pop.destinations, dids),
        DiagnosticCode::MissingDestination,
        e.clone(),
        owned("population references a missing destination"),
    );
    let ghost m3 = keys(d@);
    if !pop.archetype_weights_valid {
        report(
            &mut d,
            true,
            DiagnosticCode::InvalidWeights,
            e.clone(),
            owned("archetype weights must have a positive finite total"),
        );
    } else {
        report(
            &mut d,
            !refs_listed(&pop.archetypes, aids),
            DiagnosticCode::MissingArchetype,
            e.clone(),
            owned("population references a missing archetype"),
        );
    }
    let ghost m4 = keys(d@);
    if !pop.appearance_weights_valid {
        report(
            &mut d,
            true,
            DiagnosticCode::InvalidWeights,
            e.clone(),
            owned("appearance weights must have a positive finite total"),
        );
    } else {
        report(
            &mut d,
            !refs_listed(&pop.appearances, apids),
            DiagnosticCode::MissingAppearance,
            e.clone(),
            owned("population references a missing appearance"),
        );
    }
    let ghost m5 = keys(d@);
    report(
        &mut d,
        !pop.destination_weights_valid,
        DiagnosticCode::InvalidWeights,
        e.clone(),
        owned("destination weights must have a positive finite total"),
    );
    report(
        &mut d,
        !pop.distributions_valid,
        DiagnosticCode::InvalidRange,
        e,
        owned("radius, speed, or scale distribution is invalid"),
    );
    proof {
        assert(keys(d@) =~= population_keys(*pop, text_views(sids@), text_views(dids@), text_views(aids@), text_views(apids@)));
    }
    d
}

fn population_pass(
    pops: &Vec<PopulationIrV1>,
    sids: &Vec<&str>,
    dids: &Vec<&str>,
    aids: &Vec<&str>,
    apids: &Vec<&str>,
    diagnostics: &mut Vec<Diagnostic>,
)
    ensures
        keys(final(diagnostics)@) == keys(old(diagnostics)@) + all_population_keys(
            pops@,
            text_views(sids@),
            text_views(dids@),
            text_views(aids@),
            text_views(apids@),
        ),
{
    let ghost k0 = keys(diagnostics@);
    let ghost (s1, d1, a1, p1) = (text_views(sids@), text_views(dids@), text_views(aids@), text_views(apids@));
    let mut i: usize = 0;
    proof {
        assert(pops@.take(0) =~= Seq::<PopulationIrV1>::empty());
        assert(keys(diagnostics@) =~= k0 + all_population_keys(pops@.take(0), s1, d1, a1, p1));
    }
    while i < pops.len()
        invariant
            i <= pops@.len(),
            s1 == text_views(sids@),
            d1 == text_views(dids@),
            a1 == text_views(aids@),
            p1 == text_views(apids@),
            k0 == keys(old(diagnostics)@),
            keys(diagnostics@) == k0 + all_population_keys(pops@.take(i as int), s1, d1, a1, p1),
        decreases pops@.len() - i,
    {
        let ghost m0 = keys(diagnostics@);
        let mut found = one_population(&pops[i], sids, dids, aids, apids);
        let ghost f = found@;
        diagnostics.append(&mut found);
        proof {
            assert(keys(diagnostics@) =~= m0 + keys(f));
        }
        proof {
            let t = pops@.take(i + 1);
            assert(t.drop_last() =~= pops@.take(i as int));
            assert(t.last() == pops@[i as int]);
            assert(keys(diagnostics@) =~= m0 + population_keys(pops@[i as int], s1, d1, a1, p1));
            assert(keys(diagnostics@) =~= k0 + all_population_keys(t, s1, d1, a1, p1));
        }
        i = i + 1;
    }
    assert(pops@.take(pops@.len() as int) =~= pops@);
}

/// The walkable regions in text order, each ID once: a region's index is its
/// position.
pub open spec fn project_regions(p: ProjectIrV1) -> Seq<Seq<char>> {
    sorted_keys(walkable_ids(p.semantics.walkable@).to_set())
}

/// The index of region `id`.
pub open spec fn region_index(regions: Seq<Seq<char>>, id: Seq<char>) -> u32 {
    regions.index_of(id) as u32
}

/// The region graph: an edge for each initially open portal between known
/// regions, both ways when the portal is bidirectional, in portal order.
pub open spec fn region_edges(ps: Seq<PortalIrV1>, regions: Seq<Seq<char>>) -> Seq<Seq<u32>>
    decreases ps.len(),
{
    if ps.len() == 0 {
        Seq::new(regions.len(), |i: int| Seq::<u32>::empty())
    } else {
        let a = region_edges(ps.drop_last(), regions);
        let po = ps.last();
        if po.initially_open && regions.contains(po.from_walkable_id@) && regions.contains(po.to_walkable_id@) {
            let f = regions.index_of(po.from_walkable_id@);
            let t = regions.index_of(po.to_walkable_id@);
            let a1 = a.update(f, a[f].push(t as u32));
            if po.bidirectional {
                a1.update(t, a1[t].push(f as u32))
            } else {
                a1
            }
        } else {
            a
        }
    }
}

/// The region of the last spawn named `id`.
pub open spec fn last_spawn_region(ss: Seq<SpawnIrV1>, id: Seq<char>) -> Option<Seq<char>>
    decreases ss.len(),
{
    if ss.len() == 0 {
        None
    } else if ss.last().id@ == id {
        Some(ss.last().walkable_id@)
    } else {
        last_spawn_region(ss.drop_last(), id)
    }
}

/// The region of the last destination named `id`.
pub open spec fn last_destination_region(ds: Seq<DestinationIrV1>, id: Seq<char>) -> Option<Seq<char>>
    decreases ds.len(),
{
    if ds.len() == 0 {
        None
    } else if ds.last().id@ == id {
        Some(ds.last().walkable_id@)
    } else {
        last_destination_region(ds.drop_last(), id)
    }
}

/// Spawn `s` and destination `d` lie in known regions and no open portal
/// path leads from the first to the second.
pub open spec fn pair_unreachable(p: ProjectIrV1, s: Seq<char>, d: Seq<char>) -> bool {
    let regions = project_regions(p);
    let adj = region_edges(p.semantics.portals@, regions);
    match last_spawn_region(p.semantics.spawns@, s) {
        Some(r1) => match last_destination_region(p.semantics.destinations@, d) {
            Some(r2) => regions.contains(r1) && regions.contains(r2) && !reachable(
                adj,
                region_index(regions, r1),
                region_index(regions, r2),
            ),
            None => false,
        },
        None => false,
    }
}

/// Some destination of `pop` cannot be reached from some spawn of it.
pub open spec fn population_unreachable(p: ProjectIrV1, pop: PopulationIrV1) -> bool {
    exists|i: int, j: int|
        0 <= i < pop.spawn_source_ids@.len() && 0 <= j < pop.destinations@.len() && #[trigger] pair_unreachable(
            p,
            pop.spawn_source_ids@[i]@,
            pop.destinations@[j].id@,
        )
}

pub open spec fn reachability_keys(p: ProjectIrV1, pops: Seq<PopulationIrV1>) -> Seq<DiagnosticKey>
    decreases pops.len(),
{
    if pops.len() == 0 {
        Seq::empty()
    } else {
        let pop = pops.last();
        reachability_keys(p, pops.drop_last()) + report_when(
            population_unreachable(p, pop),
            DiagnosticCode::UnreachableDestination,
            entity("population"@, pop.id@),
            "an assigned destination is unreachable from an assigned spawn"@,
        )
    }
}

/// The distinct IDs in text order, each mapped to its position.
pub fn compact_indices(ids: &Vec<&str>) -> (r: TextMap<u32>)
    ensures
        r.wf(),
        r.keys() == sorted_keys(text_views(ids@).to_set()),
        r.keys().to_set() == text_views(ids@).to_set(),
        forall|i: int| 0 <= i < r.values().len() ==> #[trigger] r.values()[i] == i as u32,
{
    let ghost all = text_views(ids@);
    let mut m: TextMap<u32> = TextMap::new();
    let mut i: usize = 0;
    proof {
        assert(m.as_map().dom() =~= all.take(0).to_set());
    }
    while i < ids.len()
        invariant
            all == text_views(ids@),
            i <= ids@.len(),
            m.wf(),
            m.as_map().dom() == all.take(i as int).to_set(),
        decreases ids@.len() - i,
    {
        let id = ids[i];
        m.insert(owned(id), 0);
        proof {
            assert(all.take(i + 1) =~= all.take(i as int).push(id@));
            all.take(i as int).lemma_push_to_set_commute(id@);
        }
        i = i + 1;
    }
    proof {
        assert(all.take(ids@.len() as int) =~= all);
        assert(m.keys().to_set() =~= m.as_map().dom());
        lemma_is_sorted_keys(m.keys());
    }
    let n = m.len();
    let ghost ks = m.keys();
    let mut j: usize = 0;
    while j < n
        invariant
            j <= n,
            n == m.keys().len(),
            m.wf(),
            m.keys() == ks,
            forall|k: int| 0 <= k < j ==> #[trigger] m.values()[k] == k as u32,
        decreases n - j,
    {
        m.replace_at(j, j as u32);
        j = j + 1;
    }
    m
}

/// A copy of `list` with `x` appended.
fn pushed(list: &Vec<u32>, x: u32) -> (r: Vec<u32>)
    ensures
        r@ == list@.push(x),
{
    let mut out: Vec<u32> = Vec::new();
    let mut i: usize = 0;
    while i < list.len()
        invariant
            i <= list@.len(),
            out@ == list@.take(i as int),
        decreases list@.len() - i,
    {
        out.push(list[i]);
        proof {
            assert(list@.take(i + 1) =~= list@.take(i as int).push(list@[i as int]));
        }
        i = i + 1;
    }
    assert(list@.take(list@.len() as int) =~= list@);
    out.push(x);
    out
}

/// The region graph of `portals` over `regions`.
fn build_region_edges(portals: &Vec<PortalIrV1>, regions: &TextMap<u32>) -> (r: Vec<Vec<u32>>)
    requires
        regions.wf(),
        regions.keys().len() <= u32::MAX,
    ensures
        edge_lists(r@) == region_edges(portals@, regions.keys()),
        edges_in_range(edge_lists(r@)),
{
    let ghost ks = regions.keys();
    let n = regions.len();
    let mut adjacency: Vec<Vec<u32>> = Vec::new();
    let mut i: usize = 0;
    while i < n
        invariant
            i <= n,
            n == ks.len(),
            adjacency@.len() == i,
            forall|k: int| 0 <= k < i ==> (#[trigger] adjacency@[k])@ == Seq::<u32>::empty(),
        decreases n - i,
    {
        let ghost before = adjacency@;
        let empty: Vec<u32> = Vec::new();
        adjacency.push(empty);
        proof {
            assert(empty@ =~= Seq::<u32>::empty());
            assert(adjacency@ == before.push(empty));
        }
        i = i + 1;
    }
    let mut q: usize = 0;
    proof {
        assert(portals@.take(0) =~= Seq::<PortalIrV1>::empty());
        assert(edge_lists(adjacency@) =~= region_edges(portals@.take(0), ks));
    }
    while q < portals.len()
        invariant
            regions.wf(),
            ks == regions.keys(),
            n == ks.len(),
            n <= u32::MAX,
            q <= portals@.len(),
            edge_lists(adjacency@) == region_edges(portals@.take(q as int), ks),
            adjacency@.len() == n,
            edges_in_range(edge_lists(adjacency@)),
        decreases portals@.len() - q,
    {
        let po = &portals[q];
        let ghost a0 = edge_lists(adjacency@);
        if po.initially_open {
            match regions.find(po.from_walkable_id.as_str()) {
                Some(f) => match regions.find(po.to_walkable_id.as_str()) {
                    Some(t) => {
                        proof {
                            regions.lemma_lookup(f as int);
                            regions.lemma_lookup(t as int);
                        }
                        let grown = pushed(&adjacency[f], t as u32);
                        adjacency.set(f, grown);
                        if po.bidirectional {
                            let grown_back = pushed(&adjacency[t], f as u32);
                            adjacency.set(t, grown_back);
                        }
                        proof {
                            let a1 = a0.update(f as int, a0[f as int].push(t as u32));
                            if po.bidirectional {
                                assert(edge_lists(adjacency@) =~= a1.update(t as int, a1[t as int].push(f as u32)));
                            } else {
                                assert(edge_lists(adjacency@) =~= a1);
                            }
                            assert forall|u: int, k: int|
                                0 <= u < edge_lists(adjacency@).len() && 0 <= k < edge_lists(adjacency@)[u].len()
                                implies (#[trigger] edge_lists(adjacency@)[u][k]) < edge_lists(adjacency@).len() by {
                                if u == t as int && po.bidirectional && k == a1[t as int].len() {
                                } else if u == f as int && k == a0[f as int].len() {
                                } else if u == t as int && po.bidirectional {
                                    if u == f as int {
                                        assert(edge_lists(adjacency@)[u][k] == a1[u][k]);
                                    } else {
                                        assert(edge_lists(adjacency@)[u][k] == a0[u][k]);
                                    }
                                } else if u == f as int {
                                    assert(edge_lists(adjacency@)[u][k] == a0[u][k]);
                                } else {
                                    assert(edge_lists(adjacency@)[u][k] == a0[u][k]);
                                }
                            }
                        }
                    },
                    None => {},
                },
                None => {},
            }
        }
        proof {
            let tk = portals@.take(q + 1);
            assert(tk.drop_last() =~= portals@.take(q as int));
            assert(tk.last() == portals@[q as int]);
            assert(edge_lists(adjacency@) =~= region_edges(tk, ks));
        }
        q = q + 1;
    }
    assert(portals@.take(portals@.len() as int) =~= portals@);
    adjacency
}

/// The region of the last spawn named `id`.
fn spawn_region_of<'a>(ss: &'a Vec<SpawnIrV1>, id: &str) -> (r: Option<&'a str>)
    ensures
        match last_spawn_region(ss@, id@) {
            Some(w) => r matches Some(x) && x@ == w,
            None => r is None,
        },
{
    let mut k = ss.len();
    proof {
        assert(ss@.take(ss@.len() as int) =~= ss@);
    }
    while k > 0
        invariant
            k <= ss@.len(),
            last_spawn_region(ss@, id@) == last_spawn_region(ss@.take(k as int), id@),
        decreases k,
    {
        proof {
            let t = ss@.take(k as int);
            assert(t.last() == ss@[k - 1]);
            assert(t.drop_last() =~= ss@.take(k - 1));
        }
        if str_eq(ss[k - 1].id.as_str(), id) {
            return Some(ss[k - 1].walkable_id.as_str());
        }
        k = k - 1;
    }
    None
}

/// The region of the last destination named `id`.
fn destination_region_of<'a>(ds: &'a Vec<DestinationIrV1>, id: &str) -> (r: Option<&'a str>)
    ensures
        match last_destination_region(ds@, id@) {
            Some(w) => r matches Some(x) && x@ == w,
            None => r is None,
        },
{
    let mut k = ds.len();
    proof {
        assert(ds@.take(ds@.len() as int) =~= ds@);
    }
    while k > 0
        invariant
            k <= ds@.len(),
            last_destination_region(ds@, id@) == last_destination_region(ds@.take(k as int), id@),
        decreases k,
    {
        proof {
            let t = ds@.take(k as int);
            assert(t.last() == ds@[k - 1]);
            assert(t.drop_last() =~= ds@.take(k - 1));
        }
        if str_eq(ds[k - 1].id.as_str(), id) {
            return Some(ds[k - 1].walkable_id.as_str());
        }
        k = k - 1;
    }
    None
}

/// Whether no open portal path leads from the region of spawn `s` to that of
/// destination `d`, both regions being known.
fn pair_is_unreachable(
    p: &ProjectIrV1,
    regions: &TextMap<u32>,
    adjacency: &Vec<Vec<u32>>,
    s: &str,
    d: &str,
) -> (r: bool)
    requires
        regions.wf(),
        regions.keys() == project_regions(*p),
        regions.keys().len() <= u32::MAX,
        edge_lists(adjacency@) == region_edges(p.semantics.portals@, regions.keys()),
        edges_in_range(edge_lists(adjacency@)),
    ensures
        r == pair_unreachable(*p, s@, d@),
{
    let ghost ks = regions.keys();
    proof {
        assert(adjacency@.len() == ks.len()) by {
            lemma_region_edges_len(p.semantics.portals@, ks);
        }
    }
    match spawn_region_of(&p.semantics.spawns, s) {
        None => false,
        Some(r1) => match destination_region_of(&p.semantics.destinations, d) {
            None => false,
            Some(r2) => match regions.find(r1) {
                None => false,
                Some(f) => match regions.find(r2) {
                    None => false,
                    Some(t) => {
                        proof {
                            regions.lemma_lookup(f as int);
                            regions.lemma_lookup(t as int);
                        }
                        let seen = reachable_from(adjacency, f as u32);
                        !seen[t]
                    },
                },
            },
        },
    }
}

/// The region graph has a list for every region.
proof fn lemma_region_edges_len(ps: Seq<PortalIrV1>, regions: Seq<Seq<char>>)
    ensures
        region_edges(ps, regions).len() == regions.len(),
    decreases ps.len(),
{
    if ps.len() > 0 {
        lemma_region_edges_len(ps.drop_last(), regions);
    }
}

fn reachability_pass(
    p: &ProjectIrV1,
    regions: &TextMap<u32>,
    adjacency: &Vec<Vec<u32>>,
    diagnostics: &mut Vec<Diagnostic>,
)
    requires
        regions.wf(),
        regions.keys() == project_regions(*p),
        regions.keys().len() <= u32::MAX,
        edge_lists(adjacency@) == region_edges(p.semantics.portals@, regions.keys()),
        edges_in_range(edge_lists(adjacency@)),
    ensures
        keys(final(diagnostics)@) == keys(old(diagnostics)@) + reachability_keys(*p, p.populations@),
{
    let ghost k0 = keys(diagnostics@);
    let pops = &p.populations;
    let mut i: usize = 0;
    proof {
        assert(pops@.take(0) =~= Seq::<PopulationIrV1>::empty());
        assert(keys(diagnostics@) =~= k0 + reachability_keys(*p, pops@.take(0)));
    }
    while i < pops.len()
        invariant
            regions.wf(),
            regions.keys() == project_regions(*p),
            regions.keys().len() <= u32::MAX,
            edge_lists(adjacency@) == region_edges(p.semantics.portals@, regions.keys()),
            edges_in_range(edge_lists(adjacency@)),
            pops == &p.populations,
            i <= pops@.len(),
            k0 == keys(old(diagnostics)@),
            keys(diagnostics@) == k0 + reachability_keys(*p, pops@.take(i as int)),
        decreases pops@.len() - i,
    {
        let pop = &pops[i];
        let mut unreachable = false;
        let mut a: usize = 0;
        while a < pop.spawn_source_ids.len() && !unreachable
            invariant
                regions.wf(),
                regions.keys() == project_regions(*p),
                regions.keys().len() <= u32::MAX,
                edge_lists(adjacency@) == region_edges(p.semantics.portals@, regions.keys()),
                edges_in_range(edge_lists(adjacency@)),
                a <= pop.spawn_source_ids@.len(),
                !unreachable ==> forall|x: int, y: int|
                    0 <= x < a && 0 <= y < pop.destinations@.len() ==> !#[trigger] pair_unreachable(
                        *p,
                        pop.spawn_source_ids@[x]@,
                        pop.destinations@[y].id@,
                    ),
                unreachable ==> population_unreachable(*p, *pop),
            decreases pop.spawn_source_ids@.len() - a,
        {
            let mut b: usize = 0;
            while b < pop.destinations.len() && !unreachable
                invariant
                    regions.wf(),
                    regions.keys() == project_regions(*p),
                    regions.keys().len() <= u32::MAX,
                    edge_lists(adjacency@) == region_edges(p.semantics.portals@, regions.keys()),
                    edges_in_range(edge_lists(adjacency@)),
                    a < pop.spawn_source_ids@.len(),
                    b <= pop.destinations@.len(),
                    !unreachable ==> forall|x: int, y: int|
                        0 <= x < a && 0 <= y < pop.destinations@.len() ==> !#[trigger] pair_unreachable(
                            *p,
                            pop.spawn_source_ids@[x]@,
                            pop.destinations@[y].id@,
                        ),
                    !unreachable ==> forall|y: int|
                        0 <= y < b ==> !#[trigger] pair_unreachable(
                            *p,
                            pop.spawn_source_ids@[a as int]@,
                            pop.destinations@[y].id@,
                        ),
                    unreachable ==> population_unreachable(*p, *pop),
                decreases pop.destinations@.len() - b,
            {
                if pair_is_unreachable(
                    p,
                    regions,
                    adjacency,
                    pop.spawn_source_ids[a].as_str(),
                    pop.destinations[b].id.as_str(),
                ) {
                    unreachable = true;
                }
                b = b + 1;
            }
            proof {
                if !unreachable {
                    assert forall|x: int, y: int|
                        0 <= x < a + 1 && 0 <= y < pop.destinations@.len() implies !#[trigger] pair_unreachable(
                        *p,
                        pop.spawn_source_ids@[x]@,
                        pop.destinations@[y].id@,
                    ) by {
                        if x == a as int {
                        }
                    }
                }
            }
            a = a + 1;
        }
        proof {
            if !unreachable {
                assert(!population_unreachable(*p, *pop));
            }
        }
        report(
            diagnostics,
            unreachable,
            DiagnosticCode::UnreachableDestination,
            join3("population", ":", pop.id.as_str()),
            owned("an assigned destination is unreachable from an assigned spawn"),
        );
        proof {
            let t = pops@.take(i + 1);
            assert(t.drop_last() =~= pops@.take(i as int));
            assert(t.last() == pops@[i as int]);
            assert(keys(diagnostics@) =~= k0 + reachability_keys(*p, t));
        }
        i = i + 1;
    }
    assert(pops@.take(pops@.len() as int) =~= pops@);
}

/// Every problem of the project, in the order found: its header and
/// top-level IDs, its semantic layout and portal schedule, its populations,
/// then whether each population can reach its destinations.
pub open spec fn project_issue_keys(p: ProjectIrV1) -> Seq<DiagnosticKey> {
    let s = p.semantics;
    header_keys(p) + semantic_keys(p) + all_population_keys(
        p.populations@,
        spawn_ids(s.spawns@),
        destination_ids(s.destinations@),
        archetype_ids(p.archetypes@),
        appearance_ids(p.appearances@),
    ) + reachability_keys(p, p.populations@)
}

/// Every problem of the project, in the order found.
pub fn validate_project(p: &ProjectIrV1) -> (r: Vec<Diagnostic>)
    requires
        p.semantics.walkable@.len() <= u32::MAX,
    ensures
        keys(r@) == project_issue_keys(*p),
        forall|i: int| 0 <= i < r@.len() ==> (#[trigger] r@[i]).severity == DiagnosticSeverity::Error,
{
    let mut d = header_diagnostics(p);
    let ghost k1 = keys(d@);
    let mut sem = semantic_diagnostics(p);
    let ghost k2 = keys(sem@);
    d.append(&mut sem);
    proof {
        assert(keys(d@) =~= k1 + k2);
    }
    let ghost k3 = keys(d@);
    let sids = spawn_id_list(&p.semantics.spawns);
    let dids = destination_id_list(&p.semantics.destinations);
    let aids = archetype_id_list(&p.archetypes);
    let apids = appearance_id_list(&p.appearances);
    population_pass(&p.populations, &sids, &dids, &aids, &apids, &mut d);
    let ghost k4 = keys(d@);
    let wids = walkable_id_list(&p.semantics.walkable);
    let regions = compact_indices(&wids);
    proof {
        let ks = regions.keys();
        let w = walkable_ids(p.semantics.walkable@);
        assert(ks.no_duplicates()) by {
            assert forall|i: int, j: int| 0 <= i < ks.len() && 0 <= j < ks.len() && i != j implies ks[i] != ks[j] by {
                lemma_sorted_distinct(ks, i, j);
            }
        }
        ks.unique_seq_to_set();
        w.lemma_cardinality_of_set();
    }
    let adjacency = build_region_edges(&p.semantics.portals, &regions);
    reachability_pass(p, &regions, &adjacency, &mut d);
    proof {
        assert(keys(d@) =~= project_issue_keys(*p));
    }
    d
}

/// Check a project: `Ok` when it has no problem, otherwise every problem,
/// sorted by code, entity and message, each reported once.
pub fn check_project(p: &ProjectIrV1) -> (r: Result<(), Vec<Diagnostic>>)
    requires
        p.semantics.walkable@.len() <= u32::MAX,
    ensures
        r is Ok <==> project_issue_keys(*p).len() == 0,
        r matches Err(d) ==> keys(d@).to_set() == project_issue_keys(*p).to_set() && keys_strictly_sorted(keys(d@)),
        r matches Err(d) ==> keys(d@) == report_of(project_issue_keys(*p).to_set()),
        r matches Err(d) ==> forall|i: int| 0 <= i < d@.len() ==> (#[trigger] d@[i]).severity == DiagnosticSeverity::Error,
{
    let found = validate_project(p);
    if found.len() == 0 {
        return Ok(());
    }
    let ghost all = keys(found@);
    let sorted = sort_unique_diagnostics(found);
    proof {
        assert(all.to_set().contains(all[0]));
        assert(keys(sorted@).to_set().contains(all[0]));
        lemma_is_report_of(keys(sorted@));
    }
    Err(sorted)
}

} // verus!
