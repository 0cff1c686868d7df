//! Choice of the physical device and of what the logical device is created with.

use vstd::prelude::*;

use crate::commands::Extent;
use crate::image::{SAMPLES_2, SAMPLES_4, SAMPLES_8};
use crate::lane::Tier;

verus! {

pub const QUEUE_GRAPHICS: u32 = 1;

pub const QUEUE_TRANSFER: u32 = 4;

pub const TYPE_INTEGRATED_GPU: i32 = 1;

pub const TYPE_DISCRETE_GPU: i32 = 2;

pub const TYPE_VIRTUAL_GPU: i32 = 3;

/// `ash::vk::api_version_major`: bits 22 to 28 of a packed version.
pub assume_specification[ ash::vk::api_version_major ](version: u32) -> (r: u32)
    ensures
        r == (version >> 22) & 0x7f,
;

/// `ash::vk::api_version_minor`: bits 12 to 21 of a packed version.
pub assume_specification[ ash::vk::api_version_minor ](version: u32) -> (r: u32)
    ensures
        r == (version >> 12) & 0x3ff,
;

/// Proof that the driver reports memory budgets.
#[derive(Clone, Copy, Debug, PartialEq, Eq, Structural)]
pub struct MemoryBudget {
    granted: bool,
}

impl MemoryBudget {
    pub closed spec fn wf(&self) -> bool {
        self.granted
    }

    /// There is a proof exactly when the extension is enabled.
    pub fn when_enabled(enabled: bool) -> (r: Option<MemoryBudget>)
        ensures
            r is Some <==> enabled,
            r matches Some(b) ==> b.wf(),
    {
        if enabled {
            Some(MemoryBudget { granted: true })
        } else {
            None
        }
    }
}

/// One queue family of a device.
#[derive(Clone, Copy, Debug, PartialEq, Eq, Structural)]
pub struct QueueFamily {
    pub flags: u32,
    pub count: u32,
    /// It can present to the surface.
    pub presents: bool,
}

/// What a driver says of one physical device.
pub struct DeviceReport {
    pub physical: u64,
    pub api_version: u32,
    pub device_type: i32,
    pub dynamic_rendering: bool,
    pub synchronization2: bool,
    pub draw_indirect_count: bool,
    pub multi_draw_indirect: bool,
    pub draw_indirect_first_instance: bool,
    pub sampler_anisotropy: bool,
    /// Bits of the largest anisotropy.
    pub max_anisotropy: u32,
    /// Names of the extensions, unless they could not be listed.
    pub extensions: Option<Vec<Vec<u8>>>,
    /// The attachment shading-rate feature, and the size of its largest texel.
    pub attachment_rate: bool,
    pub rate_texel: Extent,
    pub local_read: bool,
    pub families: Vec<QueueFamily>,
    pub color_samples: u32,
    pub depth_samples: u32,
}

/// Names of the extensions that are looked for.
pub struct ExtensionNames {
    pub swapchain: Vec<u8>,
    pub push_descriptor: Vec<u8>,
    pub memory_budget: Vec<u8>,
    pub fragment_shading_rate: Vec<u8>,
    pub local_read: Vec<u8>,
}

/// A device that can run the renderer.
#[derive(Clone, Copy, Debug, PartialEq, Eq, Structural)]
pub struct Candidate {
    pub physical: u64,
    pub graphics_family: u32,
    pub present_family: u32,
    /// A family that transfers but does not draw.
    pub transfer_family: Option<u32>,
    pub graphics_queue_count: u32,
    pub multi_draw_indirect: bool,
    pub draw_indirect_first_instance: bool,
    pub draw_indirect_count: bool,
    pub memory_budget: bool,
    pub max_anisotropy: Option<u32>,
    pub fragment_shading_rate: Option<Extent>,
    pub local_read: bool,
    pub msaa_caps: u32,
    pub score: u32,
}

/// What a queue family is looked for.
#[derive(Clone, Copy, Debug, PartialEq, Eq, Structural)]
pub enum FamilyUse {
    Graphics,
    Present,
    /// Transfers, but no graphics.
    TransferOnly,
}

/// Whether `f` serves `u`.
pub open spec fn serves(f: QueueFamily, u: FamilyUse) -> bool {
    match u {
        FamilyUse::Graphics => f.flags & QUEUE_GRAPHICS == QUEUE_GRAPHICS,
        FamilyUse::Present => f.presents,
        FamilyUse::TransferOnly => f.flags & QUEUE_TRANSFER == QUEUE_TRANSFER && f.flags
            & QUEUE_GRAPHICS != QUEUE_GRAPHICS,
    }
}

/// The first of the first `n` families that serves `u`.
pub open spec fn first_family(fs: Seq<QueueFamily>, u: FamilyUse, n: int) -> Option<u32>
    decreases n,
{
    if n <= 0 {
        None
    } else {
        match first_family(fs, u, n - 1) {
            Some(i) => Some(i),
            None => if serves(fs[n - 1], u) {
                Some((n - 1) as u32)
            } else {
                None
            },
        }
    }
}

/// The first family that serves `u`.
pub open spec fn family_for(fs: Seq<QueueFamily>, u: FamilyUse) -> Option<u32> {
    first_family(fs, u, fs.len() as int)
}

/// A family that was found serves its use, and none before it does.
pub proof fn lemma_first_family(fs: Seq<QueueFamily>, u: FamilyUse, n: int)
    requires
        0 <= n <= fs.len() <= u32::MAX,
    ensures
        match first_family(fs, u, n) {
            Some(i) => i < n && serves(fs[i as int], u) && forall|j: int|
                0 <= j < i ==> !serves(#[trigger] fs[j], u),
            None => forall|j: int| 0 <= j < n ==> !serves(#[trigger] fs[j], u),
        },
    decreases n,
{
    if n > 0 {
        lemma_first_family(fs, u, n - 1);
    }
}

fn find_family(fs: &Vec<QueueFamily>, u: FamilyUse) -> (r: Option<u32>)
    requires
        fs.len() <= u32::MAX,
    ensures
        r == family_for(fs@, u),
{
    let mut found: Option<u32> = None;
    let mut i: usize = 0;
    while i < fs.len()
        invariant
            fs.len() <= u32::MAX,
            i <= fs.len(),
            found == first_family(fs@, u, i as int),
        decreases fs.len() - i,
    {
        let f: QueueFamily = fs[i];
        let fits: bool = match u {
            FamilyUse::Graphics => f.flags & QUEUE_GRAPHICS == QUEUE_GRAPHICS,
            FamilyUse::Present => f.presents,
            FamilyUse::TransferOnly => f.flags & QUEUE_TRANSFER == QUEUE_TRANSFER && f.flags
                & QUEUE_GRAPHICS != QUEUE_GRAPHICS,
        };
        if fits && found.is_none() {
            found = Some(i as u32);
        }
        i = i + 1;
    }
    found
}

/// The extension called `name` is there.
pub open spec fn offers(extensions: Option<Vec<Vec<u8>>>, name: Seq<u8>) -> bool {
    extensions matches Some(list) && exists|i: int|
        0 <= i < list.len() && (#[trigger] list[i])@ == name
}

fn same_name(a: &Vec<u8>, b: &Vec<u8>) -> (r: bool)
    ensures
        r == (a@ == b@),
{
    if a.len() != b.len() {
        return false;
    }
    let mut i: usize = 0;
    while i < a.len()
        invariant
            a.len() == b.len(),
            i <= a.len(),
            forall|k: int| 0 <= k < i ==> a[k] == b[k],
        decreases a.len() - i,
    {
        if a[i] != b[i] {
            return false;
        }
        i = i + 1;
    }
    proof {
        assert(a@ =~= b@);
    }
    true
}

fn lists(list: &Vec<Vec<u8>>, name: &Vec<u8>) -> (r: bool)
    ensures
        r == exists|i: int| 0 <= i < list.len() && (#[trigger] list[i])@ == name@,
{
    let mut i: usize = 0;
    while i < list.len()
        invariant
            i <= list.len(),
            forall|k: int| 0 <= k < i ==> (#[trigger] list[k])@ != name@,
        decreases list.len() - i,
    {
        if same_name(&list[i], name) {
            return true;
        }
        i = i + 1;
    }
    false
}

fn has_extension(extensions: &Option<Vec<Vec<u8>>>, name: &Vec<u8>) -> (r: bool)
    ensures
        r == offers(*extensions, name@),
{
    match extensions {
        None => false,
        Some(list) => lists(list, name),
    }
}

/// Major and minor number of a packed version.
pub open spec fn version_at_least_1_3(version: u32) -> bool {
    let major = (version >> 22) & 0x7f;
    let minor = (version >> 12) & 0x3ff;
    major > 1 || (major == 1 && minor >= 3)
}

/// Preference among kinds of device.
#[verifier::allow_in_spec]
pub fn type_score(device_type: i32) -> u32
    returns
        (if device_type == TYPE_DISCRETE_GPU {
            100u32
        } else if device_type == TYPE_INTEGRATED_GPU {
            50
        } else if device_type == TYPE_VIRTUAL_GPU {
            20
        } else {
            10
        }),
{
    if device_type == TYPE_DISCRETE_GPU {
        100
    } else if device_type == TYPE_INTEGRATED_GPU {
        50
    } else if device_type == TYPE_VIRTUAL_GPU {
        20
    } else {
        10
    }
}

/// The device can run the renderer.
pub open spec fn suitable(r: DeviceReport, names: ExtensionNames) -> bool {
    &&& version_at_least_1_3(r.api_version)
    &&& r.dynamic_rendering
    &&& r.synchronization2
    &&& r.draw_indirect_count
    &&& offers(r.extensions, names.swapchain@)
    &&& offers(r.extensions, names.push_descriptor@)
    &&& family_for(r.families@, FamilyUse::Graphics) is Some
    &&& family_for(r.families@, FamilyUse::Present) is Some
}

/// What the renderer takes from a suitable device.
pub open spec fn evaluation(r: DeviceReport, names: ExtensionNames) -> Candidate {
    let graphics = family_for(r.families@, FamilyUse::Graphics)->Some_0;
    Candidate {
        physical: r.physical,
        graphics_family: graphics,
        present_family: family_for(r.families@, FamilyUse::Present)->Some_0,
        transfer_family: family_for(r.families@, FamilyUse::TransferOnly),
        graphics_queue_count: r.families@[graphics as int].count,
        multi_draw_indirect: r.multi_draw_indirect,
        draw_indirect_first_instance: r.draw_indirect_first_instance,
        draw_indirect_count: true,
        memory_budget: offers(r.extensions, names.memory_budget@),
        max_anisotropy: if r.sampler_anisotropy {
            Some(r.max_anisotropy)
        } else {
            None
        },
        fragment_shading_rate: if offers(r.extensions, names.fragment_shading_rate@)
            && r.attachment_rate {
            Some(r.rate_texel)
        } else {
            None
        },
        local_read: offers(r.extensions, names.local_read@) && r.local_read,
        msaa_caps: r.color_samples & r.depth_samples,
        score: type_score(r.device_type),
    }
}

/// Judges one device: what the renderer would take from it, if it can run there.
pub fn evaluate(r: &DeviceReport, names: &ExtensionNames) -> (c: Option<Candidate>)
    requires
        r.families.len() <= u32::MAX,
    ensures
        c == if suitable(*r, *names) {
            Some(evaluation(*r, *names))
        } else {
            None
        },
{
    let major: u32 = ash::vk::api_version_major(r.api_version);
    let minor: u32 = ash::vk::api_version_minor(r.api_version);
    if major < 1 || (major == 1 && minor < 3) {
        return None;
    }
    if !r.dynamic_rendering || !r.synchronization2 || !r.draw_indirect_count {
        return None;
    }
    if !has_extension(&r.extensions, &names.swapchain) || !has_extension(
        &r.extensions,
        &names.push_descriptor,
    ) {
        return None;
    }
    let memory_budget: bool = has_extension(&r.extensions, &names.memory_budget);
    let fragment_shading_rate: Option<Extent> = if has_extension(
        &r.extensions,
        &names.fragment_shading_rate,
    ) && r.attachment_rate {
        Some(r.rate_texel)
    } else {
        None
    };
    let local_read: bool = has_extension(&r.extensions, &names.local_read) && r.local_read;
    let transfer_family: Option<u32> = find_family(&r.families, FamilyUse::TransferOnly);
    let graphics_family: u32 = match find_family(&r.families, FamilyUse::Graphics) {
        Some(i) => i,
        None => {
            return None;
        },
    };
    let present_family: u32 = match find_family(&r.families, FamilyUse::Present) {
        Some(i) => i,
        None => {
            return None;
        },
    };
    proof {
        lemma_first_family(r.families@, FamilyUse::Graphics, r.families.len() as int);
    }
    let graphics_queue_count: u32 = r.families[graphics_family as usize].count;
    let max_anisotropy: Option<u32> = if r.sampler_anisotropy {
        Some(r.max_anisotropy)
    } else {
        None
    };
    Some(
        Candidate {
            physical: r.physical,
            graphics_family,
            present_family,
            transfer_family,
            graphics_queue_count,
            multi_draw_indirect: r.multi_draw_indirect,
            draw_indirect_first_instance: r.draw_indirect_first_instance,
            draw_indirect_count: r.draw_indirect_count,
            memory_budget,
            max_anisotropy,
            fragment_shading_rate,
            local_read,
            msaa_caps: r.color_samples & r.depth_samples,
            score: type_score(r.device_type),
        },
    )
}

/// Device `i` is the last of the suitable ones with the highest score among the
/// first `n`.
pub open spec fn best_at(
    reports: Seq<DeviceReport>,
    names: ExtensionNames,
    n: int,
    i: int,
) -> bool {
    &&& 0 <= i < n
    &&& suitable(reports[i], names)
    &&& forall|j: int|
        0 <= j < n && #[trigger] suitable(reports[j], names) ==> {
            let mine = evaluation(reports[i], names).score;
            let other = evaluation(reports[j], names).score;
            other <= mine && (j > i ==> other < mine)
        }
}

/// The best device, if any is suitable.
pub fn pick_device(reports: &Vec<DeviceReport>, names: &ExtensionNames) -> (best: Option<Candidate>)
    requires
        forall|i: int| 0 <= i < reports.len() ==> (#[trigger] reports[i]).families.len() <= u32::MAX,
    ensures
        match best {
            Some(c) => exists|i: int| #[trigger]
                best_at(reports@, *names, reports.len() as int, i) && c == evaluation(
                    reports[i],
                    *names,
                ),
            None => forall|i: int|
                0 <= i < reports.len() ==> !#[trigger] suitable(reports[i], *names),
        },
{
    let mut best: Option<Candidate> = None;
    let ghost mut at: int = 0;
    let mut i: usize = 0;
    while i < reports.len()
        invariant
            i <= reports.len(),
            forall|k: int|
                0 <= k < reports.len() ==> (#[trigger] reports[k]).families.len() <= u32::MAX,
            match best {
                Some(c) => best_at(reports@, *names, i as int, at) && c == evaluation(
                    reports[at],
                    *names,
                ),
                None => forall|k: int| 0 <= k < i ==> !#[trigger] suitable(reports[k], *names),
            },
        decreases reports.len() - i,
    {
        let judged: Option<Candidate> = evaluate(&reports[i], names);
        if let Some(c) = judged {
            let better: bool = match best {
                Some(b) => c.score >= b.score,
                None => true,
            };
            if better {
                best = Some(c);
                proof {
                    at = i as int;
                }
            }
        }
        i = i + 1;
    }
    proof {
        if best is Some {
            assert(best_at(reports@, *names, reports.len() as int, at));
        }
    }
    best
}

/// Queues of one family to create.
#[derive(Clone, Copy, Debug, PartialEq, Eq, Structural)]
pub struct QueueInfo {
    pub family: u32,
    pub count: u32,
}

/// An extension that the device is created with.
#[derive(Clone, Copy, Debug, PartialEq, Eq, Structural)]
pub enum DeviceExtension {
    Swapchain,
    PushDescriptor,
    MemoryBudget,
    FragmentShadingRate,
    LocalRead,
}

/// One queue of a device: its family and its index there.
#[derive(Clone, Copy, Debug, PartialEq, Eq, Structural)]
pub struct QueueRef {
    pub family: u32,
    pub index: u32,
}

/// What the logical device is created with, and the queues it is used through.
pub struct DevicePlan {
    pub extensions: Vec<DeviceExtension>,
    pub queues: Vec<QueueInfo>,
    pub tier: Tier,
    pub graphics: QueueRef,
    pub present: QueueRef,
    pub transfer: QueueRef,
    /// Anisotropic sampling is switched on.
    pub anisotropy: bool,
    pub memory_budget: Option<MemoryBudget>,
}

/// How transfers are queued.
pub open spec fn tier_of(c: Candidate) -> Tier {
    if c.transfer_family is Some {
        Tier::DedicatedFamily
    } else if c.graphics_queue_count > 1 {
        Tier::SecondQueueSameFamily
    } else {
        Tier::SameQueueFallback
    }
}

/// The queues to create: one per family, and a second graphics queue where transfers
/// use it.
pub open spec fn queues_of(c: Candidate) -> Seq<QueueInfo> {
    let graphics = seq![
        QueueInfo {
            family: c.graphics_family,
            count: if tier_of(c) == Tier::SecondQueueSameFamily {
                2
            } else {
                1
            },
        },
    ];
    let present = if c.present_family != c.graphics_family {
        seq![QueueInfo { family: c.present_family, count: 1 }]
    } else {
        Seq::empty()
    };
    let transfer = match c.transfer_family {
        Some(f) if f != c.graphics_family && f != c.present_family => seq![
            QueueInfo { family: f, count: 1 },
        ],
        _ => Seq::empty(),
    };
    graphics + present + transfer
}

/// The queue that transfers go through.
pub open spec fn transfer_queue_of(c: Candidate) -> QueueRef {
    match tier_of(c) {
        Tier::DedicatedFamily => QueueRef { family: c.transfer_family->Some_0, index: 0 },
        Tier::SecondQueueSameFamily => QueueRef { family: c.graphics_family, index: 1 },
        Tier::SameQueueFallback => QueueRef { family: c.graphics_family, index: 0 },
    }
}

/// The extensions to enable.
pub open spec fn extensions_of(c: Candidate) -> Seq<DeviceExtension> {
    seq![DeviceExtension::Swapchain, DeviceExtension::PushDescriptor] + (if c.memory_budget {
        seq![DeviceExtension::MemoryBudget]
    } else {
        Seq::empty()
    }) + (if c.fragment_shading_rate is Some {
        seq![DeviceExtension::FragmentShadingRate]
    } else {
        Seq::empty()
    }) + (if c.local_read {
        seq![DeviceExtension::LocalRead]
    } else {
        Seq::empty()
    })
}

/// Plans the logical device for the chosen one.
pub fn plan_device(c: &Candidate) -> (p: DevicePlan)
    ensures
        p.extensions@ == extensions_of(*c),
        p.queues@ == queues_of(*c),
        p.tier == tier_of(*c),
        p.graphics == (QueueRef { family: c.graphics_family, index: 0 }),
        p.present == (QueueRef { family: c.present_family, index: 0 }),
        p.transfer == transfer_queue_of(*c),
        p.anisotropy == c.max_anisotropy is Some,
        p.memory_budget is Some <==> c.memory_budget,
        p.memory_budget matches Some(b) ==> b.wf(),
{
    let mut extensions: Vec<DeviceExtension> = Vec::new();
    extensions.push(DeviceExtension::Swapchain);
    extensions.push(DeviceExtension::PushDescriptor);
    if c.memory_budget {
        extensions.push(DeviceExtension::MemoryBudget);
    }
    if c.fragment_shading_rate.is_some() {
        extensions.push(DeviceExtension::FragmentShadingRate);
    }
    if c.local_read {
        extensions.push(DeviceExtension::LocalRead);
    }
    let tier: Tier = if c.transfer_family.is_some() {
        Tier::DedicatedFamily
    } else if c.graphics_queue_count > 1 {
        Tier::SecondQueueSameFamily
    } else {
        Tier::SameQueueFallback
    };
    let mut queues: Vec<QueueInfo> = Vec::new();
    let graphics_count: u32 = match tier {
        Tier::SecondQueueSameFamily => 2,
        _ => 1,
    };
    queues.push(QueueInfo { family: c.graphics_family, count: graphics_count });
    if c.present_family != c.graphics_family {
        queues.push(QueueInfo { family: c.present_family, count: 1 });
    }
    if let Some(family) = c.transfer_family {
        if family != c.graphics_family && family != c.present_family {
            queues.push(QueueInfo { family, count: 1 });
        }
    }
    let transfer: QueueRef = match c.transfer_family {
        Some(family) => QueueRef { family, index: 0 },
        None => QueueRef {
            family: c.graphics_family,
            index: if c.graphics_queue_count > 1 {
                1
            } else {
                0
            },
        },
    };
    proof {
        assert(extensions@ =~= extensions_of(*c));
        assert(queues@ =~= queues_of(*c));
    }
    DevicePlan {
        extensions,
        queues,
        tier,
        graphics: QueueRef { family: c.graphics_family, index: 0 },
        present: QueueRef { family: c.present_family, index: 0 },
        transfer,
        anisotropy: c.max_anisotropy.is_some(),
        memory_budget: MemoryBudget::when_enabled(c.memory_budget),
    }
}

/// The most samples per pixel that both color and depth targets support.
pub fn max_msaa(caps: u32) -> (n: u32)
    ensures
        n == if caps & SAMPLES_8 == SAMPLES_8 {
            8
        } else if caps & SAMPLES_4 == SAMPLES_4 {
            4
        } else if caps & SAMPLES_2 == SAMPLES_2 {
            2
        } else {
            1u32
        },
{
    if caps & SAMPLES_8 == SAMPLES_8 {
        return 8;
    }
    if caps & SAMPLES_4 == SAMPLES_4 {
        return 4;
    }
    if caps & SAMPLES_2 == SAMPLES_2 {
        return 2;
    }
    1
}

/// No family is asked for queues twice.
pub proof fn law_each_family_is_listed_once(c: Candidate, i: int, j: int)
    requires
        0 <= i < j < queues_of(c).len(),
    ensures
        queues_of(c)[i].family != queues_of(c)[j].family,
{
}

/// The queue `q` is among those created.
pub open spec fn is_created(qs: Seq<QueueInfo>, q: QueueRef) -> bool {
    exists|i: int| 0 <= i < qs.len() && (#[trigger] qs[i]).family == q.family && q.index < qs[i].count
}

/// Every queue that is used is created, and no more graphics queues are asked for
/// than the family has.
pub proof fn law_used_queues_are_created(c: Candidate)
    requires
        c.graphics_queue_count >= 1,
    ensures
        is_created(queues_of(c), QueueRef { family: c.graphics_family, index: 0 }),
        is_created(queues_of(c), QueueRef { family: c.present_family, index: 0 }),
        is_created(queues_of(c), transfer_queue_of(c)),
        queues_of(c)[0].count <= c.graphics_queue_count,
{
    let qs = queues_of(c);
    assert(qs[0].family == c.graphics_family);
    if c.present_family != c.graphics_family {
        assert(qs[1].family == c.present_family);
    }
    if let Some(f) = c.transfer_family {
        if f != c.graphics_family && f != c.present_family {
            assert(qs[qs.len() - 1].family == f);
        }
    }
}

/// A dedicated transfer family is never the graphics family.
pub proof fn law_transfer_family_is_apart(r: DeviceReport, names: ExtensionNames)
    requires
        r.families.len() <= u32::MAX,
        suitable(r, names),
    ensures
        evaluation(r, names).transfer_family != Some(evaluation(r, names).graphics_family),
{
    lemma_first_family(r.families@, FamilyUse::Graphics, r.families.len() as int);
    lemma_first_family(r.families@, FamilyUse::TransferOnly, r.families.len() as int);
}

/// The picked device can run the renderer, no other that can is rated higher, and among
/// equals it is the last.
pub proof fn law_the_best_device_is_picked(
    reports: Seq<DeviceReport>,
    names: ExtensionNames,
    n: int,
    i: int,
    j: int,
)
    requires
        best_at(reports, names, n, i),
        0 <= j < n,
        suitable(reports[j], names),
    ensures
        0 <= i < n,
        suitable(reports[i], names),
        type_score(reports[j].device_type) <= type_score(reports[i].device_type),
        j > i ==> type_score(reports[j].device_type) < type_score(reports[i].device_type),
{
}

/// A device that can run the renderer is new enough, has every feature that it needs, and
/// has families that draw and present.
pub proof fn law_a_suitable_device_has_what_is_needed(r: DeviceReport, names: ExtensionNames)
    requires
        r.families.len() <= u32::MAX,
        suitable(r, names),
    ensures
        r.dynamic_rendering && r.synchronization2 && r.draw_indirect_count,
        ((r.api_version >> 22) & 0x7f) > 1 || (((r.api_version >> 22) & 0x7f) == 1 && ((
        r.api_version >> 12) & 0x3ff) >= 3),
        ({
            let c = evaluation(r, names);
            &&& c.physical == r.physical
            &&& c.graphics_family < r.families.len()
            &&& r.families[c.graphics_family as int].flags & 1 == 1
            &&& c.present_family < r.families.len()
            &&& r.families[c.present_family as int].presents
            &&& c.transfer_family matches Some(f) ==> f < r.families.len() && r.families[f as int].flags
                & 4 == 4 && r.families[f as int].flags & 1 == 0
            &&& c.graphics_queue_count == r.families[c.graphics_family as int].count
            &&& c.msaa_caps == r.color_samples & r.depth_samples
            &&& c.multi_draw_indirect == r.multi_draw_indirect
            &&& c.draw_indirect_first_instance == r.draw_indirect_first_instance
            &&& c.max_anisotropy matches Some(a) ==> a == r.max_anisotropy && r.sampler_anisotropy
            &&& c.max_anisotropy is None ==> !r.sampler_anisotropy
            &&& c.fragment_shading_rate matches Some(e) ==> e == r.rate_texel && r.attachment_rate
            &&& c.local_read ==> r.local_read
        }),
{
    lemma_first_family(r.families@, FamilyUse::Graphics, r.families.len() as int);
    lemma_first_family(r.families@, FamilyUse::Present, r.families.len() as int);
    lemma_first_family(r.families@, FamilyUse::TransferOnly, r.families.len() as int);
    let c = evaluation(r, names);
    if let Some(f) = c.transfer_family {
        let b = r.families[f as int].flags;
        assert((b & 1 != 1) == (b & 1 == 0)) by (bit_vector);
    }
}

/// Discrete devices are rated above integrated ones, those above virtual ones, and those
/// above all others.
pub proof fn law_devices_are_rated_by_kind(a: i32, b: i32)
    ensures
        a == 2 && b != 2 ==> type_score(a) > type_score(b),
        a == 1 && b != 2 && b != 1 ==> type_score(a) > type_score(b),
        a == 3 && b != 2 && b != 1 && b != 3 ==> type_score(a) > type_score(b),
        a == b ==> type_score(a) == type_score(b),
{
}

/// The swapchain and push descriptors are always enabled, every other extension where the
/// device was found to have it, and each once.
pub proof fn law_found_extensions_are_enabled(c: Candidate)
    ensures
        ({
            let es = extensions_of(c);
            &&& es.contains(DeviceExtension::Swapchain)
            &&& es.contains(DeviceExtension::PushDescriptor)
            &&& es.contains(DeviceExtension::MemoryBudget) <==> c.memory_budget
            &&& es.contains(DeviceExtension::FragmentShadingRate) <==> c.fragment_shading_rate is Some
            &&& es.contains(DeviceExtension::LocalRead) <==> c.local_read
            &&& es.no_duplicates()
        }),
{
    let es = extensions_of(c);
    let a = if c.memory_budget {
        1int
    } else {
        0
    };
    let b = if c.fragment_shading_rate is Some {
        1int
    } else {
        0
    };
    assert(es[0] == DeviceExtension::Swapchain);
    assert(es[1] == DeviceExtension::PushDescriptor);
    if c.memory_budget {
        assert(es[2] == DeviceExtension::MemoryBudget);
    }
    if c.fragment_shading_rate is Some {
        assert(es[2 + a] == DeviceExtension::FragmentShadingRate);
    }
    if c.local_read {
        assert(es[2 + a + b] == DeviceExtension::LocalRead);
    }
}

/// A version is read as it is packed: seven bits of the major number over ten of the minor
/// and twelve of the patch.
pub proof fn law_versions_are_read_as_packed(major: u32, minor: u32, patch: u32)
    requires
        major < 128,
        minor < 1024,
        patch < 4096,
    ensures
        version_at_least_1_3((major * 0x40_0000 + minor * 0x1000 + patch) as u32) <==> major > 1 || (
        major == 1 && minor >= 3),
{
    let v = (major * 0x40_0000 + minor * 0x1000 + patch) as u32;
    assert(v == major * 0x40_0000 + minor * 0x1000 + patch);
    assert((v >> 22) & 0x7f == major && (v >> 12) & 0x3ff == minor) by (bit_vector)
        requires
            v == major * 0x40_0000 + minor * 0x1000 + patch,
            major < 128,
            minor < 1024,
            patch < 4096,
    ;
}

} // verus!
