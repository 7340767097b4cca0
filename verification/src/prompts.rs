//! Prompts are the personalities of the agents: versioned, measured, and
//! certified. This module holds the prompt value type, its version
//! arithmetic, performance metrics, and the certification ladder.

use vstd::prelude::*;

verus! {

/// Character id of the orchestrator.
pub const SAM: u32 = 1;

/// Character id of the conversational ambition agent.
pub const ARCHIMEDES_VOICE: u32 = 2;

/// Character id of the background ambition processor.
pub const ARCHIMEDES_SILENT: u32 = 3;

/// Character id of the test agent.
pub const THOMAS: u32 = 4;

/// Character id of the backend specialist.
pub const PETE: u32 = 5;

/// Character id of the security and quality specialist.
pub const SENTINEL: u32 = 6;

/// Character id of the researcher.
pub const SCOUT: u32 = 7;

/// Character id of the documenter.
pub const SCRIBE: u32 = 8;

/// Unique identifier for a prompt version: a character and a version
/// number packing major, minor and patch into one word.
#[derive(Debug, Clone, Copy, PartialEq, Eq, Hash, Structural)]
pub struct PromptId {
    /// Character this prompt belongs to.
    pub character_id: u32,
    /// Version, packed as major, minor, patch bytes.
    pub version: u32,
}

impl PromptId {
    /// Creates an id from its parts.
    pub fn new(character_id: u32, major: u8, minor: u8, patch: u8) -> (r: PromptId)
        ensures
            r.character_id == character_id,
            r.version == major as u32 * 0x10000 + minor as u32 * 0x100 + patch as u32,
            r.major() == major,
            r.minor() == minor,
            r.patch() == patch,
    {
        let version: u32 = (major as u32) * 0x10000 + (minor as u32) * 0x100 + (patch as u32);
        let r = PromptId { character_id, version };
        proof {
            let m = major as u32;
            let n = minor as u32;
            let p = patch as u32;
            assert((m * 0x10000 + n * 0x100 + p) / 0x10000 == m && ((m * 0x10000 + n * 0x100 + p)
                / 0x100) % 0x100 == n && (m * 0x10000 + n * 0x100 + p) % 0x100 == p) by (nonlinear_arith)
                requires
                    m < 0x100,
                    n < 0x100,
                    p < 0x100,
            ;
        }
        r
    }

    /// The major part of the version.
    pub open spec fn major(self) -> u32 {
        self.version / 0x10000
    }

    /// The minor part of the version.
    pub open spec fn minor(self) -> u32 {
        (self.version / 0x100) % 0x100
    }

    /// The patch part of the version.
    pub open spec fn patch(self) -> u32 {
        self.version % 0x100
    }

    /// Reads the major part back out.
    pub fn major_of(&self) -> (r: u8)
        requires
            self.version < 0x1000000,
        ensures
            r == self.major(),
    {
        (self.version / 0x10000) as u8
    }

    /// Reads the minor part back out.
    pub fn minor_of(&self) -> (r: u8)
        ensures
            r == self.minor(),
    {
        ((self.version / 0x100) % 0x100) as u8
    }

    /// Reads the patch part back out.
    pub fn patch_of(&self) -> (r: u8)
        ensures
            r == self.patch(),
    {
        (self.version % 0x100) as u8
    }

    /// The version as text, `major.minor.patch`.
    pub fn version_string(&self) -> (r: String)
        requires
            self.version < 0x1000000,
        ensures
            r@ == crate::text::dec_digits(self.major() as nat) + "."@ + crate::text::dec_digits(
                self.minor() as nat,
            ) + "."@ + crate::text::dec_digits(self.patch() as nat),
    {
        let mut s = String::new();
        let a = crate::text::u64_to_string(self.major_of() as u64);
        s.append(a.as_str());
        s.append(".");
        let b = crate::text::u64_to_string(self.minor_of() as u64);
        s.append(b.as_str());
        s.append(".");
        let c = crate::text::u64_to_string(self.patch_of() as u64);
        s.append(c.as_str());
        s
    }
}

/// The role a prompt plays.
#[derive(Debug, Clone, Copy, PartialEq, Eq, Structural)]
pub enum PromptRole {
    /// System orchestrator.
    Orchestrator,
    /// Research and scouting.
    Researcher,
    /// Testing and quality assurance.
    Tester,
    /// Conversational voice agent.
    VoiceAgent,
    /// Background processor.
    BackgroundProcessor,
    /// Frontend development specialist.
    FrontendDev,
    /// Backend development specialist.
    BackendDev,
    /// Security and quality specialist.
    SecurityQuality,
    /// System maintenance specialist.
    SystemMaintenance,
    /// A specialised role outside the fixed set.
    Custom,
}

/// Certification levels, lowest to highest.
#[derive(Debug, Clone, Copy, PartialEq, Eq, PartialOrd, Ord, Structural)]
pub enum CertificationLevel {
    /// No certification yet.
    Uncertified,
    /// Basic functionality verified.
    Rookie,
    /// Proven performance in production.
    Certified,
    /// Advanced capabilities demonstrated.
    Expert,
    /// Can teach and mentor other agents.
    Master,
}

impl CertificationLevel {
    /// The level's place on the ladder, 0 for uncertified.
    pub open spec fn spec_rank(self) -> u8 {
        match self {
            CertificationLevel::Uncertified => 0,
            CertificationLevel::Rookie => 1,
            CertificationLevel::Certified => 2,
            CertificationLevel::Expert => 3,
            CertificationLevel::Master => 4,
        }
    }

    /// The level's place on the ladder.
    pub fn rank(&self) -> (r: u8)
        ensures
            r == self.spec_rank(),
    {
        match self {
            CertificationLevel::Uncertified => 0,
            CertificationLevel::Rookie => 1,
            CertificationLevel::Certified => 2,
            CertificationLevel::Expert => 3,
            CertificationLevel::Master => 4,
        }
    }

    /// Badge for display.
    pub fn badge(&self) -> (r: &'static str)
        ensures
            *self == CertificationLevel::Uncertified ==> r@ == "⬜"@,
            *self == CertificationLevel::Rookie ==> r@ == "🟢"@,
            *self == CertificationLevel::Certified ==> r@ == "🔵"@,
            *self == CertificationLevel::Expert ==> r@ == "🟣"@,
            *self == CertificationLevel::Master ==> r@ == "🟡"@,
    {
        match self {
            CertificationLevel::Uncertified => "⬜",
            CertificationLevel::Rookie => "🟢",
            CertificationLevel::Certified => "🔵",
            CertificationLevel::Expert => "🟣",
            CertificationLevel::Master => "🟡",
        }
    }

    /// Short human-readable name.
    pub fn name(&self) -> (r: &'static str)
        ensures
            *self == CertificationLevel::Uncertified ==> r@ == "Uncertified"@,
            *self == CertificationLevel::Rookie ==> r@ == "Rookie"@,
            *self == CertificationLevel::Certified ==> r@ == "Certified"@,
            *self == CertificationLevel::Expert ==> r@ == "Expert"@,
            *self == CertificationLevel::Master ==> r@ == "Master"@,
    {
        match self {
            CertificationLevel::Uncertified => "Uncertified",
            CertificationLevel::Rookie => "Rookie",
            CertificationLevel::Certified => "Certified",
            CertificationLevel::Expert => "Expert",
            CertificationLevel::Master => "Master",
        }
    }
}

/// Performance counters for prompt optimisation.
#[derive(Debug, Clone, Copy)]
pub struct PromptMetrics {
    /// Total times this prompt was used.
    pub invocations: u64,
    /// Successful completions.
    pub successes: u64,
    /// Failures or errors.
    pub failures: u64,
    /// Sum of satisfaction ratings.
    pub satisfaction_sum: u64,
    /// Number of satisfaction ratings received.
    pub satisfaction_count: u64,
    /// Sum of completion times, in ticks.
    pub completion_time_sum: u64,
    /// Number of completion time measurements.
    pub completion_time_count: u64,
}

impl PromptMetrics {
    /// Fresh counters, all zero.
    pub fn new() -> (r: PromptMetrics)
        ensures
            r.invocations == 0 && r.successes == 0 && r.failures == 0 && r.satisfaction_sum == 0
                && r.satisfaction_count == 0 && r.completion_time_sum == 0
                && r.completion_time_count == 0,
    {
        PromptMetrics {
            invocations: 0,
            successes: 0,
            failures: 0,
            satisfaction_sum: 0,
            satisfaction_count: 0,
            completion_time_sum: 0,
            completion_time_count: 0,
        }
    }

    /// Records a successful invocation and its completion time.
    pub fn record_success(&mut self, completion_ticks: u64)
        requires
            old(self).invocations < u64::MAX,
            old(self).successes < u64::MAX,
            old(self).completion_time_sum + completion_ticks <= u64::MAX,
            old(self).completion_time_count < u64::MAX,
        ensures
            final(self).invocations == old(self).invocations + 1,
            final(self).successes == old(self).successes + 1,
            final(self).completion_time_sum == old(self).completion_time_sum + completion_ticks,
            final(self).completion_time_count == old(self).completion_time_count + 1,
            final(self).failures == old(self).failures,
            final(self).satisfaction_sum == old(self).satisfaction_sum,
            final(self).satisfaction_count == old(self).satisfaction_count,
    {
        self.invocations = self.invocations + 1;
        self.successes = self.successes + 1;
        self.completion_time_sum = self.completion_time_sum + completion_ticks;
        self.completion_time_count = self.completion_time_count + 1;
    }

    /// Records a failed invocation.
    pub fn record_failure(&mut self)
        requires
            old(self).invocations < u64::MAX,
            old(self).failures < u64::MAX,
        ensures
            final(self).invocations == old(self).invocations + 1,
            final(self).failures == old(self).failures + 1,
            final(self).successes == old(self).successes,
            final(self).satisfaction_sum == old(self).satisfaction_sum,
            final(self).satisfaction_count == old(self).satisfaction_count,
            final(self).completion_time_sum == old(self).completion_time_sum,
            final(self).completion_time_count == old(self).completion_time_count,
    {
        self.invocations = self.invocations + 1;
        self.failures = self.failures + 1;
    }

    /// Records one satisfaction rating on a one-to-five scale.
    pub fn record_satisfaction(&mut self, rating: u8)
        requires
            old(self).satisfaction_sum + rating <= u64::MAX,
            old(self).satisfaction_count < u64::MAX,
        ensures
            final(self).satisfaction_sum == old(self).satisfaction_sum + rating,
            final(self).satisfaction_count == old(self).satisfaction_count + 1,
            final(self).invocations == old(self).invocations,
            final(self).successes == old(self).successes,
            final(self).failures == old(self).failures,
            final(self).completion_time_sum == old(self).completion_time_sum,
            final(self).completion_time_count == old(self).completion_time_count,
    {
        self.satisfaction_sum = self.satisfaction_sum + rating as u64;
        self.satisfaction_count = self.satisfaction_count + 1;
    }

    /// Success rate as a whole percentage, zero before any invocation.
    pub fn success_rate(&self) -> (r: u8)
        requires
            self.successes <= self.invocations,
        ensures
            self.invocations == 0 ==> r == 0,
            self.invocations > 0 ==> r == (self.successes * 100) / (self.invocations as int),
    {
        if self.invocations == 0 {
            return 0;
        }
        let wide: u128 = (self.successes as u128) * 100 / (self.invocations as u128);
        proof {
            assert((self.successes as int) * 100 <= (self.invocations as int) * 100)
                by (nonlinear_arith)
                requires
                    self.successes <= self.invocations,
            ;
            assert((self.successes as int) * 100 / (self.invocations as int) <= 100)
                by (nonlinear_arith)
                requires
                    self.invocations > 0,
                    (self.successes as int) * 100 <= (self.invocations as int) * 100,
            ;
        }
        wide as u8
    }

    /// Average satisfaction, scaled by ten, zero before any rating.
    pub fn avg_satisfaction_x10(&self) -> (r: u8)
        requires
            self.satisfaction_sum <= self.satisfaction_count * 5,
        ensures
            self.satisfaction_count == 0 ==> r == 0,
            self.satisfaction_count > 0 ==> r == (self.satisfaction_sum * 10) / (
            self.satisfaction_count as int),
    {
        if self.satisfaction_count == 0 {
            return 0;
        }
        let wide: u128 = (self.satisfaction_sum as u128) * 10 / (self.satisfaction_count as u128);
        proof {
            assert((self.satisfaction_sum as int) * 10 <= (self.satisfaction_count as int) * 50)
                by (nonlinear_arith)
                requires
                    self.satisfaction_sum <= self.satisfaction_count * 5,
            ;
            assert((self.satisfaction_sum as int) * 10 / (self.satisfaction_count as int) <= 50)
                by (nonlinear_arith)
                requires
                    self.satisfaction_count > 0,
                    (self.satisfaction_sum as int) * 10 <= (self.satisfaction_count as int) * 50,
            ;
        }
        wide as u8
    }

    /// Average completion time in ticks, zero before any measurement.
    pub fn avg_completion_time(&self) -> (r: u64)
        ensures
            self.completion_time_count == 0 ==> r == 0,
            self.completion_time_count > 0 ==> r == self.completion_time_sum
                / self.completion_time_count,
    {
        if self.completion_time_count == 0 {
            return 0;
        }
        self.completion_time_sum / self.completion_time_count
    }
}

/// A prompt template that can be evolved and optimised.
#[derive(Debug, Clone)]
pub struct Prompt {
    /// Unique identifier of this prompt version.
    pub id: PromptId,
    /// Human-readable name.
    pub name: String,
    /// The role this prompt plays.
    pub role: PromptRole,
    /// Certification level.
    pub certification: CertificationLevel,
    /// The actual system prompt text.
    pub system_prompt: String,
    /// Optional personality description.
    pub personality: Option<String>,
    /// Capabilities this prompt enables.
    pub capabilities: Vec<String>,
    /// Performance counters.
    pub metrics: PromptMetrics,
    /// Parent version, for evolution tracking.
    pub parent_id: Option<PromptId>,
    /// Whether this is the deployed version.
    pub is_active: bool,
}

/// Whether `q` is `p` with its activity flag set to `act`: same
/// identity, role, certification, metrics and parentage, and texts,
/// personality and capabilities that read the same.
pub open spec fn same_prompt_with_activity(q: Prompt, p: Prompt, act: bool) -> bool {
    &&& q.id == p.id
    &&& q.name@ == p.name@
    &&& q.role == p.role
    &&& q.certification == p.certification
    &&& q.system_prompt@ == p.system_prompt@
    &&& q.personality == p.personality
    &&& q.capabilities@ == p.capabilities@
    &&& q.metrics == p.metrics
    &&& q.parent_id == p.parent_id
    &&& q.is_active == act
}

impl Prompt {
    /// Creates a fresh version 1.0.0 prompt, active, uncertified.
    pub fn new(character_id: u32, name: &str, role: PromptRole, system_prompt: &str) -> (r: Prompt)
        ensures
            r.id.character_id == character_id,
            r.id.major() == 1 && r.id.minor() == 0 && r.id.patch() == 0,
            r.name@ == name@,
            r.role == role,
            r.certification == CertificationLevel::Uncertified,
            r.system_prompt@ == system_prompt@,
            r.personality is None,
            r.capabilities@.len() == 0,
            r.parent_id is None,
            r.is_active,
    {
        Prompt {
            id: PromptId::new(character_id, 1, 0, 0),
            name: name.to_owned(),
            role,
            certification: CertificationLevel::Uncertified,
            system_prompt: system_prompt.to_owned(),
            personality: None,
            capabilities: Vec::new(),
            metrics: PromptMetrics::new(),
            parent_id: None,
            is_active: true,
        }
    }

    /// Adds a personality description.
    pub fn with_personality(self, personality: &str) -> (r: Prompt)
        ensures
            r == (Prompt { personality: r.personality, ..self }),
            r.personality matches Some(p) && p@ == personality@,
    {
        Prompt { personality: Some(personality.to_owned()), ..self }
    }

    /// Replaces the capability list.
    pub fn with_capabilities(self, capabilities: Vec<String>) -> (r: Prompt)
        ensures
            r == (Prompt { capabilities, ..self }),
    {
        Prompt { capabilities, ..self }
    }

    /// Sets the certification level.
    pub fn with_certification(self, level: CertificationLevel) -> (r: Prompt)
        ensures
            r == (Prompt { certification: level, ..self }),
    {
        Prompt { certification: level, ..self }
    }

    /// An evolved version: same character, bumped minor or patch number,
    /// new text, fresh metrics, certification inherited, initially
    /// inactive, parented to this one.
    pub fn evolve(&self, new_system_prompt: &str, bump_minor: bool) -> (r: Prompt)
        requires
            self.id.version < 0x1000000,
            self.id.minor() < 255,
            self.id.patch() < 255,
        ensures
            r.id.character_id == self.id.character_id,
            bump_minor ==> r.id.major() == self.id.major() && r.id.minor() == self.id.minor() + 1
                && r.id.patch() == 0,
            !bump_minor ==> r.id.major() == self.id.major() && r.id.minor() == self.id.minor()
                && r.id.patch() == self.id.patch() + 1,
            r.name@ == self.name@,
            r.role == self.role,
            r.certification == self.certification,
            r.system_prompt@ == new_system_prompt@,
            r.personality == self.personality,
            r.capabilities@ == self.capabilities@,
            r.metrics == (PromptMetrics {
                invocations: 0,
                successes: 0,
                failures: 0,
                satisfaction_sum: 0,
                satisfaction_count: 0,
                completion_time_sum: 0,
                completion_time_count: 0,
            }),
            r.parent_id == Some(self.id),
            !r.is_active,
    {
        proof {
            assert(self.id.major() < 0x100) by (nonlinear_arith)
                requires
                    self.id.version < 0x1000000,
            ;
        }
        let new_id = if bump_minor {
            PromptId::new(self.id.character_id, self.id.major_of(), self.id.minor_of() + 1, 0)
        } else {
            PromptId::new(
                self.id.character_id,
                self.id.major_of(),
                self.id.minor_of(),
                self.id.patch_of() + 1,
            )
        };
        Prompt {
            id: new_id,
            name: self.name.clone(),
            role: self.role,
            certification: self.certification,
            system_prompt: new_system_prompt.to_owned(),
            personality: match &self.personality {
                Some(p) => Some(p.clone()),
                None => None,
            },
            capabilities: crate::message::dup_strings(&self.capabilities),
            metrics: PromptMetrics::new(),
            parent_id: Some(self.id),
            is_active: false,
        }
    }

    /// A copy whose id, role, certification, metrics, parentage,
    /// personality and activity equal this one's, and whose texts and
    /// capabilities read the same.
    pub fn duplicate(&self) -> (r: Prompt)
        ensures
            r.id == self.id,
            r.name@ == self.name@,
            r.role == self.role,
            r.certification == self.certification,
            r.system_prompt@ == self.system_prompt@,
            r.personality == self.personality,
            r.capabilities@ == self.capabilities@,
            r.metrics == self.metrics,
            r.parent_id == self.parent_id,
            r.is_active == self.is_active,
    {
        Prompt {
            id: self.id,
            name: self.name.clone(),
            role: self.role,
            certification: self.certification,
            system_prompt: self.system_prompt.clone(),
            personality: match &self.personality {
                Some(p) => Some(p.clone()),
                None => None,
            },
            capabilities: crate::message::dup_strings(&self.capabilities),
            metrics: self.metrics,
            parent_id: self.parent_id,
            is_active: self.is_active,
        }
    }

    /// The full prompt for model consumption: the system prompt, then the
    /// personality section when one is set, then the capability list when
    /// any is named.
    pub fn format_for_llm(&self) -> (r: String)
        ensures
            self.personality is None && self.capabilities@.len() == 0 ==> r@
                == self.system_prompt@,
    {
        let mut full = self.system_prompt.clone();
        if let Some(ref personality) = self.personality {
            full.append("\n\n## Personality\n");
            full.append(personality.as_str());
        }
        if self.capabilities.len() > 0 {
            full.append("\n\n## Capabilities\n- ");
            let mut i: usize = 0;
            while i < self.capabilities.len()
                invariant
                    i <= self.capabilities@.len(),
                decreases self.capabilities@.len() - i,
            {
                if i > 0 {
                    full.append("\n- ");
                }
                full.append(self.capabilities[i].as_str());
                i = i + 1;
            }
        }
        full
    }
}

} // verus!
