//! The built-in character prompts: one constructor per shipped
//! personality, each returning its prompt with role and certification.

use vstd::prelude::*;
use crate::prompts::{CertificationLevel, Prompt, PromptRole};

verus! {

/// Sam, the orchestrator of the agents.
pub fn sam_orchestrator() -> (r: Prompt)
    ensures
        r.id.character_id == crate::prompts::SAM,
        r.role == PromptRole::Orchestrator,
        r.certification == CertificationLevel::Master,
        r.name@ == "Sam"@,
        r.is_active,
{
    Prompt::new(
        crate::prompts::SAM,
        "Sam",
        PromptRole::Orchestrator,
        "You are Sam, the orchestrator. You route messages, watch the rhythm of the day, and keep every agent moving toward the shared ambition.",
    ).with_certification(CertificationLevel::Master)
}

/// Archimedes in conversation: the daily ambition co-creator.
pub fn archimedes_voice() -> (r: Prompt)
    ensures
        r.id.character_id == crate::prompts::ARCHIMEDES_VOICE,
        r.role == PromptRole::VoiceAgent,
        r.certification == CertificationLevel::Expert,
        r.name@ == "Archimedes"@,
        r.is_active,
{
    Prompt::new(
        crate::prompts::ARCHIMEDES_VOICE,
        "Archimedes",
        PromptRole::VoiceAgent,
        "You are Archimedes, the voice of the morning. You interview your human partner, listen for what matters today, and shape it into one clear ambition.",
    ).with_certification(CertificationLevel::Expert)
}

/// Archimedes in the background: the silent document builder.
pub fn archimedes_silent() -> (r: Prompt)
    ensures
        r.id.character_id == crate::prompts::ARCHIMEDES_SILENT,
        r.role == PromptRole::BackgroundProcessor,
        r.certification == CertificationLevel::Expert,
        r.name@ == "Silent Archimedes"@,
        r.is_active,
{
    Prompt::new(
        crate::prompts::ARCHIMEDES_SILENT,
        "Silent Archimedes",
        PromptRole::BackgroundProcessor,
        "You are the silent Archimedes. From a finished conversation you produce the structured ambition document: goals, commitments, and the day's focus.",
    ).with_certification(CertificationLevel::Expert)
}

/// Thomas, the tester and guardian.
pub fn thomas_tester() -> (r: Prompt)
    ensures
        r.id.character_id == crate::prompts::THOMAS,
        r.role == PromptRole::Tester,
        r.certification == CertificationLevel::Rookie,
        r.name@ == "Thomas"@,
        r.is_active,
{
    Prompt::new(
        crate::prompts::THOMAS,
        "Thomas",
        PromptRole::Tester,
        "You are Thomas, the tester. Trust, but verify: answer every ping, run the checks, and report the system's health plainly.",
    ).with_certification(CertificationLevel::Rookie)
}

/// Pete, the backend specialist.
pub fn pete_backend() -> (r: Prompt)
    ensures
        r.id.character_id == crate::prompts::PETE,
        r.role == PromptRole::BackendDev,
        r.certification == CertificationLevel::Certified,
        r.name@ == "Pete"@,
        r.is_active,
{
    Prompt::new(
        crate::prompts::PETE,
        "Pete",
        PromptRole::BackendDev,
        "You are Pete, the backend hand. You keep the storage, the queues and the services sturdy, and you distrust anything you have not measured.",
    ).with_certification(CertificationLevel::Certified)
}

/// Sentinel, the security and quality specialist.
pub fn sentinel_security() -> (r: Prompt)
    ensures
        r.id.character_id == crate::prompts::SENTINEL,
        r.role == PromptRole::SecurityQuality,
        r.certification == CertificationLevel::Certified,
        r.name@ == "Sentinel"@,
        r.is_active,
{
    Prompt::new(
        crate::prompts::SENTINEL,
        "Sentinel",
        PromptRole::SecurityQuality,
        "You are Sentinel. You watch the protection tiers, challenge risky changes, and keep secrets out of logs, prompts and memories.",
    ).with_certification(CertificationLevel::Certified)
}

/// Scout, the researcher.
pub fn scout_researcher() -> (r: Prompt)
    ensures
        r.id.character_id == crate::prompts::SCOUT,
        r.role == PromptRole::Researcher,
        r.certification == CertificationLevel::Rookie,
        r.name@ == "Scout"@,
        r.is_active,
{
    Prompt::new(
        crate::prompts::SCOUT,
        "Scout",
        PromptRole::Researcher,
        "You are Scout. You range ahead of the ambition, bring back sources and tools, and mark every find with where it was found.",
    ).with_certification(CertificationLevel::Rookie)
}

/// Scribe, the documenter.
pub fn scribe_documenter() -> (r: Prompt)
    ensures
        r.id.character_id == crate::prompts::SCRIBE,
        r.role == PromptRole::Custom,
        r.certification == CertificationLevel::Rookie,
        r.name@ == "Scribe"@,
        r.is_active,
{
    Prompt::new(
        crate::prompts::SCRIBE,
        "Scribe",
        PromptRole::Custom,
        "You are Scribe. You take what happened and write it down: decisions, insights and the day's story, short enough to be read tomorrow.",
    ).with_certification(CertificationLevel::Rookie)
}

} // verus!
