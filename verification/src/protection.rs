//! Protection tiers for agent governance. The five tiers grade how much
//! planning and scrutiny a change needs before it is made; agents may
//! propose improvements at every tier except the sandbox.

use vstd::prelude::*;
use crate::text::{starts_with, ends_with, str_eq_str, str_starts_with, str_ends_with};

verus! {

/// The five protection tiers, ordered by required ceremony level.
#[derive(Debug, Clone, Copy, PartialEq, Eq, Structural)]
pub enum ProtectionTier {
    /// Discuss, assess risk, agree, then change carefully.
    Core,
    /// Talk through the approach, verify impact.
    Guarded,
    /// Build and verify. Agents self-improve here.
    Maintained,
    /// Full autonomy. Experiment freely.
    Playground,
    /// Secrets. Don't touch, don't log, don't expose.
    Sandbox,
}

impl ProtectionTier {
    /// Short human-readable name for display.
    pub fn name(&self) -> (r: &'static str)
        ensures
            *self == ProtectionTier::Core ==> r@ == "Core"@,
            *self == ProtectionTier::Guarded ==> r@ == "Guarded"@,
            *self == ProtectionTier::Maintained ==> r@ == "Maintained"@,
            *self == ProtectionTier::Playground ==> r@ == "Playground"@,
            *self == ProtectionTier::Sandbox ==> r@ == "Sandbox"@,
    {
        match self {
            ProtectionTier::Core => "Core",
            ProtectionTier::Guarded => "Guarded",
            ProtectionTier::Maintained => "Maintained",
            ProtectionTier::Playground => "Playground",
            ProtectionTier::Sandbox => "Sandbox",
        }
    }

    /// Badge for display.
    pub fn badge(&self) -> (r: &'static str)
        ensures
            *self == ProtectionTier::Core ==> r@ == "🔴"@,
            *self == ProtectionTier::Guarded ==> r@ == "🟠"@,
            *self == ProtectionTier::Maintained ==> r@ == "🟡"@,
            *self == ProtectionTier::Playground ==> r@ == "🟢"@,
            *self == ProtectionTier::Sandbox ==> r@ == "⛔"@,
    {
        match self {
            ProtectionTier::Core => "🔴",
            ProtectionTier::Guarded => "🟠",
            ProtectionTier::Maintained => "🟡",
            ProtectionTier::Playground => "🟢",
            ProtectionTier::Sandbox => "⛔",
        }
    }

    /// The tier's place in the order, 1 for the most guarded.
    pub fn number(&self) -> (r: u8)
        ensures
            r == self.spec_number(),
    {
        match self {
            ProtectionTier::Core => 1,
            ProtectionTier::Guarded => 2,
            ProtectionTier::Maintained => 3,
            ProtectionTier::Playground => 4,
            ProtectionTier::Sandbox => 5,
        }
    }

    pub open spec fn spec_number(self) -> u8 {
        match self {
            ProtectionTier::Core => 1,
            ProtectionTier::Guarded => 2,
            ProtectionTier::Maintained => 3,
            ProtectionTier::Playground => 4,
            ProtectionTier::Sandbox => 5,
        }
    }

    /// What ceremony this tier asks for.
    pub fn ceremony(&self) -> (r: &'static str)
        ensures
            r@ == self.spec_ceremony(),
    {
        match self {
            ProtectionTier::Core => "Discuss risk, agree on approach, verify build",
            ProtectionTier::Guarded => "Talk through approach, check impact, verify build",
            ProtectionTier::Maintained => "Build and verify, spot-check later",
            ProtectionTier::Playground => "Full autonomy, provenance tracked",
            ProtectionTier::Sandbox => "Do not read, modify, or expose",
        }
    }

    pub open spec fn spec_ceremony(self) -> Seq<char> {
        match self {
            ProtectionTier::Core => "Discuss risk, agree on approach, verify build"@,
            ProtectionTier::Guarded => "Talk through approach, check impact, verify build"@,
            ProtectionTier::Maintained => "Build and verify, spot-check later"@,
            ProtectionTier::Playground => "Full autonomy, provenance tracked"@,
            ProtectionTier::Sandbox => "Do not read, modify, or expose"@,
        }
    }

    /// Whether this tier calls for discussion before changes.
    pub fn requires_discussion(&self) -> (r: bool)
        ensures
            r == (*self == ProtectionTier::Core || *self == ProtectionTier::Guarded),
    {
        matches!(self, ProtectionTier::Core | ProtectionTier::Guarded)
    }

    /// Whether agents can freely modify files at this tier.
    pub fn allows_autonomous_change(&self) -> (r: bool)
        ensures
            r == (*self == ProtectionTier::Maintained || *self == ProtectionTier::Playground),
    {
        matches!(self, ProtectionTier::Maintained | ProtectionTier::Playground)
    }

    /// Whether agents must keep away from files at this tier entirely.
    pub fn is_restricted(&self) -> (r: bool)
        ensures
            r == (*self == ProtectionTier::Sandbox),
    {
        matches!(self, ProtectionTier::Sandbox)
    }

    /// Whether agents should proactively recommend improvements here:
    /// every tier but the sandbox.
    pub fn encourage_recommendations(&self) -> (r: bool)
        ensures
            r == (*self != ProtectionTier::Sandbox),
    {
        !matches!(self, ProtectionTier::Sandbox)
    }
}

/// The kind of change an agent wants to make.
#[derive(Debug, Clone, Copy, PartialEq, Eq, Structural)]
pub enum ChangeKind {
    /// Reading file contents.
    Read,
    /// Proposing a modification.
    Modify,
    /// Creating a new file.
    Create,
    /// Deleting a file.
    Delete,
    /// Recommending a refactor or improvement.
    Recommend,
    /// Accessing secret or credential content.
    AccessSecret,
}

impl ChangeKind {
    pub fn description(&self) -> (r: &'static str)
        ensures
            *self == ChangeKind::Read ==> r@ == "Read file contents"@,
            *self == ChangeKind::Modify ==> r@ == "Modify file"@,
            *self == ChangeKind::Create ==> r@ == "Create new file"@,
            *self == ChangeKind::Delete ==> r@ == "Delete file"@,
            *self == ChangeKind::Recommend ==> r@ == "Recommend improvement"@,
            *self == ChangeKind::AccessSecret ==> r@ == "Access secret/credential"@,
    {
        match self {
            ChangeKind::Read => "Read file contents",
            ChangeKind::Modify => "Modify file",
            ChangeKind::Create => "Create new file",
            ChangeKind::Delete => "Delete file",
            ChangeKind::Recommend => "Recommend improvement",
            ChangeKind::AccessSecret => "Access secret/credential",
        }
    }
}

/// A path with leading slashes and a leading `genesis/` component removed.
pub open spec fn normal_path(p: Seq<char>) -> Seq<char> {
    let q = strip_slashes(p);
    if starts_with(q, "genesis/"@) {
        q.skip("genesis/"@.len() as int)
    } else {
        q
    }
}

pub open spec fn strip_slashes(p: Seq<char>) -> Seq<char>
    decreases p.len(),
{
    if p.len() > 0 && p[0] == '/' {
        strip_slashes(p.drop_first())
    } else {
        p
    }
}

/// The tier a normalized path falls under, matched from most specific to
/// least specific; unknown paths land in the playground.
pub open spec fn spec_path_tier(q: Seq<char>) -> ProtectionTier {
    if starts_with(q, "memory/secrets/"@) || q == "tools/.env.telegram"@ || ends_with(
        q,
        ".secret"@,
    ) || ends_with(q, ".key"@) || starts_with(q, "sandbox/"@) {
        ProtectionTier::Sandbox
    } else if q == "kernel/src/main.rs"@ || q == "kernel/src/interrupts.rs"@ || q
        == "kernel/src/memory.rs"@ || q == "kernel/src/allocator.rs"@ || q
        == "kernel/src/serial.rs"@ || q == "kernel/src/agents/mod.rs"@ || q
        == "kernel/src/agents/protection.rs"@ || q == "Cargo.toml"@ || q == "kernel/Cargo.toml"@
        || q == "x86_64-genesis.json"@ || q == "rust-toolchain.toml"@ {
        ProtectionTier::Core
    } else if q == "kernel/src/agents/supervisor.rs"@ || q == "kernel/src/agents/message.rs"@
        || starts_with(q, "kernel/src/storage/"@) || q == "kernel/src/shell.rs"@ || q
        == "tools/genesis-bridge.py"@ {
        ProtectionTier::Guarded
    } else if q == "kernel/src/agents/thomas.rs"@ || q == "kernel/src/agents/archimedes.rs"@
        || starts_with(q, "kernel/src/agents/prompts/"@) || starts_with(q, "kernel/src/gui/"@) || q
        == "kernel/src/vga_buffer.rs"@ || q == "tools/genesis_memory_persist.py"@ || q
        == "tools/genesis_vision_system.py"@ || q == "tools/qemu-run.sh"@ || q
        == "tools/qemu-debug.sh"@ || q == "tools/test-genesis.sh"@ {
        ProtectionTier::Maintained
    } else {
        ProtectionTier::Playground
    }
}

pub open spec fn spec_file_tier(p: Seq<char>) -> ProtectionTier {
    spec_path_tier(normal_path(p))
}

/// Determines the protection tier of a file path.
pub fn file_tier(path: &str) -> (t: ProtectionTier)
    ensures
        t == spec_file_tier(path@),
{
    let n: usize = path.unicode_len();
    let mut k: usize = 0;
    proof {
        assert(path@.skip(0) =~= path@);
    }
    loop
        invariant
            n == path@.len(),
            k <= n,
            strip_slashes(path@) == strip_slashes(path@.skip(k as int)),
        ensures
            k <= n,
            strip_slashes(path@) == path@.skip(k as int),
        decreases n - k,
    {
        if k >= n {
            proof {
                assert(path@.skip(k as int).len() == 0);
            }
            break ;
        }
        if path.get_char(k) != '/' {
            proof {
                assert(path@.skip(k as int)[0] != '/');
            }
            break ;
        }
        proof {
            assert(path@.skip(k as int)[0] == '/');
            assert(path@.skip(k as int).drop_first() =~= path@.skip(k + 1));
        }
        k = k + 1;
    }
    let stripped = path.substring_char(k, n);
    proof {
        assert(stripped@ =~= path@.skip(k as int));
    }
    let q: &str = if str_starts_with(stripped, "genesis/") {
        let g: usize = "genesis/".unicode_len();
        let r = stripped.substring_char(g, stripped.unicode_len());
        proof {
            assert(r@ =~= stripped@.skip("genesis/"@.len() as int));
        }
        r
    } else {
        stripped
    };
    proof {
        assert(q@ == normal_path(path@));
    }
    if str_starts_with(q, "memory/secrets/") || str_eq_str(q, "tools/.env.telegram")
        || str_ends_with(q, ".secret") || str_ends_with(q, ".key") || str_starts_with(
        q,
        "sandbox/",
    ) {
        return ProtectionTier::Sandbox;
    }
    if str_eq_str(q, "kernel/src/main.rs") || str_eq_str(q, "kernel/src/interrupts.rs")
        || str_eq_str(q, "kernel/src/memory.rs") || str_eq_str(q, "kernel/src/allocator.rs")
        || str_eq_str(q, "kernel/src/serial.rs") || str_eq_str(q, "kernel/src/agents/mod.rs")
        || str_eq_str(q, "kernel/src/agents/protection.rs") || str_eq_str(q, "Cargo.toml")
        || str_eq_str(q, "kernel/Cargo.toml") || str_eq_str(q, "x86_64-genesis.json")
        || str_eq_str(q, "rust-toolchain.toml") {
        return ProtectionTier::Core;
    }
    if str_eq_str(q, "kernel/src/agents/supervisor.rs") || str_eq_str(
        q,
        "kernel/src/agents/message.rs",
    ) || str_starts_with(q, "kernel/src/storage/") || str_eq_str(q, "kernel/src/shell.rs")
        || str_eq_str(q, "tools/genesis-bridge.py") {
        return ProtectionTier::Guarded;
    }
    if str_eq_str(q, "kernel/src/agents/thomas.rs") || str_eq_str(
        q,
        "kernel/src/agents/archimedes.rs",
    ) || str_starts_with(q, "kernel/src/agents/prompts/") || str_starts_with(q, "kernel/src/gui/")
        || str_eq_str(q, "kernel/src/vga_buffer.rs") || str_eq_str(
        q,
        "tools/genesis_memory_persist.py",
    ) || str_eq_str(q, "tools/genesis_vision_system.py") || str_eq_str(q, "tools/qemu-run.sh")
        || str_eq_str(q, "tools/qemu-debug.sh") || str_eq_str(q, "tools/test-genesis.sh") {
        return ProtectionTier::Maintained;
    }
    ProtectionTier::Playground
}

/// Result of a tier check.
#[derive(Debug, Clone)]
pub struct TierCheck {
    pub path: String,
    pub tier: ProtectionTier,
    pub change: ChangeKind,
    pub proceed: bool,
    pub ceremony: &'static str,
}

/// Whether a change of the given kind may go ahead at the given tier.
/// Only sandbox access and secret access are refused; every other change
/// proceeds, with the tier setting the ceremony.
pub open spec fn spec_proceed(tier: ProtectionTier, change: ChangeKind) -> bool {
    change != ChangeKind::AccessSecret && tier != ProtectionTier::Sandbox
}

/// Checks what ceremony a change to the given file needs. Agents are
/// never blocked from proposing improvements; the tier only decides how
/// much discussion happens first.
pub fn check(path: &str, change: ChangeKind) -> (r: TierCheck)
    ensures
        r.path@ == path@,
        r.tier == spec_file_tier(path@),
        r.change == change,
        r.proceed == spec_proceed(spec_file_tier(path@), change),
        r.proceed ==> r.ceremony@ == spec_file_tier(path@).spec_ceremony(),
{
    let tier = file_tier(path);
    let restricted = tier.is_restricted();
    let proceed: bool;
    let ceremony: &'static str;
    if matches!(change, ChangeKind::AccessSecret) {
        proceed = false;
        ceremony = "Secrets must never be accessed or exposed by agents";
    } else if restricted && matches!(change, ChangeKind::Read) {
        proceed = false;
        ceremony = "Sandbox files must not be read by agents";
    } else if restricted && matches!(
        change,
        ChangeKind::Modify | ChangeKind::Create | ChangeKind::Delete,
    ) {
        proceed = false;
        ceremony = "Sandbox files must not be modified by agents";
    } else if matches!(change, ChangeKind::Recommend) {
        if restricted {
            proceed = false;
            ceremony = "Cannot recommend changes to sandbox files";
        } else {
            proceed = true;
            ceremony = tier.ceremony();
        }
    } else {
        proceed = true;
        ceremony = tier.ceremony();
    }
    TierCheck { path: path.to_owned(), tier, change, proceed, ceremony }
}

} // verus!
