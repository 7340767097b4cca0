use genesis_core::protection::{check, file_tier, ChangeKind, ProtectionTier};

#[test]
fn core_files_are_tier_1() {
    assert_eq!(file_tier("kernel/src/main.rs"), ProtectionTier::Core);
    assert_eq!(file_tier("kernel/src/interrupts.rs"), ProtectionTier::Core);
    assert_eq!(file_tier("kernel/src/agents/mod.rs"), ProtectionTier::Core);
    assert_eq!(file_tier("Cargo.toml"), ProtectionTier::Core);
}

#[test]
fn guarded_files_are_tier_2() {
    assert_eq!(file_tier("kernel/src/agents/supervisor.rs"), ProtectionTier::Guarded);
    assert_eq!(file_tier("kernel/src/storage/memory_store.rs"), ProtectionTier::Guarded);
    assert_eq!(file_tier("tools/genesis-bridge.py"), ProtectionTier::Guarded);
}

#[test]
fn maintained_files_are_tier_3() {
    assert_eq!(file_tier("kernel/src/agents/thomas.rs"), ProtectionTier::Maintained);
    assert_eq!(file_tier("kernel/src/agents/prompts/library.rs"), ProtectionTier::Maintained);
    assert_eq!(file_tier("kernel/src/gui/desktop.rs"), ProtectionTier::Maintained);
}

#[test]
fn playground_files_are_tier_4() {
    assert_eq!(file_tier("lib/vision.py"), ProtectionTier::Playground);
    assert_eq!(file_tier("docs/MEMORY_SYSTEM.md"), ProtectionTier::Playground);
    assert_eq!(file_tier("sessions/2026/02/session.md"), ProtectionTier::Playground);
}

#[test]
fn sandbox_files_are_tier_5() {
    assert_eq!(file_tier("memory/secrets/api_key_gemini.json"), ProtectionTier::Sandbox);
    assert_eq!(file_tier("tools/.env.telegram"), ProtectionTier::Sandbox);
    assert_eq!(file_tier("something.secret"), ProtectionTier::Sandbox);
}

#[test]
fn recommendations_always_welcome() {
    let result = check("kernel/src/main.rs", ChangeKind::Recommend);
    assert!(result.proceed);
}

#[test]
fn sandbox_blocks_access() {
    let result = check("memory/secrets/api_key.json", ChangeKind::Read);
    assert!(!result.proceed);
}

#[test]
fn core_changes_proceed_with_ceremony() {
    let result = check("kernel/src/main.rs", ChangeKind::Modify);
    assert!(result.proceed);
    assert!(result.tier.requires_discussion());
}

#[test]
fn prefixes_are_normalized() {
    assert_eq!(file_tier("/genesis/kernel/src/main.rs"), ProtectionTier::Core);
    assert_eq!(file_tier("///kernel/src/shell.rs"), ProtectionTier::Guarded);
}

#[test]
fn key_suffix_is_sandboxed() {
    assert_eq!(file_tier("anything/service.key"), ProtectionTier::Sandbox);
    let result = check("anything/service.key", ChangeKind::Modify);
    assert!(!result.proceed);
}
