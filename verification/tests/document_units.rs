use groupnest::document::BreakStatus;
use groupnest::{GroupPolicy, OwnedDoc};

#[test]
fn group_nil_no_break() {
    let data: OwnedDoc<()> = OwnedDoc::group(OwnedDoc::nil(), GroupPolicy::ForceBreak);
    assert!(!data.layout_mode_observable(GroupPolicy::Normal));
    assert_eq!(data.break_status(), BreakStatus::FlatLength(0));
}

#[test]
fn observable_override() {
    let data: OwnedDoc<()> = OwnedDoc::group(
        OwnedDoc::breaker("somebody", "once\ntold\nme"),
        GroupPolicy::Normal,
    );
    assert!(data.layout_mode_observable(GroupPolicy::FlatIfPossible));
    assert_eq!(data.break_status(), BreakStatus::FlatLength(8));
}
