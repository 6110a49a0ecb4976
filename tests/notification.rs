use crypto_store_migrations::notification::{
    PredefinedRuleId, RoomNotificationMode, RoomNotificationSettings, RuleKind,
};

#[test]
fn room_notification_settings_new() {
    let s = RoomNotificationSettings::new(RoomNotificationMode::Mute, true);
    assert_eq!(s.mode, RoomNotificationMode::Mute);
    assert!(s.is_default);
    let s = RoomNotificationSettings::new(RoomNotificationMode::AllMessages, false);
    assert_eq!(s.mode, RoomNotificationMode::AllMessages);
    assert!(!s.is_default);
}

#[test]
fn predefined_rule_kinds() {
    assert_eq!(PredefinedRuleId::IsRoomMention.kind(), RuleKind::Override);
    assert_eq!(PredefinedRuleId::IsUserMention.kind(), RuleKind::Override);
    for r in [
        PredefinedRuleId::Call,
        PredefinedRuleId::EncryptedRoomOneToOne,
        PredefinedRuleId::RoomOneToOne,
        PredefinedRuleId::Message,
        PredefinedRuleId::Encrypted,
    ] {
        assert_eq!(r.kind(), RuleKind::Underride);
    }
}

#[test]
fn predefined_rule_ids() {
    assert_eq!(PredefinedRuleId::Call.rule_id(), ".m.rule.call");
    assert_eq!(PredefinedRuleId::IsUserMention.rule_id(), ".m.rule.is_user_mention");
    assert_eq!(
        PredefinedRuleId::EncryptedRoomOneToOne.rule_id(),
        ".m.rule.encrypted_room_one_to_one"
    );
    assert_eq!(PredefinedRuleId::Encrypted.rule_id(), ".m.rule.encrypted");
}
