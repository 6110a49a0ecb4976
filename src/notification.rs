//! The notification-settings values that the client bindings hand out.
use vstd::prelude::*;

verus! {

/// How a room notifies its user.
#[derive(Clone, Copy, Debug, PartialEq, Eq, Structural)]
pub enum RoomNotificationMode {
    AllMessages,
    MentionsAndKeywordsOnly,
    Mute,
}

/// Receives a call whenever the push rules change.
pub trait NotificationSettingsDelegate: Sync + Send {
    fn notification_settings_did_change(&self);
}

/// The notification mode of a room, and whether it is the default one
/// rather than a mode that the user set for the room.
#[derive(Clone, Copy, Debug, PartialEq, Eq, Structural)]
pub struct RoomNotificationSettings {
    pub mode: RoomNotificationMode,
    pub is_default: bool,
}

impl RoomNotificationSettings {
    pub fn new(mode: RoomNotificationMode, is_default: bool) -> (r: Self)
        ensures
            r.mode == mode,
            r.is_default == is_default,
    {
        RoomNotificationSettings { mode, is_default }
    }
}

/// The rule set that a predefined push rule belongs to.
#[derive(Clone, Copy, Debug, PartialEq, Eq, Structural)]
pub enum RuleKind {
    Override,
    Underride,
}

/// A predefined push rule that the user can switch on or off.
#[derive(Clone, Copy, Debug, PartialEq, Eq, Structural)]
pub enum PredefinedRuleId {
    /// `.m.rule.call`
    Call,
    /// `.m.rule.encrypted_room_one_to_one`
    EncryptedRoomOneToOne,
    /// `.m.rule.is_room_mention`
    IsRoomMention,
    /// `.m.rule.is_user_mention`
    IsUserMention,
    /// `.m.rule.room_one_to_one`
    RoomOneToOne,
    /// `.m.rule.message`
    Message,
    /// `.m.rule.encrypted`
    Encrypted,
}

impl PredefinedRuleId {
    /// The mention rules are override rules; the others are underride rules.
    pub open spec fn spec_kind(self) -> RuleKind {
        match self {
            PredefinedRuleId::IsRoomMention | PredefinedRuleId::IsUserMention => RuleKind::Override,
            _ => RuleKind::Underride,
        }
    }

    /// The rule set in which the rule is looked up and switched.
    pub fn kind(&self) -> (r: RuleKind)
        ensures
            r == self.spec_kind(),
    {
        match self {
            PredefinedRuleId::IsRoomMention | PredefinedRuleId::IsUserMention => RuleKind::Override,
            _ => RuleKind::Underride,
        }
    }

    pub open spec fn spec_rule_id(self) -> Seq<char> {
        match self {
            PredefinedRuleId::Call => ".m.rule.call"@,
            PredefinedRuleId::EncryptedRoomOneToOne => ".m.rule.encrypted_room_one_to_one"@,
            PredefinedRuleId::IsRoomMention => ".m.rule.is_room_mention"@,
            PredefinedRuleId::IsUserMention => ".m.rule.is_user_mention"@,
            PredefinedRuleId::RoomOneToOne => ".m.rule.room_one_to_one"@,
            PredefinedRuleId::Message => ".m.rule.message"@,
            PredefinedRuleId::Encrypted => ".m.rule.encrypted"@,
        }
    }

    /// The identifier of the rule within its rule set.
    pub fn rule_id(&self) -> (r: &'static str)
        ensures
            r@ == self.spec_rule_id(),
    {
        match self {
            PredefinedRuleId::Call => ".m.rule.call",
            PredefinedRuleId::EncryptedRoomOneToOne => ".m.rule.encrypted_room_one_to_one",
            PredefinedRuleId::IsRoomMention => ".m.rule.is_room_mention",
            PredefinedRuleId::IsUserMention => ".m.rule.is_user_mention",
            PredefinedRuleId::RoomOneToOne => ".m.rule.room_one_to_one",
            PredefinedRuleId::Message => ".m.rule.message",
            PredefinedRuleId::Encrypted => ".m.rule.encrypted",
        }
    }
}

} // verus!
