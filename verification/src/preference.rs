//! The three-valued appearance preference and the decoding of raw
//! change-notification payloads into it.

use vstd::prelude::*;
use vstd::string::StringExecFns;

verus! {

/// The appearance preference reported by the desktop settings portal.
#[derive(Debug, Clone, Copy, PartialEq, Eq, Structural, Hash)]
pub enum SchemePreference {
    NoPreference,
    Dark,
    Light,
}

impl Default for SchemePreference {
    /// The portal reports no preference unless one was set.
    fn default() -> (p: Self)
        ensures
            p == SchemePreference::NoPreference,
    {
        SchemePreference::NoPreference
    }
}

impl SchemePreference {
    /// The preference a raw portal payload decodes to: `0` means no
    /// preference, `1` dark, `2` light, and any other value is treated as
    /// no preference.
    pub open spec fn spec_from_raw(v: u32) -> SchemePreference {
        if v == 1 {
            SchemePreference::Dark
        } else if v == 2 {
            SchemePreference::Light
        } else {
            SchemePreference::NoPreference
        }
    }

    /// Decodes the integer payload of a settings value.
    pub fn from_raw(v: u32) -> (p: SchemePreference)
        ensures
            p == SchemePreference::spec_from_raw(v),
    {
        match v {
            1 => SchemePreference::Dark,
            2 => SchemePreference::Light,
            _ => SchemePreference::NoPreference,
        }
    }
}

/// The namespace of the appearance settings the watcher listens on.
pub fn setting_namespace() -> (s: &'static str)
    ensures
        s@ == "org.freedesktop.appearance"@,
{
    "org.freedesktop.appearance"
}

/// The key of the colour-scheme setting within that namespace.
pub fn setting_key() -> (s: &'static str)
    ensures
        s@ == "color-scheme"@,
{
    "color-scheme"
}

/// The theme file an alacritty config should link to under `p`: the dark
/// theme for a dark preference, the light theme otherwise.
pub fn alacritty_theme_file(p: SchemePreference) -> (s: &'static str)
    ensures
        p == SchemePreference::Dark ==> s@ == "theme-dark.yml"@,
        p != SchemePreference::Dark ==> s@ == "theme-light.yml"@,
{
    if p == SchemePreference::Dark {
        "theme-dark.yml"
    } else {
        "theme-light.yml"
    }
}

/// A raw change notification from the settings provider: the setting it
/// names, and its payload as an integer where it decodes to one.
pub struct ChangeEvent {
    /// The namespace of the changed setting.
    pub namespace: String,
    /// The key of the changed setting.
    pub key: String,
    /// The raw payload, or nothing where it is not an integer.
    pub value: Option<u32>,
}

/// The event is about the colour-scheme setting this crate watches.
pub open spec fn event_relevant(ev: ChangeEvent) -> bool {
    ev.namespace@ == "org.freedesktop.appearance"@ && ev.key@ == "color-scheme"@
}

/// Why no preference could be taken from a change event.
#[derive(Debug, Clone, Copy, PartialEq, Eq, Structural)]
pub enum ExtractError {
    /// The event is about some other setting.
    WrongSetting,
    /// The payload does not decode to an integer.
    BadPayload,
}

/// The preference a change event carries: the payload decoded as a
/// preference where the event is about the watched setting and its payload
/// is an integer, and the exact reason otherwise.
pub fn extract_scheme_preference(ev: &ChangeEvent) -> (r: Result<SchemePreference, ExtractError>)
    ensures
        r is Ok <==> event_relevant(*ev) && ev.value is Some,
        r matches Ok(p) ==> p == SchemePreference::spec_from_raw(ev.value.unwrap()),
        !event_relevant(*ev) ==> r == Err::<SchemePreference, ExtractError>(
            ExtractError::WrongSetting,
        ),
        event_relevant(*ev) && ev.value is None ==> r == Err::<SchemePreference, ExtractError>(
            ExtractError::BadPayload,
        ),
{
    let ns = String::from_str(setting_namespace());
    let key = String::from_str(setting_key());
    if !(ev.namespace == ns && ev.key == key) {
        return Err(ExtractError::WrongSetting);
    }
    match ev.value {
        Some(v) => Ok(SchemePreference::from_raw(v)),
        None => Err(ExtractError::BadPayload),
    }
}

} // verus!
