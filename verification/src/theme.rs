//! Whether the desktop prefers a dark or a light appearance, decided from
//! what the desktop answers to up to three questions.

use vstd::prelude::*;
use vstd::string::StringExecFns;
use crate::text::{contains, occurs_in};

verus! {

/// The appearance of the desktop.
#[derive(Debug, Clone, Copy, PartialEq, Eq, Structural)]
pub enum Theme {
    Dark,
    Light,
}

/// A question to the desktop about its appearance.
#[derive(Debug, Clone, Copy, PartialEq, Eq, Structural)]
pub enum ThemeProbe {
    /// The colour scheme that the desktop portal reports.
    PortalColorScheme,
    /// The colour scheme in the desktop's settings.
    SettingsColorScheme,
    /// The name of the widget theme in the desktop's settings.
    SettingsThemeName,
}

/// What to do after a question was answered, or went unanswered.
#[derive(Debug, Clone, Copy, PartialEq, Eq, Structural)]
pub enum ThemeStep {
    /// The appearance is known.
    Decided(Theme),
    /// The next question is to be asked.
    Ask(ThemeProbe),
}

impl Theme {
    /// The name of the appearance: `dark` or `light`.
    pub open spec fn label(self) -> Seq<char> {
        match self {
            Theme::Dark => "dark"@,
            Theme::Light => "light"@,
        }
    }

    /// The name of the appearance: `dark` or `light`.
    pub fn name(&self) -> (r: String)
        ensures
            r@ == self.label(),
    {
        match self {
            Theme::Dark => String::from_str("dark"),
            Theme::Light => String::from_str("light"),
        }
    }
}

/// The step that follows the answer `output` to the question `probe`;
/// `None` stands for a question that could not be asked.
///
/// The portal answers with a number: 1 means dark, 2 and 0 mean light. The
/// settings' colour scheme means dark if it says `prefer-dark`. Whatever is
/// left undecided by the first two questions is dark.
pub open spec fn theme_step(probe: ThemeProbe, output: Option<Seq<char>>) -> ThemeStep {
    match probe {
        ThemeProbe::PortalColorScheme => match output {
            Some(reply) => if occurs_in("uint32 1"@, reply) {
                ThemeStep::Decided(Theme::Dark)
            } else if occurs_in("uint32 2"@, reply) || occurs_in("uint32 0"@, reply) {
                ThemeStep::Decided(Theme::Light)
            } else {
                ThemeStep::Ask(ThemeProbe::SettingsColorScheme)
            },
            None => ThemeStep::Ask(ThemeProbe::SettingsColorScheme),
        },
        ThemeProbe::SettingsColorScheme => match output {
            Some(reply) => if occurs_in("prefer-dark"@, reply) {
                ThemeStep::Decided(Theme::Dark)
            } else {
                ThemeStep::Ask(ThemeProbe::SettingsThemeName)
            },
            None => ThemeStep::Ask(ThemeProbe::SettingsThemeName),
        },
        ThemeProbe::SettingsThemeName => ThemeStep::Decided(Theme::Dark),
    }
}

/// The question with which the detection of the appearance starts.
pub fn first_theme_probe() -> (probe: ThemeProbe)
    ensures
        probe == ThemeProbe::PortalColorScheme,
{
    ThemeProbe::PortalColorScheme
}

/// The step that follows the answer `output` to the question `probe`;
/// `None` stands for a question that could not be asked.
pub fn theme_after(probe: ThemeProbe, output: Option<String>) -> (step: ThemeStep)
    ensures
        step == theme_step(
            probe,
            match output {
                Some(reply) => Some(reply@),
                None => None,
            },
        ),
{
    match probe {
        ThemeProbe::PortalColorScheme => match output {
            Some(reply) => {
                if contains(reply.as_str(), "uint32 1") {
                    ThemeStep::Decided(Theme::Dark)
                } else if contains(reply.as_str(), "uint32 2") || contains(
                    reply.as_str(),
                    "uint32 0",
                ) {
                    ThemeStep::Decided(Theme::Light)
                } else {
                    ThemeStep::Ask(ThemeProbe::SettingsColorScheme)
                }
            },
            None => ThemeStep::Ask(ThemeProbe::SettingsColorScheme),
        },
        ThemeProbe::SettingsColorScheme => match output {
            Some(reply) => {
                if contains(reply.as_str(), "prefer-dark") {
                    ThemeStep::Decided(Theme::Dark)
                } else {
                    ThemeStep::Ask(ThemeProbe::SettingsThemeName)
                }
            },
            None => ThemeStep::Ask(ThemeProbe::SettingsThemeName),
        },
        ThemeProbe::SettingsThemeName => ThemeStep::Decided(Theme::Dark),
    }
}

} // verus!
