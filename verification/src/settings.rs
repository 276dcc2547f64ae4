//! App-scoped Codex settings and the sanitizing that keeps a hand-edited
//! settings file from passing the CLI anything it would reject.

use vstd::prelude::*;

use crate::strings::{chars_of, owned, same_text, trim, trim_chars};

verus! {

pub const MAX_LINEAGE_REFS: usize = 6;

/// The lowercase mapping of a text (Unicode `Lowercase_Mapping`), as
/// `str::to_lowercase` computes it.
pub uninterp spec fn lowercase(text: Seq<char>) -> Seq<char>;

/// Calls `str::to_lowercase`.
#[verifier::external_body]
fn to_lowercase(text: &str) -> (result: String)
    ensures
        result@ == lowercase(text@),
{
    text.to_lowercase()
}

/// The values accepted for `model_reasoning_effort`; the empty string leaves
/// the CLI's own setting alone.
pub open spec fn reasoning_efforts() -> Seq<Seq<char>> {
    seq![""@, "minimal"@, "low"@, "medium"@, "high"@, "xhigh"@]
}

/// Whether `value` is one of the accepted reasoning efforts.
pub fn is_reasoning_effort(value: &str) -> (result: bool)
    ensures
        result == reasoning_efforts().contains(value@),
{
    let found = same_text(value, "") || same_text(value, "minimal") || same_text(value, "low")
        || same_text(value, "medium") || same_text(value, "high") || same_text(value, "xhigh");
    proof {
        let efforts = reasoning_efforts();
        if found {
            if value@ == ""@ {
                assert(efforts[0] == value@);
            } else if value@ == "minimal"@ {
                assert(efforts[1] == value@);
            } else if value@ == "low"@ {
                assert(efforts[2] == value@);
            } else if value@ == "medium"@ {
                assert(efforts[3] == value@);
            } else if value@ == "high"@ {
                assert(efforts[4] == value@);
            } else {
                assert(efforts[5] == value@);
            }
        } else {
            assert forall|i: int| 0 <= i < efforts.len() implies efforts[i] != value@ by {
            }
        }
    }
    found
}

/// Settings passed to every Codex run.
#[derive(Clone, Debug, PartialEq)]
pub struct SettingsData {
    /// Passed as `codex exec -m`. Empty keeps whatever the CLI is configured with.
    pub model: String,
    /// Passed as `-c model_reasoning_effort=…`. Empty keeps the CLI's value.
    pub reasoning_effort: String,
    /// How many earlier images from a card's own chain are offered to Codex as
    /// extra references, newest first.
    pub lineage_refs: usize,
}

impl Default for SettingsData {
    fn default() -> (data: Self)
        ensures
            data.model@ == Seq::<char>::empty(),
            data.reasoning_effort@ == Seq::<char>::empty(),
            data.lineage_refs == 3,
    {
        SettingsData { model: String::new(), reasoning_effort: String::new(), lineage_refs: 3 }
    }
}

/// The effort that survives sanitizing: the trimmed, lowercased value when
/// it is accepted, otherwise empty.
pub open spec fn sanitized_effort(effort: Seq<char>) -> Seq<char> {
    let lowered = lowercase(trim_chars(effort));
    if reasoning_efforts().contains(lowered) {
        lowered
    } else {
        Seq::empty()
    }
}

impl SettingsData {
    /// Drops anything a hand-edited file could carry that the CLI would reject.
    pub fn sanitize(&mut self)
        ensures
            final(self).model@ == trim_chars(old(self).model@),
            final(self).reasoning_effort@ == sanitized_effort(old(self).reasoning_effort@),
            final(self).lineage_refs == (if old(self).lineage_refs < MAX_LINEAGE_REFS {
                old(self).lineage_refs
            } else {
                MAX_LINEAGE_REFS
            }),
    {
        self.model = trim(self.model.as_str());
        let trimmed = trim(self.reasoning_effort.as_str());
        let lowered = to_lowercase(trimmed.as_str());
        if is_reasoning_effort(lowered.as_str()) {
            self.reasoning_effort = lowered;
        } else {
            self.reasoning_effort = String::new();
        }
        if self.lineage_refs > MAX_LINEAGE_REFS {
            self.lineage_refs = MAX_LINEAGE_REFS;
        }
    }

    /// The model name for display, or "CLI default" when none is set.
    pub fn model_label(&self) -> (label: &str)
        ensures
            label@ == (if self.model@.len() == 0 {
                "CLI default"@
            } else {
                self.model@
            }),
    {
        if self.model.as_str().is_empty() {
            "CLI default"
        } else {
            self.model.as_str()
        }
    }
}

} // verus!
