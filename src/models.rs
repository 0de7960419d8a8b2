//! The request's data: resources, usages and the response.
use vstd::prelude::*;

verus! {

/// A reusable resource: its name, the seconds it needs between two uses,
/// and the tags that decide which usages it can serve.
pub struct Cooldown {
    pub display_name: String,
    pub cooldown: u64,
    pub group_names: Vec<String>,
}

/// One timestamped use, with its id, its time in seconds, its value in
/// millionths, and the tags of the resources that can serve it.
pub struct CooldownUsage {
    pub uid: u64,
    pub at: u64,
    pub value: u64,
    pub group_names: Vec<String>,
}

/// What a usage is, as the contracts see it.
pub ghost struct UsageModel {
    pub uid: int,
    pub at: int,
    pub value: int,
    pub tags: Seq<Seq<char>>,
}

pub open spec fn strings_view(v: Seq<String>) -> Seq<Seq<char>> {
    v.map_values(|g: String| g@)
}

impl View for CooldownUsage {
    type V = UsageModel;

    open spec fn view(&self) -> UsageModel {
        UsageModel {
            uid: self.uid as int,
            at: self.at as int,
            value: self.value as int,
            tags: strings_view(self.group_names@),
        }
    }
}

pub open spec fn usages_view(v: Seq<CooldownUsage>) -> Seq<UsageModel> {
    v.map_values(|u: CooldownUsage| u@)
}

/// The answer to one request: either an error message or the rendered text.
pub struct Note {
    pub error: String,
    pub output: String,
}

impl Note {
    /// A failed request: the message, and no output.
    pub fn failure(message: String) -> (r: Note)
        ensures
            r.error@ == message@,
            r.output@.len() == 0,
    {
        Note { error: message, output: String::new() }
    }

    /// A successful request: the output, and no error.
    pub fn success(output: String) -> (r: Note)
        ensures
            r.output@ == output@,
            r.error@.len() == 0,
    {
        Note { error: String::new(), output }
    }
}

/// A request: the template and the resources to place in it.
pub struct SolvePayload {
    pub template: String,
    pub cooldowns: Vec<Cooldown>,
}

} // verus!
