use vstd::prelude::*;

verus! {

/// The scaffolding subcommands, with their fully-resolved plain arguments.
/// Argument parsing, prompting and execution live outside the library; these
/// values are what they hand in.
pub enum HcScaffold {
    WebApp {
        name: Option<String>,
        description: Option<String>,
        setup_nix: Option<bool>,
        templates_url: Option<String>,
        templates_path: Option<String>,
        template: Option<String>,
        holo_enabled: bool,
    },
    Template(HcScaffoldTemplate),
    Dna { app: Option<String>, name: Option<String>, template: Option<String> },
    Zome {
        dna: Option<String>,
        name: Option<String>,
        integrity: Option<String>,
        coordinator: Option<String>,
        template: Option<String>,
    },
    EntryType {
        dna: Option<String>,
        zome: Option<String>,
        name: Option<String>,
        reference_entry_hash: Option<bool>,
        crud: Option<String>,
        link_from_original_to_each_update: Option<bool>,
        fields: Option<Vec<String>>,
        template: Option<String>,
    },
    LinkType {
        dna: Option<String>,
        zome: Option<String>,
        from_referenceable: Option<String>,
        to_referenceable: Option<String>,
        bidirectional: Option<bool>,
        delete: Option<bool>,
        template: Option<String>,
    },
    Collection {
        dna: Option<String>,
        zome: Option<String>,
        collection_type: Option<String>,
        collection_name: Option<String>,
        entry_type: Option<String>,
        template: Option<String>,
    },
    Example { example: Option<String>, template: Option<String> },
}

/// Where a template is set up from: fetched from elsewhere, or initialized
/// from a built-in one; each names the folder it should end up in.
pub enum HcScaffoldTemplate {
    Get { template_url: String, from_template: Option<String>, to_template: Option<String> },
    Init { template: Option<String>, to_template: Option<String> },
}

pub open spec fn opt_string_view(o: Option<String>) -> Option<Seq<char>> {
    match o {
        Some(s) => Some(s@),
        None => None,
    }
}

impl HcScaffoldTemplate {
    /// The folder under the templates directory this template should land in,
    /// when one was named.
    pub fn target_template(&self) -> (r: Option<String>)
        ensures
            opt_string_view(r) == (match self {
                HcScaffoldTemplate::Get { to_template, .. } => opt_string_view(*to_template),
                HcScaffoldTemplate::Init { to_template, .. } => opt_string_view(*to_template),
            }),
    {
        match self {
            HcScaffoldTemplate::Get { to_template, .. } => match to_template {
                Some(t) => Some(t.clone()),
                None => None,
            },
            HcScaffoldTemplate::Init { to_template, .. } => match to_template {
                Some(t) => Some(t.clone()),
                None => None,
            },
        }
    }
}

} // verus!
