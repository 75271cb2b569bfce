use vstd::prelude::*;

verus! {

/// Which part of a project to analyse and how to configure it.
#[derive(Clone, Debug, PartialEq, Eq)]
pub struct ProjectOptions {
    /// Process only the package's library.
    pub lib: bool,
    /// Process only this binary.
    pub bin: Option<String>,
    /// Package to process.
    pub package: Option<String>,
    /// Do not activate the `default` feature.
    pub no_default_features: bool,
    /// Activate all available features.
    pub all_features: bool,
    /// Features to activate; ignored when all features are activated.
    pub features: Vec<String>,
    /// Target triple to analyse for.
    pub target: Option<String>,
    /// Path to the manifest.
    pub manifest_path: String,
}

/// Options that hold for every command.
#[derive(Clone, Copy, Debug, PartialEq, Eq, Hash, Structural)]
pub struct GeneralOptions {
    /// Use verbose output.
    pub verbose: bool,
}

} // verus!
