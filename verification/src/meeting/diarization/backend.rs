//! Which backend a configuration gets.
use vstd::prelude::*;
use crate::meeting::diarization::DiarizationConfig;
use crate::text::same_text;

verus! {

/// The diarization backends.
#[derive(Clone, Copy, Debug, PartialEq, Eq, Structural)]
pub enum Backend {
    /// By audio source.
    Simple,
    /// By local speaker embeddings.
    Embedding,
    /// By speaker embeddings with clustering.
    Ml,
    /// In a process of its own.
    Subprocess,
}

/// What is to be done for a backend.
#[derive(Clone, Copy, Debug, PartialEq, Eq, Structural)]
pub enum Choice {
    /// Use this backend.
    Use(Backend),
    /// Look for the model of this backend, and load it.
    Load(Backend),
}

/// The backends that are part of the build.
#[derive(Clone, Copy, Debug, PartialEq, Eq, Structural)]
pub struct Available {
    pub embedding: bool,
    pub ml: bool,
}

/// What the configured backend asks for. The simple backend stands in for one that is
/// not part of the build, and for one that is not known.
pub open spec fn choice(backend: Seq<char>, available: Available) -> Choice {
    if backend == "simple"@ {
        Choice::Use(Backend::Simple)
    } else if backend == "embedding"@ {
        if available.embedding {
            Choice::Load(Backend::Embedding)
        } else {
            Choice::Use(Backend::Simple)
        }
    } else if backend == "ml"@ {
        if available.ml {
            Choice::Load(Backend::Ml)
        } else {
            Choice::Use(Backend::Simple)
        }
    } else if backend == "subprocess"@ {
        Choice::Use(Backend::Subprocess)
    } else {
        Choice::Use(Backend::Simple)
    }
}

/// How a model came out that a backend needs.
#[derive(Clone, Copy, Debug, PartialEq, Eq, Structural)]
pub enum ModelOutcome {
    /// There is no model.
    Missing,
    /// The model could not be loaded.
    Failed,
    /// The model is loaded.
    Loaded,
}

/// Says what to do for the configured backend.
pub fn create_diarizer(config: &DiarizationConfig, available: Available) -> (r: Choice)
    ensures
        r == choice(config.backend@, available),
{
    let backend: &String = &config.backend;
    if same_text(backend, "simple") {
        Choice::Use(Backend::Simple)
    } else if same_text(backend, "embedding") {
        if available.embedding {
            Choice::Load(Backend::Embedding)
        } else {
            Choice::Use(Backend::Simple)
        }
    } else if same_text(backend, "ml") {
        if available.ml {
            Choice::Load(Backend::Ml)
        } else {
            Choice::Use(Backend::Simple)
        }
    } else if same_text(backend, "subprocess") {
        Choice::Use(Backend::Subprocess)
    } else {
        Choice::Use(Backend::Simple)
    }
}

/// The backend that is used once its model was looked for: itself where the model is
/// loaded, else the simple one.
pub fn after_loading(backend: Backend, outcome: ModelOutcome) -> (r: Backend)
    ensures
        r == if outcome == ModelOutcome::Loaded {
            backend
        } else {
            Backend::Simple
        },
{
    match outcome {
        ModelOutcome::Loaded => backend,
        ModelOutcome::Missing => Backend::Simple,
        ModelOutcome::Failed => Backend::Simple,
    }
}

} // verus!
