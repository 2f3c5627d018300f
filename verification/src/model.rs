//! The built-in models, render modes and discovered model files.
use vstd::prelude::*;

verus! {

/// The bundled mesh models.
#[derive(Debug, Clone, Copy, PartialEq, Eq)]
pub enum Model {
    Bunny,
    Dragon,
    Armadillo,
}

/// Path of a model's mesh file, relative to the project directory.
pub open spec fn model_path(m: Model) -> Seq<char> {
    match m {
        Model::Bunny => "models/bunny_remeshed.ply"@,
        Model::Dragon => "models/dragon.ply"@,
        Model::Armadillo => "models/armadillo.ply"@,
    }
}

/// `base` followed by the relative path `rel`, joined as `Path::join` joins
/// a relative path on Unix: a `/` between them unless `base` is empty or
/// already ends in `/`.
pub open spec fn joined_path(base: Seq<char>, rel: Seq<char>) -> Seq<char> {
    if base.len() == 0 {
        rel
    } else if base.last() == '/' {
        base + rel
    } else {
        base + "/"@ + rel
    }
}

impl Model {
    /// Path of the model's mesh file in the `models` directory of the
    /// project directory `base`.
    pub fn path(&self, base: &str) -> (p: String)
        ensures
            p@ == joined_path(base@, model_path(*self)),
    {
        let rel = match self {
            Model::Bunny => "models/bunny_remeshed.ply",
            Model::Dragon => "models/dragon.ply",
            Model::Armadillo => "models/armadillo.ply",
        };
        let mut p = base.to_owned();
        let n = base.unicode_len();
        if n > 0 && base.get_char(n - 1) != '/' {
            p.append("/");
        }
        p.append(rel);
        p
    }
}

/// What the traversal shader renders.
#[derive(Debug, Clone, Copy, PartialEq, Eq)]
pub enum RenderMode {
    Coord,
    Steps,
    Normal,
    UV,
    Depth,
}

/// A model file found in the models directory.
#[derive(Debug)]
pub struct DiscoveredModel {
    /// Full path of the file.
    pub path: String,
    /// File stem.
    pub name: String,
    /// Lower-case extension (`ply` or `vox`).
    pub extension: String,
}

impl Clone for DiscoveredModel {
    fn clone(&self) -> (r: Self)
        ensures
            r == *self,
    {
        DiscoveredModel {
            path: self.path.clone(),
            name: self.name.clone(),
            extension: self.extension.clone(),
        }
    }
}

} // verus!
