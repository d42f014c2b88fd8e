//! The ordering and partitioning core of a path tracer: intervals, axis-aligned
//! bounding boxes over ordered coordinate keys, the bounding-volume hierarchy
//! built over a world's objects, the choices a sphere test makes between its
//! roots, and the lookup of the scene to render.
use vstd::prelude::*;

pub mod aabb;
pub mod bvh;
pub mod hittable;
pub mod interval;
pub mod keys;
pub mod sphere;
pub mod texture;

verus! {

/// How a render is to be run.
#[derive(Debug)]
pub struct RenderConfig {
    pub multi_threaded: bool,
    pub output_file: String,
}

/// What can go wrong while a scene is put together or rendered.
#[derive(Debug, PartialEq, Eq)]
pub enum RtwError {
    /// An interval whose two bounds are equal.
    InvalidInterval,
    /// A sphere radius that is not positive, by its IEEE-754 encoding.
    InvalidRadius(u64),
    SceneNotFound(String),
    IoError(String),
}

pub type Result<T> = std::result::Result<T, RtwError>;

/// The scenes that can be rendered.
#[derive(Clone, Copy, Debug, PartialEq, Eq, Structural)]
pub enum Scene {
    /// A large field of small random spheres around three big ones.
    Random,
    /// Five spheres of the three materials on a ground sphere.
    Test,
}

/// A scene to render and how to render it.
#[derive(Debug)]
pub struct RenderJob {
    pub scene: Scene,
    pub multi_threaded: bool,
    pub output_file: String,
}

/// The scene that a name selects, if any.
pub open spec fn scene_named(name: Seq<char>) -> Option<Scene> {
    if name == "random"@ {
        Some(Scene::Random)
    } else if name == "test"@ {
        Some(Scene::Test)
    } else {
        None
    }
}

/// Resolves a scene name and a configuration into the job to run; an unknown
/// name is refused with the name itself.
pub fn render_scene(scene: &str, config: &RenderConfig) -> (r: Result<RenderJob>)
    ensures
        scene_named(scene@) is Some <==> r is Ok,
        r is Ok ==> r->Ok_0.scene == scene_named(scene@)->Some_0 && r->Ok_0.multi_threaded
            == config.multi_threaded && r->Ok_0.output_file@ == config.output_file@,
        r is Err ==> r->Err_0 is SceneNotFound && r->Err_0->SceneNotFound_0@ == scene@,
{
    let name = scene.to_owned();
    let random = "random".to_owned();
    let test = "test".to_owned();
    proof {
        reveal_strlit("random");
        reveal_strlit("test");
    }
    let chosen = if name == random {
        Scene::Random
    } else if name == test {
        Scene::Test
    } else {
        return Err(RtwError::SceneNotFound(name));
    };
    Ok(RenderJob {
        scene: chosen,
        multi_threaded: config.multi_threaded,
        output_file: config.output_file.clone(),
    })
}

} // verus!
