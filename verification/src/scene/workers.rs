//! The sources of chance and of concurrency that the renderer draws on.
use vstd::prelude::*;
use rayon::iter::{IntoParallelIterator, ParallelIterator};
use std::sync::mpsc::channel;
use threadpool::ThreadPool;
use threadpool_scope::scope_with;
use crate::error::RenderError;
use crate::scene::{RenderConfig, Scene};
use crate::scene::object::material::Color;

verus! {

/// The pool of worker threads of the `threadpool` crate.
#[verifier::external_type_specification]
#[verifier::external_body]
pub struct ExThreadPool(ThreadPool);

/// `ThreadPool::new` starts a pool of `num_threads` workers. It panics on a
/// pool of none, which the contract keeps out; nothing is claimed of the
/// pool it returns.
pub assume_specification[ ThreadPool::new ](num_threads: usize) -> (r: ThreadPool)
    requires
        num_threads > 0,
;

/// `rand::random::<u64>()`: 64 bits from the generator of the calling
/// thread. Nothing is claimed of them.
#[verifier::external_body]
pub(crate) fn random_word() -> (r: u64) {
    rand::random::<u64>()
}

/// `scope_with` with one `Scope::execute` per sample: each of the `n` jobs
/// handed to the pool calls `render_pixel` once and sends what it returns
/// down a channel, from which the `n` values are collected in the order in
/// which they arrive. The contract claims that there are `n` of them and
/// that each is a value that `render_pixel` returned for this pixel.
#[verifier::external_body]
pub(crate) fn pool_samples(
    pool: &ThreadPool,
    scene: &Scene,
    l: u32,
    c: u32,
    depth: u16,
    n: u32,
) -> (r: Vec<Result<Color, RenderError>>)
    ensures
        r@.len() == n,
        forall|k: int| 0 <= k < n ==> scene.sample_of(l, c, depth, #[trigger] r@[k]),
{
    scope_with(pool, |scope| {
        let (tx, rx) = channel();
        for _ in 0..n {
            let tx = tx.clone();
            scope.execute(move || { let _ = tx.send(scene.render_pixel(l, c, depth)); });
        }
        rx.iter().take(n as usize).collect()
    })
}

/// rayon's `into_par_iter`, `map` and `reduce` over the samples of a
/// pixel: each sample is one call of `render_pixel`, and `reduce` combines
/// them all, in their order, by `Scene::combine`, with `Scene::nothing_yet`
/// put in where it needs one; only how they are grouped is left open. The
/// contract claims as much: the result is what some grouping of as many
/// values as there are samples gives, each a value that `render_pixel`
/// returned for this pixel.
#[verifier::external_body]
pub(crate) fn reduced_samples(scene: &Scene, l: u32, c: u32, config: &RenderConfig) -> (r: Result<
    Color,
    RenderError,
>)
    ensures
        scene.reduction_of(config, l, c, r),
{
    (0..config.samples).into_par_iter().map(|_| scene.render_pixel(l, c, config.max_bounces)).reduce(
        || Scene::nothing_yet(),
        |a, b| Scene::combine(a, b),
    )
}

} // verus!
