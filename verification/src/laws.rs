//! What holds of the pipeline whatever the host reports.
//!
//! The statements are about the states of the pipeline as values, and about
//! the steps between them that the functions of the pipeline take.

use vstd::prelude::*;
use crate::atlas::AtlasView;
use crate::order::lemma_filter_positions;
use crate::handle::ImageHandle;
use crate::spawner::{
    failed_image, first_requests, has_image, is_resolved, loaded_image, resolved, state_of,
    unresolved, ImageState, LoadState, SpawnRequest, SpawnerState, StagedMap, StagedTexture,
};

verus! {

/// Staging is idempotent. Once a map has been offered for staging it is
/// known, and offering it again, with whatever images, changes nothing: a
/// map has one staging record, or one atlas, and never both. Staging alone
/// loads no map.
pub proof fn lemma_staging_is_idempotent(state: SpawnerState, first: StagedMap, second: StagedMap)
    requires
        state.well_formed(),
        first.tilemap == second.tilemap,
    ensures
        state.stage(first).is_known(first.tilemap),
        state.stage(first).stage(second) == state.stage(first),
        state.stage(first).well_formed(),
        state.stage(first).loaded == state.loaded,
{
    let once = state.stage(first);
    if !state.is_known(first.tilemap) {
        assert(once.staged[state.staged.len() as int].tilemap == first.tilemap);
    }
}

/// A map has one record. In a state whose tables are in order, two staging
/// records for the same map are the same record, and a map with a staging
/// record has no atlas.
pub proof fn lemma_one_record(state: SpawnerState, i: int, j: int)
    requires
        state.well_formed(),
        0 <= i < state.staged.len(),
        0 <= j < state.staged.len(),
        state.staged[i].tilemap == state.staged[j].tilemap,
    ensures
        i == j,
        !state.is_loaded(state.staged[i].tilemap),
{
    if i < j {
        assert(state.staged[i].tilemap != state.staged[j].tilemap);
    } else if j < i {
        assert(state.staged[j].tilemap != state.staged[i].tilemap);
    }
}

/// A staged map is not handed out before its images have come to rest.
/// While one of them is still loading, a poll leaves the map staged: it is
/// not among the maps handed out, and it is not loaded.
pub proof fn lemma_poll_waits(state: SpawnerState, states: Seq<ImageState>, i: int)
    requires
        state.well_formed(),
        0 <= i < state.staged.len(),
        !is_resolved(states, state.staged[i]),
    ensures
        state.poll(states).is_staged(state.staged[i].tilemap),
        !state.poll(states).is_loaded(state.staged[i].tilemap),
        forall|k: int|
            0 <= k < state.polled(states).len() ==> (#[trigger] state.polled(states)[k]).tilemap
                != state.staged[i].tilemap,
{
    let kept = lemma_filter_positions(state.staged, unresolved(states));
    let gone = lemma_filter_positions(state.staged, resolved(states));
    let k = choose|k: int| 0 <= k < kept.len() && (#[trigger] kept[k]) == i;
    assert(state.poll(states).staged[k].tilemap == state.staged[i].tilemap);
    assert forall|k: int| 0 <= k < state.polled(states).len() implies (#[trigger] state.polled(
        states,
    )[k]).tilemap != state.staged[i].tilemap by {
        assert(resolved(states)(state.staged[gone[k]]));
    }
}

/// A staged map whose images have all come to rest is handed out by the
/// very next poll and leaves the staging table, and it is loaded as soon as
/// its atlas is stored.
pub proof fn lemma_poll_promotes(
    state: SpawnerState,
    states: Seq<ImageState>,
    i: int,
    atlas: AtlasView,
)
    requires
        state.well_formed(),
        0 <= i < state.staged.len(),
        is_resolved(states, state.staged[i]),
        atlas.tilemap == state.staged[i].tilemap,
    ensures
        state.polled(states).contains(state.staged[i]),
        !state.poll(states).is_known(state.staged[i].tilemap),
        state.poll(states).promote(atlas).is_loaded(state.staged[i].tilemap),
        state.poll(states).promote(atlas).loaded[state.staged[i].tilemap] == atlas,
{
    let kept = lemma_filter_positions(state.staged, unresolved(states));
    let after = state.poll(states);
    assert forall|k: int| 0 <= k < after.staged.len() implies (#[trigger] after.staged[k]).tilemap
        != state.staged[i].tilemap by {
        assert(unresolved(states)(state.staged[kept[k]]));
    }
}

/// What is handed out of a record is part of the record: every texture
/// that counts is one of the requested ones, the first for its image, and
/// every requested image is counted.
pub proof fn lemma_first_requests(textures: Seq<StagedTexture>)
    ensures
        forall|k: int|
            0 <= k < first_requests(textures).len() ==> textures.contains(
                #[trigger] first_requests(textures)[k],
            ),
        forall|k: int, l: int|
            0 <= k < l < first_requests(textures).len() ==> (#[trigger] first_requests(
                textures,
            )[k]).image != (#[trigger] first_requests(textures)[l]).image,
        forall|image: ImageHandle|
            has_image(textures, image) <==> #[trigger] has_image(first_requests(textures), image),
    decreases textures.len(),
{
    let kept = first_requests(textures);
    if textures.len() > 0 {
        let front = textures.drop_last();
        let before = first_requests(front);
        lemma_first_requests(front);
        assert forall|image: ImageHandle|
            has_image(textures, image) <==> #[trigger] has_image(kept, image) by {
            if has_image(textures, image) {
                let j = choose|j: int|
                    0 <= j < textures.len() && (#[trigger] textures[j]).image == image;
                if j < front.len() {
                    assert(front[j].image == image);
                }
                if has_image(before, image) {
                    let k = choose|k: int|
                        0 <= k < before.len() && (#[trigger] before[k]).image == image;
                    assert(kept[k].image == image);
                } else {
                    assert(kept[kept.len() - 1].image == image);
                }
            }
            if has_image(kept, image) {
                let k = choose|k: int|
                    0 <= k < kept.len() && (#[trigger] kept[k]).image == image;
                assert(textures.contains(kept[k]));
            }
        }
    }
}

/// Where every image of a staged map has loaded, the map is handed out with
/// all its images, each once and in the order of the record, and with no
/// failure.
pub proof fn lemma_all_loaded(states: Seq<ImageState>, textures: Seq<StagedTexture>)
    requires
        forall|i: int|
            0 <= i < textures.len() ==> state_of(states, (#[trigger] textures[i]).image)
                == LoadState::Loaded,
    ensures
        first_requests(textures).filter_map(loaded_image(states)) == first_requests(
            textures,
        ).map_values(|texture: StagedTexture| texture.image),
        first_requests(textures).filter_map(failed_image(states)).len() == 0,
{
    let kept = first_requests(textures);
    lemma_first_requests(textures);
    lemma_loaded_are_kept(states, kept);
}

/// Of textures that have all loaded, every one is handed out, and none as a
/// failure.
pub proof fn lemma_loaded_are_kept(states: Seq<ImageState>, textures: Seq<StagedTexture>)
    requires
        forall|i: int|
            0 <= i < textures.len() ==> state_of(states, (#[trigger] textures[i]).image)
                == LoadState::Loaded,
    ensures
        textures.filter_map(loaded_image(states)) == textures.map_values(
            |texture: StagedTexture| texture.image,
        ),
        textures.filter_map(failed_image(states)).len() == 0,
    decreases textures.len(),
{
    if textures.len() > 0 {
        let front = textures.drop_last();
        lemma_loaded_are_kept(states, front);
    }
}

/// No image is handed out twice: the loaded images of a record are pairwise
/// different.
pub proof fn lemma_job_images_differ(states: Seq<ImageState>, textures: Seq<StagedTexture>)
    ensures
        first_requests(textures).filter_map(loaded_image(states)).no_duplicates(),
{
    let kept = first_requests(textures);
    lemma_first_requests(textures);
    lemma_loaded_images_differ(states, kept);
}

/// The loaded images of textures with pairwise different images are
/// pairwise different, and each is the image of one of the textures.
pub proof fn lemma_loaded_images_differ(states: Seq<ImageState>, textures: Seq<StagedTexture>)
    requires
        forall|k: int, l: int|
            0 <= k < l < textures.len() ==> (#[trigger] textures[k]).image
                != (#[trigger] textures[l]).image,
    ensures
        textures.filter_map(loaded_image(states)).no_duplicates(),
        forall|k: int|
            0 <= k < textures.filter_map(loaded_image(states)).len() ==> has_image(
                textures,
                #[trigger] textures.filter_map(loaded_image(states))[k],
            ),
    decreases textures.len(),
{
    if textures.len() > 0 {
        let front = textures.drop_last();
        lemma_loaded_images_differ(states, front);
    }
}

/// The queue is fair. Of two waiting requests whose maps are loaded, the
/// one that was made first is handed out first.
pub proof fn lemma_drain_keeps_order(state: SpawnerState, i: int, j: int)
    requires
        0 <= i < j < state.queue.len(),
        state.is_loaded(state.queue[i].tilemap),
        state.is_loaded(state.queue[j].tilemap),
    ensures
        exists|k: int, l: int|
            0 <= k < l < state.drained().len() && #[trigger] state.drained()[k] == state.queue[i]
                && #[trigger] state.drained()[l] == state.queue[j],
{
    let at = lemma_filter_positions(state.queue, state.ready());
    let k = choose|k: int| 0 <= k < at.len() && (#[trigger] at[k]) == i;
    let l = choose|l: int| 0 <= l < at.len() && (#[trigger] at[l]) == j;
    assert(state.drained()[k] == state.queue[i] && state.drained()[l] == state.queue[j]);
}

/// The requests that stay in the queue keep their order.
pub proof fn lemma_drain_keeps_waiting_order(state: SpawnerState, i: int, j: int)
    requires
        0 <= i < j < state.queue.len(),
        !state.is_loaded(state.queue[i].tilemap),
        !state.is_loaded(state.queue[j].tilemap),
    ensures
        exists|k: int, l: int|
            0 <= k < l < state.drain().queue.len() && #[trigger] state.drain().queue[k]
                == state.queue[i] && #[trigger] state.drain().queue[l] == state.queue[j],
{
    let at = lemma_filter_positions(state.queue, state.waiting());
    let k = choose|k: int| 0 <= k < at.len() && (#[trigger] at[k]) == i;
    let l = choose|l: int| 0 <= l < at.len() && (#[trigger] at[l]) == j;
    assert(state.drain().queue[k] == state.queue[i] && state.drain().queue[l] == state.queue[j]);
}

/// A drain hands out every request whose map is loaded and no other: what
/// it hands out is for a loaded map, and what it leaves is for a map that is
/// not loaded.
pub proof fn lemma_drain_serves_the_ready(state: SpawnerState)
    ensures
        forall|i: int|
            0 <= i < state.queue.len() && state.is_loaded((#[trigger] state.queue[i]).tilemap)
                ==> state.drained().contains(state.queue[i]),
        forall|k: int|
            0 <= k < state.drained().len() ==> state.is_loaded(
                (#[trigger] state.drained()[k]).tilemap,
            ),
        forall|i: int|
            0 <= i < state.queue.len() && !state.is_loaded((#[trigger] state.queue[i]).tilemap)
                ==> state.drain().queue.contains(state.queue[i]),
        forall|k: int|
            0 <= k < state.drain().queue.len() ==> !state.is_loaded(
                (#[trigger] state.drain().queue[k]).tilemap,
            ),
{
}

/// A request for a map that is already loaded does not wait: the next drain
/// hands it out, behind the requests that were made before it, and it is not
/// left in the queue.
pub proof fn lemma_request_for_loaded_map(state: SpawnerState, request: SpawnRequest)
    requires
        state.is_loaded(request.tilemap),
    ensures
        state.request(request).drained() == state.drained().push(request),
        state.request(request).drain().queue == state.drain().queue,
{
    reveal(Seq::filter);
    let after = state.request(request);
    assert(after.queue.drop_last() == state.queue);
    assert(after.ready() == state.ready());
    assert(after.waiting() == state.waiting());
}

/// A request for a map that is not loaded waits at the end of the queue.
pub proof fn lemma_request_for_waiting_map(state: SpawnerState, request: SpawnRequest)
    requires
        !state.is_loaded(request.tilemap),
    ensures
        state.request(request).drained() == state.drained(),
        state.request(request).drain().queue == state.drain().queue.push(request),
{
    reveal(Seq::filter);
    let after = state.request(request);
    assert(after.queue.drop_last() == state.queue);
    assert(after.ready() == state.ready());
    assert(after.waiting() == state.waiting());
}

/// Every step leaves the tables in order: after it no map is staged twice,
/// and no staged map is loaded.
pub proof fn lemma_steps_keep_well_formed(
    state: SpawnerState,
    request: SpawnRequest,
    states: Seq<ImageState>,
    atlas: AtlasView,
)
    requires
        state.well_formed(),
    ensures
        state.request(request).well_formed(),
        state.poll(states).well_formed(),
        state.promote(atlas).well_formed(),
        state.drain().well_formed(),
{
    let kept = lemma_filter_positions(state.staged, unresolved(states));
    let after = state.poll(states);
    assert forall|i: int, j: int| 0 <= i < j < after.staged.len() implies
        (#[trigger] after.staged[i]).tilemap != (#[trigger] after.staged[j]).tilemap by {
        assert(state.staged[kept[i]].tilemap != state.staged[kept[j]].tilemap);
    }
    assert forall|i: int| 0 <= i < after.staged.len() implies !after.is_loaded(
        (#[trigger] after.staged[i]).tilemap,
    ) by {
        assert(!state.is_loaded(state.staged[kept[i]].tilemap));
    }
}

} // verus!
