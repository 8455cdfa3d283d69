//! The state of the pipeline: which maps are staged, which are loaded, and
//! which layers wait to be shown.
//!
//! A map is staged when the images of its tiles have been requested. Every
//! tick the host reports the load state of the images; a staged map of which
//! no image is still loading leaves the staging table and is handed out for
//! packing. Once its atlas is stored the map is loaded, and stays so. A
//! request to show a layer waits in a queue until its map is loaded.
//!
//! An image that failed to load does not hold its map back. It is reported
//! with the map when the map is handed out for packing, gets no region in the
//! atlas, and the cells that show it are left out when a layer is expanded.

use vstd::prelude::*;
use std::collections::HashMap;
use std::collections::HashSet;
use crate::atlas::{AtlasView, LoadedTileMap};
use crate::error::ConfigurationError;
use crate::handle::{ImageHandle, MapHandle};
use crate::map::TileMap;
use crate::order::lemma_filter_positions;

verus! {

/// How far the loading of an image has come.
#[derive(Clone, Copy, Debug, PartialEq, Eq, Structural)]
pub enum LoadState {
    Loading,
    Loaded,
    Failed,
}

/// The load state that the host found for one image.
#[derive(Clone, Copy, Debug, PartialEq, Eq, Structural)]
pub struct ImageState {
    pub image: ImageHandle,
    pub state: LoadState,
}

/// An image that was requested for a staged map, and the path it was
/// requested under.
#[derive(Debug)]
pub struct StagedTexture {
    pub image: ImageHandle,
    pub path: String,
}

/// A staged map: the images that its atlas waits for.
#[derive(Debug)]
pub struct StagedMap {
    pub tilemap: MapHandle,
    pub textures: Vec<StagedTexture>,
}

/// A request to show one layer of a map.
#[derive(Clone, Copy, Debug, PartialEq, Eq, Structural)]
pub struct SpawnRequest {
    pub tilemap: MapHandle,
    pub layer: u32,
}

/// An image that failed to load. The map goes on without it.
#[derive(Debug)]
pub struct ResourceError {
    pub image: ImageHandle,
    pub path: String,
}

/// A map whose images have all come to rest, handed out for packing:
/// the images that loaded, in the order in which they were requested, and
/// those that failed. An image that was requested more than once is listed
/// once.
#[derive(Debug)]
pub struct AtlasJob {
    pub tilemap: MapHandle,
    pub images: Vec<ImageHandle>,
    pub failed: Vec<ResourceError>,
}

/// The state that `states` reports for `image`. A later report overrides an
/// earlier one, and an image without a report is still loading.
pub open spec fn state_of(states: Seq<ImageState>, image: ImageHandle) -> LoadState
    decreases states.len(),
{
    if states.len() == 0 {
        LoadState::Loading
    } else if states.last().image == image {
        states.last().state
    } else {
        state_of(states.drop_last(), image)
    }
}

/// No image of `record` is still loading.
pub open spec fn is_resolved(states: Seq<ImageState>, record: StagedMap) -> bool {
    forall|i: int|
        0 <= i < record.textures@.len() ==> state_of(states, (#[trigger] record.textures@[i]).image)
            != LoadState::Loading
}

/// Holds of the records of which no image is still loading.
pub open spec fn resolved(states: Seq<ImageState>) -> spec_fn(StagedMap) -> bool {
    |record: StagedMap| is_resolved(states, record)
}

/// Holds of the records of which an image is still loading.
pub open spec fn unresolved(states: Seq<ImageState>) -> spec_fn(StagedMap) -> bool {
    |record: StagedMap| !is_resolved(states, record)
}

/// Picks the image of a texture that has loaded.
pub open spec fn loaded_image(states: Seq<ImageState>) -> spec_fn(StagedTexture) -> Option<
    ImageHandle,
> {
    |texture: StagedTexture|
        if state_of(states, texture.image) == LoadState::Loaded {
            Some(texture.image)
        } else {
            None
        }
}

/// Picks the error of a texture that has failed.
pub open spec fn failed_image(states: Seq<ImageState>) -> spec_fn(StagedTexture) -> Option<
    ResourceError,
> {
    |texture: StagedTexture|
        if state_of(states, texture.image) == LoadState::Failed {
            Some(ResourceError { image: texture.image, path: texture.path })
        } else {
            None
        }
}

/// One of `textures` is for `image`.
pub open spec fn has_image(textures: Seq<StagedTexture>, image: ImageHandle) -> bool {
    exists|k: int| 0 <= k < textures.len() && (#[trigger] textures[k]).image == image
}

/// `textures` without those whose image an earlier one names already.
pub open spec fn first_requests(textures: Seq<StagedTexture>) -> Seq<StagedTexture>
    decreases textures.len(),
{
    if textures.len() == 0 {
        Seq::empty()
    } else if has_image(textures.drop_last(), textures.last().image) {
        first_requests(textures.drop_last())
    } else {
        first_requests(textures.drop_last()).push(textures.last())
    }
}

/// `job` is what `record` is handed out as: its loaded images and its
/// failed ones, each once and in the order of the record.
pub open spec fn job_for(states: Seq<ImageState>, record: StagedMap, job: AtlasJob) -> bool {
    &&& job.tilemap == record.tilemap
    &&& job.images@ == first_requests(record.textures@).filter_map(loaded_image(states))
    &&& job.failed@ == first_requests(record.textures@).filter_map(failed_image(states))
}

/// The images that the staged maps wait for: those of the first record,
/// then those of the second, and so on.
pub open spec fn pending_images(staged: Seq<StagedMap>) -> Seq<ImageHandle>
    decreases staged.len(),
{
    if staged.len() == 0 {
        Seq::empty()
    } else {
        pending_images(staged.drop_last()) + staged.last().textures@.map_values(
            |texture: StagedTexture| texture.image,
        )
    }
}

/// The state of the pipeline as a value.
#[verifier::ext_equal]
pub struct SpawnerState {
    /// The loaded maps, each with its atlas.
    pub loaded: Map<MapHandle, AtlasView>,
    /// The staged maps, in the order in which they were staged.
    pub staged: Seq<StagedMap>,
    /// The requests that wait, in the order in which they were made.
    pub queue: Seq<SpawnRequest>,
}

impl SpawnerState {
    /// The state of a pipeline that has seen nothing yet.
    pub open spec fn empty() -> SpawnerState {
        SpawnerState { loaded: Map::empty(), staged: Seq::empty(), queue: Seq::empty() }
    }

    /// The map has an atlas.
    pub open spec fn is_loaded(self, tilemap: MapHandle) -> bool {
        self.loaded.contains_key(tilemap)
    }

    /// The map waits for its images.
    pub open spec fn is_staged(self, tilemap: MapHandle) -> bool {
        exists|i: int| 0 <= i < self.staged.len() && (#[trigger] self.staged[i]).tilemap == tilemap
    }

    /// The map is staged or loaded.
    pub open spec fn is_known(self, tilemap: MapHandle) -> bool {
        self.is_staged(tilemap) || self.is_loaded(tilemap)
    }

    /// No map is staged twice, no staged map is loaded, and every atlas is
    /// kept under the map it belongs to.
    pub open spec fn well_formed(self) -> bool {
        &&& forall|i: int, j: int|
            0 <= i < j < self.staged.len() ==> (#[trigger] self.staged[i]).tilemap
                != (#[trigger] self.staged[j]).tilemap
        &&& forall|i: int|
            0 <= i < self.staged.len() ==> !self.is_loaded((#[trigger] self.staged[i]).tilemap)
        &&& forall|tilemap: MapHandle|
            self.loaded.contains_key(tilemap) ==> (#[trigger] self.loaded[tilemap]).tilemap
                == tilemap
    }

    /// The state after `request` has joined the queue.
    pub open spec fn request(self, request: SpawnRequest) -> SpawnerState {
        SpawnerState { queue: self.queue.push(request), ..self }
    }

    /// The state after `record` was offered for staging: a map that is
    /// already known is not staged again.
    pub open spec fn stage(self, record: StagedMap) -> SpawnerState {
        if self.is_known(record.tilemap) {
            self
        } else {
            SpawnerState { staged: self.staged.push(record), ..self }
        }
    }

    /// The records that a poll hands out for packing.
    pub open spec fn polled(self, states: Seq<ImageState>) -> Seq<StagedMap> {
        self.staged.filter(resolved(states))
    }

    /// The state after a poll: the records that were handed out are gone.
    pub open spec fn poll(self, states: Seq<ImageState>) -> SpawnerState {
        SpawnerState { staged: self.staged.filter(unresolved(states)), ..self }
    }

    /// The state after `atlas` was offered for its map: a map that is
    /// already known keeps what it has.
    pub open spec fn promote(self, atlas: AtlasView) -> SpawnerState {
        if self.is_known(atlas.tilemap) {
            self
        } else {
            SpawnerState { loaded: self.loaded.insert(atlas.tilemap, atlas), ..self }
        }
    }

    /// Holds of the requests whose map is loaded.
    pub open spec fn ready(self) -> spec_fn(SpawnRequest) -> bool {
        |request: SpawnRequest| self.is_loaded(request.tilemap)
    }

    /// Holds of the requests whose map is not loaded.
    pub open spec fn waiting(self) -> spec_fn(SpawnRequest) -> bool {
        |request: SpawnRequest| !self.is_loaded(request.tilemap)
    }

    /// The requests that a drain of the queue hands out.
    pub open spec fn drained(self) -> Seq<SpawnRequest> {
        self.queue.filter(self.ready())
    }

    /// The state after the queue was drained: the requests that were handed
    /// out are gone.
    pub open spec fn drain(self) -> SpawnerState {
        SpawnerState { queue: self.queue.filter(self.waiting()), ..self }
    }
}

/// The state that the table `reported` holds for `image`; an image that it
/// does not hold is still loading.
spec fn reported_state(reported: Map<u128, LoadState>, image: ImageHandle) -> LoadState {
    if reported.contains_key(image.id) {
        reported[image.id]
    } else {
        LoadState::Loading
    }
}

/// `reported` holds for every image what `states` reports for it.
spec fn reports(reported: Map<u128, LoadState>, states: Seq<ImageState>) -> bool {
    forall|image: ImageHandle|
        reported_state(reported, image) == #[trigger] state_of(states, image)
}

/// Puts the reports into a table by image.
fn index_states(states: &Vec<ImageState>) -> (reported: HashMap<u128, LoadState>)
    ensures
        reports(reported@, states@),
{
    let mut reported: HashMap<u128, LoadState> = HashMap::new();
    let mut i: usize = 0;
    while i < states.len()
        invariant
            i <= states@.len(),
            reports(reported@, states@.take(i as int)),
        decreases states@.len() - i,
    {
        let ghost before = reported@;
        reported.insert(states[i].image.id, states[i].state);
        proof {
            let next = states@.take(i + 1);
            assert(next.drop_last() == states@.take(i as int));
            assert forall|image: ImageHandle|
                reported_state(reported@, image) == #[trigger] state_of(next, image) by {
                assert(reported_state(before, image) == state_of(states@.take(i as int), image));
            }
        }
        i += 1;
    }
    proof {
        assert(states@.take(i as int) == states@);
    }
    reported
}

/// What `record` is handed out as, or `None` while one of its images is
/// still loading.
fn job_of(record: &StagedMap, reported: &HashMap<u128, LoadState>, Ghost(states): Ghost<
    Seq<ImageState>,
>) -> (job: Option<AtlasJob>)
    requires
        reports(reported@, states),
    ensures
        job is Some <==> is_resolved(states, *record),
        job matches Some(job) ==> job_for(states, *record, job),
{
    let mut images: Vec<ImageHandle> = Vec::new();
    let mut failed: Vec<ResourceError> = Vec::new();
    let mut seen: HashSet<u128> = HashSet::new();
    let mut i: usize = 0;
    while i < record.textures.len()
        invariant
            i <= record.textures@.len(),
            reports(reported@, states),
            forall|j: int|
                0 <= j < i ==> state_of(states, (#[trigger] record.textures@[j]).image)
                    != LoadState::Loading,
            forall|id: u128|
                seen@.contains(id) <==> has_image(
                    record.textures@.take(i as int),
                    ImageHandle { id },
                ),
            images@ == first_requests(record.textures@.take(i as int)).filter_map(
                loaded_image(states),
            ),
            failed@ == first_requests(record.textures@.take(i as int)).filter_map(
                failed_image(states),
            ),
        decreases record.textures@.len() - i,
    {
        let texture = &record.textures[i];
        let state = match reported.get(&texture.image.id) {
            Some(state) => *state,
            None => LoadState::Loading,
        };
        let ghost before = record.textures@.take(i as int);
        let ghost next = record.textures@.take(i + 1);
        let ghost kept = first_requests(before);
        proof {
            assert(next.drop_last() == before);
            assert(kept.push(*texture).drop_last() == kept);
        }
        if let LoadState::Loading = state {
            return None;
        }
        let fresh = seen.insert(texture.image.id);
        if fresh {
            match state {
                LoadState::Loaded => {
                    images.push(texture.image);
                },
                _ => {
                    failed.push(ResourceError { image: texture.image, path: texture.path.clone() });
                },
            }
        }
        proof {
            assert forall|id: u128| seen@.contains(id) <==> has_image(next, ImageHandle { id }) by {
                let image = ImageHandle { id };
                if id == texture.image.id {
                    assert(next[i as int].image == image);
                }
            }
        }
        i += 1;
    }
    proof {
        assert(record.textures@.take(i as int) == record.textures@);
    }
    Some(AtlasJob { tilemap: record.tilemap, images, failed })
}

/// The loaded maps as the state shows them: each atlas, by its view, under
/// the handle whose id it is kept under.
spec fn loaded_view(loaded: Map<u128, LoadedTileMap>) -> Map<MapHandle, AtlasView> {
    Map::new(
        |tilemap: MapHandle| loaded.contains_key(tilemap.id),
        |tilemap: MapHandle| loaded[tilemap.id]@,
    )
}

/// The pipeline: the staging table, the loaded maps and the queue of
/// requests.
#[derive(Debug)]
pub struct TileMapSpawner {
    loaded_maps: HashMap<u128, LoadedTileMap>,
    staged_maps: Vec<StagedMap>,
    to_be_spawned: Vec<SpawnRequest>,
}

impl View for TileMapSpawner {
    type V = SpawnerState;

    closed spec fn view(&self) -> SpawnerState {
        SpawnerState {
            loaded: loaded_view(self.loaded_maps@),
            staged: self.staged_maps@,
            queue: self.to_be_spawned@,
        }
    }
}

impl Default for TileMapSpawner {
    fn default() -> (spawner: TileMapSpawner)
        ensures
            spawner@ == SpawnerState::empty(),
    {
        TileMapSpawner::new()
    }
}

impl TileMapSpawner {
    #[verifier::type_invariant]
    spec fn inv(self) -> bool {
        self@.well_formed()
    }

    /// A pipeline that has seen nothing yet.
    pub fn new() -> (spawner: TileMapSpawner)
        ensures
            spawner@ == SpawnerState::empty(),
    {
        TileMapSpawner {
            loaded_maps: HashMap::new(),
            staged_maps: Vec::new(),
            to_be_spawned: Vec::new(),
        }
    }

    /// Asks for layer `layer` of the map `handle` to be shown. The request
    /// joins the end of the queue, whether or not the map is known, and
    /// whether or not the same request is already waiting.
    pub fn spawn(&mut self, handle: MapHandle, layer: u32)
        ensures
            final(self)@ == old(self)@.request(SpawnRequest { tilemap: handle, layer }),
            final(self)@.well_formed(),
    {
        proof {
            use_type_invariant(&*self);
        }
        let ghost state = self@;
        assert(state.staged == self.staged_maps@ && state.loaded == loaded_view(self.loaded_maps@));
        let mut queue: Vec<SpawnRequest> = Vec::new();
        std::mem::swap(&mut queue, &mut self.to_be_spawned);
        queue.push(SpawnRequest { tilemap: handle, layer });
        self.to_be_spawned = queue;
    }

    /// Whether the map has an atlas.
    pub fn is_loaded(&self, handle: MapHandle) -> (loaded: bool)
        ensures
            loaded == self@.is_loaded(handle),
            self@.well_formed(),
    {
        proof {
            use_type_invariant(self);
        }
        self.loaded_maps.contains_key(&handle.id)
    }

    /// Whether the map waits for its images.
    pub fn is_staged(&self, handle: MapHandle) -> (staged: bool)
        ensures
            staged == self@.is_staged(handle),
            self@.well_formed(),
    {
        proof {
            use_type_invariant(self);
        }
        let mut i: usize = 0;
        while i < self.staged_maps.len()
            invariant
                i <= self.staged_maps@.len(),
                self@.staged == self.staged_maps@,
                self@.well_formed(),
                forall|j: int| 0 <= j < i ==> (#[trigger] self.staged_maps@[j]).tilemap != handle,
            decreases self.staged_maps@.len() - i,
        {
            if self.staged_maps[i].tilemap == handle {
                return true;
            }
            i += 1;
        }
        false
    }

    /// The staged maps, in the order in which they were staged.
    pub fn staged_maps(&self) -> (staged: &Vec<StagedMap>)
        ensures
            staged@ == self@.staged,
            self@.well_formed(),
    {
        proof {
            use_type_invariant(self);
        }
        &self.staged_maps
    }

    /// The images that the staged maps wait for, record by record. These
    /// are the images whose load state the next poll asks for.
    pub fn pending_images(&self) -> (images: Vec<ImageHandle>)
        ensures
            images@ == pending_images(self@.staged),
            self@.well_formed(),
    {
        proof {
            use_type_invariant(self);
        }
        let mut images: Vec<ImageHandle> = Vec::new();
        let mut r: usize = 0;
        while r < self.staged_maps.len()
            invariant
                r <= self.staged_maps@.len(),
                images@ == pending_images(self.staged_maps@.take(r as int)),
            decreases self.staged_maps@.len() - r,
        {
            let record = &self.staged_maps[r];
            let ghost before = images@;
            let ghost wanted = record.textures@.map_values(|texture: StagedTexture| texture.image);
            let mut t: usize = 0;
            while t < record.textures.len()
                invariant
                    t <= record.textures@.len(),
                    wanted == record.textures@.map_values(|texture: StagedTexture| texture.image),
                    images@ == before + wanted.take(t as int),
                decreases record.textures@.len() - t,
            {
                images.push(record.textures[t].image);
                t += 1;
            }
            assert(self.staged_maps@.take(r + 1).drop_last() == self.staged_maps@.take(r as int));
            r += 1;
        }
        assert(self.staged_maps@.take(r as int) == self.staged_maps@);
        images
    }

    /// The requests that wait, in the order in which they were made.
    pub fn to_be_spawned(&self) -> (queue: &Vec<SpawnRequest>)
        ensures
            queue@ == self@.queue,
            self@.well_formed(),
    {
        proof {
            use_type_invariant(self);
        }
        &self.to_be_spawned
    }

    /// The atlas of the map, if the map is loaded.
    pub fn loaded_map(&self, handle: MapHandle) -> (atlas: Option<&LoadedTileMap>)
        ensures
            self@.well_formed(),
            atlas is Some <==> self@.is_loaded(handle),
            atlas matches Some(atlas) ==> atlas@ == self@.loaded[handle]
                && atlas@.tilemap == handle,
    {
        proof {
            use_type_invariant(self);
        }
        self.loaded_maps.get(&handle.id)
    }

    /// Decides what has to be loaded before the map `handle` can be staged.
    /// `tilemap` is what the store holds under `handle`.
    ///
    /// For a map that is staged or loaded there is nothing to do. For any
    /// other map the answer is the image paths of all its tiles; that the
    /// store does not hold such a map is then an error.
    pub fn images_to_stage(&self, handle: MapHandle, tilemap: Option<&TileMap>) -> (result: Result<
        Option<Vec<String>>,
        ConfigurationError,
    >)
        ensures
            self@.well_formed(),
            self@.is_known(handle) ==> result
                == Ok::<Option<Vec<String>>, ConfigurationError>(None),
            !self@.is_known(handle) ==> match tilemap {
                Some(tilemap) => result matches Ok(Some(paths)) && paths@
                    == tilemap.spec_image_paths(),
                None => result == Err::<Option<Vec<String>>, ConfigurationError>(
                    ConfigurationError::MapNotFound { tilemap: handle },
                ),
            },
    {
        if self.is_staged(handle) || self.is_loaded(handle) {
            return Ok(None);
        }
        match tilemap {
            Some(tilemap) => Ok(Some(tilemap.image_paths())),
            None => Err(ConfigurationError::MapNotFound { tilemap: handle }),
        }
    }

    /// Stages the map `handle` with the images that were requested for it.
    /// A map that is already staged or loaded is left as it is, and the
    /// answer is `false`.
    pub fn stage_map(&mut self, handle: MapHandle, textures: Vec<StagedTexture>) -> (staged: bool)
        ensures
            final(self)@ == old(self)@.stage(StagedMap { tilemap: handle, textures }),
            staged == !old(self)@.is_known(handle),
            final(self)@.is_known(handle),
            final(self)@.well_formed(),
    {
        proof {
            use_type_invariant(&*self);
        }
        if self.is_staged(handle) || self.is_loaded(handle) {
            return false;
        }
        let ghost state = self@;
        let mut staged: Vec<StagedMap> = Vec::new();
        std::mem::swap(&mut staged, &mut self.staged_maps);
        staged.push(StagedMap { tilemap: handle, textures });
        proof {
            assert(staged@[state.staged.len() as int].tilemap == handle);
        }
        self.staged_maps = staged;
        true
    }

    /// Looks at the staged maps in the light of `states`, the load states
    /// that the host found. Every staged map of which no image is still
    /// loading leaves the staging table and is handed out for packing, the
    /// maps in the order in which they were staged. The others stay, in
    /// their order.
    pub fn poll_staged_maps(&mut self, states: &Vec<ImageState>) -> (jobs: Vec<AtlasJob>)
        ensures
            final(self)@ == old(self)@.poll(states@),
            final(self)@.well_formed(),
            jobs@.len() == old(self)@.polled(states@).len(),
            forall|k: int|
                0 <= k < jobs@.len() ==> job_for(
                    states@,
                    old(self)@.polled(states@)[k],
                    #[trigger] jobs@[k],
                ),
    {
        proof {
            use_type_invariant(&*self);
        }
        let ghost state = self@;
        assert(state.staged == self.staged_maps@ && state.loaded == loaded_view(self.loaded_maps@));
        let reported = index_states(states);
        let mut staged: Vec<StagedMap> = Vec::new();
        std::mem::swap(&mut staged, &mut self.staged_maps);
        let mut waiting: Vec<StagedMap> = Vec::new();
        let mut jobs: Vec<AtlasJob> = Vec::new();
        for record in it: staged
            invariant
                it.seq() == state.staged,
                reports(reported@, states@),
                waiting@ == state.staged.take(it.index() as int).filter(unresolved(states@)),
                jobs@.len() == state.staged.take(it.index() as int).filter(resolved(states@)).len(),
                forall|k: int|
                    0 <= k < jobs@.len() ==> job_for(
                        states@,
                        state.staged.take(it.index() as int).filter(resolved(states@))[k],
                        #[trigger] jobs@[k],
                    ),
        {
            proof {
                reveal(Seq::filter);
                assert(state.staged.take(it.index() + 1).drop_last() == state.staged.take(
                    it.index() as int,
                ));
            }
            match job_of(&record, &reported, Ghost(states@)) {
                Some(job) => {
                    jobs.push(job);
                },
                None => {
                    waiting.push(record);
                },
            }
        }
        proof {
            assert(state.staged.take(state.staged.len() as int) == state.staged);
            let at = lemma_filter_positions(state.staged, unresolved(states@));
            assert forall|i: int, j: int| 0 <= i < j < waiting@.len() implies
                (#[trigger] waiting@[i]).tilemap != (#[trigger] waiting@[j]).tilemap by {
                assert(state.staged[at[i]].tilemap != state.staged[at[j]].tilemap);
            }
            assert forall|i: int| 0 <= i < waiting@.len() implies !state.is_loaded(
                (#[trigger] waiting@[i]).tilemap,
            ) by {
                assert(!state.is_loaded(state.staged[at[i]].tilemap));
            }
        }
        self.staged_maps = waiting;
        jobs
    }

    /// Stores `atlas` as the atlas of its map, which is loaded from then on.
    /// A map that is staged or loaded keeps what it has, and the answer is
    /// `false`.
    pub fn promote(&mut self, atlas: LoadedTileMap) -> (promoted: bool)
        ensures
            final(self)@ == old(self)@.promote(atlas@),
            promoted == !old(self)@.is_known(atlas@.tilemap),
            final(self)@.well_formed(),
    {
        proof {
            use_type_invariant(&*self);
        }
        let handle = atlas.tilemap();
        if self.is_staged(handle) || self.is_loaded(handle) {
            return false;
        }
        let ghost state = self@;
        let mut loaded: HashMap<u128, LoadedTileMap> = HashMap::new();
        std::mem::swap(&mut loaded, &mut self.loaded_maps);
        loaded.insert(handle.id, atlas);
        proof {
            assert(loaded_view(loaded@) =~= state.loaded.insert(handle, atlas@));
            assert forall|i: int| 0 <= i < state.staged.len() implies !loaded_view(
                loaded@,
            ).contains_key((#[trigger] state.staged[i]).tilemap) by {
                assert(!state.is_loaded(state.staged[i].tilemap));
            }
        }
        self.loaded_maps = loaded;
        true
    }

    /// Takes from the queue every request whose map is loaded, and hands
    /// them out in the order in which they were made. The other requests
    /// stay in the queue, in their order.
    pub fn drain_queue(&mut self) -> (ready: Vec<SpawnRequest>)
        ensures
            final(self)@ == old(self)@.drain(),
            final(self)@.well_formed(),
            ready@ == old(self)@.drained(),
    {
        proof {
            use_type_invariant(&*self);
        }
        let ghost state = self@;
        assert(state.staged == self.staged_maps@ && state.loaded == loaded_view(self.loaded_maps@));
        let mut queue: Vec<SpawnRequest> = Vec::new();
        std::mem::swap(&mut queue, &mut self.to_be_spawned);
        let mut ready: Vec<SpawnRequest> = Vec::new();
        let mut waiting: Vec<SpawnRequest> = Vec::new();
        let mut i: usize = 0;
        while i < queue.len()
            invariant
                i <= queue@.len(),
                queue@ == state.queue,
                state.loaded == loaded_view(self.loaded_maps@),
                ready@ == queue@.take(i as int).filter(state.ready()),
                waiting@ == queue@.take(i as int).filter(state.waiting()),
            decreases queue@.len() - i,
        {
            let request = queue[i];
            proof {
                reveal(Seq::filter);
                assert(queue@.take(i + 1).drop_last() == queue@.take(i as int));
            }
            if self.loaded_maps.contains_key(&request.tilemap.id) {
                ready.push(request);
            } else {
                waiting.push(request);
            }
            i += 1;
        }
        proof {
            assert(queue@.take(i as int) == queue@);
        }
        self.to_be_spawned = waiting;
        ready
    }
}

} // verus!
