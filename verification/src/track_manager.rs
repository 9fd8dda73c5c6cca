use vstd::prelude::*;

use crate::grid::{in_grid, is_grid};
use crate::text::{decimal, u128_to_decimal};
use crate::tile::{TileProperties, TrackTile};
use crate::track::{
    calculate_progress_towards_finish, calculate_track_statistics, layout_ok, progress_ok,
    reach_check_overflows, reach_check_would_overflow, stats_of, tile_of, validate_track_layout,
    validation_result, TrackManagerError, TrackStats,
};

verus! {

#[derive(Clone, Debug)]
pub struct InstantiateMsg {
    pub admin: String,
}

/// Number of tracks listed when no limit is given.
pub const MAX_LIMIT: u32 = 32;

/// A stored track.
#[derive(Clone, Debug)]
pub struct Track {
    pub creator: String,
    pub id: u128,
    pub name: String,
    pub width: u8,
    pub height: u8,
    pub layout: Vec<Vec<TrackTile>>,
}

/// Summary of a track in a listing.
#[derive(Clone, Debug)]
pub struct TrackInfo {
    /// Identifier of the track, in decimal
    pub track_id: String,
    pub name: String,
    pub width: u8,
    pub height: u8,
}

#[derive(Clone, Debug)]
pub struct GetTrackResponse {
    pub track_id: u128,
    pub name: String,
    pub width: u8,
    pub height: u8,
    pub layout: Vec<Vec<TrackTile>>,
}

#[derive(Clone, Debug)]
pub struct ListTracksResponse {
    pub tracks: Vec<TrackInfo>,
}

/// The stored tiles describe the given properties: same size, same properties, the
/// coordinates of each tile, and its distance to the nearest finish tile.
pub open spec fn stored_layout_ok(props: Seq<Vec<TileProperties>>, tiles: Seq<Vec<TrackTile>>, width: u8, height: u8) -> bool {
    &&& is_grid(tiles, width as int, height as int)
    &&& forall|x: int, y: int| in_grid(width as int, height as int, x, y) ==> {
        let t = #[trigger] tiles[y]@[x];
        &&& t.properties == tile_of(props, x, y)
        &&& t.x == x
        &&& t.y == y
        &&& progress_ok(props, width, height, x, y, t.progress_towards_finish)
    }
}

/// Two stored layouts hold the same tiles.
pub open spec fn same_tiles(a: Seq<Vec<TrackTile>>, b: Seq<Vec<TrackTile>>) -> bool {
    a.len() == b.len() && forall|y: int| 0 <= y < a.len() ==> #[trigger] a[y]@ == b[y]@
}

/// The outcome of adding a track with the given layout, before the identifier is known.
pub open spec fn add_track_check(width: u8, height: u8, l: Seq<Vec<TileProperties>>) -> Result<(), TrackManagerError> {
    if width == 0 || height == 0 || !layout_ok(l, width, height) {
        Err(TrackManagerError::InvalidTrackDimensions { width, height })
    } else {
        validation_result(l, width, height)
    }
}

/// Adding this layout would run the reachability check into a signed-byte overflow.
pub open spec fn add_track_overflows(width: u8, height: u8, l: Seq<Vec<TileProperties>>) -> bool {
    width != 0 && height != 0 && layout_ok(l, width, height) && reach_check_overflows(l, width, height)
}

/// Whether adding this layout would run the reachability check into a signed-byte overflow.
pub fn add_track_would_overflow(width: u8, height: u8, layout: &Vec<Vec<TileProperties>>) -> (b: bool)
    ensures
        b == add_track_overflows(width, height, layout@),
{
    if width == 0 || height == 0 || layout.len() != height as usize {
        return false;
    }
    let mut i: usize = 0;
    while i < layout.len()
        invariant
            layout@.len() == height,
            i <= layout@.len(),
            forall|y: int| 0 <= y < i ==> #[trigger] layout@[y]@.len() == width,
        decreases layout@.len() - i,
    {
        if layout[i].len() != width as usize {
            return false;
        }
        i += 1;
    }
    reach_check_would_overflow(layout, width, height)
}

/// Identifiers strictly increase along the list of tracks and stay below the counter.
pub open spec fn ids_ok(tracks: Seq<Track>, next_id: u128) -> bool {
    &&& forall|i: int, j: int| 0 <= i < j < tracks.len() ==> #[trigger] tracks[i].id < #[trigger] tracks[j].id
    &&& forall|i: int| 0 <= i < tracks.len() ==> #[trigger] tracks[i].id < next_id
}

/// `p` is the position of the first track listed after `start_after`: every earlier track
/// has an identifier of at most `start_after`, every later one a greater identifier.
pub open spec fn list_start(tracks: Seq<Track>, start_after: Option<u128>, p: int) -> bool {
    &&& 0 <= p <= tracks.len()
    &&& forall|i: int| 0 <= i < p ==> (start_after matches Some(s) && #[trigger] tracks[i].id <= s)
    &&& forall|i: int| p <= i < tracks.len() ==> (start_after matches Some(s) ==> #[trigger] tracks[i].id > s)
}

/// The stored tracks in increasing order of identifier, and the counter that gives the
/// identifier of the next track.
pub struct TrackRegistry {
    admin: String,
    next_id: u128,
    tracks: Vec<Track>,
}

impl TrackRegistry {
    #[verifier::type_invariant]
    spec fn well_ordered(&self) -> bool {
        ids_ok(self.tracks@, self.next_id)
    }

    /// The stored tracks, in increasing order of identifier.
    pub closed spec fn tracks(&self) -> Seq<Track> {
        self.tracks@
    }

    /// The identifier that the next track attempt takes.
    pub closed spec fn next_id(&self) -> u128 {
        self.next_id
    }

    pub closed spec fn admin(&self) -> Seq<char> {
        self.admin@
    }

    /// A registry without tracks, administered by the (validated) `msg.admin`, whose first
    /// track gets the identifier 0.
    pub fn instantiate(msg: InstantiateMsg) -> (r: Self)
        ensures
            r.tracks() == Seq::<Track>::empty(),
            r.next_id() == 0,
            r.admin() == msg.admin@,
    {
        TrackRegistry { admin: msg.admin, next_id: 0, tracks: Vec::new() }
    }

    /// A registry holding `tracks` and the counter `next_id`, when the identifiers strictly
    /// increase and stay below the counter.
    pub fn from_parts(admin: String, next_id: u128, tracks: Vec<Track>) -> (r: Option<Self>)
        ensures
            r is Some <==> ids_ok(tracks@, next_id),
            r matches Some(reg) ==> reg.tracks() == tracks@ && reg.next_id() == next_id && reg.admin() == admin@,
    {
        let mut i: usize = 0;
        while i < tracks.len()
            invariant
                i <= tracks@.len(),
                forall|a: int, b: int| 0 <= a < b < i ==> #[trigger] tracks@[a].id < #[trigger] tracks@[b].id,
                forall|a: int| 0 <= a < i ==> #[trigger] tracks@[a].id < next_id,
            decreases tracks@.len() - i,
        {
            if tracks[i].id >= next_id {
                return None;
            }
            if i > 0 && tracks[i - 1].id >= tracks[i].id {
                return None;
            }
            proof {
                assert forall|a: int, b: int| 0 <= a < b < i + 1 implies #[trigger] tracks@[a].id < #[trigger] tracks@[b].id by {
                    if b == i && a < i - 1 {
                        assert(tracks@[a].id < tracks@[i - 1].id);
                    }
                }
            }
            i += 1;
        }
        Some(TrackRegistry { admin, next_id, tracks })
    }

    /// The admin, the counter and the stored tracks.
    pub fn into_parts(self) -> (r: (String, u128, Vec<Track>))
        ensures
            r.0@ == self.admin(),
            r.1 == self.next_id(),
            r.2@ == self.tracks(),
            ids_ok(r.2@, r.1),
    {
        proof {
            use_type_invariant(&self);
        }
        (self.admin, self.next_id, self.tracks)
    }

    /// Number of stored tracks.
    pub fn len(&self) -> (n: usize)
        ensures
            n == self.tracks().len(),
    {
        self.tracks.len()
    }

    /// The identifier that the next track attempt takes.
    pub fn next_track_id(&self) -> (id: u128)
        ensures
            id == self.next_id(),
    {
        self.next_id
    }

    /// Adds a track. A zero width or height is refused at once. Otherwise the next identifier
    /// is taken (the counter advances even when the track is then refused), the layout is
    /// checked for its size and validated, each tile's distance to the nearest finish tile is
    /// computed, and the track is stored under that identifier. Returns the identifier and
    /// the tile counts.
    pub fn execute_add_track(
        &mut self,
        sender: String,
        name: String,
        width: u8,
        height: u8,
        layout: Vec<Vec<TileProperties>>,
    ) -> (r: Result<(u128, TrackStats), TrackManagerError>)
        requires
            !add_track_overflows(width, height, layout@),
            width != 0 && height != 0 ==> old(self).next_id() < u128::MAX,
        ensures
            r is Err <==> add_track_check(width, height, layout@) is Err,
            r matches Err(e) ==> add_track_check(width, height, layout@) == Err::<(), TrackManagerError>(e)
                && final(self).tracks() == old(self).tracks(),
            final(self).next_id() == if width == 0 || height == 0 {
                old(self).next_id()
            } else {
                (old(self).next_id() + 1) as u128
            },
            (r matches Ok((id, stats)) ==> {
                let n = old(self).tracks().len() as int;
                &&& id == old(self).next_id()
                &&& final(self).tracks().len() == n + 1
                &&& final(self).tracks().subrange(0, n) == old(self).tracks()
                &&& final(self).tracks()[n].id == id
                &&& final(self).tracks()[n].creator@ == sender@
                &&& final(self).tracks()[n].name@ == name@
                &&& final(self).tracks()[n].width == width
                &&& final(self).tracks()[n].height == height
                &&& stored_layout_ok(layout@, final(self).tracks()[n].layout@, width, height)
                &&& ids_ok(final(self).tracks(), final(self).next_id())
                &&& stats.finish_tiles == stats_of(layout@).0
                &&& stats.boost_tiles == stats_of(layout@).1
                &&& stats.slow_tiles == stats_of(layout@).2
                &&& stats.stick_tiles == stats_of(layout@).3
                &&& stats.wall_tiles == stats_of(layout@).4
                &&& stats.normal_tiles == stats_of(layout@).5
            }),
            final(self).admin() == old(self).admin(),
    {
        proof {
            use_type_invariant(&*self);
        }
        if width == 0 || height == 0 {
            return Err(TrackManagerError::InvalidTrackDimensions { width, height });
        }
        let track_id = self.next_id;
        self.next_id = track_id + 1;
        assert(self.next_id() == old(self).next_id() + 1);
        assert(self.tracks() == old(self).tracks());
        if layout.len() != height as usize {
            assert(!layout_ok(layout@, width, height));
            return Err(TrackManagerError::InvalidTrackDimensions { width, height });
        }
        let mut i: usize = 0;
        while i < layout.len()
            invariant
                layout@.len() == height,
                width != 0 && height != 0,
                i <= layout@.len(),
                forall|y: int| 0 <= y < i ==> #[trigger] layout@[y]@.len() == width,
                self.next_id() == old(self).next_id() + 1,
                self.tracks() == old(self).tracks(),
                self.admin() == old(self).admin(),
            decreases layout@.len() - i,
        {
            if layout[i].len() != width as usize {
                assert(!layout_ok(layout@, width, height));
                return Err(TrackManagerError::InvalidTrackDimensions { width, height });
            }
            i += 1;
        }
        assert(layout_ok(layout@, width, height));
        validate_track_layout(&layout, width, height)?;
        let track_layout = calculate_progress_towards_finish(&layout, width, height);
        let stats = calculate_track_statistics(&layout, width, height);
        let track = Track { creator: sender, id: track_id, name, width, height, layout: track_layout };
        let ghost before = self.tracks@;
        let mut tracks: Vec<Track> = Vec::new();
        std::mem::swap(&mut tracks, &mut self.tracks);
        tracks.push(track);
        proof {
            assert(tracks@.subrange(0, before.len() as int) =~= before);
            assert forall|a: int, b: int| 0 <= a < b < tracks@.len() implies #[trigger] tracks@[a].id < #[trigger] tracks@[b].id by {
                if b == before.len() {
                    assert(before[a].id < track_id);
                } else {
                    assert(before[a].id < before[b].id);
                }
            }
        }
        self.tracks = tracks;
        Ok((track_id, stats))
    }

    /// The stored track with the given identifier.
    pub fn query_get_track(&self, track_id: u128) -> (r: Result<GetTrackResponse, TrackManagerError>)
        ensures
            r is Err <==> !exists|i: int| 0 <= i < self.tracks().len() && #[trigger] self.tracks()[i].id == track_id,
            r matches Err(e) ==> (e == TrackManagerError::TrackNotFound { track_id }),
            (r matches Ok(resp) ==> exists|i: int| 0 <= i < self.tracks().len() && #[trigger] self.tracks()[i].id == track_id && {
                let t = self.tracks()[i];
                &&& resp.track_id == track_id
                &&& resp.name@ == t.name@
                &&& resp.width == t.width
                &&& resp.height == t.height
                &&& same_tiles(resp.layout@, t.layout@)
            }),
    {
        let mut i: usize = 0;
        while i < self.tracks.len()
            invariant
                i <= self.tracks@.len(),
                forall|j: int| 0 <= j < i ==> #[trigger] self.tracks@[j].id != track_id,
            decreases self.tracks@.len() - i,
        {
            if self.tracks[i].id == track_id {
                assert(self.tracks()[i as int].id == track_id);
                let t = &self.tracks[i];
                return Ok(GetTrackResponse {
                    track_id,
                    name: t.name.clone(),
                    width: t.width,
                    height: t.height,
                    layout: copy_tiles(&t.layout),
                });
            }
            i += 1;
        }
        assert(forall|j: int| 0 <= j < self.tracks().len() ==> #[trigger] self.tracks()[j].id != track_id);
        Err(TrackManagerError::TrackNotFound { track_id })
    }

    /// Tracks in increasing order of identifier, those with an identifier above
    /// `start_after` when it is given, at most `limit` of them (32 when no limit is given).
    pub fn query_list_tracks(&self, start_after: Option<u128>, limit: Option<u32>) -> (r: ListTracksResponse)
        ensures
            exists|p: int| #[trigger] list_start(self.tracks(), start_after, p) && {
                let lim = match limit { Some(n) => n as int, None => MAX_LIMIT as int };
                let n = self.tracks().len() as int;
                &&& r.tracks@.len() == if n - p < lim { n - p } else { lim }
                &&& forall|i: int| 0 <= i < r.tracks@.len() ==> {
                    let t = self.tracks()[p + i];
                    &&& (#[trigger] r.tracks@[i]).track_id@ == decimal(t.id as nat)
                    &&& r.tracks@[i].name@ == t.name@
                    &&& r.tracks@[i].width == t.width
                    &&& r.tracks@[i].height == t.height
                }
            },
    {
        proof {
            use_type_invariant(self);
        }
        let n = self.tracks.len();
        let lim: u32 = match limit {
            Some(l) => l,
            None => MAX_LIMIT,
        };
        let mut start: usize = 0;
        if let Some(s) = start_after {
            while start < n && self.tracks[start].id <= s
                invariant
                    start <= n,
                    n == self.tracks@.len(),
                    forall|i: int| 0 <= i < start ==> #[trigger] self.tracks@[i].id <= s,
                decreases n - start,
            {
                start += 1;
            }
            assert forall|i: int| start <= i < n implies #[trigger] self.tracks@[i].id > s by {
                if i > start {
                    assert(self.tracks@[start as int].id < self.tracks@[i].id);
                }
            }
        }
        assert(list_start(self.tracks@, start_after, start as int));
        let mut tracks: Vec<TrackInfo> = Vec::new();
        let mut i = start;
        while i < n && ((i - start) as u64) < lim as u64
            invariant
                start <= i <= n,
                n == self.tracks@.len(),
                tracks@.len() == i - start,
                i - start <= lim,
                forall|j: int| 0 <= j < tracks@.len() ==> {
                    let t = self.tracks@[start + j];
                    &&& (#[trigger] tracks@[j]).track_id@ == decimal(t.id as nat)
                    &&& tracks@[j].name@ == t.name@
                    &&& tracks@[j].width == t.width
                    &&& tracks@[j].height == t.height
                },
            decreases n - i,
        {
            let t = &self.tracks[i];
            tracks.push(TrackInfo {
                track_id: u128_to_decimal(t.id),
                name: t.name.clone(),
                width: t.width,
                height: t.height,
            });
            i += 1;
        }
        assert(list_start(self.tracks(), start_after, start as int));
        ListTracksResponse { tracks }
    }
}

fn copy_tiles(src: &Vec<Vec<TrackTile>>) -> (r: Vec<Vec<TrackTile>>)
    ensures
        same_tiles(r@, src@),
{
    let mut r: Vec<Vec<TrackTile>> = Vec::new();
    let mut y: usize = 0;
    while y < src.len()
        invariant
            y <= src@.len(),
            r@.len() == y,
            forall|yy: int| 0 <= yy < y ==> #[trigger] r@[yy]@ == src@[yy]@,
        decreases src@.len() - y,
    {
        let mut row: Vec<TrackTile> = Vec::new();
        let mut x: usize = 0;
        while x < src[y].len()
            invariant
                y < src@.len(),
                x <= src@[y as int]@.len(),
                row@ == src@[y as int]@.subrange(0, x as int),
            decreases src@[y as int]@.len() - x,
        {
            row.push(src[y][x]);
            x += 1;
        }
        assert(row@ =~= src@[y as int]@);
        r.push(row);
        y += 1;
    }
    r
}

/// Reading a track right after adding it gives back what was stored: the new track is the
/// only one with its identifier, and every earlier track is unchanged and keeps its own.
pub proof fn lemma_add_then_get(before: Seq<Track>, after: Seq<Track>, next_id: u128, id: u128)
    requires
        ids_ok(after, next_id),
        after.len() == before.len() + 1,
        after.subrange(0, before.len() as int) == before,
        after[before.len() as int].id == id,
    ensures
        forall|i: int| 0 <= i < after.len() && #[trigger] after[i].id == id ==> i == before.len(),
        forall|i: int| 0 <= i < before.len() ==> #[trigger] after[i] == before[i] && after[i].id != id,
{
    assert forall|i: int| 0 <= i < before.len() implies #[trigger] after[i] == before[i] && after[i].id != id by {
        assert(after.subrange(0, before.len() as int)[i] == after[i]);
        assert(after[i].id < after[before.len() as int].id);
    }
    assert forall|i: int| 0 <= i < after.len() && #[trigger] after[i].id == id implies i == before.len() by {
        if i < before.len() {
            assert(after[i].id < after[before.len() as int].id);
        }
    }
}

} // verus!
