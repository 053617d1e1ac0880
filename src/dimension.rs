use vstd::prelude::*;

use std::marker::PhantomData;
use std::ops::Range;
use std::rc::Rc;

verus! {

/// A region coordinate: which region file, along one axis. May be negative.
#[derive(Debug, Clone, Copy, PartialEq, Eq, Structural, Hash, PartialOrd, Ord)]
pub struct RCoord(pub isize);

/// A chunk coordinate relative to its region, along one axis: `0..32`.
#[derive(Debug, Clone, Copy, PartialEq, Eq, Structural, Hash, PartialOrd, Ord)]
pub struct CCoord(pub isize);

/// How a chunk computes surface heights.
#[derive(Debug, Clone, Copy, PartialEq, Eq, Structural)]
pub enum HeightMode {
    /// Trust the height maps stored in the chunk data.
    Trust,
    /// Recompute heights from the blocks; much slower.
    Calculate,
}

/// A decoded chunk, as the world-data layer above this crate provides it.
pub trait Chunk: Sized {
    /// The type of a biome lookup's result.
    type Biome;

    /// The type of a block lookup's result.
    type Block;

    /// Decodes a chunk from its decompressed bytes; `None` where they do not
    /// hold a chunk.
    fn from_bytes(data: &[u8]) -> Option<Self>;

    /// The chunk's generation status.
    fn status(&self) -> String;

    /// The height of the first air-like block above something not air-like.
    fn surface_height(&self, x: usize, z: usize, mode: HeightMode) -> isize
        requires
            x < 16,
            z < 16,
    ;

    /// The biome at the given coordinates; `None` where the section holding
    /// `y` is not present.
    fn biome(&self, x: usize, y: isize, z: usize) -> Option<Self::Biome>
        requires
            x < 16,
            z < 16,
    ;

    /// The block at the given coordinates; `None` where the section holding
    /// `y` is not present.
    fn block(&self, x: usize, y: isize, z: usize) -> Option<&Self::Block>
        requires
            x < 16,
            z < 16,
    ;

    /// The range of `y` values valid for this chunk.
    fn y_range(&self) -> Range<isize>;
}

/// A source of chunks addressed by region-relative coordinates.
pub trait Region<C: Chunk> {
    /// The chunk at `(x, z)`, both in `0..32`; `None` where it is absent or
    /// cannot be read, without telling the two apart.
    fn chunk(&self, x: CCoord, z: CCoord) -> Option<C>;
}

/// Failure of a loader to enumerate its regions, with a readable cause.
#[derive(Debug)]
pub struct LoaderError(pub String);

impl LoaderError {
    /// The readable cause of the failure.
    pub fn message(&self) -> (r: &String)
        ensures
            r@ == self.0@,
    {
        &self.0
    }
}

pub type LoaderResult<T> = Result<T, LoaderError>;

/// Provides regions by region coordinate. Caching is left to [`Dimension`].
pub trait RegionLoader<C: Chunk> {
    type RegionType: Region<C>;

    /// The region at `(x, z)`; `None` where no data exists for it.
    fn region(&self, x: RCoord, z: RCoord) -> Option<Self::RegionType>;

    /// The coordinates of every region this loader can return.
    fn list(&self) -> LoaderResult<Vec<(RCoord, RCoord)>>;
}

/// Relies on `Rc::clone`: the result points to the same allocation.
#[verifier::external_body]
fn share<T>(r: &Rc<T>) -> (s: Rc<T>)
    ensures
        s == *r,
{
    Rc::clone(r)
}

/// A cache of regions over a loader. A region once loaded is handed out,
/// shared, on every later request for its coordinates.
pub struct Dimension<C: Chunk, R: RegionLoader<C>> {
    loader: R,
    regions: Vec<(RCoord, RCoord, Rc<R::RegionType>)>,
    p: PhantomData<C>,
}

impl<C: Chunk, R: RegionLoader<C>> Dimension<C, R> {
    /// The cached regions, by coordinates.
    pub closed spec fn cache(&self) -> Map<(RCoord, RCoord), Rc<R::RegionType>> {
        cache_of(self.regions@)
    }

    /// The loader that cache misses go to.
    pub closed spec fn loader(&self) -> R {
        self.loader
    }

    /// Each coordinate pair is cached at most once.
    pub closed spec fn wf(&self) -> bool {
        keys_unique(self.regions@)
    }

    /// A cache with nothing loaded yet.
    pub fn new(loader: R) -> (r: Dimension<C, R>)
        ensures
            r.wf(),
            r.cache() == Map::<(RCoord, RCoord), Rc<R::RegionType>>::empty(),
            r.loader() == loader,
    {
        let r = Dimension { loader, regions: Vec::new(), p: PhantomData };
        assert(r.cache() =~= Map::<(RCoord, RCoord), Rc<R::RegionType>>::empty());
        r
    }

    /// The region at `(x, z)`: the cached one if there is one, else the
    /// loader's, which is then cached. A region the loader lacks is not
    /// remembered, so it is asked again next time.
    pub fn region(&mut self, x: RCoord, z: RCoord) -> (r: Option<Rc<R::RegionType>>)
        requires
            old(self).wf(),
        ensures
            region_step(*old(self), x, z, *final(self), r),
            !old(self).cache().contains_key((x, z)) ==> match r {
                Some(h) => call_ensures(R::region, (&old(self).loader(), x, z), Some(*h)),
                None => call_ensures(R::region, (&old(self).loader(), x, z), None),
            },
    {
        let mut i: usize = 0;
        while i < self.regions.len()
            invariant
                0 <= i <= self.regions@.len(),
                *self == *old(self),
                self.wf(),
                forall|j: int|
                    0 <= j < i ==> !(self.regions@[j].0 == x && self.regions@[j].1 == z),
            decreases self.regions@.len() - i,
        {
            if self.regions[i].0 == x && self.regions[i].1 == z {
                let r = share(&self.regions[i].2);
                proof {
                    lemma_cache_at(self.regions@, i as int);
                }
                return Some(r);
            }
            i = i + 1;
        }
        proof {
            assert(!self.cache().contains_key((x, z)));
        }
        match self.loader.region(x, z) {
            None => None,
            Some(loaded) => {
                let rc = Rc::new(loaded);
                let ghost before = self.regions@;
                self.regions.push((x, z, share(&rc)));
                proof {
                    lemma_cache_push(before, x, z, rc);
                }
                Some(rc)
            },
        }
    }
}

/// `after` and `r` are what asking `before` for the region at `(x, z)` may
/// leave and return: a cached region comes back with nothing changed; on a
/// miss, a region found by the loader comes back and is cached, and no
/// region leaves the cache as it was.
pub open spec fn region_step<C: Chunk, R: RegionLoader<C>>(
    before: Dimension<C, R>,
    x: RCoord,
    z: RCoord,
    after: Dimension<C, R>,
    r: Option<Rc<R::RegionType>>,
) -> bool {
    &&& after.wf()
    &&& after.loader() == before.loader()
    &&& if before.cache().contains_key((x, z)) {
        r == Some(before.cache()[(x, z)]) && after.cache() == before.cache()
    } else {
        match r {
            Some(reg) => after.cache() == before.cache().insert((x, z), reg),
            None => after.cache() == before.cache(),
        }
    }
}


/// Once a request for `(x, z)` has returned a region, the next request for
/// `(x, z)` returns that same region and leaves the cache unchanged.
pub proof fn lemma_cached_region_is_stable<C: Chunk, R: RegionLoader<C>>(
    d0: Dimension<C, R>,
    x: RCoord,
    z: RCoord,
    d1: Dimension<C, R>,
    r1: Option<Rc<R::RegionType>>,
    d2: Dimension<C, R>,
    r2: Option<Rc<R::RegionType>>,
)
    requires
        region_step(d0, x, z, d1, r1),
        r1 is Some,
        region_step(d1, x, z, d2, r2),
    ensures
        r2 == r1,
        d2.cache() == d1.cache(),
{
}

/// Entry `i` of `s` holds the coordinates `k`.
pub open spec fn entry_has_key<T>(s: Seq<(RCoord, RCoord, T)>, i: int, k: (RCoord, RCoord)) -> bool {
    0 <= i < s.len() && s[i].0 == k.0 && s[i].1 == k.1
}

/// No two entries of `s` hold the same coordinates.
pub open spec fn keys_unique<T>(s: Seq<(RCoord, RCoord, T)>) -> bool {
    forall|i: int, j: int|
        0 <= i < j < s.len() ==> !(s[i].0 == s[j].0 && s[i].1 == s[j].1)
}

/// The map from coordinates to values that the entries of `s` describe.
pub open spec fn cache_of<T>(s: Seq<(RCoord, RCoord, T)>) -> Map<(RCoord, RCoord), T> {
    Map::new(
        |k: (RCoord, RCoord)| exists|i: int| entry_has_key(s, i, k),
        |k: (RCoord, RCoord)| s[choose|i: int| entry_has_key(s, i, k)].2,
    )
}

proof fn lemma_key_index_unique<T>(s: Seq<(RCoord, RCoord, T)>, i: int, j: int, k: (RCoord, RCoord))
    requires
        keys_unique(s),
        entry_has_key(s, i, k),
        entry_has_key(s, j, k),
    ensures
        i == j,
{
    if i < j {
        assert(!(s[i].0 == s[j].0 && s[i].1 == s[j].1));
    } else if j < i {
        assert(!(s[j].0 == s[i].0 && s[j].1 == s[i].1));
    }
}

proof fn lemma_cache_at<T>(s: Seq<(RCoord, RCoord, T)>, i: int)
    requires
        keys_unique(s),
        0 <= i < s.len(),
    ensures
        cache_of(s).contains_key((s[i].0, s[i].1)),
        cache_of(s)[(s[i].0, s[i].1)] == s[i].2,
{
    let k = (s[i].0, s[i].1);
    assert(entry_has_key(s, i, k));
    let j = choose|j: int| entry_has_key(s, j, k);
    lemma_key_index_unique(s, i, j, k);
}

proof fn lemma_cache_push<T>(s: Seq<(RCoord, RCoord, T)>, x: RCoord, z: RCoord, v: T)
    requires
        keys_unique(s),
        !cache_of(s).contains_key((x, z)),
    ensures
        keys_unique(s.push((x, z, v))),
        cache_of(s.push((x, z, v))) == cache_of(s).insert((x, z), v),
{
    let t = s.push((x, z, v));
    assert forall|i: int, j: int| 0 <= i < j < t.len() implies !(t[i].0 == t[j].0 && t[i].1
        == t[j].1) by {
        if j == s.len() {
            if t[i].0 == t[j].0 && t[i].1 == t[j].1 {
                assert(entry_has_key(s, i, (x, z)));
            }
        }
    }
    assert forall|k: (RCoord, RCoord)| #[trigger]
        cache_of(t).contains_key(k) == cache_of(s).insert((x, z), v).contains_key(k) by {
        if exists|i: int| entry_has_key(s, i, k) {
            let i = choose|i: int| entry_has_key(s, i, k);
            assert(entry_has_key(t, i, k));
        }
        if k == (x, z) {
            assert(entry_has_key(t, s.len() as int, k));
        }
        if exists|i: int| entry_has_key(t, i, k) {
            let i = choose|i: int| entry_has_key(t, i, k);
            if i < s.len() {
                assert(entry_has_key(s, i, k));
            }
        }
    }
    assert forall|k: (RCoord, RCoord)| cache_of(t).contains_key(k) implies #[trigger] cache_of(t)[k]
        == cache_of(s).insert((x, z), v)[k] by {
        let i = choose|i: int| entry_has_key(t, i, k);
        if k == (x, z) {
            lemma_key_index_unique(t, i, s.len() as int, k);
        } else {
            assert(i < s.len());
            assert(entry_has_key(s, i, k));
            let j = choose|j: int| entry_has_key(s, j, k);
            lemma_key_index_unique(s, i, j, k);
        }
    }
    assert(cache_of(t) =~= cache_of(s).insert((x, z), v));
}

} // verus!
