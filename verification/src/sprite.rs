use vstd::prelude::*;

verus! {

/// Names a sprite of a sprite map: its position in the map's list.
#[derive(Debug, Clone, Copy)]
pub struct SpriteId(pub usize);

/// Names a sprite map loaded into the sprite pipeline.
#[derive(Debug, Clone, Copy)]
pub struct SpriteMapId(pub usize);

/// A named rectangle of a sprite map's texture, in pixels.
pub struct Sprite {
    name: String,
    min: glam::Vec2,
    max: glam::Vec2,
}

/// A texture atlas: the texture's file and size, and the sprites cut from it.
pub struct SpriteMap {
    name: String,
    version: String,
    texture: String,
    dimensions: glam::Vec2,
    sprites: Vec<Sprite>,
}

/// `==` on string slices: true exactly when both hold the same characters.
#[verifier::external_body]
fn str_equal(a: &str, b: &str) -> (r: bool)
    ensures
        r == (a@ == b@),
{
    a == b
}

impl Sprite {
    pub closed spec fn name_view(&self) -> Seq<char> {
        self.name@
    }

    pub closed spec fn min_corner(&self) -> glam::Vec2 {
        self.min
    }

    pub closed spec fn max_corner(&self) -> glam::Vec2 {
        self.max
    }

    pub fn new(name: String, min: glam::Vec2, max: glam::Vec2) -> (s: Sprite)
        ensures
            s.name_view() == name@,
            s.min_corner() == min,
            s.max_corner() == max,
    {
        Sprite { name, min, max }
    }

    pub fn name(&self) -> (r: &String)
        ensures
            r@ == self.name_view(),
    {
        &self.name
    }

    pub fn min(&self) -> (r: glam::Vec2)
        ensures
            r == self.min_corner(),
    {
        self.min
    }

    pub fn max(&self) -> (r: glam::Vec2)
        ensures
            r == self.max_corner(),
    {
        self.max
    }
}

impl SpriteMap {
    /// The sprites of the map, in order.
    pub closed spec fn sprite_seq(&self) -> Seq<Sprite> {
        self.sprites@
    }

    /// The names of the sprites, in order.
    pub open spec fn sprite_names(&self) -> Seq<Seq<char>> {
        self.sprite_seq().map_values(|s: Sprite| s.name_view())
    }

    pub closed spec fn name_view(&self) -> Seq<char> {
        self.name@
    }

    pub closed spec fn version_view(&self) -> Seq<char> {
        self.version@
    }

    pub closed spec fn texture_view(&self) -> Seq<char> {
        self.texture@
    }

    pub closed spec fn dimensions_view(&self) -> glam::Vec2 {
        self.dimensions
    }

    pub fn new(
        name: String,
        version: String,
        texture: String,
        dimensions: glam::Vec2,
        sprites: Vec<Sprite>,
    ) -> (m: SpriteMap)
        ensures
            m.name_view() == name@,
            m.version_view() == version@,
            m.texture_view() == texture@,
            m.dimensions_view() == dimensions,
            m.sprite_seq() == sprites@,
    {
        SpriteMap { name, version, texture, dimensions, sprites }
    }

    pub fn name(&self) -> (r: &String)
        ensures
            r@ == self.name_view(),
    {
        &self.name
    }

    pub fn version(&self) -> (r: &String)
        ensures
            r@ == self.version_view(),
    {
        &self.version
    }

    /// The file name of the texture, relative to the sprite map's file.
    pub fn texture(&self) -> (r: &String)
        ensures
            r@ == self.texture_view(),
    {
        &self.texture
    }

    /// The size of the texture in pixels.
    pub fn dimensions(&self) -> (r: glam::Vec2)
        ensures
            r == self.dimensions_view(),
    {
        self.dimensions
    }

    pub fn sprites(&self) -> (r: &Vec<Sprite>)
        ensures
            r@ == self.sprite_seq(),
    {
        &self.sprites
    }

    /// `found` is the id of the first sprite called `name`, or `None` when
    /// no sprite has that name.
    pub open spec fn first_named(&self, name: Seq<char>, found: Option<SpriteId>) -> bool {
        &&& found is None <==> !self.sprite_names().contains(name)
        &&& found matches Some(id) ==> {
            &&& id.0 < self.sprite_names().len()
            &&& self.sprite_names()[id.0 as int] == name
            &&& forall|j: int| 0 <= j < id.0 ==> self.sprite_names()[j] != name
        }
    }

    /// The id of the first sprite called `name`, if there is one.
    pub fn find_id_by_name(&self, name: &str) -> (r: Option<SpriteId>)
        ensures
            self.first_named(name@, r),
    {
        let n = self.sprites.len();
        let mut i: usize = 0;
        while i < n
            invariant
                n == self.sprites@.len(),
                i <= n,
                forall|j: int| 0 <= j < i ==> self.sprite_names()[j] != name@,
            decreases n - i,
        {
            if str_equal(self.sprites[i].name.as_str(), name) {
                proof {
                    assert(self.sprite_names()[i as int] == name@);
                }
                return Some(SpriteId(i));
            }
            i = i + 1;
        }
        proof {
            if self.sprite_names().contains(name@) {
                let j = choose|j: int| 0 <= j < self.sprite_names().len() && self.sprite_names()[j] == name@;
                assert(self.sprite_names()[j] != name@);
            }
        }
        None
    }

    /// The sprite named by `id`, if the map has one.
    pub fn get(&self, id: SpriteId) -> (r: Option<&Sprite>)
        ensures
            r is Some <==> id.0 < self.sprite_seq().len(),
            r matches Some(s) ==> *s == self.sprite_seq()[id.0 as int],
    {
        if id.0 < self.sprites.len() {
            Some(&self.sprites[id.0])
        } else {
            None
        }
    }
}

/// The sprite maps loaded so far, each named by its place in the list.
pub struct SpriteMaps {
    maps: Vec<SpriteMap>,
}

impl SpriteMaps {
    pub closed spec fn maps(&self) -> Seq<SpriteMap> {
        self.maps@
    }

    /// No sprite map yet.
    pub fn new() -> (r: SpriteMaps)
        ensures
            r.maps().len() == 0,
    {
        SpriteMaps { maps: Vec::new() }
    }

    /// Keeps `map` and returns the id that names it.
    pub fn add(&mut self, map: SpriteMap) -> (id: SpriteMapId)
        ensures
            id.0 == old(self).maps().len(),
            final(self).maps() == old(self).maps().push(map),
    {
        let id = SpriteMapId(self.maps.len());
        self.maps.push(map);
        id
    }

    /// The sprite map named by `id`, if there is one.
    pub fn get_map(&self, id: SpriteMapId) -> (r: Option<&SpriteMap>)
        ensures
            r is Some <==> id.0 < self.maps().len(),
            r matches Some(m) ==> *m == self.maps()[id.0 as int],
    {
        if id.0 < self.maps.len() {
            Some(&self.maps[id.0])
        } else {
            None
        }
    }

    /// The first sprite called `name` in the map named by `map`; `None` when
    /// there is no such map or no such sprite in it.
    pub fn find_sprite(&self, map: SpriteMapId, name: &str) -> (r: Option<SpriteId>)
        ensures
            map.0 >= self.maps().len() ==> r is None,
            map.0 < self.maps().len() ==> self.maps()[map.0 as int].first_named(name@, r),
    {
        match self.get_map(map) {
            Some(m) => m.find_id_by_name(name),
            None => None,
        }
    }

    /// An added map reads back under the id it got, and the maps added
    /// before it keep theirs.
    pub proof fn lemma_add_then_get(
        pre: SpriteMaps,
        post: SpriteMaps,
        map: SpriteMap,
        id: SpriteMapId,
        other: SpriteMapId,
    )
        requires
            id.0 == pre.maps().len(),
            post.maps() == pre.maps().push(map),
        ensures
            id.0 < post.maps().len(),
            post.maps()[id.0 as int] == map,
            other.0 < pre.maps().len() ==> post.maps()[other.0 as int] == pre.maps()[other.0 as int],
    {
    }
}

/// The six indices of the two triangles that cover a quad whose four
/// corners were pushed starting at vertex `start`, counter-clockwise.
pub fn quad_indices(start: u32) -> (r: [u32; 6])
    requires
        start <= u32::MAX - 3,
    ensures
        r@ == seq![start, (start + 1) as u32, (start + 2) as u32, start, (start + 2) as u32, (start + 3) as u32],
{
    [start, start + 1, start + 2, start, start + 2, start + 3]
}

} // verus!
