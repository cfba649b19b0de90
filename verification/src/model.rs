//! Grouping of the meshes of a model by the texture of their material, so that
//! each texture is drawn from one vertex buffer and one index buffer.

use vstd::prelude::*;

verus! {

/// One mesh of a model: the index of its material, if it has one, its vertices
/// and the indices of its triangles into its own vertices.
pub struct MeshPart<V> {
    pub material: Option<usize>,
    pub vertices: Vec<V>,
    pub indices: Vec<u32>,
}

/// The meshes that share one texture: the texture's file name, their vertices
/// one after the other, and their triangle indices into those vertices.
pub struct MaterialGroup<V> {
    pub texture: String,
    pub vertices: Vec<V>,
    pub indices: Vec<u32>,
}

/// The contents of a mesh.
pub ghost struct PartView<V> {
    pub material: Option<usize>,
    pub vertices: Seq<V>,
    pub indices: Seq<u32>,
}

/// The contents of a group.
pub ghost struct GroupView<V> {
    pub texture: Seq<char>,
    pub vertices: Seq<V>,
    pub indices: Seq<u32>,
}

impl<V> MeshPart<V> {
    pub open spec fn part_view(&self) -> PartView<V> {
        PartView { material: self.material, vertices: self.vertices@, indices: self.indices@ }
    }
}

impl<V> MaterialGroup<V> {
    pub open spec fn group_view(&self) -> GroupView<V> {
        GroupView { texture: self.texture@, vertices: self.vertices@, indices: self.indices@ }
    }
}

/// The contents of each mesh.
pub open spec fn part_views<V>(parts: Seq<MeshPart<V>>) -> Seq<PartView<V>> {
    parts.map_values(|p: MeshPart<V>| p.part_view())
}

/// The contents of each group.
pub open spec fn group_views<V>(groups: Seq<MaterialGroup<V>>) -> Seq<GroupView<V>> {
    groups.map_values(|g: MaterialGroup<V>| g.group_view())
}

/// The position of the first group with the given texture, if any.
pub open spec fn find_group<V>(groups: Seq<GroupView<V>>, texture: Seq<char>) -> Option<int>
    decreases groups.len(),
{
    if groups.len() == 0 {
        None
    } else if groups[0].texture == texture {
        Some(0)
    } else {
        match find_group(groups.drop_first(), texture) {
            Some(i) => Some(i + 1),
            None => None,
        }
    }
}

proof fn lemma_find_group_found<V>(groups: Seq<GroupView<V>>, texture: Seq<char>)
    ensures
        find_group(groups, texture) matches Some(i) ==> 0 <= i < groups.len() && groups[i].texture
            == texture,
    decreases groups.len(),
{
    if groups.len() > 0 {
        lemma_find_group_found(groups.drop_first(), texture);
    }
}

proof fn lemma_group_parts_none<V>(parts: Seq<PartView<V>>, textures: Seq<Seq<char>>, i: int)
    requires
        0 <= i <= parts.len(),
        group_parts(parts.take(i), textures) is None,
    ensures
        group_parts(parts, textures) is None,
    decreases parts.len() - i,
{
    if i == parts.len() {
        assert(parts.take(i) =~= parts);
    } else {
        assert(parts.drop_last().take(i) =~= parts.take(i));
        lemma_group_parts_none(parts.drop_last(), textures, i);
    }
}

/// The indices, each moved up by `offset`.
pub open spec fn shifted(indices: Seq<u32>, offset: int) -> Seq<u32> {
    Seq::new(indices.len(), |j: int| (indices[j] + offset) as u32)
}

/// Every index moved up by `offset` is still a 32-bit index.
pub open spec fn shift_fits(indices: Seq<u32>, offset: int) -> bool {
    forall|j: int| 0 <= j < indices.len() ==> indices[j] + offset <= u32::MAX
}

/// The groups after one more mesh. A mesh without a material is left out. A mesh
/// whose texture has no group yet starts a new group at the end. Otherwise its
/// vertices are appended to the group's, and its indices, moved up by the group's
/// former vertex count (as a 32-bit number), to the group's indices. `None` where
/// the material does not exist or a moved index leaves 32 bits.
pub open spec fn add_part<V>(groups: Seq<GroupView<V>>, part: PartView<V>, textures: Seq<Seq<char>>) -> Option<
    Seq<GroupView<V>>,
> {
    match part.material {
        None => Some(groups),
        Some(id) => if id >= textures.len() {
            None
        } else {
            let texture = textures[id as int];
            match find_group(groups, texture) {
                None => Some(
                    groups.push(GroupView { texture, vertices: part.vertices, indices: part.indices }),
                ),
                Some(g) => {
                    let offset = (groups[g].vertices.len() as u32) as int;
                    if !shift_fits(part.indices, offset) {
                        None
                    } else {
                        Some(
                            groups.update(
                                g,
                                GroupView {
                                    texture,
                                    vertices: groups[g].vertices + part.vertices,
                                    indices: groups[g].indices + shifted(part.indices, offset),
                                },
                            ),
                        )
                    }
                },
            }
        },
    }
}

/// The groups that the meshes form, taken in order.
pub open spec fn group_parts<V>(parts: Seq<PartView<V>>, textures: Seq<Seq<char>>) -> Option<
    Seq<GroupView<V>>,
>
    decreases parts.len(),
{
    if parts.len() == 0 {
        Some(Seq::empty())
    } else {
        match group_parts(parts.drop_last(), textures) {
            None => None,
            Some(groups) => add_part(groups, parts.last(), textures),
        }
    }
}

/// The file name of each material's texture.
pub open spec fn texture_views(textures: Seq<String>) -> Seq<Seq<char>> {
    textures.map_values(|s: String| s@)
}

/// The number of vertices of all the meshes.
pub open spec fn total_vertices<V>(parts: Seq<PartView<V>>) -> nat
    decreases parts.len(),
{
    if parts.len() == 0 {
        0
    } else {
        total_vertices(parts.drop_last()) + parts.last().vertices.len()
    }
}

/// Every index points at one of the `count` vertices.
pub open spec fn indices_in_range(indices: Seq<u32>, count: int) -> bool {
    forall|j: int| 0 <= j < indices.len() ==> #[trigger] indices[j] < count
}

/// No two groups share a texture.
pub open spec fn textures_distinct<V>(groups: Seq<GroupView<V>>) -> bool {
    forall|a: int, b: int| 0 <= a < b < groups.len() ==> #[trigger] groups[a].texture != #[trigger] groups[b].texture
}

proof fn lemma_find_group_none<V>(groups: Seq<GroupView<V>>, texture: Seq<char>)
    ensures
        find_group(groups, texture) is None ==> forall|i: int|
            0 <= i < groups.len() ==> #[trigger] groups[i].texture != texture,
    decreases groups.len(),
{
    if groups.len() > 0 {
        lemma_find_group_none(groups.drop_first(), texture);
        assert forall|i: int| 1 <= i < groups.len() implies #[trigger] groups[i].texture == groups.drop_first()[i - 1].texture by {}
    }
}

/// Each texture has one group: the groups never share a texture.
pub proof fn lemma_group_textures_distinct<V>(parts: Seq<PartView<V>>, textures: Seq<Seq<char>>)
    ensures
        group_parts(parts, textures) matches Some(groups) ==> textures_distinct(groups),
    decreases parts.len(),
{
    if parts.len() > 0 {
        lemma_group_textures_distinct(parts.drop_last(), textures);
        if let Some(before) = group_parts(parts.drop_last(), textures) {
            let part = parts.last();
            if let Some(id) = part.material {
                if id < textures.len() {
                    let texture = textures[id as int];
                    lemma_find_group_none(before, texture);
                    lemma_find_group_found(before, texture);
                }
            }
        }
    }
}

/// Every group holds at most as many vertices as all the meshes together.
proof fn lemma_group_sizes<V>(parts: Seq<PartView<V>>, textures: Seq<Seq<char>>)
    ensures
        group_parts(parts, textures) matches Some(groups) ==> forall|g: int|
            0 <= g < groups.len() ==> #[trigger] groups[g].vertices.len() <= total_vertices(parts),
    decreases parts.len(),
{
    if parts.len() > 0 {
        lemma_group_sizes(parts.drop_last(), textures);
        if let Some(before) = group_parts(parts.drop_last(), textures) {
            let part = parts.last();
            if let Some(id) = part.material {
                if id < textures.len() {
                    lemma_find_group_found(before, textures[id as int]);
                }
            }
        }
    }
}

/// Merging keeps triangles intact: where each mesh's indices point at its own
/// vertices and all the meshes hold fewer than 2^32 vertices together, each
/// group's indices point at the group's vertices.
pub proof fn lemma_group_indices_in_range<V>(parts: Seq<PartView<V>>, textures: Seq<Seq<char>>)
    requires
        forall|p: int| 0 <= p < parts.len() ==> indices_in_range(#[trigger] parts[p].indices, parts[p].vertices.len() as int),
        total_vertices(parts) <= u32::MAX,
    ensures
        group_parts(parts, textures) matches Some(groups) ==> forall|g: int|
            0 <= g < groups.len() ==> indices_in_range(#[trigger] groups[g].indices, groups[g].vertices.len() as int),
    decreases parts.len(),
{
    if parts.len() > 0 {
        let rest = parts.drop_last();
        assert forall|p: int| 0 <= p < rest.len() implies indices_in_range(#[trigger] rest[p].indices, rest[p].vertices.len() as int) by {
            assert(rest[p] == parts[p]);
        }
        lemma_group_indices_in_range(rest, textures);
        lemma_group_sizes(rest, textures);
        if let Some(before) = group_parts(rest, textures) {
            let part = parts.last();
            assert(indices_in_range(parts[parts.len() - 1].indices, parts[parts.len() - 1].vertices.len() as int));
            if let Some(id) = part.material {
                if id < textures.len() {
                    let texture = textures[id as int];
                    lemma_find_group_found(before, texture);
                    if let Some(g) = find_group(before, texture) {
                        let count = before[g].vertices.len();
                        assert(count <= total_vertices(rest));
                        assert((count as u32) as int == count);
                        let offset = count as int;
                        if shift_fits(part.indices, offset) {
                            let merged = before[g].indices + shifted(part.indices, offset);
                            let n = (count + part.vertices.len()) as int;
                            assert forall|j: int| 0 <= j < merged.len() implies #[trigger] merged[j] < n by {
                                if j >= before[g].indices.len() {
                                    let t = j - before[g].indices.len();
                                    assert(part.indices[t] < part.vertices.len());
                                }
                            }
                        }
                    }
                }
            }
        }
    }
}

/// Merging a mesh into the group of its texture keeps its triangles: the group's
/// earlier vertices and indices stay, the mesh's vertices follow them, and each of
/// the mesh's indices, moved up by the number of vertices the group held before,
/// points at the same vertex as before (where that count fits in 32 bits and the
/// mesh's indices point at its own vertices).
pub proof fn lemma_merge_keeps_triangles<V>(
    groups: Seq<GroupView<V>>,
    part: PartView<V>,
    textures: Seq<Seq<char>>,
    g: int,
)
    requires
        add_part(groups, part, textures) is Some,
        part.material matches Some(id) && id < textures.len() && find_group(groups, textures[id as int]) == Some(g),
        groups[g].vertices.len() <= u32::MAX,
        forall|j: int| 0 <= j < part.indices.len() ==> #[trigger] part.indices[j] < part.vertices.len(),
    ensures
        ({
            let old_group = groups[g];
            let merged = add_part(groups, part, textures).unwrap()[g];
            let count = old_group.vertices.len();
            &&& merged.vertices.len() == count + part.vertices.len()
            &&& merged.indices.len() == old_group.indices.len() + part.indices.len()
            &&& forall|i: int| 0 <= i < count ==> #[trigger] merged.vertices[i] == old_group.vertices[i]
            &&& forall|j: int| 0 <= j < old_group.indices.len() ==> #[trigger] merged.indices[j] == old_group.indices[j]
            &&& forall|j: int|
                0 <= j < part.indices.len() ==> {
                    let k = #[trigger] merged.indices[old_group.indices.len() + j];
                    &&& k == part.indices[j] + count
                    &&& k < merged.vertices.len()
                    &&& merged.vertices[k as int] == part.vertices[part.indices[j] as int]
                }
        }),
{
    lemma_find_group_found(groups, textures[part.material.unwrap() as int]);
    let old_group = groups[g];
    let count = old_group.vertices.len();
    assert((count as u32) as int == count);
    let merged = add_part(groups, part, textures).unwrap()[g];
    assert forall|j: int| 0 <= j < part.indices.len() implies {
        let k = #[trigger] merged.indices[old_group.indices.len() + j];
        &&& k == part.indices[j] + count
        &&& k < merged.vertices.len()
        &&& merged.vertices[k as int] == part.vertices[part.indices[j] as int]
    } by {
        assert(part.indices[j] < part.vertices.len());
        assert(merged.indices[old_group.indices.len() + j] == shifted(part.indices, count as int)[j]);
    }
}

/// The position of the group with the given texture, if any.
fn find_group_index<V>(groups: &Vec<MaterialGroup<V>>, texture: &String) -> (res: Option<usize>)
    ensures
        match res {
            Some(g) => find_group(group_views(groups@), texture@) == Some(g as int),
            None => find_group(group_views(groups@), texture@) is None,
        },
{
    let ghost views = group_views(groups@);
    let mut i: usize = 0;
    assert(views.skip(0) =~= views);
    while i < groups.len()
        invariant
            i <= groups@.len(),
            views == group_views(groups@),
            find_group(views, texture@) == match find_group(views.skip(i as int), texture@) {
                Some(j) => Some(j + i),
                None => None,
            },
        decreases groups@.len() - i,
    {
        assert(views.skip(i as int)[0] == views[i as int]);
        assert(views.skip(i as int).drop_first() =~= views.skip(i + 1));
        if groups[i].texture == *texture {
            return Some(i);
        }
        i = i + 1;
    }
    None
}

/// The indices, each moved up by `offset`; `None` where one leaves 32 bits.
fn shift_indices(indices: &Vec<u32>, offset: u32) -> (res: Option<Vec<u32>>)
    ensures
        match res {
            Some(out) => shift_fits(indices@, offset as int) && out@ == shifted(indices@, offset as int),
            None => !shift_fits(indices@, offset as int),
        },
{
    let mut out: Vec<u32> = Vec::new();
    let mut j: usize = 0;
    while j < indices.len()
        invariant
            j <= indices@.len(),
            shift_fits(indices@.take(j as int), offset as int),
            out@ == shifted(indices@.take(j as int), offset as int),
        decreases indices@.len() - j,
    {
        if indices[j] > u32::MAX - offset {
            return None;
        }
        out.push(indices[j] + offset);
        assert(out@ =~= shifted(indices@.take(j + 1), offset as int));
        j = j + 1;
    }
    assert(indices@.take(j as int) =~= indices@);
    Some(out)
}

/// The vertices of a mesh given as flat lists: vertex `i` takes the positions
/// `3i..3i+3` and the texture coordinates `2i..2i+2`. There is one vertex per
/// whole position triple; `None` where the texture coordinates run out first.
pub fn mesh_vertices<T: Copy>(positions: &Vec<T>, texcoords: &Vec<T>) -> (res: Option<Vec<([T; 3], [T; 2])>>)
    ensures
        match res {
            Some(v) => texcoords@.len() >= 2 * (positions@.len() / 3) && v@.len() == positions@.len() / 3
                && forall|i: int|
                0 <= i < v@.len() ==> (#[trigger] v@[i]).0@ == positions@.subrange(3 * i, 3 * i + 3) && v@[i].1@
                    == texcoords@.subrange(2 * i, 2 * i + 2),
            None => texcoords@.len() < 2 * (positions@.len() / 3),
        },
{
    let plen: usize = positions.len();
    let count: usize = plen / 3;
    proof {
        vstd::arithmetic::div_mod::lemma_fundamental_div_mod(positions@.len() as int, 3);
    }
    if texcoords.len() / 2 < count {
        return None;
    }
    let mut out: Vec<([T; 3], [T; 2])> = Vec::new();
    let mut i: usize = 0;
    while i < count
        invariant
            count == positions@.len() / 3,
            3 * count <= plen,
            plen == positions@.len(),
            texcoords@.len() >= 2 * count,
            i <= count,
            out@.len() == i,
            forall|j: int|
                0 <= j < i ==> (#[trigger] out@[j]).0@ == positions@.subrange(3 * j, 3 * j + 3) && out@[j].1@
                    == texcoords@.subrange(2 * j, 2 * j + 2),
        decreases count - i,
    {
        let p: usize = 3 * i;
        let t: usize = 2 * i;
        let v = ([positions[p], positions[p + 1], positions[p + 2]], [texcoords[t], texcoords[t + 1]]);
        assert(v.0@ =~= positions@.subrange(3 * i, 3 * i + 3));
        assert(v.1@ =~= texcoords@.subrange(2 * i, 2 * i + 2));
        out.push(v);
        i = i + 1;
    }
    Some(out)
}

/// Groups the meshes of a model by the texture of their material, in the order in
/// which the textures first occur; `textures[m]` is the texture file of material
/// `m`. `None` where a mesh names a material that does not exist or an index
/// would not fit in 32 bits once moved behind the group's earlier vertices.
pub fn group_by_texture<V>(parts: Vec<MeshPart<V>>, textures: &Vec<String>) -> (res: Option<
    Vec<MaterialGroup<V>>,
>)
    ensures
        match res {
            Some(groups) => group_parts(part_views(parts@), texture_views(textures@)) == Some(
                group_views(groups@),
            ),
            None => group_parts(part_views(parts@), texture_views(textures@)) is None,
        },
{
    let ghost all = part_views(parts@);
    let ghost tex = texture_views(textures@);
    let total: usize = parts.len();
    let mut rest = parts;
    let mut groups: Vec<MaterialGroup<V>> = Vec::new();
    let mut k: usize = 0;
    assert(group_views(groups@) =~= Seq::<GroupView<V>>::empty());
    assert(all.take(0) =~= Seq::<PartView<V>>::empty());
    while rest.len() > 0
        invariant
            k <= all.len(),
            k + rest@.len() == all.len(),
            all.len() == total,
            part_views(rest@) == all.skip(k as int),
            all == part_views(parts@),
            tex == texture_views(textures@),
            group_parts(all.take(k as int), tex) == Some(group_views(groups@)),
        decreases rest@.len(),
    {
        assert(part_views(rest@).len() == rest@.len());
        assert(all.take(k + 1).drop_last() =~= all.take(k as int));
        assert(part_views(rest@)[0] == all[k as int]);
        let ghost before = group_views(groups@);
        let ghost old_rest = rest@;
        let part = rest.remove(0);
        assert(rest@ =~= old_rest.subrange(1, old_rest.len() as int));
        assert forall|j: int| 0 <= j < rest@.len() implies #[trigger] part_views(rest@)[j] == all.skip(k + 1)[j] by {
            assert(rest@[j] == old_rest[j + 1]);
            assert(part_views(old_rest)[j + 1] == all.skip(k as int)[j + 1]);
        }
        assert(part_views(rest@) =~= all.skip(k + 1));
        assert(part.part_view() == all.take(k + 1).last());
        match part.material {
            None => {},
            Some(id) => {
                if id >= textures.len() {
                    proof {
                        lemma_group_parts_none(all, tex, k + 1);
                    }
                    return None;
                }
                let texture = &textures[id];
                match find_group_index(&groups, texture) {
                    None => {
                        let mut part = part;
                        let group = MaterialGroup {
                            texture: texture.clone(),
                            vertices: part.vertices,
                            indices: part.indices,
                        };
                        groups.push(group);
                        assert(group_views(groups@) =~= before.push(group.group_view()));
                    },
                    Some(g) => {
                        let mut part = part;
                        proof {
                            lemma_find_group_found(before, texture@);
                        }
                        let offset: u32 = groups[g].vertices.len() as u32;
                        let moved = match shift_indices(&part.indices, offset) {
                            None => {
                                proof {
                                    lemma_group_parts_none(all, tex, k + 1);
                                }
                                return None;
                            },
                            Some(m) => m,
                        };
                        let mut group = groups.remove(g);
                        let ghost old_group = group.group_view();
                        assert(old_group == before[g as int]);
                        let mut moved = moved;
                        group.vertices.append(&mut part.vertices);
                        group.indices.append(&mut moved);
                        groups.insert(g, group);
                        assert(group_views(groups@) =~= before.update(g as int, group.group_view()));
                    },
                }
            },
        }
        k = k + 1;
    }
    assert(all.take(k as int) =~= all);
    Some(groups)
}

} // verus!
