//! The part of a model that one material covers: which of the model's
//! vertices it uses, and its triangles over those vertices.

use std::collections::HashMap;
use vstd::prelude::*;
use vstd::set_lib::lemma_int_range;
use vstd::set_lib::lemma_len_subset;
use vstd::set_lib::set_int_range;
use vstd::std_specs::iter::IteratorSpec;
use vstd::string::StrSliceExecFns;
use vstd::string::StringExecFns;

verus! {

broadcast use vstd::std_specs::hash::group_hash_axioms;

/// The corner indices of `triangles`, triangle after triangle.
pub open spec fn corners(triangles: Seq<[u16; 3]>) -> Seq<u16> {
    Seq::new(3 * triangles.len(), |p: int| triangles[p / 3][p % 3])
}

/// The values of `s` without repetition, each where it first occurs.
pub open spec fn first_uses(s: Seq<u16>) -> Seq<u16>
    decreases s.len(),
{
    if s.len() == 0 {
        Seq::empty()
    } else if first_uses(s.drop_last()).contains(s.last()) {
        first_uses(s.drop_last())
    } else {
        first_uses(s.drop_last()).push(s.last())
    }
}

/// `values` as positions in a vertex list.
pub open spec fn as_positions(values: Seq<u16>) -> Seq<usize> {
    values.map_values(|v: u16| v as usize)
}

/// `first_uses(s)` holds exactly the values of `s`, each once.
pub proof fn first_uses_hold_each_value_once(s: Seq<u16>)
    ensures
        first_uses(s).no_duplicates(),
        first_uses(s).len() <= s.len(),
        forall|v: u16|
            #![trigger first_uses(s).contains(v)]
            #![trigger s.contains(v)]
            first_uses(s).contains(v) <==> s.contains(v),
    decreases s.len(),
{
    if s.len() > 0 {
        let rest = s.drop_last();
        first_uses_hold_each_value_once(rest);
        assert forall|v: u16|
            #![trigger first_uses(s).contains(v)]
            #![trigger s.contains(v)]
            first_uses(s).contains(v) <==> s.contains(v) by {
            if s.contains(v) {
                let i = choose|i: int| 0 <= i < s.len() && s[i] == v;
                if i < rest.len() {
                    assert(rest[i] == v);
                    assert(rest.contains(v));
                    let j = choose|j: int| 0 <= j < first_uses(rest).len() && first_uses(rest)[j] == v;
                    assert(first_uses(s)[j] == v);
                } else {
                    assert(v == s.last());
                    if !first_uses(rest).contains(s.last()) {
                        assert(first_uses(s)[first_uses(rest).len() as int] == v);
                    }
                }
            }
            if first_uses(s).contains(v) {
                let j = choose|j: int| 0 <= j < first_uses(s).len() && first_uses(s)[j] == v;
                if j < first_uses(rest).len() {
                    assert(first_uses(rest)[j] == v);
                    assert(first_uses(rest).contains(v));
                    let i = choose|i: int| 0 <= i < rest.len() && rest[i] == v;
                    assert(s[i] == v);
                } else {
                    assert(s[s.len() - 1] == v);
                }
            }
        }
    }
}

/// There are no more distinct values than the type has.
proof fn distinct_values_are_few(s: Seq<u16>)
    requires
        s.no_duplicates(),
    ensures
        s.len() <= 65536,
{
    let ints = s.map_values(|v: u16| v as int);
    assert(ints.no_duplicates());
    ints.unique_seq_to_set();
    lemma_int_range(0, 65536);
    assert(ints.to_set().subset_of(set_int_range(0, 65536))) by {
        assert forall|x: int| ints.to_set().contains(x) implies set_int_range(0, 65536).contains(
            x,
        ) by {
            let i = choose|i: int| 0 <= i < ints.len() && ints[i] == x;
            assert(x == s[i] as int);
        }
    }
    lemma_len_subset(ints.to_set(), set_int_range(0, 65536));
}

/// `order` lists the values seen so far by first use, and `index_map` gives
/// each of them its place in `order`.
spec fn numbered(index_map: Map<u16, u32>, order: Seq<usize>, seen: Seq<u16>) -> bool {
    &&& order == as_positions(first_uses(seen))
    &&& forall|v: u16| #[trigger] index_map.contains_key(v) <==> first_uses(seen).contains(v)
    &&& forall|v: u16| #[trigger]
        index_map.contains_key(v) ==> index_map[v] < order.len() && order[index_map[v] as int] == v
}

/// The place of `index` among the vertices in use, which `index` joins at
/// the end if it is not yet among them.
fn get_new_index(
    index_map: &mut HashMap<u16, u32>,
    order: &mut Vec<usize>,
    index: u16,
    Ghost(seen): Ghost<Seq<u16>>,
) -> (new_index: u32)
    requires
        numbered(old(index_map)@, old(order)@, seen),
    ensures
        numbered(final(index_map)@, final(order)@, seen.push(index)),
        new_index < final(order)@.len(),
        final(order)@[new_index as int] == index,
        old(order)@.len() <= final(order)@.len(),
        forall|i: int| 0 <= i < old(order)@.len() ==> final(order)@[i] == old(order)@[i],
{
    let ghost grown = seen.push(index);
    assert(grown.drop_last() =~= seen);
    let known = match index_map.get(&index) {
        Some(place) => Some(*place),
        None => None,
    };
    match known {
        Some(place) => place,
        None => {
            proof {
                first_uses_hold_each_value_once(seen);
                distinct_values_are_few(first_uses(seen));
            }
            let new_index = order.len() as u32;
            order.push(index as usize);
            index_map.insert(index, new_index);
            proof {
                assert(order@ =~= as_positions(first_uses(grown)));
                assert forall|v: u16| #[trigger]
                    index_map@.contains_key(v) <==> first_uses(grown).contains(v) by {
                    if v == index {
                        assert(first_uses(grown)[first_uses(seen).len() as int] == v);
                    } else if first_uses(seen).contains(v) {
                        let j = choose|j: int|
                            0 <= j < first_uses(seen).len() && first_uses(seen)[j] == v;
                        assert(first_uses(grown)[j] == v);
                    } else if first_uses(grown).contains(v) {
                        let j = choose|j: int|
                            0 <= j < first_uses(grown).len() && first_uses(grown)[j] == v;
                        assert(first_uses(seen)[j] == v);
                    }
                }
            }
            new_index
        },
    }
}

/// The number of characters of `name` before its first dot: all of them if
/// it has none.
pub open spec fn stem_len(name: Seq<char>) -> nat
    decreases name.len(),
{
    if name.len() == 0 || name[0] == '.' {
        0
    } else {
        1 + stem_len(name.drop_first())
    }
}

/// `stem_len(name)` is the place of the first dot of `name`, or its length.
pub proof fn stem_ends_at_first_dot(name: Seq<char>, n: int)
    requires
        0 <= n <= name.len(),
        forall|k: int| 0 <= k < n ==> name[k] != '.',
        n == name.len() || name[n] == '.',
    ensures
        stem_len(name) == n,
    decreases n,
{
    if n > 0 {
        let rest = name.drop_first();
        assert forall|k: int| 0 <= k < n - 1 implies rest[k] != '.' by {
            assert(rest[k] == name[k + 1]);
        }
        stem_ends_at_first_dot(rest, n - 1);
    }
}

/// The name of the compressed form of the texture `name`: what stands before
/// the first dot of `name`, followed by `.dds`. An empty name has none.
pub fn dds_name(name: &str) -> (file: Option<String>)
    ensures
        match file {
            None => name@.len() == 0,
            Some(file) => name@.len() > 0 && file@ == name@.take(stem_len(name@) as int)
                + ".dds"@,
        },
{
    broadcast use vstd::string::group_string_axioms;

    let length = name.unicode_len();
    if length == 0 {
        return None;
    }
    let mut chars = name.chars();
    let mut count: usize = 0;
    loop
        invariant_except_break
            chars.remaining() == name@.skip(count as int),
            chars.decrease() is Some,
            forall|k: int| 0 <= k < count ==> name@[k] != '.',
        invariant
            length == name@.len(),
            count <= length,
        ensures
            count <= length,
            length == name@.len(),
            stem_len(name@) == count,
        decreases chars.decrease()->0,
    {
        match chars.next() {
            None => {
                proof {
                    stem_ends_at_first_dot(name@, count as int);
                }
                break ;
            },
            Some(c) => {
                assert(c == name@[count as int]);
                if c == '.' {
                    proof {
                        stem_ends_at_first_dot(name@, count as int);
                    }
                    break ;
                }
                assert(name@.skip(count as int).drop_first() =~= name@.skip(count + 1));
                count += 1;
            },
        }
    }
    let stem = name.substring_char(0, count);
    assert(stem@ =~= name@.take(count as int));
    Some(stem.to_owned().concat(".dds"))
}

/// The entity as its contracts see it.
pub ghost struct PolModelView {
    /// For each vertex of the entity, its place in the model's vertex list.
    pub vertex_order: Seq<usize>,
    /// The corners of the triangles, as places in `vertex_order`.
    pub indices: Seq<u32>,
    /// Whether the material is drawn with transparency.
    pub has_alpha: u32,
}

/// One material's share of a model.
pub struct PolModelEntity {
    vertex_order: Vec<usize>,
    indices: Vec<u32>,
    has_alpha: u32,
}

impl View for PolModelEntity {
    type V = PolModelView;

    closed spec fn view(&self) -> PolModelView {
        PolModelView {
            vertex_order: self.vertex_order@,
            indices: self.indices@,
            has_alpha: self.has_alpha,
        }
    }
}

impl PolModelEntity {
    /// The entity of a material with the given triangles over the model's
    /// vertex list.
    ///
    /// The entity keeps only the vertices that its triangles use, in the
    /// order in which the triangles first use them, and states each corner as
    /// a place in that shorter list.
    pub fn new(triangles: &Vec<[u16; 3]>, has_alpha: u32) -> (entity: Self)
        ensures
            entity@.vertex_order == as_positions(first_uses(corners(triangles@))),
            entity@.indices.len() == 3 * triangles@.len(),
            forall|p: int|
                0 <= p < entity@.indices.len() ==> (#[trigger] entity@.indices[p])
                    < entity@.vertex_order.len() && entity@.vertex_order[entity@.indices[p] as int]
                    == corners(triangles@)[p],
            entity@.has_alpha == has_alpha,
    {
        let mut index_map: HashMap<u16, u32> = HashMap::new();
        let mut reversed_index: Vec<usize> = Vec::new();
        let mut indices: Vec<u32> = Vec::new();
        let ghost all = corners(triangles@);
        let mut t: usize = 0;
        assert(reversed_index@ =~= as_positions(first_uses(all.take(0))));
        while t < triangles.len()
            invariant
                t <= triangles.len(),
                all == corners(triangles@),
                numbered(index_map@, reversed_index@, all.take(3 * t)),
                indices@.len() == 3 * t,
                forall|p: int|
                    0 <= p < 3 * t ==> (#[trigger] indices@[p]) < reversed_index@.len()
                        && reversed_index@[indices@[p] as int] == all[p],
            decreases triangles.len() - t,
        {
            let triangle = &triangles[t];
            let ghost seen = all.take(3 * t);
            assert(all[3 * t] == triangle[0] && all[3 * t + 1] == triangle[1] && all[3 * t + 2]
                == triangle[2]);
            assert(seen.push(triangle[0]) =~= all.take(3 * t + 1));
            assert(all.take(3 * t + 1).push(triangle[1]) =~= all.take(3 * t + 2));
            assert(all.take(3 * t + 2).push(triangle[2]) =~= all.take(3 * t + 3));
            let first = get_new_index(
                &mut index_map,
                &mut reversed_index,
                triangle[0],
                Ghost(seen),
            );
            indices.push(first);
            let second = get_new_index(
                &mut index_map,
                &mut reversed_index,
                triangle[1],
                Ghost(all.take(3 * t + 1)),
            );
            indices.push(second);
            let third = get_new_index(
                &mut index_map,
                &mut reversed_index,
                triangle[2],
                Ghost(all.take(3 * t + 2)),
            );
            indices.push(third);
            t += 1;
        }
        assert(all.take(3 * t) =~= all);
        PolModelEntity { vertex_order: reversed_index, indices, has_alpha }
    }

    /// Whether the material is drawn with transparency.
    pub fn has_alpha(&self) -> (flag: u32)
        ensures
            flag == self@.has_alpha,
    {
        self.has_alpha
    }

    /// For each vertex of the entity, its place in the model's vertex list.
    pub fn vertex_order(&self) -> (order: &Vec<usize>)
        ensures
            order@ == self@.vertex_order,
    {
        &self.vertex_order
    }

    /// The corners of the triangles, as places in `vertex_order`.
    pub fn indices(&self) -> (indices: &Vec<u32>)
        ensures
            indices@ == self@.indices,
    {
        &self.indices
    }
}

} // verus!
