//! Choice of the render target shown on screen: the textures are visited in
//! name order, and each texture is shown first as colour, then as depth.

use vstd::prelude::*;
use vstd::relations::{sorted_by, total_ordering};

verus! {

/// The render target shown on screen: the texture's name, and whether its depth
/// (rather than its colour) is shown.
#[derive(Clone, Debug)]
pub struct ActiveTexture {
    pub active_texture: String,
    pub depth: bool,
}

impl Default for ActiveTexture {
    /// No texture named, colour shown.
    fn default() -> (res: ActiveTexture)
        ensures
            res.active_texture@ == Seq::<char>::empty(),
            !res.depth,
    {
        ActiveTexture { active_texture: String::new(), depth: false }
    }
}

/// String order: lexicographic by characters, a prefix before its extensions.
pub open spec fn str_le(a: Seq<char>, b: Seq<char>) -> bool
    decreases a.len(),
{
    if a.len() == 0 {
        true
    } else if b.len() == 0 {
        false
    } else if a[0] != b[0] {
        a[0] < b[0]
    } else {
        str_le(a.drop_first(), b.drop_first())
    }
}

/// `str_le` as a relation.
pub open spec fn str_order() -> spec_fn(Seq<char>, Seq<char>) -> bool {
    |a: Seq<char>, b: Seq<char>| str_le(a, b)
}

/// The characters of each string.
pub open spec fn name_views(names: Seq<String>) -> Seq<Seq<char>> {
    names.map_values(|s: String| s@)
}

/// The names in string order.
pub open spec fn sorted_names(names: Seq<String>) -> Seq<Seq<char>> {
    name_views(names).sort_by(str_order())
}

/// The first position of `name` in `names`, or `names.len()` where it does not occur.
pub open spec fn first_index(names: Seq<Seq<char>>, name: Seq<char>) -> int
    decreases names.len(),
{
    if names.len() == 0 {
        0
    } else if names[0] == name {
        0
    } else {
        1 + first_index(names.drop_first(), name)
    }
}

/// Whether the depth view is on after the "next" key: the key toggles it.
pub open spec fn depth_after_next(depth: bool, next_pressed: bool) -> bool {
    if next_pressed {
        !depth
    } else {
        depth
    }
}

/// The name and depth flag after the keys of one frame, for the names in order
/// `list`, where the current name is at `index`. "Next" shows the depth of a
/// texture shown as colour, and moves from a depth view to the colour of the
/// following texture (after the last comes the first). "Back" then goes from a
/// depth view to the colour of the same texture, and from a colour view to the
/// depth of the texture before the one that was current when the frame began.
pub open spec fn switched(
    list: Seq<Seq<char>>,
    index: int,
    name: Seq<char>,
    depth: bool,
    next_pressed: bool,
    back_pressed: bool,
) -> (Seq<char>, bool) {
    let name1 = if next_pressed && depth {
        list[if index + 1 == list.len() {
            0
        } else {
            index + 1
        }]
    } else {
        name
    };
    let depth1 = depth_after_next(depth, next_pressed);
    if back_pressed {
        if depth1 {
            (name1, false)
        } else {
            (list[index - 1], true)
        }
    } else {
        (name1, depth1)
    }
}

/// `slice::sort` on the names. Its documentation promises a permutation of the
/// names in ascending order; `String`'s order compares the UTF-8 bytes, which
/// orders strings as `str_le` orders their characters (by code point). The
/// contract states that: the same names, in `str_le` order.
#[verifier::external_body]
fn sort_names(names: &mut Vec<String>)
    ensures
        name_views(final(names)@).to_multiset() == name_views(old(names)@).to_multiset(),
        sorted_by(name_views(final(names)@), str_order()),
{
    names.sort();
}

proof fn lemma_str_le_reflexive(a: Seq<char>)
    ensures
        str_le(a, a),
    decreases a.len(),
{
    if a.len() > 0 {
        lemma_str_le_reflexive(a.drop_first());
    }
}

proof fn lemma_str_le_antisymmetric(a: Seq<char>, b: Seq<char>)
    requires
        str_le(a, b),
        str_le(b, a),
    ensures
        a == b,
    decreases a.len(),
{
    if a.len() > 0 && b.len() > 0 {
        lemma_str_le_antisymmetric(a.drop_first(), b.drop_first());
        assert(a =~= seq![a[0]] + a.drop_first());
        assert(b =~= seq![b[0]] + b.drop_first());
    } else {
        assert(a =~= b);
    }
}

proof fn lemma_str_le_transitive(a: Seq<char>, b: Seq<char>, c: Seq<char>)
    requires
        str_le(a, b),
        str_le(b, c),
    ensures
        str_le(a, c),
    decreases a.len(),
{
    if a.len() > 0 && b.len() > 0 && c.len() > 0 {
        if a[0] == b[0] && b[0] == c[0] {
            lemma_str_le_transitive(a.drop_first(), b.drop_first(), c.drop_first());
        }
    }
}

proof fn lemma_str_le_total(a: Seq<char>, b: Seq<char>)
    ensures
        str_le(a, b) || str_le(b, a),
    decreases a.len(),
{
    if a.len() > 0 && b.len() > 0 && a[0] == b[0] {
        lemma_str_le_total(a.drop_first(), b.drop_first());
    }
}

/// String order is a total order.
pub proof fn lemma_str_order_total()
    ensures
        total_ordering(str_order()),
{
    assert forall|a: Seq<char>| #[trigger] str_order()(a, a) by {
        lemma_str_le_reflexive(a);
    }
    assert forall|a: Seq<char>, b: Seq<char>|
        #[trigger] str_order()(a, b) && #[trigger] str_order()(b, a) implies a == b by {
        lemma_str_le_antisymmetric(a, b);
    }
    assert forall|a: Seq<char>, b: Seq<char>, c: Seq<char>|
        #[trigger] str_order()(a, b) && #[trigger] str_order()(b, c) implies str_order()(a, c) by {
        lemma_str_le_transitive(a, b, c);
    }
    assert forall|a: Seq<char>, b: Seq<char>|
        #[trigger] str_order()(a, b) || #[trigger] str_order()(b, a) by {
        lemma_str_le_total(a, b);
    }
}

/// Two sorted arrangements of the same names are the same sequence.
pub proof fn lemma_sorted_unique(s1: Seq<Seq<char>>, s2: Seq<Seq<char>>)
    requires
        sorted_by(s1, str_order()),
        sorted_by(s2, str_order()),
        s1.to_multiset() == s2.to_multiset(),
    ensures
        s1 == s2,
    decreases s1.len(),
{
    broadcast use vstd::seq_lib::group_to_multiset_ensures;

    lemma_str_order_total();
    assert(s1.len() == s1.to_multiset().len());
    assert(s2.len() == s2.to_multiset().len());
    if s1.len() > 0 {
        assert(s1.contains(s1[0]));
        assert(s1.to_multiset().count(s1[0]) > 0);
        assert(s2.contains(s1[0]));
        let j = choose|j: int| 0 <= j < s2.len() && s2[j] == s1[0];
        if j > 0 {
            assert(str_order()(s2[0], s2[j]));
        }
        assert(str_order()(s2[0], s1[0]));
        assert(s2.contains(s2[0]));
        assert(s2.to_multiset().count(s2[0]) > 0);
        assert(s1.contains(s2[0]));
        let i = choose|i: int| 0 <= i < s1.len() && s1[i] == s2[0];
        if i > 0 {
            assert(str_order()(s1[0], s1[i]));
        }
        assert(str_order()(s1[0], s2[0]));
        assert(s1[0] == s2[0]);
        let r1 = s1.remove(0);
        let r2 = s2.remove(0);
        assert(r1.to_multiset() == s1.to_multiset().remove(s1[0]));
        assert(r2.to_multiset() == s2.to_multiset().remove(s2[0]));
        assert forall|a: int, b: int| 0 <= a < b < r1.len() implies #[trigger] str_order()(
            r1[a],
            r1[b],
        ) by {
            assert(r1[a] == s1[a + 1] && r1[b] == s1[b + 1]);
        }
        assert forall|a: int, b: int| 0 <= a < b < r2.len() implies #[trigger] str_order()(
            r2[a],
            r2[b],
        ) by {
            assert(r2[a] == s2[a + 1] && r2[b] == s2[b + 1]);
        }
        lemma_sorted_unique(r1, r2);
        assert(s1 =~= seq![s1[0]] + r1);
        assert(s2 =~= seq![s2[0]] + r2);
    } else {
        assert(s1 =~= s2);
    }
}

/// `sorted_names` holds the names, in string order; it is the only such sequence.
pub proof fn lemma_sorted_names(names: Seq<String>)
    ensures
        sorted_by(sorted_names(names), str_order()),
        sorted_names(names).to_multiset() == name_views(names).to_multiset(),
{
    lemma_str_order_total();
    name_views(names).lemma_sort_by_ensures(str_order());
}

/// The first position of a name, found by scanning.
pub proof fn lemma_first_index(names: Seq<Seq<char>>, name: Seq<char>, i: int)
    requires
        0 <= i <= names.len(),
        forall|j: int| 0 <= j < i ==> names[j] != name,
        i == names.len() || names[i] == name,
    ensures
        first_index(names, name) == i,
    decreases names.len(),
{
    if names.len() > 0 && i > 0 {
        assert forall|j: int| 0 <= j < i - 1 implies names.drop_first()[j] != name by {
            assert(names.drop_first()[j] == names[j + 1]);
        }
        lemma_first_index(names.drop_first(), name, i - 1);
    }
}

/// "Back" undoes "next": with distinct names, pressing "next" in one frame and
/// "back" in the following frame returns to the texture and view of the start,
/// unless "next" wrapped around to the first name (where "back" would go before
/// the first name).
pub proof fn lemma_back_undoes_next(list: Seq<Seq<char>>, index: int, depth: bool)
    requires
        list.no_duplicates(),
        0 <= index < list.len(),
        !(depth && index + 1 == list.len()),
    ensures
        ({
            let (name1, depth1) = switched(list, index, list[index], depth, true, false);
            switched(list, first_index(list, name1), name1, depth1, false, true) == (list[index], depth)
        }),
{
    let (name1, depth1) = switched(list, index, list[index], depth, true, false);
    if depth {
        lemma_first_index(list, list[index + 1], index + 1);
    } else {
        lemma_first_index(list, list[index], index);
    }
}

/// What each key does on its own, for names in order `list` with the current name
/// `list[index]`: without a key nothing changes; "next" turns a colour view into the
/// depth view of the same texture, and a depth view into the colour view of the
/// following name (the first after the last); "back" turns a depth view into the
/// colour view of the same texture, and a colour view into the depth view of the
/// name before.
pub proof fn lemma_keys_alone(list: Seq<Seq<char>>, index: int, depth: bool)
    requires
        0 <= index < list.len(),
    ensures
        switched(list, index, list[index], depth, false, false) == (list[index], depth),
        !depth ==> switched(list, index, list[index], depth, true, false) == (list[index], true),
        depth ==> switched(list, index, list[index], depth, true, false) == (
            list[(index + 1) % (list.len() as int)],
            false,
        ),
        depth ==> switched(list, index, list[index], depth, false, true) == (list[index], false),
        !depth && index > 0 ==> switched(list, index, list[index], depth, false, true) == (
            list[index - 1],
            true,
        ),
{
    if index + 1 == list.len() {
        vstd::arithmetic::div_mod::lemma_mod_self_0(list.len() as int);
    } else {
        vstd::arithmetic::div_mod::lemma_small_mod((index + 1) as nat, list.len());
    }
}

/// Moves the shown render target after the "next" (`next_pressed`) and "back"
/// (`back_pressed`) keys of one frame; `texture_names` are the names of all
/// render targets. The names are visited in string order.
pub fn switch_active_texture(
    texture_names: Vec<String>,
    active: &mut ActiveTexture,
    next_pressed: bool,
    back_pressed: bool,
)
    requires
        name_views(texture_names@).contains(old(active).active_texture@),
        !(back_pressed && !depth_after_next(old(active).depth, next_pressed)
            && sorted_names(texture_names@)[0] == old(active).active_texture@),
    ensures
        ({
            let list = sorted_names(texture_names@);
            let r = switched(
                list,
                first_index(list, old(active).active_texture@),
                old(active).active_texture@,
                old(active).depth,
                next_pressed,
                back_pressed,
            );
            final(active).active_texture@ == r.0 && final(active).depth == r.1
        }),
        !next_pressed && !back_pressed ==> final(active).active_texture@ == old(active).active_texture@
            && final(active).depth == old(active).depth,
{
    let ghost names = texture_names@;
    proof {
        lemma_sorted_names(names);
        broadcast use vstd::seq_lib::group_to_multiset_ensures;

        let name = active.active_texture@;
        assert(name_views(names).to_multiset().count(name) > 0);
        assert(sorted_names(names).contains(name));
        lemma_first_index_is_first(sorted_names(names), name);
    }
    let list = sort_for_switch(texture_names);
    let index = find_name(&list, &active.active_texture);
    apply_switch(&list, index, active, next_pressed, back_pressed);
}

/// Like `switch_active_texture`, but where that function asks for more (the name
/// is not listed, or "back" would step before the first name), leaves the shown
/// render target as it is and returns `false`; otherwise switches and returns `true`.
pub fn try_switch_active_texture(
    texture_names: Vec<String>,
    active: &mut ActiveTexture,
    next_pressed: bool,
    back_pressed: bool,
) -> (switched_ok: bool)
    ensures
        switched_ok == (name_views(texture_names@).contains(old(active).active_texture@) && !(back_pressed
            && !depth_after_next(old(active).depth, next_pressed) && sorted_names(texture_names@)[0]
            == old(active).active_texture@)),
        !switched_ok ==> final(active).active_texture@ == old(active).active_texture@ && final(active).depth
            == old(active).depth,
        switched_ok ==> ({
            let list = sorted_names(texture_names@);
            let r = switched(
                list,
                first_index(list, old(active).active_texture@),
                old(active).active_texture@,
                old(active).depth,
                next_pressed,
                back_pressed,
            );
            final(active).active_texture@ == r.0 && final(active).depth == r.1
        }),
        !next_pressed && !back_pressed ==> final(active).active_texture@ == old(active).active_texture@
            && final(active).depth == old(active).depth,
{
    let ghost names = texture_names@;
    proof {
        lemma_sorted_names(names);
        broadcast use vstd::seq_lib::group_to_multiset_ensures;

        let name = active.active_texture@;
        assert(sorted_names(names).contains(name) == (sorted_names(names).to_multiset().count(name) > 0));
        assert(name_views(names).contains(name) == (name_views(names).to_multiset().count(name) > 0));
    }
    let list = sort_for_switch(texture_names);
    let index = find_name(&list, &active.active_texture);
    if index == list.len() {
        return false;
    }
    proof {
        lemma_first_index_is_first(name_views(list@), active.active_texture@);
    }
    let depth_after: bool = if next_pressed { !active.depth } else { active.depth };
    if back_pressed && !depth_after && index == 0 {
        return false;
    }
    apply_switch(&list, index, active, next_pressed, back_pressed);
    true
}

/// The names in string order.
fn sort_for_switch(texture_names: Vec<String>) -> (list: Vec<String>)
    ensures
        name_views(list@) == sorted_names(texture_names@),
{
    let ghost original = name_views(texture_names@);
    let mut list = texture_names;
    sort_names(&mut list);
    proof {
        lemma_str_order_total();
        original.lemma_sort_by_ensures(str_order());
        lemma_sorted_unique(name_views(list@), original.sort_by(str_order()));
    }
    list
}

/// The first position of `name` in `list`, or the length where it does not occur.
fn find_name(list: &Vec<String>, name: &String) -> (index: usize)
    ensures
        index as int == first_index(name_views(list@), name@),
        index <= list@.len(),
        index < list@.len() <==> name_views(list@).contains(name@),
{
    let ghost views = name_views(list@);
    let len: usize = list.len();
    let mut index: usize = 0;
    while index < len && !(list[index] == *name)
        invariant
            len == list@.len(),
            views == name_views(list@),
            index <= len,
            forall|j: int| 0 <= j < index ==> views[j] != name@,
        decreases len - index,
    {
        index = index + 1;
    }
    proof {
        lemma_first_index(views, name@, index as int);
        if index < len {
            assert(views[index as int] == name@);
        }
    }
    index
}

proof fn lemma_first_index_is_first(names: Seq<Seq<char>>, name: Seq<char>)
    requires
        names.contains(name),
    ensures
        0 <= first_index(names, name) < names.len(),
        names[first_index(names, name)] == name,
        first_index(names, name) == 0 <==> names[0] == name,
    decreases names.len(),
{
    if names[0] != name {
        let j = choose|j: int| 0 <= j < names.len() && names[j] == name;
        assert(names.drop_first()[j - 1] == name);
        lemma_first_index_is_first(names.drop_first(), name);
    }
}

/// Applies the keys of one frame, for the names in order `list` and the current
/// name at its first position `index`.
fn apply_switch(
    list: &Vec<String>,
    index: usize,
    active: &mut ActiveTexture,
    next_pressed: bool,
    back_pressed: bool,
)
    requires
        index < list@.len(),
        index as int == first_index(name_views(list@), old(active).active_texture@),
        !(back_pressed && !depth_after_next(old(active).depth, next_pressed) && index == 0),
    ensures
        ({
            let r = switched(
                name_views(list@),
                index as int,
                old(active).active_texture@,
                old(active).depth,
                next_pressed,
                back_pressed,
            );
            final(active).active_texture@ == r.0 && final(active).depth == r.1
        }),
{
    let len: usize = list.len();
    let depth = active.depth;
    if next_pressed {
        if depth {
            let mut new_index: usize = index + 1;
            if new_index == len {
                new_index = 0;
            }
            active.active_texture = list[new_index].clone();
            active.depth = false;
        } else {
            active.depth = true;
        }
    }
    if back_pressed {
        if active.depth {
            active.depth = false;
        } else {
            let new_index: usize = index - 1;
            active.active_texture = list[new_index].clone();
            active.depth = true;
        }
    }
}

} // verus!
