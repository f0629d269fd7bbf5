//! What commands come to.

use crate::catalog::catalog::{dim_names, CatalogModel};
use crate::catalog::laws::owner_knows;
use crate::cube::cube::{product, total_square, CubeModel};
use crate::cube::import::imported;
use crate::cube::share_laws::commutative_arithmetic;
use crate::cube::splash_laws::exact_arithmetic;
use crate::dimension::dimension::DimensionModel;
use crate::dimension::hierarchy::kids_without;
use crate::number::Number;
use crate::shell::args::ArgsModel;
use crate::shell::command::{
    detached, members_meant, meta_effect, ordered, rolled_up, splashed, StepModel,
};
use crate::shell::files::{
    levels_in, levels_linked, levels_stored, number_or_one, pairs_stored, rows_effect,
};
use crate::storage::name_map::keys;
use crate::text::{lowercase, place_of_is_first, trimmed};
use vstd::prelude::*;

verus! {

/// Every answer that was kept is forgotten, and no cell has changed.
pub open spec fn only_forgets<N>(
    before: Seq<(Seq<char>, CubeModel<N>)>,
    after: Seq<(Seq<char>, CubeModel<N>)>,
) -> bool {
    &&& after.len() == before.len()
    &&& forall|i: int|
        0 <= i < before.len() ==> (#[trigger] after[i]).0 == before[i].0 && after[i].1 == (
        CubeModel { cache: Map::empty(), ..before[i].1 })
}

/// All dimensions but one are as they were.
pub open spec fn only_changes<N>(
    before: Seq<DimensionModel<N>>,
    after: Seq<DimensionModel<N>>,
    i: int,
) -> bool {
    forall|d: int|
        0 <= d < before.len() && d != i ==> d < after.len() && #[trigger] after[d] == before[d]
}

/// The hierarchy that a name means is there, in a dimension that is.
proof fn reference_is_there<N: Number>(catalog: CatalogModel<N>, reference: Seq<char>)
    ensures
        ({
            let (made, i, hierarchy, _) = catalog.reference_resolved(reference);
            &&& 0 <= i < made.dims.len()
            &&& made.cubes == catalog.cubes
            &&& catalog.dims.len() <= made.dims.len()
            &&& forall|d: int|
                0 <= d < catalog.dims.len() ==> #[trigger] made.dims[d] == catalog.dims[d]
        }),
{
    owner_knows(catalog.dims, reference);
    place_of_is_first(dim_names(catalog.dims), reference);
}

// ---------------------------------------------------------------------------
// Relations
// ---------------------------------------------------------------------------

/// A rollup puts the child under the parent by the weight that is written, in the
/// hierarchy that is meant; no cell changes, and no answer is kept that was given
/// before.
pub proof fn a_rollup_counts_by_its_weight<N: Number>(
    catalog: CatalogModel<N>,
    words: Seq<Seq<char>>,
)
    requires
        words.len() == 5,
        N::read_spec(words[4]) is Some,
        ({
            let (made, i, hierarchy, _) = catalog.reference_resolved(words[1]);
            &&& made.dims[i].sound()
            &&& made.dims[i].one_parent_each()
            &&& made.dims[i].next_id < u32::MAX - 1
            &&& made.dims[i].resolved(Some(hierarchy)) is Some
        }),
    ensures
        ({
            let (made, i, hierarchy, _) = catalog.reference_resolved(words[1]);
            let effect = rolled_up(catalog, words);
            &&& effect.step == StepModel::Done(true)
            &&& effect.catalog.dims[i].is_component(
                Some(hierarchy),
                words[2],
                words[3],
                N::read_spec(words[4])->0,
            )
            &&& only_changes(catalog.dims, effect.catalog.dims, i)
            &&& only_forgets(catalog.cubes, effect.catalog.cubes)
        }),
{
    reference_is_there(catalog, words[1]);
    let (made, i, hierarchy, _) = catalog.reference_resolved(words[1]);
    made.dims[i].a_component_counts_by_its_weight(
        Some(hierarchy),
        words[2],
        words[3],
        N::read_spec(words[4])->0,
    );
}

/// Detaching takes the child, and only it, from under the parent, in the hierarchy that
/// is meant; no cell changes, and no answer is kept that was given before.
pub proof fn a_detached_child_is_under_no_parent<N: Number>(
    catalog: CatalogModel<N>,
    words: Seq<Seq<char>>,
)
    requires
        words.len() == 4,
        detached(catalog, words).step == StepModel::Done(true),
        ({
            let (made, i, hierarchy, _) = catalog.reference_resolved(words[1]);
            made.dims[i].one_parent_each()
        }),
    ensures
        ({
            let (made, i, hierarchy, _) = catalog.reference_resolved(words[1]);
            let effect = detached(catalog, words);
            let was = made.dims[i].resolved(Some(hierarchy))->0;
            let now = effect.catalog.dims[i].resolved(Some(hierarchy))->0;
            let (parent, child) = (was.id_of(words[2])->0, was.id_of(words[3])->0);
            &&& was.is_under(child, parent)
            &&& !now.parent.contains_key(child)
            &&& forall|other: u32| #[trigger]
                now.kids(other) == kids_without(was.kids(other), child)
            &&& only_changes(catalog.dims, effect.catalog.dims, i)
            &&& only_forgets(catalog.cubes, effect.catalog.cubes)
        }),
{
    reference_is_there(catalog, words[1]);
    let (made, i, hierarchy, _) = catalog.reference_resolved(words[1]);
    made.dims[i].a_component_goes_alone(Some(hierarchy), words[2], words[3]);
}

/// A member that is ordered before another stands right before it; nothing else has moved
/// and no cell has changed.
pub proof fn an_order_is_followed<N: Number>(catalog: CatalogModel<N>, words: Seq<Seq<char>>)
    requires
        words.len() == 5,
        words[3] == "before"@,
        catalog.reference_found(words[1]) is Some,
        ordered(catalog, words).step == StepModel::Done(true),
        ({
            let (i, hierarchy) = catalog.reference_found(words[1])->0;
            let h = catalog.dims[i].resolved(Some(hierarchy))->0;
            let (id, other) = (h.id_of(words[2])->0, h.id_of(words[4])->0);
            &&& 0 <= i < catalog.dims.len()
            &&& catalog.dims[i].one_parent_each()
            &&& id != other
            &&& !h.parent.contains_key(id) ==> h.roots.contains(id) && h.roots.contains(other)
        }),
    ensures
        ({
            let (i, hierarchy) = catalog.reference_found(words[1])->0;
            let effect = ordered(catalog, words);
            let was = catalog.dims[i].resolved(Some(hierarchy))->0;
            let now = effect.catalog.dims[i].resolved(Some(hierarchy))->0;
            let (id, other) = (was.id_of(words[2])->0, was.id_of(words[4])->0);
            &&& now.stands_before(id, other)
            &&& was.stands_apart_from(now, id)
            &&& only_changes(catalog.dims, effect.catalog.dims, i)
            &&& only_forgets(catalog.cubes, effect.catalog.cubes)
        }),
{
    let (i, hierarchy) = catalog.reference_found(words[1])->0;
    catalog.dims[i].a_member_is_moved_before(Some(hierarchy), words[2], words[4]);
}

/// A member that is ordered to the front stands before all its siblings; nothing else has
/// moved and no cell has changed.
pub proof fn an_order_to_the_front_is_followed<N: Number>(
    catalog: CatalogModel<N>,
    words: Seq<Seq<char>>,
)
    requires
        words.len() == 4,
        words[3] == "front"@,
        catalog.reference_found(words[1]) is Some,
        ordered(catalog, words).step == StepModel::Done(true),
        ({
            let (i, hierarchy) = catalog.reference_found(words[1])->0;
            let h = catalog.dims[i].resolved(Some(hierarchy))->0;
            let id = h.id_of(words[2])->0;
            &&& 0 <= i < catalog.dims.len()
            &&& catalog.dims[i].one_parent_each()
            &&& !h.parent.contains_key(id) ==> h.roots.contains(id)
        }),
    ensures
        ({
            let (i, hierarchy) = catalog.reference_found(words[1])->0;
            let effect = ordered(catalog, words);
            let was = catalog.dims[i].resolved(Some(hierarchy))->0;
            let now = effect.catalog.dims[i].resolved(Some(hierarchy))->0;
            let id = was.id_of(words[2])->0;
            &&& now.stands_first(id)
            &&& was.stands_apart_from(now, id)
            &&& only_changes(catalog.dims, effect.catalog.dims, i)
            &&& only_forgets(catalog.cubes, effect.catalog.cubes)
        }),
{
    let (i, hierarchy) = catalog.reference_found(words[1])->0;
    catalog.dims[i].a_member_is_moved_to_the_front(Some(hierarchy), words[2]);
}

// ---------------------------------------------------------------------------
// Spreading
// ---------------------------------------------------------------------------

/// The members that are meant: as given, and for a star, or where none is given, the
/// default member.
pub proof fn members_are_meant_as_given<N: Number>(
    dims: Seq<DimensionModel<N>>,
    cube: CubeModel<N>,
    given: Seq<Seq<char>>,
    n: int,
    i: int,
)
    requires
        0 <= i < n,
        members_meant(dims, cube, given, n) is Ok,
    ensures
        members_meant(dims, cube, given, n)->Ok_0.len() == n,
        i < given.len() && given[i] != "*"@ ==> members_meant(dims, cube, given, n)->Ok_0[i]
            == given[i],
        !(i < given.len() && given[i] != "*"@) ==> {
            let dim = cube.dim(dims, i);
            &&& dim.default_member_id is Some
            &&& members_meant(dims, cube, given, n)->Ok_0[i] == dim.name_of(
                dim.default_member_id->0,
            )
        },
    decreases n,
{
    if i < n - 1 {
        members_are_meant_as_given(dims, cube, given, n - 1, i);
    } else if n > 1 {
        members_are_meant_as_given(dims, cube, given, n - 1, n - 2);
    } else {
        assert(members_meant(dims, cube, given, 0)->Ok_0.len() == 0);
    }
}

/// The words of a command that spreads a number, behind its name and whether it adds.
pub open spec fn splash_words(words: Seq<Seq<char>>) -> Seq<Seq<char>> {
    if words[1] == "ADD"@ {
        words.skip(2)
    } else {
        words.skip(1)
    }
}

/// A command that spreads a number makes the cells add up to it at the members that are
/// meant; one that adds makes them add up to so much more than before.
///
/// The arithmetic has to be exact and to commute, and the number to be divisible by the
/// sum of the squares of the weights.
pub proof fn a_splash_is_read_back<N: Number>(
    catalog: CatalogModel<N>,
    words: Seq<Seq<char>>,
    members: Seq<Seq<char>>,
)
    requires
        exact_arithmetic::<N>(),
        commutative_arithmetic::<N>(),
        words.len() > 1,
        splash_words(words).len() >= 3,
        splashed(catalog, words).step == StepModel::Done(true),
        catalog.cube(splash_words(words)[0]) is Some,
        ({
            let rest = splash_words(words);
            let cube = catalog.cube(rest[0])->0;
            &&& members_meant(
                catalog.dims,
                cube,
                rest.skip(2),
                cube.dimension_names.len() as int,
            ) == Ok::<Seq<Seq<char>>, Seq<char>>(members)
            &&& cube.takes(catalog.dims, members)
            &&& cube.at_aggregate(catalog.dims, members)
            &&& cube.spread(catalog.dims, members).1 matches Ok((lists, true)) ==> {
                let total = total_square(product(lists));
                N::read_spec(rest[1])->0.over_spec(total).times_spec(total) == N::read_spec(
                    rest[1],
                )->0
            }
        }),
    ensures
        ({
            let rest = splash_words(words);
            let value = N::read_spec(rest[1])->0;
            let after = splashed(catalog, words).catalog;
            let was = catalog.cube(rest[0])->0;
            let now = after.cube(rest[0])->0;
            &&& N::read_spec(rest[1]) is Some
            &&& after.cube(rest[0]) is Some
            &&& now.computed(after.dims, members) == (if words[1] == "ADD"@ {
                was.computed(after.dims, members).plus_spec(value)
            } else {
                value
            })
            &&& forall|other: Seq<char>|
                lowercase(other) != lowercase(rest[0]) ==> #[trigger] after.cube(other)
                    == catalog.cube(other)
        }),
{
    let rest = splash_words(words);
    let value = N::read_spec(rest[1])->0;
    let place = catalog.cube_place(rest[0])->0;
    place_of_is_first(keys(catalog.cubes), lowercase(rest[0]));
    let cube = catalog.cubes[place].1;
    let after = splashed(catalog, words).catalog;
    assert(keys(after.cubes) =~= keys(catalog.cubes));
    if words[1] == "ADD"@ {
        cube.added_number_is_on_top(catalog.dims, members, value);
    } else {
        cube.splashed_number_is_read_back(catalog.dims, members, value);
    }
    assert forall|other: Seq<char>|
        lowercase(other) != lowercase(rest[0]) implies #[trigger] after.cube(other)
        == catalog.cube(other) by {
        place_of_is_first(keys(catalog.cubes), lowercase(other));
    }
}

// ---------------------------------------------------------------------------
// Files of relations
// ---------------------------------------------------------------------------

/// Records of parents and children are stored one after the other.
pub proof fn pairs_go_in_turn<N: Number>(
    dim: DimensionModel<N>,
    hierarchy: Option<Seq<char>>,
    first: Seq<Result<Seq<Seq<char>>, Seq<char>>>,
    second: Seq<Result<Seq<Seq<char>>, Seq<char>>>,
    n: int,
)
    requires
        pairs_stored(dim, hierarchy, first, first.len() as int).1 is Ok,
        0 <= n <= second.len(),
    ensures
        ({
            let one = pairs_stored(dim, hierarchy, first, first.len() as int);
            let two = pairs_stored(one.0, hierarchy, second, n);
            let both = pairs_stored(dim, hierarchy, first + second, first.len() + n);
            &&& both.0 == two.0
            &&& both.1 is Ok == two.1 is Ok
            &&& two.1 is Ok ==> both.1->Ok_0 == one.1->Ok_0 + two.1->Ok_0
        }),
    decreases n,
{
    let whole = first + second;
    if n == 0 {
        same_pairs(dim, hierarchy, whole, first, first.len() as int);
    } else {
        pairs_go_in_turn(dim, hierarchy, first, second, n - 1);
        assert(whole[first.len() + n - 1] == second[n - 1]);
    }
}

proof fn same_pairs<N: Number>(
    dim: DimensionModel<N>,
    hierarchy: Option<Seq<char>>,
    a: Seq<Result<Seq<Seq<char>>, Seq<char>>>,
    b: Seq<Result<Seq<Seq<char>>, Seq<char>>>,
    n: int,
)
    requires
        0 <= n <= a.len(),
        n <= b.len(),
        forall|i: int| 0 <= i < n ==> a[i] == b[i],
    ensures
        pairs_stored(dim, hierarchy, a, n) == pairs_stored(dim, hierarchy, b, n),
    decreases n,
{
    if n > 0 {
        same_pairs(dim, hierarchy, a, b, n - 1);
    }
}

/// A record of a parent, a child and a weight puts the child under the parent by that
/// weight, or by one where none is written.
pub proof fn a_pair_counts_by_its_weight<N: Number>(
    dim: DimensionModel<N>,
    hierarchy: Option<Seq<char>>,
    fields: Seq<Seq<char>>,
)
    requires
        fields.len() >= 3,
        dim.sound(),
        dim.one_parent_each(),
        dim.next_id < u32::MAX - 1,
        dim.resolved(hierarchy) is Some,
    ensures
        ({
            let stored = pairs_stored(
                dim,
                hierarchy,
                seq![Ok::<Seq<Seq<char>>, Seq<char>>(fields)],
                1,
            );
            &&& stored.1 == Ok::<nat, Seq<char>>(1)
            &&& stored.0.is_component(
                hierarchy,
                fields[0],
                fields[1],
                match N::read_spec(fields[2]) {
                    Some(weight) => weight,
                    None => N::one_spec(),
                },
            )
        }),
{
    let records = seq![Ok::<Seq<Seq<char>>, Seq<char>>(fields)];
    assert(records[0] == Ok::<Seq<Seq<char>>, Seq<char>>(fields));
    assert(pairs_stored(dim, hierarchy, records, 0) == (dim, Ok::<nat, Seq<char>>(0)));
    dim.a_component_counts_by_its_weight(
        hierarchy,
        fields[0],
        fields[1],
        number_or_one(fields[2]),
    );
}

/// Records of levels are stored one after the other.
pub proof fn levels_go_in_turn<N: Number>(
    dim: DimensionModel<N>,
    hierarchy: Option<Seq<char>>,
    first: Seq<Result<Seq<Seq<char>>, Seq<char>>>,
    second: Seq<Result<Seq<Seq<char>>, Seq<char>>>,
    n: int,
)
    requires
        levels_stored(dim, hierarchy, first, first.len() as int).1 is Ok,
        0 <= n <= second.len(),
    ensures
        ({
            let one = levels_stored(dim, hierarchy, first, first.len() as int);
            let two = levels_stored(one.0, hierarchy, second, n);
            let both = levels_stored(dim, hierarchy, first + second, first.len() + n);
            &&& both.0 == two.0
            &&& both.1 is Ok == two.1 is Ok
            &&& two.1 is Ok ==> both.1->Ok_0 == one.1->Ok_0 + two.1->Ok_0
        }),
    decreases n,
{
    let whole = first + second;
    if n == 0 {
        same_levels(dim, hierarchy, whole, first, first.len() as int);
    } else {
        levels_go_in_turn(dim, hierarchy, first, second, n - 1);
        assert(whole[first.len() + n - 1] == second[n - 1]);
    }
}

proof fn same_levels<N: Number>(
    dim: DimensionModel<N>,
    hierarchy: Option<Seq<char>>,
    a: Seq<Result<Seq<Seq<char>>, Seq<char>>>,
    b: Seq<Result<Seq<Seq<char>>, Seq<char>>>,
    n: int,
)
    requires
        0 <= n <= a.len(),
        n <= b.len(),
        forall|i: int| 0 <= i < n ==> a[i] == b[i],
    ensures
        levels_stored(dim, hierarchy, a, n) == levels_stored(dim, hierarchy, b, n),
    decreases n,
{
    if n > 0 {
        same_levels(dim, hierarchy, a, b, n - 1);
    }
}

/// Going down one level more puts it under the level before it, by one.
pub proof fn a_level_is_under_the_one_before<N: Number>(
    dim: DimensionModel<N>,
    hierarchy: Option<Seq<char>>,
    levels: Seq<Seq<char>>,
    n: int,
)
    requires
        2 <= n <= levels.len(),
        ({
            let before = levels_linked(dim, hierarchy, levels, n - 1);
            &&& before.sound()
            &&& before.one_parent_each()
            &&& before.next_id < u32::MAX - 1
            &&& before.resolved(hierarchy) is Some
        }),
    ensures
        levels_linked(dim, hierarchy, levels, n).is_component(
            hierarchy,
            levels[n - 2],
            levels[n - 1],
            N::one_spec(),
        ),
{
    levels_linked(dim, hierarchy, levels, n - 1).a_component_counts_by_its_weight(
        hierarchy,
        levels[n - 2],
        levels[n - 1],
        N::one_spec(),
    );
}

/// A record of levels goes down all its fields that are not blank.
pub proof fn a_record_goes_down_its_levels<N: Number>(
    dim: DimensionModel<N>,
    hierarchy: Option<Seq<char>>,
    fields: Seq<Seq<char>>,
)
    ensures
        ({
            let levels = levels_in(fields);
            levels_stored(
                dim,
                hierarchy,
                seq![Ok::<Seq<Seq<char>>, Seq<char>>(fields)],
                1,
            ) == (
                levels_linked(dim, hierarchy, levels, levels.len() as int),
                Ok::<nat, Seq<char>>(
                    if levels.len() == 0 {
                        0
                    } else {
                        (levels.len() - 1) as nat
                    },
                ),
            )
        }),
{
    let records = seq![Ok::<Seq<Seq<char>>, Seq<char>>(fields)];
    assert(records[0] == Ok::<Seq<Seq<char>>, Seq<char>>(fields));
    assert(levels_stored(dim, hierarchy, records, 0) == (dim, Ok::<nat, Seq<char>>(0)));
}

// ---------------------------------------------------------------------------
// The command line
// ---------------------------------------------------------------------------

impl ArgsModel {
    /// What is told in front of other arguments is told: the file behind `--out` or
    /// `--golden`, `--bless`, and the script where none was told, each unless a later
    /// argument says otherwise.
    pub proof fn each_argument_is_told(self, argv: Seq<Seq<char>>, argument: Seq<char>)
        requires
            argument.len() > 0,
            argument[0] != '-',
        ensures
            self.told_from(seq!["--out"@, argument] + argv, 0) == (ArgsModel {
                out: Some(argument),
                ..self
            }).told_from(argv, 0),
            self.told_from(seq!["--golden"@, argument] + argv, 0) == (ArgsModel {
                golden: Some(argument),
                ..self
            }).told_from(argv, 0),
            self.told_from(seq!["--bless"@] + argv, 0) == (ArgsModel {
                bless: true,
                ..self
            }).told_from(argv, 0),
            self.told_from(seq![argument] + argv, 0) == (if self.script is None {
                ArgsModel { script: Some(argument), ..self }
            } else {
                self
            }).told_from(argv, 0),
    {
        reveal_strlit("--out");
        reveal_strlit("--golden");
        reveal_strlit("--bless");
        assert("--out"@[0] == '-' && "--golden"@[0] == '-' && "--bless"@[0] == '-');
        assert("--out"@.len() != "--golden"@.len());
        assert("--out"@.len() != "--bless"@.len());
        assert("--golden"@.len() != "--bless"@.len());
        let (two, three) = (seq!["--out"@, argument], seq!["--golden"@, argument]);
        (ArgsModel { out: Some(argument), ..self }).rest_is_told(two, argv, 0);
        (ArgsModel { golden: Some(argument), ..self }).rest_is_told(three, argv, 0);
        (ArgsModel { bless: true, ..self }).rest_is_told(seq!["--bless"@], argv, 0);
        (ArgsModel { script: Some(argument), ..self }).rest_is_told(seq![argument], argv, 0);
        self.rest_is_told(seq![argument], argv, 0);
        assert((two + argv)[0] == "--out"@ && (two + argv)[1] == argument);
        assert((three + argv)[0] == "--golden"@ && (three + argv)[1] == argument);
        assert((seq!["--bless"@] + argv)[0] == "--bless"@);
        assert((seq![argument] + argv)[0] == argument);
    }

    /// Arguments add the same wherever they stand.
    proof fn rest_is_told(self, front: Seq<Seq<char>>, argv: Seq<Seq<char>>, i: int)
        requires
            0 <= i <= argv.len(),
        ensures
            self.told_from(front + argv, front.len() + i) == self.told_from(argv, i),
        decreases argv.len() - i,
    {
        let all = front + argv;
        if i < argv.len() {
            let at = front.len() + i;
            assert(all[at] == argv[i]);
            if argv[i] == "--out"@ {
                if i + 1 < argv.len() {
                    assert(all[at + 1] == argv[i + 1]);
                    (ArgsModel { out: Some(argv[i + 1]), ..self }).rest_is_told(front, argv, i + 2);
                }
            } else if argv[i] == "--golden"@ {
                if i + 1 < argv.len() {
                    assert(all[at + 1] == argv[i + 1]);
                    (ArgsModel { golden: Some(argv[i + 1]), ..self }).rest_is_told(
                        front,
                        argv,
                        i + 2,
                    );
                }
            } else if argv[i] == "--bless"@ {
                (ArgsModel { bless: true, ..self }).rest_is_told(front, argv, i + 1);
            } else if self.script is None && !(argv[i].len() > 0 && argv[i][0] == '-') {
                (ArgsModel { script: Some(argv[i]), ..self }).rest_is_told(front, argv, i + 1);
            } else {
                self.rest_is_told(front, argv, i + 1);
            }
        }
    }
}

// ---------------------------------------------------------------------------
// Levels
// ---------------------------------------------------------------------------

/// The levels of a record are its fields in their order, without white space around
/// them; a field of white space is none.
pub proof fn blank_fields_are_no_levels(
    front: Seq<Seq<char>>,
    field: Seq<char>,
    back: Seq<Seq<char>>,
)
    ensures
        levels_in(front + back) == levels_in(front) + levels_in(back),
        trimmed(field).len() == 0 ==> levels_in(front.push(field)) == levels_in(front),
        trimmed(field).len() > 0 ==> levels_in(front.push(field)) == levels_in(front).push(
            trimmed(field),
        ),
    decreases back.len(),
{
    let all = front + back;
    if back.len() > 0 {
        blank_fields_are_no_levels(front, field, back.drop_last());
        assert(all.drop_last() =~= front + back.drop_last());
        assert(all.last() == back.last());
        assert(levels_in(all) =~= levels_in(front) + levels_in(back));
    } else {
        assert(all =~= front);
        assert(levels_in(all) =~= levels_in(front) + levels_in(back));
    }
    assert(front.push(field).drop_last() =~= front);
}

// ---------------------------------------------------------------------------
// Which command it is
// ---------------------------------------------------------------------------

/// A command goes by its first word. One that needs a file asks for the one that it
/// names, for the cube or the dimension that it names; saving and running ask for that;
/// the others do at once what they do.
pub proof fn commands_go_by_their_first_word<N: Number>(
    catalog: CatalogModel<N>,
    words: Seq<Seq<char>>,
)
    requires
        words.len() > 0,
    ensures
        ({
            let effect = meta_effect(catalog, words);
            let step = effect->0.step;
            &&& words[0] == ".save"@ ==> effect is Some && step == StepModel::Save
                && effect->0.catalog == catalog
            &&& words[0] == ".run"@ && words.len() == 2 ==> effect is Some && step
                == (StepModel::Run { file: words[1] }) && effect->0.catalog == catalog
            &&& words[0] == ".import"@ && words.len() == 3 && catalog.cube(words[2]) is Some
                ==> effect is Some && step == (StepModel::Import {
                file: words[1],
                cube: words[2],
            }) && effect->0.catalog == catalog
            &&& words[0] == ".import_pc"@ && words.len() == 3 ==> effect is Some && step
                == (StepModel::ImportPairs { file: words[1], dimension: words[2] })
                && effect->0.catalog == catalog
            &&& words[0] == ".import_lvl"@ && words.len() == 3 ==> effect is Some && step
                == (StepModel::ImportLevels { file: words[1], dimension: words[2] })
                && effect->0.catalog == catalog
            &&& words[0] == ".rollup"@ ==> effect == Some(rolled_up(catalog, words))
            &&& words[0] == ".detach"@ ==> effect == Some(detached(catalog, words))
            &&& words[0] == ".splash"@ ==> effect == Some(splashed(catalog, words))
            &&& words[0] == ".order"@ ==> effect == Some(ordered(catalog, words))
            &&& words[0] == ".delete_member"@ && words.len() == 3 ==> effect is Some
                && effect->0.catalog == catalog.member_deleted(words[1], words[2]).0 && step
                == StepModel::Done(catalog.member_deleted(words[1], words[2]).1 is Ok)
        }),
{
    reveal_strlit(".help");
    assert(".help"@.len() == 5);
    reveal_strlit(".save");
    assert(".save"@.len() == 5);
    reveal_strlit(".cubes");
    assert(".cubes"@.len() == 6);
    reveal_strlit(".cube");
    assert(".cube"@.len() == 5);
    reveal_strlit(".import");
    assert(".import"@.len() == 7);
    reveal_strlit(".import_pc");
    assert(".import_pc"@.len() == 10);
    reveal_strlit(".import_lvl");
    assert(".import_lvl"@.len() == 11);
    reveal_strlit(".rollup");
    assert(".rollup"@.len() == 7);
    reveal_strlit(".detach");
    assert(".detach"@.len() == 7);
    reveal_strlit(".delete_member");
    assert(".delete_member"@.len() == 14);
    reveal_strlit(".drop_member");
    assert(".drop_member"@.len() == 12);
    reveal_strlit(".splash");
    assert(".splash"@.len() == 7);
    reveal_strlit(".order");
    assert(".order"@.len() == 6);
    reveal_strlit(".dimensions");
    assert(".dimensions"@.len() == 11);
    reveal_strlit(".tree");
    assert(".tree"@.len() == 5);
    reveal_strlit(".run");
    assert(".run"@.len() == 4);
    assert(".help"@[1] != ".save"@[1]);
    assert(".help"@[1] != ".cube"@[1]);
    assert(".help"@[1] != ".tree"@[1]);
    assert(".save"@[1] != ".cube"@[1]);
    assert(".save"@[1] != ".tree"@[1]);
    assert(".cubes"@[1] != ".order"@[1]);
    assert(".cube"@[1] != ".tree"@[1]);
    assert(".import"@[1] != ".rollup"@[1]);
    assert(".import"@[1] != ".detach"@[1]);
    assert(".import"@[1] != ".splash"@[1]);
    assert(".import_lvl"@[1] != ".dimensions"@[1]);
    assert(".rollup"@[1] != ".detach"@[1]);
    assert(".rollup"@[1] != ".splash"@[1]);
    assert(".detach"@[1] != ".splash"@[1]);
}

/// Rows of a file go into the cube that was named, by any case, and into no other; where
/// the file cannot be read, nothing changes.
pub proof fn rows_go_into_the_named_cube<N: Number>(
    catalog: CatalogModel<N>,
    name: Seq<char>,
    file: Seq<char>,
    records: Seq<Result<Seq<Seq<char>>, Seq<char>>>,
    other: Seq<char>,
)
    requires
        catalog.cube(name) is Some,
    ensures
        ({
            let after = rows_effect(catalog, name, file, Some(records)).catalog;
            let stored = imported(catalog.cube(name)->0, catalog.dims, records);
            &&& after.cube(name) == Some(stored.0)
            &&& after.dims == stored.1
            &&& lowercase(other) != lowercase(name) ==> after.cube(other) == catalog.cube(other)
            &&& rows_effect(catalog, name, file, Some(records)).step == StepModel::Done(
                stored.2 is Ok,
            )
        }),
        rows_effect(catalog, name, file, None).catalog == catalog,
        rows_effect(catalog, name, file, None).step == StepModel::Done(false),
{
    let key = lowercase(name);
    place_of_is_first(keys(catalog.cubes), key);
    let place = catalog.cube_place(name)->0;
    let stored = imported(catalog.cube(name)->0, catalog.dims, records);
    let after = rows_effect(catalog, name, file, Some(records)).catalog;
    assert(keys(after.cubes) =~= keys(catalog.cubes));
    assert(keys(catalog.cubes)[place] == key);
    place_of_is_first(keys(catalog.cubes), lowercase(other));
}

} // verus!
