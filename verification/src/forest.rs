//! What becomes of the entries of a file: which of them are read, and which of those that are
//! read declare something.

use crate::constants::{
    DW_AT_sibling, DW_TAG_array_type, DW_TAG_base_type, DW_TAG_compile_unit, DW_TAG_const_type,
    DW_TAG_enumeration_type, DW_TAG_enumerator, DW_TAG_formal_parameter,
    DW_TAG_inlined_subroutine, DW_TAG_lexical_block, DW_TAG_member, DW_TAG_namespace,
    DW_TAG_pointer_type, DW_TAG_restrict_type, DW_TAG_structure_type, DW_TAG_subprogram,
    DW_TAG_subrange_type, DW_TAG_subroutine_type, DW_TAG_typedef, DW_TAG_union_type,
    DW_TAG_variable,
};
use crate::dwarf::{EntryView, Stream};
use crate::entry::{Entry, UnitEntries};
use crate::namespace::Namespace;
use crate::subprogram;
use crate::types;
use crate::types::TypeKind;
use crate::unit;
use crate::unit::{Declared, Unit};
use crate::walk;
use crate::walk::{Level, Outcome, Spot, Tree, Walk};
use std::rc::Rc;
use vstd::prelude::*;

verus! {

/// An entry of a file with the entries below it.
pub struct Node {
    pub entry: EntryView,
    pub children: Seq<Node>,
}

/// Entries as they stand in a file: each in front of those below it, with a null behind these
/// where there can be any.
pub open spec fn written(nodes: Seq<Node>) -> Seq<Option<EntryView>>
    decreases nodes,
{
    if nodes.len() == 0 {
        seq![]
    } else {
        seq![Some(nodes[0].entry)] + below(nodes[0]) + written(nodes.skip(1))
    }
}

/// What stands behind an entry and belongs to it.
pub open spec fn below(node: Node) -> Seq<Option<EntryView>>
    decreases node,
{
    if node.entry.has_children {
        written(node.children).push(None)
    } else {
        seq![]
    }
}

/// Whether nothing is broken in any of the entries, none says where its sibling is, and none
/// names a range list; and none has entries below it that says it has not.
pub open spec fn plain(nodes: Seq<Node>) -> bool
    decreases nodes,
{
    forall|i: int|
        0 <= i < nodes.len() ==> {
            let node = #[trigger] nodes[i];
            &&& node.entry.attributes.fault is None
            &&& forall|j: int|
                0 <= j < node.entry.attributes.items.len() ==> (
                #[trigger] node.entry.attributes.items[j]).name != DW_AT_sibling
            &&& walk::last_range_list(node.entry.attributes.items) is None
            &&& !node.entry.has_children ==> node.children.len() == 0
            &&& plain(node.children)
        }
}

/// What is read of an entry that is looked at in the given way.
pub open spec fn tree_of(node: Node, level: Level) -> Tree
    decreases node,
{
    Tree {
        offset: node.entry.offset,
        tag: node.entry.tag,
        attributes: node.entry.attributes.items,
        ranges: seq![],
        children: if level is Bound {
            seq![]
        } else {
            pruned(node.children, level)
        },
    }
}

/// What is read of the entries below one that is looked at in the given way.
pub open spec fn pruned(nodes: Seq<Node>, level: Level) -> Seq<Tree>
    decreases nodes,
{
    if nodes.len() == 0 {
        seq![]
    } else {
        (match level.below(nodes[0].entry.tag) {
            Some(deeper) => seq![tree_of(nodes[0], deeper)],
            None => seq![],
        }) + pruned(nodes.skip(1), level)
    }
}

/// A walk that stands at an entry or a null, with the given items ahead.
spec fn here(
    spot: Spot,
    current: Option<EntryView>,
    items: Seq<Option<EntryView>>,
    left: nat,
) -> Walk {
    Walk {
        spot: Spot { current, ahead: Stream { items, fault: spot.ahead.fault }, ..spot },
        left,
    }
}

/// The rest of passing over entries, once it is known how far below the siblings the walk is.
spec fn onward(walk: Walk, depth: nat) -> Outcome<Walk> {
    match walk.step() {
        Err(error) => Err(error),
        Ok((walk, more)) => if !more || depth == 0 {
            Ok(walk)
        } else {
            walk.skip(
                if walk.spot.current is None {
                    (depth - 1) as nat
                } else {
                    depth
                },
            )
        },
    }
}

proof fn lemma_step(
    spot: Spot,
    current: Option<EntryView>,
    next: Option<EntryView>,
    items: Seq<Option<EntryView>>,
    left: nat,
)
    requires
        left > 0,
    ensures
        here(spot, current, seq![next] + items, left).step() == Ok::<(Walk, bool), Seq<char>>(
            (here(spot, next, items, (left - 1) as nat), true),
        ),
{
    assert((seq![next] + items).skip(1) =~= items);
}

proof fn lemma_no_sibling(attributes: Stream<crate::dwarf::AttributeView>)
    requires
        attributes.fault is None,
        forall|j: int|
            0 <= j < attributes.items.len() ==> (#[trigger] attributes.items[j]).name
                != DW_AT_sibling,
    ensures
        walk::sibling(attributes) == Ok::<Option<usize>, Seq<char>>(None),
    decreases attributes.items.len(),
{
    if attributes.items.len() > 0 {
        lemma_no_sibling(attributes.rest());
    }
}

proof fn lemma_parts(nodes: Seq<Node>)
    requires
        plain(nodes),
        nodes.len() > 0,
    ensures
        plain(nodes.skip(1)),
        plain(nodes[0].children),
        walk::sibling(nodes[0].entry.attributes) == Ok::<Option<usize>, Seq<char>>(None),
        nodes[0].entry.attributes.fault is None,
        walk::last_range_list(nodes[0].entry.attributes.items) is None,
        !nodes[0].entry.has_children ==> nodes[0].children.len() == 0,
{
    let rest = nodes.skip(1);
    assert(nodes[0].entry.attributes.fault is None);
    lemma_no_sibling(nodes[0].entry.attributes);
    assert forall|i: int| 0 <= i < rest.len() implies rest[i] == #[trigger] nodes[i + 1] by {}
    assert forall|i: int| 0 <= i < rest.len() implies {
        let node = #[trigger] rest[i];
        &&& node.entry.attributes.fault is None
        &&& forall|j: int|
            0 <= j < node.entry.attributes.items.len() ==> (
            #[trigger] node.entry.attributes.items[j]).name != DW_AT_sibling
        &&& walk::last_range_list(node.entry.attributes.items) is None
        &&& !node.entry.has_children ==> node.children.len() == 0
        &&& plain(node.children)
    } by {
        assert(rest[i] == nodes[i + 1]);
    }
}

proof fn lemma_onward(
    spot: Spot,
    current: Option<EntryView>,
    nodes: Seq<Node>,
    tail: Seq<Option<EntryView>>,
    left: nat,
    depth: nat,
)
    requires
        plain(nodes),
        depth > 0,
        left >= written(nodes).len(),
    ensures
        onward(here(spot, current, written(nodes) + tail, left), depth) == onward(
            here(spot, current, tail, (left - written(nodes).len()) as nat),
            depth,
        ),
    decreases nodes,
{
    if nodes.len() == 0 {
        assert(written(nodes) + tail =~= tail);
    } else {
        let node = nodes[0];
        let rest = written(nodes.skip(1)) + tail;
        let (entry, own) = (Some(node.entry), below(node));
        lemma_parts(nodes);
        assert(written(nodes) + tail =~= seq![entry] + (own + rest));
        lemma_step(spot, current, entry, own + rest, left);
        let at = here(spot, entry, own + rest, (left - 1) as nat);
        assert(onward(here(spot, current, written(nodes) + tail, left), depth) == at.skip(depth));
        let behind = (left - 1 - own.len()) as nat;
        if node.entry.has_children {
            assert(at.over(depth) == Ok::<(Walk, nat), Seq<char>>((at, depth + 1)));
            assert(at.skip(depth) == onward(at, depth + 1));
            assert(own + rest =~= written(node.children) + (seq![None] + rest));
            lemma_onward(
                spot,
                entry,
                node.children,
                seq![None] + rest,
                (left - 1) as nat,
                depth + 1,
            );
            lemma_step(spot, entry, None, rest, behind + 1);
            let null = here(spot, None, rest, behind);
            assert(onward(at, depth + 1) == null.skip(depth));
            assert(null.over(depth) == Ok::<(Walk, nat), Seq<char>>((null, depth)));
            assert(null.skip(depth) == onward(null, depth));
            lemma_onward(spot, None, nodes.skip(1), tail, behind, depth);
            lemma_any_current(spot, None, current, tail, (left - written(nodes).len()) as nat, depth);
        } else {
            assert(own + rest =~= rest);
            assert(at.over(depth) == Ok::<(Walk, nat), Seq<char>>((at, depth)));
            assert(at.skip(depth) == onward(at, depth));
            lemma_onward(spot, entry, nodes.skip(1), tail, behind, depth);
            lemma_any_current(
                spot,
                entry,
                current,
                tail,
                (left - written(nodes).len()) as nat,
                depth,
            );
        }
    }
}

proof fn lemma_any_current(
    spot: Spot,
    a: Option<EntryView>,
    b: Option<EntryView>,
    items: Seq<Option<EntryView>>,
    left: nat,
    depth: nat,
)
    ensures
        onward(here(spot, a, items, left), depth) == onward(here(spot, b, items, left), depth),
{
}

/// To go past an entry goes past all entries below it.
proof fn lemma_past(
    spot: Spot,
    node: Node,
    next: Option<EntryView>,
    tail: Seq<Option<EntryView>>,
    left: nat,
)
    requires
        plain(seq![node]),
        left > below(node).len(),
    ensures
        here(spot, Some(node.entry), below(node) + (seq![next] + tail), left).past() == Ok::<
            Walk,
            Seq<char>,
        >(here(spot, next, tail, (left - below(node).len() - 1) as nat)),
{
    let rest = seq![next] + tail;
    let entry = Some(node.entry);
    let at = here(spot, entry, below(node) + rest, left);
    lemma_parts(seq![node]);
    if node.entry.has_children {
        let behind = (left - written(node.children).len()) as nat;
        assert(at.over(0) == Ok::<(Walk, nat), Seq<char>>((at, 1)));
        assert(at.skip(0) == onward(at, 1));
        assert(below(node) + rest =~= written(node.children) + (seq![None] + rest));
        lemma_onward(spot, entry, node.children, seq![None] + rest, left, 1);
        lemma_step(spot, entry, None, rest, behind);
        let null = here(spot, None, rest, (behind - 1) as nat);
        assert(null.over(0) == Ok::<(Walk, nat), Seq<char>>((null, 0)));
        assert(null.skip(0) == onward(null, 0));
        lemma_step(spot, None, next, tail, (behind - 1) as nat);
    } else {
        assert(below(node) + rest =~= rest);
        assert(at.over(0) == Ok::<(Walk, nat), Seq<char>>((at, 0)));
        assert(at.skip(0) == onward(at, 0));
        lemma_step(spot, entry, next, tail, left);
    }
}

/// Where a walk stands when it has read an entry.
spec fn behind(
    spot: Spot,
    node: Node,
    level: Level,
    tail: Seq<Option<EntryView>>,
    left: nat,
) -> Walk {
    if level is Bound || !node.entry.has_children {
        here(spot, Some(node.entry), below(node) + tail, left)
    } else {
        here(spot, None, tail, (left - below(node).len()) as nat)
    }
}

proof fn lemma_tree(
    spot: Spot,
    node: Node,
    level: Level,
    tail: Seq<Option<EntryView>>,
    left: nat,
)
    requires
        plain(seq![node]),
        left >= below(node).len(),
    ensures
        here(spot, Some(node.entry), below(node) + tail, left).tree(level) == Ok::<
            (Tree, Walk),
            Seq<char>,
        >((tree_of(node, level), behind(spot, node, level, tail, left))),
    decreases node, 1nat,
{
    let at = here(spot, Some(node.entry), below(node) + tail, left);
    lemma_parts(seq![node]);
    assert(at.own_ranges(level) == Ok::<Seq<crate::entry::Range>, Seq<char>>(seq![]));
    if !(level is Bound) {
        if node.entry.has_children {
            let children = node.children;
            let rest = seq![None] + tail;
            assert(below(node) + tail =~= written(children) + rest);
            if children.len() == 0 {
                assert(written(children) + rest =~= rest);
                lemma_step(spot, Some(node.entry), None, tail, left);
            } else {
                let first = children[0];
                let items = below(first) + (written(children.skip(1)) + rest);
                assert(written(children) + rest =~= seq![Some(first.entry)] + items);
                lemma_step(spot, Some(node.entry), Some(first.entry), items, left);
                lemma_siblings(spot, children, level, tail, (left - 1) as nat);
            }
        } else {
            assert(pruned(node.children, level) =~= seq![]);
        }
    }
}

proof fn lemma_siblings(
    spot: Spot,
    nodes: Seq<Node>,
    level: Level,
    tail: Seq<Option<EntryView>>,
    left: nat,
)
    requires
        plain(nodes),
        nodes.len() > 0,
        left >= written(nodes).len(),
    ensures
        here(
            spot,
            Some(nodes[0].entry),
            below(nodes[0]) + (written(nodes.skip(1)) + (seq![None] + tail)),
            left,
        ).siblings(level) == Ok::<(Seq<Tree>, Walk), Seq<char>>(
            (
                pruned(nodes, level),
                here(spot, None, tail, (left - written(nodes).len()) as nat),
            ),
        ),
    decreases nodes, 0nat,
{
    let node = nodes[0];
    let rest = nodes.skip(1);
    let after = written(rest) + (seq![None] + tail);
    let at = here(spot, Some(node.entry), below(node) + after, left);
    lemma_parts(nodes);
    assert(plain(seq![node])) by {
        assert(seq![node][0] == nodes[0]);
    }
    let (next, others) = if rest.len() == 0 {
        (None, tail)
    } else {
        (Some(rest[0].entry), below(rest[0]) + (written(rest.skip(1)) + (seq![None] + tail)))
    };
    assert(after =~= seq![next] + others);
    let gone = (left - below(node).len() - 1) as nat;
    lemma_past(spot, node, next, others, left);
    let deeper = level.below(node.entry.tag);
    if let Some(deeper) = deeper {
        lemma_tree(spot, node, deeper, after, left);
        if !(deeper is Bound) && node.entry.has_children {
            lemma_step(spot, None, next, others, (left - below(node).len()) as nat);
        }
    }
    let first = match deeper {
        Some(deeper) => seq![tree_of(node, deeper)],
        None => seq![],
    };
    assert(at.one(level) == Ok::<(Seq<Tree>, Walk), Seq<char>>(
        (first, here(spot, next, others, gone)),
    ));
    if rest.len() > 0 {
        lemma_siblings(spot, rest, level, tail, gone);
    } else {
        assert(pruned(rest, level) =~= seq![]);
        assert(pruned(nodes, level) =~= first);
    }
}

/// Reading gives back what was written: of a unit whose entries are written one after the other
/// every entry is read that is looked at below the one that holds it, with its offset, its tag
/// and its attributes, in its place; and no other.
pub proof fn lemma_written_is_read(
    spot: Spot,
    root: Node,
    tail: Seq<Option<EntryView>>,
    limit: nat,
)
    requires
        plain(seq![root]),
        root.entry.tag == DW_TAG_compile_unit,
        spot.ahead.items == written(seq![root]) + tail,
        limit >= written(seq![root]).len(),
    ensures
        walk::unit_tree(spot, limit) == Ok::<Tree, Seq<char>>(tree_of(root, Level::Scope)),
{
    let items = below(root) + tail;
    assert(seq![root].skip(1) =~= seq![]);
    assert(written(seq![root].skip(1)) =~= seq![]);
    assert(written(seq![root]) + tail =~= seq![Some(root.entry)] + items);
    let start = here(spot, spot.current, seq![Some(root.entry)] + items, limit);
    assert(start == (Walk { spot, left: limit }));
    lemma_step(spot, spot.current, Some(root.entry), items, limit);
    lemma_tree(spot, root, Level::Scope, tail, (limit - 1) as nat);
}

/// Every entry that declares something in a unit or a namespace is read, and so is every
/// namespace; nothing else is. A namespace is looked into as a unit is.
pub proof fn lemma_declarations_are_read(tag: u64)
    ensures
        Level::Scope.below(tag) is Some <==> {
            ||| Declared::Types.covers(tag)
            ||| Declared::Subprograms.covers(tag)
            ||| Declared::Variables.covers(tag)
            ||| tag == DW_TAG_namespace
        },
        Level::Scope.below(DW_TAG_namespace) == Some(Level::Scope),
        Level::Scope.below(DW_TAG_subprogram) == Some(Level::Subprogram),
        Level::Structure.below(DW_TAG_subprogram) == Some(Level::Subprogram),
        Level::Enumeration.below(DW_TAG_subprogram) == Some(Level::Subprogram),
{
}

/// What declares a type is what a type can be made of: an entry declares a type if and only if
/// it does not come out as a type that is not known.
pub proof fn lemma_type_tags_are_known<'input>(
    kind: TypeKind<'input>,
    entry: Entry<'input>,
    namespace: Rc<Namespace<'input>>,
    big_endian: bool,
)
    requires
        kind.parsed(entry, namespace, big_endian),
    ensures
        Declared::Types.covers(entry.tag) <==> !(kind is Unimplemented),
        Declared::Subprograms.covers(entry.tag) || Declared::Variables.covers(entry.tag)
            || entry.tag == DW_TAG_namespace ==> kind is Unimplemented,
        kind is Unimplemented ==> kind->Unimplemented_0 == entry.tag,
        match Level::Scope.below(entry.tag) {
            Some(Level::Structure) => kind is Struct || kind is Union,
            Some(Level::Enumeration) => kind is Enumeration,
            Some(Level::Array) => kind is Array,
            Some(Level::Subroutine) => kind is Subroutine,
            Some(Level::Plain) => !(kind is Struct || kind is Union || kind is Enumeration
                || kind is Array || kind is Subroutine),
            _ => kind is Unimplemented,
        },
{
}

/// The entries that are looked at below one.
pub open spec fn kept<'input>(entries: Seq<Entry<'input>>, level: Level) -> Seq<Entry<'input>>
    decreases entries.len(),
{
    if entries.len() == 0 {
        seq![]
    } else if level.below(entries.last().tag) is Some {
        kept(entries.drop_last(), level).push(entries.last())
    } else {
        kept(entries.drop_last(), level)
    }
}

proof fn lemma_kept_tagged<'input>(entries: Seq<Entry<'input>>, level: Level, tag: u64)
    requires
        level.below(tag) is Some,
    ensures
        types::tagged(kept(entries, level), tag) == types::tagged(entries, tag),
    decreases entries.len(),
{
    if entries.len() > 0 {
        let rest = entries.drop_last();
        lemma_kept_tagged(rest, level, tag);
        let all = kept(entries, level);
        if level.below(entries.last().tag) is Some {
            assert(all.drop_last() =~= kept(rest, level));
        }
    }
}

proof fn lemma_kept_found<'input>(entries: Seq<Entry<'input>>, level: Level, tag: u64)
    requires
        level.below(tag) is Some,
        level.below(DW_TAG_lexical_block) is Some,
    ensures
        subprogram::found(kept(entries, level), tag) == subprogram::found(entries, tag),
    decreases entries.len(),
{
    if entries.len() > 0 {
        let rest = entries.drop_last();
        lemma_kept_found(rest, level, tag);
        let all = kept(entries, level);
        if level.below(entries.last().tag) is Some {
            assert(all.drop_last() =~= kept(rest, level));
        }
    }
}

proof fn lemma_kept_in_blocks<'input>(entries: Seq<Entry<'input>>, level: Level, tag: u64)
    requires
        level.below(DW_TAG_lexical_block) is Some,
    ensures
        subprogram::found_in_blocks(kept(entries, level), tag) == subprogram::found_in_blocks(
            entries,
            tag,
        ),
    decreases entries.len(),
{
    if entries.len() > 0 {
        let rest = entries.drop_last();
        lemma_kept_in_blocks(rest, level, tag);
        let all = kept(entries, level);
        if level.below(entries.last().tag) is Some {
            assert(all.drop_last() =~= kept(rest, level));
        }
    }
}

proof fn lemma_kept_count<'input>(entries: Seq<Entry<'input>>, level: Level)
    requires
        level.below(DW_TAG_subrange_type) is Some,
    ensures
        types::count_parsed(kept(entries, level)) == types::count_parsed(entries),
    decreases entries.len(),
{
    if entries.len() > 0 {
        let rest = entries.drop_last();
        lemma_kept_count(rest, level);
        let all = kept(entries, level);
        if level.below(entries.last().tag) is Some {
            assert(all.drop_last() =~= kept(rest, level));
        }
    }
}

proof fn lemma_kept_declared<'input>(
    entries: Seq<Entry<'input>>,
    namespace: Rc<Namespace<'input>>,
    what: Declared,
)
    ensures
        unit::declared(kept(entries, Level::Scope), namespace, what) == unit::declared(
            entries,
            namespace,
            what,
        ),
    decreases entries.len(),
{
    if entries.len() > 0 {
        let rest = entries.drop_last();
        lemma_kept_declared(rest, namespace, what);
        lemma_declarations_are_read(entries.last().tag);
        let all = kept(entries, Level::Scope);
        if Level::Scope.below(entries.last().tag) is Some {
            assert(all.drop_last() =~= kept(rest, Level::Scope));
        }
    }
}

/// What is passed over makes no difference: a unit, a namespace, a structure, a union, an
/// enumeration, an array, the type of a subroutine, a subprogram, a lexical block and an
/// inlined subroutine come out alike from all the entries below them and from those that are
/// looked at.
pub proof fn lemma_what_is_passed_over_is_not_missed<'input>(
    entries: Seq<Entry<'input>>,
    namespace: Rc<Namespace<'input>>,
    what: Declared,
    big_endian: bool,
)
    ensures
        unit::declared(kept(entries, Level::Scope), namespace, what) == unit::declared(
            entries,
            namespace,
            what,
        ),
        types::members_parsed(kept(entries, Level::Structure), big_endian) == types::members_parsed(
            entries,
            big_endian,
        ),
        types::tagged(kept(entries, Level::Structure), DW_TAG_subprogram) == types::tagged(
            entries,
            DW_TAG_subprogram,
        ),
        types::enumerators_parsed(kept(entries, Level::Enumeration)) == types::enumerators_parsed(
            entries,
        ),
        types::tagged(kept(entries, Level::Enumeration), DW_TAG_subprogram) == types::tagged(
            entries,
            DW_TAG_subprogram,
        ),
        types::count_parsed(kept(entries, Level::Array)) == types::count_parsed(entries),
        types::parameters_parsed(kept(entries, Level::Subroutine)) == types::parameters_parsed(
            entries,
        ),
        types::parameters_parsed(kept(entries, Level::Subprogram)) == types::parameters_parsed(
            entries,
        ),
        subprogram::found(kept(entries, Level::Subprogram), DW_TAG_variable) == subprogram::found(
            entries,
            DW_TAG_variable,
        ),
        subprogram::found(kept(entries, Level::Subprogram), DW_TAG_inlined_subroutine)
            == subprogram::found(entries, DW_TAG_inlined_subroutine),
        subprogram::found(kept(entries, Level::Block), DW_TAG_variable) == subprogram::found(
            entries,
            DW_TAG_variable,
        ),
        subprogram::found(kept(entries, Level::Block), DW_TAG_inlined_subroutine)
            == subprogram::found(entries, DW_TAG_inlined_subroutine),
        subprogram::found(kept(entries, Level::Inlined), DW_TAG_inlined_subroutine)
            == subprogram::found(entries, DW_TAG_inlined_subroutine),
        subprogram::found_in_blocks(kept(entries, Level::Inlined), DW_TAG_variable)
            == subprogram::found_in_blocks(entries, DW_TAG_variable),
{
    lemma_kept_declared(entries, namespace, what);
    lemma_kept_tagged(entries, Level::Structure, DW_TAG_member);
    lemma_kept_tagged(entries, Level::Structure, DW_TAG_subprogram);
    lemma_kept_tagged(entries, Level::Enumeration, DW_TAG_enumerator);
    lemma_kept_tagged(entries, Level::Enumeration, DW_TAG_subprogram);
    lemma_kept_count(entries, Level::Array);
    lemma_kept_tagged(entries, Level::Subroutine, DW_TAG_formal_parameter);
    lemma_kept_tagged(entries, Level::Subprogram, DW_TAG_formal_parameter);
    lemma_kept_found(entries, Level::Subprogram, DW_TAG_variable);
    lemma_kept_found(entries, Level::Subprogram, DW_TAG_inlined_subroutine);
    lemma_kept_found(entries, Level::Block, DW_TAG_variable);
    lemma_kept_found(entries, Level::Block, DW_TAG_inlined_subroutine);
    lemma_kept_found(entries, Level::Inlined, DW_TAG_inlined_subroutine);
    lemma_kept_in_blocks(entries, Level::Inlined, DW_TAG_variable);
}

/// The offsets of the entries of a file that declare something, in a unit and in the namespaces
/// in it.
pub open spec fn declaring(nodes: Seq<Node>, what: Declared) -> Seq<usize>
    decreases nodes,
{
    if nodes.len() == 0 {
        seq![]
    } else {
        (if nodes[0].entry.tag == DW_TAG_namespace {
            declaring(nodes[0].children, what)
        } else if what.covers(nodes[0].entry.tag) {
            seq![nodes[0].entry.offset]
        } else {
            seq![]
        }) + declaring(nodes.skip(1), what)
    }
}

/// The offsets of entries that were found.
pub open spec fn offsets<'input>(entries: Seq<unit::Placed<'input>>) -> Seq<usize> {
    entries.map_values(|placed: unit::Placed<'input>| placed.0.offset)
}

proof fn lemma_declared_front<'input>(
    entries: Seq<Entry<'input>>,
    namespace: Rc<Namespace<'input>>,
    what: Declared,
)
    requires
        entries.len() > 0,
    ensures
        unit::declared(entries, namespace, what) == unit::declared(
            seq![entries[0]],
            namespace,
            what,
        ) + unit::declared(entries.skip(1), namespace, what),
    decreases entries.len(),
{
    let rest = entries.skip(1);
    if entries.len() == 1 {
        assert(entries =~= seq![entries[0]]);
        assert(unit::declared(rest, namespace, what) =~= seq![]);
        assert(unit::declared(entries, namespace, what) =~= unit::declared(
            seq![entries[0]],
            namespace,
            what,
        ) + unit::declared(rest, namespace, what));
    } else {
        let front = entries.drop_last();
        lemma_declared_front(front, namespace, what);
        assert(front[0] == entries[0]);
        assert(front.skip(1) =~= rest.drop_last());
        assert(rest.last() == entries.last());
        assert(unit::declared(entries, namespace, what) =~= unit::declared(
            seq![entries[0]],
            namespace,
            what,
        ) + unit::declared(rest, namespace, what));
    }
}

proof fn lemma_declared_of_one<'input>(
    entry: Entry<'input>,
    namespace: Rc<Namespace<'input>>,
    what: Declared,
)
    ensures
        unit::declared(seq![entry], namespace, what) == if entry.tag == DW_TAG_namespace {
            unit::declared(
                entry.children@,
                types::inside(namespace, entry.string(crate::constants::DW_AT_name)),
                what,
            )
        } else if what.covers(entry.tag) {
            seq![(entry, namespace)]
        } else {
            seq![]
        },
{
    let one = seq![entry];
    reveal_with_fuel(unit::declared, 2);
    assert(one.drop_last() =~= seq![]);
    assert(unit::declared(one.drop_last(), namespace, what) =~= seq![]);
    assert(unit::declared(one, namespace, what) =~= if entry.tag == DW_TAG_namespace {
        unit::declared(
            entry.children@,
            types::inside(namespace, entry.string(crate::constants::DW_AT_name)),
            what,
        )
    } else if what.covers(entry.tag) {
        seq![(entry, namespace)]
    } else {
        seq![]
    });
}

proof fn lemma_declaring_is_declared<'input>(
    nodes: Seq<Node>,
    entries: Seq<Entry<'input>>,
    strings: Seq<u8>,
    namespace: Rc<Namespace<'input>>,
    what: Declared,
)
    requires
        walk::entries_read(entries, pruned(nodes, Level::Scope), strings),
    ensures
        offsets(unit::declared(entries, namespace, what)) == declaring(nodes, what),
    decreases nodes,
{
    if nodes.len() == 0 {
        assert(offsets(unit::declared(entries, namespace, what)) =~= declaring(nodes, what));
    } else {
        let node = nodes[0];
        let trees = pruned(nodes, Level::Scope);
        let others = pruned(nodes.skip(1), Level::Scope);
        lemma_declarations_are_read(node.entry.tag);
        if let Some(deeper) = Level::Scope.below(node.entry.tag) {
            let rest = entries.skip(1);
            let first = entries[0];
            assert(trees[0] == tree_of(node, deeper));
            assert(trees.skip(1) =~= others);
            assert(walk::entries_read(rest, others, strings)) by {
                assert forall|i: int| 0 <= i < rest.len() implies (#[trigger] rest[i]).reads(
                    others[i],
                    strings,
                ) by {
                    assert(entries[i + 1].reads(trees[i + 1], strings));
                }
            }
            assert(first.reads(trees[0], strings));
            lemma_declared_front(entries, namespace, what);
            lemma_declared_of_one(first, namespace, what);
            lemma_declaring_is_declared(nodes.skip(1), rest, strings, namespace, what);
            if node.entry.tag == DW_TAG_namespace {
                let inner = types::inside(
                    namespace,
                    first.string(crate::constants::DW_AT_name),
                );
                assert(deeper == Level::Scope);
                lemma_declaring_is_declared(
                    node.children,
                    first.children@,
                    strings,
                    inner,
                    what,
                );
            }
            let own = unit::declared(seq![first], namespace, what);
            let more = unit::declared(rest, namespace, what);
            assert(offsets(own + more) =~= offsets(own) + offsets(more));
            assert(offsets(unit::declared(entries, namespace, what)) =~= declaring(nodes, what));
        } else {
            assert(trees =~= others);
            lemma_declaring_is_declared(nodes.skip(1), entries, strings, namespace, what);
            assert(offsets(unit::declared(entries, namespace, what)) =~= declaring(nodes, what));
        }
    }
}

/// What a unit declares is what its file declares: the types of the unit that is read come one
/// for one from the entries that declare types, by their offsets, in the order of the file; so
/// do its subprograms; and it has as many variables as entries declare.
pub proof fn lemma_unit_declares_what_file_declares<'input>(
    root: Node,
    entries: UnitEntries<'input>,
    strings: Seq<u8>,
    result: Unit<'input>,
    big_endian: bool,
)
    requires
        entries.root.reads(tree_of(root, Level::Scope), strings),
        result.parsed(entries, big_endian),
    ensures
        result.types@.len() == declaring(root.children, Declared::Types).len(),
        forall|i: int|
            0 <= i < result.types@.len() ==> (#[trigger] result.types@[i]).offset == declaring(
                root.children,
                Declared::Types,
            )[i],
        result.subprograms@.len() == declaring(root.children, Declared::Subprograms).len(),
        forall|i: int|
            0 <= i < result.subprograms@.len() ==> (#[trigger] result.subprograms@[i]).offset
                == declaring(root.children, Declared::Subprograms)[i],
        result.variables@.len() == declaring(root.children, Declared::Variables).len(),
{
    let outermost = Rc::new(Namespace { parent: None, name: None });
    let list = entries.root.children@;
    assert(walk::entries_read(list, pruned(root.children, Level::Scope), strings));
    lemma_declaring_is_declared(root.children, list, strings, outermost, Declared::Types);
    lemma_declaring_is_declared(root.children, list, strings, outermost, Declared::Subprograms);
    lemma_declaring_is_declared(root.children, list, strings, outermost, Declared::Variables);
    let types = unit::declared(list, outermost, Declared::Types);
    let subprograms = unit::declared(list, outermost, Declared::Subprograms);
    let variables = unit::declared(list, outermost, Declared::Variables);
    assert(offsets(types).len() == types.len());
    assert(offsets(subprograms).len() == subprograms.len());
    assert(offsets(variables).len() == variables.len());
    assert forall|i: int| 0 <= i < result.types@.len() implies (
    #[trigger] result.types@[i]).offset == declaring(root.children, Declared::Types)[i] by {
        assert(offsets(types)[i] == types[i].0.offset);
    }
    assert forall|i: int| 0 <= i < result.subprograms@.len() implies (
    #[trigger] result.subprograms@[i]).offset == declaring(
        root.children,
        Declared::Subprograms,
    )[i] by {
        assert(offsets(subprograms)[i] == subprograms[i].0.offset);
    }
}

proof fn lemma_declared_parts<'input>(
    a: Seq<Entry<'input>>,
    b: Seq<Entry<'input>>,
    namespace: Rc<Namespace<'input>>,
    what: Declared,
)
    ensures
        unit::declared(a + b, namespace, what) == unit::declared(a, namespace, what)
            + unit::declared(b, namespace, what),
    decreases b.len(),
{
    if b.len() == 0 {
        assert(a + b =~= a);
    } else {
        assert((a + b).drop_last() =~= a + b.drop_last());
        lemma_declared_parts(a, b.drop_last(), namespace, what);
    }
    assert(unit::declared(a + b, namespace, what) =~= unit::declared(a, namespace, what)
        + unit::declared(b, namespace, what));
}

/// What entries declare they declare one by one, in the namespace that they stand in: what two
/// lists declare is what the first declares and then what the second does, a declaring entry
/// declares itself, and a namespace declares what stands in it, in a namespace of its name.
pub proof fn lemma_declarations_stand_in_their_namespace<'input>(
    a: Seq<Entry<'input>>,
    b: Seq<Entry<'input>>,
    entry: Entry<'input>,
    namespace: Rc<Namespace<'input>>,
    what: Declared,
)
    ensures
        unit::declared(a + b, namespace, what) == unit::declared(a, namespace, what)
            + unit::declared(b, namespace, what),
        what.covers(entry.tag) && entry.tag != DW_TAG_namespace ==> unit::declared(
            seq![entry],
            namespace,
            what,
        ) == seq![(entry, namespace)],
        !what.covers(entry.tag) && entry.tag != DW_TAG_namespace ==> unit::declared(
            seq![entry],
            namespace,
            what,
        ) == Seq::<unit::Placed<'input>>::empty(),
        entry.tag == DW_TAG_namespace ==> {
            let inner = types::inside(namespace, entry.string(crate::constants::DW_AT_name));
            &&& inner.path() == namespace.path().push(entry.string(crate::constants::DW_AT_name))
            &&& unit::declared(seq![entry], namespace, what) == unit::declared(
                entry.children@,
                inner,
                what,
            )
        },
{
    lemma_declared_parts(a, b, namespace, what);
    lemma_declared_of_one(entry, namespace, what);
}

/// What an entry's tag says it is it becomes: each kind of type comes from its own tag, with
/// the offset of the entry.
pub proof fn lemma_tags_make_kinds<'input>(
    ty: types::Type<'input>,
    entry: Entry<'input>,
    namespace: Rc<Namespace<'input>>,
    big_endian: bool,
)
    requires
        ty.parsed(entry, namespace, big_endian),
    ensures
        ty.offset == entry.offset,
        ty.kind is Base <==> entry.tag == DW_TAG_base_type,
        ty.kind is TypeDef <==> entry.tag == DW_TAG_typedef,
        ty.kind is Struct <==> entry.tag == DW_TAG_structure_type,
        ty.kind is Union <==> entry.tag == DW_TAG_union_type,
        ty.kind is Enumeration <==> entry.tag == DW_TAG_enumeration_type,
        ty.kind is Array <==> entry.tag == DW_TAG_array_type,
        ty.kind is Subroutine <==> entry.tag == DW_TAG_subroutine_type,
        (ty.kind matches TypeKind::Modifier(val) && val.kind is Const) <==> entry.tag
            == DW_TAG_const_type,
        (ty.kind matches TypeKind::Modifier(val) && val.kind is Pointer) <==> entry.tag
            == DW_TAG_pointer_type,
        (ty.kind matches TypeKind::Modifier(val) && val.kind is Restrict) <==> entry.tag
            == DW_TAG_restrict_type,
        match ty.kind {
            TypeKind::Base(val) => val == types::BaseType::parsed(entry),
            TypeKind::TypeDef(val) => val == types::TypeDef::parsed(entry, namespace),
            TypeKind::Struct(val) => val.parsed(entry, namespace, big_endian),
            TypeKind::Union(val) => val.parsed(entry, namespace, big_endian),
            TypeKind::Enumeration(val) => val.parsed(entry, namespace),
            TypeKind::Array(val) => val == types::ArrayType::parsed(entry),
            TypeKind::Subroutine(val) => val.parsed(entry),
            TypeKind::Modifier(val) => val == types::TypeModifier::parsed(
                entry,
                namespace,
                val.kind,
            ),
            TypeKind::Unimplemented(tag) => tag == entry.tag,
        },
{
}

/// Each type, subprogram and variable of a unit is made of the entry that declares it, in its
/// place and its namespace.
pub proof fn lemma_declarations_become_what_they_say<'input>(
    result: Unit<'input>,
    entries: UnitEntries<'input>,
    big_endian: bool,
    i: int,
)
    requires
        result.parsed(entries, big_endian),
    ensures
        ({
            let outermost = Rc::new(Namespace { parent: None, name: None });
            let list = entries.root.children@;
            let types = unit::declared(list, outermost, Declared::Types);
            let subprograms = unit::declared(list, outermost, Declared::Subprograms);
            let variables = unit::declared(list, outermost, Declared::Variables);
            &&& outermost.path().len() == 0
            &&& result.types@.len() == types.len()
            &&& 0 <= i < types.len() ==> {
                let (entry, namespace) = types[i];
                result.types@[i].parsed(entry, namespace, big_endian)
            }
            &&& result.subprograms@.len() == subprograms.len()
            &&& 0 <= i < subprograms.len() ==> {
                let (entry, namespace) = subprograms[i];
                result.subprograms@[i].parsed(entry, namespace)
            }
            &&& result.variables@.len() == variables.len()
            &&& 0 <= i < variables.len() ==> {
                let (entry, namespace) = variables[i];
                result.variables@[i] == subprogram::Variable::parsed(entry, namespace)
            }
        }),
{
}

} // verus!
