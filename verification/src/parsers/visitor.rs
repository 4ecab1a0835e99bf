//! AST visitor trait and its traversal.
//!
//! An [`AstVisitor`] is called, pre-order, on every block- and inline-level
//! node of a [`Document`](super::Document).  It may mutate the node in
//! place and returns a control value asking for nodes to be inserted before
//! or after it, for the node to be replaced, removed, or recursed into.
//!
//! The traversal applies each control with [`apply_control`], whose
//! contract states exactly what becomes of the sibling list.  Replacement
//! nodes are visited in turn; a sibling list stops re-visiting replacements
//! after `u64::MAX` of them, and the traversal descends at most `u64::MAX`
//! levels, so that every traversal ends.
//!
//! Each traversal hands back, as a ghost value, the visits it made: a
//! [`VisitStep`] per call, with the node it handed over, the node the
//! visitor left and the control it answered.  [`walk_blocks`] and
//! [`walk_inlines`] state how such a sequence of answers, consumed in
//! pre-order, determines the resulting tree; the laws at the end of this
//! module state what keeping, removing, replacing, inserting and filtering
//! do to a sibling list.

use crate::tokens::token::{Block, Inline, ListItem, Table, TableCell, TableRow};
use vstd::prelude::*;

verus! {

/// Visitor over AST nodes: implement it to receive a callback for every
/// block- and inline-level node.  Each method receives the node mutably
/// and returns a control value; the defaults keep the node and do not
/// recurse.
pub trait AstVisitor {
    /// Called for every block-level node (pre-order).  By default the
    /// visitor and the block stay as they are and the block is kept,
    /// without recursing into it.
    fn visit_block(&mut self, block: &mut Block) -> (c: VisitControl) where Self: Sized
        default_ensures
            *final(self) == *old(self),
            *final(block) == *old(block),
            c.insert_before@.len() == 0,
            c.insert_after@.len() == 0,
            c.replace_with is None,
            !c.remove,
            !c.recurse,
    {
        VisitControl::default()
    }

    /// Called for every inline-level node (pre-order).  By default the
    /// visitor and the node stay as they are and the node is kept, without
    /// recursing into it.
    fn visit_inline(&mut self, inline: &mut Inline) -> (c: InlineVisitControl) where Self: Sized
        default_ensures
            *final(self) == *old(self),
            *final(inline) == *old(inline),
            c.insert_before@.len() == 0,
            c.insert_after@.len() == 0,
            c.replace_with is None,
            !c.remove,
            !c.recurse,
    {
        InlineVisitControl::default()
    }
}

/// Control returned from `visit_block` describing edits to perform.
#[derive(Debug)]
pub struct VisitControl {
    /// Nodes to insert before the current node's position.
    pub insert_before: Vec<Block>,
    /// Nodes to insert after the current node's position.
    pub insert_after: Vec<Block>,
    /// Replace the current node with these nodes.
    pub replace_with: Option<Vec<Block>>,
    /// Remove the current node entirely.
    pub remove: bool,
    /// Whether to recurse into this node's child nodes.  Default `false`.
    pub recurse: bool,
}

impl Default for VisitControl {
    fn default() -> (r: Self)
        ensures
            r.insert_before@.len() == 0,
            r.insert_after@.len() == 0,
            r.replace_with is None,
            !r.remove,
            !r.recurse,
    {
        VisitControl {
            insert_before: Vec::new(),
            insert_after: Vec::new(),
            replace_with: None,
            remove: false,
            recurse: false,
        }
    }
}

impl VisitControl {
    /// Keep the (possibly mutated) node and recurse into its children.
    pub fn keep_and_recurse() -> (r: Self)
        ensures
            r.insert_before@.len() == 0,
            r.insert_after@.len() == 0,
            r.replace_with is None,
            !r.remove,
            r.recurse,
    {
        VisitControl {
            insert_before: Vec::new(),
            insert_after: Vec::new(),
            replace_with: None,
            remove: false,
            recurse: true,
        }
    }

    /// Remove the node.
    pub fn remove() -> (r: Self)
        ensures
            r.insert_before@.len() == 0,
            r.insert_after@.len() == 0,
            r.replace_with is None,
            r.remove,
            !r.recurse,
    {
        VisitControl {
            insert_before: Vec::new(),
            insert_after: Vec::new(),
            replace_with: None,
            remove: true,
            recurse: false,
        }
    }

    /// Replace the node with the given nodes.
    pub fn replace_with(nodes: Vec<Block>) -> (r: Self)
        ensures
            r.insert_before@.len() == 0,
            r.insert_after@.len() == 0,
            r.replace_with == Some(nodes),
            !r.remove,
            !r.recurse,
    {
        VisitControl {
            insert_before: Vec::new(),
            insert_after: Vec::new(),
            replace_with: Some(nodes),
            remove: false,
            recurse: false,
        }
    }
}

/// Control returned from `visit_inline`: the same edits for inline nodes.
#[derive(Debug)]
pub struct InlineVisitControl {
    /// Nodes to insert before the current node's position.
    pub insert_before: Vec<Inline>,
    /// Nodes to insert after the current node's position.
    pub insert_after: Vec<Inline>,
    /// Replace the current node with these nodes.
    pub replace_with: Option<Vec<Inline>>,
    /// Remove the current node entirely.
    pub remove: bool,
    /// Whether to recurse into this node's child nodes.
    pub recurse: bool,
}

impl Default for InlineVisitControl {
    fn default() -> (r: Self)
        ensures
            r.insert_before@.len() == 0,
            r.insert_after@.len() == 0,
            r.replace_with is None,
            !r.remove,
            !r.recurse,
    {
        InlineVisitControl {
            insert_before: Vec::new(),
            insert_after: Vec::new(),
            replace_with: None,
            remove: false,
            recurse: false,
        }
    }
}

impl InlineVisitControl {
    /// Keep the (possibly mutated) node and recurse into its children.
    pub fn keep_and_recurse() -> (r: Self)
        ensures
            r.insert_before@.len() == 0,
            r.insert_after@.len() == 0,
            r.replace_with is None,
            !r.remove,
            r.recurse,
    {
        InlineVisitControl {
            insert_before: Vec::new(),
            insert_after: Vec::new(),
            replace_with: None,
            remove: false,
            recurse: true,
        }
    }

    /// Remove the node.
    pub fn remove() -> (r: Self)
        ensures
            r.insert_before@.len() == 0,
            r.insert_after@.len() == 0,
            r.replace_with is None,
            r.remove,
            !r.recurse,
    {
        InlineVisitControl {
            insert_before: Vec::new(),
            insert_after: Vec::new(),
            replace_with: None,
            remove: true,
            recurse: false,
        }
    }

    /// Replace the node with the given nodes.
    pub fn replace_with(nodes: Vec<Inline>) -> (r: Self)
        ensures
            r.insert_before@.len() == 0,
            r.insert_after@.len() == 0,
            r.replace_with == Some(nodes),
            !r.remove,
            !r.recurse,
    {
        InlineVisitControl {
            insert_before: Vec::new(),
            insert_after: Vec::new(),
            replace_with: Some(nodes),
            remove: false,
            recurse: false,
        }
    }
}

/// A visitor's control with its options made explicit: a missing list is
/// empty, a missing flag is `false`.
#[derive(Debug)]
pub struct VisitControlJs {
    /// Nodes to insert before the current node.
    pub insert_before: Option<Vec<Block>>,
    /// Nodes to insert after the current node.
    pub insert_after: Option<Vec<Block>>,
    /// Replace the current node with these nodes.
    pub replace_with: Option<Vec<Block>>,
    /// Remove the current node entirely.
    pub remove: Option<bool>,
    /// Whether to recurse into this node's children.
    pub recurse: Option<bool>,
}

/// The inline counterpart of [`VisitControlJs`].
#[derive(Debug)]
pub struct InlineVisitControlJs {
    /// Nodes to insert before the current node.
    pub insert_before: Option<Vec<Inline>>,
    /// Nodes to insert after the current node.
    pub insert_after: Option<Vec<Inline>>,
    /// Replace the current node with these nodes.
    pub replace_with: Option<Vec<Inline>>,
    /// Remove the current node entirely.
    pub remove: Option<bool>,
    /// Whether to recurse into this node's children.
    pub recurse: Option<bool>,
}

/// The list of an optional list (empty when absent).
pub open spec fn list_or_empty<T>(o: Option<Vec<T>>) -> Seq<T> {
    match o {
        Some(v) => v@,
        None => Seq::empty(),
    }
}

/// The flag of an optional flag (`false` when absent).
pub open spec fn flag_or_false(o: Option<bool>) -> bool {
    match o {
        Some(b) => b,
        None => false,
    }
}

fn vec_or_empty<T>(o: Option<Vec<T>>) -> (r: Vec<T>)
    ensures
        r@ == list_or_empty(o),
{
    match o {
        Some(v) => v,
        None => Vec::new(),
    }
}

fn flag_of(o: Option<bool>) -> (r: bool)
    ensures
        r == flag_or_false(o),
{
    match o {
        Some(b) => b,
        None => false,
    }
}

impl vstd::std_specs::convert::FromSpecImpl<VisitControlJs> for VisitControl {
    open spec fn obeys_from_spec() -> bool {
        false
    }

    open spec fn from_spec(v: VisitControlJs) -> VisitControl {
        vstd::pervasive::arbitrary()
    }
}

impl vstd::std_specs::convert::FromSpecImpl<InlineVisitControlJs> for InlineVisitControl {
    open spec fn obeys_from_spec() -> bool {
        false
    }

    open spec fn from_spec(v: InlineVisitControlJs) -> InlineVisitControl {
        vstd::pervasive::arbitrary()
    }
}

impl From<VisitControlJs> for VisitControl {
    fn from(js: VisitControlJs) -> (r: Self)
        ensures
            r.insert_before@ == list_or_empty(js.insert_before),
            r.insert_after@ == list_or_empty(js.insert_after),
            r.replace_with == js.replace_with,
            r.remove == flag_or_false(js.remove),
            r.recurse == flag_or_false(js.recurse),
    {
        VisitControl {
            insert_before: vec_or_empty(js.insert_before),
            insert_after: vec_or_empty(js.insert_after),
            replace_with: js.replace_with,
            remove: flag_of(js.remove),
            recurse: flag_of(js.recurse),
        }
    }
}

impl From<InlineVisitControlJs> for InlineVisitControl {
    fn from(js: InlineVisitControlJs) -> (r: Self)
        ensures
            r.insert_before@ == list_or_empty(js.insert_before),
            r.insert_after@ == list_or_empty(js.insert_after),
            r.replace_with == js.replace_with,
            r.remove == flag_or_false(js.remove),
            r.recurse == flag_or_false(js.recurse),
    {
        InlineVisitControl {
            insert_before: vec_or_empty(js.insert_before),
            insert_after: vec_or_empty(js.insert_after),
            replace_with: js.replace_with,
            remove: flag_of(js.remove),
            recurse: flag_of(js.recurse),
        }
    }
}

// ---------------------------------------------------------------------------
// Applying a control
// ---------------------------------------------------------------------------

/// The sibling list and the next index to visit after the node taken out
/// at `i` of `c` is handled: removed (the nodes to insert before and after
/// it take its place), replaced (the nodes to insert before it, the
/// replacements, then the nodes to insert after it), or put back between
/// the nodes to insert before and after it.  The next index is past all of
/// them: inserted nodes are not visited, and replacements are visited
/// before they are put in.
pub open spec fn applied<T>(
    c: Seq<T>,
    i: int,
    node: T,
    before: Seq<T>,
    after: Seq<T>,
    replace: Option<Seq<T>>,
    remove: bool,
) -> (Seq<T>, int) {
    if remove {
        (c.take(i) + before + after + c.skip(i), i + before.len() + after.len())
    } else {
        match replace {
            Some(r) => (c.take(i) + before + r + after + c.skip(i), i + before.len() + r.len() + after.len()),
            None => (c.take(i) + before + seq![node] + after + c.skip(i), i + before.len() + 1 + after.len()),
        }
    }
}

/// The optional replacement list as a sequence.
pub open spec fn opt_seq<T>(o: Option<Vec<T>>) -> Option<Seq<T>> {
    match o {
        Some(v) => Some(v@),
        None => None,
    }
}

/// Insert `items` (in order) at index `i`.
fn splice_at<T>(children: &mut Vec<T>, i: usize, items: Vec<T>) -> (n: usize)
    requires
        i <= old(children)@.len(),
    ensures
        final(children)@ == old(children)@.take(i as int) + items@ + old(children)@.skip(i as int),
        n == items@.len(),
{
    let ghost c = children@;
    let ghost all = items@;
    let mut items = items;
    let n = items.len();
    assert(c.take(i as int) + all.subrange(n as int, n as int) + c.skip(i as int) =~= c);
    assert(c.take(i as int) + c.skip(i as int) =~= c);
    while items.len() > 0
        invariant
            i <= c.len(),
            n == all.len(),
            items@.len() <= n,
            items@ == all.take(items@.len() as int),
            children@ == c.take(i as int) + all.subrange(items@.len() as int, n as int) + c.skip(i as int),
        decreases items@.len(),
    {
        let ghost k = items@.len() as int;
        let x = items.pop().unwrap();
        assert(x == all[k - 1]);
        assert(children@.len() >= i);
        assert(children@.take(i as int) =~= c.take(i as int));
        children.insert(i, x);
        assert(items@ =~= all.take(k - 1));
        assert(children@ =~= c.take(i as int) + all.subrange(k - 1, n as int) + c.skip(i as int));
    }
    assert(all.subrange(0, n as int) =~= all);
    n
}

/// Apply the control of the node taken out at `i`: the list becomes
/// `applied(..).0` and the result is the next index to visit, `applied(..).1`.
pub fn apply_control<T>(
    children: &mut Vec<T>,
    i: usize,
    node: T,
    before: Vec<T>,
    after: Vec<T>,
    replace: Option<Vec<T>>,
    remove: bool,
) -> (next: usize)
    requires
        i <= old(children)@.len(),
    ensures
        final(children)@ == applied(old(children)@, i as int, node, before@, after@, opt_seq(replace), remove).0,
        next == applied(old(children)@, i as int, node, before@, after@, opt_seq(replace), remove).1,
        next <= final(children)@.len(),
{
    let ghost c = children@;
    let ghost b = before@;
    let ghost a = after@;
    let nb = splice_at(children, i, before);
    let _len0 = children.len();
    let j = i + nb;
    let ghost c1 = children@;
    assert(c1.take(j as int) =~= c.take(i as int) + b);
    assert(c1.skip(j as int) =~= c.skip(i as int));
    if remove {
        let na = splice_at(children, j, after);
        let _len1 = children.len();
        assert(children@ =~= c.take(i as int) + b + a + c.skip(i as int));
        return j + na;
    }
    let k = match replace {
        Some(reps) => {
            let nr = splice_at(children, j, reps);
            let _len2 = children.len();
            j + nr
        },
        None => {
            children.insert(j, node);
            let _len3 = children.len();
            j + 1
        },
    };
    let ghost c2 = children@;
    assert(c2.take(k as int) =~= c.take(i as int) + b + (match opt_seq(replace) {
        Some(r) => r,
        None => seq![node],
    }));
    assert(c2.skip(k as int) =~= c.skip(i as int));
    let na = splice_at(children, k, after);
    let _len4 = children.len();
    assert(children@ =~= c.take(i as int) + b + (match opt_seq(replace) {
        Some(r) => r,
        None => seq![node],
    }) + a + c.skip(i as int));
    k + na
}

// ---------------------------------------------------------------------------
// The traversal, as a walk over the visitor's answers
// ---------------------------------------------------------------------------

/// One visit of a traversal: the node handed to the visitor (`given`), the
/// node as the visitor left it (`node`), the control it returned (its
/// lists and flags), and the node after its children were visited
/// (`done`).
pub enum VisitStep {
    /// A visit of a block.
    Block {
        given: Block,
        node: Block,
        before: Seq<Block>,
        after: Seq<Block>,
        replace: Option<Seq<Block>>,
        remove: bool,
        recurse: bool,
        done: Block,
    },
    /// A visit of an inline node.
    Inline {
        given: Inline,
        node: Inline,
        before: Seq<Inline>,
        after: Seq<Inline>,
        replace: Option<Seq<Inline>>,
        remove: bool,
        recurse: bool,
        done: Inline,
    },
}

/// The replacement budget of a sibling list that is not itself a list of
/// replacements.
pub open spec fn full_budget() -> nat {
    u64::MAX as nat
}

/// The walk of the sibling list `c` from index `i`, at depth `d` (how many
/// more levels it may descend) and replacement budget `bud`, over the
/// visits `tr` in pre-order: each node is handed to the visitor; if the
/// visitor keeps it and asks to recurse (and `d > 0`), its children are
/// walked one level down; replacements (while `bud > 0`) are walked as a
/// list of their own before they are put in; then the control is applied
/// and the walk goes on past what was put in.  The result is the final
/// list and the visits left over, or `None` when `tr` does not fit.
pub open spec fn walk_blocks(c: Seq<Block>, i: int, d: nat, bud: nat, tr: Seq<VisitStep>) -> Option<
    (Seq<Block>, Seq<VisitStep>),
>
    decreases tr.len(), 0nat, 0int,
{
    if i < 0 || i >= c.len() {
        Some((c, tr))
    } else if tr.len() == 0 {
        None
    } else {
        let rest = tr.drop_first();
        match tr[0] {
            VisitStep::Block { given, node, before, after, replace, remove, recurse, done } => if given != c[i] {
                None
            } else {
                let desc = if !remove && replace is None && recurse && d > 0 {
                    descend_block(node, done, (d - 1) as nat, rest)
                } else if done == node {
                    Some(rest)
                } else {
                    None
                };
                match desc {
                    None => None,
                    Some(r1) => if r1.len() > rest.len() {
                        None
                    } else {
                        let visited = match replace {
                            Some(reps) => if !remove && bud > 0 {
                                walk_blocks(reps, 0, d, (bud - 1) as nat, r1)
                            } else {
                                Some((reps, r1))
                            },
                            None => Some((Seq::empty(), r1)),
                        };
                        match visited {
                            None => None,
                            Some((reps2, r2)) => if r2.len() > rest.len() {
                                None
                            } else {
                                let rep = match replace {
                                    Some(_) => Some(reps2),
                                    None => None,
                                };
                                let (c2, next) = applied(c.remove(i), i, done, before, after, rep, remove);
                                walk_blocks(c2, next, d, bud, r2)
                            },
                        }
                    },
                }
            },
            VisitStep::Inline { .. } => None,
        }
    }
}

/// The walk of the sibling inline list `c` (as [`walk_blocks`]).
pub open spec fn walk_inlines(c: Seq<Inline>, i: int, d: nat, bud: nat, tr: Seq<VisitStep>) -> Option<
    (Seq<Inline>, Seq<VisitStep>),
>
    decreases tr.len(), 0nat, 0int,
{
    if i < 0 || i >= c.len() {
        Some((c, tr))
    } else if tr.len() == 0 {
        None
    } else {
        let rest = tr.drop_first();
        match tr[0] {
            VisitStep::Inline { given, node, before, after, replace, remove, recurse, done } => if given != c[i] {
                None
            } else {
                let desc = if !remove && replace is None && recurse && d > 0 {
                    descend_inline(node, done, (d - 1) as nat, rest)
                } else if done == node {
                    Some(rest)
                } else {
                    None
                };
                match desc {
                    None => None,
                    Some(r1) => if r1.len() > rest.len() {
                        None
                    } else {
                        let visited = match replace {
                            Some(reps) => if !remove && bud > 0 {
                                walk_inlines(reps, 0, d, (bud - 1) as nat, r1)
                            } else {
                                Some((reps, r1))
                            },
                            None => Some((Seq::empty(), r1)),
                        };
                        match visited {
                            None => None,
                            Some((reps2, r2)) => if r2.len() > rest.len() {
                                None
                            } else {
                                let rep = match replace {
                                    Some(_) => Some(reps2),
                                    None => None,
                                };
                                let (c2, next) = applied(c.remove(i), i, done, before, after, rep, remove);
                                walk_inlines(c2, next, d, bud, r2)
                            },
                        }
                    },
                }
            },
            VisitStep::Block { .. } => None,
        }
    }
}

/// Walking the whole block list `c` over `tr` gives `c2`, with `r` left over.
pub open spec fn blocks_to(c: Seq<Block>, c2: Seq<Block>, d: nat, tr: Seq<VisitStep>) -> Option<Seq<VisitStep>>
    decreases tr.len(), 1nat, 0int,
{
    match walk_blocks(c, 0, d, full_budget(), tr) {
        Some((res, r)) => if res == c2 && r.len() <= tr.len() {
            Some(r)
        } else {
            None
        },
        None => None,
    }
}

/// Walking the whole inline list `c` over `tr` gives `c2`, with `r` left over.
pub open spec fn inlines_to(c: Seq<Inline>, c2: Seq<Inline>, d: nat, tr: Seq<VisitStep>) -> Option<
    Seq<VisitStep>,
>
    decreases tr.len(), 1nat, 0int,
{
    match walk_inlines(c, 0, d, full_budget(), tr) {
        Some((res, r)) => if res == c2 && r.len() <= tr.len() {
            Some(r)
        } else {
            None
        },
        None => None,
    }
}

/// The items of a list from `k` on: each item's blocks are walked in turn;
/// its task state and span stay.
pub open spec fn items_walk(items: Seq<ListItem>, items2: Seq<ListItem>, k: int, d: nat, tr: Seq<VisitStep>) -> Option<
    Seq<VisitStep>,
>
    decreases tr.len(), 2nat, items.len() - k,
{
    if items.len() != items2.len() {
        None
    } else if k < 0 || k >= items.len() {
        Some(tr)
    } else if items[k].task != items2[k].task || items[k].pos != items2[k].pos {
        None
    } else {
        match blocks_to(items[k].children@, items2[k].children@, d, tr) {
            Some(r) => if r.len() <= tr.len() {
                items_walk(items, items2, k + 1, d, r)
            } else {
                None
            },
            None => None,
        }
    }
}

/// The cells of a row from `k` on: each cell's inlines are walked in turn.
pub open spec fn cells_walk(cells: Seq<TableCell>, cells2: Seq<TableCell>, k: int, d: nat, tr: Seq<VisitStep>) -> Option<
    Seq<VisitStep>,
>
    decreases tr.len(), 2nat, cells.len() - k,
{
    if cells.len() != cells2.len() {
        None
    } else if k < 0 || k >= cells.len() {
        Some(tr)
    } else {
        match inlines_to(cells[k].children@, cells2[k].children@, d, tr) {
            Some(r) => if r.len() <= tr.len() {
                cells_walk(cells, cells2, k + 1, d, r)
            } else {
                None
            },
            None => None,
        }
    }
}

/// The body rows of a table from `k` on: each row's cells in turn.
pub open spec fn rows_walk(rows: Seq<TableRow>, rows2: Seq<TableRow>, k: int, d: nat, tr: Seq<VisitStep>) -> Option<
    Seq<VisitStep>,
>
    decreases tr.len(), 3nat, rows.len() - k,
{
    if rows.len() != rows2.len() {
        None
    } else if k < 0 || k >= rows.len() {
        Some(tr)
    } else {
        match cells_walk(rows[k].cells@, rows2[k].cells@, 0, d, tr) {
            Some(r) => if r.len() <= tr.len() {
                rows_walk(rows, rows2, k + 1, d, r)
            } else {
                None
            },
            None => None,
        }
    }
}

/// A table's cells, header first, then the rows: the alignments stay.
pub open spec fn table_walk(t: Table, t2: Table, d: nat, tr: Seq<VisitStep>) -> Option<Seq<VisitStep>>
    decreases tr.len(), 4nat, 0int,
{
    if t.alignments != t2.alignments {
        None
    } else {
        match cells_walk(t.header.cells@, t2.header.cells@, 0, d, tr) {
            Some(r) => if r.len() <= tr.len() {
                rows_walk(t.rows@, t2.rows@, 0, d, r)
            } else {
                None
            },
            None => None,
        }
    }
}

/// The walk into the children of a block that the visitor kept and asked
/// to recurse into, from `node` to `done`, at depth `d`: the inlines of a
/// heading or paragraph, the blocks of a block quote or of each list item,
/// the cells of a table; every other field stays, and a block without
/// children stays as it is.
pub open spec fn descend_block(node: Block, done: Block, d: nat, tr: Seq<VisitStep>) -> Option<Seq<VisitStep>>
    decreases tr.len(), 5nat, 0int,
{
    match node {
        Block::Heading { level, children, pos, attrs } => match done {
            Block::Heading { level: l2, children: c2, pos: p2, attrs: a2 } => if level == l2 && pos == p2 && attrs
                == a2 {
                inlines_to(children@, c2@, d, tr)
            } else {
                None
            },
            _ => None,
        },
        Block::Paragraph { children, pos, attrs } => match done {
            Block::Paragraph { children: c2, pos: p2, attrs: a2 } => if pos == p2 && attrs == a2 {
                inlines_to(children@, c2@, d, tr)
            } else {
                None
            },
            _ => None,
        },
        Block::BlockQuote { children, pos, attrs } => match done {
            Block::BlockQuote { children: c2, pos: p2, attrs: a2 } => if pos == p2 && attrs == a2 {
                blocks_to(children@, c2@, d, tr)
            } else {
                None
            },
            _ => None,
        },
        Block::List { ordered, items, pos, attrs } => match done {
            Block::List { ordered: o2, items: i2, pos: p2, attrs: a2 } => if ordered == o2 && pos == p2 && attrs
                == a2 {
                items_walk(items@, i2@, 0, d, tr)
            } else {
                None
            },
            _ => None,
        },
        Block::Table { table, pos, attrs } => match done {
            Block::Table { table: t2, pos: p2, attrs: a2 } => if pos == p2 && attrs == a2 {
                table_walk(table, t2, d, tr)
            } else {
                None
            },
            _ => None,
        },
        _ => if done == node {
            Some(tr)
        } else {
            None
        },
    }
}

/// The walk into the children of an inline node (as [`descend_block`]):
/// the content of emphasis and strikethrough, the text of links.
pub open spec fn descend_inline(node: Inline, done: Inline, d: nat, tr: Seq<VisitStep>) -> Option<Seq<VisitStep>>
    decreases tr.len(), 5nat, 0int,
{
    match node {
        Inline::Emphasis { level, children, pos } => match done {
            Inline::Emphasis { level: l2, children: c2, pos: p2 } => if level == l2 && pos == p2 {
                inlines_to(children@, c2@, d, tr)
            } else {
                None
            },
            _ => None,
        },
        Inline::Strikethrough { children, pos } => match done {
            Inline::Strikethrough { children: c2, pos: p2 } => if pos == p2 {
                inlines_to(children@, c2@, d, tr)
            } else {
                None
            },
            _ => None,
        },
        Inline::Link { text, url, title, autolink, pos } => match done {
            Inline::Link { text: t2, url: u2, title: ti2, autolink: a2, pos: p2 } => if url == u2 && title == ti2
                && autolink == a2 && pos == p2 {
                inlines_to(text@, t2@, d, tr)
            } else {
                None
            },
            _ => None,
        },
        Inline::LinkReference { text, label, url, title, pos } => match done {
            Inline::LinkReference { text: t2, label: l2, url: u2, title: ti2, pos: p2 } => if label == l2 && url
                == u2 && title == ti2 && pos == p2 {
                inlines_to(text@, t2@, d, tr)
            } else {
                None
            },
            _ => None,
        },
        _ => if done == node {
            Some(tr)
        } else {
            None
        },
    }
}

/// A visitor traversal of the whole block list `c` can give `c2`: for
/// some answers of the visitor, in pre-order, the walk ends with `c2`.
pub open spec fn visited_to(c: Seq<Block>, c2: Seq<Block>) -> bool {
    exists|tr: Seq<VisitStep>| #[trigger] walk_blocks(c, 0, u64::MAX as nat, full_budget(), tr) == Some((c2, Seq::<VisitStep>::empty()))
}

/// One step of a block walk: handing `st.given`, the node at `i`, to the
/// visitor and applying its answer.
pub proof fn lemma_block_step(
    cur: Seq<Block>,
    i: int,
    d: nat,
    b: nat,
    st: VisitStep,
    t1: Seq<VisitStep>,
    t2: Seq<VisitStep>,
    rep: Option<Seq<Block>>,
    after_list: Seq<Block>,
    next: int,
)
    requires
        0 <= i < cur.len(),
        st matches VisitStep::Block { given, node, before, after, replace, remove, recurse, done } && {
            &&& given == cur[i]
            &&& (after_list, next) == applied(cur.remove(i), i, done, before, after, rep, remove)
            &&& if !remove && replace is None && recurse && d > 0 {
                forall|r: Seq<VisitStep>| #[trigger] descend_block(node, done, (d - 1) as nat, t1 + r) == Some(r)
            } else {
                done == node && t1 == Seq::<VisitStep>::empty()
            }
            &&& match replace {
                Some(reps) => if !remove && b > 0 {
                    rep is Some && forall|r: Seq<VisitStep>| #[trigger] walk_blocks(reps, 0, d, (b - 1) as nat, t2 + r)
                        == Some((rep->Some_0, r))
                } else {
                    rep == Some(reps) && t2 == Seq::<VisitStep>::empty()
                },
                None => rep is None && t2 == Seq::<VisitStep>::empty(),
            }
        },
    ensures
        forall|r: Seq<VisitStep>| #[trigger] walk_blocks(cur, i, d, b, seq![st] + t1 + t2 + r) == walk_blocks(after_list, next, d, b, r),
{
    assert forall|r: Seq<VisitStep>| #[trigger] walk_blocks(cur, i, d, b, seq![st] + t1 + t2 + r) == walk_blocks(after_list, next, d, b, r) by {
        let tr = seq![st] + t1 + t2 + r;
        assert(tr[0] == st);
        assert(tr.drop_first() =~= t1 + (t2 + r));
        assert(t1 + (t2 + r) =~= t1 + t2 + r);
        if let VisitStep::Block { given, node, before, after, replace, remove, recurse, done } = st {
            if !remove && replace is None && recurse && d > 0 {
                assert(descend_block(node, done, (d - 1) as nat, t1 + (t2 + r)) == Some(t2 + r));
            } else {
                assert(t1 + (t2 + r) =~= t2 + r);
            }
            match replace {
                Some(reps) => if !remove && b > 0 {
                    assert(walk_blocks(reps, 0, d, (b - 1) as nat, t2 + r) == Some((rep->Some_0, r)));
                } else {
                    assert(t2 + r =~= r);
                },
                None => {
                    assert(t2 + r =~= r);
                },
            }
        }
    }
}

/// One step of an inline walk (as [`lemma_block_step`]).
pub proof fn lemma_inline_step(
    cur: Seq<Inline>,
    i: int,
    d: nat,
    b: nat,
    st: VisitStep,
    t1: Seq<VisitStep>,
    t2: Seq<VisitStep>,
    rep: Option<Seq<Inline>>,
    after_list: Seq<Inline>,
    next: int,
)
    requires
        0 <= i < cur.len(),
        st matches VisitStep::Inline { given, node, before, after, replace, remove, recurse, done } && {
            &&& given == cur[i]
            &&& (after_list, next) == applied(cur.remove(i), i, done, before, after, rep, remove)
            &&& if !remove && replace is None && recurse && d > 0 {
                forall|r: Seq<VisitStep>| #[trigger] descend_inline(node, done, (d - 1) as nat, t1 + r) == Some(r)
            } else {
                done == node && t1 == Seq::<VisitStep>::empty()
            }
            &&& match replace {
                Some(reps) => if !remove && b > 0 {
                    rep is Some && forall|r: Seq<VisitStep>| #[trigger] walk_inlines(reps, 0, d, (b - 1) as nat, t2 + r)
                        == Some((rep->Some_0, r))
                } else {
                    rep == Some(reps) && t2 == Seq::<VisitStep>::empty()
                },
                None => rep is None && t2 == Seq::<VisitStep>::empty(),
            }
        },
    ensures
        forall|r: Seq<VisitStep>| #[trigger] walk_inlines(cur, i, d, b, seq![st] + t1 + t2 + r) == walk_inlines(after_list, next, d, b, r),
{
    assert forall|r: Seq<VisitStep>| #[trigger] walk_inlines(cur, i, d, b, seq![st] + t1 + t2 + r) == walk_inlines(after_list, next, d, b, r) by {
        let tr = seq![st] + t1 + t2 + r;
        assert(tr[0] == st);
        assert(tr.drop_first() =~= t1 + (t2 + r));
        assert(t1 + (t2 + r) =~= t1 + t2 + r);
        if let VisitStep::Inline { given, node, before, after, replace, remove, recurse, done } = st {
            if !remove && replace is None && recurse && d > 0 {
                assert(descend_inline(node, done, (d - 1) as nat, t1 + (t2 + r)) == Some(t2 + r));
            } else {
                assert(t1 + (t2 + r) =~= t2 + r);
            }
            match replace {
                Some(reps) => if !remove && b > 0 {
                    assert(walk_inlines(reps, 0, d, (b - 1) as nat, t2 + r) == Some((rep->Some_0, r)));
                } else {
                    assert(t2 + r =~= r);
                },
                None => {
                    assert(t2 + r =~= r);
                },
            }
        }
    }
}

/// Visit and possibly mutate a whole document, pre-order: the visitor is
/// handed the top-level blocks in turn, and its answers are applied as
/// [`walk_blocks`] says.  Only the document's children change.
pub fn visit_document_mut<V: AstVisitor>(doc: &mut super::Document, visitor: &mut V)
    ensures
        final(doc).node_type == old(doc).node_type,
        final(doc).file_name == old(doc).file_name,
        final(doc).pos == old(doc).pos,
        final(doc).link_references == old(doc).link_references,
        visited_to(old(doc).children@, final(doc).children@),
{
    let t = visit_blocks_vec(&mut doc.children, visitor, u64::MAX, u64::MAX);
    proof {
        assert(t@ + Seq::<VisitStep>::empty() =~= t@);
        assert(walk_blocks(old(doc).children@, 0, u64::MAX as nat, full_budget(), t@ + Seq::<VisitStep>::empty())
            == Some((doc.children@, Seq::<VisitStep>::empty())));
    }
}

/// Visit a list of sibling blocks, descending at most `depth` more levels,
/// replacements being visited while `bud > 0`.  The result is the visits
/// made, in pre-order.
fn visit_blocks_vec<V: AstVisitor>(children: &mut Vec<Block>, visitor: &mut V, depth: u64, bud: u64) -> (t: Ghost<
    Seq<VisitStep>,
>)
    ensures
        forall|r: Seq<VisitStep>| #[trigger] walk_blocks(old(children)@, 0, depth as nat, bud as nat, t@ + r) == Some(
            (final(children)@, r),
        ),
    decreases depth, bud,
{
    let ghost c0 = children@;
    let ghost d = depth as nat;
    let ghost b = bud as nat;
    let ghost mut acc: Seq<VisitStep> = Seq::empty();
    let mut i: usize = 0;
    proof {
        assert forall|r: Seq<VisitStep>| #[trigger] walk_blocks(c0, 0, d, b, acc + r) == walk_blocks(children@, i as int, d, b, r) by {
            assert(acc + r =~= r);
        }
    }
    while i < children.len()
        invariant
            i <= children@.len(),
            d == depth as nat,
            b == bud as nat,
            forall|r: Seq<VisitStep>| #[trigger] walk_blocks(c0, 0, d, b, acc + r) == walk_blocks(children@, i as int, d, b, r),
        decreases children@.len() - i,
    {
        let ghost cur = children@;
        let mut node = children.remove(i);
        let ghost given = node;
        let ctrl = visitor.visit_block(&mut node);
        let ghost vnode = node;
        let ghost gb = ctrl.insert_before@;
        let ghost ga = ctrl.insert_after@;
        let ghost gr = opt_seq(ctrl.replace_with);
        let VisitControl { insert_before, insert_after, replace_with, remove, recurse } = ctrl;
        let ghost mut t1: Seq<VisitStep> = Seq::empty();
        if !remove && replace_with.is_none() && recurse && depth > 0 {
            let g = descend_block_mut(&mut node, visitor, depth - 1);
            proof {
                t1 = g@;
            }
        }
        let ghost done = node;
        let ghost mut t2: Seq<VisitStep> = Seq::empty();
        let rep = match replace_with {
            Some(reps) => {
                let mut reps = reps;
                if !remove && bud > 0 {
                    let g = visit_blocks_vec(&mut reps, visitor, depth, bud - 1);
                    proof {
                        t2 = g@;
                    }
                }
                Some(reps)
            },
            None => None,
        };
        let ghost grep = opt_seq(rep);
        let next = apply_control(children, i, node, insert_before, insert_after, rep, remove);
        proof {
            let st = VisitStep::Block { given, node: vnode, before: gb, after: ga, replace: gr, remove, recurse, done };
            lemma_block_step(cur, i as int, d, b, st, t1, t2, grep, children@, next as int);
            let acc2 = acc + seq![st] + t1 + t2;
            assert forall|r: Seq<VisitStep>| #[trigger] walk_blocks(c0, 0, d, b, acc2 + r) == walk_blocks(children@, next as int, d, b, r) by {
                assert(acc2 + r =~= acc + (seq![st] + t1 + t2 + r));
                assert(walk_blocks(c0, 0, d, b, acc + (seq![st] + t1 + t2 + r)) == walk_blocks(cur, i as int, d, b, seq![st] + t1 + t2 + r));
            }
            acc = acc2;
        }
        i = next;
    }
    proof {
        assert forall|r: Seq<VisitStep>| #[trigger] walk_blocks(c0, 0, d, b, acc + r) == Some((children@, r)) by {
            assert(walk_blocks(children@, i as int, d, b, r) == Some((children@, r)));
        }
    }
    Ghost(acc)
}

/// Visit a list of sibling inlines (as [`visit_blocks_vec`]).
fn visit_inlines_vec<V: AstVisitor>(inlines: &mut Vec<Inline>, visitor: &mut V, depth: u64, bud: u64) -> (t: Ghost<
    Seq<VisitStep>,
>)
    ensures
        forall|r: Seq<VisitStep>| #[trigger] walk_inlines(old(inlines)@, 0, depth as nat, bud as nat, t@ + r) == Some(
            (final(inlines)@, r),
        ),
    decreases depth, bud,
{
    let ghost c0 = inlines@;
    let ghost d = depth as nat;
    let ghost b = bud as nat;
    let ghost mut acc: Seq<VisitStep> = Seq::empty();
    let mut i: usize = 0;
    proof {
        assert forall|r: Seq<VisitStep>| #[trigger] walk_inlines(c0, 0, d, b, acc + r) == walk_inlines(inlines@, i as int, d, b, r) by {
            assert(acc + r =~= r);
        }
    }
    while i < inlines.len()
        invariant
            i <= inlines@.len(),
            d == depth as nat,
            b == bud as nat,
            forall|r: Seq<VisitStep>| #[trigger] walk_inlines(c0, 0, d, b, acc + r) == walk_inlines(inlines@, i as int, d, b, r),
        decreases inlines@.len() - i,
    {
        let ghost cur = inlines@;
        let mut node = inlines.remove(i);
        let ghost given = node;
        let ctrl = visitor.visit_inline(&mut node);
        let ghost vnode = node;
        let ghost gb = ctrl.insert_before@;
        let ghost ga = ctrl.insert_after@;
        let ghost gr = opt_seq(ctrl.replace_with);
        let InlineVisitControl { insert_before, insert_after, replace_with, remove, recurse } = ctrl;
        let ghost mut t1: Seq<VisitStep> = Seq::empty();
        if !remove && replace_with.is_none() && recurse && depth > 0 {
            let g = descend_inline_mut(&mut node, visitor, depth - 1);
            proof {
                t1 = g@;
            }
        }
        let ghost done = node;
        let ghost mut t2: Seq<VisitStep> = Seq::empty();
        let rep = match replace_with {
            Some(reps) => {
                let mut reps = reps;
                if !remove && bud > 0 {
                    let g = visit_inlines_vec(&mut reps, visitor, depth, bud - 1);
                    proof {
                        t2 = g@;
                    }
                }
                Some(reps)
            },
            None => None,
        };
        let ghost grep = opt_seq(rep);
        let next = apply_control(inlines, i, node, insert_before, insert_after, rep, remove);
        proof {
            let st = VisitStep::Inline { given, node: vnode, before: gb, after: ga, replace: gr, remove, recurse, done };
            lemma_inline_step(cur, i as int, d, b, st, t1, t2, grep, inlines@, next as int);
            let acc2 = acc + seq![st] + t1 + t2;
            assert forall|r: Seq<VisitStep>| #[trigger] walk_inlines(c0, 0, d, b, acc2 + r) == walk_inlines(inlines@, next as int, d, b, r) by {
                assert(acc2 + r =~= acc + (seq![st] + t1 + t2 + r));
                assert(walk_inlines(c0, 0, d, b, acc + (seq![st] + t1 + t2 + r)) == walk_inlines(cur, i as int, d, b, seq![st] + t1 + t2 + r));
            }
            acc = acc2;
        }
        i = next;
    }
    proof {
        assert forall|r: Seq<VisitStep>| #[trigger] walk_inlines(c0, 0, d, b, acc + r) == Some((inlines@, r)) by {
            assert(walk_inlines(inlines@, i as int, d, b, r) == Some((inlines@, r)));
        }
    }
    Ghost(acc)
}

/// Visit the children of a block, `d` more levels down.
#[verifier::rlimit(60)]
fn descend_block_mut<V: AstVisitor>(node: &mut Block, visitor: &mut V, d: u64) -> (t: Ghost<Seq<VisitStep>>)
    ensures
        forall|r: Seq<VisitStep>| #[trigger] descend_block(*old(node), *final(node), d as nat, t@ + r) == Some(r),
    decreases d, u64::MAX as int + 4,
{
    let ghost n0 = *node;
    match node {
        Block::Heading { children, .. } => {
            let ghost k0 = children@;
            let g = visit_inlines_vec(children, visitor, d, u64::MAX);
            proof {
                assert forall|r: Seq<VisitStep>| #[trigger] inlines_to(k0, children@, d as nat, g@ + r) == Some(r) by {
                    assert(walk_inlines(k0, 0, d as nat, full_budget(), g@ + r) == Some((children@, r)));
                }
                assert forall|r: Seq<VisitStep>| #[trigger] descend_block(n0, *node, d as nat, g@ + r) == Some(r) by {
                    assert(inlines_to(k0, children@, d as nat, g@ + r) == Some(r));
                }
            }
            g
        },
        Block::Paragraph { children, .. } => {
            let ghost k0 = children@;
            let g = visit_inlines_vec(children, visitor, d, u64::MAX);
            proof {
                assert forall|r: Seq<VisitStep>| #[trigger] inlines_to(k0, children@, d as nat, g@ + r) == Some(r) by {
                    assert(walk_inlines(k0, 0, d as nat, full_budget(), g@ + r) == Some((children@, r)));
                }
                assert forall|r: Seq<VisitStep>| #[trigger] descend_block(n0, *node, d as nat, g@ + r) == Some(r) by {
                    assert(inlines_to(k0, children@, d as nat, g@ + r) == Some(r));
                }
            }
            g
        },
        Block::BlockQuote { children, .. } => {
            let ghost k0 = children@;
            let g = visit_blocks_vec(children, visitor, d, u64::MAX);
            proof {
                assert forall|r: Seq<VisitStep>| #[trigger] blocks_to(k0, children@, d as nat, g@ + r) == Some(r) by {
                    assert(walk_blocks(k0, 0, d as nat, full_budget(), g@ + r) == Some((children@, r)));
                }
                assert forall|r: Seq<VisitStep>| #[trigger] descend_block(n0, *node, d as nat, g@ + r) == Some(r) by {
                    assert(blocks_to(k0, children@, d as nat, g@ + r) == Some(r));
                }
            }
            g
        },
        Block::List { items, .. } => {
            let ghost i0 = items@;
            let g = items_visit(items, visitor, d);
            proof {
                assert forall|r: Seq<VisitStep>| #[trigger] descend_block(n0, *node, d as nat, g@ + r) == Some(r) by {
                    assert(items_walk(i0, items@, 0, d as nat, g@ + r) == Some(r));
                }
            }
            g
        },
        Block::Table { table, .. } => {
            let ghost tb0 = *table;
            let g = visit_table(table, visitor, d);
            proof {
                assert forall|r: Seq<VisitStep>| #[trigger] descend_block(n0, *node, d as nat, g@ + r) == Some(r) by {
                    assert(table_walk(tb0, *table, d as nat, g@ + r) == Some(r));
                }
            }
            g
        },
        _ => {
            proof {
                assert forall|r: Seq<VisitStep>| #[trigger] descend_block(*old(node), *node, d as nat, Seq::<VisitStep>::empty() + r) == Some(r) by {
                    assert(Seq::<VisitStep>::empty() + r =~= r);
                }
            }
            Ghost(Seq::empty())
        },
    }
}

/// Visit the children of an inline node, `d` more levels down.
fn descend_inline_mut<V: AstVisitor>(node: &mut Inline, visitor: &mut V, d: u64) -> (t: Ghost<Seq<VisitStep>>)
    ensures
        forall|r: Seq<VisitStep>| #[trigger] descend_inline(*old(node), *final(node), d as nat, t@ + r) == Some(r),
    decreases d, u64::MAX as int + 4,
{
    let ghost n0 = *node;
    match node {
        Inline::Emphasis { children, .. } => {
            let ghost k0 = children@;
            let g = visit_inlines_vec(children, visitor, d, u64::MAX);
            proof {
                assert forall|r: Seq<VisitStep>| #[trigger] inlines_to(k0, children@, d as nat, g@ + r) == Some(r) by {
                    assert(walk_inlines(k0, 0, d as nat, full_budget(), g@ + r) == Some((children@, r)));
                }
                assert forall|r: Seq<VisitStep>| #[trigger] descend_inline(n0, *node, d as nat, g@ + r) == Some(r) by {
                    assert(inlines_to(k0, children@, d as nat, g@ + r) == Some(r));
                }
            }
            g
        },
        Inline::Strikethrough { children, .. } => {
            let ghost k0 = children@;
            let g = visit_inlines_vec(children, visitor, d, u64::MAX);
            proof {
                assert forall|r: Seq<VisitStep>| #[trigger] inlines_to(k0, children@, d as nat, g@ + r) == Some(r) by {
                    assert(walk_inlines(k0, 0, d as nat, full_budget(), g@ + r) == Some((children@, r)));
                }
                assert forall|r: Seq<VisitStep>| #[trigger] descend_inline(n0, *node, d as nat, g@ + r) == Some(r) by {
                    assert(inlines_to(k0, children@, d as nat, g@ + r) == Some(r));
                }
            }
            g
        },
        Inline::Link { text, .. } => {
            let ghost k0 = text@;
            let g = visit_inlines_vec(text, visitor, d, u64::MAX);
            proof {
                assert forall|r: Seq<VisitStep>| #[trigger] inlines_to(k0, text@, d as nat, g@ + r) == Some(r) by {
                    assert(walk_inlines(k0, 0, d as nat, full_budget(), g@ + r) == Some((text@, r)));
                }
                assert forall|r: Seq<VisitStep>| #[trigger] descend_inline(n0, *node, d as nat, g@ + r) == Some(r) by {
                    assert(inlines_to(k0, text@, d as nat, g@ + r) == Some(r));
                }
            }
            g
        },
        Inline::LinkReference { text, .. } => {
            let ghost k0 = text@;
            let g = visit_inlines_vec(text, visitor, d, u64::MAX);
            proof {
                assert forall|r: Seq<VisitStep>| #[trigger] inlines_to(k0, text@, d as nat, g@ + r) == Some(r) by {
                    assert(walk_inlines(k0, 0, d as nat, full_budget(), g@ + r) == Some((text@, r)));
                }
                assert forall|r: Seq<VisitStep>| #[trigger] descend_inline(n0, *node, d as nat, g@ + r) == Some(r) by {
                    assert(inlines_to(k0, text@, d as nat, g@ + r) == Some(r));
                }
            }
            g
        },
        _ => {
            proof {
                assert forall|r: Seq<VisitStep>| #[trigger] descend_inline(*old(node), *node, d as nat, Seq::<VisitStep>::empty() + r) == Some(r) by {
                    assert(Seq::<VisitStep>::empty() + r =~= r);
                }
            }
            Ghost(Seq::empty())
        },
    }
}

/// Visit the blocks of every item of a list, in order.
fn items_visit<V: AstVisitor>(items: &mut Vec<ListItem>, visitor: &mut V, d: u64) -> (t: Ghost<Seq<VisitStep>>)
    ensures
        forall|r: Seq<VisitStep>| #[trigger] items_walk(old(items)@, final(items)@, 0, d as nat, t@ + r) == Some(r),
    decreases d, u64::MAX as int + 1,
{
    let ghost it0 = items@;
    let ghost mut acc: Seq<VisitStep> = Seq::empty();
    let mut k: usize = 0;
    proof {
        assert forall|r: Seq<VisitStep>, it2: Seq<ListItem>| #[trigger] items_walk(it0, it2, 0, d as nat, acc + r) == items_walk(it0, it2, 0, d as nat, r) by {
            assert(acc + r =~= r);
        }
    }
    while k < items.len()
        invariant
            k <= items@.len() == it0.len(),
            forall|j: int| k <= j < it0.len() ==> items@[j] == it0[j],
            forall|r: Seq<VisitStep>, it2: Seq<ListItem>|
                it2.len() == it0.len() && it2.take(k as int) == items@.take(k as int) ==> #[trigger] items_walk(it0, it2, 0, d as nat, acc + r)
                    == items_walk(it0, it2, k as int, d as nat, r),
        decreases items@.len() - k,
    {
        let ghost cur = items@;
        let mut item = items.remove(k);
        let g = visit_blocks_vec(&mut item.children, visitor, d, u64::MAX);
        let ghost newi = item;
        items.insert(k, item);
        proof {
            assert(items@ =~= cur.update(k as int, newi));
            assert forall|r: Seq<VisitStep>, it2: Seq<ListItem>|
                it2.len() == it0.len() && it2.take(k + 1) == items@.take(k + 1) implies #[trigger] items_walk(it0, it2, 0, d as nat, (acc + g@) + r)
                    == items_walk(it0, it2, k + 1, d as nat, r) by {
                assert(it2.take(k as int) =~= it2.take(k + 1).take(k as int));
                assert(items@.take(k as int) =~= items@.take(k + 1).take(k as int));
                assert(items@.take(k as int) =~= cur.take(k as int));
                assert((acc + g@) + r =~= acc + (g@ + r));
                assert(it2[k as int] == it2.take(k + 1)[k as int]);
                assert(it2[k as int] == newi);
                assert(cur[k as int] == it0[k as int]);
                assert(walk_blocks(it0[k as int].children@, 0, d as nat, full_budget(), g@ + r) == Some((newi.children@, r)));
                assert(blocks_to(it0[k as int].children@, newi.children@, d as nat, g@ + r) == Some(r));
                assert(items_walk(it0, it2, k as int, d as nat, g@ + r) == items_walk(it0, it2, k + 1, d as nat, r));
                assert(items_walk(it0, it2, 0, d as nat, acc + (g@ + r)) == items_walk(it0, it2, k as int, d as nat, g@ + r));
            }
            acc = acc + g@;
        }
        k += 1;
    }
    proof {
        assert(items@.take(k as int) =~= items@);
        assert forall|r: Seq<VisitStep>| #[trigger] items_walk(it0, items@, 0, d as nat, acc + r) == Some(r) by {
            assert(items@.take(k as int) == items@.take(k as int));
        }
    }
    Ghost(acc)
}

/// Visit the inlines of every cell of a row, in order.
fn cells_visit<V: AstVisitor>(cells: &mut Vec<TableCell>, visitor: &mut V, d: u64) -> (t: Ghost<Seq<VisitStep>>)
    ensures
        forall|r: Seq<VisitStep>| #[trigger] cells_walk(old(cells)@, final(cells)@, 0, d as nat, t@ + r) == Some(r),
    decreases d, u64::MAX as int + 1,
{
    let ghost it0 = cells@;
    let ghost mut acc: Seq<VisitStep> = Seq::empty();
    let mut k: usize = 0;
    proof {
        assert forall|r: Seq<VisitStep>, it2: Seq<TableCell>| #[trigger] cells_walk(it0, it2, 0, d as nat, acc + r) == cells_walk(it0, it2, 0, d as nat, r) by {
            assert(acc + r =~= r);
        }
    }
    while k < cells.len()
        invariant
            k <= cells@.len() == it0.len(),
            forall|j: int| k <= j < it0.len() ==> cells@[j] == it0[j],
            forall|r: Seq<VisitStep>, it2: Seq<TableCell>|
                it2.len() == it0.len() && it2.take(k as int) == cells@.take(k as int) ==> #[trigger] cells_walk(it0, it2, 0, d as nat, acc + r)
                    == cells_walk(it0, it2, k as int, d as nat, r),
        decreases cells@.len() - k,
    {
        let ghost cur = cells@;
        let mut cell = cells.remove(k);
        let g = visit_inlines_vec(&mut cell.children, visitor, d, u64::MAX);
        let ghost newi = cell;
        cells.insert(k, cell);
        proof {
            assert(cells@ =~= cur.update(k as int, newi));
            assert forall|r: Seq<VisitStep>, it2: Seq<TableCell>|
                it2.len() == it0.len() && it2.take(k + 1) == cells@.take(k + 1) implies #[trigger] cells_walk(it0, it2, 0, d as nat, (acc + g@) + r)
                    == cells_walk(it0, it2, k + 1, d as nat, r) by {
                assert(it2.take(k as int) =~= it2.take(k + 1).take(k as int));
                assert(cells@.take(k as int) =~= cells@.take(k + 1).take(k as int));
                assert(cells@.take(k as int) =~= cur.take(k as int));
                assert((acc + g@) + r =~= acc + (g@ + r));
                assert(it2[k as int] == it2.take(k + 1)[k as int]);
                assert(it2[k as int] == newi);
                assert(cur[k as int] == it0[k as int]);
                assert(walk_inlines(it0[k as int].children@, 0, d as nat, full_budget(), g@ + r) == Some((newi.children@, r)));
                assert(inlines_to(it0[k as int].children@, newi.children@, d as nat, g@ + r) == Some(r));
                assert(cells_walk(it0, it2, k as int, d as nat, g@ + r) == cells_walk(it0, it2, k + 1, d as nat, r));
                assert(cells_walk(it0, it2, 0, d as nat, acc + (g@ + r)) == cells_walk(it0, it2, k as int, d as nat, g@ + r));
            }
            acc = acc + g@;
        }
        k += 1;
    }
    proof {
        assert(cells@.take(k as int) =~= cells@);
        assert forall|r: Seq<VisitStep>| #[trigger] cells_walk(it0, cells@, 0, d as nat, acc + r) == Some(r) by {
            assert(cells@.take(k as int) == cells@.take(k as int));
        }
    }
    Ghost(acc)
}

/// Visit the cells of every body row of a table, in order.
fn rows_visit<V: AstVisitor>(rows: &mut Vec<TableRow>, visitor: &mut V, d: u64) -> (t: Ghost<Seq<VisitStep>>)
    ensures
        forall|r: Seq<VisitStep>| #[trigger] rows_walk(old(rows)@, final(rows)@, 0, d as nat, t@ + r) == Some(r),
    decreases d, u64::MAX as int + 2,
{
    let ghost it0 = rows@;
    let ghost mut acc: Seq<VisitStep> = Seq::empty();
    let mut k: usize = 0;
    proof {
        assert forall|r: Seq<VisitStep>, it2: Seq<TableRow>| #[trigger] rows_walk(it0, it2, 0, d as nat, acc + r) == rows_walk(it0, it2, 0, d as nat, r) by {
            assert(acc + r =~= r);
        }
    }
    while k < rows.len()
        invariant
            k <= rows@.len() == it0.len(),
            forall|j: int| k <= j < it0.len() ==> rows@[j] == it0[j],
            forall|r: Seq<VisitStep>, it2: Seq<TableRow>|
                it2.len() == it0.len() && it2.take(k as int) == rows@.take(k as int) ==> #[trigger] rows_walk(it0, it2, 0, d as nat, acc + r)
                    == rows_walk(it0, it2, k as int, d as nat, r),
        decreases rows@.len() - k,
    {
        let ghost cur = rows@;
        let mut row = rows.remove(k);
        let g = cells_visit(&mut row.cells, visitor, d);
        let ghost newi = row;
        rows.insert(k, row);
        proof {
            assert(rows@ =~= cur.update(k as int, newi));
            assert forall|r: Seq<VisitStep>, it2: Seq<TableRow>|
                it2.len() == it0.len() && it2.take(k + 1) == rows@.take(k + 1) implies #[trigger] rows_walk(it0, it2, 0, d as nat, (acc + g@) + r)
                    == rows_walk(it0, it2, k + 1, d as nat, r) by {
                assert(it2.take(k as int) =~= it2.take(k + 1).take(k as int));
                assert(rows@.take(k as int) =~= rows@.take(k + 1).take(k as int));
                assert(rows@.take(k as int) =~= cur.take(k as int));
                assert((acc + g@) + r =~= acc + (g@ + r));
                assert(it2[k as int] == it2.take(k + 1)[k as int]);
                assert(it2[k as int] == newi);
                assert(cur[k as int] == it0[k as int]);
                assert(cells_walk(it0[k as int].cells@, newi.cells@, 0, d as nat, g@ + r) == Some(r));
                assert(rows_walk(it0, it2, k as int, d as nat, g@ + r) == rows_walk(it0, it2, k + 1, d as nat, r));
                assert(rows_walk(it0, it2, 0, d as nat, acc + (g@ + r)) == rows_walk(it0, it2, k as int, d as nat, g@ + r));
            }
            acc = acc + g@;
        }
        k += 1;
    }
    proof {
        assert(rows@.take(k as int) =~= rows@);
        assert forall|r: Seq<VisitStep>| #[trigger] rows_walk(it0, rows@, 0, d as nat, acc + r) == Some(r) by {
            assert(rows@.take(k as int) == rows@.take(k as int));
        }
    }
    Ghost(acc)
}

/// Visit the inline content of every cell of a table: the header's cells,
/// then each body row's.  The alignments stay.
fn visit_table<V: AstVisitor>(table: &mut Table, visitor: &mut V, d: u64) -> (t: Ghost<Seq<VisitStep>>)
    ensures
        forall|r: Seq<VisitStep>| #[trigger] table_walk(*old(table), *final(table), d as nat, t@ + r) == Some(r),
    decreases d, u64::MAX as int + 3,
{
    let ghost t0 = *table;
    let g1 = cells_visit(&mut table.header.cells, visitor, d);
    let g2 = rows_visit(&mut table.rows, visitor, d);
    proof {
        assert forall|r: Seq<VisitStep>| #[trigger] table_walk(t0, *table, d as nat, (g1@ + g2@) + r) == Some(r) by {
            assert((g1@ + g2@) + r =~= g1@ + (g2@ + r));
            assert(cells_walk(t0.header.cells@, table.header.cells@, 0, d as nat, g1@ + (g2@ + r)) == Some(g2@ + r));
            assert(rows_walk(t0.rows@, table.rows@, 0, d as nat, g2@ + r) == Some(r));
        }
    }
    Ghost(g1@ + g2@)
}

/// Taking a node out and handing it back with a control that asks for
/// nothing leaves the sibling list as it was, and the traversal moves on to
/// the next node.
pub proof fn law_keep_restores<T>(c: Seq<T>, i: int)
    requires
        0 <= i < c.len(),
    ensures
        applied(c.remove(i), i, c[i], Seq::empty(), Seq::empty(), None, false) == (c, i + 1),
{
    let r = c.remove(i);
    assert(r.take(i) + Seq::<T>::empty() + seq![c[i]] + Seq::<T>::empty() + r.skip(i) =~= c);
}

/// Removing a node without insertions deletes exactly that node, and the
/// traversal goes on at the same index (the node that followed it).
pub proof fn law_remove_deletes<T>(c: Seq<T>, i: int)
    requires
        0 <= i < c.len(),
    ensures
        applied(c.remove(i), i, c[i], Seq::empty(), Seq::empty(), None, true) == (c.remove(i), i),
{
    let r = c.remove(i);
    assert(r.take(i) + Seq::<T>::empty() + Seq::<T>::empty() + r.skip(i) =~= r);
}

/// Replacing a node puts the (visited) replacements where it was, the
/// nodes to insert before and after it around them, and the traversal goes
/// on past them.
pub proof fn law_replace_substitutes<T>(c: Seq<T>, i: int, before: Seq<T>, reps: Seq<T>, after: Seq<T>)
    requires
        0 <= i < c.len(),
    ensures
        applied(c.remove(i), i, c[i], before, after, Some(reps), false) == (
            c.take(i) + before + reps + after + c.skip(i + 1),
            i + before.len() + reps.len() + after.len(),
        ),
{
    let r = c.remove(i);
    assert(r.take(i) =~= c.take(i));
    assert(r.skip(i) =~= c.skip(i + 1));
}

/// Inserting before and after a kept node puts the new nodes around it, and
/// the traversal goes on past them (they are not visited).
pub proof fn law_insert_around<T>(c: Seq<T>, i: int, before: Seq<T>, after: Seq<T>)
    requires
        0 <= i < c.len(),
    ensures
        applied(c.remove(i), i, c[i], before, after, None, false) == (
            c.take(i) + before + seq![c[i]] + after + c.skip(i + 1),
            i + before.len() + 1 + after.len(),
        ),
{
    let r = c.remove(i);
    assert(r.take(i) =~= c.take(i));
    assert(r.skip(i) =~= c.skip(i + 1));
}

/// The visits of a visitor that leaves each block of `c` as it is and
/// answers with the default control (keep, no recursion).
pub open spec fn keep_steps(c: Seq<Block>) -> Seq<VisitStep> {
    c.map_values(
        |b: Block|
            VisitStep::Block {
                given: b,
                node: b,
                before: Seq::empty(),
                after: Seq::empty(),
                replace: None,
                remove: false,
                recurse: false,
                done: b,
            },
    )
}

proof fn lemma_keep_steps_from(c: Seq<Block>, i: int, d: nat, bud: nat)
    requires
        0 <= i <= c.len(),
    ensures
        walk_blocks(c, i, d, bud, keep_steps(c).skip(i)) == Some((c, Seq::<VisitStep>::empty())),
    decreases c.len() - i,
{
    let tr = keep_steps(c).skip(i);
    if i == c.len() {
        assert(tr =~= Seq::<VisitStep>::empty());
    } else {
        assert(tr[0] == keep_steps(c)[i]);
        assert(tr.drop_first() =~= keep_steps(c).skip(i + 1));
        law_keep_restores(c, i);
        lemma_keep_steps_from(c, i + 1, d, bud);
    }
}

/// A visitor that is handed each top-level block, leaves it as it is and
/// answers with the default control leaves the list unchanged: the walk
/// over those visits, one per block in order, gives the list back.
pub proof fn law_keeping_visitor_changes_nothing(c: Seq<Block>, d: nat, bud: nat)
    ensures
        walk_blocks(c, 0, d, bud, keep_steps(c)) == Some((c, Seq::<VisitStep>::empty())),
{
    lemma_keep_steps_from(c, 0, d, bud);
    assert(keep_steps(c).skip(0) =~= keep_steps(c));
}

/// The visits of a visitor that leaves each block of `c` as it is and
/// removes it exactly when `drop` holds of it.
pub open spec fn filter_steps(c: Seq<Block>, drop: spec_fn(Block) -> bool) -> Seq<VisitStep> {
    c.map_values(
        |b: Block|
            VisitStep::Block {
                given: b,
                node: b,
                before: Seq::empty(),
                after: Seq::empty(),
                replace: None,
                remove: drop(b),
                recurse: false,
                done: b,
            },
    )
}

proof fn lemma_filter_steps_from(q: Seq<Block>, s: Seq<Block>, drop: spec_fn(Block) -> bool, d: nat, bud: nat)
    ensures
        walk_blocks(q + s, q.len() as int, d, bud, filter_steps(s, drop)) == Some(
            (q + s.filter(|b: Block| !drop(b)), Seq::<VisitStep>::empty()),
        ),
    decreases s.len(),
{
    let keep = |b: Block| !drop(b);
    let c = q + s;
    let i = q.len() as int;
    let tr = filter_steps(s, drop);
    if s.len() == 0 {
        reveal(Seq::filter);
        assert(s.filter(keep) =~= Seq::<Block>::empty());
        assert(c =~= q + s.filter(keep));
    } else {
        let rest = s.drop_first();
        assert(tr[0] == filter_steps(s, drop)[0]);
        assert(tr.drop_first() =~= filter_steps(rest, drop));
        assert(c[i] == s[0]);
        assert(s =~= seq![s[0]] + rest);
        Seq::<Block>::filter_distributes_over_add(seq![s[0]], rest, keep);
        reveal(Seq::filter);
        assert(seq![s[0]].drop_last() =~= Seq::<Block>::empty());
        assert(Seq::<Block>::empty().filter(keep) =~= Seq::<Block>::empty());
        let r = c.remove(i);
        assert(r.take(i) =~= q);
        assert(r.skip(i) =~= rest);
        if drop(s[0]) {
            assert(seq![s[0]].filter(keep) =~= Seq::<Block>::empty());
            assert(q + Seq::<Block>::empty() + Seq::<Block>::empty() + rest =~= q + rest);
            lemma_filter_steps_from(q, rest, drop, d, bud);
            assert(q + s.filter(keep) =~= q + rest.filter(keep));
        } else {
            assert(seq![s[0]].filter(keep) =~= seq![s[0]]);
            assert(q + Seq::<Block>::empty() + seq![s[0]] + Seq::<Block>::empty() + rest =~= q.push(s[0]) + rest);
            lemma_filter_steps_from(q.push(s[0]), rest, drop, d, bud);
            assert(q + s.filter(keep) =~= q.push(s[0]) + rest.filter(keep));
        }
    }
}

/// A visitor that is handed each top-level block, leaves it as it is and
/// removes exactly the blocks for which `drop` holds leaves the other
/// blocks, in their order.
pub proof fn law_filtering_visitor_keeps_the_rest(c: Seq<Block>, drop: spec_fn(Block) -> bool, d: nat, bud: nat)
    ensures
        walk_blocks(c, 0, d, bud, filter_steps(c, drop)) == Some(
            (c.filter(|b: Block| !drop(b)), Seq::<VisitStep>::empty()),
        ),
{
    lemma_filter_steps_from(Seq::empty(), c, drop, d, bud);
    assert(Seq::<Block>::empty() + c =~= c);
    assert(Seq::<Block>::empty() + c.filter(|b: Block| !drop(b)) =~= c.filter(|b: Block| !drop(b)));
}


// ---------------------------------------------------------------------------
// A visitor that keeps every node and recurses everywhere
// ---------------------------------------------------------------------------

/// The visit of a block by a visitor that leaves it as it is and answers
/// "keep and recurse".
pub open spec fn keep_recurse_block_step(b: Block) -> VisitStep {
    VisitStep::Block {
        given: b,
        node: b,
        before: Seq::empty(),
        after: Seq::empty(),
        replace: None,
        remove: false,
        recurse: true,
        done: b,
    }
}

/// The visit of an inline node by a visitor that leaves it as it is and
/// answers "keep and recurse".
pub open spec fn keep_recurse_inline_step(n: Inline) -> VisitStep {
    VisitStep::Inline {
        given: n,
        node: n,
        before: Seq::empty(),
        after: Seq::empty(),
        replace: None,
        remove: false,
        recurse: true,
        done: n,
    }
}

/// The visits, in pre-order, of such a visitor over the blocks of `c` from
/// index `i`, at depth `d`: each block, then (while `d > 0`) everything
/// inside it, then the next block.
pub open spec fn keep_recurse_blocks(c: Seq<Block>, i: int, d: nat) -> Seq<VisitStep>
    decreases d, 0nat, c.len() - i,
{
    if i < 0 || i >= c.len() {
        Seq::empty()
    } else {
        let inner = if d > 0 {
            keep_recurse_in_block(c[i], (d - 1) as nat)
        } else {
            Seq::empty()
        };
        seq![keep_recurse_block_step(c[i])] + inner + keep_recurse_blocks(c, i + 1, d)
    }
}

/// The visits of such a visitor over the inline nodes of `c` from index
/// `i` (as [`keep_recurse_blocks`]).
pub open spec fn keep_recurse_inlines(c: Seq<Inline>, i: int, d: nat) -> Seq<VisitStep>
    decreases d, 0nat, c.len() - i,
{
    if i < 0 || i >= c.len() {
        Seq::empty()
    } else {
        let inner = if d > 0 {
            keep_recurse_in_inline(c[i], (d - 1) as nat)
        } else {
            Seq::empty()
        };
        seq![keep_recurse_inline_step(c[i])] + inner + keep_recurse_inlines(c, i + 1, d)
    }
}

/// The visits inside the list items of `items` from `k`.
pub open spec fn keep_recurse_items(items: Seq<ListItem>, k: int, d: nat) -> Seq<VisitStep>
    decreases d, 2nat, items.len() - k,
{
    if k < 0 || k >= items.len() {
        Seq::empty()
    } else {
        keep_recurse_blocks(items[k].children@, 0, d) + keep_recurse_items(items, k + 1, d)
    }
}

/// The visits inside the cells of `cells` from `k`.
pub open spec fn keep_recurse_cells(cells: Seq<TableCell>, k: int, d: nat) -> Seq<VisitStep>
    decreases d, 2nat, cells.len() - k,
{
    if k < 0 || k >= cells.len() {
        Seq::empty()
    } else {
        keep_recurse_inlines(cells[k].children@, 0, d) + keep_recurse_cells(cells, k + 1, d)
    }
}

/// The visits inside the rows of `rows` from `k`.
pub open spec fn keep_recurse_rows(rows: Seq<TableRow>, k: int, d: nat) -> Seq<VisitStep>
    decreases d, 3nat, rows.len() - k,
{
    if k < 0 || k >= rows.len() {
        Seq::empty()
    } else {
        keep_recurse_cells(rows[k].cells@, 0, d) + keep_recurse_rows(rows, k + 1, d)
    }
}

/// The visits inside a block: its inline content, its nested blocks, the
/// blocks of its list items, or its table cells (header first).
pub open spec fn keep_recurse_in_block(b: Block, d: nat) -> Seq<VisitStep>
    decreases d, 5nat, 0int,
{
    match b {
        Block::Heading { children, .. } => keep_recurse_inlines(children@, 0, d),
        Block::Paragraph { children, .. } => keep_recurse_inlines(children@, 0, d),
        Block::BlockQuote { children, .. } => keep_recurse_blocks(children@, 0, d),
        Block::List { items, .. } => keep_recurse_items(items@, 0, d),
        Block::Table { table, .. } => keep_recurse_cells(table.header.cells@, 0, d) + keep_recurse_rows(
            table.rows@,
            0,
            d,
        ),
        _ => Seq::empty(),
    }
}

/// The visits inside an inline node: the content of emphasis and
/// strikethrough, the text of links.
pub open spec fn keep_recurse_in_inline(n: Inline, d: nat) -> Seq<VisitStep>
    decreases d, 5nat, 0int,
{
    match n {
        Inline::Emphasis { children, .. } => keep_recurse_inlines(children@, 0, d),
        Inline::Strikethrough { children, .. } => keep_recurse_inlines(children@, 0, d),
        Inline::Link { text, .. } => keep_recurse_inlines(text@, 0, d),
        Inline::LinkReference { text, .. } => keep_recurse_inlines(text@, 0, d),
        _ => Seq::empty(),
    }
}


proof fn lemma_kr_walk_blocks(c: Seq<Block>, i: int, d: nat, bud: nat, r: Seq<VisitStep>)
    requires
        0 <= i <= c.len(),
    ensures
        walk_blocks(c, i, d, bud, keep_recurse_blocks(c, i, d) + r) == Some((c, r)),
    decreases d, 0nat, c.len() - i,
{
    let tr = keep_recurse_blocks(c, i, d) + r;
    if i == c.len() {
        assert(tr =~= r);
    } else {
        let b = c[i];
        let inner = if d > 0 {
            keep_recurse_in_block(b, (d - 1) as nat)
        } else {
            Seq::empty()
        };
        let tail = keep_recurse_blocks(c, i + 1, d) + r;
        assert(tr =~= seq![keep_recurse_block_step(b)] + (inner + tail));
        assert(tr[0] == keep_recurse_block_step(b));
        let rest = tr.drop_first();
        assert(rest =~= inner + tail);
        if d > 0 {
            lemma_kr_desc_block(b, (d - 1) as nat, tail);
        } else {
            assert(rest =~= tail);
        }
        law_keep_restores(c, i);
        lemma_kr_walk_blocks(c, i + 1, d, bud, r);
    }
}

proof fn lemma_kr_walk_inlines(c: Seq<Inline>, i: int, d: nat, bud: nat, r: Seq<VisitStep>)
    requires
        0 <= i <= c.len(),
    ensures
        walk_inlines(c, i, d, bud, keep_recurse_inlines(c, i, d) + r) == Some((c, r)),
    decreases d, 0nat, c.len() - i,
{
    let tr = keep_recurse_inlines(c, i, d) + r;
    if i == c.len() {
        assert(tr =~= r);
    } else {
        let n = c[i];
        let inner = if d > 0 {
            keep_recurse_in_inline(n, (d - 1) as nat)
        } else {
            Seq::empty()
        };
        let tail = keep_recurse_inlines(c, i + 1, d) + r;
        assert(tr =~= seq![keep_recurse_inline_step(n)] + (inner + tail));
        assert(tr[0] == keep_recurse_inline_step(n));
        let rest = tr.drop_first();
        assert(rest =~= inner + tail);
        if d > 0 {
            lemma_kr_desc_inline(n, (d - 1) as nat, tail);
        } else {
            assert(rest =~= tail);
        }
        law_keep_restores(c, i);
        lemma_kr_walk_inlines(c, i + 1, d, bud, r);
    }
}

proof fn lemma_kr_blocks_to(c: Seq<Block>, d: nat, r: Seq<VisitStep>)
    ensures
        blocks_to(c, c, d, keep_recurse_blocks(c, 0, d) + r) == Some(r),
    decreases d, 1nat, 0int,
{
    lemma_kr_walk_blocks(c, 0, d, full_budget(), r);
}

proof fn lemma_kr_inlines_to(c: Seq<Inline>, d: nat, r: Seq<VisitStep>)
    ensures
        inlines_to(c, c, d, keep_recurse_inlines(c, 0, d) + r) == Some(r),
    decreases d, 1nat, 0int,
{
    lemma_kr_walk_inlines(c, 0, d, full_budget(), r);
}

proof fn lemma_kr_items(items: Seq<ListItem>, k: int, d: nat, r: Seq<VisitStep>)
    requires
        0 <= k <= items.len(),
    ensures
        items_walk(items, items, k, d, keep_recurse_items(items, k, d) + r) == Some(r),
    decreases d, 2nat, items.len() - k,
{
    let tr = keep_recurse_items(items, k, d) + r;
    if k == items.len() {
        assert(tr =~= r);
    } else {
        let tail = keep_recurse_items(items, k + 1, d) + r;
        assert(tr =~= keep_recurse_blocks(items[k].children@, 0, d) + tail);
        lemma_kr_blocks_to(items[k].children@, d, tail);
        lemma_kr_items(items, k + 1, d, r);
    }
}

proof fn lemma_kr_cells(cells: Seq<TableCell>, k: int, d: nat, r: Seq<VisitStep>)
    requires
        0 <= k <= cells.len(),
    ensures
        cells_walk(cells, cells, k, d, keep_recurse_cells(cells, k, d) + r) == Some(r),
    decreases d, 2nat, cells.len() - k,
{
    let tr = keep_recurse_cells(cells, k, d) + r;
    if k == cells.len() {
        assert(tr =~= r);
    } else {
        let tail = keep_recurse_cells(cells, k + 1, d) + r;
        assert(tr =~= keep_recurse_inlines(cells[k].children@, 0, d) + tail);
        lemma_kr_inlines_to(cells[k].children@, d, tail);
        lemma_kr_cells(cells, k + 1, d, r);
    }
}

proof fn lemma_kr_rows(rows: Seq<TableRow>, k: int, d: nat, r: Seq<VisitStep>)
    requires
        0 <= k <= rows.len(),
    ensures
        rows_walk(rows, rows, k, d, keep_recurse_rows(rows, k, d) + r) == Some(r),
    decreases d, 3nat, rows.len() - k,
{
    let tr = keep_recurse_rows(rows, k, d) + r;
    if k == rows.len() {
        assert(tr =~= r);
    } else {
        let tail = keep_recurse_rows(rows, k + 1, d) + r;
        assert(tr =~= keep_recurse_cells(rows[k].cells@, 0, d) + tail);
        lemma_kr_cells(rows[k].cells@, 0, d, tail);
        lemma_kr_rows(rows, k + 1, d, r);
    }
}

proof fn lemma_kr_table(t: Table, d: nat, r: Seq<VisitStep>)
    ensures
        table_walk(t, t, d, keep_recurse_cells(t.header.cells@, 0, d) + keep_recurse_rows(t.rows@, 0, d) + r)
            == Some(r),
    decreases d, 4nat, 0int,
{
    let tail = keep_recurse_rows(t.rows@, 0, d) + r;
    assert(keep_recurse_cells(t.header.cells@, 0, d) + keep_recurse_rows(t.rows@, 0, d) + r
        =~= keep_recurse_cells(t.header.cells@, 0, d) + tail);
    lemma_kr_cells(t.header.cells@, 0, d, tail);
    lemma_kr_rows(t.rows@, 0, d, r);
}

proof fn lemma_kr_desc_block(b: Block, d: nat, r: Seq<VisitStep>)
    ensures
        descend_block(b, b, d, keep_recurse_in_block(b, d) + r) == Some(r),
    decreases d, 5nat, 0int,
{
    match b {
        Block::Heading { children, .. } => lemma_kr_inlines_to(children@, d, r),
        Block::Paragraph { children, .. } => lemma_kr_inlines_to(children@, d, r),
        Block::BlockQuote { children, .. } => lemma_kr_blocks_to(children@, d, r),
        Block::List { items, .. } => lemma_kr_items(items@, 0, d, r),
        Block::Table { table, .. } => lemma_kr_table(table, d, r),
        _ => {
            assert(keep_recurse_in_block(b, d) + r =~= r);
        },
    }
}

proof fn lemma_kr_desc_inline(n: Inline, d: nat, r: Seq<VisitStep>)
    ensures
        descend_inline(n, n, d, keep_recurse_in_inline(n, d) + r) == Some(r),
    decreases d, 5nat, 0int,
{
    match n {
        Inline::Emphasis { children, .. } => lemma_kr_inlines_to(children@, d, r),
        Inline::Strikethrough { children, .. } => lemma_kr_inlines_to(children@, d, r),
        Inline::Link { text, .. } => lemma_kr_inlines_to(text@, d, r),
        Inline::LinkReference { text, .. } => lemma_kr_inlines_to(text@, d, r),
        _ => {
            assert(keep_recurse_in_inline(n, d) + r =~= r);
        },
    }
}

/// A visitor that leaves every node as it is and answers "keep and
/// recurse" everywhere leaves the tree unchanged.  Those visits hand it,
/// in pre-order, every block (and the blocks inside block quotes and list
/// items) and every inline node (of headings, paragraphs and table cells,
/// and inside emphasis, strikethrough and link text), down to depth `d`.
pub proof fn law_recursing_keeper_changes_nothing(c: Seq<Block>, d: nat, bud: nat)
    ensures
        walk_blocks(c, 0, d, bud, keep_recurse_blocks(c, 0, d)) == Some((c, Seq::<VisitStep>::empty())),
{
    lemma_kr_walk_blocks(c, 0, d, bud, Seq::empty());
    assert(keep_recurse_blocks(c, 0, d) + Seq::<VisitStep>::empty() =~= keep_recurse_blocks(c, 0, d));
}

} // verus!
