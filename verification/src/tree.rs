//! The tree of directories of a file system, line by line.
//!
//! A walk says which directory it needs next, takes its entries, and gives the lines of the
//! tree one after the other.
use vstd::prelude::*;
use vstd::utf8::encode_utf8;
use crate::sorting::{bytes_before, is_before, ranked, stable_sort, Ranked};
use crate::text::same_text;

verus! {

// ---------------------------------------------------------------- entries

/// An entry of a directory.
pub struct TreeItem {
    pub ino: u32,
    pub name: String,
    pub file_type: u8,
}

/// The entry is a directory.
pub open spec fn is_folder(e: TreeItem) -> bool {
    e.file_type == 2
}

impl Ranked for TreeItem {
    /// Directories stand first, and names follow the order of their UTF-8 bytes.
    open spec fn goes_after(self, other: Self) -> bool {
        if is_folder(self) == is_folder(other) {
            bytes_before(encode_utf8(other.name@), encode_utf8(self.name@))
        } else {
            is_folder(other)
        }
    }

    fn is_after(&self, other: &Self) -> (r: bool) {
        if (self.file_type == 2) == (other.file_type == 2) {
            is_before(other.name.as_str().as_bytes(), self.name.as_str().as_bytes())
        } else {
            other.file_type == 2
        }
    }

    proof fn ranks_agree(a: Self, b: Self, c: Self) {
        let x = encode_utf8(a.name@);
        let y = encode_utf8(b.name@);
        let z = encode_utf8(c.name@);
        crate::sorting::law_bytes_are_ordered(x, y);
        crate::sorting::law_bytes_are_ordered(y, z);
        if bytes_before(z, x) && bytes_before(x, y) {
            crate::sorting::law_bytes_order_is_transitive(z, x, y);
        }
    }
}

/// The entry stands for the directory itself or the one above it.
pub open spec fn is_dots(e: TreeItem) -> bool {
    e.name@ == "."@ || e.name@ == ".."@
}

/// The entries of a directory that a tree shows, in the order in which it shows them.
pub open spec fn shown_items(entries: Seq<TreeItem>) -> Seq<TreeItem> {
    ranked(entries.filter(|e: TreeItem| !is_dots(e)))
}

fn sorted_items(entries: Vec<TreeItem>) -> (r: Vec<TreeItem>)
    ensures
        r@ == shown_items(entries@),
{
    let ghost all = entries@;
    let ghost keep = |e: TreeItem| !is_dots(e);
    let mut kept: Vec<TreeItem> = Vec::new();
    proof {
        reveal(Seq::filter);
        assert(all.take(0).filter(keep) =~= kept@);
    }
    for e in it: entries
        invariant
            it.seq() == all,
            keep == (|e: TreeItem| !is_dots(e)),
            kept@ == all.take(it.index() as int).filter(keep),
    {
        let ghost n = it.index() as int;
        proof {
            assert(all.take(n + 1) =~= all.take(n).push(all[n]));
            crate::sorting::lemma_filter_push(all.take(n), all[n], keep);
        }
        if !same_text(e.name.as_str(), ".") && !same_text(e.name.as_str(), "..") {
            kept.push(e);
        }
    }
    assert(all.take(all.len() as int) =~= all);
    stable_sort(kept)
}

/// The picture for a file type.
pub open spec fn icon(file_type: u8) -> Seq<char> {
    if file_type == 2 {
        "📁"@
    } else if file_type == 1 {
        "📄"@
    } else if file_type == 7 {
        "🔗"@
    } else {
        "❓"@
    }
}

/// The picture for a file type.
pub fn icon_for(file_type: u8) -> (r: &'static str)
    ensures
        r@ == icon(file_type),
{
    match file_type {
        2 => "📁",
        1 => "📄",
        7 => "🔗",
        _ => "❓",
    }
}

// ---------------------------------------------------------------- the tree

/// How a tree finds its directories, and what it writes before the entries of one.
#[derive(Clone, Copy, Debug, PartialEq, Eq, Structural)]
pub enum TreeKind {
    /// By inode; branches lead to the entries.
    Ext4,
    /// By path; the path goes before the entries.
    Fat,
}

/// What stands between the prefix of a directory and an entry.
pub open spec fn branch(last: bool) -> Seq<char> {
    if last {
        "└── "@
    } else {
        "├── "@
    }
}

/// The prefix for the entries of the directory `name`.
pub open spec fn inner_prefix(
    kind: TreeKind,
    prefix: Seq<char>,
    last: bool,
    name: Seq<char>,
) -> Seq<char> {
    match kind {
        TreeKind::Ext4 => if last {
            prefix + "     "@
        } else {
            prefix + "│    "@
        },
        TreeKind::Fat => prefix + "/"@ + name,
    }
}

/// The line for entry `i` of a directory.
pub open spec fn item_line(items: Seq<TreeItem>, prefix: Seq<char>, i: int) -> Seq<char> {
    prefix + branch(i == items.len() - 1) + icon(items[i].file_type) + " "@ + items[i].name@
}

/// How many of `n` entries a tree shows of one directory.
pub open spec fn limited(n: nat, max_entries: nat) -> nat {
    if n < max_entries {
        n
    } else {
        max_entries
    }
}

/// The lines for a directory with `depth` levels to go: those of its entries, at most
/// `max_entries` of them, each followed by those of the directory that it is.
pub open spec fn dir_lines(
    kind: TreeKind,
    max_entries: nat,
    read: spec_fn(u32, Seq<char>) -> Seq<TreeItem>,
    ino: u32,
    prefix: Seq<char>,
    depth: nat,
) -> Seq<Seq<char>>
    decreases depth, 1int, 0int,
{
    if depth == 0 {
        seq![]
    } else {
        items_lines(kind, max_entries, read, shown_items(read(ino, prefix)), prefix, depth, 0)
    }
}

/// The lines for the entries of a directory from number `i` on.
pub open spec fn items_lines(
    kind: TreeKind,
    max_entries: nat,
    read: spec_fn(u32, Seq<char>) -> Seq<TreeItem>,
    items: Seq<TreeItem>,
    prefix: Seq<char>,
    depth: nat,
    i: nat,
) -> Seq<Seq<char>>
    decreases depth, 0int, items.len() - i,
{
    if i >= limited(items.len(), max_entries) || depth == 0 {
        seq![]
    } else {
        let e = items[i as int];
        let inner = if is_folder(e) {
            dir_lines(
                kind,
                max_entries,
                read,
                e.ino,
                inner_prefix(kind, prefix, i == items.len() - 1, e.name@),
                (depth - 1) as nat,
            )
        } else {
            seq![]
        };
        seq![item_line(items, prefix, i as int)] + inner + items_lines(
            kind,
            max_entries,
            read,
            items,
            prefix,
            depth,
            i + 1,
        )
    }
}

// ---------------------------------------------------------------- the walk

/// A directory within a walk: its entries, and how many of them were shown.
struct Frame {
    items: Vec<TreeItem>,
    next: usize,
    prefix: String,
    depth: u32,
}

/// A directory within a walk.
pub struct FrameState {
    pub items: Seq<TreeItem>,
    pub next: nat,
    pub prefix: Seq<char>,
    pub depth: nat,
}

impl View for Frame {
    type V = FrameState;

    closed spec fn view(&self) -> FrameState {
        FrameState {
            items: self.items@,
            next: self.next as nat,
            prefix: self.prefix@,
            depth: self.depth as nat,
        }
    }
}

/// A directory that a walk needs the entries of.
struct Wanted {
    ino: u32,
    prefix: String,
    depth: u32,
}

/// A directory that a walk needs the entries of.
pub struct WantedState {
    pub ino: u32,
    pub prefix: Seq<char>,
    pub depth: nat,
}

impl View for Wanted {
    type V = WantedState;

    closed spec fn view(&self) -> WantedState {
        WantedState { ino: self.ino, prefix: self.prefix@, depth: self.depth as nat }
    }
}

/// A walk through a tree: the directories that it is within, and the one that it needs.
pub struct TreeState {
    pub kind: TreeKind,
    pub max_entries: nat,
    pub stack: Seq<FrameState>,
    pub wanted: Option<WantedState>,
    pub most: nat,
}

/// What a walk gives next.
pub enum TreeStep {
    /// A line of the tree.
    Line(String),
    /// The walk needs the entries of the directory that it wants.
    Wants,
    /// The tree is complete.
    Done,
}

/// What a walk gives next.
pub enum StepView {
    Line(Seq<char>),
    Wants,
    Done,
}

impl View for TreeStep {
    type V = StepView;

    open spec fn view(&self) -> StepView {
        match self {
            TreeStep::Line(s) => StepView::Line(s@),
            TreeStep::Wants => StepView::Wants,
            TreeStep::Done => StepView::Done,
        }
    }
}

/// All entries of the directory that a tree shows were shown.
pub open spec fn frame_done(f: FrameState, max_entries: nat) -> bool {
    f.next >= limited(f.items.len(), max_entries)
}

/// The directories without the innermost ones that are done.
pub open spec fn unwound(stack: Seq<FrameState>, max_entries: nat) -> Seq<FrameState>
    decreases stack.len(),
{
    if stack.len() > 0 && frame_done(stack.last(), max_entries) {
        unwound(stack.drop_last(), max_entries)
    } else {
        stack
    }
}

/// The walk after one entry of the innermost directory was shown.
pub open spec fn after_line(t: TreeState) -> TreeState {
    let f = t.stack.last();
    let e = f.items[f.next as int];
    TreeState {
        stack: t.stack.drop_last().push(FrameState { next: f.next + 1, ..f }),
        wanted: if is_folder(e) && f.depth > 1 {
            Some(
                WantedState {
                    ino: e.ino,
                    prefix: inner_prefix(t.kind, f.prefix, f.next == f.items.len() - 1, e.name@),
                    depth: (f.depth - 1) as nat,
                },
            )
        } else {
            None
        },
        most: if t.most < f.next + 1 {
            f.next + 1
        } else {
            t.most
        },
        ..t
    }
}

/// One step of a walk: what it gives, and the walk after it.
pub open spec fn tree_step(t: TreeState) -> (StepView, TreeState) {
    if t.wanted is Some {
        (StepView::Wants, t)
    } else {
        let u = TreeState { stack: unwound(t.stack, t.max_entries), ..t };
        if u.stack.len() == 0 {
            (StepView::Done, u)
        } else {
            let f = u.stack.last();
            (StepView::Line(item_line(f.items, f.prefix, f.next as int)), after_line(u))
        }
    }
}

/// The walk after it got the entries of the directory that it wants.
pub open spec fn tree_fed(t: TreeState, entries: Seq<TreeItem>) -> TreeState {
    let w = t.wanted->0;
    TreeState {
        stack: t.stack.push(
            FrameState {
                items: shown_items(entries),
                next: 0,
                prefix: w.prefix,
                depth: w.depth,
            },
        ),
        wanted: None,
        ..t
    }
}

/// The start of a walk from the directory `ino`, down `depth` levels.
pub open spec fn tree_start(kind: TreeKind, ino: u32, depth: nat, max_entries: nat) -> TreeState {
    TreeState {
        kind,
        max_entries,
        stack: seq![],
        wanted: if depth > 0 {
            Some(WantedState { ino, prefix: seq![], depth })
        } else {
            None
        },
        most: 0,
    }
}

/// What holds of every walk: each of its directories has a level to go, no more of it was
/// shown than there is and than the walk knows of, and of none more than the limit.
pub open spec fn tree_sound(t: TreeState) -> bool {
    &&& forall|k: int|
        0 <= k < t.stack.len() ==> (#[trigger] t.stack[k]).depth > 0 && t.stack[k].next
            <= t.stack[k].items.len() && t.stack[k].next <= t.most
    &&& t.wanted matches Some(w) ==> w.depth > 0
    &&& t.most <= t.max_entries
}

/// The limit on the entries of one directory was reached.
pub open spec fn limit_reached(t: TreeState) -> bool {
    t.most >= t.max_entries
}

/// A walk through a tree.
pub struct TreeWalk {
    kind: TreeKind,
    max_entries: usize,
    stack: Vec<Frame>,
    wanted: Option<Wanted>,
    most: usize,
}

/// The directories of a list.
spec fn frames(v: Seq<Frame>) -> Seq<FrameState> {
    v.map_values(|f: Frame| f@)
}

impl View for TreeWalk {
    type V = TreeState;

    closed spec fn view(&self) -> TreeState {
        TreeState {
            kind: self.kind,
            max_entries: self.max_entries as nat,
            stack: frames(self.stack@),
            wanted: match self.wanted {
                Some(w) => Some(w@),
                None => None,
            },
            most: self.most as nat,
        }
    }
}

impl TreeWalk {
    #[verifier::type_invariant]
    closed spec fn always_sound(self) -> bool {
        tree_sound(self@)
    }

    /// The start of a walk from the directory `ino`, down `depth` levels, with at most
    /// `max_entries` entries of each directory.
    pub fn new(kind: TreeKind, ino: u32, depth: u32, max_entries: usize) -> (r: Self)
        ensures
            r@ == tree_start(kind, ino, depth as nat, max_entries as nat),
            tree_sound(r@),
    {
        let wanted = if depth > 0 {
            Some(Wanted { ino, prefix: String::new(), depth })
        } else {
            None
        };
        let r = TreeWalk { kind, max_entries, stack: Vec::new(), wanted, most: 0 };
        proof {
            assert(r@.stack =~= seq![]);
            if let Some(w) = r@.wanted {
                assert(w.prefix =~= seq![]);
            }
        }
        r
    }

    /// Goes one step on.
    pub fn step(&mut self) -> (r: TreeStep)
        ensures
            (r@, final(self)@) == tree_step(old(self)@),
            tree_sound(final(self)@),
    {
        proof {
            use_type_invariant(&*self);
        }
        if self.wanted.is_some() {
            return TreeStep::Wants;
        }
        let mut stack: Vec<Frame> = Vec::new();
        std::mem::swap(&mut stack, &mut self.stack);
        let ghost full = frames(stack@);
        let limit = self.max_entries;
        let mut open = true;
        while open && stack.len() > 0
            invariant
                unwound(full, limit as nat) == unwound(frames(stack@), limit as nat),
                frames(stack@) == full.take(stack@.len() as int),
                stack@.len() <= full.len(),
                !open ==> stack@.len() > 0 && !frame_done(stack@.last()@, limit as nat),
            decreases stack.len(), (if open { 1int } else { 0 }),
        {
            let top = &stack[stack.len() - 1];
            assert(frames(stack@).last() == stack@.last()@);
            if top.next < top.items.len() && top.next < limit {
                open = false;
            } else {
                let ghost before = stack@;
                stack.pop();
                assert(frames(stack@) =~= frames(before).drop_last());
                assert(frames(stack@) =~= full.take(stack@.len() as int));
            }
        }
        assert(unwound(full, limit as nat) == frames(stack@));
        match stack.pop() {
            None => {
                self.stack = stack;
                TreeStep::Done
            },
            Some(top) => {
                let ghost f = top@;
                let ghost rest = frames(stack@);
                assert(unwound(full, limit as nat).drop_last() =~= rest);
                assert(unwound(full, limit as nat).last() == f);
                assert(unwound(full, limit as nat) == full.take(rest.len() as int + 1));
                assert(f == full[rest.len() as int]);
                let Frame { items, next, prefix, depth } = top;
                let last = next == items.len() - 1;
                let mut line = prefix.clone();
                if last {
                    line.append("└── ");
                } else {
                    line.append("├── ");
                }
                line.append(icon_for(items[next].file_type));
                line.append(" ");
                line.append(items[next].name.as_str());
                if items[next].file_type == 2 && depth > 1 {
                    let mut inner = prefix.clone();
                    match self.kind {
                        TreeKind::Ext4 => {
                            if last {
                                inner.append("     ");
                            } else {
                                inner.append("│    ");
                            }
                        },
                        TreeKind::Fat => {
                            inner.append("/");
                            inner.append(items[next].name.as_str());
                        },
                    }
                    self.wanted = Some(
                        Wanted { ino: items[next].ino, prefix: inner, depth: depth - 1 },
                    );
                }
                if self.most < next + 1 {
                    self.most = next + 1;
                }
                let ghost before = stack@;
                stack.push(Frame { items, next: next + 1, prefix, depth });
                assert(frames(stack@) =~= rest.push(FrameState { next: f.next + 1, ..f }));
                self.stack = stack;
                TreeStep::Line(line)
            },
        }
    }

    /// The inode and the path of the directory that the walk needs.
    pub fn wants(&self) -> (r: Option<(u32, &str)>)
        ensures
            match r {
                Some((ino, path)) => self@.wanted matches Some(w) && w.ino == ino && w.prefix
                    == path@,
                None => self@.wanted is None,
            },
    {
        match &self.wanted {
            Some(w) => Some((w.ino, w.prefix.as_str())),
            None => None,
        }
    }

    /// Goes on with the entries of the directory that the walk needs.
    pub fn feed(&mut self, entries: Vec<TreeItem>)
        requires
            old(self)@.wanted is Some,
        ensures
            final(self)@ == tree_fed(old(self)@, entries@),
            tree_sound(final(self)@),
    {
        proof {
            use_type_invariant(&*self);
        }
        let mut wanted: Option<Wanted> = None;
        std::mem::swap(&mut wanted, &mut self.wanted);
        if let Some(w) = wanted {
            let items = sorted_items(entries);
            let mut stack: Vec<Frame> = Vec::new();
            std::mem::swap(&mut stack, &mut self.stack);
            let ghost before = stack@;
            let frame = Frame { items, next: 0, prefix: w.prefix, depth: w.depth };
            let ghost top = frame@;
            stack.push(frame);
            assert(frames(stack@) =~= frames(before).push(top));
            self.stack = stack;
        }
    }

    /// Whether of some directory as many entries were shown as the walk shows at most.
    pub fn reached_limit(&self) -> (r: bool)
        ensures
            r == limit_reached(self@),
    {
        self.most >= self.max_entries
    }
}

// ---------------------------------------------------------------- the walk gives the tree

/// The lines that the directories of a walk have still to give, the innermost first.
pub open spec fn stack_lines(
    t: TreeState,
    read: spec_fn(u32, Seq<char>) -> Seq<TreeItem>,
    stack: Seq<FrameState>,
) -> Seq<Seq<char>>
    decreases stack.len(),
{
    if stack.len() == 0 {
        seq![]
    } else {
        let f = stack.last();
        items_lines(t.kind, t.max_entries, read, f.items, f.prefix, f.depth, f.next) + stack_lines(
            t,
            read,
            stack.drop_last(),
        )
    }
}

/// The lines that a walk has still to give.
pub open spec fn rest_lines(
    t: TreeState,
    read: spec_fn(u32, Seq<char>) -> Seq<TreeItem>,
) -> Seq<Seq<char>> {
    match t.wanted {
        Some(w) => dir_lines(t.kind, t.max_entries, read, w.ino, w.prefix, w.depth) + stack_lines(
            t,
            read,
            t.stack,
        ),
        None => stack_lines(t, read, t.stack),
    }
}

proof fn lemma_unwound_lines(
    t: TreeState,
    read: spec_fn(u32, Seq<char>) -> Seq<TreeItem>,
    stack: Seq<FrameState>,
)
    ensures
        stack_lines(t, read, unwound(stack, t.max_entries)) == stack_lines(t, read, stack),
        unwound(stack, t.max_entries).len() <= stack.len(),
        unwound(stack, t.max_entries) == stack.take(unwound(stack, t.max_entries).len() as int),
        unwound(stack, t.max_entries).len() > 0 ==> !frame_done(
            unwound(stack, t.max_entries).last(),
            t.max_entries,
        ),
    decreases stack.len(),
{
    if stack.len() > 0 && frame_done(stack.last(), t.max_entries) {
        let rest = stack.drop_last();
        lemma_unwound_lines(t, read, rest);
        assert(seq![] + stack_lines(t, read, rest) =~= stack_lines(t, read, rest));
        assert(unwound(stack, t.max_entries) =~= stack.take(
            unwound(stack, t.max_entries).len() as int,
        ));
    } else {
        assert(stack =~= stack.take(stack.len() as int));
    }
}

/// A step gives the next line that a walk has still to give, or nothing where there is none.
pub proof fn law_step_gives_the_next_line(
    t: TreeState,
    read: spec_fn(u32, Seq<char>) -> Seq<TreeItem>,
)
    requires
        tree_sound(t),
    ensures
        tree_sound(tree_step(t).1),
        match tree_step(t).0 {
            StepView::Line(s) => rest_lines(t, read) == seq![s] + rest_lines(tree_step(t).1, read),
            StepView::Wants => tree_step(t).1 == t && t.wanted is Some,
            StepView::Done => rest_lines(t, read) == Seq::<Seq<char>>::empty() && t.wanted is None,
        },
{
    if t.wanted is None {
        lemma_unwound_lines(t, read, t.stack);
        let u = TreeState { stack: unwound(t.stack, t.max_entries), ..t };
        if u.stack.len() > 0 {
            let f = u.stack.last();
            assert(u.stack.last() == t.stack[u.stack.len() - 1]);
            let v = after_line(u);
            let outer = u.stack.drop_last();
            let g = FrameState { next: f.next + 1, ..f };
            assert(v.stack.drop_last() =~= outer);
            assert forall|k: int| 0 <= k < v.stack.len() implies (#[trigger] v.stack[k]).depth > 0
                && v.stack[k].next <= v.stack[k].items.len() && v.stack[k].next <= v.most by {
                if k < outer.len() {
                    assert(v.stack[k] == t.stack[k]);
                }
            }
            lemma_stack_lines_agree(t, v, read, outer);
            lemma_stack_lines_agree(t, u, read, u.stack);
            let line = item_line(f.items, f.prefix, f.next as int);
            let later = items_lines(
                t.kind,
                t.max_entries,
                read,
                f.items,
                f.prefix,
                f.depth,
                f.next + 1,
            );
            let below = stack_lines(t, read, outer);
            assert(stack_lines(v, read, v.stack) == later + below);
            let e = f.items[f.next as int];
            let inner = if is_folder(e) {
                dir_lines(
                    t.kind,
                    t.max_entries,
                    read,
                    e.ino,
                    inner_prefix(t.kind, f.prefix, f.next == f.items.len() - 1, e.name@),
                    (f.depth - 1) as nat,
                )
            } else {
                seq![]
            };
            assert(rest_lines(v, read) =~= inner + (later + below));
            assert((seq![line] + inner + later) + below =~= seq![line] + (inner + (later + below)));
        }
    }
}

proof fn lemma_stack_lines_agree(
    t: TreeState,
    u: TreeState,
    read: spec_fn(u32, Seq<char>) -> Seq<TreeItem>,
    stack: Seq<FrameState>,
)
    requires
        t.kind == u.kind,
        t.max_entries == u.max_entries,
    ensures
        stack_lines(t, read, stack) == stack_lines(u, read, stack),
    decreases stack.len(),
{
    if stack.len() > 0 {
        lemma_stack_lines_agree(t, u, read, stack.drop_last());
    }
}

/// A walk that gets the entries of the directory that it wants has the same lines to give.
pub proof fn law_feeding_keeps_the_lines(
    t: TreeState,
    read: spec_fn(u32, Seq<char>) -> Seq<TreeItem>,
)
    requires
        tree_sound(t),
        t.wanted is Some,
    ensures
        ({
            let w = t.wanted->0;
            let u = tree_fed(t, read(w.ino, w.prefix));
            tree_sound(u) && rest_lines(u, read) == rest_lines(t, read)
        }),
{
    let w = t.wanted->0;
    let u = tree_fed(t, read(w.ino, w.prefix));
    assert(u.stack.drop_last() =~= t.stack);
    lemma_stack_lines_agree(t, u, read, t.stack);
    assert forall|k: int| 0 <= k < u.stack.len() implies (#[trigger] u.stack[k]).depth > 0
        && u.stack[k].next <= u.stack[k].items.len() && u.stack[k].next <= u.most by {
        if k < t.stack.len() {
            assert(u.stack[k] == t.stack[k]);
        }
    }
}

/// The lines that a walk gives where each directory that it wants is read with `read`.
pub open spec fn tree_run(
    read: spec_fn(u32, Seq<char>) -> Seq<TreeItem>,
    t: TreeState,
) -> Seq<Seq<char>>
    decreases rest_lines(t, read).len(), (if t.wanted is Some { 1int } else { 0 }),
    when tree_sound(t)
{
    proof {
        law_step_gives_the_next_line(t, read);
        if t.wanted is Some {
            law_feeding_keeps_the_lines(t, read);
        }
    }
    match tree_step(t) {
        (StepView::Line(s), u) => seq![s] + tree_run(read, u),
        (StepView::Wants, u) => tree_run(
            read,
            tree_fed(u, read((u.wanted->0).ino, (u.wanted->0).prefix)),
        ),
        (StepView::Done, u) => seq![],
    }
}

proof fn lemma_run_gives_the_rest(read: spec_fn(u32, Seq<char>) -> Seq<TreeItem>, t: TreeState)
    requires
        tree_sound(t),
    ensures
        tree_run(read, t) == rest_lines(t, read),
    decreases rest_lines(t, read).len(), (if t.wanted is Some { 1int } else { 0 }),
{
    law_step_gives_the_next_line(t, read);
    match tree_step(t) {
        (StepView::Line(s), u) => {
            lemma_run_gives_the_rest(read, u);
        },
        (StepView::Wants, u) => {
            law_feeding_keeps_the_lines(t, read);
            lemma_run_gives_the_rest(
                read,
                tree_fed(u, read((u.wanted->0).ino, (u.wanted->0).prefix)),
            );
        },
        (StepView::Done, u) => {},
    }
}

/// A walk gives the lines of the whole tree, from its first directory down.
pub proof fn law_walk_gives_the_tree(
    kind: TreeKind,
    read: spec_fn(u32, Seq<char>) -> Seq<TreeItem>,
    ino: u32,
    depth: nat,
    max_entries: nat,
)
    ensures
        tree_run(read, tree_start(kind, ino, depth, max_entries)) == dir_lines(
            kind,
            max_entries,
            read,
            ino,
            seq![],
            depth,
        ),
{
    let t = tree_start(kind, ino, depth, max_entries);
    lemma_run_gives_the_rest(read, t);
    let lines = dir_lines(kind, max_entries, read, ino, seq![], depth);
    assert(lines + seq![] =~= lines);
}

// ---------------------------------------------------------------- the limit on entries

/// The directories that a tree looks into, from the directory `ino` down, in the order in which
/// it does: the inode and the path of each.
pub open spec fn dirs_visited(
    kind: TreeKind,
    max_entries: nat,
    read: spec_fn(u32, Seq<char>) -> Seq<TreeItem>,
    ino: u32,
    prefix: Seq<char>,
    depth: nat,
) -> Seq<(u32, Seq<char>)>
    decreases depth, 1int, 0int,
{
    if depth == 0 {
        seq![]
    } else {
        seq![(ino, prefix)] + items_visited(
            kind,
            max_entries,
            read,
            shown_items(read(ino, prefix)),
            prefix,
            depth,
            0,
        )
    }
}

/// The directories that a tree looks into from entry `i` of a directory on.
pub open spec fn items_visited(
    kind: TreeKind,
    max_entries: nat,
    read: spec_fn(u32, Seq<char>) -> Seq<TreeItem>,
    items: Seq<TreeItem>,
    prefix: Seq<char>,
    depth: nat,
    i: nat,
) -> Seq<(u32, Seq<char>)>
    decreases depth, 0int, items.len() - i,
{
    if i >= limited(items.len(), max_entries) || depth == 0 {
        seq![]
    } else {
        let e = items[i as int];
        let inner = if is_folder(e) {
            dirs_visited(
                kind,
                max_entries,
                read,
                e.ino,
                inner_prefix(kind, prefix, i == items.len() - 1, e.name@),
                (depth - 1) as nat,
            )
        } else {
            seq![]
        };
        inner + items_visited(kind, max_entries, read, items, prefix, depth, i + 1)
    }
}

/// The directory has as many entries as a tree shows of one, or more.
pub open spec fn is_full(
    read: spec_fn(u32, Seq<char>) -> Seq<TreeItem>,
    max_entries: nat,
    dir: (u32, Seq<char>),
) -> bool {
    shown_items(read(dir.0, dir.1)).len() >= max_entries
}

/// One of the directories has as many entries as a tree shows of one, or more.
pub open spec fn some_full(
    read: spec_fn(u32, Seq<char>) -> Seq<TreeItem>,
    max_entries: nat,
    dirs: Seq<(u32, Seq<char>)>,
) -> bool {
    exists|k: int| 0 <= k < dirs.len() && #[trigger] is_full(read, max_entries, dirs[k])
}

proof fn lemma_some_full_in_both(
    read: spec_fn(u32, Seq<char>) -> Seq<TreeItem>,
    max_entries: nat,
    a: Seq<(u32, Seq<char>)>,
    b: Seq<(u32, Seq<char>)>,
)
    ensures
        some_full(read, max_entries, a + b) == (some_full(read, max_entries, a) || some_full(
            read,
            max_entries,
            b,
        )),
{
    let both = a + b;
    if some_full(read, max_entries, both) {
        let k = choose|k: int|
            0 <= k < both.len() && #[trigger] is_full(read, max_entries, both[k]);
        if k < a.len() {
            assert(is_full(read, max_entries, a[k]));
        } else {
            assert(is_full(read, max_entries, b[k - a.len()]));
        }
    }
    if some_full(read, max_entries, a) {
        let k = choose|k: int| 0 <= k < a.len() && #[trigger] is_full(read, max_entries, a[k]);
        assert(is_full(read, max_entries, both[k]));
    }
    if some_full(read, max_entries, b) {
        let k = choose|k: int| 0 <= k < b.len() && #[trigger] is_full(read, max_entries, b[k]);
        assert(is_full(read, max_entries, both[k + a.len()]));
    }
}

/// A directory of the walk has, or leads to one that has, as many entries as the walk shows.
spec fn frame_reaches(
    t: TreeState,
    read: spec_fn(u32, Seq<char>) -> Seq<TreeItem>,
    f: FrameState,
) -> bool {
    f.items.len() >= t.max_entries || some_full(
        read,
        t.max_entries,
        items_visited(t.kind, t.max_entries, read, f.items, f.prefix, f.depth, f.next),
    )
}

spec fn stack_reaches(
    t: TreeState,
    read: spec_fn(u32, Seq<char>) -> Seq<TreeItem>,
    stack: Seq<FrameState>,
) -> bool
    decreases stack.len(),
{
    stack.len() > 0 && (frame_reaches(t, read, stack.last()) || stack_reaches(
        t,
        read,
        stack.drop_last(),
    ))
}

/// The walk has reached the limit or will.
spec fn will_reach(t: TreeState, read: spec_fn(u32, Seq<char>) -> Seq<TreeItem>) -> bool {
    ||| limit_reached(t)
    ||| t.wanted matches Some(w) && some_full(
        read,
        t.max_entries,
        dirs_visited(t.kind, t.max_entries, read, w.ino, w.prefix, w.depth),
    )
    ||| stack_reaches(t, read, t.stack)
}

proof fn lemma_stack_reaches_agree(
    t: TreeState,
    u: TreeState,
    read: spec_fn(u32, Seq<char>) -> Seq<TreeItem>,
    stack: Seq<FrameState>,
)
    requires
        t.kind == u.kind,
        t.max_entries == u.max_entries,
    ensures
        stack_reaches(t, read, stack) == stack_reaches(u, read, stack),
    decreases stack.len(),
{
    if stack.len() > 0 {
        lemma_stack_reaches_agree(t, u, read, stack.drop_last());
    }
}

proof fn lemma_unwound_reaches(
    t: TreeState,
    read: spec_fn(u32, Seq<char>) -> Seq<TreeItem>,
    stack: Seq<FrameState>,
)
    requires
        forall|k: int| 0 <= k < stack.len() ==> (#[trigger] stack[k]).next <= t.most,
        !limit_reached(t),
    ensures
        stack_reaches(t, read, unwound(stack, t.max_entries)) == stack_reaches(t, read, stack),
    decreases stack.len(),
{
    if stack.len() > 0 && frame_done(stack.last(), t.max_entries) {
        let f = stack.last();
        let rest = stack.drop_last();
        assert(stack[stack.len() - 1].next <= t.most);
        assert forall|k: int| 0 <= k < rest.len() implies (#[trigger] rest[k]).next <= t.most by {
            assert(rest[k] == stack[k]);
        }
        lemma_unwound_reaches(t, read, rest);
        assert(items_visited(t.kind, t.max_entries, read, f.items, f.prefix, f.depth, f.next)
            =~= seq![]);
        assert(!frame_reaches(t, read, f));
    }
}

proof fn lemma_step_keeps_reaching(
    t: TreeState,
    read: spec_fn(u32, Seq<char>) -> Seq<TreeItem>,
)
    requires
        tree_sound(t),
    ensures
        will_reach(tree_step(t).1, read) == will_reach(t, read),
        tree_step(t).0 is Done ==> will_reach(t, read) == limit_reached(tree_step(t).1),
{
    if t.wanted is None {
        lemma_unwound_lines(t, read, t.stack);
        let u = TreeState { stack: unwound(t.stack, t.max_entries), ..t };
        if !limit_reached(t) {
            lemma_unwound_reaches(t, read, t.stack);
            lemma_stack_reaches_agree(t, u, read, u.stack);
            if u.stack.len() > 0 {
                let f = u.stack.last();
                assert(f == t.stack[u.stack.len() - 1]);
                let v = after_line(u);
                let outer = u.stack.drop_last();
                let g = FrameState { next: f.next + 1, ..f };
                assert(v.stack.last() == g);
                assert(v.stack.drop_last() =~= outer);
                lemma_stack_reaches_agree(u, v, read, outer);
                let e = f.items[f.next as int];
                let inner = if is_folder(e) {
                    dirs_visited(
                        t.kind,
                        t.max_entries,
                        read,
                        e.ino,
                        inner_prefix(t.kind, f.prefix, f.next == f.items.len() - 1, e.name@),
                        (f.depth - 1) as nat,
                    )
                } else {
                    seq![]
                };
                let later = items_visited(
                    t.kind,
                    t.max_entries,
                    read,
                    f.items,
                    f.prefix,
                    f.depth,
                    f.next + 1,
                );
                lemma_some_full_in_both(read, t.max_entries, inner, later);
                assert(v.wanted is None ==> inner =~= seq![]);
            }
        }
    }
}

proof fn lemma_feeding_keeps_reaching(
    t: TreeState,
    read: spec_fn(u32, Seq<char>) -> Seq<TreeItem>,
)
    requires
        tree_sound(t),
        t.wanted is Some,
    ensures
        ({
            let w = t.wanted->0;
            will_reach(tree_fed(t, read(w.ino, w.prefix)), read) == will_reach(t, read)
        }),
{
    let w = t.wanted->0;
    let u = tree_fed(t, read(w.ino, w.prefix));
    let f = u.stack.last();
    assert(u.stack.drop_last() =~= t.stack);
    lemma_stack_reaches_agree(t, u, read, t.stack);
    let here = seq![(w.ino, w.prefix)];
    let later = items_visited(t.kind, t.max_entries, read, f.items, f.prefix, f.depth, 0);
    lemma_some_full_in_both(read, t.max_entries, here, later);
    assert(some_full(read, t.max_entries, here) == (f.items.len() >= t.max_entries)) by {
        if f.items.len() >= t.max_entries {
            assert(is_full(read, t.max_entries, here[0]));
        }
    }
}

/// The end of a walk where each directory that it wants is read with `read`.
pub open spec fn tree_end(
    read: spec_fn(u32, Seq<char>) -> Seq<TreeItem>,
    t: TreeState,
) -> TreeState
    decreases rest_lines(t, read).len(), (if t.wanted is Some { 1int } else { 0 }),
    when tree_sound(t)
{
    proof {
        law_step_gives_the_next_line(t, read);
        if t.wanted is Some {
            law_feeding_keeps_the_lines(t, read);
        }
    }
    match tree_step(t) {
        (StepView::Line(s), u) => tree_end(read, u),
        (StepView::Wants, u) => tree_end(
            read,
            tree_fed(u, read((u.wanted->0).ino, (u.wanted->0).prefix)),
        ),
        (StepView::Done, u) => u,
    }
}

proof fn lemma_end_has_reached(read: spec_fn(u32, Seq<char>) -> Seq<TreeItem>, t: TreeState)
    requires
        tree_sound(t),
    ensures
        limit_reached(tree_end(read, t)) == will_reach(t, read),
    decreases rest_lines(t, read).len(), (if t.wanted is Some { 1int } else { 0 }),
{
    law_step_gives_the_next_line(t, read);
    lemma_step_keeps_reaching(t, read);
    match tree_step(t) {
        (StepView::Line(s), u) => {
            lemma_end_has_reached(read, u);
        },
        (StepView::Wants, u) => {
            law_feeding_keeps_the_lines(t, read);
            lemma_feeding_keeps_reaching(t, read);
            lemma_end_has_reached(
                read,
                tree_fed(u, read((u.wanted->0).ino, (u.wanted->0).prefix)),
            );
        },
        (StepView::Done, u) => {},
    }
}

/// A complete walk ends with the limit reached exactly where it shows no entries at all, or one
/// of the directories that it looked into has as many entries as it shows of one, or more.
pub proof fn law_limit_is_reached_by_a_full_directory(
    kind: TreeKind,
    read: spec_fn(u32, Seq<char>) -> Seq<TreeItem>,
    ino: u32,
    depth: nat,
    max_entries: nat,
)
    ensures
        limit_reached(tree_end(read, tree_start(kind, ino, depth, max_entries))) <==> (max_entries
            == 0 || some_full(
            read,
            max_entries,
            dirs_visited(kind, max_entries, read, ino, seq![], depth),
        )),
{
    lemma_end_has_reached(read, tree_start(kind, ino, depth, max_entries));
}

// ---------------------------------------------------------------- what a tree shows

/// The name stands for the directory itself or the one above it: one dot, or two, and nothing
/// else.
pub open spec fn one_or_two_dots(name: Seq<char>) -> bool {
    (name.len() == 1 && name[0] == '.') || (name.len() == 2 && name[0] == '.' && name[1] == '.')
}

/// A tree shows of a directory every entry that is listed, as often as it is listed, but for
/// those named by one dot or two alone; a name may start with a dot.
pub proof fn law_every_entry_is_shown(entries: Seq<TreeItem>, e: TreeItem)
    ensures
        one_or_two_dots(e.name@) ==> shown_items(entries).to_multiset().count(e) == 0,
        !one_or_two_dots(e.name@) ==> shown_items(entries).to_multiset().count(e)
            == entries.to_multiset().count(e),
        e.name@.len() > 2 ==> shown_items(entries).to_multiset().count(e)
            == entries.to_multiset().count(e),
{
    let keep = |e: TreeItem| !is_dots(e);
    reveal_strlit(".");
    reveal_strlit("..");
    if one_or_two_dots(e.name@) {
        assert(e.name@ =~= "."@ || e.name@ =~= ".."@);
    }
    crate::sorting::lemma_filter_counts(entries, keep, e);
    crate::sorting::law_sorting_keeps_the_values(entries.filter(keep));
}

/// A tree shows directories before other entries, and either by the bytes of their names.
pub proof fn law_entries_are_shown_in_order(entries: Seq<TreeItem>, i: int, j: int)
    requires
        0 <= i < j < shown_items(entries).len(),
    ensures
        ({
            let a = shown_items(entries)[i];
            let b = shown_items(entries)[j];
            &&& b.file_type == 2 ==> a.file_type == 2
            &&& (a.file_type == 2) == (b.file_type == 2) ==> !bytes_before(
                encode_utf8(b.name@),
                encode_utf8(a.name@),
            )
        }),
{
    let kept = entries.filter(|e: TreeItem| !is_dots(e));
    crate::sorting::law_sorted_list_is_in_order(kept);
    let s = shown_items(entries);
    assert(!s[i].goes_after(s[j]));
}

/// The line for an entry: the prefix, a branch that tells whether more entries follow, a picture
/// that tells what it is, and the name.
pub open spec fn line_of_entry(e: TreeItem, prefix: Seq<char>, last: bool) -> Seq<char> {
    prefix + (if last { "└── "@ } else { "├── "@ }) + (if e.file_type == 2 {
        "📁"@
    } else if e.file_type == 1 {
        "📄"@
    } else if e.file_type == 7 {
        "🔗"@
    } else {
        "❓"@
    }) + " "@ + e.name@
}

/// The prefix below an entry: branches go on where more entries follow; on FAT it is the path.
pub open spec fn prefix_below(
    kind: TreeKind,
    e: TreeItem,
    prefix: Seq<char>,
    last: bool,
) -> Seq<char> {
    if kind == TreeKind::Fat {
        prefix + "/"@ + e.name@
    } else if last {
        prefix + "     "@
    } else {
        prefix + "│    "@
    }
}

/// The lines below an entry: those of the directory that it is; none below any other entry.
pub open spec fn lines_below(
    kind: TreeKind,
    max_entries: nat,
    read: spec_fn(u32, Seq<char>) -> Seq<TreeItem>,
    e: TreeItem,
    prefix: Seq<char>,
    depth: nat,
) -> Seq<Seq<char>> {
    if e.file_type == 2 {
        dir_lines(kind, max_entries, read, e.ino, prefix, depth)
    } else {
        seq![]
    }
}

/// Of the lines, number `at[k]` is the one for entry `k`, and between it and number `at[k + 1]`
/// stand those below it.
pub open spec fn entry_stands_at(
    lines: Seq<Seq<char>>,
    at: Seq<int>,
    kind: TreeKind,
    max_entries: nat,
    read: spec_fn(u32, Seq<char>) -> Seq<TreeItem>,
    items: Seq<TreeItem>,
    prefix: Seq<char>,
    depth: nat,
    k: int,
) -> bool {
    let e = items[k];
    let last = k == items.len() - 1;
    &&& 0 <= at[k] < at[k + 1] <= lines.len()
    &&& lines[at[k]] == line_of_entry(e, prefix, last)
    &&& lines.subrange(at[k] + 1, at[k + 1]) == lines_below(
        kind,
        max_entries,
        read,
        e,
        prefix_below(kind, e, prefix, last),
        (depth - 1) as nat,
    )
}

/// The lines for the entries before number `i` of a directory.
spec fn lines_before(
    kind: TreeKind,
    max_entries: nat,
    read: spec_fn(u32, Seq<char>) -> Seq<TreeItem>,
    items: Seq<TreeItem>,
    prefix: Seq<char>,
    depth: nat,
    i: int,
) -> Seq<Seq<char>>
    decreases i,
{
    if i <= 0 {
        seq![]
    } else {
        let e = items[i - 1];
        let last = i == items.len();
        lines_before(kind, max_entries, read, items, prefix, depth, i - 1) + (seq![
            line_of_entry(e, prefix, last),
        ] + lines_below(
            kind,
            max_entries,
            read,
            e,
            prefix_below(kind, e, prefix, last),
            (depth - 1) as nat,
        ))
    }
}

proof fn lemma_lines_before_and_after(
    kind: TreeKind,
    max_entries: nat,
    read: spec_fn(u32, Seq<char>) -> Seq<TreeItem>,
    items: Seq<TreeItem>,
    prefix: Seq<char>,
    depth: nat,
    i: nat,
)
    requires
        depth > 0,
        i <= items.len(),
        i <= max_entries,
    ensures
        items_lines(kind, max_entries, read, items, prefix, depth, 0) == lines_before(
            kind,
            max_entries,
            read,
            items,
            prefix,
            depth,
            i as int,
        ) + items_lines(kind, max_entries, read, items, prefix, depth, i),
    decreases i,
{
    let all = items_lines(kind, max_entries, read, items, prefix, depth, 0);
    if i == 0 {
        assert(seq![] + all =~= all);
    } else {
        let j = (i - 1) as nat;
        lemma_lines_before_and_after(kind, max_entries, read, items, prefix, depth, j);
        let e = items[j as int];
        let last = i == items.len();
        let before = lines_before(kind, max_entries, read, items, prefix, depth, j as int);
        let rest = items_lines(kind, max_entries, read, items, prefix, depth, i);
        let own = seq![line_of_entry(e, prefix, last)];
        let below = lines_below(
            kind,
            max_entries,
            read,
            e,
            prefix_below(kind, e, prefix, last),
            (depth - 1) as nat,
        );
        assert(item_line(items, prefix, j as int) == own[0]);
        assert(inner_prefix(kind, prefix, last, e.name@) == prefix_below(kind, e, prefix, last));
        assert(items_lines(kind, max_entries, read, items, prefix, depth, j) == own + below + rest);
        assert(before + (own + below + rest) =~= before + (own + below) + rest);
    }
}

proof fn lemma_entries_stand(
    kind: TreeKind,
    max_entries: nat,
    read: spec_fn(u32, Seq<char>) -> Seq<TreeItem>,
    items: Seq<TreeItem>,
    prefix: Seq<char>,
    depth: nat,
    n: nat,
) -> (at: Seq<int>)
    ensures
        at.len() == n + 1,
        at[0] == 0,
        at[n as int] == lines_before(kind, max_entries, read, items, prefix, depth, n as int).len(),
        forall|k: int|
            0 <= k < n ==> #[trigger] entry_stands_at(
                lines_before(kind, max_entries, read, items, prefix, depth, n as int),
                at,
                kind,
                max_entries,
                read,
                items,
                prefix,
                depth,
                k,
            ),
    decreases n,
{
    let lines = lines_before(kind, max_entries, read, items, prefix, depth, n as int);
    if n == 0 {
        seq![0int]
    } else {
        let m = (n - 1) as nat;
        let front = lemma_entries_stand(kind, max_entries, read, items, prefix, depth, m);
        let before = lines_before(kind, max_entries, read, items, prefix, depth, m as int);
        let at = front.push(lines.len() as int);
        let e = items[m as int];
        let last = n == items.len();
        let below = lines_below(
            kind,
            max_entries,
            read,
            e,
            prefix_below(kind, e, prefix, last),
            (depth - 1) as nat,
        );
        assert forall|k: int| 0 <= k < n implies #[trigger] entry_stands_at(
            lines,
            at,
            kind,
            max_entries,
            read,
            items,
            prefix,
            depth,
            k,
        ) by {
            if k < m {
                assert(entry_stands_at(
                    before,
                    front,
                    kind,
                    max_entries,
                    read,
                    items,
                    prefix,
                    depth,
                    k,
                ));
                assert(at[k] == front[k] && at[k + 1] == front[k + 1]);
                assert(lines.subrange(at[k] + 1, at[k + 1]) =~= before.subrange(
                    at[k] + 1,
                    at[k + 1],
                ));
            } else {
                assert(lines.subrange(at[k] + 1, at[k + 1]) =~= below);
            }
        }
        at
    }
}

/// The places in a list of lines, one for each entry and one behind the last.
pub open spec fn places_of_entries(
    lines: Seq<Seq<char>>,
    at: Seq<int>,
    kind: TreeKind,
    max_entries: nat,
    read: spec_fn(u32, Seq<char>) -> Seq<TreeItem>,
    items: Seq<TreeItem>,
    prefix: Seq<char>,
    depth: nat,
) -> bool {
    let n = if items.len() < max_entries { items.len() } else { max_entries };
    &&& at.len() == n + 1
    &&& at[0] == 0
    &&& at[n as int] == lines.len()
    &&& forall|k: int|
        0 <= k < n ==> #[trigger] entry_stands_at(
            lines,
            at,
            kind,
            max_entries,
            read,
            items,
            prefix,
            depth,
            k,
        )
}

/// A tree has, of a directory with levels to go, a line for each entry that it shows, up to the
/// limit, in order; behind the line of a directory follow directly the lines of that directory,
/// with a level less to go. Without levels to go there are no lines.
pub proof fn law_tree_has_a_line_for_each_entry(
    kind: TreeKind,
    max_entries: nat,
    read: spec_fn(u32, Seq<char>) -> Seq<TreeItem>,
    ino: u32,
    prefix: Seq<char>,
    depth: nat,
)
    ensures
        depth == 0 ==> dir_lines(kind, max_entries, read, ino, prefix, depth).len() == 0,
        depth > 0 ==> exists|at: Seq<int>|
            #[trigger] places_of_entries(
                dir_lines(kind, max_entries, read, ino, prefix, depth),
                at,
                kind,
                max_entries,
                read,
                shown_items(read(ino, prefix)),
                prefix,
                depth,
            ),
{
    if depth > 0 {
        let items = shown_items(read(ino, prefix));
        let n = if items.len() < max_entries { items.len() } else { max_entries };
        let lines = dir_lines(kind, max_entries, read, ino, prefix, depth);
        let before = lines_before(kind, max_entries, read, items, prefix, depth, n as int);
        lemma_lines_before_and_after(kind, max_entries, read, items, prefix, depth, n);
        assert(lines =~= before);
        let at = lemma_entries_stand(kind, max_entries, read, items, prefix, depth, n);
        assert(places_of_entries(lines, at, kind, max_entries, read, items, prefix, depth));
    }
}

/// A picture stands for a directory, a file, a link, or anything else.
pub proof fn law_pictures_tell_the_type(file_type: u8)
    ensures
        icon(file_type) == (if file_type == 2 {
            "📁"@
        } else if file_type == 1 {
            "📄"@
        } else if file_type == 7 {
            "🔗"@
        } else {
            "❓"@
        }),
{
}

/// Entries of the same name and kind are shown in the order in which they are listed.
pub proof fn law_same_names_stay_in_order(entries: Seq<TreeItem>, x: TreeItem)
    requires
        !one_or_two_dots(x.name@),
    ensures
        shown_items(entries).filter(
            |y: TreeItem| y.name@ == x.name@ && (y.file_type == 2) == (x.file_type == 2),
        ) == entries.filter(
            |y: TreeItem| y.name@ == x.name@ && (y.file_type == 2) == (x.file_type == 2),
        ),
{
    let same = |y: TreeItem| y.name@ == x.name@ && (y.file_type == 2) == (x.file_type == 2);
    let tie = |y: TreeItem| crate::sorting::tied(x, y);
    let keep = |e: TreeItem| !is_dots(e);
    let kept = entries.filter(keep);
    assert forall|y: TreeItem| #[trigger] tie(y) == same(y) by {
        let a = encode_utf8(x.name@);
        let b = encode_utf8(y.name@);
        crate::sorting::law_bytes_are_ordered(a, b);
        crate::sorting::law_bytes_are_ordered(b, a);
        crate::text::lemma_bytes_tell_texts_apart(x.name@, y.name@);
    }
    assert(tie =~= same);
    crate::sorting::law_sorting_keeps_ties(kept, x);
    reveal_strlit(".");
    reveal_strlit("..");
    assert forall|y: TreeItem| #[trigger] same(y) implies keep(y) by {
        if is_dots(y) {
            assert(one_or_two_dots(x.name@));
        }
    }
    crate::sorting::lemma_filter_twice(entries, keep, same);
}

} // verus!
