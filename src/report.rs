//! Grouping items by file and rendering the report.
use vstd::prelude::*;

use itertools::Itertools;

use crate::item::{checkbox, markdown_line, text_line, TodoItem, TodoView};
use crate::extract::{next_occurrence, occurs_at};
use crate::scan::{lines_from, lines_of, strip_cr};
use crate::text::push_char;

verus! {

/// How each item is rendered.
#[derive(Clone, Copy, Debug, PartialEq, Eq, Structural)]
pub enum OutputFormat {
    Markdown,
    Text,
}

/// What the report is grouped by.
#[derive(Clone, Copy, Debug, PartialEq, Eq, Structural)]
pub enum GroupBy {
    File,
}

/// The items found in one file, under its path.
#[derive(Debug)]
pub struct TodoGroup {
    pub path: String,
    pub items: Vec<TodoItem>,
}

impl View for TodoGroup {
    type V = (Seq<char>, Seq<TodoView>);

    open spec fn view(&self) -> (Seq<char>, Seq<TodoView>) {
        (self.path@, self.items@.map_values(|t: TodoItem| t@))
    }
}

/// Index where run `g` starts, given the lengths of the runs.
pub open spec fn run_start(runs: Seq<usize>, g: int) -> int
    decreases g,
{
    if g <= 0 {
        0
    } else {
        run_start(runs, g - 1) + runs[g - 1]
    }
}

/// `runs` are the lengths of the maximal runs of equal adjacent `keys`.
pub open spec fn splits_into_runs(keys: Seq<Seq<char>>, runs: Seq<usize>) -> bool {
    &&& run_start(runs, runs.len() as int) == keys.len()
    &&& forall|g: int| 0 <= g < runs.len() ==> runs[g] > 0
    &&& forall|g: int, k: int|
        #![trigger keys[k], run_start(runs, g)]
        0 <= g < runs.len() && run_start(runs, g) <= k < run_start(runs, g + 1) ==> keys[k]
            == keys[run_start(runs, g)]
    &&& forall|g: int|
        0 < g < runs.len() ==> keys[run_start(runs, g)] != keys[#[trigger] run_start(runs, g) - 1]
}

/// Relies on itertools' `chunk_by`: consecutive elements with equal keys
/// (compared with `String`'s `==`) form one group, in order; each group is
/// handed on as its length.
#[verifier::external_body]
fn path_runs(paths: &Vec<String>) -> (r: Vec<usize>)
    ensures
        splits_into_runs(paths@.map_values(|p: String| p@), r@),
{
    paths.iter().chunk_by(|p| *p).into_iter().map(|(_, run)| run.count()).collect()
}

/// The items of `groups`, one group after the other.
pub open spec fn flatten(groups: Seq<(Seq<char>, Seq<TodoView>)>) -> Seq<TodoView>
    decreases groups.len(),
{
    if groups.len() == 0 {
        seq![]
    } else {
        flatten(groups.drop_last()) + groups.last().1
    }
}

/// `groups` are the runs of adjacent items of `items` that share a path,
/// each under that path.
pub open spec fn is_grouping(items: Seq<TodoView>, groups: Seq<(Seq<char>, Seq<TodoView>)>) -> bool {
    &&& flatten(groups) == items
    &&& forall|g: int| 0 <= g < groups.len() ==> #[trigger] groups[g].1.len() > 0
    &&& forall|g: int, k: int|
        0 <= g < groups.len() && 0 <= k < groups[g].1.len() ==> #[trigger] groups[g].1[k].path
            == groups[g].0
    &&& forall|g: int| 0 < g < groups.len() ==> #[trigger] groups[g].0 != groups[g - 1].0
}

proof fn lemma_run_start_grows(runs: Seq<usize>, g: int, h: int)
    requires
        0 <= g <= h,
    ensures
        run_start(runs, g) <= run_start(runs, h),
    decreases h - g,
{
    if g < h {
        lemma_run_start_grows(runs, g, h - 1);
    }
}

fn copy_item(t: &TodoItem) -> (r: TodoItem)
    ensures
        r@ == t@,
{
    TodoItem {
        path: t.path.clone(),
        task: t.task.clone(),
        line_number: t.line_number,
        display_detail: t.display_detail,
    }
}

proof fn lemma_grouping_extends(
    iv: Seq<TodoView>,
    keys: Seq<Seq<char>>,
    runs: Seq<usize>,
    g: int,
    old_groups: Seq<(Seq<char>, Seq<TodoView>)>,
)
    requires
        keys.len() == iv.len(),
        forall|k: int| 0 <= k < iv.len() ==> #[trigger] keys[k] == iv[k].path,
        splits_into_runs(keys, runs),
        0 <= g < runs.len(),
        old_groups.len() == g,
        is_grouping(iv.take(run_start(runs, g)), old_groups),
        g > 0 ==> old_groups[g - 1].0 == keys[run_start(runs, g) - 1],
    ensures
        is_grouping(
            iv.take(run_start(runs, g + 1)),
            old_groups.push(
                (
                    keys[run_start(runs, g)],
                    iv.subrange(run_start(runs, g), run_start(runs, g + 1)),
                ),
            ),
        ),
{
    let pos = run_start(runs, g);
    let end = run_start(runs, g + 1);
    lemma_run_start_grows(runs, g + 1, runs.len() as int);
    lemma_run_start_grows(runs, 0, g);
    assert(pos <= end <= iv.len());
    let member_view = iv.subrange(pos, end);
    let gv = old_groups.push((keys[pos], member_view));
    assert(gv.drop_last() =~= old_groups);
    assert(iv.take(end) =~= iv.take(pos) + member_view);
    assert forall|j: int| 0 <= j < member_view.len() implies #[trigger] member_view[j].path
        == keys[pos] by {
        assert(keys[pos + j] == keys[run_start(runs, g)]);
    }
    assert forall|h: int, j: int|
        0 <= h < gv.len() && 0 <= j < gv[h].1.len() implies #[trigger] gv[h].1[j].path
        == gv[h].0 by {
        if h < g {
            assert(gv[h] == old_groups[h]);
        }
    }
    if g > 0 {
        assert(keys[run_start(runs, g)] != keys[run_start(runs, g) - 1]);
    }
    assert forall|h: int| 0 < h < gv.len() implies #[trigger] gv[h].0 != gv[h - 1].0 by {
        if h < g {
            assert(gv[h] == old_groups[h]);
            assert(gv[h - 1] == old_groups[h - 1]);
        }
    }
    assert forall|h: int| 0 <= h < gv.len() implies #[trigger] gv[h].1.len() > 0 by {
        if h < g {
            assert(gv[h] == old_groups[h]);
        }
    }
}

/// The items split into runs of adjacent items with the same path, in order.
pub fn group_by_file(items: &Vec<TodoItem>) -> (r: Vec<TodoGroup>)
    ensures
        is_grouping(
            items@.map_values(|t: TodoItem| t@),
            r@.map_values(|g: TodoGroup| g@),
        ),
{
    let ghost iv = items@.map_values(|t: TodoItem| t@);
    let mut paths: Vec<String> = Vec::new();
    let mut i: usize = 0;
    while i < items.len()
        invariant
            i <= items@.len(),
            paths@.len() == i,
            forall|k: int| 0 <= k < i ==> #[trigger] paths@[k]@ == items@[k].path@,
        decreases items@.len() - i,
    {
        paths.push(items[i].path.clone());
        i = i + 1;
    }
    let ghost keys = paths@.map_values(|p: String| p@);
    assert(forall|k: int| 0 <= k < items@.len() ==> #[trigger] keys[k] == iv[k].path);
    let runs = path_runs(&paths);
    let n = items.len();
    assert(iv.take(0) =~= Seq::<TodoView>::empty());
    assert(flatten(Seq::<(Seq<char>, Seq<TodoView>)>::empty()) =~= Seq::<TodoView>::empty());
    let mut groups: Vec<TodoGroup> = Vec::new();
    let mut pos: usize = 0;
    let mut g: usize = 0;
    while g < runs.len()
        invariant
            iv == items@.map_values(|t: TodoItem| t@),
            n == iv.len(),
            keys.len() == iv.len(),
            forall|k: int| 0 <= k < iv.len() ==> #[trigger] keys[k] == iv[k].path,
            splits_into_runs(keys, runs@),
            g <= runs@.len(),
            pos == run_start(runs@, g as int),
            groups@.len() == g,
            is_grouping(iv.take(pos as int), groups@.map_values(|x: TodoGroup| x@)),
            g > 0 ==> groups@[g - 1]@.0 == keys[pos - 1],
        decreases runs@.len() - g,
    {
        proof {
            lemma_run_start_grows(runs@, g + 1, runs@.len() as int);
        }
        let len = runs[g];
        let end = pos + len;
        let mut members: Vec<TodoItem> = Vec::new();
        let mut k: usize = pos;
        while k < end
            invariant
                pos <= k <= end <= iv.len(),
                iv == items@.map_values(|t: TodoItem| t@),
                members@.map_values(|t: TodoItem| t@) == iv.subrange(pos as int, k as int),
            decreases end - k,
        {
            let ghost before = members@;
            let item = copy_item(&items[k]);
            assert(item@ == iv[k as int]);
            members.push(item);
            assert(members@.map_values(|t: TodoItem| t@) =~= before.map_values(|t: TodoItem| t@).push(
                iv[k as int],
            ));
            assert(iv.subrange(pos as int, k + 1) =~= iv.subrange(pos as int, k as int).push(
                iv[k as int],
            ));
            k = k + 1;
        }
        let path = items[pos].path.clone();
        let ghost old_groups = groups@.map_values(|x: TodoGroup| x@);
        groups.push(TodoGroup { path, items: members });
        proof {
            let member_view = iv.subrange(pos as int, end as int);
            assert(groups@.map_values(|x: TodoGroup| x@) =~= old_groups.push(
                (keys[pos as int], member_view),
            ));
            lemma_grouping_extends(iv, keys, runs@, g as int, old_groups);
        }
        pos = end;
        g = g + 1;
    }
    assert(iv.take(pos as int) =~= iv);
    groups
}

/// Items in which each path's items are adjacent: no path comes back after
/// another one, as when every file is scanned once.
pub open spec fn paths_contiguous(items: Seq<TodoView>) -> bool {
    forall|i: int, j: int, k: int|
        #![trigger items[i], items[j], items[k]]
        0 <= i < j < k < items.len() && items[i].path == items[k].path ==> items[j].path
            == items[i].path
}

/// Index in the items where group `g` starts.
pub open spec fn group_offset(groups: Seq<(Seq<char>, Seq<TodoView>)>, g: int) -> int {
    flatten(groups.take(g)).len() as int
}

proof fn lemma_offset_step(groups: Seq<(Seq<char>, Seq<TodoView>)>, g: int)
    requires
        0 <= g < groups.len(),
    ensures
        flatten(groups.take(g + 1)) == flatten(groups.take(g)) + groups[g].1,
        group_offset(groups, g + 1) == group_offset(groups, g) + groups[g].1.len(),
{
    assert(groups.take(g + 1).drop_last() =~= groups.take(g));
}

proof fn lemma_offset_grows(groups: Seq<(Seq<char>, Seq<TodoView>)>, g: int, h: int)
    requires
        0 <= g <= h <= groups.len(),
        forall|x: int| 0 <= x < groups.len() ==> #[trigger] groups[x].1.len() > 0,
    ensures
        group_offset(groups, g) + (h - g) <= group_offset(groups, h),
    decreases h - g,
{
    if g < h {
        lemma_offset_grows(groups, g, h - 1);
        lemma_offset_step(groups, h - 1);
    }
}

/// Item `j` of group `g` is the item at the group's offset plus `j`.
proof fn lemma_group_member(groups: Seq<(Seq<char>, Seq<TodoView>)>, g: int, j: int)
    requires
        0 <= g < groups.len(),
        0 <= j < groups[g].1.len(),
    ensures
        group_offset(groups, g) + j < flatten(groups).len(),
        flatten(groups)[group_offset(groups, g) + j] == groups[g].1[j],
    decreases groups.len() - g,
{
    lemma_offset_step(groups, g);
    let i = group_offset(groups, g) + j;
    assert(flatten(groups.take(g + 1))[i] == groups[g].1[j]);
    lemma_prefix_of_flatten(groups, g + 1, i);
}

proof fn lemma_prefix_of_flatten(groups: Seq<(Seq<char>, Seq<TodoView>)>, g: int, i: int)
    requires
        0 <= g <= groups.len(),
        0 <= i < flatten(groups.take(g)).len(),
    ensures
        i < flatten(groups).len(),
        flatten(groups)[i] == flatten(groups.take(g))[i],
    decreases groups.len() - g,
{
    if g == groups.len() {
        assert(groups.take(g) =~= groups);
    } else {
        lemma_offset_step(groups, g);
        lemma_prefix_of_flatten(groups, g + 1, i);
    }
}

/// The group that the item at index `k` belongs to, searched from group `g`.
proof fn lemma_owning_group(groups: Seq<(Seq<char>, Seq<TodoView>)>, k: int, g: int) -> (h: int)
    requires
        0 <= g <= groups.len(),
        group_offset(groups, g) <= k < flatten(groups).len(),
    ensures
        g <= h < groups.len(),
        group_offset(groups, h) <= k < group_offset(groups, h + 1),
    decreases groups.len() - g,
{
    if g == groups.len() {
        assert(groups.take(g) =~= groups);
        g
    } else {
        lemma_offset_step(groups, g);
        if k < group_offset(groups, g + 1) {
            g
        } else {
            lemma_owning_group(groups, k, g + 1)
        }
    }
}

/// Grouping by file puts the items back together exactly, in order. When
/// each path's items are adjacent, the groups have distinct paths and come
/// in the order in which their paths first appear: each group starts where
/// its path first occurs, and later groups start later.
pub proof fn law_grouping_follows_first_appearance(
    items: Seq<TodoView>,
    groups: Seq<(Seq<char>, Seq<TodoView>)>,
)
    requires
        is_grouping(items, groups),
    ensures
        flatten(groups) == items,
        forall|g: int, h: int|
            0 <= g < h <= groups.len() ==> group_offset(groups, g) < group_offset(groups, h),
        paths_contiguous(items) ==> forall|g: int, h: int|
            0 <= g < h < groups.len() ==> groups[g].0 != groups[h].0,
        paths_contiguous(items) ==> forall|g: int|
            0 <= g < groups.len() ==> items[group_offset(groups, g)].path == groups[g].0 && forall|
                k: int,
            |
                0 <= k < group_offset(groups, g) ==> items[k].path != groups[g].0,
{
    assert forall|g: int, h: int|
        0 <= g < h <= groups.len() implies group_offset(groups, g) < group_offset(groups, h) by {
        lemma_offset_grows(groups, g, h);
    }
    if paths_contiguous(items) {
        assert forall|g: int, h: int| 0 <= g < h < groups.len() implies groups[g].0
            != groups[h].0 by {
            if groups[g].0 == groups[h].0 {
                if h - 1 > g {
                    let i = group_offset(groups, g);
                    let j = group_offset(groups, h - 1);
                    let k = group_offset(groups, h);
                    lemma_offset_grows(groups, g, h - 1);
                    lemma_offset_grows(groups, h - 1, h);
                    lemma_group_member(groups, g, 0);
                    lemma_group_member(groups, h - 1, 0);
                    lemma_group_member(groups, h, 0);
                    assert(items[i].path == groups[g].0);
                    assert(items[j].path == groups[h - 1].0);
                    assert(items[k].path == groups[h].0);
                    assert(items[j].path == items[i].path);
                    assert(groups[h].0 != groups[h - 1].0);
                }
            }
        }
        assert forall|g: int| 0 <= g < groups.len() implies items[group_offset(groups, g)].path
            == groups[g].0 && forall|k: int|
            0 <= k < group_offset(groups, g) ==> items[k].path != groups[g].0 by {
            lemma_group_member(groups, g, 0);
            assert forall|k: int| 0 <= k < group_offset(groups, g) implies items[k].path
                != groups[g].0 by {
                assert(groups.take(0) =~= Seq::<(Seq<char>, Seq<TodoView>)>::empty());
                assert(group_offset(groups, 0) == 0);
                lemma_offset_grows(groups, g, groups.len() as int);
                assert(groups.take(groups.len() as int) =~= groups);
                let h = lemma_owning_group(groups, k, 0);
                if h >= g {
                    lemma_offset_grows(groups, g, h);
                }
                lemma_offset_step(groups, h);
                lemma_group_member(groups, h, k - group_offset(groups, h));
                assert(h < g);
                assert(groups[h].0 != groups[g].0);
            }
        }
    }
}

proof fn lemma_grouping_drop_last(items: Seq<TodoView>, groups: Seq<(Seq<char>, Seq<TodoView>)>)
    requires
        is_grouping(items, groups),
        groups.len() > 0,
    ensures
        is_grouping(flatten(groups.drop_last()), groups.drop_last()),
        items == flatten(groups.drop_last()) + groups.last().1,
        groups.last().1.len() > 0,
        groups.last().1.last().path == groups.last().0,
{
    let init = groups.drop_last();
    assert(groups[groups.len() - 1].1.len() > 0);
    assert forall|g: int| 0 <= g < init.len() implies #[trigger] init[g].1.len() > 0 by {
        assert(init[g] == groups[g]);
        assert(groups[g].1.len() > 0);
    }
    assert forall|g: int, k: int|
        0 <= g < init.len() && 0 <= k < init[g].1.len() implies #[trigger] init[g].1[k].path
        == init[g].0 by {
        assert(init[g] == groups[g]);
        assert(groups[g].1[k].path == groups[g].0);
    }
    assert forall|g: int| 0 < g < init.len() implies #[trigger] init[g].0 != init[g - 1].0 by {
        assert(init[g] == groups[g] && init[g - 1] == groups[g - 1]);
        assert(groups[g].0 != groups[g - 1].0);
    }
    let last = groups.last().1;
    assert(last[last.len() - 1].path == groups[groups.len() - 1].0);
}

/// The groups of some items are fixed by them: two groupings of the same
/// items are the same groups.
pub proof fn law_grouping_is_unique(
    items: Seq<TodoView>,
    a: Seq<(Seq<char>, Seq<TodoView>)>,
    b: Seq<(Seq<char>, Seq<TodoView>)>,
)
    requires
        is_grouping(items, a),
        is_grouping(items, b),
    ensures
        a == b,
    decreases items.len(),
{
    if a.len() == 0 || b.len() == 0 {
        if a.len() > 0 {
            lemma_grouping_drop_last(items, a);
        }
        if b.len() > 0 {
            lemma_grouping_drop_last(items, b);
        }
        assert(a =~= b);
    } else {
        lemma_grouping_drop_last(items, a);
        lemma_grouping_drop_last(items, b);
        let fa = flatten(a.drop_last());
        let fb = flatten(b.drop_last());
        let la = a.last().1;
        let lb = b.last().1;
        let n = items.len();
        assert(items[n - 1] == la[la.len() - 1]);
        assert(items[n - 1] == lb[lb.len() - 1]);
        let key = a.last().0;
        assert(b.last().0 == key);
        if la.len() < lb.len() {
            lemma_run_before_last(items, a, b);
        } else if lb.len() < la.len() {
            lemma_run_before_last(items, b, a);
        }
        assert(la.len() == lb.len());
        assert(fa =~= items.take(n - la.len()));
        assert(fb =~= items.take(n - lb.len()));
        assert(la =~= items.skip(n - la.len()));
        assert(lb =~= items.skip(n - lb.len()));
        law_grouping_is_unique(fa, a.drop_last(), b.drop_last());
        assert(a =~= a.drop_last().push(a.last()));
        assert(b =~= b.drop_last().push(b.last()));
    }
}

/// The last group of one grouping is never shorter than that of another.
proof fn lemma_run_before_last(
    items: Seq<TodoView>,
    a: Seq<(Seq<char>, Seq<TodoView>)>,
    b: Seq<(Seq<char>, Seq<TodoView>)>,
)
    requires
        is_grouping(items, a),
        is_grouping(items, b),
        a.len() > 0,
        b.len() > 0,
        a.last().0 == b.last().0,
    ensures
        a.last().1.len() >= b.last().1.len(),
{
    lemma_grouping_drop_last(items, a);
    lemma_grouping_drop_last(items, b);
    let la = a.last().1;
    let lb = b.last().1;
    let fa = flatten(a.drop_last());
    let fb = flatten(b.drop_last());
    let n = items.len();
    if la.len() < lb.len() {
        let x = n - 1 - la.len();
        assert(x >= fb.len());
        assert(items[x] == lb[x - fb.len()]);
        assert(items[x].path == b.last().0);
        assert(fa.len() == x + 1);
        assert(items[x] == fa[x]);
        let init = a.drop_last();
        assert(init.len() > 0) by {
            if init.len() == 0 {
                assert(fa.len() == 0);
            }
        }
        lemma_grouping_drop_last(fa, init);
        assert(fa[x] == init.last().1[init.last().1.len() - 1]);
        assert(init.last() == a[a.len() - 2]);
        assert(a[a.len() - 1].0 != a[a.len() - 2].0);
    }
}

/// One item rendered in `format`.
pub open spec fn render_line(v: TodoView, format: OutputFormat) -> Seq<char> {
    match format {
        OutputFormat::Text => text_line(v),
        OutputFormat::Markdown => markdown_line(v),
    }
}

/// The items rendered in `format`, joined by line breaks.
pub open spec fn joined(items: Seq<TodoView>, format: OutputFormat) -> Seq<char>
    decreases items.len(),
{
    if items.len() == 0 {
        seq![]
    } else if items.len() == 1 {
        render_line(items[0], format)
    } else {
        joined(items.drop_last(), format) + seq!['\n'] + render_line(items.last(), format)
    }
}

/// The listing of `items`: their lines, and a final line break; nothing at
/// all when there are no items.
pub open spec fn listing(items: Seq<TodoView>, format: OutputFormat) -> Seq<char> {
    if items.len() == 0 {
        seq![]
    } else {
        joined(items, format) + seq!['\n']
    }
}

/// `lines` joined by line breaks.
pub open spec fn join_lines(lines: Seq<Seq<char>>) -> Seq<char>
    decreases lines.len(),
{
    if lines.len() == 0 {
        seq![]
    } else if lines.len() == 1 {
        lines[0]
    } else {
        join_lines(lines.drop_last()) + seq!['\n'] + lines.last()
    }
}

/// The plain lines of `items`, one per item.
pub open spec fn text_lines(items: Seq<TodoView>) -> Seq<Seq<char>> {
    items.map_values(|v: TodoView| text_line(v))
}

proof fn lemma_joined_is_join_lines(items: Seq<TodoView>, format: OutputFormat)
    ensures
        joined(items, format) == join_lines(items.map_values(|v: TodoView| render_line(v, format))),
    decreases items.len(),
{
    let ls = items.map_values(|v: TodoView| render_line(v, format));
    if items.len() > 1 {
        lemma_joined_is_join_lines(items.drop_last(), format);
        assert(ls.drop_last() =~= items.drop_last().map_values(
            |v: TodoView| render_line(v, format),
        ));
    }
}

/// The checklist listing of some items is their plain listing with each
/// line preceded by the checkbox: line for line, the same lines joined the
/// same way.
pub proof fn law_markdown_listing_prefixes_each_line(items: Seq<TodoView>)
    ensures
        listing(items, OutputFormat::Text) == if items.len() == 0 {
            Seq::<char>::empty()
        } else {
            join_lines(text_lines(items)) + seq!['\n']
        },
        listing(items, OutputFormat::Markdown) == if items.len() == 0 {
            Seq::<char>::empty()
        } else {
            join_lines(text_lines(items).map_values(|l: Seq<char>| checkbox() + l)) + seq!['\n']
        },
{
    lemma_joined_is_join_lines(items, OutputFormat::Text);
    lemma_joined_is_join_lines(items, OutputFormat::Markdown);
    assert(items.map_values(|v: TodoView| render_line(v, OutputFormat::Text)) =~= text_lines(
        items,
    ));
    assert(items.map_values(|v: TodoView| render_line(v, OutputFormat::Markdown)) =~= text_lines(
        items,
    ).map_values(|l: Seq<char>| checkbox() + l));
}

/// A line that survives splitting unchanged: it holds no line break and
/// does not end in a carriage return.
pub open spec fn plain_line(l: Seq<char>) -> bool {
    &&& forall|k: int| 0 <= k < l.len() ==> l[k] != '\n'
    &&& (l.len() == 0 || l.last() != '\r')
}

proof fn lemma_join_lines_front(ls: Seq<Seq<char>>)
    requires
        ls.len() >= 2,
    ensures
        join_lines(ls) == ls[0] + seq!['\n'] + join_lines(ls.drop_first()),
    decreases ls.len(),
{
    let a = ls.drop_last();
    let b = ls.drop_first();
    if ls.len() > 2 {
        lemma_join_lines_front(a);
        assert(a.drop_first() =~= b.drop_last());
        assert(a[0] == ls[0]);
        assert(b.last() == ls.last());
        assert(join_lines(ls) == join_lines(a) + seq!['\n'] + ls.last());
        assert(join_lines(b) == join_lines(b.drop_last()) + seq!['\n'] + b.last());
        assert(join_lines(ls) =~= ls[0] + seq!['\n'] + join_lines(b));
    } else {
        assert(join_lines(a) == ls[0]);
        assert(join_lines(b) == ls[1]);
        assert(join_lines(ls) =~= ls[0] + seq!['\n'] + join_lines(b));
    }
}

proof fn lemma_newline_at(t: Seq<char>, i: int, e: int)
    requires
        0 <= i <= e < t.len(),
        t[e] == '\n',
        forall|k: int| i <= k < e ==> t[k] != '\n',
    ensures
        next_occurrence(t, i, seq!['\n']) == e,
    decreases e - i,
{
    if i < e {
        assert(!occurs_at(t, i, seq!['\n'])) by {
            if occurs_at(t, i, seq!['\n']) {
                assert(t[i + 0] == seq!['\n'][0]);
            }
        }
        lemma_newline_at(t, i + 1, e);
    } else {
        assert(occurs_at(t, i, seq!['\n'])) by {
            assert(forall|k: int| 0 <= k < 1 ==> t[i + k] == seq!['\n'][k]);
        }
    }
}

proof fn lemma_split_joined(t: Seq<char>, i: int, ls: Seq<Seq<char>>)
    requires
        0 <= i <= t.len(),
        ls.len() > 0,
        forall|j: int| 0 <= j < ls.len() ==> plain_line(#[trigger] ls[j]),
        t.subrange(i, t.len() as int) == join_lines(ls) + seq!['\n'],
    ensures
        lines_from(t, i) == ls,
    decreases ls.len(),
{
    let first = ls[0];
    let e = i + first.len();
    assert(plain_line(first));
    let rest_text = if ls.len() >= 2 {
        lemma_join_lines_front(ls);
        seq!['\n'] + join_lines(ls.drop_first()) + seq!['\n']
    } else {
        seq!['\n']
    };
    assert(t.subrange(i, t.len() as int) =~= first + rest_text);
    assert forall|k: int| i <= k < e implies t[k] != '\n' by {
        assert(t[k] == t.subrange(i, t.len() as int)[k - i]);
    }
    assert(t[e] == t.subrange(i, t.len() as int)[e - i]);
    lemma_newline_at(t, i, e);
    assert(t.subrange(i, e) =~= first);
    assert(strip_cr(first) == first);
    assert(lines_from(t, i) == seq![first] + lines_from(t, e + 1));
    if ls.len() >= 2 {
        let rest = ls.drop_first();
        let u = t.subrange(i, t.len() as int);
        assert(t.subrange(e + 1, t.len() as int) =~= u.subrange(first.len() + 1int, u.len() as int));
        assert(u.subrange(first.len() + 1int, u.len() as int) =~= join_lines(rest) + seq!['\n']);
        assert forall|j: int| 0 <= j < rest.len() implies plain_line(#[trigger] rest[j]) by {
            assert(rest[j] == ls[j + 1]);
        }
        lemma_split_joined(t, e + 1, rest);
        assert(ls =~= seq![first] + rest);
    } else {
        assert(e + 1 == t.len());
        assert(lines_from(t, e + 1) == Seq::<Seq<char>>::empty());
        assert(ls =~= seq![first]);
        assert(seq![first] + Seq::<Seq<char>>::empty() =~= seq![first]);
    }
}

/// Split into lines, the checklist listing of some items is their plain
/// listing split into lines, each line preceded by the checkbox; this holds
/// when no rendered line holds a line break or ends in a carriage return.
pub proof fn law_markdown_lines_are_prefixed_text_lines(items: Seq<TodoView>)
    requires
        items.len() > 0,
        forall|j: int| 0 <= j < items.len() ==> plain_line(#[trigger] text_line(items[j])),
    ensures
        lines_of(listing(items, OutputFormat::Text)) == text_lines(items),
        lines_of(listing(items, OutputFormat::Markdown)) == text_lines(items).map_values(
            |l: Seq<char>| checkbox() + l,
        ),
{
    law_markdown_listing_prefixes_each_line(items);
    let tl = text_lines(items);
    let ml = tl.map_values(|l: Seq<char>| checkbox() + l);
    assert forall|j: int| 0 <= j < tl.len() implies plain_line(#[trigger] tl[j]) by {
        assert(tl[j] == text_line(items[j]));
    }
    assert forall|j: int| 0 <= j < ml.len() implies plain_line(#[trigger] ml[j]) by {
        assert(tl[j] == text_line(items[j]));
        assert(plain_line(tl[j]));
        let m = ml[j];
        assert(m == checkbox() + tl[j]);
        assert forall|k: int| 0 <= k < m.len() implies m[k] != '\n' by {
            if k >= 6 {
                assert(m[k] == tl[j][k - 6]);
            }
        }
        if tl[j].len() > 0 {
            assert(m.last() == tl[j].last());
        }
    }
    let tt = listing(items, OutputFormat::Text);
    let mt = listing(items, OutputFormat::Markdown);
    assert(tt.subrange(0, tt.len() as int) =~= tt);
    assert(mt.subrange(0, mt.len() as int) =~= mt);
    lemma_split_joined(tt, 0, tl);
    lemma_split_joined(mt, 0, ml);
}

/// The grouped listing: for each group its path on a line of its own, then
/// its listing; a blank line between two groups.
pub open spec fn grouped_listing(groups: Seq<(Seq<char>, Seq<TodoView>)>, format: OutputFormat) -> Seq<
    char,
>
    decreases groups.len(),
{
    if groups.len() == 0 {
        seq![]
    } else {
        let sep: Seq<char> = if groups.len() > 1 {
            seq!['\n']
        } else {
            seq![]
        };
        grouped_listing(groups.drop_last(), format) + sep + groups.last().0 + seq!['\n'] + listing(
            groups.last().1,
            format,
        )
    }
}

fn render_item(item: &TodoItem, format: OutputFormat) -> (r: String)
    ensures
        r@ == render_line(item@, format),
{
    match format {
        OutputFormat::Text => item.to_string(),
        OutputFormat::Markdown => item.to_markdown(),
    }
}

/// Appends the listing of `items` in `format` to `out`.
fn push_listing(out: &mut String, items: &Vec<TodoItem>, format: OutputFormat)
    ensures
        final(out)@ == old(out)@ + listing(items@.map_values(|t: TodoItem| t@), format),
{
    let ghost start = out@;
    let ghost iv = items@.map_values(|t: TodoItem| t@);
    let mut i: usize = 0;
    while i < items.len()
        invariant
            i <= items@.len(),
            iv == items@.map_values(|t: TodoItem| t@),
            out@ == start + joined(iv.take(i as int), format),
        decreases items@.len() - i,
    {
        if i > 0 {
            push_char(out, '\n');
        }
        let line = render_item(&items[i], format);
        out.append(line.as_str());
        proof {
            let prefix = iv.take(i + 1);
            assert(prefix.drop_last() =~= iv.take(i as int));
            assert(prefix.last() == items@[i as int]@);
            assert(out@ =~= start + joined(prefix, format));
        }
        i = i + 1;
    }
    assert(iv.take(items@.len() as int) =~= iv);
    if items.len() > 0 {
        push_char(out, '\n');
    }
    assert(out@ =~= start + listing(iv, format));
}

/// The listing of `items` in `format`: one line per item, in order.
pub fn render_todos(items: &Vec<TodoItem>, format: OutputFormat) -> (r: String)
    ensures
        r@ == listing(items@.map_values(|t: TodoItem| t@), format),
{
    let mut out = String::new();
    push_listing(&mut out, items, format);
    assert(out@ =~= listing(items@.map_values(|t: TodoItem| t@), format));
    out
}

/// The grouped listing of `groups` in `format`.
pub fn render_groups(groups: &Vec<TodoGroup>, format: OutputFormat) -> (r: String)
    ensures
        r@ == grouped_listing(groups@.map_values(|g: TodoGroup| g@), format),
{
    let ghost gv = groups@.map_values(|g: TodoGroup| g@);
    let mut out = String::new();
    let mut i: usize = 0;
    assert(gv.take(0) =~= Seq::<(Seq<char>, Seq<TodoView>)>::empty());
    while i < groups.len()
        invariant
            i <= groups@.len(),
            gv == groups@.map_values(|g: TodoGroup| g@),
            out@ == grouped_listing(gv.take(i as int), format),
        decreases groups@.len() - i,
    {
        let ghost before = out@;
        if i > 0 {
            push_char(&mut out, '\n');
        }
        let group = &groups[i];
        out.append(group.path.as_str());
        push_char(&mut out, '\n');
        push_listing(&mut out, &group.items, format);
        proof {
            let prefix = gv.take(i + 1);
            assert(prefix.drop_last() =~= gv.take(i as int));
            assert(prefix.last() == group@);
            let sep: Seq<char> = if i > 0 {
                seq!['\n']
            } else {
                seq![]
            };
            assert(out@ =~= before + sep + group@.0 + seq!['\n'] + listing(group@.1, format));
        }
        i = i + 1;
    }
    assert(gv.take(groups@.len() as int) =~= gv);
    out
}

/// The whole report: the listing of `items` in `format`, or, grouped by
/// file, the grouped listing of their runs of equal paths.
pub fn render_report(items: &Vec<TodoItem>, format: OutputFormat, group_by: Option<GroupBy>) -> (r:
    String)
    ensures
        group_by is None ==> r@ == listing(items@.map_values(|t: TodoItem| t@), format),
        group_by is Some ==> exists|groups: Seq<(Seq<char>, Seq<TodoView>)>|
            is_grouping(items@.map_values(|t: TodoItem| t@), groups) && r@ == grouped_listing(
                groups,
                format,
            ),
{
    match group_by {
        Some(GroupBy::File) => {
            let groups = group_by_file(items);
            render_groups(&groups, format)
        },
        None => render_todos(items, format),
    }
}

} // verus!
