//! Render pipelines by name, the order in which their command buffers are
//! submitted, and the collection of queued command buffers in that order.
use solvent::DepGraph;
use vstd::prelude::*;

use crate::engine::graphics::dependency::{
    clone_graph, cycle_reachable, graph_edges, graph_satisfied, is_path, is_resolution, new_graph,
    reaches,
    register_dependencies, register_node, resolve, with_dependencies, with_node, DepMap,
    DependencyError,
};
use crate::engine::graphics::name_map::{contains_name, str_views, NameMap};

verus! {

/// The name of the pass that is always submitted last.
pub open spec fn ui_name() -> Seq<char> {
    seq!['U', 'I']
}

/// The views of a sequence of string lists.
pub open spec fn lists_view(ls: Seq<Vec<String>>) -> Seq<Seq<Seq<char>>> {
    Seq::new(ls.len(), |i: int| str_views(ls[i]@))
}

/// `acc` followed by the elements of `s` that are not in it yet, each once,
/// in the order of their first appearance in `s`.
pub open spec fn push_new(acc: Seq<Seq<char>>, s: Seq<Seq<char>>) -> Seq<Seq<char>>
    decreases s.len(),
{
    if s.len() == 0 {
        acc
    } else {
        let a = push_new(acc, s.drop_last());
        if a.contains(s.last()) {
            a
        } else {
            a.push(s.last())
        }
    }
}

/// The lists one after another, each name kept at its first appearance only.
pub open spec fn merge_lists(ls: Seq<Seq<Seq<char>>>) -> Seq<Seq<char>>
    decreases ls.len(),
{
    if ls.len() == 0 {
        Seq::empty()
    } else {
        push_new(merge_lists(ls.drop_last()), ls.last())
    }
}

/// Every element of `order` was placed after everything that comes before it
/// in some list it stems from.
pub open spec fn placed_after_prefix(order: Seq<Seq<char>>, ls: Seq<Seq<Seq<char>>>) -> bool {
    forall|k: int|
        #![trigger order[k]]
        0 <= k < order.len() ==> exists|i: int, p: int|
            #![trigger ls[i][p]]
            0 <= i < ls.len() && 0 <= p < ls[i].len() && ls[i][p] == order[k] && forall|q: int|
                0 <= q < p ==> order.take(k).contains(#[trigger] ls[i][q])
}

/// A valid submission order for the pipelines `names` of graph `g`: every
/// node that some pipeline depends on (and every pipeline) exactly once, each
/// after all of its direct dependencies, then the UI pass.
pub open spec fn is_pipeline_order(g: DepMap, names: Seq<Seq<char>>, order: Seq<Seq<char>>) -> bool {
    &&& order.len() >= 1
    &&& order.last() == ui_name()
    &&& order.drop_last().no_duplicates()
    &&& forall|n: Seq<char>|
        #![trigger order.drop_last().contains(n)]
        order.drop_last().contains(n) <==> exists|p: Seq<char>|
            names.contains(p) && #[trigger] reaches(g, p, n)
    &&& forall|k: int, d: Seq<char>|
        0 <= k < order.len() - 1 && #[trigger] g[order[k]].contains(d) ==> order.take(k).contains(
            d,
        )
}

/// Copies of the strings, in the same order.
fn clone_strings(v: &Vec<String>) -> (r: Vec<String>)
    ensures
        str_views(r@) == str_views(v@),
{
    let mut r: Vec<String> = Vec::new();
    let mut i: usize = 0;
    while i < v.len()
        invariant
            0 <= i <= v.len(),
            r@.len() == i,
            forall|j: int| 0 <= j < i ==> r@[j]@ == v@[j]@,
        decreases v.len() - i,
    {
        r.push(v[i].clone());
        i = i + 1;
    }
    assert(str_views(r@) =~= str_views(v@));
    r
}

proof fn lemma_contains_push<A>(s: Seq<A>, x: A, n: A)
    ensures
        s.push(x).contains(n) <==> (s.contains(n) || n == x),
{
    if s.contains(n) {
        let j = choose|j: int| 0 <= j < s.len() && s[j] == n;
        assert(s.push(x)[j] == n);
    }
    if n == x {
        assert(s.push(x)[s.len() as int] == n);
    }
    if s.push(x).contains(n) && n != x {
        let j = choose|j: int| 0 <= j < s.push(x).len() && s.push(x)[j] == n;
        assert(s[j] == n);
    }
}

proof fn lemma_take_push<A>(s: Seq<A>, p: int)
    requires
        0 <= p < s.len(),
    ensures
        s.take(p + 1) == s.take(p).push(s[p]),
{
    assert(s.take(p + 1) =~= s.take(p).push(s[p]));
}

/// The submission order made from the dependency lists of the pipelines:
/// the lists one after another with repeated names dropped, then `"UI"`.
pub fn order_from_resolutions(resolutions: &Vec<Vec<String>>) -> (order: Vec<String>)
    ensures
        str_views(order@) == merge_lists(lists_view(resolutions@)).push(ui_name()),
        merge_lists(lists_view(resolutions@)).no_duplicates(),
        forall|n: Seq<char>|
            #![trigger merge_lists(lists_view(resolutions@)).contains(n)]
            merge_lists(lists_view(resolutions@)).contains(n) <==> exists|i: int|
                0 <= i < resolutions@.len() && #[trigger] lists_view(resolutions@)[i].contains(n),
        placed_after_prefix(merge_lists(lists_view(resolutions@)), lists_view(resolutions@)),
{
    let ghost ls = lists_view(resolutions@);
    let mut order: Vec<String> = Vec::new();
    let mut i: usize = 0;
    assert(ls.take(0) =~= Seq::<Seq<Seq<char>>>::empty());
    assert(str_views(order@) =~= Seq::<Seq<char>>::empty());
    while i < resolutions.len()
        invariant
            0 <= i <= resolutions@.len(),
            ls == lists_view(resolutions@),
            str_views(order@) == merge_lists(ls.take(i as int)),
            str_views(order@).no_duplicates(),
            forall|n: Seq<char>|
                #![trigger str_views(order@).contains(n)]
                str_views(order@).contains(n) <==> exists|i2: int|
                    0 <= i2 < i && #[trigger] ls[i2].contains(n),
            placed_after_prefix(str_views(order@), ls),
        decreases resolutions@.len() - i,
    {
        let list = &resolutions[i];
        assert(ls[i as int] == str_views(list@));
        let ghost before = str_views(order@);
        let ghost li = ls[i as int];
        assert(li.take(0) =~= Seq::<Seq<char>>::empty());
        let mut p: usize = 0;
        while p < list.len()
            invariant
                0 <= i < resolutions@.len(),
                0 <= p <= list@.len(),
                list == &resolutions@[i as int],
                ls == lists_view(resolutions@),
                li == ls[i as int],
                li == str_views(list@),
                str_views(order@) == push_new(before, li.take(p as int)),
                str_views(order@).no_duplicates(),
                forall|n: Seq<char>|
                    #![trigger str_views(order@).contains(n)]
                    str_views(order@).contains(n) <==> (before.contains(n) || li.take(
                        p as int,
                    ).contains(n)),
                placed_after_prefix(str_views(order@), ls),
            decreases list@.len() - p,
        {
            let ghost prev = str_views(order@);
            let ghost t = li.take(p as int);
            let ghost x = list@[p as int]@;
            proof {
                lemma_take_push(li, p as int);
                assert(li[p as int] == x);
                assert(t.push(x).drop_last() =~= t);
            }
            let present = contains_name(&order, &list[p]);
            if !present {
                order.push(list[p].clone());
                assert(str_views(order@) =~= prev.push(x));
                assert(str_views(order@).no_duplicates()) by {
                    assert forall|a: int, b: int|
                        0 <= a < str_views(order@).len() && 0 <= b < str_views(order@).len() && a
                            != b implies str_views(order@)[a] != str_views(order@)[b] by {
                        if a == prev.len() {
                            assert(prev[b] == str_views(order@)[b]);
                        } else if b == prev.len() {
                            assert(prev[a] == str_views(order@)[a]);
                        }
                    }
                }
                assert(placed_after_prefix(str_views(order@), ls)) by {
                    let o = str_views(order@);
                    assert forall|k: int| #![trigger o[k]] 0 <= k < o.len() implies exists|
                        i3: int,
                        p3: int,
                    |
                        #![trigger ls[i3][p3]]
                        0 <= i3 < ls.len() && 0 <= p3 < ls[i3].len() && ls[i3][p3] == o[k]
                            && forall|q: int|
                            0 <= q < p3 ==> o.take(k).contains(#[trigger] ls[i3][q]) by {
                        if k < prev.len() {
                            assert(o.take(k) =~= prev.take(k));
                            assert(prev[k] == o[k]);
                        } else {
                            assert(o.take(k) =~= prev);
                            assert(ls[i as int][p as int] == o[k]);
                            assert forall|q: int| 0 <= q < p implies o.take(k).contains(
                                #[trigger] ls[i as int][q],
                            ) by {
                                assert(t[q] == li[q]);
                                assert(t.contains(li[q]));
                                assert(prev.contains(li[q]));
                            }
                        }
                    }
                }
            }
            proof {
                assert forall|n: Seq<char>|
                    #![trigger str_views(order@).contains(n)]
                    str_views(order@).contains(n) <==> (before.contains(n) || li.take(
                        p as int + 1,
                    ).contains(n)) by {
                    lemma_contains_push(t, x, n);
                    assert(prev.contains(n) <==> (before.contains(n) || t.contains(n)));
                    if !present {
                        lemma_contains_push(prev, x, n);
                    }
                }
            }
            p = p + 1;
        }
        proof {
            assert(li.take(p as int) =~= li);
            assert(ls.take(i as int + 1).drop_last() =~= ls.take(i as int));
            assert(ls.take(i as int + 1).last() == li);
            assert forall|n: Seq<char>|
                #![trigger str_views(order@).contains(n)]
                str_views(order@).contains(n) <==> exists|i2: int|
                    0 <= i2 < i + 1 && #[trigger] ls[i2].contains(n) by {
                assert(before.contains(n) <==> exists|i2: int|
                    0 <= i2 < i && #[trigger] ls[i2].contains(n));
                assert(str_views(order@).contains(n) <==> (before.contains(n) || li.contains(n)));
                if exists|i2: int| 0 <= i2 < i + 1 && #[trigger] ls[i2].contains(n) {
                    let i2 = choose|i2: int| 0 <= i2 < i + 1 && #[trigger] ls[i2].contains(n);
                    if i2 < i {
                        assert(before.contains(n));
                    }
                }
            }
        }
        i = i + 1;
    }
    assert(ls.take(i as int) =~= ls);
    let ghost merged = str_views(order@);
    let ui = "UI".to_owned();
    proof {
        reveal_strlit("UI");
    }
    assert(ui@ =~= ui_name());
    order.push(ui);
    assert(str_views(order@) =~= merged.push(ui_name()));
    order
}

/// The dependency graph after `add_pipeline` registered `name` with the
/// dependencies `ds`.
pub open spec fn registered(g: DepMap, name: Seq<char>, ds: Seq<Seq<char>>) -> DepMap {
    if ds.len() > 0 {
        with_dependencies(with_node(g, name), name, ds)
    } else {
        with_node(g, name)
    }
}

proof fn lemma_registered_keys(g: DepMap, name: Seq<char>, ds: Seq<Seq<char>>)
    ensures
        forall|k: Seq<char>| #[trigger]
            registered(g, name, ds).contains_key(k) <==> (g.contains_key(k) || k == name
                || ds.contains(k)),
{
    assert forall|k: Seq<char>| #[trigger]
        registered(g, name, ds).contains_key(k) <==> (g.contains_key(k) || k == name
            || ds.contains(k)) by {
        if ds.len() == 0 {
            assert(!ds.contains(k));
        }
    }
}

/// The name of the node every new graph starts with.
pub open spec fn root_name() -> Seq<char> {
    seq!['r', 'o', 'o', 't']
}

proof fn lemma_pipeline_order(
    g: DepMap,
    names: Seq<Seq<char>>,
    ls: Seq<Seq<Seq<char>>>,
    merged: Seq<Seq<char>>,
)
    requires
        ls.len() == names.len(),
        forall|i: int| 0 <= i < ls.len() ==> is_resolution(g, names[i], #[trigger] ls[i]),
        merged.no_duplicates(),
        forall|n: Seq<char>|
            #![trigger merged.contains(n)]
            merged.contains(n) <==> exists|i: int| 0 <= i < ls.len() && #[trigger] ls[i].contains(n),
        placed_after_prefix(merged, ls),
    ensures
        is_pipeline_order(g, names, merged.push(ui_name())),
{
    let order = merged.push(ui_name());
    assert(order.drop_last() =~= merged);
    assert forall|n: Seq<char>|
        #![trigger order.drop_last().contains(n)]
        order.drop_last().contains(n) <==> exists|p: Seq<char>|
            names.contains(p) && #[trigger] reaches(g, p, n) by {
        if merged.contains(n) {
            let i = choose|i: int| 0 <= i < ls.len() && #[trigger] ls[i].contains(n);
            assert(is_resolution(g, names[i], ls[i]));
            let j = choose|j: int| 0 <= j < ls[i].len() && ls[i][j] == n;
            assert(reaches(g, names[i], ls[i][j]));
            assert(names.contains(names[i]));
        }
        if exists|p: Seq<char>| names.contains(p) && #[trigger] reaches(g, p, n) {
            let p = choose|p: Seq<char>| names.contains(p) && #[trigger] reaches(g, p, n);
            let i = choose|i: int| 0 <= i < names.len() && names[i] == p;
            assert(is_resolution(g, names[i], ls[i]));
            assert(ls[i].contains(n));
            assert(merged.contains(n));
        }
    }
    assert forall|k: int, d: Seq<char>|
        0 <= k < order.len() - 1 && #[trigger] g[order[k]].contains(d) implies order.take(
        k,
    ).contains(d) by {
        assert(order[k] == merged[k]);
        let (i, p) = choose|i: int, p: int|
            #![trigger ls[i][p]]
            0 <= i < ls.len() && 0 <= p < ls[i].len() && ls[i][p] == merged[k] && forall|q: int|
                0 <= q < p ==> merged.take(k).contains(#[trigger] ls[i][q]);
        assert(is_resolution(g, names[i], ls[i]));
        assert(g[ls[i][p]].contains(d));
        assert(ls[i].take(p).contains(d));
        let q = choose|q: int| 0 <= q < ls[i].take(p).len() && ls[i].take(p)[q] == d;
        assert(ls[i][q] == d);
        assert(merged.take(k).contains(ls[i][q]));
        assert(order.take(k) =~= merged.take(k));
    }
}

/// The pass `name` of a valid order comes after each of `ds` when it depends
/// on all of them.
proof fn lemma_added_in_order(
    g: DepMap,
    names: Seq<Seq<char>>,
    order: Seq<Seq<char>>,
    name: Seq<char>,
    ds: Seq<Seq<char>>,
)
    requires
        is_pipeline_order(g, names, order),
        names.contains(name),
        g.contains_key(name),
        forall|d: Seq<char>| #[trigger] ds.contains(d) ==> g[name].contains(d),
    ensures
        exists|k: int|
            0 <= k < order.len() - 1 && order[k] == name && forall|d: Seq<char>|
                #[trigger] ds.contains(d) ==> order.take(k).contains(d),
{
    let p = seq![name];
    assert(is_path(g, p));
    assert(reaches(g, name, name));
    assert(order.drop_last().contains(name));
    let k = choose|k: int| 0 <= k < order.drop_last().len() && order.drop_last()[k] == name;
    assert(order[k] == name);
    assert forall|d: Seq<char>| #[trigger] ds.contains(d) implies order.take(k).contains(d) by {
        assert(g[order[k]].contains(d));
    }
}

/// The elements of `v` in reverse order.
fn reversed<T>(v: Vec<T>) -> (r: Vec<T>)
    ensures
        r@ == v@.reverse(),
{
    let ghost q = v@;
    let n = v.len();
    let mut v = v;
    let mut r: Vec<T> = Vec::new();
    while v.len() > 0
        invariant
            n == q.len(),
            v@.len() <= n,
            v@ == q.take(v@.len() as int),
            r@.len() == n - v@.len(),
            forall|j: int| 0 <= j < r@.len() ==> #[trigger] r@[j] == q[n - 1 - j],
        decreases v@.len(),
    {
        let ghost len = v@.len();
        let x = v.pop().unwrap();
        assert(x == q[len - 1]);
        r.push(x);
        assert(v@ =~= q.take(v@.len() as int));
    }
    assert(r@ =~= q.reverse());
    r
}

/// A recorded command buffer together with the name of the pass it belongs to.
pub struct CommandQueueItem<B> {
    pub name: String,
    pub buffer: B,
}

/// The buffers of the items called `name`, in queue order.
pub open spec fn buffers_named<B>(items: Seq<CommandQueueItem<B>>, name: Seq<char>) -> Seq<B>
    decreases items.len(),
{
    if items.len() == 0 {
        Seq::empty()
    } else {
        let rest = buffers_named(items.drop_last(), name);
        if items.last().name@ == name {
            rest.push(items.last().buffer)
        } else {
            rest
        }
    }
}

/// The items not called `name`, in queue order.
pub open spec fn without_name<B>(items: Seq<CommandQueueItem<B>>, name: Seq<char>) -> Seq<
    CommandQueueItem<B>,
>
    decreases items.len(),
{
    if items.len() == 0 {
        Seq::empty()
    } else {
        let rest = without_name(items.drop_last(), name);
        if items.last().name@ == name {
            rest
        } else {
            rest.push(items.last())
        }
    }
}

/// The buffers of `items` grouped by the names of `order`, in that order;
/// a name repeated in `order` finds nothing the second time, and items whose
/// name is not in `order` are left out.
pub open spec fn collect_in_order<B>(order: Seq<Seq<char>>, items: Seq<CommandQueueItem<B>>) -> Seq<
    B,
>
    decreases order.len(),
{
    if order.len() == 0 {
        Seq::empty()
    } else {
        buffers_named(items, order[0]) + collect_in_order(
            order.drop_first(),
            without_name(items, order[0]),
        )
    }
}

proof fn lemma_split_by_name<B>(items: Seq<CommandQueueItem<B>>, name: Seq<char>)
    ensures
        buffers_named(items, name).len() + without_name(items, name).len() == items.len(),
        forall|x: CommandQueueItem<B>| #[trigger]
            without_name(items, name).contains(x) ==> items.contains(x) && x.name@ != name,
    decreases items.len(),
{
    if items.len() > 0 {
        let init = items.drop_last();
        lemma_split_by_name(init, name);
        assert forall|x: CommandQueueItem<B>| #[trigger]
            without_name(items, name).contains(x) implies items.contains(x) && x.name@ != name by {
            let w = without_name(items, name);
            let j = choose|j: int| 0 <= j < w.len() && w[j] == x;
            if items.last().name@ != name && j == w.len() - 1 {
                assert(items[items.len() - 1] == x);
            } else {
                assert(without_name(init, name)[j] == x);
                assert(without_name(init, name).contains(x));
                let i = choose|i: int| 0 <= i < init.len() && init[i] == x;
                assert(items[i] == x);
            }
        }
    }
}

/// Every item of `items` belongs to a pass of `order`.
pub open spec fn all_scheduled<B>(order: Seq<Seq<char>>, items: Seq<CommandQueueItem<B>>) -> bool {
    forall|i: int| 0 <= i < items.len() ==> order.contains(#[trigger] items[i].name@)
}

proof fn lemma_collect_len<B>(order: Seq<Seq<char>>, items: Seq<CommandQueueItem<B>>)
    requires
        all_scheduled(order, items),
    ensures
        collect_in_order(order, items).len() == items.len(),
    decreases order.len(),
{
    if order.len() == 0 {
        if items.len() > 0 {
            assert(order.contains(items[0].name@));
        }
    } else {
        let w = without_name(items, order[0]);
        lemma_split_by_name(items, order[0]);
        assert forall|i: int| 0 <= i < w.len() implies order.drop_first().contains(
            #[trigger] w[i].name@,
        ) by {
            assert(w.contains(w[i]));
            let k = choose|k: int| 0 <= k < items.len() && items[k] == w[i];
            assert(order.contains(items[k].name@));
            let j = choose|j: int| 0 <= j < order.len() && order[j] == w[i].name@;
            assert(j != 0);
            assert(order.drop_first()[j - 1] == w[i].name@);
        }
        lemma_collect_len(order.drop_first(), w);
    }
}

/// When every queued item belongs to a pass of the submission order,
/// collecting the queue drops no buffer.
pub proof fn lemma_collect_drops_nothing<B>(order: Seq<Seq<char>>, queue: Seq<CommandQueueItem<B>>)
    requires
        all_scheduled(order, queue),
    ensures
        collect_in_order(order, queue.reverse()).len() == queue.len(),
{
    let r = queue.reverse();
    assert forall|i: int| 0 <= i < r.len() implies order.contains(#[trigger] r[i].name@) by {
        assert(r[i] == queue[queue.len() - 1 - i]);
        assert(order.contains(queue[queue.len() - 1 - i].name@));
    }
    lemma_collect_len(order, r);
}

/// The buffers of the items that pass the filter on `name`, in their order.
pub open spec fn pass_buffers<B>(items: Seq<CommandQueueItem<B>>, name: Seq<char>) -> Seq<B> {
    items.filter(|x: CommandQueueItem<B>| x.name@ == name).map_values(|x: CommandQueueItem<B>| x.buffer)
}

/// The buffers of `items` pass by pass: for each name of `order`, the buffers
/// of all items of that name, in the order of `items`.
pub open spec fn grouped_by_pass<B>(order: Seq<Seq<char>>, items: Seq<CommandQueueItem<B>>) -> Seq<B>
    decreases order.len(),
{
    if order.len() == 0 {
        Seq::empty()
    } else {
        pass_buffers(items, order[0]) + grouped_by_pass(order.drop_first(), items)
    }
}

/// The buffers of the items called `name` are those of the items that pass
/// the filter on that name, in the same order.
pub proof fn lemma_buffers_named_is_filter<B>(items: Seq<CommandQueueItem<B>>, name: Seq<char>)
    ensures
        buffers_named(items, name) == pass_buffers(items, name),
    decreases items.len(),
{
    reveal_with_fuel(Seq::filter, 1);
    let p = |x: CommandQueueItem<B>| x.name@ == name;
    let f = |x: CommandQueueItem<B>| x.buffer;
    if items.len() == 0 {
        assert(items.filter(p) =~= Seq::<CommandQueueItem<B>>::empty());
        assert(items.filter(p).map_values(f) =~= Seq::<B>::empty());
    } else {
        let init = items.drop_last();
        lemma_buffers_named_is_filter(init, name);
        assert(items.filter(p) == if p(items.last()) {
            init.filter(p).push(items.last())
        } else {
            init.filter(p)
        });
        if p(items.last()) {
            assert(init.filter(p).push(items.last()).map_values(f) =~= init.filter(p).map_values(
                f,
            ).push(items.last().buffer));
        }
    }
}

proof fn lemma_without_other_name<B>(items: Seq<CommandQueueItem<B>>, a: Seq<char>, b: Seq<char>)
    requires
        a != b,
    ensures
        buffers_named(without_name(items, a), b) == buffers_named(items, b),
    decreases items.len(),
{
    if items.len() > 0 {
        let init = items.drop_last();
        lemma_without_other_name(init, a, b);
        let w = without_name(init, a);
        if items.last().name@ != a {
            assert(without_name(items, a) == w.push(items.last()));
            assert(w.push(items.last()).drop_last() =~= w);
        }
    }
}

proof fn lemma_grouped_without<B>(order: Seq<Seq<char>>, items: Seq<CommandQueueItem<B>>, a: Seq<char>)
    requires
        !order.contains(a),
    ensures
        grouped_by_pass(order, without_name(items, a)) == grouped_by_pass(order, items),
    decreases order.len(),
{
    if order.len() > 0 {
        assert(order[0] != a) by {
            assert(order.contains(order[0]));
        }
        assert(!order.drop_first().contains(a)) by {
            if order.drop_first().contains(a) {
                let j = choose|j: int| 0 <= j < order.drop_first().len() && order.drop_first()[j] == a;
                assert(order[j + 1] == a);
            }
        }
        lemma_grouped_without(order.drop_first(), items, a);
        lemma_without_other_name(items, a, order[0]);
        lemma_buffers_named_is_filter(items, order[0]);
        lemma_buffers_named_is_filter(without_name(items, a), order[0]);
    }
}

/// With no pass named twice, collecting gives, pass after pass of the order,
/// the buffers of all items of that pass in the order of the items, whatever
/// the position of the pass in the order.
pub proof fn lemma_collect_is_grouped<B>(order: Seq<Seq<char>>, items: Seq<CommandQueueItem<B>>)
    requires
        order.no_duplicates(),
    ensures
        collect_in_order(order, items) == grouped_by_pass(order, items),
    decreases order.len(),
{
    if order.len() > 0 {
        let rest = order.drop_first();
        assert(rest.no_duplicates());
        assert(!rest.contains(order[0])) by {
            if rest.contains(order[0]) {
                let j = choose|j: int| 0 <= j < rest.len() && rest[j] == order[0];
                assert(order[j + 1] == order[0]);
            }
        }
        lemma_collect_is_grouped(rest, without_name(items, order[0]));
        lemma_grouped_without(rest, items, order[0]);
        lemma_buffers_named_is_filter(items, order[0]);
    }
}

/// Collecting a queue whose order names no pass twice gives, for each pass of
/// the order, the buffers of the queued items of that pass, most recently
/// queued first.
pub proof fn lemma_collect_newest_first<B>(order: Seq<Seq<char>>, queue: Seq<CommandQueueItem<B>>)
    requires
        order.no_duplicates(),
    ensures
        collect_in_order(order, queue.reverse()) == grouped_by_pass(order, queue.reverse()),
{
    lemma_collect_is_grouped(order, queue.reverse());
}

/// The render pipelines by name, the dependencies between passes, and the
/// order in which their command buffers are submitted.
#[derive(Debug)]
pub struct PipelineManager<P> {
    pub pipelines: NameMap<P>,
    dependency_graph: DepGraph<String>,
    order: Vec<String>,
}

impl<P> PipelineManager<P> {
    /// The pipelines as a map from names to pipelines.
    pub closed spec fn pipeline_map(&self) -> Map<Seq<char>, P> {
        self.pipelines.view()
    }

    /// The pipeline names in the order in which they were first added.
    pub closed spec fn pipeline_names(&self) -> Seq<Seq<char>> {
        self.pipelines.names()
    }

    /// The dependency graph.
    pub closed spec fn graph(&self) -> DepMap {
        graph_edges(self.dependency_graph)
    }

    /// The current submission order.
    pub closed spec fn order(&self) -> Seq<Seq<char>> {
        str_views(self.order@)
    }

    /// Every pipeline is a node of the graph and no node is marked satisfied.
    pub closed spec fn wf(&self) -> bool {
        &&& self.pipelines.wf()
        &&& graph_satisfied(self.dependency_graph).is_empty()
        &&& forall|n: Seq<char>| #[trigger]
            self.pipeline_map().contains_key(n) ==> self.graph().contains_key(n)
    }

    /// The pipeline names are exactly the keys of the pipeline map.
    pub proof fn lemma_names_are_pipelines(&self)
        requires
            self.wf(),
        ensures
            forall|k: Seq<char>| #[trigger]
                self.pipeline_map().contains_key(k) <==> self.pipeline_names().contains(k),
            self.pipeline_names().no_duplicates(),
    {
        self.pipelines.lemma_names_are_keys();
        self.pipelines.lemma_wf_unique();
    }

    /// No pipelines, a graph holding only the node `"root"`, and an empty order.
    pub fn new() -> (m: Self)
        ensures
            m.wf(),
            m.pipeline_map() == Map::<Seq<char>, P>::empty(),
            m.pipeline_names() == Seq::<Seq<char>>::empty(),
            m.graph() == DepMap::empty().insert(root_name(), Set::empty()),
            m.order() == Seq::<Seq<char>>::empty(),
    {
        let mut g = new_graph();
        let root = "root".to_owned();
        proof {
            reveal_strlit("root");
        }
        assert(root@ =~= root_name());
        register_node(&mut g, root);
        let m = PipelineManager { pipelines: NameMap::new(), dependency_graph: g, order: Vec::new() };
        assert(m.order() =~= Seq::<Seq<char>>::empty());
        m
    }

    /// The current submission order.
    pub fn submission_order(&self) -> (r: &Vec<String>)
        ensures
            str_views(r@) == self.order(),
    {
        &self.order
    }

    /// Recomputes the submission order from the dependencies of every pipeline.
    fn reorder(&mut self)
        requires
            old(self).wf(),
            forall|p: Seq<char>| #[trigger]
                old(self).pipeline_map().contains_key(p) ==> !cycle_reachable(
                    old(self).graph(),
                    p,
                ),
        ensures
            final(self).wf(),
            final(self).pipelines == old(self).pipelines,
            final(self).graph() == old(self).graph(),
            is_pipeline_order(final(self).graph(), final(self).pipeline_names(), final(self).order()),
    {
        let ghost g = self.graph();
        let ghost names = self.pipeline_names();
        proof {
            self.pipelines.lemma_names_are_keys();
        }
        let mut lists: Vec<Vec<String>> = Vec::new();
        let mut i: usize = 0;
        while i < self.pipelines.len()
            invariant
                0 <= i <= names.len(),
                names == self.pipeline_names(),
                g == self.graph(),
                self.wf(),
                forall|p: Seq<char>| #[trigger]
                    self.pipeline_map().contains_key(p) ==> !cycle_reachable(g, p),
                forall|k: Seq<char>| #[trigger]
                    self.pipeline_map().contains_key(k) <==> self.pipeline_names().contains(k),
                lists@.len() == i,
                forall|j: int|
                    0 <= j < i ==> is_resolution(g, names[j], #[trigger] lists_view(lists@)[j]),
            decreases names.len() - i,
        {
            let name = self.pipelines.name_at(i);
            assert(names.contains(names[i as int]));
            assert(self.pipeline_map().contains_key(name@));
            match resolve(&self.dependency_graph, name) {
                Ok(v) => {
                    let ghost before = lists@;
                    lists.push(v);
                    assert forall|j: int| 0 <= j < i + 1 implies is_resolution(
                        g,
                        names[j],
                        #[trigger] lists_view(lists@)[j],
                    ) by {
                        assert(lists@[j] == if j < i {
                            before[j]
                        } else {
                            v
                        });
                        if j < i {
                            assert(lists_view(lists@)[j] == lists_view(before)[j]);
                        }
                    }
                },
                Err(_) => {
                    assert(false);
                },
            }
            i = i + 1;
        }
        let order = order_from_resolutions(&lists);
        proof {
            lemma_pipeline_order(g, names, lists_view(lists@), merge_lists(lists_view(lists@)));
        }
        let ghost pre = *self;
        self.order = order;
        assert forall|n: Seq<char>| #[trigger]
            self.pipeline_map().contains_key(n) implies self.graph().contains_key(n) by {
            assert(pre.pipeline_map().contains_key(n));
        }
    }

    /// Empties `command_queue` and returns the buffers of its items grouped by
    /// the submission order.  The queue is emptied from its end, so within one
    /// pass the most recently queued buffer comes first; items of passes that
    /// are not in the order are dropped.
    pub fn collect_buffers<B>(&self, command_queue: &mut Vec<CommandQueueItem<B>>) -> (buffers: Vec<B>)
        ensures
            final(command_queue)@.len() == 0,
            buffers@ == collect_in_order(self.order(), old(command_queue)@.reverse()),
            self.order().no_duplicates() ==> buffers@ == grouped_by_pass(
                self.order(),
                old(command_queue)@.reverse(),
            ),
    {
        let ghost q = command_queue@;
        let n = command_queue.len();
        let mut queue_items: Vec<CommandQueueItem<B>> = Vec::new();
        while command_queue.len() > 0
            invariant
                n == q.len(),
                command_queue@.len() <= n,
                command_queue@ == q.take(command_queue@.len() as int),
                queue_items@.len() == n - command_queue@.len(),
                forall|j: int|
                    0 <= j < queue_items@.len() ==> #[trigger] queue_items@[j] == q[n - 1 - j],
            decreases command_queue@.len(),
        {
            let ghost len = command_queue@.len();
            let command = command_queue.pop().unwrap();
            assert(command == q[len - 1]);
            queue_items.push(command);
            assert(command_queue@ =~= q.take(command_queue@.len() as int));
        }
        assert(queue_items@ =~= q.reverse());
        let ghost ord = self.order();
        let mut buffers: Vec<B> = Vec::new();
        let mut oi: usize = 0;
        assert(ord.skip(0) =~= ord);
        while oi < self.order.len()
            invariant
                ord == self.order(),
                ord.len() == self.order@.len(),
                0 <= oi <= ord.len(),
                command_queue@.len() == 0,
                buffers@ + collect_in_order(ord.skip(oi as int), queue_items@) == collect_in_order(
                    ord,
                    q.reverse(),
                ),
            decreases ord.len() - oi,
        {
            let name = &self.order[oi];
            assert(name@ == ord[oi as int]);
            let ghost items = queue_items@;
            let ghost done = buffers@;
            let mut rest: Vec<CommandQueueItem<B>> = Vec::new();
            let mut k: usize = 0;
            let len = queue_items.len();
            let mut source = reversed(queue_items);
            proof {
                assert(items.take(0) =~= Seq::<CommandQueueItem<B>>::empty());
                assert(buffers@ =~= done + buffers_named(items.take(0), name@));
                assert(rest@ =~= without_name(items.take(0), name@));
            }
            while k < len
                invariant
                    len == items.len(),
                    0 <= k <= len,
                    source@.len() == len - k,
                    forall|j: int| 0 <= j < source@.len() ==> #[trigger] source@[j] == items[len - 1 - j],
                    buffers@ == done + buffers_named(items.take(k as int), name@),
                    rest@ == without_name(items.take(k as int), name@),
                decreases len - k,
            {
                let item = source.pop().unwrap();
                assert(item == items[k as int]);
                let ghost t1 = items.take(k as int + 1);
                assert(t1.drop_last() =~= items.take(k as int));
                assert(t1.last() == item);
                if item.name == *name {
                    buffers.push(item.buffer);
                } else {
                    rest.push(item);
                }
                k = k + 1;
            }
            assert(items.take(len as int) =~= items);
            queue_items = rest;
            proof {
                let s = ord.skip(oi as int);
                assert(s.len() > 0);
                assert(s[0] == name@);
                assert(s.drop_first() =~= ord.skip(oi as int + 1));
                assert(collect_in_order(s, items) == buffers_named(items, name@) + collect_in_order(
                    s.drop_first(),
                    without_name(items, name@),
                ));
                assert(done + collect_in_order(s, items) =~= done + buffers_named(items, name@)
                    + collect_in_order(s.drop_first(), without_name(items, name@)));
            }
            oi = oi + 1;
        }
        assert(ord.skip(oi as int) =~= Seq::<Seq<char>>::empty());
        assert(buffers@ =~= buffers@ + collect_in_order(ord.skip(oi as int), queue_items@));
        proof {
            if ord.no_duplicates() {
                lemma_collect_newest_first(ord, q);
            }
        }
        buffers
    }

    /// Registers `pipeline` under `name`, records that it depends on each of
    /// `dependencies`, and recomputes the submission order.
    pub fn add_pipeline(&mut self, name: String, pipeline: P, dependencies: Vec<String>)
        requires
            old(self).wf(),
            forall|p: Seq<char>|
                (old(self).pipeline_map().contains_key(p) || p == name@) ==> !#[trigger] cycle_reachable(
                    registered(old(self).graph(), name@, str_views(dependencies@)),
                    p,
                ),
        ensures
            final(self).wf(),
            final(self).pipeline_map() == old(self).pipeline_map().insert(name@, pipeline),
            final(self).pipeline_names() == if old(self).pipeline_map().contains_key(name@) {
                old(self).pipeline_names()
            } else {
                old(self).pipeline_names().push(name@)
            },
            final(self).graph() == registered(old(self).graph(), name@, str_views(dependencies@)),
            is_pipeline_order(final(self).graph(), final(self).pipeline_names(), final(self).order()),
            final(self).pipeline_names().contains(name@),
            exists|k: int|
                0 <= k < final(self).order().len() - 1 && final(self).order()[k] == name@
                    && forall|d: Seq<char>| #[trigger]
                    str_views(dependencies@).contains(d) ==> final(self).order().take(k).contains(
                    d,
                ),
    {
        let ghost g2 = registered(self.graph(), name@, str_views(dependencies@));
        let ghost ds = str_views(dependencies@);
        proof {
            self.pipelines.lemma_names_are_keys();
        }
        self.pipelines.insert(name.clone(), pipeline);
        register_node(&mut self.dependency_graph, name.clone());
        if dependencies.len() > 0 {
            register_dependencies(&mut self.dependency_graph, name, dependencies);
        }
        assert(self.graph() == g2);
        proof {
            lemma_registered_keys(old(self).graph(), name@, str_views(dependencies@));
            assert forall|n: Seq<char>| #[trigger]
                self.pipeline_map().contains_key(n) implies self.graph().contains_key(n) by {
                if n != name@ {
                    assert(old(self).pipeline_map().contains_key(n));
                }
            }
        }
        self.reorder();
        proof {
            self.pipelines.lemma_names_are_keys();
            assert(self.pipeline_map().contains_key(name@));
            lemma_registered_keys(old(self).graph(), name@, ds);
            assert(g2.contains_key(name@));
            assert forall|d: Seq<char>| #[trigger] ds.contains(d) implies g2[name@].contains(d) by {
                let g1 = with_node(old(self).graph(), name@);
                assert(ds.len() > 0);
                assert(g2 == with_dependencies(g1, name@, ds));
                assert(ds.to_set().contains(d));
            }
            lemma_added_in_order(self.graph(), self.pipeline_names(), self.order(), name@, ds);
        }
    }

    /// Like `add_pipeline`, but first checks on a copy of the graph that no
    /// pipeline would depend on itself; if one would, nothing changes and the
    /// cycle is reported.
    pub fn add_pipeline_checked(&mut self, name: String, pipeline: P, dependencies: Vec<String>) -> (r:
        Result<(), DependencyError>)
        requires
            old(self).wf(),
        ensures
            final(self).wf(),
            match r {
                Ok(()) => {
                    &&& final(self).pipeline_map() == old(self).pipeline_map().insert(
                        name@,
                        pipeline,
                    )
                    &&& final(self).pipeline_names() == if old(self).pipeline_map().contains_key(
                        name@,
                    ) {
                        old(self).pipeline_names()
                    } else {
                        old(self).pipeline_names().push(name@)
                    }
                    &&& final(self).graph() == registered(
                        old(self).graph(),
                        name@,
                        str_views(dependencies@),
                    )
                    &&& is_pipeline_order(
                        final(self).graph(),
                        final(self).pipeline_names(),
                        final(self).order(),
                    )
                    &&& final(self).pipeline_names().contains(name@)
                    &&& exists|k: int|
                        0 <= k < final(self).order().len() - 1 && final(self).order()[k] == name@
                            && forall|d: Seq<char>| #[trigger]
                            str_views(dependencies@).contains(d) ==> final(self).order().take(k).contains(d)
                },
                Err(e) => {
                    &&& e == DependencyError::CycleDetected
                    &&& *final(self) == *old(self)
                    &&& exists|p: Seq<char>|
                        (old(self).pipeline_map().contains_key(p) || p == name@)
                            && #[trigger] cycle_reachable(
                            registered(old(self).graph(), name@, str_views(dependencies@)),
                            p,
                        )
                },
            },
    {
        let ghost g2 = registered(self.graph(), name@, str_views(dependencies@));
        let mut g = clone_graph(&self.dependency_graph);
        register_node(&mut g, name.clone());
        if dependencies.len() > 0 {
            register_dependencies(&mut g, name.clone(), clone_strings(&dependencies));
        }
        assert(graph_edges(g) == g2);
        proof {
            self.pipelines.lemma_names_are_keys();
        }
        let mut i: usize = 0;
        while i < self.pipelines.len()
            invariant
                0 <= i <= self.pipeline_names().len(),
                self.wf(),
                graph_edges(g) == g2,
                graph_satisfied(g).is_empty(),
                g2 == registered(self.graph(), name@, str_views(dependencies@)),
                forall|k: Seq<char>| #[trigger]
                    self.pipeline_map().contains_key(k) <==> self.pipeline_names().contains(k),
                forall|j: int|
                    0 <= j < i ==> !cycle_reachable(g2, #[trigger] self.pipeline_names()[j]),
            decreases self.pipeline_names().len() - i,
        {
            let nm = self.pipelines.name_at(i);
            assert(self.pipeline_names().contains(nm@));
            assert(self.pipeline_map().contains_key(nm@));
            proof {
                lemma_registered_keys(self.graph(), name@, str_views(dependencies@));
            }
            assert(g2.contains_key(nm@));
            match resolve(&g, nm) {
                Ok(_) => {},
                Err(_) => {
                    assert(cycle_reachable(g2, nm@));
                    return Err(DependencyError::CycleDetected);
                },
            }
            i = i + 1;
        }
        proof {
            lemma_registered_keys(self.graph(), name@, str_views(dependencies@));
        }
        assert(g2.contains_key(name@));
        match resolve(&g, &name) {
            Ok(_) => {},
            Err(_) => {
                assert(cycle_reachable(g2, name@));
                return Err(DependencyError::CycleDetected);
            },
        }
        assert forall|p: Seq<char>|
            (self.pipeline_map().contains_key(p) || p == name@) implies !#[trigger] cycle_reachable(
            g2,
            p,
        ) by {
            if p != name@ {
                let j = choose|j: int|
                    0 <= j < self.pipeline_names().len() && self.pipeline_names()[j] == p;
            }
        }
        self.add_pipeline(name, pipeline, dependencies);
        Ok(())
    }
}

} // verus!
