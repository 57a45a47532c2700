use vstd::prelude::*;

use crate::record::{build_record, record_of, record_title, Entry, FieldView, KeepassSecret, SecretView};
use crate::sanitize::{sanitize_node_name, sanitize_path, sanitized, sanitized_path};

verus! {

broadcast use vstd::seq::group_seq_axioms, vstd::std_specs::vec::group_vec_axioms;

/// A folder of the database: its name and its children, in order.
pub struct Group {
    pub name: String,
    pub children: Vec<Node>,
}

/// A node of the database's hierarchy.
pub enum Node {
    Group(Group),
    Entry(Entry),
}

/// A record to be written at a storage path.
pub struct Upsert {
    pub path: String,
    pub record: KeepassSecret,
}

impl View for Upsert {
    type V = (Seq<char>, SecretView);

    open spec fn view(&self) -> (Seq<char>, SecretView) {
        (self.path@, self.record@)
    }
}

pub open spec fn upserts_view(us: Seq<Upsert>) -> Seq<(Seq<char>, SecretView)> {
    us.map_values(|u: Upsert| u@)
}

/// The path a group's children see: the parent's path, a slash, the group's
/// name as it is.
pub open spec fn child_prefix(prefix: Seq<char>, name: Seq<char>) -> Seq<char> {
    prefix + seq!['/'] + name
}

/// The storage path of an entry with these fields under the joined `prefix`.
pub open spec fn entry_path(prefix: Seq<char>, fields: Seq<FieldView>) -> Seq<char> {
    sanitized_path(prefix + seq!['/'] + sanitized(record_title(fields)))
}

/// What is written for one entry under `prefix`.
pub open spec fn entry_upsert(prefix: Seq<char>, fields: Seq<FieldView>) -> (
    Seq<char>,
    SecretView,
) {
    (entry_path(prefix, fields), record_of(fields))
}

/// The upserts for `nodes` under `prefix`, in depth-first pre-order.
pub open spec fn plan(prefix: Seq<char>, nodes: Seq<Node>) -> Seq<(Seq<char>, SecretView)>
    decreases nodes,
{
    if nodes.len() == 0 {
        seq![]
    } else {
        let rest = plan(prefix, nodes.drop_last());
        match nodes.last() {
            Node::Group(g) => rest + plan(child_prefix(prefix, g.name@), g.children@),
            Node::Entry(e) => rest.push(entry_upsert(prefix, e@)),
        }
    }
}

/// The upsert for one entry found at `path`.
pub fn process_keepass_entry(path: &str, entry: &Entry) -> (r: Upsert)
    ensures
        r@ == entry_upsert(path@, entry@),
{
    let record = build_record(entry);
    let title = entry.title_or_undefined();
    let mut joined = String::from_str(path);
    proof {
        reveal_strlit("/");
    }
    joined.append("/");
    let segment = sanitize_node_name(title.as_str());
    joined.append(segment.as_str());
    let path = sanitize_path(joined.as_str());
    Upsert { path, record }
}

/// Appends to `out` the upserts for the children of `group`, found at
/// `path`, in depth-first pre-order.
pub fn process_keepass_group(path: &str, group: &Group, out: &mut Vec<Upsert>)
    ensures
        upserts_view(final(out)@) == upserts_view(old(out)@) + plan(path@, group.children@),
    decreases group,
{
    let n = group.children.len();
    let mut i: usize = 0;
    assert(group.children@.subrange(0, 0) =~= Seq::<Node>::empty());
    assert(upserts_view(out@) =~= upserts_view(old(out)@) + plan(path@, Seq::<Node>::empty()));
    while i < n
        invariant
            n == group.children@.len(),
            i <= n,
            upserts_view(out@) == upserts_view(old(out)@) + plan(
                path@,
                group.children@.subrange(0, i as int),
            ),
        decreases n - i,
    {
        let ghost before = upserts_view(out@);
        let ghost done = group.children@.subrange(0, i + 1);
        assert(done.drop_last() =~= group.children@.subrange(0, i as int));
        match &group.children[i] {
            Node::Group(g) => {
                let mut sub = String::from_str(path);
                proof {
                    reveal_strlit("/");
                }
                sub.append("/");
                sub.append(g.name.as_str());
                process_keepass_group(sub.as_str(), g, out);
                assert(sub@ =~= child_prefix(path@, g.name@));
                assert(done.last() == group.children@[i as int]);
                assert(plan(path@, done) == plan(path@, done.drop_last()) + plan(
                    child_prefix(path@, g.name@),
                    g.children@,
                ));
                assert(upserts_view(out@) =~= upserts_view(old(out)@) + plan(path@, done));
            },
            Node::Entry(e) => {
                let u = process_keepass_entry(path, e);
                out.push(u);
                assert(upserts_view(out@) =~= before.push(u@));
                assert(upserts_view(out@) =~= upserts_view(old(out)@) + plan(path@, done));
            },
        }
        i = i + 1;
    }
    assert(group.children@.subrange(0, n as int) =~= group.children@);
}

/// The upserts for every entry below `root`, each at the path made of
/// `prefix`, the names of the groups on the way and the entry's title, in
/// depth-first pre-order.
pub fn plan_migration(prefix: &str, root: &Group) -> (r: Vec<Upsert>)
    ensures
        upserts_view(r@) == plan(prefix@, root.children@),
{
    let mut out: Vec<Upsert> = Vec::new();
    process_keepass_group(prefix, root, &mut out);
    assert(upserts_view(Seq::<Upsert>::empty()) =~= Seq::empty());
    out
}

/// The number of entries below `nodes`, at any depth.
pub open spec fn entry_count(nodes: Seq<Node>) -> nat
    decreases nodes,
{
    if nodes.len() == 0 {
        0
    } else {
        entry_count(nodes.drop_last()) + match nodes.last() {
            Node::Group(g) => entry_count(g.children@),
            Node::Entry(_) => 1,
        }
    }
}

/// Siblings are walked in order: the upserts for `a + b` are those for `a`
/// followed by those for `b`.
pub proof fn lemma_siblings_in_order(prefix: Seq<char>, a: Seq<Node>, b: Seq<Node>)
    ensures
        plan(prefix, a + b) == plan(prefix, a) + plan(prefix, b),
    decreases b.len(),
{
    if b.len() == 0 {
        assert(a + b =~= a);
        assert(plan(prefix, a + b) =~= plan(prefix, a) + plan(prefix, b));
    } else {
        lemma_siblings_in_order(prefix, a, b.drop_last());
        assert((a + b).drop_last() =~= a + b.drop_last());
        assert((a + b).last() == b.last());
        assert(plan(prefix, a + b) =~= plan(prefix, a) + plan(prefix, b));
    }
}

/// A group stands for its children, walked under its own path; an entry is
/// written once, under the path of its group.
pub proof fn lemma_single_node(prefix: Seq<char>, n: Node)
    ensures
        match n {
            Node::Group(g) => plan(prefix, seq![n]) == plan(
                child_prefix(prefix, g.name@),
                g.children@,
            ),
            Node::Entry(e) => plan(prefix, seq![n]) == seq![entry_upsert(prefix, e@)],
        },
{
    let one = seq![n];
    assert(one.drop_last() =~= Seq::<Node>::empty());
    assert(one.last() == n);
    assert(plan(prefix, Seq::<Node>::empty()) == Seq::<(Seq<char>, SecretView)>::empty());
    assert(plan(prefix, one) =~= plan(prefix, Seq::<Node>::empty()) + match n {
        Node::Group(g) => plan(child_prefix(prefix, g.name@), g.children@),
        Node::Entry(e) => seq![entry_upsert(prefix, e@)],
    });
}

/// The walk writes one upsert for each entry, at any depth.
pub proof fn lemma_one_upsert_per_entry(prefix: Seq<char>, nodes: Seq<Node>)
    ensures
        plan(prefix, nodes).len() == entry_count(nodes),
    decreases nodes,
{
    if nodes.len() > 0 {
        lemma_one_upsert_per_entry(prefix, nodes.drop_last());
        match nodes.last() {
            Node::Group(g) => lemma_one_upsert_per_entry(child_prefix(prefix, g.name@), g.children@),
            Node::Entry(_) => {},
        }
    }
}

/// The entries below `nodes`, in depth-first pre-order, each with the names
/// of the groups from `nodes` down to it.
pub open spec fn located(nodes: Seq<Node>) -> Seq<(Seq<Seq<char>>, Entry)>
    decreases nodes,
{
    if nodes.len() == 0 {
        seq![]
    } else {
        let rest = located(nodes.drop_last());
        match nodes.last() {
            Node::Group(g) => rest + under(g.name@, located(g.children@)),
            Node::Entry(e) => rest.push((Seq::<Seq<char>>::empty(), e)),
        }
    }
}

/// Located entries seen from one group further up, named `name`.
pub open spec fn under(name: Seq<char>, ls: Seq<(Seq<Seq<char>>, Entry)>) -> Seq<
    (Seq<Seq<char>>, Entry),
> {
    ls.map_values(|p: (Seq<Seq<char>>, Entry)| (seq![name] + p.0, p.1))
}

/// The upsert of each located entry, at the path its groups lead to from
/// `prefix`.
pub open spec fn upserts_at(prefix: Seq<char>, ls: Seq<(Seq<Seq<char>>, Entry)>) -> Seq<
    (Seq<char>, SecretView),
> {
    ls.map_values(|p: (Seq<Seq<char>>, Entry)| entry_upsert(joined_prefix(prefix, p.0), p.1@))
}

/// The walk writes, in pre-order, each entry at any depth and position at
/// the path that `prefix` and the names of its groups lead to, with its own
/// record.
pub proof fn lemma_plan_located(prefix: Seq<char>, nodes: Seq<Node>)
    ensures
        plan(prefix, nodes) == upserts_at(prefix, located(nodes)),
    decreases nodes,
{
    if nodes.len() == 0 {
        assert(plan(prefix, nodes) =~= upserts_at(prefix, located(nodes)));
    } else {
        let init = nodes.drop_last();
        lemma_plan_located(prefix, init);
        let li = located(init);
        match nodes.last() {
            Node::Group(g) => {
                let cp = child_prefix(prefix, g.name@);
                lemma_plan_located(cp, g.children@);
                let lc = located(g.children@);
                assert forall|k: int| 0 <= k < lc.len() implies joined_prefix(
                    prefix,
                    #[trigger] under(g.name@, lc)[k].0,
                ) == joined_prefix(cp, lc[k].0) by {
                    let names = seq![g.name@] + lc[k].0;
                    assert(names.drop_first() =~= lc[k].0);
                    assert(names[0] == g.name@);
                }
                assert(upserts_at(cp, lc) =~= upserts_at(prefix, under(g.name@, lc)));
                assert(upserts_at(prefix, li + under(g.name@, lc)) =~= upserts_at(prefix, li)
                    + upserts_at(prefix, under(g.name@, lc)));
            },
            Node::Entry(e) => {
                let item = (Seq::<Seq<char>>::empty(), e);
                assert(joined_prefix(prefix, item.0) == prefix);
                assert(upserts_at(prefix, li.push(item)) =~= upserts_at(prefix, li).push(
                    entry_upsert(prefix, e@),
                ));
            },
        }
    }
}

/// At any depth and position, an entry's path is its prefix, the names of
/// its groups and its title, sanitized and joined by single slashes; it
/// neither begins nor ends with a slash where its first segment does not
/// begin with one and its title does not end with one.
pub proof fn lemma_path_at_any_depth(prefix: Seq<char>, nodes: Seq<Node>, i: int)
    requires
        0 <= i < located(nodes).len(),
        path_segments(prefix, located(nodes)[i].0, record_title(located(nodes)[i].1@))[0].len()
            > 0,
        path_segments(prefix, located(nodes)[i].0, record_title(located(nodes)[i].1@))[0][0]
            != '/',
        record_title(located(nodes)[i].1@).last() != '/',
    ensures
        plan(prefix, nodes)[i] == entry_upsert(
            joined_prefix(prefix, located(nodes)[i].0),
            located(nodes)[i].1@,
        ),
        plan(prefix, nodes)[i].0 == sanitized(
            join_segments(
                path_segments(prefix, located(nodes)[i].0, record_title(located(nodes)[i].1@)),
            ),
        ),
        plan(prefix, nodes)[i].0[0] != '/',
        plan(prefix, nodes)[i].0.last() != '/',
{
    lemma_plan_located(prefix, nodes);
    lemma_path_layout(prefix, located(nodes)[i].0, located(nodes)[i].1@);
}

/// Two entries anywhere below `nodes` that come to the same path are both
/// written, the first one first, each with its own record.
pub proof fn lemma_same_path_no_dedup(prefix: Seq<char>, nodes: Seq<Node>, i: int, j: int)
    requires
        0 <= i < j < located(nodes).len(),
        entry_path(joined_prefix(prefix, located(nodes)[i].0), located(nodes)[i].1@)
            == entry_path(joined_prefix(prefix, located(nodes)[j].0), located(nodes)[j].1@),
    ensures
        plan(prefix, nodes).len() == located(nodes).len(),
        plan(prefix, nodes)[i].0 == plan(prefix, nodes)[j].0,
        plan(prefix, nodes)[i].1 == record_of(located(nodes)[i].1@),
        plan(prefix, nodes)[j].1 == record_of(located(nodes)[j].1@),
{
    lemma_plan_located(prefix, nodes);
}

/// The path that a walk has reached after descending into groups `names`.
pub open spec fn joined_prefix(prefix: Seq<char>, names: Seq<Seq<char>>) -> Seq<char>
    decreases names.len(),
{
    if names.len() == 0 {
        prefix
    } else {
        joined_prefix(child_prefix(prefix, names[0]), names.drop_first())
    }
}

/// `segs` joined by single slashes.
pub open spec fn join_segments(segs: Seq<Seq<char>>) -> Seq<char>
    decreases segs.len(),
{
    if segs.len() == 0 {
        seq![]
    } else if segs.len() == 1 {
        segs[0]
    } else {
        segs[0] + seq!['/'] + join_segments(segs.drop_first())
    }
}

proof fn lemma_joined_prefix_segments(p: Seq<char>, names: Seq<Seq<char>>, t: Seq<char>)
    ensures
        joined_prefix(p, names) + seq!['/'] + t == join_segments(seq![p] + names + seq![t]),
    decreases names.len(),
{
    let segs = seq![p] + names + seq![t];
    if names.len() == 0 {
        assert(segs =~= seq![p, t]);
        assert(segs.drop_first() =~= seq![t]);
        assert(join_segments(seq![t]) == t);
        assert(join_segments(segs) == p + seq!['/'] + join_segments(segs.drop_first()));
    } else {
        let q = child_prefix(p, names[0]);
        lemma_joined_prefix_segments(q, names.drop_first(), t);
        let x = names.drop_first() + seq![t];
        assert(seq![q] + names.drop_first() + seq![t] =~= seq![q] + x);
        assert((seq![q] + x).drop_first() =~= x);
        assert(segs.drop_first() =~= seq![names[0]] + x);
        assert((seq![names[0]] + x).drop_first() =~= x);
        assert(join_segments(seq![q] + x) =~= q + seq!['/'] + join_segments(x));
        assert(join_segments(seq![names[0]] + x) =~= names[0] + seq!['/'] + join_segments(x));
        assert(segs.len() >= 2 && segs[0] == p);
        assert(join_segments(segs) == p + seq!['/'] + join_segments(segs.drop_first()));
        assert(joined_prefix(p, names) == joined_prefix(q, names.drop_first()));
        assert(joined_prefix(p, names) + seq!['/'] + t =~= q + seq!['/'] + join_segments(x));
    }
}

/// The segments of an entry's path: the prefix where it is not empty, the
/// names of its groups, its title.
pub open spec fn path_segments(prefix: Seq<char>, names: Seq<Seq<char>>, title: Seq<char>) -> Seq<
    Seq<char>,
> {
    (if prefix.len() == 0 {
        Seq::<Seq<char>>::empty()
    } else {
        seq![prefix]
    }) + names + seq![title]
}

/// At any depth, an entry's path is its prefix, the names of its groups and
/// its title, sanitized and joined by single slashes, and it neither begins
/// nor ends with a slash where its first segment does not begin with one and
/// its title does not end with one.
pub proof fn lemma_path_layout(prefix: Seq<char>, names: Seq<Seq<char>>, fields: Seq<FieldView>)
    requires
        path_segments(prefix, names, record_title(fields))[0].len() > 0,
        path_segments(prefix, names, record_title(fields))[0][0] != '/',
        record_title(fields).last() != '/',
    ensures
        entry_path(joined_prefix(prefix, names), fields) == sanitized(
            join_segments(path_segments(prefix, names, record_title(fields))),
        ),
        entry_path(joined_prefix(prefix, names), fields)[0] != '/',
        entry_path(joined_prefix(prefix, names), fields).last() != '/',
{
    let t = record_title(fields);
    reveal_strlit("undefined");
    assert(t.len() > 0);
    let st = sanitized(t);
    let segs = path_segments(prefix, names, t);
    lemma_joined_prefix_segments(prefix, names, st);
    let full = joined_prefix(prefix, names) + seq!['/'] + st;
    crate::sanitize::lemma_sanitize_idempotent(t);
    let body = join_segments(names + seq![t]);
    let sbody = join_segments(names + seq![st]);
    lemma_join_sanitized(names, t);
    assert(seq![prefix] + names + seq![st] =~= seq![prefix] + (names + seq![st]));
    assert((seq![prefix] + (names + seq![st])).drop_first() =~= names + seq![st]);
    assert(sanitized(st) == st);
    assert(st.len() == t.len());
    assert(st.last() == sanitized(t).last());
    if prefix.len() == 0 {
        assert(segs =~= names + seq![t]);
        assert(full =~= seq!['/'] + sbody);
        assert(sanitized(full) =~= seq!['/'] + sanitized(sbody));
        assert(sanitized(full).drop_first() =~= sanitized(sbody));
        assert(sanitized(sbody)[0] == sanitized(body)[0]);
    } else {
        assert(segs =~= seq![prefix] + (names + seq![t]));
        assert((seq![prefix] + (names + seq![t])).drop_first() =~= names + seq![t]);
        assert(full =~= prefix + seq!['/'] + sbody);
        assert(sanitized(full) =~= sanitized(prefix) + seq!['/'] + sanitized(sbody));
        assert(join_segments(segs) =~= prefix + seq!['/'] + body);
        assert(sanitized(join_segments(segs)) =~= sanitized(prefix) + seq!['/'] + sanitized(body));
    }
}

/// Sanitizing the last segment before joining changes nothing once the
/// whole is sanitized.
proof fn lemma_join_sanitized(names: Seq<Seq<char>>, t: Seq<char>)
    ensures
        sanitized(join_segments(names + seq![sanitized(t)])) == sanitized(
            join_segments(names + seq![t]),
        ),
    decreases names.len(),
{
    crate::sanitize::lemma_sanitize_idempotent(t);
    let st = sanitized(t);
    if names.len() == 0 {
        assert(names + seq![t] =~= seq![t]);
        assert(names + seq![st] =~= seq![st]);
    } else {
        lemma_join_sanitized(names.drop_first(), t);
        let x = names.drop_first() + seq![t];
        let y = names.drop_first() + seq![st];
        assert((names + seq![t]).drop_first() =~= x);
        assert((names + seq![st]).drop_first() =~= y);
        assert((names + seq![t])[0] == names[0]);
        assert((names + seq![st])[0] == names[0]);
        assert(join_segments(names + seq![t]) =~= names[0] + seq!['/'] + join_segments(x));
        assert(join_segments(names + seq![st]) =~= names[0] + seq!['/'] + join_segments(y));
        crate::sanitize::lemma_sanitized_concat(names[0] + seq!['/'], join_segments(x));
        crate::sanitize::lemma_sanitized_concat(names[0] + seq!['/'], join_segments(y));
    }
}

} // verus!
