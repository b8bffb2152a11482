//! Builds an ASCII tree representation from a list of file paths, with
//! directories listed before files and names ordered case-insensitively. The
//! tree a call produces is pinned exactly: a ghost model of the forest is
//! built by `spec_build` and rendered by `spec_render_from`, and the
//! executable functions are proved to produce precisely that text.

use crate::text::{append_chars, chars_string, charvec_views, sep_split, split_sep, str_chars, string_views};
use vstd::prelude::*;

verus! {

/// A node in the directory tree: a directory with named children, or a file.
pub enum Node {
    /// A directory and its entries, kept in display order.
    Directory(Vec<TreeEntry>),
    /// A file.
    File,
}

/// One named entry of a directory.
pub struct TreeEntry {
    /// The entry's name.
    pub name: String,
    /// The entry's node.
    pub node: Node,
}

/// The ghost model of a node: the shape of the tree, over plain values.
pub enum NodeV {
    /// A directory and its entries, in display order.
    Directory(Seq<EntryV>),
    /// A file.
    File,
}

/// The ghost model of one named entry.
pub struct EntryV {
    /// The entry's name.
    pub name: Seq<char>,
    /// The entry's node.
    pub node: NodeV,
}

/// Whether the executable node carries exactly the ghost model's shape.
pub open spec fn node_repr(n: Node, nv: NodeV) -> bool
    decreases nv,
{
    match nv {
        NodeV::File => n is File,
        NodeV::Directory(mv) => match n {
            Node::Directory(v) => forest_repr(v@, mv),
            Node::File => false,
        },
    }
}

/// Whether the executable entries carry exactly the ghost forest's shape.
pub open spec fn forest_repr(s: Seq<TreeEntry>, m: Seq<EntryV>) -> bool
    decreases m,
{
    &&& s.len() == m.len()
    &&& forall|i: int|
        0 <= i < m.len() ==> s[i].name@ == (#[trigger] m[i]).name && node_repr(s[i].node, m[i].node)
}

/// Represented nodes agree on their kind.
proof fn lemma_repr_kinds(s: Seq<TreeEntry>, m: Seq<EntryV>)
    requires
        forest_repr(s, m),
    ensures
        forall|i: int|
            0 <= i < m.len() ==> ((#[trigger] s[i].node) is Directory <==> m[i].node is Directory),
{
    assert forall|i: int|
        0 <= i < m.len() implies ((#[trigger] s[i].node) is Directory <==> m[i].node
        is Directory) by {
        assert(node_repr(s[i].node, m[i].node));
        match m[i].node {
            NodeV::File => {},
            NodeV::Directory(_) => {},
        }
    }
}

/// The code point of a character with an upper-case ASCII letter lowered.
pub open spec fn lower_val(c: char) -> u32 {
    if 65 <= c as u32 <= 90 {
        (c as u32 + 32) as u32
    } else {
        c as u32
    }
}

/// Three-way case-insensitive comparison of names: negative when `a` comes
/// first, positive when `b` does, zero when they match ignoring ASCII case.
pub open spec fn lower_cmp(a: Seq<char>, b: Seq<char>) -> int
    decreases a.len(),
{
    if a.len() == 0 && b.len() == 0 {
        0
    } else if a.len() == 0 {
        -1
    } else if b.len() == 0 {
        1
    } else if lower_val(a[0]) < lower_val(b[0]) {
        -1
    } else if lower_val(a[0]) > lower_val(b[0]) {
        1
    } else {
        lower_cmp(a.skip(1), b.skip(1))
    }
}

/// Display order on entries: directories before files, names compared
/// case-insensitively, equal-sounding names compared exactly.
pub open spec fn entry_leq(adir: bool, a: Seq<char>, bdir: bool, b: Seq<char>) -> bool {
    if adir != bdir {
        adir
    } else {
        let c = lower_cmp(a, b);
        if c != 0 {
            c < 0
        } else {
            crate::info::show_paths::lex_leq(a, b)
        }
    }
}

/// The index of the first entry with the given name, if any.
pub open spec fn spec_find_name(m: Seq<EntryV>, name: Seq<char>) -> Option<int>
    decreases m.len(),
{
    if m.len() == 0 {
        None
    } else if m[0].name == name {
        Some(0)
    } else {
        match spec_find_name(m.skip(1), name) {
            None => None,
            Some(k) => Some(k + 1),
        }
    }
}

/// A found name is the first of its kind.
proof fn lemma_find_name_char(m: Seq<EntryV>, name: Seq<char>)
    ensures
        (match spec_find_name(m, name) {
            Some(k) => 0 <= k < m.len() && m[k].name == name && (forall|q: int|
                0 <= q < k ==> (#[trigger] m[q]).name != name),
            None => forall|q: int| 0 <= q < m.len() ==> (#[trigger] m[q]).name != name,
        }),
    decreases m.len(),
{
    if m.len() == 0 {
    } else if m[0].name == name {
    } else {
        lemma_find_name_char(m.skip(1), name);
        match spec_find_name(m.skip(1), name) {
            Some(k) => {
                assert(m.skip(1)[k] == m[k + 1]);
                assert forall|q: int| 0 <= q < k + 1 implies (#[trigger] m[q]).name != name by {
                    if q > 0 {
                        assert(m.skip(1)[q - 1] == m[q]);
                    }
                }
            },
            None => {
                assert forall|q: int|
                    0 <= q < m.len() implies (#[trigger] m[q]).name != name by {
                    if q > 0 {
                        assert(m.skip(1)[q - 1] == m[q]);
                    }
                }
            },
        }
    }
}

/// The display position of a new entry: after every entry that precedes or
/// equals it in display order.
pub open spec fn spec_insert_pos(m: Seq<EntryV>, new_dir: bool, name: Seq<char>) -> int
    decreases m.len(),
{
    if m.len() == 0 {
        0
    } else if entry_leq(m[0].node is Directory, m[0].name, new_dir, name) {
        1 + spec_insert_pos(m.skip(1), new_dir, name)
    } else {
        0
    }
}

/// The insert position is the first place the new entry need not follow.
proof fn lemma_insert_pos_char(m: Seq<EntryV>, new_dir: bool, name: Seq<char>)
    ensures
        0 <= spec_insert_pos(m, new_dir, name) <= m.len(),
        forall|q: int|
            0 <= q < spec_insert_pos(m, new_dir, name) ==> entry_leq(
                (#[trigger] m[q]).node is Directory,
                m[q].name,
                new_dir,
                name,
            ),
        spec_insert_pos(m, new_dir, name) < m.len() ==> !entry_leq(
            m[spec_insert_pos(m, new_dir, name)].node is Directory,
            m[spec_insert_pos(m, new_dir, name)].name,
            new_dir,
            name,
        ),
    decreases m.len(),
{
    if m.len() == 0 {
    } else if entry_leq(m[0].node is Directory, m[0].name, new_dir, name) {
        lemma_insert_pos_char(m.skip(1), new_dir, name);
        let sp = spec_insert_pos(m.skip(1), new_dir, name);
        assert forall|q: int|
            0 <= q < 1 + sp implies entry_leq(
                (#[trigger] m[q]).node is Directory,
                m[q].name,
                new_dir,
                name,
            ) by {
            if q > 0 {
                assert(m.skip(1)[q - 1] == m[q]);
            }
        }
        if 1 + sp < m.len() {
            assert(m.skip(1)[sp] == m[1 + sp]);
        }
    } else {
    }
}

/// The path components from index `j` on, threaded into the ghost forest: the
/// last component becomes a file, the others directories; a name already
/// present keeps the kind it has, and a component that meets an existing file
/// is dropped rather than descending into it.
pub open spec fn spec_insert_comps(m: Seq<EntryV>, comps: Seq<Seq<char>>, j: int) -> Seq<EntryV>
    decreases comps.len() - j,
{
    if j < 0 || j >= comps.len() {
        m
    } else {
        let name = comps[j];
        let last = j == comps.len() - 1;
        match spec_find_name(m, name) {
            Some(k) => if last {
                m
            } else {
                match m[k].node {
                    NodeV::Directory(sub) => m.update(
                        k,
                        EntryV {
                            name: m[k].name,
                            node: NodeV::Directory(spec_insert_comps(sub, comps, j + 1)),
                        },
                    ),
                    NodeV::File => m,
                }
            },
            None => if last {
                m.insert(
                    spec_insert_pos(m, false, name),
                    EntryV { name, node: NodeV::File },
                )
            } else {
                m.insert(
                    spec_insert_pos(m, true, name),
                    EntryV {
                        name,
                        node: NodeV::Directory(spec_insert_comps(Seq::empty(), comps, j + 1)),
                    },
                )
            },
        }
    }
}

/// A directory named after the root, holding the remaining components; a root
/// name already taken by a file is left as it is.
pub open spec fn spec_insert_root(
    m: Seq<EntryV>,
    root: Seq<char>,
    rest: Seq<Seq<char>>,
) -> Seq<EntryV> {
    match spec_find_name(m, root) {
        Some(k) => match m[k].node {
            NodeV::Directory(sub) => m.update(
                k,
                EntryV { name: m[k].name, node: NodeV::Directory(spec_insert_comps(sub, rest, 0)) },
            ),
            NodeV::File => m,
        },
        None => m.insert(
            spec_insert_pos(m, true, root),
            EntryV { name: root, node: NodeV::Directory(spec_insert_comps(Seq::empty(), rest, 0)) },
        ),
    }
}

/// One path threaded into the ghost forest: when a root is given and its
/// components prefix the path's, the root path stands as a single top node
/// holding the remainder; otherwise the path's own components are threaded.
pub open spec fn spec_build_step(
    m: Seq<EntryV>,
    path: Seq<char>,
    root: Option<Seq<char>>,
) -> Seq<EntryV> {
    let pc = spec_components(path);
    match root {
        Some(rv) => {
            let rc = spec_components(rv);
            if rc.len() <= pc.len() && pc.take(rc.len() as int) == rc {
                spec_insert_root(m, rv, pc.skip(rc.len() as int))
            } else {
                spec_insert_comps(m, pc, 0)
            }
        },
        None => spec_insert_comps(m, pc, 0),
    }
}

/// The ghost forest the paths build, threaded one at a time in input order.
pub open spec fn spec_build(paths: Seq<Seq<char>>, root: Option<Seq<char>>) -> Seq<EntryV>
    decreases paths.len(),
{
    if paths.len() == 0 {
        Seq::empty()
    } else {
        spec_build_step(spec_build(paths.drop_last(), root), paths.last(), root)
    }
}

/// The connector drawn before an entry's name.
pub open spec fn conn_text(top: bool, last: bool) -> Seq<char> {
    if top {
        Seq::empty()
    } else if last {
        "\u{2514}\u{2500}\u{2500} "@
    } else {
        "\u{251c}\u{2500}\u{2500} "@
    }
}

/// The prefix a directory's children are drawn under.
pub open spec fn child_prefix(prefix: Seq<char>, top: bool, last: bool) -> Seq<char> {
    if top {
        Seq::empty()
    } else if last {
        prefix + "    "@
    } else {
        prefix + "\u{2502}   "@
    }
}

/// The rendered text of the forest's entries from index `i` on: one line per
/// entry — the prefix, its connector and its name — with a directory's
/// children rendered beneath it under an extended prefix.
pub open spec fn spec_render_from(
    m: Seq<EntryV>,
    i: int,
    prefix: Seq<char>,
    top: bool,
) -> Seq<char>
    decreases m, m.len() - i,
{
    if i < 0 || i >= m.len() {
        Seq::empty()
    } else {
        let e = m[i];
        let last = i == m.len() - 1;
        let line = prefix + conn_text(top, last) + e.name + seq!['\n'];
        let below = match e.node {
            NodeV::Directory(sub) => spec_render_from(sub, 0, child_prefix(prefix, top, last), false),
            NodeV::File => Seq::<char>::empty(),
        };
        line + below + spec_render_from(m, i + 1, prefix, top)
    }
}

/// The view of an optional root path.
pub open spec fn opt_str_view(o: Option<String>) -> Option<Seq<char>> {
    match o {
        Some(s) => Some(s@),
        None => None,
    }
}

/// The code point of a character with an upper-case ASCII letter lowered.
fn lval(c: char) -> (r: u32)
    ensures
        r == lower_val(c),
{
    let v = c as u32;
    if 65 <= v && v <= 90 {
        v + 32
    } else {
        v
    }
}

/// Three-way case-insensitive comparison: 0 when `a` comes first, 1 when they
/// match ignoring ASCII case, 2 when `b` comes first.
fn lower_cmp_exec(a: &Vec<char>, b: &Vec<char>) -> (r: u8)
    ensures
        r <= 2,
        lower_cmp(a@, b@) == (if r == 0 {
            -1int
        } else if r == 1 {
            0int
        } else {
            1int
        }),
{
    let an: usize = a.len();
    let bn: usize = b.len();
    let mut i: usize = 0;
    proof {
        assert(a@.skip(0) =~= a@);
        assert(b@.skip(0) =~= b@);
    }
    while i < an && i < bn
        invariant
            i <= an,
            i <= bn,
            an == a@.len(),
            bn == b@.len(),
            lower_cmp(a@, b@) == lower_cmp(a@.skip(i as int), b@.skip(i as int)),
        decreases an - i,
    {
        proof {
            assert(a@.skip(i as int)[0] == a@[i as int]);
            assert(b@.skip(i as int)[0] == b@[i as int]);
            assert(a@.skip(i as int).skip(1) =~= a@.skip(i + 1));
            assert(b@.skip(i as int).skip(1) =~= b@.skip(i + 1));
        }
        let va = lval(a[i]);
        let vb = lval(b[i]);
        if va < vb {
            return 0;
        }
        if va > vb {
            return 2;
        }
        i = i + 1;
    }
    proof {
        if i >= an {
            assert(a@.skip(i as int).len() == 0);
        }
        if i >= bn {
            assert(b@.skip(i as int).len() == 0);
        }
    }
    if an == bn {
        1
    } else if i >= an {
        0
    } else {
        2
    }
}

/// Whether entry (`adir`, `a`) is displayed at or before entry (`bdir`, `b`).
fn entry_before(adir: bool, a: &Vec<char>, bdir: bool, b: &Vec<char>) -> (r: bool)
    ensures
        r == entry_leq(adir, a@, bdir, b@),
{
    if adir != bdir {
        return adir;
    }
    let c = lower_cmp_exec(a, b);
    if c == 0 {
        true
    } else if c == 2 {
        false
    } else {
        crate::info::show_paths::str_lex_leq_chars(a, b)
    }
}

/// Whether a node is a directory.
fn is_directory(n: &Node) -> (r: bool)
    ensures
        r == (n is Directory),
{
    match n {
        Node::Directory(_) => true,
        Node::File => false,
    }
}

/// The display position for a new entry: after every entry that precedes or
/// equals it in display order.
fn insert_position(entries: &Vec<TreeEntry>, new_dir: bool, new_name: &Vec<char>) -> (p: usize)
    ensures
        p <= entries@.len(),
        forall|q: int|
            0 <= q < p ==> entry_leq(
                (#[trigger] entries@[q]).node is Directory,
                entries@[q].name@,
                new_dir,
                new_name@,
            ),
        p < entries@.len() ==> !entry_leq(
            entries@[p as int].node is Directory,
            entries@[p as int].name@,
            new_dir,
            new_name@,
        ),
{
    let mut p: usize = 0;
    while p < entries.len()
        invariant
            p <= entries@.len(),
            forall|q: int|
                0 <= q < p ==> entry_leq(
                    (#[trigger] entries@[q]).node is Directory,
                    entries@[q].name@,
                    new_dir,
                    new_name@,
                ),
        decreases entries@.len() - p,
    {
        let en = str_chars(entries[p].name.as_str());
        let ed = is_directory(&entries[p].node);
        if !entry_before(ed, &en, new_dir, new_name) {
            return p;
        }
        p = p + 1;
    }
    p
}

/// The index of the first entry with the given name, if any.
fn find_entry(entries: &Vec<TreeEntry>, name: &String) -> (r: Option<usize>)
    ensures
        (match r {
            Some(k) => k < entries@.len() && entries@[k as int].name@ == name@ && (forall|q: int|
                0 <= q < k ==> (#[trigger] entries@[q]).name@ != name@),
            None => forall|q: int|
                0 <= q < entries@.len() ==> (#[trigger] entries@[q]).name@ != name@,
        }),
{
    let mut k: usize = 0;
    while k < entries.len()
        invariant
            k <= entries@.len(),
            forall|q: int| 0 <= q < k ==> (#[trigger] entries@[q]).name@ != name@,
        decreases entries@.len() - k,
    {
        if entries[k].name == *name {
            return Some(k);
        }
        k = k + 1;
    }
    None
}

/// The spec-level and executable name searches find the same index on
/// represented forests.
proof fn lemma_find_agrees(
    s: Seq<TreeEntry>,
    m: Seq<EntryV>,
    name: Seq<char>,
    r: Option<usize>,
)
    requires
        forest_repr(s, m),
        (match r {
            Some(k) => k < s.len() && s[k as int].name@ == name && (forall|q: int|
                0 <= q < k ==> (#[trigger] s[q]).name@ != name),
            None => forall|q: int| 0 <= q < s.len() ==> (#[trigger] s[q]).name@ != name,
        }),
    ensures
        spec_find_name(m, name) == (match r {
            Some(k) => Some(k as int),
            None => None::<int>,
        }),
{
    lemma_find_name_char(m, name);
    match r {
        Some(k) => {
            assert(m[k as int].name == name);
            match spec_find_name(m, name) {
                Some(k2) => {
                    if k2 < k as int {
                        assert(s[k2].name@ == m[k2].name);
                    }
                    if (k as int) < k2 {
                        assert(m[k as int].name != name);
                    }
                },
                None => {
                    assert(m[k as int].name != name);
                },
            }
        },
        None => {
            match spec_find_name(m, name) {
                Some(k2) => {
                    assert(s[k2].name@ == m[k2].name);
                },
                None => {},
            }
        },
    }
}

/// The spec-level and executable insert positions agree on represented
/// forests.
proof fn lemma_pos_agrees(
    s: Seq<TreeEntry>,
    m: Seq<EntryV>,
    new_dir: bool,
    name: Seq<char>,
    p: usize,
)
    requires
        forest_repr(s, m),
        p <= s.len(),
        forall|q: int|
            0 <= q < p ==> entry_leq(
                (#[trigger] s[q]).node is Directory,
                s[q].name@,
                new_dir,
                name,
            ),
        p < s.len() ==> !entry_leq(
            s[p as int].node is Directory,
            s[p as int].name@,
            new_dir,
            name,
        ),
    ensures
        spec_insert_pos(m, new_dir, name) == p as int,
{
    lemma_insert_pos_char(m, new_dir, name);
    lemma_repr_kinds(s, m);
    let sp = spec_insert_pos(m, new_dir, name);
    if sp < p as int {
        assert(entry_leq(s[sp].node is Directory, s[sp].name@, new_dir, name));
        assert(s[sp].name@ == m[sp].name);
    }
    if (p as int) < sp {
        assert(entry_leq(m[p as int].node is Directory, m[p as int].name, new_dir, name));
        assert(s[p as int].name@ == m[p as int].name);
    }
}

/// Inserts the path components from index `j` on into the forest, tracking
/// the ghost model exactly: the last component becomes a file, the others
/// directories; a name already present keeps the kind it has, and a component
/// that meets an existing file is dropped rather than descending into it.
fn insert_comps(entries: Vec<TreeEntry>, comps: &Vec<String>, j: usize) -> (r: Vec<TreeEntry>)
    ensures
        forall|m: Seq<EntryV>|
            forest_repr(entries@, m) ==> forest_repr(
                r@,
                #[trigger] spec_insert_comps(m, string_views(comps@), j as int),
            ),
    decreases comps@.len() - j,
{
    let ghost e0 = entries@;
    let ghost cs = string_views(comps@);
    let mut es = entries;
    if j >= comps.len() {
        return es;
    }
    proof {
        assert(cs[j as int] == comps@[j as int]@);
    }
    let last = j == comps.len() - 1;
    match find_entry(&es, &comps[j]) {
        Some(k) => {
            if !last {
                let e = es.remove(k);
                match e.node {
                    Node::Directory(sub) => {
                        let ghost sub0 = sub@;
                        let sub2 = insert_comps(sub, comps, j + 1);
                        es.insert(k, TreeEntry { name: e.name, node: Node::Directory(sub2) });
                        proof {
                            assert(es@ =~= e0.update(
                                k as int,
                                TreeEntry { name: e0[k as int].name, node: Node::Directory(sub2) },
                            ));
                            assert forall|m: Seq<EntryV>| forest_repr(e0, m) implies forest_repr(
                                es@,
                                #[trigger] spec_insert_comps(m, cs, j as int),
                            ) by {
                                lemma_find_agrees(e0, m, cs[j as int], Some(k));
                                assert(node_repr(e0[k as int].node, m[k as int].node));
                                let mv = m[k as int].node->Directory_0;
                                assert(forest_repr(sub0, mv));
                                assert(forest_repr(sub2@, spec_insert_comps(mv, cs, j + 1)));
                                let m2 = spec_insert_comps(m, cs, j as int);
                                assert(m2 == m.update(
                                    k as int,
                                    EntryV {
                                        name: m[k as int].name,
                                        node: NodeV::Directory(spec_insert_comps(mv, cs, j + 1)),
                                    },
                                ));
                                assert forall|i: int| 0 <= i < m2.len() implies es@[i].name@ == (
                                #[trigger] m2[i]).name && node_repr(es@[i].node, m2[i].node) by {
                                    if i != k as int {
                                        assert(es@[i] == e0[i]);
                                    }
                                }
                            }
                        }
                    },
                    Node::File => {
                        es.insert(k, TreeEntry { name: e.name, node: Node::File });
                        proof {
                            assert(es@ =~= e0);
                            assert forall|m: Seq<EntryV>| forest_repr(e0, m) implies forest_repr(
                                es@,
                                #[trigger] spec_insert_comps(m, cs, j as int),
                            ) by {
                                lemma_find_agrees(e0, m, cs[j as int], Some(k));
                                assert(node_repr(e0[k as int].node, m[k as int].node));
                                assert(m[k as int].node is File);
                                assert(spec_insert_comps(m, cs, j as int) == m);
                            }
                        }
                    },
                }
            } else {
                proof {
                    assert forall|m: Seq<EntryV>| forest_repr(e0, m) implies forest_repr(
                        es@,
                        #[trigger] spec_insert_comps(m, cs, j as int),
                    ) by {
                        lemma_find_agrees(e0, m, cs[j as int], Some(k));
                        assert(spec_insert_comps(m, cs, j as int) == m);
                    }
                }
            }
        },
        None => {
            let nv = str_chars(comps[j].as_str());
            if last {
                let p = insert_position(&es, false, &nv);
                es.insert(p, TreeEntry { name: comps[j].clone(), node: Node::File });
                proof {
                    assert forall|m: Seq<EntryV>| forest_repr(e0, m) implies forest_repr(
                        es@,
                        #[trigger] spec_insert_comps(m, cs, j as int),
                    ) by {
                        lemma_find_agrees(e0, m, cs[j as int], None);
                        lemma_pos_agrees(e0, m, false, cs[j as int], p);
                        let m2 = spec_insert_comps(m, cs, j as int);
                        assert(m2 == m.insert(
                            p as int,
                            EntryV { name: cs[j as int], node: NodeV::File },
                        ));
                        assert forall|i: int| 0 <= i < m2.len() implies es@[i].name@ == (
                        #[trigger] m2[i]).name && node_repr(es@[i].node, m2[i].node) by {
                            if i < p as int {
                                assert(es@[i] == e0[i]);
                                assert(m2[i] == m[i]);
                            } else if i == p as int {
                            } else {
                                assert(es@[i] == e0[i - 1]);
                                assert(m2[i] == m[i - 1]);
                            }
                        }
                    }
                }
            } else {
                let sub = insert_comps(Vec::new(), comps, j + 1);
                let p = insert_position(&es, true, &nv);
                es.insert(p, TreeEntry { name: comps[j].clone(), node: Node::Directory(sub) });
                proof {
                    assert forall|m: Seq<EntryV>| forest_repr(e0, m) implies forest_repr(
                        es@,
                        #[trigger] spec_insert_comps(m, cs, j as int),
                    ) by {
                        lemma_find_agrees(e0, m, cs[j as int], None);
                        lemma_pos_agrees(e0, m, true, cs[j as int], p);
                        assert(forest_repr(Seq::<TreeEntry>::empty(), Seq::<EntryV>::empty()));
                        assert(forest_repr(sub@, spec_insert_comps(Seq::empty(), cs, j + 1)));
                        let m2 = spec_insert_comps(m, cs, j as int);
                        assert(m2 == m.insert(
                            p as int,
                            EntryV {
                                name: cs[j as int],
                                node: NodeV::Directory(spec_insert_comps(Seq::empty(), cs, j + 1)),
                            },
                        ));
                        assert forall|i: int| 0 <= i < m2.len() implies es@[i].name@ == (
                        #[trigger] m2[i]).name && node_repr(es@[i].node, m2[i].node) by {
                            if i < p as int {
                                assert(es@[i] == e0[i]);
                                assert(m2[i] == m[i]);
                            } else if i == p as int {
                            } else {
                                assert(es@[i] == e0[i - 1]);
                                assert(m2[i] == m[i - 1]);
                            }
                        }
                    }
                }
            }
        },
    }
    es
}

/// Ensures a directory node named after the root exists at the top level and
/// inserts the remaining components beneath it, tracking the ghost model; a
/// root name already taken by a file is left as it is.
fn insert_under_root(entries: Vec<TreeEntry>, root: &String, rest: &Vec<String>) -> (r: Vec<
    TreeEntry,
>)
    ensures
        forall|m: Seq<EntryV>|
            forest_repr(entries@, m) ==> forest_repr(
                r@,
                #[trigger] spec_insert_root(m, root@, string_views(rest@)),
            ),
{
    let ghost e0 = entries@;
    let ghost rs = string_views(rest@);
    let mut es = entries;
    match find_entry(&es, root) {
        Some(k) => {
            let e = es.remove(k);
            match e.node {
                Node::Directory(sub) => {
                    let ghost sub0 = sub@;
                    let sub2 = insert_comps(sub, rest, 0);
                    es.insert(k, TreeEntry { name: e.name, node: Node::Directory(sub2) });
                    proof {
                        assert(es@ =~= e0.update(
                            k as int,
                            TreeEntry { name: e0[k as int].name, node: Node::Directory(sub2) },
                        ));
                        assert forall|m: Seq<EntryV>| forest_repr(e0, m) implies forest_repr(
                            es@,
                            #[trigger] spec_insert_root(m, root@, rs),
                        ) by {
                            lemma_find_agrees(e0, m, root@, Some(k));
                            assert(node_repr(e0[k as int].node, m[k as int].node));
                            let mv = m[k as int].node->Directory_0;
                            assert(forest_repr(sub0, mv));
                            assert(forest_repr(sub2@, spec_insert_comps(mv, rs, 0)));
                            let m2 = spec_insert_root(m, root@, rs);
                            assert(m2 == m.update(
                                k as int,
                                EntryV {
                                    name: m[k as int].name,
                                    node: NodeV::Directory(spec_insert_comps(mv, rs, 0)),
                                },
                            ));
                            assert forall|i: int| 0 <= i < m2.len() implies es@[i].name@ == (
                            #[trigger] m2[i]).name && node_repr(es@[i].node, m2[i].node) by {
                                if i != k as int {
                                    assert(es@[i] == e0[i]);
                                }
                            }
                        }
                    }
                },
                Node::File => {
                    es.insert(k, TreeEntry { name: e.name, node: Node::File });
                    proof {
                        assert(es@ =~= e0);
                        assert forall|m: Seq<EntryV>| forest_repr(e0, m) implies forest_repr(
                            es@,
                            #[trigger] spec_insert_root(m, root@, rs),
                        ) by {
                            lemma_find_agrees(e0, m, root@, Some(k));
                            assert(node_repr(e0[k as int].node, m[k as int].node));
                            assert(m[k as int].node is File);
                            assert(spec_insert_root(m, root@, rs) == m);
                        }
                    }
                },
            }
        },
        None => {
            let sub = insert_comps(Vec::new(), rest, 0);
            let nv = str_chars(root.as_str());
            let p = insert_position(&es, true, &nv);
            es.insert(p, TreeEntry { name: root.clone(), node: Node::Directory(sub) });
            proof {
                assert forall|m: Seq<EntryV>| forest_repr(e0, m) implies forest_repr(
                    es@,
                    #[trigger] spec_insert_root(m, root@, rs),
                ) by {
                    lemma_find_agrees(e0, m, root@, None);
                    lemma_pos_agrees(e0, m, true, root@, p);
                    assert(forest_repr(Seq::<TreeEntry>::empty(), Seq::<EntryV>::empty()));
                    assert(forest_repr(sub@, spec_insert_comps(Seq::empty(), rs, 0)));
                    let m2 = spec_insert_root(m, root@, rs);
                    assert(m2 == m.insert(
                        p as int,
                        EntryV {
                            name: root@,
                            node: NodeV::Directory(spec_insert_comps(Seq::empty(), rs, 0)),
                        },
                    ));
                    assert forall|i: int| 0 <= i < m2.len() implies es@[i].name@ == (
                    #[trigger] m2[i]).name && node_repr(es@[i].node, m2[i].node) by {
                        if i < p as int {
                            assert(es@[i] == e0[i]);
                            assert(m2[i] == m[i]);
                        } else if i == p as int {
                        } else {
                            assert(es@[i] == e0[i - 1]);
                            assert(m2[i] == m[i - 1]);
                        }
                    }
                }
            }
        },
    }
    es
}

/// The normalized components of a path: a leading slash becomes a root
/// component, empty segments are dropped, and a lone dot is kept only as the
/// first component.
pub open spec fn keep_segments(segs: Seq<Seq<char>>, any_yet: bool) -> Seq<Seq<char>>
    decreases segs.len(),
{
    if segs.len() == 0 {
        Seq::empty()
    } else {
        let s0 = segs[0];
        if s0.len() == 0 {
            keep_segments(segs.skip(1), any_yet)
        } else if s0 == seq!['.'] {
            if any_yet {
                keep_segments(segs.skip(1), any_yet)
            } else {
                seq![s0] + keep_segments(segs.skip(1), true)
            }
        } else {
            seq![s0] + keep_segments(segs.skip(1), true)
        }
    }
}

/// The components of a path text.
pub open spec fn spec_components(path: Seq<char>) -> Seq<Seq<char>> {
    if path.len() > 0 && path[0] == '/' {
        seq![seq!['/']] + keep_segments(sep_split(path, '/'), true)
    } else {
        keep_segments(sep_split(path, '/'), false)
    }
}

/// Splits a path into its components: a leading slash becomes a root
/// component, empty segments are dropped, and a lone dot is kept only at the
/// front.
pub fn components_of(path: &str) -> (r: Vec<String>)
    ensures
        crate::text::string_views(r@) == spec_components(path@),
{
    let pv = str_chars(path);
    let segs = split_sep(&pv, '/');
    let ghost sv = sep_split(path@, '/');
    proof {
        assert(charvec_views(segs@) == sv);
    }
    let mut out: Vec<String> = Vec::new();
    let rooted = pv.len() > 0 && pv[0] == '/';
    let mut any: bool = rooted;
    if rooted {
        let mut slash: Vec<char> = Vec::new();
        slash.push('/');
        proof {
            assert(slash@ =~= seq!['/']);
        }
        out.push(chars_string(&slash));
    }
    let ghost head = crate::text::string_views(out@);
    let n: usize = segs.len();
    let mut i: usize = 0;
    proof {
        assert(sv.skip(0) =~= sv);
        assert(head + keep_segments(sv, any) =~= crate::text::string_views(out@) + keep_segments(
            sv.skip(0),
            any,
        ));
        if rooted {
            assert(head =~= seq![seq!['/']]);
        } else {
            assert(head =~= Seq::<Seq<char>>::empty());
        }
        assert(spec_components(path@) =~= head + keep_segments(sv, any));
    }
    while i < n
        invariant
            i <= n,
            n == sv.len(),
            sv == charvec_views(segs@),
            spec_components(path@) == crate::text::string_views(out@) + keep_segments(
                sv.skip(i as int),
                any,
            ),
        decreases n - i,
    {
        proof {
            assert(sv.skip(i as int)[0] == segs@[i as int]@);
            assert(sv.skip(i as int).skip(1) =~= sv.skip(i + 1));
        }
        let seg = &segs[i];
        if seg.len() == 0 {
        } else if seg.len() == 1 && seg[0] == '.' {
            proof {
                assert(seg@ =~= seq!['.']);
            }
            if !any {
                let ghost pre = out@;
                out.push(chars_string(seg));
                any = true;
                proof {
                    assert(crate::text::string_views(out@) =~= crate::text::string_views(
                        pre,
                    ).push(seg@));
                    assert(crate::text::string_views(pre) + (seq![seg@] + keep_segments(
                        sv.skip(i + 1),
                        true,
                    )) =~= crate::text::string_views(pre).push(seg@) + keep_segments(
                        sv.skip(i + 1),
                        true,
                    ));
                }
            }
        } else {
            proof {
                assert(seg@ != seq!['.']) by {
                    if seg@.len() == 1 {
                        assert(seg@[0] != '.');
                    }
                }
            }
            let ghost pre = out@;
            out.push(chars_string(seg));
            any = true;
            proof {
                assert(crate::text::string_views(out@) =~= crate::text::string_views(pre).push(
                    seg@,
                ));
                assert(crate::text::string_views(pre) + (seq![seg@] + keep_segments(
                    sv.skip(i + 1),
                    true,
                )) =~= crate::text::string_views(pre).push(seg@) + keep_segments(
                    sv.skip(i + 1),
                    true,
                ));
            }
        }
        i = i + 1;
    }
    proof {
        assert(sv.skip(i as int).len() == 0);
        assert(sv.skip(i as int) =~= Seq::<Seq<char>>::empty());
        assert(crate::text::string_views(out@) + keep_segments(sv.skip(i as int), any)
            =~= crate::text::string_views(out@));
    }
    out
}

/// Whether the first list of components is a prefix of the second.
fn comps_prefix(rc: &Vec<String>, pc: &Vec<String>) -> (r: bool)
    ensures
        r == (rc@.len() <= pc@.len() && string_views(pc@).take(rc@.len() as int) == string_views(
            rc@,
        )),
{
    if rc.len() > pc.len() {
        return false;
    }
    let mut i: usize = 0;
    while i < rc.len()
        invariant
            i <= rc@.len(),
            rc@.len() <= pc@.len(),
            forall|q: int| 0 <= q < i ==> (#[trigger] pc@[q])@ == rc@[q]@,
        decreases rc@.len() - i,
    {
        if !(rc[i] == pc[i]) {
            proof {
                assert(string_views(pc@).take(rc@.len() as int)[i as int] == pc@[i as int]@);
                assert(string_views(rc@)[i as int] == rc@[i as int]@);
            }
            return false;
        }
        i = i + 1;
    }
    proof {
        assert(string_views(pc@).take(rc@.len() as int) =~= string_views(rc@));
    }
    true
}

/// Builds the tree structure from the paths, tracking the ghost model: each
/// path is split into components and threaded into the forest; when a root is
/// given and is a prefix of the path, the root path stands as a single top
/// node.
fn build_tree_structure(paths: &Vec<String>, root: &Option<String>) -> (r: Vec<TreeEntry>)
    ensures
        forest_repr(r@, spec_build(string_views(paths@), opt_str_view(*root))),
{
    let ghost pv = string_views(paths@);
    let ghost rv = opt_str_view(*root);
    let mut tree: Vec<TreeEntry> = Vec::new();
    let mut i: usize = 0;
    proof {
        assert(pv.take(0) =~= Seq::<Seq<char>>::empty());
        assert(forest_repr(tree@, spec_build(pv.take(0), rv)));
    }
    while i < paths.len()
        invariant
            i <= paths@.len(),
            pv == string_views(paths@),
            pv.len() == paths@.len(),
            rv == opt_str_view(*root),
            forest_repr(tree@, spec_build(pv.take(i as int), rv)),
        decreases paths@.len() - i,
    {
        let ghost before = spec_build(pv.take(i as int), rv);
        proof {
            assert(pv.take(i + 1).drop_last() =~= pv.take(i as int));
            assert(pv.take(i + 1).last() == pv[i as int]);
            assert(pv[i as int] == paths@[i as int]@);
            assert(spec_build(pv.take(i + 1), rv) == spec_build_step(before, pv[i as int], rv));
        }
        let pc = components_of(paths[i].as_str());
        match root {
            Some(rt) => {
                let rc = components_of(rt.as_str());
                if comps_prefix(&rc, &pc) {
                    let mut rest: Vec<String> = Vec::new();
                    let mut k: usize = rc.len();
                    proof {
                        assert(string_views(rest@) =~= string_views(pc@).subrange(
                            rc@.len() as int,
                            rc@.len() as int,
                        ));
                    }
                    while k < pc.len()
                        invariant
                            rc@.len() <= k as int <= pc@.len(),
                            string_views(rest@) == string_views(pc@).subrange(
                                rc@.len() as int,
                                k as int,
                            ),
                        decreases pc@.len() - k,
                    {
                        proof {
                            assert(string_views(pc@)[k as int] == pc@[k as int]@);
                        }
                        let ghost pre = rest@;
                        let ghost piece = pc@[k as int]@;
                        rest.push(pc[k].clone());
                        k = k + 1;
                        proof {
                            assert(string_views(rest@) =~= string_views(pre).push(piece));
                            assert(string_views(pre).push(piece) =~= string_views(pc@).subrange(
                                rc@.len() as int,
                                k as int,
                            ));
                        }
                    }
                    proof {
                        assert(string_views(pc@).subrange(
                            rc@.len() as int,
                            string_views(pc@).len() as int,
                        ) =~= string_views(pc@).skip(rc@.len() as int));
                        assert(string_views(rest@) == spec_components(pv[i as int]).skip(
                            spec_components(rt@).len() as int,
                        ));
                    }
                    tree = insert_under_root(tree, rt, &rest);
                } else {
                    tree = insert_comps(tree, &pc, 0);
                }
            },
            None => {
                tree = insert_comps(tree, &pc, 0);
            },
        }
        i = i + 1;
    }
    proof {
        assert(pv.take(i as int) =~= pv);
    }
    tree
}

/// Renders the forest's entries: one line per entry, with box-drawing
/// connectors, and each directory's entries beneath it with an extended
/// prefix — exactly the ghost model's rendering.
fn render_entries(
    entries: &Vec<TreeEntry>,
    prefix: &Vec<char>,
    output: &mut Vec<char>,
    is_top_level: bool,
)
    ensures
        forall|m: Seq<EntryV>|
            forest_repr(entries@, m) ==> final(output)@ == old(output)@ + #[trigger] spec_render_from(
                m,
                0,
                prefix@,
                is_top_level,
            ),
    decreases *entries,
{
    let n: usize = entries.len();
    let mut i: usize = 0;
    while i < n
        invariant
            i <= n,
            n == entries@.len(),
            forall|m: Seq<EntryV>|
                forest_repr(entries@, m) ==> output@ + #[trigger] spec_render_from(
                    m,
                    i as int,
                    prefix@,
                    is_top_level,
                ) == old(output)@ + spec_render_from(m, 0, prefix@, is_top_level),
        decreases n - i,
    {
        let ghost out_pre = output@;
        let is_last = i == n - 1;
        append_chars(output, prefix);
        if !is_top_level {
            let connector = str_chars(
                if is_last {
                    "\u{2514}\u{2500}\u{2500} "
                } else {
                    "\u{251c}\u{2500}\u{2500} "
                },
            );
            append_chars(output, &connector);
        }
        let nv = str_chars(entries[i].name.as_str());
        append_chars(output, &nv);
        output.push('\n');
        let ghost out_line = output@;
        proof {
            assert(out_line =~= out_pre + (prefix@ + conn_text(is_top_level, is_last)
                + entries@[i as int].name@ + seq!['\n']));
        }
        let mut new_prefix: Vec<char> = Vec::new();
        if !is_top_level {
            append_chars(&mut new_prefix, prefix);
            let ext = str_chars(
                if is_last {
                    "    "
                } else {
                    "\u{2502}   "
                },
            );
            append_chars(&mut new_prefix, &ext);
        }
        proof {
            assert(new_prefix@ =~= child_prefix(prefix@, is_top_level, is_last));
        }
        match &entries[i].node {
            Node::Directory(sub) => {
                proof {
                    assert(decreases_to!(*entries => entries@[i as int]));
                    assert(decreases_to!(entries@[i as int] => entries@[i as int].node));
                }
                render_entries(sub, &new_prefix, output, false);
            },
            Node::File => {},
        }
        let ghost out_done = output@;
        proof {
            assert forall|m: Seq<EntryV>| forest_repr(entries@, m) implies out_done
                + #[trigger] spec_render_from(m, i + 1, prefix@, is_top_level) == old(output)@
                + spec_render_from(m, 0, prefix@, is_top_level) by {
                assert(node_repr(entries@[i as int].node, m[i as int].node));
                assert(entries@[i as int].name@ == m[i as int].name);
                let line = prefix@ + conn_text(is_top_level, is_last) + m[i as int].name + seq![
                    '\n',
                ];
                match m[i as int].node {
                    NodeV::Directory(mv) => {
                        assert(entries@[i as int].node is Directory);
                        let subv = entries@[i as int].node->Directory_0;
                        assert(forest_repr(subv@, mv));
                        assert(out_done == out_line + spec_render_from(
                            mv,
                            0,
                            child_prefix(prefix@, is_top_level, is_last),
                            false,
                        ));
                        assert(spec_render_from(m, i as int, prefix@, is_top_level) == line
                            + spec_render_from(
                            mv,
                            0,
                            child_prefix(prefix@, is_top_level, is_last),
                            false,
                        ) + spec_render_from(m, i + 1, prefix@, is_top_level));
                    },
                    NodeV::File => {
                        assert(out_done == out_line);
                        assert(spec_render_from(m, i as int, prefix@, is_top_level) == line + Seq::<
                            char,
                        >::empty() + spec_render_from(m, i + 1, prefix@, is_top_level));
                        assert(line + Seq::<char>::empty() =~= line);
                    },
                }
                assert(out_pre + spec_render_from(m, i as int, prefix@, is_top_level) == old(
                    output,
                )@ + spec_render_from(m, 0, prefix@, is_top_level));
                assert(out_pre + (line + spec_render_from(m, i + 1, prefix@, is_top_level))
                    =~= out_line + spec_render_from(m, i + 1, prefix@, is_top_level));
                match m[i as int].node {
                    NodeV::Directory(mv) => {
                        let belowp = child_prefix(prefix@, is_top_level, is_last);
                        assert(out_pre + ((line + spec_render_from(mv, 0, belowp, false))
                            + spec_render_from(m, i + 1, prefix@, is_top_level)) =~= (out_line
                            + spec_render_from(mv, 0, belowp, false)) + spec_render_from(
                            m,
                            i + 1,
                            prefix@,
                            is_top_level,
                        ));
                        assert(out_pre + spec_render_from(m, i as int, prefix@, is_top_level)
                            =~= out_pre + (line + spec_render_from(mv, 0, belowp, false)
                            + spec_render_from(m, i + 1, prefix@, is_top_level)));
                        assert(out_pre + (line + spec_render_from(mv, 0, belowp, false)
                            + spec_render_from(m, i + 1, prefix@, is_top_level)) =~= out_pre + ((
                        line + spec_render_from(mv, 0, belowp, false)) + spec_render_from(
                            m,
                            i + 1,
                            prefix@,
                            is_top_level,
                        )));
                    },
                    NodeV::File => {},
                }
            }
        }
        i = i + 1;
    }
    proof {
        assert forall|m: Seq<EntryV>| forest_repr(entries@, m) implies final(output)@ == old(
            output,
        )@ + #[trigger] spec_render_from(m, 0, prefix@, is_top_level) by {
            assert(i as int >= m.len());
            assert(spec_render_from(m, i as int, prefix@, is_top_level) == Seq::<char>::empty());
            assert(output@ + Seq::<char>::empty() =~= output@);
        }
    }
}

/// Builds an ASCII tree representation from a list of file paths: when a root
/// path is given and prefixes a path, the root stands as one compact top
/// node; directories come before files, sorted case-insensitively. The result
/// is exactly the rendering of the forest the paths build.
pub fn file_paths_to_tree(paths: Vec<String>, root: Option<String>) -> (r: String)
    ensures
        r@ == spec_render_from(
            spec_build(string_views(paths@), opt_str_view(root)),
            0,
            Seq::empty(),
            true,
        ),
{
    let tree = build_tree_structure(&paths, &root);
    let prefix: Vec<char> = Vec::new();
    let mut output: Vec<char> = Vec::new();
    proof {
        assert(prefix@ =~= Seq::<char>::empty());
    }
    render_entries(&tree, &prefix, &mut output, true);
    proof {
        let m = spec_build(string_views(paths@), opt_str_view(root));
        assert(output@ == Seq::<char>::empty() + spec_render_from(m, 0, prefix@, true));
        assert(Seq::<char>::empty() + spec_render_from(m, 0, prefix@, true) =~= spec_render_from(
            m,
            0,
            prefix@,
            true,
        ));
    }
    chars_string(&output)
}

} // verus!
