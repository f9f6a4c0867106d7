use vstd::prelude::*;
use crate::data::{json_of, lemma_with_field, obj_field, DataV};
use crate::directive::{spec_parse_directive, DirV};
use crate::engine::render_of;
use crate::file_tree::{
    assoc, build_tree, dedup_last, file_at, flat, flat_entries_pre, flat_pre, get_at, insert_at,
    key_in, lb_count, lemma_lb_count_bounds, lemma_lb_pos, lemma_wf_entries_index, set_entry,
    sorted_names, wf, wf_entries, FlatEntryV, PathV, TreeV,
};
use crate::templates::{
    each_names, each_pieces, each_wrapped_body, eachif_wrapped_body, entry_outputs, hbs_ext,
    if_wrapped_names, is_fragment, partial_key, prev_key, registered, render_ctx,
    rendered_tree_model, spec_trim,
};
use crate::text::{
    lemma_seq_lt_asymmetric, lemma_seq_lt_irreflexive, lemma_seq_lt_total, lemma_seq_lt_transitive,
    seq_lt, spec_ends_with,
};

verus! {

/// Rendering the same template tree and data context against the same
/// existing tree twice produces identical output trees: the result is a
/// function of those inputs and of the registered partials alone.
pub proof fn lemma_render_idempotent(
    partials: Map<Seq<char>, Seq<char>>,
    existing: TreeV,
    templates: TreeV,
    data: DataV,
    a: TreeV,
    b: TreeV,
)
    requires
        rendered_tree_model(partials, existing, templates, data) == Some(a),
        rendered_tree_model(partials, existing, templates, data) == Some(b),
    ensures
        a == b,
{
}

/// For a collection directive, the produced entries stay index-aligned: the
/// i-th resolved file name gets the i-th rendered content fragment, under the
/// rendered prefix, one entry per name and in iteration order.
pub proof fn lemma_each_alignment(
    partials: Map<Seq<char>, Seq<char>>,
    existing: TreeV,
    pstr: Seq<char>,
    prefix: Seq<char>,
    coll: Seq<char>,
    suffix: Seq<char>,
    c: Seq<char>,
    data: DataV,
    outs: Seq<(Seq<char>, Option<Seq<char>>)>,
)
    requires
        spec_parse_directive(pstr) == (DirV::Each { prefix, coll, suffix }),
        entry_outputs(partials, existing, pstr, Some(c), data) == Some(outs),
    ensures
        outs.len() == each_names(partials, coll, suffix, data).len(),
        forall|i: int|
            0 <= i < outs.len() ==> #[trigger] outs[i] == (
                render_of(partials, prefix, json_of(data)) + seq!['/'] + each_names(
                    partials,
                    coll,
                    suffix,
                    data,
                )[i],
                Some(each_pieces(partials, existing, pstr, each_wrapped_body(coll, c), data)[i]),
            ),
{
}

/// The same alignment for a collection directive with a condition: filtered
/// elements contribute neither a name nor a fragment, and what remains is
/// paired index by index.
pub proof fn lemma_eachif_alignment(
    partials: Map<Seq<char>, Seq<char>>,
    existing: TreeV,
    pstr: Seq<char>,
    prefix: Seq<char>,
    coll: Seq<char>,
    cond: Seq<char>,
    suffix: Seq<char>,
    c: Seq<char>,
    data: DataV,
    outs: Seq<(Seq<char>, Option<Seq<char>>)>,
)
    requires
        spec_parse_directive(pstr) == (DirV::EachIf { prefix, coll, cond, suffix }),
        entry_outputs(partials, existing, pstr, Some(c), data) == Some(outs),
    ensures
        outs.len() == each_names(partials, coll, suffix, data).len(),
        forall|i: int|
            0 <= i < outs.len() ==> #[trigger] outs[i] == (
                render_of(partials, prefix, json_of(data)) + seq!['/'] + each_names(
                    partials,
                    coll,
                    suffix,
                    data,
                )[i],
                Some(
                    each_pieces(
                        partials,
                        existing,
                        pstr,
                        eachif_wrapped_body(coll, cond, c),
                        data,
                    )[i],
                ),
            ),
{
}

/// An empty collection yields no output entries for its template: no file
/// and no residual directory marker.
pub proof fn lemma_each_empty(
    partials: Map<Seq<char>, Seq<char>>,
    existing: TreeV,
    pstr: Seq<char>,
    prefix: Seq<char>,
    coll: Seq<char>,
    suffix: Seq<char>,
    c: Seq<char>,
    data: DataV,
    outs: Seq<(Seq<char>, Option<Seq<char>>)>,
)
    requires
        spec_parse_directive(pstr) == (DirV::Each { prefix, coll, suffix }),
        entry_outputs(partials, existing, pstr, Some(c), data) == Some(outs),
        each_names(partials, coll, suffix, data).len() == 0,
    ensures
        outs.len() == 0,
{
}

/// A conditional directive yields exactly one file when its rendered wrapper
/// keeps the template extension, and exactly none otherwise.
pub proof fn lemma_if_outputs(
    partials: Map<Seq<char>, Seq<char>>,
    existing: TreeV,
    pstr: Seq<char>,
    prefix: Seq<char>,
    cond: Seq<char>,
    suffix: Seq<char>,
    c: Seq<char>,
    data: DataV,
    outs: Seq<(Seq<char>, Option<Seq<char>>)>,
)
    requires
        spec_parse_directive(pstr) == (DirV::If { prefix, cond, suffix }),
        entry_outputs(partials, existing, pstr, Some(c), data) == Some(outs),
    ensures
        outs.len() <= 1,
        (outs.len() == 1) == spec_ends_with(
            render_of(partials, if_wrapped_names(cond, suffix), json_of(data)),
            hbs_ext(),
        ),
{
}

/// Rendering a template aimed at a path that already exists in the existing
/// tree sees that file's exact prior content under the reserved key; aimed at
/// a path that does not exist, the context is the caller's data itself, with
/// no such key added.
pub proof fn lemma_previous_content_visibility(existing: TreeV, target: PathV, data: DataV)
    requires
        data is Object,
    ensures
        file_at(existing, target) is Some ==> obj_field(
            render_ctx(existing, target, data),
            prev_key(),
        ) == Some(DataV::Text(file_at(existing, target)->Some_0)),
        file_at(existing, target) is None ==> render_ctx(existing, target, data) == data,
        file_at(existing, target) is None && obj_field(data, prev_key()) is None ==> obj_field(
            render_ctx(existing, target, data),
            prev_key(),
        ) is None,
{
    if file_at(existing, target) is Some {
        lemma_with_field(data, prev_key(), DataV::Text(file_at(existing, target)->Some_0));
    }
}

/// When two fragment files normalize to the same registry key, the one
/// encountered later in traversal order is the one registered.
pub proof fn lemma_partial_override(
    base: Map<Seq<char>, Seq<char>>,
    entries: Seq<FlatEntryV>,
    j: int,
)
    requires
        0 <= j < entries.len(),
        is_fragment(entries[j]),
        forall|k: int|
            j < k < entries.len() ==> !(is_fragment(#[trigger] entries[k]) && partial_key(
                entries[k].0,
            ) == partial_key(entries[j].0)),
    ensures
        registered(base, entries).contains_key(partial_key(entries[j].0)),
        registered(base, entries)[partial_key(entries[j].0)] == spec_trim(entries[j].1->Some_0),
    decreases entries.len(),
{
    assert(forall|k: int|
        0 <= k < entries.len() - 1 ==> #[trigger] entries.drop_last()[k] == entries[k]);
    if j == entries.len() - 1 {
    } else {
        lemma_partial_override(base, entries.drop_last(), j);
        assert(entries.last() == entries[entries.len() - 1]);
    }
}

/// For names in strictly ascending order, the insertion position decides the
/// lookup: a hit there is the association, a miss there means the name is
/// bound nowhere.
pub proof fn lemma_assoc_lb(es: Seq<(Seq<char>, TreeV)>, name: Seq<char>)
    requires
        sorted_names(es),
    ensures
        ({
            let j = lb_count(es, name);
            if j < es.len() && es[j].0 == name {
                assoc(es, name) == Some(es[j].1)
            } else {
                assoc(es, name) is None
            }
        }),
    decreases es.len(),
{
    lemma_lb_count_bounds(es, name);
    lemma_lb_pos(es, name);
    let j = lb_count(es, name);
    if es.len() == 0 {
    } else if es[0].0 == name {
        lemma_seq_lt_irreflexive(name);
        assert(j == 0);
    } else {
        assert(forall|k: int|
            0 <= k < es.len() - 1 ==> #[trigger] es.drop_first()[k] == es[k + 1]);
        assert(sorted_names(es.drop_first()));
        lemma_assoc_lb(es.drop_first(), name);
        lemma_lb_count_bounds(es.drop_first(), name);
        lemma_lb_pos(es.drop_first(), name);
        if seq_lt(es[0].0, name) {
            assert(j == 1 + lb_count(es.drop_first(), name));
            if j < es.len() {
                assert(es.drop_first()[j - 1] == es[j]);
            }
        } else {
            lemma_seq_lt_total(es[0].0, name);
            assert(seq_lt(name, es[0].0));
            assert(j == 0);
            if es.len() > 1 {
                assert(seq_lt(es[0].0, es[1].0));
                lemma_seq_lt_transitive(name, es[0].0, es[1].0);
                lemma_seq_lt_asymmetric(name, es[1].0);
                lemma_seq_lt_irreflexive(es[1].0);
                assert(es.drop_first()[0] == es[1]);
                assert(lb_count(es.drop_first(), name) == 0);
                if es.drop_first()[0].0 == name {
                    lemma_seq_lt_irreflexive(name);
                    assert(false);
                }
            }
        }
    }
}

/// Placing anything at a path that extends an existing file's path is a
/// conflict: no tree holds both.
pub proof fn lemma_tree_conflict(t: TreeV, p: PathV, q: PathV, node: Option<Seq<char>>)
    requires
        wf(t),
        file_at(t, p) is Some,
        p.len() < q.len(),
        q.take(p.len() as int) == p,
    ensures
        insert_at(t, q, node) is None,
    decreases p.len(),
{
    if p.len() == 0 {
    } else {
        match t {
            TreeV::File(_) => {
                assert(false);
            },
            TreeV::Dir(es) => {
                let n = p[0];
                assert(q.take(p.len() as int)[0] == q[0]);
                assert(q[0] == n);
                lemma_assoc_lb(es, n);
                lemma_lb_count_bounds(es, n);
                let j = lb_count(es, n);
                assert(assoc(es, n) is Some);
                assert(j < es.len() && es[j].0 == n);
                let sub = es[j].1;
                assert(assoc(es, n) == Some(sub));
                assert(wf(TreeV::Dir(es)));
                assert(wf_entries(es));
                lemma_wf_entries_index(es);
                assert(forall|i: int| 0 <= i < es.len() ==> wf(#[trigger] es[i].1));
                assert(wf(es[j].1));
                assert(wf(sub));
                assert(q.drop_first().take(p.len() - 1) =~= p.drop_first());
                lemma_tree_conflict(sub, p.drop_first(), q.drop_first(), node);
            },
        }
    }
}


/// In a directory with strictly ascending names, a name is bound at exactly
/// the entry that carries it.
pub proof fn lemma_assoc_index(es: Seq<(Seq<char>, TreeV)>, m: Seq<char>)
    requires
        sorted_names(es),
    ensures
        assoc(es, m) is Some ==> exists|j: int|
            0 <= j < es.len() && #[trigger] es[j] == (m, assoc(es, m)->Some_0),
        forall|j: int| 0 <= j < es.len() && (#[trigger] es[j]).0 == m ==> assoc(es, m) == Some(
            es[j].1,
        ),
    decreases es.len(),
{
    if es.len() == 0 {
    } else if es[0].0 == m {
        assert(es[0] == (m, es[0].1));
        assert forall|j: int| 0 <= j < es.len() && (#[trigger] es[j]).0 == m implies assoc(es, m)
            == Some(es[j].1) by {
            if j > 0 {
                lemma_seq_lt_irreflexive(m);
                assert(seq_lt(es[0].0, es[j].0));
            }
        }
    } else {
        assert(forall|k: int|
            0 <= k < es.len() - 1 ==> #[trigger] es.drop_first()[k] == es[k + 1]);
        assert(sorted_names(es.drop_first()));
        lemma_assoc_index(es.drop_first(), m);
        if assoc(es, m) is Some {
            let w = choose|w: int|
                0 <= w < es.drop_first().len() && #[trigger] es.drop_first()[w] == (
                    m,
                    assoc(es.drop_first(), m)->Some_0,
                );
            assert(es[w + 1] == (m, assoc(es, m)->Some_0));
        }
        assert forall|j: int| 0 <= j < es.len() && (#[trigger] es[j]).0 == m implies assoc(es, m)
            == Some(es[j].1) by {
            if j > 0 {
                assert(es.drop_first()[j - 1] == es[j]);
            }
        }
    }
}

/// Binding a name in a sorted directory reads back as that binding, and
/// leaves every other name bound as before.
pub proof fn lemma_set_entry_assoc(
    es: Seq<(Seq<char>, TreeV)>,
    name: Seq<char>,
    sub: TreeV,
    m: Seq<char>,
)
    requires
        sorted_names(es),
        wf_entries(es),
        wf(sub),
    ensures
        assoc(set_entry(es, name, sub), m) == (if m == name {
            Some(sub)
        } else {
            assoc(es, m)
        }),
{
    lemma_lb_count_bounds(es, name);
    lemma_lb_pos(es, name);
    crate::file_tree::lemma_set_entry_wf(es, name, sub);
    let new = set_entry(es, name, sub);
    let j = lb_count(es, name);
    let hit = j < es.len() && es[j].0 == name;
    lemma_assoc_index(new, m);
    lemma_assoc_index(es, m);
    if m == name {
        assert(new[j] == (name, sub));
        assert(assoc(new, m) == Some(sub));
    } else {
        if assoc(new, m) is Some {
            let w = choose|w: int|
                0 <= w < new.len() && #[trigger] new[w] == (m, assoc(new, m)->Some_0);
            assert(w != j);
            if hit {
                assert(new[w] == es[w]);
            } else {
                if w < j {
                    assert(new[w] == es[w]);
                } else {
                    assert(new[w] == es[w - 1]);
                }
            }
        }
        if assoc(es, m) is Some {
            let w = choose|w: int|
                0 <= w < es.len() && #[trigger] es[w] == (m, assoc(es, m)->Some_0);
            if hit {
                assert(w != j);
                assert(new[w] == es[w]);
            } else {
                if w < j {
                    assert(new[w] == es[w]);
                } else {
                    assert(new[w + 1] == es[w]);
                }
            }
        }
    }
}

/// Well-formedness survives a placement.
pub proof fn lemma_insert_wf(t: TreeV, p: PathV, node: Option<Seq<char>>)
    requires
        wf(t),
        insert_at(t, p, node) is Some,
    ensures
        wf(insert_at(t, p, node)->Some_0),
    decreases p.len(),
{
    if p.len() == 0 {
    } else {
        match t {
            TreeV::File(_) => {},
            TreeV::Dir(es) => {
                lemma_lb_count_bounds(es, p[0]);
                let j = lb_count(es, p[0]);
                let hit = j < es.len() && es[j].0 == p[0];
                let child = if hit {
                    es[j].1
                } else {
                    TreeV::Dir(Seq::empty())
                };
                lemma_wf_entries_index(es);
                assert(wf(child));
                lemma_insert_wf(child, p.drop_first(), node);
                let nc = insert_at(child, p.drop_first(), node)->Some_0;
                crate::file_tree::lemma_set_entry_wf(es, p[0], nc);
            },
        }
    }
}

/// What a placement does to the files of a well-formed tree: a placed file
/// content is read back at its path, and every other path reads as before; a
/// directory marker changes no file at all.
pub proof fn lemma_insert_file_at(t: TreeV, p: PathV, node: Option<Seq<char>>, q: PathV)
    requires
        wf(t),
        insert_at(t, p, node) is Some,
    ensures
        file_at(insert_at(t, p, node)->Some_0, q) == (if node is Some && q == p {
            Some(node->Some_0)
        } else {
            file_at(t, q)
        }),
    decreases p.len(),
{
    let t2 = insert_at(t, p, node)->Some_0;
    if p.len() == 0 {
        match node {
            None => {},
            Some(c) => {
                if q.len() == 0 {
                    assert(q =~= p);
                } else {
                    assert(file_at(t2, q) is None);
                    match t {
                        TreeV::File(_) => {},
                        TreeV::Dir(es) => {
                            assert(es.len() == 0);
                            assert(assoc(es, q[0]) is None);
                        },
                    }
                }
            },
        }
    } else {
        match t {
            TreeV::File(_) => {},
            TreeV::Dir(es) => {
                let n = p[0];
                lemma_lb_count_bounds(es, n);
                let j = lb_count(es, n);
                let hit = j < es.len() && es[j].0 == n;
                let child = if hit {
                    es[j].1
                } else {
                    TreeV::Dir(Seq::empty())
                };
                lemma_wf_entries_index(es);
                assert(wf(child));
                let nc = insert_at(child, p.drop_first(), node)->Some_0;
                lemma_insert_wf(child, p.drop_first(), node);
                assert(t2 == TreeV::Dir(set_entry(es, n, nc)));
                lemma_assoc_lb(es, n);
                if q.len() == 0 {
                } else {
                    let m = q[0];
                    lemma_set_entry_assoc(es, n, nc, m);
                    if m == n {
                        lemma_insert_file_at(child, p.drop_first(), node, q.drop_first());
                        if q.drop_first() == p.drop_first() {
                            assert forall|i: int| 0 <= i < q.len() implies q[i] == p[i] by {
                                if i >= 1 {
                                    assert(q.drop_first()[i - 1] == q[i]);
                                    assert(p.drop_first()[i - 1] == p[i]);
                                }
                            }
                            assert(q =~= p);
                        } else {
                            if q == p {
                                assert(q.drop_first() =~= p.drop_first());
                                assert(false);
                            }
                        }
                        if !hit {
                            assert(assoc(es, n) is None);
                            if q != p {
                                if q.drop_first().len() == 0 {
                                    assert(file_at(child, q.drop_first()) is None);
                                } else {
                                    assert(assoc(
                                        Seq::<(Seq<char>, TreeV)>::empty(),
                                        q.drop_first()[0],
                                    ) is None);
                                    assert(file_at(child, q.drop_first()) is None);
                                }
                            }
                        }
                    } else {
                        if q == p {
                            assert(false);
                        }
                    }
                }
            },
        }
    }
}


/// The value the later-wins reading of an entry list binds to `q`: the value
/// of the last entry with that path.
pub open spec fn value_of_last(s: Seq<FlatEntryV>, q: PathV) -> Option<Option<Seq<char>>>
    decreases s.len(),
{
    if s.len() == 0 {
        None
    } else if s[0].0 == q && !key_in(s.drop_first(), q) {
        Some(s[0].1)
    } else {
        value_of_last(s.drop_first(), q)
    }
}

/// The value of the first entry with path `q`.
pub open spec fn first_value(s: Seq<FlatEntryV>, q: PathV) -> Option<Option<Seq<char>>>
    decreases s.len(),
{
    if s.len() == 0 {
        None
    } else if s[0].0 == q {
        Some(s[0].1)
    } else {
        first_value(s.drop_first(), q)
    }
}

pub open spec fn distinct_keys(s: Seq<FlatEntryV>) -> bool {
    forall|i: int, j: int| 0 <= i < j < s.len() ==> (#[trigger] s[i]).0 != (#[trigger] s[j]).0
}

pub proof fn lemma_value_of_last_some(s: Seq<FlatEntryV>, q: PathV)
    ensures
        value_of_last(s, q) is Some <==> key_in(s, q),
    decreases s.len(),
{
    if s.len() > 0 {
        lemma_value_of_last_some(s.drop_first(), q);
        if key_in(s, q) && s[0].0 != q {
            let w = choose|w: int| 0 <= w < s.len() && (#[trigger] s[w]).0 == q;
            assert(s.drop_first()[w - 1] == s[w]);
            assert(key_in(s.drop_first(), q));
        }
        if key_in(s.drop_first(), q) {
            let w = choose|w: int|
                0 <= w < s.drop_first().len() && (#[trigger] s.drop_first()[w]).0 == q;
            assert(s[w + 1] == s.drop_first()[w]);
            assert(key_in(s, q));
        }
        if s[0].0 == q {
            assert(key_in(s, q));
        }
    }
}

pub proof fn lemma_first_value_some(s: Seq<FlatEntryV>, q: PathV)
    ensures
        first_value(s, q) is Some <==> key_in(s, q),
    decreases s.len(),
{
    if s.len() > 0 {
        lemma_first_value_some(s.drop_first(), q);
        if key_in(s, q) && s[0].0 != q {
            let w = choose|w: int| 0 <= w < s.len() && (#[trigger] s[w]).0 == q;
            assert(s.drop_first()[w - 1] == s[w]);
        }
        if key_in(s.drop_first(), q) {
            let w = choose|w: int|
                0 <= w < s.drop_first().len() && (#[trigger] s.drop_first()[w]).0 == q;
            assert(s[w + 1] == s.drop_first()[w]);
        }
        if s[0].0 == q {
            assert(key_in(s, q));
        }
    }
}

pub proof fn lemma_dedup_key_in(s: Seq<FlatEntryV>, q: PathV)
    ensures
        key_in(dedup_last(s), q) <==> key_in(s, q),
    decreases s.len(),
{
    if s.len() > 0 {
        lemma_dedup_key_in(s.drop_first(), q);
        let rest = s.drop_first();
        if key_in(rest, q) {
            let w = choose|w: int| 0 <= w < rest.len() && (#[trigger] rest[w]).0 == q;
            assert(s[w + 1] == rest[w]);
            assert(key_in(s, q));
        }
        if key_in(dedup_last(s), q) && !key_in(s.drop_first(), s[0].0) {
            let d = seq![s[0]] + dedup_last(rest);
            let w = choose|w: int| 0 <= w < d.len() && (#[trigger] d[w]).0 == q;
            if w > 0 {
                assert(d[w] == dedup_last(rest)[w - 1]);
                assert(key_in(dedup_last(rest), q));
            } else {
                assert(key_in(s, q));
            }
        }
        if key_in(s, q) {
            let w = choose|w: int| 0 <= w < s.len() && (#[trigger] s[w]).0 == q;
            if w > 0 {
                assert(rest[w - 1] == s[w]);
                assert(key_in(rest, q));
            }
            if !key_in(rest, s[0].0) {
                let d = seq![s[0]] + dedup_last(rest);
                if w == 0 {
                    assert(d[0] == s[0]);
                    assert(key_in(d, q));
                } else {
                    let v = choose|v: int|
                        0 <= v < dedup_last(rest).len() && (#[trigger] dedup_last(rest)[v]).0 == q;
                    assert(d[v + 1] == dedup_last(rest)[v]);
                    assert(key_in(d, q));
                }
            } else {
                if w == 0 {
                    assert(key_in(rest, q));
                }
            }
        }
    }
}

/// Keeping only the last entry for every path leaves each path bound once.
pub proof fn lemma_dedup_distinct(s: Seq<FlatEntryV>)
    ensures
        distinct_keys(dedup_last(s)),
    decreases s.len(),
{
    if s.len() > 0 {
        lemma_dedup_distinct(s.drop_first());
        let rest = s.drop_first();
        if !key_in(rest, s[0].0) {
            lemma_dedup_key_in(rest, s[0].0);
            let d = seq![s[0]] + dedup_last(rest);
            assert forall|i: int, j: int| 0 <= i < j < d.len() implies (#[trigger] d[i]).0 != (
            #[trigger] d[j]).0 by {
                if i == 0 {
                    assert(d[j] == dedup_last(rest)[j - 1]);
                    if d[j].0 == s[0].0 {
                        assert(key_in(dedup_last(rest), s[0].0));
                    }
                } else {
                    assert(d[i] == dedup_last(rest)[i - 1]);
                    assert(d[j] == dedup_last(rest)[j - 1]);
                }
            }
        }
    }
}

/// The later-wins reading survives the dedup pass: the kept entry for a path
/// carries exactly the value of the last entry that had it.
pub proof fn lemma_dedup_value(s: Seq<FlatEntryV>, q: PathV)
    ensures
        first_value(dedup_last(s), q) == value_of_last(s, q),
    decreases s.len(),
{
    if s.len() > 0 {
        lemma_dedup_value(s.drop_first(), q);
        let rest = s.drop_first();
        if key_in(rest, s[0].0) {
            if s[0].0 == q {
                assert(key_in(rest, q));
            }
        } else {
            let d = seq![s[0]] + dedup_last(rest);
            assert(d[0] == s[0]);
            assert(d.drop_first() =~= dedup_last(rest));
            if s[0].0 == q {
                assert(!key_in(rest, q));
                assert(first_value(d, q) == Some(s[0].1));
            }
        }
    }
}

/// Reading a concatenation later-wins: anything bound in the right part wins
/// over the left part.
pub proof fn lemma_value_of_last_concat(a: Seq<FlatEntryV>, b: Seq<FlatEntryV>, q: PathV)
    ensures
        value_of_last(a + b, q) == (if key_in(b, q) {
            value_of_last(b, q)
        } else {
            value_of_last(a, q)
        }),
    decreases a.len(),
{
    if a.len() == 0 {
        assert(a + b =~= b);
        if !key_in(b, q) {
            lemma_value_of_last_some(b, q);
        }
    } else {
        assert((a + b).drop_first() =~= a.drop_first() + b);
        lemma_value_of_last_concat(a.drop_first(), b, q);
        assert((a + b)[0] == a[0]);
        if (a + b)[0].0 == q && !key_in((a + b).drop_first(), q) {
            if key_in(b, q) {
                let w = choose|w: int| 0 <= w < b.len() && (#[trigger] b[w]).0 == q;
                assert((a.drop_first() + b)[a.len() - 1 + w] == b[w]);
                assert(key_in((a + b).drop_first(), q));
                assert(false);
            }
            if key_in(a.drop_first(), q) {
                let w = choose|w: int|
                    0 <= w < a.drop_first().len() && (#[trigger] a.drop_first()[w]).0 == q;
                assert((a.drop_first() + b)[w] == a.drop_first()[w]);
                assert(key_in((a + b).drop_first(), q));
                assert(false);
            }
        } else {
            if a[0].0 == q && !key_in(a.drop_first(), q) && !key_in(b, q) {
                lemma_value_of_last_some(a.drop_first() + b, q);
                if key_in(a.drop_first() + b, q) {
                    let w = choose|w: int|
                        0 <= w < (a.drop_first() + b).len() && (#[trigger] (a.drop_first()
                            + b)[w]).0 == q;
                    if w < a.len() - 1 {
                        assert(a.drop_first()[w] == (a.drop_first() + b)[w]);
                        assert(key_in(a.drop_first(), q));
                    } else {
                        assert(b[w - (a.len() - 1)] == (a.drop_first() + b)[w]);
                        assert(key_in(b, q));
                    }
                    assert(false);
                }
            }
        }
    }
}

/// What growing a tree from distinct-keyed entries binds at each path: a
/// file entry is read back exactly, and any other path reads as it did in
/// the starting tree; a directory marker leaves files untouched.
pub proof fn lemma_build_tree_file_at(t0: TreeV, s: Seq<FlatEntryV>, q: PathV)
    requires
        wf(t0),
        distinct_keys(s),
        build_tree(Some(t0), s) is Some,
    ensures
        wf(build_tree(Some(t0), s)->Some_0),
        file_at(build_tree(Some(t0), s)->Some_0, q) == (match first_value(s, q) {
            Some(v) => match v {
                Some(c) => Some(c),
                None => file_at(t0, q),
            },
            None => file_at(t0, q),
        }),
    decreases s.len(),
{
    if s.len() == 0 {
    } else {
        let t1 = insert_at(t0, s[0].0, s[0].1);
        assert(build_tree(Some(t0), s) == build_tree(t1, s.drop_first()));
        if t1 is None {
            assert(build_tree(t1, s.drop_first()) is None);
            assert(false);
        }
        assert(t1 is Some);
        lemma_insert_wf(t0, s[0].0, s[0].1);
        assert(forall|k: int| 0 <= k < s.len() - 1 ==> #[trigger] s.drop_first()[k] == s[k + 1]);
        assert(distinct_keys(s.drop_first()));
        lemma_build_tree_file_at(t1->Some_0, s.drop_first(), q);
        lemma_insert_file_at(t0, s[0].0, s[0].1, q);
        if s[0].0 == q {
            lemma_first_value_some(s.drop_first(), q);
            if key_in(s.drop_first(), q) {
                let w = choose|w: int|
                    0 <= w < s.drop_first().len() && (#[trigger] s.drop_first()[w]).0 == q;
                assert(s[w + 1] == s.drop_first()[w]);
                assert(false);
            }
        }
    }
}


/// Whether `pre` is a (not necessarily proper) leading part of `q`.
pub open spec fn starts_with_path(q: PathV, pre: PathV) -> bool {
    q.len() >= pre.len() && q.take(pre.len() as int) == pre
}

/// What the flattened form of a subtree binds at the relative path `q`
/// below it: a file's content, an empty directory's marker, or nothing.
pub open spec fn gen_flat_val(t: TreeV, q: PathV) -> Option<Option<Seq<char>>>
    decreases q.len(),
{
    if q.len() == 0 {
        match t {
            TreeV::File(c) => Some(Some(c)),
            TreeV::Dir(es) => {
                if es.len() == 0 {
                    Some(None)
                } else {
                    None
                }
            },
        }
    } else {
        match t {
            TreeV::File(_) => None,
            TreeV::Dir(es) => match assoc(es, q[0]) {
                Some(sub) => gen_flat_val(sub, q.drop_first()),
                None => None,
            },
        }
    }
}

/// The flattened binding read through the node the path reaches.
pub proof fn lemma_gen_flat_val(t: TreeV, q: PathV)
    ensures
        gen_flat_val(t, q) == (match get_at(t, q) {
            Some(node) => match node {
                TreeV::File(c) => Some(Some(c)),
                TreeV::Dir(es) => {
                    if es.len() == 0 {
                        Some(None)
                    } else {
                        None
                    }
                },
            },
            None => None,
        }),
    decreases q.len(),
{
    if q.len() > 0 {
        match t {
            TreeV::File(_) => {},
            TreeV::Dir(es) => {
                match assoc(es, q[0]) {
                    Some(sub) => {
                        lemma_gen_flat_val(sub, q.drop_first());
                    },
                    None => {},
                }
            },
        }
    }
}

proof fn lemma_flat_pre_val(pre: PathV, t: TreeV, q: PathV)
    requires
        wf(t),
    ensures
        value_of_last(flat_pre(pre, t), q) == (if starts_with_path(q, pre) {
            gen_flat_val(t, q.skip(pre.len() as int))
        } else {
            None
        }),
    decreases t, 1int,
{
    match t {
        TreeV::File(c) => {
            let s = flat_pre(pre, t);
            assert(s == seq![(pre, Some(c))]);
            assert(s[0] == (pre, Some(c)));
            assert(s.drop_first().len() == 0);
            if q == pre {
                assert(starts_with_path(q, pre)) by {
                    assert(q.take(pre.len() as int) =~= pre);
                }
                assert(q.skip(pre.len() as int).len() == 0);
                assert(value_of_last(s, q) == Some(Some(c)));
            } else {
                assert(value_of_last(s, q) == value_of_last(s.drop_first(), q));
                if starts_with_path(q, pre) {
                    if q.len() == pre.len() {
                        assert(q =~= pre);
                        assert(false);
                    }
                    assert(q.skip(pre.len() as int).len() > 0);
                }
            }
        },
        TreeV::Dir(es) => {
            if es.len() == 0 {
                let s = flat_pre(pre, t);
                assert(s == seq![(pre, None::<Seq<char>>)]);
                assert(s[0] == (pre, None::<Seq<char>>));
                assert(s.drop_first().len() == 0);
                if q == pre {
                    assert(starts_with_path(q, pre)) by {
                        assert(q.take(pre.len() as int) =~= pre);
                    }
                    assert(q.skip(pre.len() as int).len() == 0);
                    assert(value_of_last(s, q) == Some(None::<Seq<char>>));
                } else {
                    assert(value_of_last(s, q) == value_of_last(s.drop_first(), q));
                    if starts_with_path(q, pre) {
                        if q.len() == pre.len() {
                            assert(q =~= pre);
                            assert(false);
                        }
                        let q2 = q.skip(pre.len() as int);
                        assert(q2.len() > 0);
                        assert(assoc(es, q2[0]) is None);
                    }
                }
            } else {
                assert(decreases_to!(t => es));
                lemma_flat_entries_val(pre, es, q);
                if starts_with_path(q, pre) {
                    let q2 = q.skip(pre.len() as int);
                    if q2.len() == 0 {
                        assert(q =~= pre);
                        assert(q.len() == pre.len());
                    } else {
                        assert(q2[0] == q[pre.len() as int]);
                        assert(q2.drop_first() =~= q.skip(pre.len() as int + 1));
                    }
                }
            }
        },
    }
}

proof fn lemma_flat_entries_val(pre: PathV, es: Seq<(Seq<char>, TreeV)>, q: PathV)
    requires
        sorted_names(es),
        wf_entries(es),
    ensures
        value_of_last(flat_entries_pre(pre, es), q) == (if starts_with_path(q, pre) && q.len()
            > pre.len() {
            match assoc(es, q[pre.len() as int]) {
                Some(sub) => gen_flat_val(sub, q.skip(pre.len() as int + 1)),
                None => None,
            }
        } else {
            None
        }),
    decreases es, 0int,
{
    if es.len() == 0 {
    } else {
        let es2 = es.drop_last();
        let last = es.last();
        let a = flat_entries_pre(pre, es2);
        let b = flat_pre(pre.push(last.0), last.1);
        assert(flat_entries_pre(pre, es) == a + b);
        assert(forall|k: int| 0 <= k < es.len() - 1 ==> #[trigger] es2[k] == es[k]);
        assert(sorted_names(es2));
        assert(wf_entries(es2));
        assert(wf(last.1));
        assert(decreases_to!(es => last.1)) by {
            assert(decreases_to!(es => es[es.len() - 1]));
            assert(decreases_to!(es[es.len() - 1] => es[es.len() - 1].1));
        }
        lemma_flat_entries_val(pre, es2, q);
        lemma_flat_pre_val(pre.push(last.0), last.1, q);
        lemma_value_of_last_concat(a, b, q);
        lemma_value_of_last_some(b, q);
        let pp = pre.push(last.0);
        if starts_with_path(q, pre) && q.len() > pre.len() {
            let n = q[pre.len() as int];
            assert(forall|i: int| 0 <= i < pre.len() ==> #[trigger] q.take(pre.len() as int)[i] == q[i]);
            assert(forall|i: int| 0 <= i < pre.len() ==> #[trigger] pp[i] == pre[i]);
            if n == last.0 {
                assert(starts_with_path(q, pp)) by {
                    assert(pp[pre.len() as int] == last.0);
                    assert(q.take(pp.len() as int) =~= pp);
                }
                lemma_assoc_index(es, n);
                assert(es[es.len() - 1].0 == n);
                assert(assoc(es, n) == Some(last.1));
                assert(q.skip(pp.len() as int) =~= q.skip(pre.len() as int + 1));
                if !key_in(b, q) {
                    lemma_assoc_index(es2, n);
                    if assoc(es2, n) is Some {
                        let w = choose|w: int|
                            0 <= w < es2.len() && #[trigger] es2[w] == (n, assoc(es2, n)->Some_0);
                        assert(es[w].0 == n);
                        assert(seq_lt(es[w].0, es[es.len() - 1].0));
                        lemma_seq_lt_irreflexive(n);
                        assert(false);
                    }
                }
            } else {
                assert(!starts_with_path(q, pp)) by {
                    if starts_with_path(q, pp) {
                        assert(q.take(pp.len() as int)[pre.len() as int] == q[pre.len() as int]);
                        assert(pp[pre.len() as int] == last.0);
                        assert(false);
                    }
                }
                lemma_assoc_index(es, n);
                lemma_assoc_index(es2, n);
                if assoc(es, n) is Some {
                    let w = choose|w: int|
                        0 <= w < es.len() && #[trigger] es[w] == (n, assoc(es, n)->Some_0);
                    assert(w != es.len() - 1);
                    assert(es2[w] == es[w]);
                    assert(assoc(es2, n) == Some(assoc(es, n)->Some_0));
                } else {
                    if assoc(es2, n) is Some {
                        let w = choose|w: int|
                            0 <= w < es2.len() && #[trigger] es2[w] == (n, assoc(es2, n)->Some_0);
                        assert(es[w] == es2[w]);
                        assert(assoc(es, n) == Some(assoc(es2, n)->Some_0));
                        assert(false);
                    }
                }
            }
        } else {
            assert(!starts_with_path(q, pp)) by {
                if starts_with_path(q, pp) {
                    assert(forall|i: int|
                        0 <= i < pp.len() ==> #[trigger] q.take(pp.len() as int)[i] == q[i]);
                    assert(forall|i: int| 0 <= i < pre.len() ==> #[trigger] pp[i] == pre[i]);
                    assert(q.take(pre.len() as int) =~= pre) by {
                        assert(forall|i: int|
                            0 <= i < pre.len() ==> #[trigger] q.take(pre.len() as int)[i] == q[i]);
                    }
                    assert(starts_with_path(q, pre));
                    assert(q.len() > pre.len());
                    assert(false);
                }
            }
        }
    }
}


/// The later-wins reading of a whole flattened tree: each file at its path,
/// each otherwise-empty directory as a marker, nothing else.
pub proof fn lemma_flat_val(t: TreeV, q: PathV)
    requires
        wf(t),
    ensures
        value_of_last(flat(t), q) == (if q.len() == 0 {
            match t {
                TreeV::File(c) => Some(Some(c)),
                TreeV::Dir(_) => None,
            }
        } else {
            gen_flat_val(t, q)
        }),
{
    match t {
        TreeV::File(c) => {
            let s = flat(t);
            assert(s == seq![(Seq::<Seq<char>>::empty(), Some(c))]);
            assert(s[0] == (Seq::<Seq<char>>::empty(), Some(c)));
            assert(s.drop_first().len() == 0);
            if q.len() == 0 {
                assert(q =~= Seq::<Seq<char>>::empty());
                assert(value_of_last(s, q) == Some(Some(c)));
            } else {
                assert(q != s[0].0);
                assert(value_of_last(s, q) == value_of_last(s.drop_first(), q));
            }
        },
        TreeV::Dir(es) => {
            lemma_flat_entries_val(Seq::empty(), es, q);
            assert(q.take(0) =~= Seq::<Seq<char>>::empty());
            assert(starts_with_path(q, Seq::empty()));
            if q.len() > 0 {
                assert(q[0int] == q.skip(0)[0int]);
                assert(q.drop_first() =~= q.skip(0int + 1));
            }
        },
    }
}

/// Merging is a right-biased union: on any path where the rendered tree has
/// a file, the merged tree has exactly that file; on any path the rendered
/// tree does not touch, the merged tree reads as the existing one did. The
/// one way the rendered side touches a path without placing a file there is
/// an otherwise-empty directory, which clears it.
pub proof fn lemma_merge_right_bias(e: TreeV, r: TreeV, m: TreeV, q: PathV)
    requires
        wf(e),
        wf(r),
        crate::merge::merge_model(e, r) == Some(m),
    ensures
        wf(m),
        file_at(r, q) is Some ==> file_at(m, q) == file_at(r, q),
        file_at(r, q) is None && !(q.len() > 0 && get_at(r, q) == Some(
            TreeV::Dir(Seq::<(Seq<char>, TreeV)>::empty()),
        )) ==> file_at(m, q) == file_at(e, q),
        q.len() > 0 && get_at(r, q) == Some(TreeV::Dir(Seq::<(Seq<char>, TreeV)>::empty()))
            ==> file_at(m, q) is None,
{
    let all = flat(e) + flat(r);
    let d = dedup_last(all);
    let root = TreeV::Dir(Seq::<(Seq<char>, TreeV)>::empty());
    assert(crate::merge::merge_model(e, r) == build_tree(Some(root), d));
    lemma_dedup_distinct(all);
    assert(wf(root));
    lemma_build_tree_file_at(root, d, q);
    assert(file_at(root, q) is None) by {
        if q.len() > 0 {
            assert(assoc(Seq::<(Seq<char>, TreeV)>::empty(), q[0]) is None);
        }
    }
    lemma_dedup_value(all, q);
    lemma_value_of_last_concat(flat(e), flat(r), q);
    lemma_value_of_last_some(flat(r), q);
    lemma_flat_val(e, q);
    lemma_flat_val(r, q);
    lemma_gen_flat_val(e, q);
    lemma_gen_flat_val(r, q);
    if q.len() > 0 && file_at(r, q) is None {
        match get_at(r, q) {
            Some(node) => match node {
                TreeV::Dir(es) => {
                    if es.len() == 0 {
                        assert(es =~= Seq::<(Seq<char>, TreeV)>::empty());
                    }
                },
                TreeV::File(_) => {},
            },
            None => {},
        }
    }
}


/// What a rebuilt tree holds at each path: the content of the last file
/// entry bound there, and no file where the last entry was a directory
/// marker or no entry was bound at all.
pub proof fn lemma_unflat_reads(entries: Seq<FlatEntryV>, m: TreeV, q: PathV)
    requires
        crate::file_tree::unflat(entries) == Some(m),
    ensures
        wf(m),
        file_at(m, q) == (match value_of_last(entries, q) {
            Some(v) => match v {
                Some(c) => Some(c),
                None => None::<Seq<char>>,
            },
            None => None::<Seq<char>>,
        }),
{
    let d = dedup_last(entries);
    let root = TreeV::Dir(Seq::<(Seq<char>, TreeV)>::empty());
    lemma_dedup_distinct(entries);
    assert(wf(root));
    lemma_build_tree_file_at(root, d, q);
    assert(file_at(root, q) is None) by {
        if q.len() > 0 {
            assert(assoc(Seq::<(Seq<char>, TreeV)>::empty(), q[0]) is None);
        }
    }
    lemma_dedup_value(entries, q);
}

/// Flattening a well-formed tree and rebuilding it reads back the same
/// files: every path holds in the rebuilt tree exactly the content it held
/// before.
pub proof fn lemma_roundtrip_reads(t: TreeV, m: TreeV, q: PathV)
    requires
        wf(t),
        crate::file_tree::unflat(flat(t)) == Some(m),
    ensures
        wf(m),
        file_at(m, q) == file_at(t, q),
{
    lemma_unflat_reads(flat(t), m, q);
    lemma_flat_val(t, q);
    lemma_gen_flat_val(t, q);
}

/// Merging the same rendered tree a second time, over the first merge's own
/// output, reads back unchanged: every path holds in the re-merged tree what
/// the first merge already held there.
pub proof fn lemma_remerge_reads(e: TreeV, r: TreeV, m: TreeV, m2: TreeV, q: PathV)
    requires
        wf(e),
        wf(r),
        crate::merge::merge_model(e, r) == Some(m),
        crate::merge::merge_model(m, r) == Some(m2),
    ensures
        file_at(m2, q) == file_at(m, q),
{
    lemma_merge_right_bias(e, r, m, q);
    lemma_merge_right_bias(m, r, m2, q);
}


/// Every strict prefix of a reachable path lands in a directory that binds
/// the next segment.
pub proof fn lemma_get_at_strict_prefix(t: TreeV, q: PathV, k: int)
    requires
        get_at(t, q) is Some,
        0 <= k < q.len(),
    ensures
        get_at(t, q.take(k)) matches Some(node) && node is Dir && assoc(
            node->Dir_0,
            q[k],
        ) is Some,
    decreases k,
{
    if k == 0 {
        assert(q.take(0) =~= Seq::<Seq<char>>::empty());
        match t {
            TreeV::File(_) => {
                assert(false);
            },
            TreeV::Dir(es) => {
                assert(assoc(es, q[0]) is Some);
            },
        }
    } else {
        match t {
            TreeV::File(_) => {
                assert(false);
            },
            TreeV::Dir(es) => {
                let sub = assoc(es, q[0])->Some_0;
                assert(assoc(es, q[0]) is Some);
                lemma_get_at_strict_prefix(sub, q.drop_first(), k - 1);
                assert(q.take(k).drop_first() =~= q.drop_first().take(k - 1));
                assert(q.take(k)[0] == q[0]);
                assert(q.drop_first()[k - 1] == q[k]);
            },
        }
    }
}

/// Whether `q` leads to a node.
pub open spec fn reach(t: TreeV, q: PathV) -> bool {
    get_at(t, q) is Some
}

/// What a placement reaches: everything reached before, plus the placed path
/// and the directories created on the way to it.
pub proof fn lemma_insert_reach(t: TreeV, p: PathV, node: Option<Seq<char>>, q: PathV)
    requires
        wf(t),
        insert_at(t, p, node) is Some,
    ensures
        reach(insert_at(t, p, node)->Some_0, q) <==> reach(t, q) || (q.len() <= p.len() && q
            == p.take(q.len() as int)),
    decreases p.len(),
{
    let t2 = insert_at(t, p, node)->Some_0;
    if p.len() == 0 {
        match node {
            None => {
                if q.len() == 0 {
                    assert(q =~= p.take(0));
                }
            },
            Some(c) => {
                if q.len() == 0 {
                    assert(q =~= p.take(0));
                } else {
                    assert(!reach(t2, q));
                    match t {
                        TreeV::File(_) => {},
                        TreeV::Dir(es) => {
                            assert(es.len() == 0);
                            assert(assoc(es, q[0]) is None);
                        },
                    }
                }
            },
        }
    } else {
        match t {
            TreeV::File(_) => {},
            TreeV::Dir(es) => {
                let n = p[0];
                lemma_lb_count_bounds(es, n);
                let j = lb_count(es, n);
                let hit = j < es.len() && es[j].0 == n;
                let child = if hit {
                    es[j].1
                } else {
                    TreeV::Dir(Seq::empty())
                };
                lemma_wf_entries_index(es);
                assert(wf(child));
                let nc = insert_at(child, p.drop_first(), node)->Some_0;
                lemma_insert_wf(child, p.drop_first(), node);
                assert(t2 == TreeV::Dir(set_entry(es, n, nc)));
                lemma_assoc_lb(es, n);
                if q.len() == 0 {
                    assert(q =~= p.take(0));
                } else {
                    let m = q[0];
                    lemma_set_entry_assoc(es, n, nc, m);
                    if m == n {
                        lemma_insert_reach(child, p.drop_first(), node, q.drop_first());
                        if q.drop_first().len() == 0 {
                            assert(q.drop_first() =~= p.drop_first().take(0));
                        }
                        if q.len() <= p.len() && q.drop_first() == p.drop_first().take(
                            q.len() - 1,
                        ) {
                            assert forall|i: int| 0 <= i < q.len() implies q[i] == p.take(
                                q.len() as int,
                            )[i] by {
                                if i >= 1 {
                                    assert(q[i] == q.drop_first()[i - 1]);
                                    assert(q.drop_first()[i - 1] == p.drop_first().take(
                                        q.len() - 1,
                                    )[i - 1]);
                                    assert(p.drop_first().take(q.len() - 1)[i - 1] == p[i]);
                                }
                            }
                            assert(q =~= p.take(q.len() as int));
                        }
                        if q == p.take(q.len() as int) && q.len() <= p.len() {
                            assert forall|i: int| 0 <= i < q.len() - 1 implies #[trigger] q.drop_first()[i]
                                == p.drop_first().take(q.len() - 1)[i] by {
                                assert(q.drop_first()[i] == q[i + 1]);
                                assert(q[i + 1] == p.take(q.len() as int)[i + 1]);
                                assert(p.drop_first().take(q.len() - 1)[i] == p[i + 1]);
                            }
                            assert(q.drop_first() =~= p.drop_first().take(q.len() - 1));
                        }
                        if !hit {
                            assert(assoc(es, n) is None);
                            if q.drop_first().len() == 0 {
                                assert(reach(child, q.drop_first()));
                            } else {
                                assert(!reach(child, q.drop_first())) by {
                                    assert(assoc(
                                        Seq::<(Seq<char>, TreeV)>::empty(),
                                        q.drop_first()[0],
                                    ) is None);
                                }
                            }
                        }
                    } else {
                        if q.len() <= p.len() && q == p.take(q.len() as int) {
                            assert(p.take(q.len() as int)[0] == p[0]);
                            assert(false);
                        }
                    }
                }
            },
        }
    }
}

/// Whether `q` is a leading part of some listed path.
pub open spec fn key_covers(s: Seq<FlatEntryV>, q: PathV) -> bool {
    exists|j: int| 0 <= j < s.len() && q.len() <= (#[trigger] s[j]).0.len() && q == s[j].0.take(
        q.len() as int,
    )
}

/// What a grown tree reaches: what the start reached, plus every listed path
/// and the directories on the way.
pub proof fn lemma_build_tree_reach(t0: TreeV, s: Seq<FlatEntryV>, q: PathV)
    requires
        wf(t0),
        build_tree(Some(t0), s) is Some,
    ensures
        reach(build_tree(Some(t0), s)->Some_0, q) <==> reach(t0, q) || key_covers(s, q),
    decreases s.len(),
{
    if s.len() == 0 {
        assert(!key_covers(s, q));
    } else {
        let t1 = insert_at(t0, s[0].0, s[0].1);
        assert(build_tree(Some(t0), s) == build_tree(t1, s.drop_first()));
        if t1 is None {
            assert(build_tree(t1, s.drop_first()) is None);
            assert(false);
        }
        lemma_insert_wf(t0, s[0].0, s[0].1);
        lemma_build_tree_reach(t1->Some_0, s.drop_first(), q);
        lemma_insert_reach(t0, s[0].0, s[0].1, q);
        if key_covers(s.drop_first(), q) {
            let w = choose|w: int|
                0 <= w < s.drop_first().len() && q.len() <= (#[trigger] s.drop_first()[w]).0.len()
                    && q == s.drop_first()[w].0.take(q.len() as int);
            assert(s[w + 1] == s.drop_first()[w]);
            assert(key_covers(s, q));
        }
        if q.len() <= s[0].0.len() && q == s[0].0.take(q.len() as int) {
            assert(key_covers(s, q));
        }
        if key_covers(s, q) {
            let w = choose|w: int|
                0 <= w < s.len() && q.len() <= (#[trigger] s[w]).0.len() && q == s[w].0.take(
                    q.len() as int,
                );
            if w > 0 {
                assert(s.drop_first()[w - 1] == s[w]);
                assert(key_covers(s.drop_first(), q));
            }
        }
    }
}


/// A path is bound in a concatenation exactly when it is bound in a part.
pub proof fn lemma_key_in_concat(a: Seq<FlatEntryV>, b: Seq<FlatEntryV>, q: PathV)
    ensures
        key_in(a + b, q) <==> key_in(a, q) || key_in(b, q),
{
    if key_in(a, q) {
        let w = choose|w: int| 0 <= w < a.len() && (#[trigger] a[w]).0 == q;
        assert((a + b)[w] == a[w]);
        assert(key_in(a + b, q));
    }
    if key_in(b, q) {
        let w = choose|w: int| 0 <= w < b.len() && (#[trigger] b[w]).0 == q;
        assert((a + b)[a.len() + w] == b[w]);
        assert(key_in(a + b, q));
    }
    if key_in(a + b, q) {
        let w = choose|w: int| 0 <= w < (a + b).len() && (#[trigger] (a + b)[w]).0 == q;
        if w < a.len() {
            assert(a[w] == (a + b)[w]);
            assert(key_in(a, q));
        } else {
            assert(b[w - a.len()] == (a + b)[w]);
            assert(key_in(b, q));
        }
    }
}

/// The first binding in a concatenation comes from the left part when it
/// binds the path at all.
pub proof fn lemma_first_value_concat(a: Seq<FlatEntryV>, b: Seq<FlatEntryV>, q: PathV)
    ensures
        first_value(a + b, q) == (if key_in(a, q) {
            first_value(a, q)
        } else {
            first_value(b, q)
        }),
    decreases a.len(),
{
    lemma_first_value_some(a, q);
    if a.len() == 0 {
        assert(a + b =~= b);
    } else {
        assert((a + b)[0] == a[0]);
        assert((a + b).drop_first() =~= a.drop_first() + b);
        lemma_first_value_concat(a.drop_first(), b, q);
        lemma_first_value_some(a.drop_first(), q);
        if a[0].0 == q {
            assert(key_in(a, q));
        } else {
            if key_in(a, q) {
                let w = choose|w: int| 0 <= w < a.len() && (#[trigger] a[w]).0 == q;
                assert(a.drop_first()[w - 1] == a[w]);
                assert(key_in(a.drop_first(), q));
            }
            if key_in(a.drop_first(), q) {
                let w = choose|w: int|
                    0 <= w < a.drop_first().len() && (#[trigger] a.drop_first()[w]).0 == q;
                assert(a[w + 1] == a.drop_first()[w]);
                assert(key_in(a, q));
            }
        }
    }
}

/// No bound path of a flattened tree is a leading part of another: a file or
/// an otherwise-empty directory has nothing below it.
pub proof fn lemma_flat_keys_prefix_free(t: TreeV, q1: PathV, q2: PathV)
    requires
        wf(t),
        key_in(flat(t), q1),
        key_in(flat(t), q2),
        q1.len() < q2.len(),
    ensures
        q1 != q2.take(q1.len() as int),
{
    lemma_value_of_last_some(flat(t), q1);
    lemma_value_of_last_some(flat(t), q2);
    lemma_flat_val(t, q1);
    lemma_flat_val(t, q2);
    lemma_gen_flat_val(t, q1);
    lemma_gen_flat_val(t, q2);
    if q1 == q2.take(q1.len() as int) {
        if q1.len() == 0 {
            match t {
                TreeV::File(_) => {
                    assert(gen_flat_val(t, q2) is None);
                },
                TreeV::Dir(_) => {
                    assert(value_of_last(flat(t), q1) is None);
                },
            }
        } else {
            assert(get_at(t, q2) is Some);
            lemma_get_at_strict_prefix(t, q2, q1.len() as int);
            let node = get_at(t, q1)->Some_0;
            assert(node is Dir && assoc(node->Dir_0, q2[q1.len() as int]) is Some);
            assert(node->Dir_0.len() > 0);
            assert(gen_flat_val(t, q1) is None);
        }
        assert(false);
    }
}

/// Growing a tree from concatenated entries grows it through the first part
/// and then the second.
pub proof fn lemma_build_tree_concat(x: Option<TreeV>, a: Seq<FlatEntryV>, b: Seq<FlatEntryV>)
    ensures
        build_tree(x, a + b) == build_tree(build_tree(x, a), b),
    decreases a.len(),
{
    match x {
        None => {
            assert(build_tree(None::<TreeV>, a + b) is None);
            assert(build_tree(None::<TreeV>, a) is None);
            assert(build_tree(None::<TreeV>, b) is None);
        },
        Some(t0) => {
            if a.len() == 0 {
                assert(a + b =~= b);
            } else {
                assert((a + b)[0] == a[0]);
                assert((a + b).drop_first() =~= a.drop_first() + b);
                lemma_build_tree_concat(insert_at(t0, a[0].0, a[0].1), a.drop_first(), b);
            }
        },
    }
}


/// A placement succeeds when no ancestor of its path is a file, nothing
/// reaches strictly below it where a file would go, and no file sits where a
/// directory marker points.
pub proof fn lemma_insert_succeeds(t: TreeV, p: PathV, node: Option<Seq<char>>)
    requires
        wf(t),
        forall|k: int| 0 <= k < p.len() ==> file_at(t, #[trigger] p.take(k)) is None,
        node is Some ==> forall|q: PathV|
            #[trigger] reach(t, q) && q.len() > p.len() ==> q.take(p.len() as int) != p,
        node is None ==> file_at(t, p) is None,
    ensures
        insert_at(t, p, node) is Some,
    decreases p.len(),
{
    if p.len() == 0 {
        match node {
            None => {
                match t {
                    TreeV::File(_) => {
                        assert(file_at(t, p) is Some);
                        assert(false);
                    },
                    TreeV::Dir(_) => {},
                }
            },
            Some(_) => {
                match t {
                    TreeV::File(_) => {},
                    TreeV::Dir(es) => {
                        if es.len() > 0 {
                            let q = seq![es[0].0];
                            assert(assoc(es, es[0].0) is Some);
                            assert(get_at(es[0].1, q.drop_first()) is Some) by {
                                assert(q.drop_first().len() == 0);
                            }
                            assert(reach(t, q));
                            assert(q.take(0) =~= p);
                            assert(false);
                        }
                    },
                }
            },
        }
    } else {
        match t {
            TreeV::File(_) => {
                assert(p.take(0) =~= Seq::<Seq<char>>::empty());
                assert(file_at(t, p.take(0)) is Some);
                assert(false);
            },
            TreeV::Dir(es) => {
                let n = p[0];
                lemma_lb_count_bounds(es, n);
                let j = lb_count(es, n);
                let hit = j < es.len() && es[j].0 == n;
                let child = if hit {
                    es[j].1
                } else {
                    TreeV::Dir(Seq::empty())
                };
                lemma_wf_entries_index(es);
                assert(wf(child));
                lemma_assoc_lb(es, n);
                let rest = p.drop_first();
                assert forall|k: int| 0 <= k < rest.len() implies file_at(
                    child,
                    #[trigger] rest.take(k),
                ) is None by {
                    if hit {
                        assert(p.take(k + 1) =~= seq![n] + rest.take(k)) by {
                            assert(forall|i: int|
                                1 <= i < k + 1 ==> #[trigger] p.take(k + 1)[i] == rest.take(k)[i
                                    - 1]);
                        }
                        assert(file_at(t, p.take(k + 1)) is None);
                        assert((seq![n] + rest.take(k))[0] == n);
                        assert((seq![n] + rest.take(k)).drop_first() =~= rest.take(k));
                    } else {
                        if rest.take(k).len() == 0 {
                        } else {
                            assert(assoc(
                                Seq::<(Seq<char>, TreeV)>::empty(),
                                rest.take(k)[0],
                            ) is None);
                        }
                    }
                }
                if node is Some {
                    assert forall|q2: PathV|
                        #[trigger] reach(child, q2) && q2.len() > rest.len() implies q2.take(
                        rest.len() as int,
                    ) != rest by {
                        if hit {
                            let q = seq![n] + q2;
                            assert(q.drop_first() =~= q2);
                            assert(q[0] == n);
                            assert(reach(t, q));
                            if q2.take(rest.len() as int) == rest {
                                assert(q.take(p.len() as int) =~= p) by {
                                    assert(q.take(p.len() as int)[0] == n);
                                    assert(forall|i: int|
                                        1 <= i < p.len() ==> #[trigger] q.take(
                                            p.len() as int,
                                        )[i] == q2.take(rest.len() as int)[i - 1]);
                                    assert(forall|i: int|
                                        1 <= i < p.len() ==> #[trigger] rest[i - 1] == p[i]);
                                }
                                assert(false);
                            }
                        } else {
                            assert(q2.len() > 0);
                            assert(assoc(Seq::<(Seq<char>, TreeV)>::empty(), q2[0]) is None);
                            assert(!reach(child, q2));
                            assert(false);
                        }
                    }
                }
                if node is None {
                    assert(file_at(child, rest) is None) by {
                        if hit {
                            assert(file_at(t, p) is None);
                        } else {
                            if rest.len() == 0 {
                            } else {
                                assert(assoc(
                                    Seq::<(Seq<char>, TreeV)>::empty(),
                                    rest[0],
                                ) is None);
                            }
                        }
                    }
                }
                lemma_insert_succeeds(child, rest, node);
            },
        }
    }
}

/// A bound path sitting strictly above another bound path must be a
/// directory marker, not a file.
pub open spec fn files_prefix_free(s: Seq<FlatEntryV>) -> bool {
    forall|q1: PathV, q2: PathV|
        #[trigger] key_in(s, q1) && #[trigger] key_in(s, q2) && q1.len() < q2.len() && q1
            == q2.take(q1.len() as int) ==> first_value(s, q1) == Some(None::<Seq<char>>)
}

/// Growing a tree from distinct entries conflicts only where a file would
/// sit above another entry; with files prefix-free it never does.
proof fn lemma_build_tree_succeeds_from(t0: TreeV, done: Seq<FlatEntryV>, s: Seq<FlatEntryV>)
    requires
        distinct_keys(done + s),
        files_prefix_free(done + s),
        build_tree(Some(TreeV::Dir(Seq::<(Seq<char>, TreeV)>::empty())), done) == Some(t0),
    ensures
        build_tree(Some(t0), s) is Some,
    decreases s.len(),
{
    let root = TreeV::Dir(Seq::<(Seq<char>, TreeV)>::empty());
    assert(wf(root));
    assert(forall|i: int| 0 <= i < done.len() ==> #[trigger] (done + s)[i] == done[i]);
    assert(forall|i: int| 0 <= i < s.len() ==> #[trigger] (done + s)[done.len() + i] == s[i]);
    assert forall|i: int, j: int| 0 <= i < j < done.len() implies (#[trigger] done[i]).0 != (
    #[trigger] done[j]).0 by {
        assert((done + s)[i] == done[i]);
        assert((done + s)[j] == done[j]);
    }
    assert(distinct_keys(done));
    lemma_build_tree_file_at(root, done, Seq::empty());
    assert(wf(t0));
    if s.len() > 0 {
        let e = s[0];
        let p = e.0;
        assert((done + s)[done.len() as int] == e);
        assert(key_in(done + s, p));
        assert forall|k: int| 0 <= k < p.len() implies file_at(t0, #[trigger] p.take(k)) is None by {
            lemma_build_tree_file_at(root, done, p.take(k));
            assert(file_at(root, p.take(k)) is None) by {
                if p.take(k).len() > 0 {
                    assert(assoc(Seq::<(Seq<char>, TreeV)>::empty(), p.take(k)[0]) is None);
                }
            }
            if first_value(done, p.take(k)) matches Some(v) && v is Some {
                lemma_first_value_some(done, p.take(k));
                let w = choose|w: int| 0 <= w < done.len() && (#[trigger] done[w]).0 == p.take(k);
                assert((done + s)[w] == done[w]);
                assert(key_in(done + s, p.take(k)));
                assert(p.take(k).len() < p.len());
                assert(p.take(k) =~= p.take(p.take(k).len() as int));
                assert(first_value(done + s, p.take(k)) == Some(None::<Seq<char>>));
                lemma_first_value_concat(done, s, p.take(k));
                assert(false);
            }
        }
        if e.1 is Some {
            assert forall|q: PathV| #[trigger] reach(t0, q) && q.len() > p.len() implies q.take(
                p.len() as int,
            ) != p by {
                lemma_build_tree_reach(root, done, q);
                if q.take(p.len() as int) == p {
                    assert(q.len() > 0);
                    assert(!reach(root, q)) by {
                        assert(assoc(Seq::<(Seq<char>, TreeV)>::empty(), q[0]) is None);
                    }
                    let w = choose|w: int|
                        0 <= w < done.len() && q.len() <= (#[trigger] done[w]).0.len() && q
                            == done[w].0.take(q.len() as int);
                    assert(key_in(done + s, done[w].0)) by {
                        assert((done + s)[w] == done[w]);
                    }
                    assert(p.len() < done[w].0.len());
                    assert(p =~= done[w].0.take(p.len() as int)) by {
                        assert(forall|i: int|
                            0 <= i < p.len() ==> #[trigger] p[i] == q.take(p.len() as int)[i]);
                        assert(forall|i: int|
                            0 <= i < q.len() ==> #[trigger] q[i] == done[w].0.take(
                                q.len() as int,
                            )[i]);
                    }
                    assert(first_value(done + s, p) == Some(None::<Seq<char>>));
                    if key_in(done, p) {
                        let u = choose|u: int| 0 <= u < done.len() && (#[trigger] done[u]).0 == p;
                        assert((done + s)[u].0 == (done + s)[done.len() as int].0);
                        assert(false);
                    }
                    lemma_first_value_concat(done, s, p);
                    assert(first_value(s, p) == Some(e.1)) by {
                        assert(s[0].0 == p);
                    }
                    assert(false);
                }
            }
        }
        if e.1 is None {
            assert(file_at(t0, p) is None) by {
                lemma_build_tree_file_at(root, done, p);
                assert(file_at(root, p) is None) by {
                    if p.len() > 0 {
                        assert(assoc(Seq::<(Seq<char>, TreeV)>::empty(), p[0]) is None);
                    }
                }
                if first_value(done, p) is Some {
                    lemma_first_value_some(done, p);
                    let w = choose|w: int| 0 <= w < done.len() && (#[trigger] done[w]).0 == p;
                    assert((done + s)[w].0 == (done + s)[done.len() as int].0);
                    assert(false);
                }
            }
        }
        lemma_insert_succeeds(t0, p, e.1);
        let t1 = insert_at(t0, p, e.1)->Some_0;
        assert(build_tree(Some(t0), seq![e]) == Some(t1)) by {
            assert(seq![e][0] == e);
            assert(seq![e].drop_first().len() == 0);
            assert(build_tree(insert_at(t0, e.0, e.1), seq![e].drop_first()) == Some(t1));
        }
        lemma_build_tree_concat(Some(root), done, seq![e]);
        assert(done + seq![e] + s.drop_first() =~= done + s) by {
            assert(forall|i: int|
                0 <= i < s.len() - 1 ==> #[trigger] s.drop_first()[i] == s[i + 1]);
        }
        lemma_build_tree_succeeds_from(t1, done + seq![e], s.drop_first());
        assert(build_tree(Some(t0), s) == build_tree(Some(t1), s.drop_first())) by {
            assert(build_tree(Some(t0), seq![e] + s.drop_first()) == build_tree(
                build_tree(Some(t0), seq![e]),
                s.drop_first(),
            )) by {
                lemma_build_tree_concat(Some(t0), seq![e], s.drop_first());
            }
            assert(seq![e] + s.drop_first() =~= s);
        }
    }
}

/// Flattening a well-formed tree and rebuilding it succeeds, and the rebuilt
/// tree reads back the same files at every path.
pub proof fn lemma_flatten_unflatten(t: TreeV, q: PathV)
    requires
        wf(t),
    ensures
        crate::file_tree::unflat(flat(t)) is Some,
        file_at(crate::file_tree::unflat(flat(t))->Some_0, q) == file_at(t, q),
        wf(crate::file_tree::unflat(flat(t))->Some_0),
{
    let d = dedup_last(flat(t));
    let root = TreeV::Dir(Seq::<(Seq<char>, TreeV)>::empty());
    lemma_dedup_distinct(flat(t));
    assert(Seq::<FlatEntryV>::empty() + d =~= d);
    assert forall|q1: PathV, q2: PathV|
        #[trigger] key_in(d, q1) && #[trigger] key_in(d, q2) && q1.len() < q2.len() && q1
            == q2.take(q1.len() as int) implies first_value(d, q1) == Some(
        None::<Seq<char>>,
    ) by {
        lemma_dedup_key_in(flat(t), q1);
        lemma_dedup_key_in(flat(t), q2);
        lemma_flat_keys_prefix_free(t, q1, q2);
    }
    assert(files_prefix_free(d));
    assert(distinct_keys(Seq::<FlatEntryV>::empty() + d));
    lemma_build_tree_succeeds_from(root, Seq::empty(), d);
    assert(crate::file_tree::unflat(flat(t)) is Some);
    lemma_roundtrip_reads(t, crate::file_tree::unflat(flat(t))->Some_0, q);
}


/// Whether some entry carries this name.
pub open spec fn name_in(es: Seq<(Seq<char>, TreeV)>, n: Seq<char>) -> bool {
    exists|i: int| 0 <= i < es.len() && (#[trigger] es[i]).0 == n
}

/// Two strictly sorted entry lists binding the same names list them at the
/// same positions.
proof fn lemma_sorted_names_canonical(ea: Seq<(Seq<char>, TreeV)>, eb: Seq<(Seq<char>, TreeV)>)
    requires
        sorted_names(ea),
        sorted_names(eb),
        forall|n: Seq<char>| #[trigger] name_in(ea, n) == name_in(eb, n),
    ensures
        ea.len() == eb.len(),
        forall|i: int| 0 <= i < ea.len() ==> (#[trigger] ea[i]).0 == eb[i].0,
    decreases ea.len() + eb.len(),
{
    if ea.len() == 0 {
        if eb.len() > 0 {
            assert(name_in(eb, eb[0].0));
            assert(name_in(ea, eb[0].0));
            assert(false);
        }
    } else if eb.len() == 0 {
        assert(name_in(ea, ea[0].0));
        assert(name_in(eb, ea[0].0));
        assert(false);
    } else {
        assert(name_in(ea, ea[0].0));
        assert(name_in(eb, ea[0].0));
        assert(name_in(eb, eb[0].0));
        assert(name_in(ea, eb[0].0));
        let ja = choose|j: int| 0 <= j < eb.len() && (#[trigger] eb[j]).0 == ea[0].0;
        let jb = choose|j: int| 0 <= j < ea.len() && (#[trigger] ea[j]).0 == eb[0].0;
        if ja > 0 {
            assert(seq_lt(eb[0].0, eb[ja].0));
        }
        if jb > 0 {
            assert(seq_lt(ea[0].0, ea[jb].0));
        }
        if ea[0].0 != eb[0].0 {
            lemma_seq_lt_asymmetric(ea[0].0, eb[0].0);
            lemma_seq_lt_total(ea[0].0, eb[0].0);
            lemma_seq_lt_transitive(ea[0].0, eb[0].0, ea[0].0);
            assert(false);
        }
        assert(forall|i: int|
            0 <= i < ea.len() - 1 ==> #[trigger] ea.drop_first()[i] == ea[i + 1]);
        assert(forall|i: int|
            0 <= i < eb.len() - 1 ==> #[trigger] eb.drop_first()[i] == eb[i + 1]);
        assert(sorted_names(ea.drop_first()));
        assert(sorted_names(eb.drop_first()));
        assert forall|n: Seq<char>| #[trigger] name_in(ea.drop_first(), n) == name_in(
            eb.drop_first(),
            n,
        ) by {
            if name_in(ea.drop_first(), n) {
                let w = choose|w: int|
                    0 <= w < ea.drop_first().len() && (#[trigger] ea.drop_first()[w]).0 == n;
                assert(ea[w + 1].0 == n);
                assert(name_in(ea, n));
                assert(seq_lt(ea[0].0, n));
                assert(name_in(eb, n));
                let v = choose|v: int| 0 <= v < eb.len() && (#[trigger] eb[v]).0 == n;
                if v == 0 {
                    lemma_seq_lt_irreflexive(n);
                    assert(false);
                }
                assert(eb.drop_first()[v - 1].0 == n);
                assert(name_in(eb.drop_first(), n));
            }
            if name_in(eb.drop_first(), n) {
                let w = choose|w: int|
                    0 <= w < eb.drop_first().len() && (#[trigger] eb.drop_first()[w]).0 == n;
                assert(eb[w + 1].0 == n);
                assert(name_in(eb, n));
                assert(seq_lt(eb[0].0, n));
                assert(name_in(ea, n));
                let v = choose|v: int| 0 <= v < ea.len() && (#[trigger] ea[v]).0 == n;
                if v == 0 {
                    lemma_seq_lt_irreflexive(n);
                    assert(false);
                }
                assert(ea.drop_first()[v - 1].0 == n);
                assert(name_in(ea.drop_first(), n));
            }
        }
        lemma_sorted_names_canonical(ea.drop_first(), eb.drop_first());
        assert forall|i: int| 0 <= i < ea.len() implies (#[trigger] ea[i]).0 == eb[i].0 by {
            if i > 0 {
                assert(ea.drop_first()[i - 1] == ea[i]);
                assert(eb.drop_first()[i - 1] == eb[i]);
            }
        }
    }
}

/// Two well-formed trees that reach the same paths and hold the same files
/// are the same tree.
pub proof fn lemma_tree_ext(a: TreeV, b: TreeV)
    requires
        wf(a),
        wf(b),
        forall|q: PathV| #[trigger] reach(a, q) == reach(b, q),
        forall|q: PathV| #[trigger] file_at(a, q) == file_at(b, q),
    ensures
        a == b,
    decreases a,
{
    let empty_q = Seq::<Seq<char>>::empty();
    match a {
        TreeV::File(c1) => {
            assert(file_at(a, empty_q) == Some(c1));
            match b {
                TreeV::File(c2) => {
                    assert(file_at(b, empty_q) == Some(c2));
                },
                TreeV::Dir(_) => {
                    assert(file_at(b, empty_q) is None);
                    assert(false);
                },
            }
        },
        TreeV::Dir(ea) => {
            match b {
                TreeV::File(_) => {
                    assert(file_at(a, empty_q) is None);
                    assert(file_at(b, empty_q) is Some);
                    assert(false);
                },
                TreeV::Dir(eb) => {
                    lemma_wf_entries_index(ea);
                    lemma_wf_entries_index(eb);
                    lemma_assoc_index(ea, empty_q[0]);
                    assert forall|n: Seq<char>| #[trigger] name_in(ea, n) == name_in(eb, n) by {
                        lemma_assoc_index(ea, n);
                        lemma_assoc_index(eb, n);
                        if name_in(ea, n) {
                            let w = choose|w: int|
                                0 <= w < ea.len() && (#[trigger] ea[w]).0 == n;
                            assert(assoc(ea, n) == Some(ea[w].1));
                            assert(reach(a, seq![n])) by {
                                assert(seq![n][0] == n);
                                assert(seq![n].drop_first().len() == 0);
                                assert(get_at(ea[w].1, seq![n].drop_first()) is Some);
                                assert(get_at(a, seq![n]) is Some);
                            }
                            assert(reach(b, seq![n]));
                            assert(assoc(eb, n) is Some);
                            let v = choose|v: int|
                                0 <= v < eb.len() && #[trigger] eb[v] == (n, assoc(eb, n)->Some_0);
                            assert(name_in(eb, n));
                        }
                        if name_in(eb, n) {
                            let w = choose|w: int|
                                0 <= w < eb.len() && (#[trigger] eb[w]).0 == n;
                            assert(assoc(eb, n) == Some(eb[w].1));
                            assert(reach(b, seq![n])) by {
                                assert(seq![n][0] == n);
                                assert(seq![n].drop_first().len() == 0);
                                assert(get_at(eb[w].1, seq![n].drop_first()) is Some);
                                assert(get_at(b, seq![n]) is Some);
                            }
                            assert(reach(a, seq![n]));
                            assert(assoc(ea, n) is Some);
                            let v = choose|v: int|
                                0 <= v < ea.len() && #[trigger] ea[v] == (n, assoc(ea, n)->Some_0);
                            assert(name_in(ea, n));
                        }
                    }
                    lemma_sorted_names_canonical(ea, eb);
                    assert forall|i: int| 0 <= i < ea.len() implies #[trigger] ea[i] == eb[i] by {
                        let n = ea[i].0;
                        lemma_assoc_index(ea, n);
                        lemma_assoc_index(eb, n);
                        assert(assoc(ea, n) == Some(ea[i].1));
                        assert(assoc(eb, n) == Some(eb[i].1));
                        let suba = ea[i].1;
                        let subb = eb[i].1;
                        assert(wf(suba));
                        assert(wf(subb));
                        assert forall|q: PathV| #[trigger] reach(suba, q) == reach(subb, q) by {
                            let qq = seq![n] + q;
                            assert(qq[0] == n);
                            assert(qq.drop_first() =~= q);
                            assert(reach(a, qq) == reach(b, qq));
                        }
                        assert forall|q: PathV| #[trigger] file_at(suba, q) == file_at(
                            subb,
                            q,
                        ) by {
                            let qq = seq![n] + q;
                            assert(qq[0] == n);
                            assert(qq.drop_first() =~= q);
                            assert(file_at(a, qq) == file_at(b, qq));
                        }
                        assert(decreases_to!(a => ea));
                        assert(decreases_to!(ea => ea[i]));
                        assert(decreases_to!(ea[i] => ea[i].1));
                        lemma_tree_ext(suba, subb);
                    }
                    assert(ea =~= eb);
                },
            }
        },
    }
}


/// A reachable node is well-formed.
proof fn lemma_wf_get_at(t: TreeV, q: PathV)
    requires
        wf(t),
        get_at(t, q) is Some,
    ensures
        wf(get_at(t, q)->Some_0),
    decreases q.len(),
{
    if q.len() > 0 {
        match t {
            TreeV::File(_) => {},
            TreeV::Dir(es) => {
                match assoc(es, q[0]) {
                    Some(sub) => {
                        lemma_wf_entries_index(es);
                        lemma_assoc_index(es, q[0]);
                        let w = choose|w: int|
                            0 <= w < es.len() && #[trigger] es[w] == (q[0], assoc(es, q[0])->Some_0);
                        assert(wf(sub));
                        lemma_wf_get_at(sub, q.drop_first());
                    },
                    None => {},
                }
            },
        }
    }
}

/// Stepping from a reached directory into one of its bound names.
proof fn lemma_get_at_push(t: TreeV, q: PathV, n: Seq<char>)
    requires
        get_at(t, q) matches Some(node) && node is Dir && assoc(node->Dir_0, n) is Some,
    ensures
        get_at(t, q.push(n)) == Some(assoc(get_at(t, q)->Some_0->Dir_0, n)->Some_0),
    decreases q.len(),
{
    let node = get_at(t, q)->Some_0;
    if q.len() == 0 {
        assert(node == t);
        match t {
            TreeV::File(_) => {
                assert(false);
            },
            TreeV::Dir(es) => {
                assert(q.push(n)[0] == n);
                assert(q.push(n).drop_first().len() == 0);
                let sub = assoc(es, n)->Some_0;
                assert(get_at(sub, q.push(n).drop_first()) == Some(sub));
                assert(get_at(t, q.push(n)) == Some(sub));
            },
        }
    } else {
        match t {
            TreeV::File(_) => {
                assert(false);
            },
            TreeV::Dir(es) => {
                assert(assoc(es, q[0]) is Some);
                let sub = assoc(es, q[0])->Some_0;
                assert(get_at(sub, q.drop_first()) == Some(node));
                assert(q.push(n)[0] == q[0]);
                assert(q.push(n).drop_first() =~= q.drop_first().push(n));
                lemma_get_at_push(sub, q.drop_first(), n);
                assert(get_at(t, q.push(n)) == get_at(sub, q.push(n).drop_first()));
            },
        }
    }
}

/// Below every reachable path, except the bare root of a directory tree,
/// some file or otherwise-empty directory is listed in the flattened form.
proof fn lemma_reach_has_leaf(t: TreeV, q: PathV, node: TreeV)
    requires
        wf(t),
        get_at(t, q) == Some(node),
        q.len() > 0 || node is File || (node matches TreeV::Dir(es) && es.len() == 0 && q.len()
            > 0),
    ensures
        exists|k: PathV|
            #[trigger] key_in(flat(t), k) && q.len() <= k.len() && q == k.take(q.len() as int),
    decreases node,
{
    lemma_value_of_last_some(flat(t), q);
    lemma_flat_val(t, q);
    lemma_gen_flat_val(t, q);
    match node {
        TreeV::File(_) => {
            assert(key_in(flat(t), q));
            assert(q == q.take(q.len() as int)) by {
                assert(q =~= q.take(q.len() as int));
            }
        },
        TreeV::Dir(es) => {
            if es.len() == 0 {
                assert(key_in(flat(t), q));
                assert(q == q.take(q.len() as int)) by {
                    assert(q =~= q.take(q.len() as int));
                }
            } else {
                let n = es[0].0;
                assert(assoc(es, n) == Some(es[0].1));
                lemma_get_at_push(t, q, n);
                assert(get_at(t, q.push(n)) == Some(es[0].1));
                assert(decreases_to!(node => es));
                assert(decreases_to!(es => es[0int]));
                assert(decreases_to!(es[0int] => es[0int].1));
                lemma_reach_has_leaf(t, q.push(n), es[0].1);
                let k = choose|k: PathV|
                    #[trigger] key_in(flat(t), k) && q.push(n).len() <= k.len() && q.push(n)
                        == k.take(q.push(n).len() as int);
                assert(q == k.take(q.len() as int)) by {
                    assert forall|i: int| 0 <= i < q.len() implies q[i] == k.take(
                        q.len() as int,
                    )[i] by {
                        assert(q.push(n)[i] == q[i]);
                        assert(k.take(q.push(n).len() as int)[i] == k[i]);
                    }
                    assert(q =~= k.take(q.len() as int));
                }
            }
        },
    }
}

/// Flattening a well-formed tree and rebuilding it returns the same tree.
pub proof fn lemma_flatten_unflatten_identity(t: TreeV)
    requires
        wf(t),
    ensures
        crate::file_tree::unflat(flat(t)) == Some(t),
{
    lemma_flatten_unflatten(t, Seq::empty());
    let m = crate::file_tree::unflat(flat(t))->Some_0;
    let d = dedup_last(flat(t));
    let root = TreeV::Dir(Seq::<(Seq<char>, TreeV)>::empty());
    assert(wf(root));
    assert forall|q: PathV| #[trigger] file_at(m, q) == file_at(t, q) by {
        lemma_flatten_unflatten(t, q);
    }
    assert forall|q: PathV| #[trigger] reach(m, q) == reach(t, q) by {
        lemma_build_tree_reach(root, d, q);
        assert(reach(root, q) <==> q.len() == 0) by {
            if q.len() > 0 {
                assert(assoc(Seq::<(Seq<char>, TreeV)>::empty(), q[0]) is None);
            }
        }
        if key_covers(d, q) {
            let w = choose|w: int|
                0 <= w < d.len() && q.len() <= (#[trigger] d[w]).0.len() && q == d[w].0.take(
                    q.len() as int,
                );
            let k = d[w].0;
            assert(key_in(d, k));
            lemma_dedup_key_in(flat(t), k);
            lemma_value_of_last_some(flat(t), k);
            lemma_flat_val(t, k);
            lemma_gen_flat_val(t, k);
            assert(get_at(t, k) is Some) by {
                if k.len() == 0 {
                    assert(value_of_last(flat(t), k) is Some);
                }
            }
            if q.len() < k.len() {
                lemma_get_at_strict_prefix(t, k, q.len() as int);
                assert(reach(t, q));
            } else {
                assert(q =~= k);
                assert(reach(t, q));
            }
        }
        if reach(t, q) && q.len() > 0 {
            lemma_wf_get_at(t, q);
            let node = get_at(t, q)->Some_0;
            lemma_reach_has_leaf(t, q, node);
            let k = choose|k: PathV|
                #[trigger] key_in(flat(t), k) && q.len() <= k.len() && q == k.take(q.len() as int);
            lemma_dedup_key_in(flat(t), k);
            let w = choose|w: int| 0 <= w < d.len() && (#[trigger] d[w]).0 == k;
            assert(key_covers(d, q));
        }
        if q.len() == 0 {
            assert(reach(m, q));
            assert(reach(t, q));
        }
    }
    lemma_tree_ext(m, t);
}

/// Merging a rendered tree with no entries returns the existing tree itself.
pub proof fn lemma_merge_empty_identity(t: TreeV)
    requires
        wf(t),
    ensures
        crate::merge::merge_model(t, TreeV::Dir(Seq::<(Seq<char>, TreeV)>::empty())) == Some(t),
{
    let empty_rendered = TreeV::Dir(Seq::<(Seq<char>, TreeV)>::empty());
    assert(flat(empty_rendered).len() == 0);
    assert(flat(t) + flat(empty_rendered) =~= flat(t));
    lemma_flatten_unflatten_identity(t);
}


/// Merging the same rendered tree a second time, over the first merge's own
/// output, returns that output itself: a re-run causes no change at all.
pub proof fn lemma_remerge_identity(e: TreeV, r: TreeV, m: TreeV)
    requires
        wf(e),
        wf(r),
        crate::merge::merge_model(e, r) == Some(m),
    ensures
        crate::merge::merge_model(m, r) == Some(m),
{
    let root = TreeV::Dir(Seq::<(Seq<char>, TreeV)>::empty());
    let all1 = flat(e) + flat(r);
    let d1 = dedup_last(all1);
    let all2 = flat(m) + flat(r);
    let d2 = dedup_last(all2);
    assert(wf(root));
    lemma_dedup_distinct(all1);
    lemma_dedup_distinct(all2);
    assert(build_tree(Some(root), d1) == Some(m));
    lemma_build_tree_file_at(root, d1, Seq::empty());
    assert(wf(m));
    assert forall|q1: PathV, q2: PathV|
        #[trigger] key_in(d2, q1) && #[trigger] key_in(d2, q2) && q1.len() < q2.len() && q1
            == q2.take(q1.len() as int) implies first_value(d2, q1) == Some(
        None::<Seq<char>>,
    ) by {
        lemma_dedup_key_in(all2, q1);
        lemma_dedup_key_in(all2, q2);
        lemma_dedup_value(all2, q1);
        lemma_key_in_concat(flat(m), flat(r), q1);
        lemma_key_in_concat(flat(m), flat(r), q2);
        lemma_value_of_last_concat(flat(m), flat(r), q1);
        lemma_value_of_last_some(flat(m), q1);
        lemma_value_of_last_some(flat(r), q1);
        lemma_value_of_last_some(flat(m), q2);
        lemma_value_of_last_some(flat(r), q2);
        lemma_flat_val(m, q1);
        lemma_flat_val(r, q1);
        lemma_flat_val(m, q2);
        lemma_flat_val(r, q2);
        lemma_gen_flat_val(m, q1);
        lemma_gen_flat_val(r, q1);
        lemma_gen_flat_val(m, q2);
        lemma_gen_flat_val(r, q2);
        lemma_merge_right_bias(e, r, m, q1);
        if first_value(d2, q1) != Some(None::<Seq<char>>) {
            assert(first_value(d2, q1) is Some) by {
                lemma_first_value_some(d2, q1);
            }
            if key_in(flat(r), q1) {
                if key_in(flat(r), q2) {
                    lemma_flat_keys_prefix_free(r, q1, q2);
                    assert(false);
                } else {
                    assert(key_in(flat(m), q2));
                    assert(get_at(m, q2) is Some);
                    lemma_get_at_strict_prefix(m, q2, q1.len() as int);
                    assert(file_at(m, q1) is None);
                    assert(file_at(r, q1) is Some);
                    assert(false);
                }
            } else {
                assert(key_in(flat(m), q1));
                assert(file_at(m, q1) is Some);
                if key_in(flat(m), q2) {
                    lemma_flat_keys_prefix_free(m, q1, q2);
                    assert(false);
                } else {
                    assert(key_in(flat(r), q2));
                    lemma_key_in_concat(flat(e), flat(r), q2);
                    lemma_dedup_key_in(all1, q2);
                    let w = choose|w: int| 0 <= w < d1.len() && (#[trigger] d1[w]).0 == q2;
                    assert(key_covers(d1, q2)) by {
                        assert(q2 =~= d1[w].0.take(q2.len() as int));
                    }
                    lemma_build_tree_reach(root, d1, q2);
                    assert(reach(m, q2));
                    lemma_get_at_strict_prefix(m, q2, q1.len() as int);
                    assert(file_at(m, q1) is None);
                    assert(false);
                }
            }
        }
    }
    assert(Seq::<FlatEntryV>::empty() + d2 =~= d2);
    assert(files_prefix_free(d2));
    assert(distinct_keys(Seq::<FlatEntryV>::empty() + d2));
    lemma_build_tree_succeeds_from(root, Seq::empty(), d2);
    assert(crate::merge::merge_model(m, r) is Some);
    let m2 = crate::merge::merge_model(m, r)->Some_0;
    assert(build_tree(Some(root), d2) == Some(m2));
    lemma_build_tree_file_at(root, d2, Seq::empty());
    assert(wf(m2));
    assert forall|q: PathV| #[trigger] file_at(m2, q) == file_at(m, q) by {
        lemma_remerge_reads(e, r, m, m2, q);
    }
    assert forall|q: PathV| #[trigger] reach(m2, q) == reach(m, q) by {
        lemma_build_tree_reach(root, d2, q);
        lemma_build_tree_reach(root, d1, q);
        assert(reach(root, q) <==> q.len() == 0) by {
            if q.len() > 0 {
                assert(assoc(Seq::<(Seq<char>, TreeV)>::empty(), q[0]) is None);
            }
        }
        if q.len() > 0 {
            if key_covers(d2, q) {
                let w = choose|w: int|
                    0 <= w < d2.len() && q.len() <= (#[trigger] d2[w]).0.len() && q
                        == d2[w].0.take(q.len() as int);
                let k2 = d2[w].0;
                assert(key_in(d2, k2));
                lemma_dedup_key_in(all2, k2);
                lemma_key_in_concat(flat(m), flat(r), k2);
                if key_in(flat(m), k2) {
                    lemma_value_of_last_some(flat(m), k2);
                    lemma_flat_val(m, k2);
                    lemma_gen_flat_val(m, k2);
                    assert(get_at(m, k2) is Some) by {
                        if k2.len() == 0 {
                        }
                    }
                    if q.len() < k2.len() {
                        lemma_get_at_strict_prefix(m, k2, q.len() as int);
                        assert(reach(m, q));
                    } else {
                        assert(q =~= k2);
                        assert(reach(m, q));
                    }
                } else {
                    assert(key_in(flat(r), k2));
                    lemma_key_in_concat(flat(e), flat(r), k2);
                    lemma_dedup_key_in(all1, k2);
                    let v = choose|v: int| 0 <= v < d1.len() && (#[trigger] d1[v]).0 == k2;
                    assert(key_covers(d1, q)) by {
                        assert(q == d1[v].0.take(q.len() as int));
                    }
                    assert(reach(m, q));
                }
            }
            if reach(m, q) {
                lemma_wf_get_at(m, q);
                let node = get_at(m, q)->Some_0;
                lemma_reach_has_leaf(m, q, node);
                let k = choose|k: PathV|
                    #[trigger] key_in(flat(m), k) && q.len() <= k.len() && q == k.take(
                        q.len() as int,
                    );
                lemma_key_in_concat(flat(m), flat(r), k);
                lemma_dedup_key_in(all2, k);
                let u = choose|u: int| 0 <= u < d2.len() && (#[trigger] d2[u]).0 == k;
                assert(key_covers(d2, q));
                assert(reach(m2, q));
            }
        }
    }
    lemma_tree_ext(m2, m);
}

} // verus!
