use vstd::prelude::*;
use crate::data::{data_with_field, json_of, with_field, DataV, DataValue};
use crate::directive::{parse_directive, spec_parse_directive, DirV, Directive};
use crate::engine::{no_inline_partials, no_partial_tags, partial_ok, render_of, render_ok, RenderEngine};
use crate::error::{ScaffoldError, ScaffoldResult};
use crate::file_tree::{
    dir_at, fentries_view, fentry_view, file_at, file_content, flat, flatten_file_tree, join_path,
    opt_text_view, spec_join, unflat, unflatten_file_tree, wf, FileTree, FlatEntryV, TreePath,
    TreeV,
};
use crate::text::{
    copy_text, ends_with, filter_nonempty, match_at, nonempty_pieces, push_text, replace_char,
    rfind, spec_ends_with, spec_rfind_below, spec_split, spec_split_path, split_path_text,
    split_text, string_to_chars, sub_text, Text,
};

verus! {

/// The characters that count as whitespace when a fragment is trimmed.
pub open spec fn is_ws(c: char) -> bool {
    let u = c as u32;
    (0x09 <= u && u <= 0x0D) || u == 0x20 || u == 0x85 || u == 0xA0 || u == 0x1680 || (0x2000 <= u
        && u <= 0x200A) || u == 0x2028 || u == 0x2029 || u == 0x202F || u == 0x205F || u == 0x3000
}

fn char_is_ws(c: char) -> (r: bool)
    ensures
        r == is_ws(c),
{
    let u = c as u32;
    (0x09 <= u && u <= 0x0D) || u == 0x20 || u == 0x85 || u == 0xA0 || u == 0x1680 || (0x2000 <= u
        && u <= 0x200A) || u == 0x2028 || u == 0x2029 || u == 0x202F || u == 0x205F || u == 0x3000
}

pub open spec fn spec_trim_start(s: Seq<char>) -> Seq<char>
    decreases s.len(),
{
    if s.len() > 0 && is_ws(s[0]) {
        spec_trim_start(s.drop_first())
    } else {
        s
    }
}

pub open spec fn spec_trim_end(s: Seq<char>) -> Seq<char>
    decreases s.len(),
{
    if s.len() > 0 && is_ws(s.last()) {
        spec_trim_end(s.drop_last())
    } else {
        s
    }
}

/// `s` with leading and trailing whitespace removed.
pub open spec fn spec_trim(s: Seq<char>) -> Seq<char> {
    spec_trim_end(spec_trim_start(s))
}

pub fn trim_text(s: &Text) -> (r: Text)
    ensures
        r@ == spec_trim(s@),
{
    let mut a: usize = 0;
    proof {
        assert(s@.skip(0) =~= s@);
    }
    while a < s.len() && char_is_ws(s[a])
        invariant
            0 <= a <= s@.len(),
            s@.len() == s.len(),
            spec_trim_start(s@) == spec_trim_start(s@.skip(a as int)),
        decreases s@.len() - a,
    {
        proof {
            assert(s@.skip(a as int)[0] == s@[a as int]);
            assert(s@.skip(a as int).drop_first() =~= s@.skip(a + 1));
        }
        a = a + 1;
    }
    proof {
        if a < s@.len() {
            assert(s@.skip(a as int)[0] == s@[a as int]);
        }
        assert(spec_trim_start(s@) == s@.skip(a as int));
    }
    let mut b: usize = s.len();
    proof {
        assert(s@.subrange(a as int, b as int) =~= s@.skip(a as int));
    }
    while b > a && char_is_ws(s[b - 1])
        invariant
            a <= b <= s@.len(),
            s@.len() == s.len(),
            spec_trim_end(s@.skip(a as int)) == spec_trim_end(s@.subrange(a as int, b as int)),
        decreases b,
    {
        proof {
            assert(s@.subrange(a as int, b as int).last() == s@[b - 1]);
            assert(s@.subrange(a as int, b as int).drop_last() =~= s@.subrange(a as int, b - 1));
        }
        b = b - 1;
    }
    proof {
        if b > a {
            assert(s@.subrange(a as int, b as int).last() == s@[b - 1]);
        }
        assert(spec_trim_end(s@.subrange(a as int, b as int)) == s@.subrange(a as int, b as int));
    }
    sub_text(s, a, b)
}

/// The template-language extension that marks a file as a template or a
/// fragment.
pub open spec fn hbs_ext() -> Seq<char> {
    ".hbs"@
}

/// Whether a flattened entry is a fragment file: a file whose final segment
/// carries the template extension after a non-empty stem.
pub open spec fn is_fragment(e: FlatEntryV) -> bool {
    e.1 is Some && e.0.len() > 0 && spec_ends_with(e.0.last(), hbs_ext()) && e.0.last().len()
        > hbs_ext().len()
}

/// The registry key of a fragment: its path joined, extension stripped.
pub open spec fn partial_key(p: Seq<Seq<char>>) -> Seq<char> {
    let j = spec_join(p);
    j.take(j.len() - hbs_ext().len())
}

/// The partial registry grown from `base` by walking the entries in order:
/// every fragment is registered under its key with its content trimmed, and
/// a later entry with the same key overwrites an earlier one.
pub open spec fn registered(base: Map<Seq<char>, Seq<char>>, entries: Seq<FlatEntryV>) -> Map<
    Seq<char>,
    Seq<char>,
>
    decreases entries.len(),
{
    if entries.len() == 0 {
        base
    } else {
        let m = registered(base, entries.drop_last());
        let e = entries.last();
        if is_fragment(e) {
            m.insert(partial_key(e.0), spec_trim(e.1->Some_0))
        } else {
            m
        }
    }
}

/// Whether a fragment is accepted into the registry: it parses as a
/// template, and it opens no partial or decorator tag of its own.
pub open spec fn fragment_ok(e: FlatEntryV) -> bool {
    partial_ok(spec_trim(e.1->Some_0)) && no_partial_tags(spec_trim(e.1->Some_0))
}

/// Whether every fragment among the entries is accepted.
pub open spec fn fragments_ok(entries: Seq<FlatEntryV>) -> bool {
    forall|i: int|
        0 <= i < entries.len() && is_fragment(#[trigger] entries[i]) ==> fragment_ok(entries[i])
}

/// Walk a template tree and register every fragment file found in it, later
/// entries overwriting earlier ones that normalize to the same key. The walk
/// succeeds exactly when every fragment is accepted; on an error, the
/// fragments walked before the offending one stay registered.
pub fn register_all_partials_in_dir(h: &mut RenderEngine, file_tree: &FileTree) -> (r:
    ScaffoldResult<()>)
    ensures
        old(h).wf() ==> final(h).wf(),
        r is Ok <==> fragments_ok(flat(file_tree.view())),
        r is Ok ==> final(h).partials() == registered(
            old(h).partials(),
            flat(file_tree.view()),
        ),
        r is Err ==> r->Err_0 is MalformedTemplate && exists|k: int|
            0 <= k <= flat(file_tree.view()).len() && final(h).partials() == registered(
                old(h).partials(),
                #[trigger] flat(file_tree.view()).take(k),
            ),
{
    let entries = flatten_file_tree(file_tree);
    let ghost fv = fentries_view(entries@);
    let hbs = string_to_chars(".hbs");
    let mut i: usize = 0;
    proof {
        assert(fv.take(0) =~= Seq::<FlatEntryV>::empty());
    }
    while i < entries.len()
        invariant
            0 <= i <= entries@.len(),
            entries@.len() == entries.len(),
            fv == fentries_view(entries@),
            fv.len() == entries@.len(),
            fv == flat(file_tree.view()),
            hbs@ == hbs_ext(),
            h.partials() == registered(old(h).partials(), fv.take(i as int)),
            old(h).wf() ==> h.wf(),
            forall|k: int| 0 <= k < i && is_fragment(#[trigger] fv[k]) ==> fragment_ok(fv[k]),
        decreases entries@.len() - i,
    {
        proof {
            assert(fv[i as int] == fentry_view(entries@[i as int]));
            assert(fv.take(i + 1).drop_last() =~= fv.take(i as int));
            assert(fv.take(i + 1).last() == fv[i as int]);
        }
        let is_frag = match &entries[i].1 {
            Some(_) => {
                let path = &entries[i].0;
                if path.len() > 0 {
                    let last = &path[path.len() - 1];
                    proof {
                        assert(path.deep_view()[path@.len() - 1] == path@[path@.len() - 1].deep_view());
                        assert(path@[path@.len() - 1].deep_view() =~= path@[path@.len() - 1]@);
                    }
                    ends_with(last, &hbs) && last.len() > hbs.len()
                } else {
                    false
                }
            },
            None => false,
        };
        if is_frag {
            let joined = join_path(&entries[i].0);
            proof {
                lemma_join_keeps_last(entries[i as int].0.deep_view());
                assert(joined@.len() >= fv[i as int].0.last().len());
            }
            let key = sub_text(&joined, 0, joined.len() - hbs.len());
            let content = match &entries[i].1 {
                Some(c) => trim_text(c),
                None => Vec::new(),
            };
            match h.register_partial(&key, &content) {
                Ok(_) => {
                    proof {
                        assert(key@ =~= partial_key(fv[i as int].0));
                        assert(fragment_ok(fv[i as int]));
                    }
                },
                Err(_) => {
                    proof {
                        assert(!fragment_ok(fv[i as int]));
                        assert(!fragments_ok(fv));
                    }
                    return Err(ScaffoldError::MalformedTemplate { message: key });
                },
            }
        }
        proof {
            assert(h.partials() == registered(old(h).partials(), fv.take(i + 1)));
        }
        i = i + 1;
    }
    proof {
        assert(fv.take(fv.len() as int) =~= fv);
        assert(fragments_ok(fv));
    }
    Ok(())
}

/// A joined path is at least as long as its final segment.
proof fn lemma_join_keeps_last(p: Seq<Seq<char>>)
    requires
        p.len() > 0,
    ensures
        spec_join(p).len() >= p.last().len(),
        p.len() > 1 ==> spec_join(p).len() > p.last().len(),
{
    if p.len() > 1 {
        lemma_join_len_nonneg(p.drop_last());
    }
}

proof fn lemma_join_len_nonneg(p: Seq<Seq<char>>)
    ensures
        spec_join(p).len() >= 0,
{
}

/// The directory whose fragments seed the registry before the main pass.
pub open spec fn field_types_dirname() -> Seq<char> {
    "field-types"@
}

/// A fresh engine for one render pass: escaping disabled, and every fragment
/// under the `field-types` directory of the template tree, when it exists,
/// registered as a partial. Succeeds exactly when every fragment there is
/// accepted.
pub fn build_handlebars(templates_dir: &FileTree) -> (r: ScaffoldResult<RenderEngine>)
    ensures
        r is Ok ==> r->Ok_0.wf(),
        r is Ok <==> (match dir_at(templates_dir.view(), seq![field_types_dirname()]) {
            Some(es) => fragments_ok(flat(TreeV::Dir(es))),
            None => true,
        }),
        r is Ok ==> r->Ok_0.partials() == (match dir_at(
            templates_dir.view(),
            seq![field_types_dirname()],
        ) {
            Some(es) => registered(
                Map::<Seq<char>, Seq<char>>::empty(),
                flat(TreeV::Dir(es)),
            ),
            None => Map::<Seq<char>, Seq<char>>::empty(),
        }),
        r is Err ==> r->Err_0 is MalformedTemplate,
{
    let mut engine = RenderEngine::new();
    let mut path: crate::file_tree::TreePath = Vec::new();
    path.push(string_to_chars("field-types"));
    proof {
        assert(path.deep_view() =~~= seq![field_types_dirname()]);
    }
    match crate::file_tree::dir_content(templates_dir, &path) {
        Ok(entries) => {
            let sub = FileTree::Directory { entries };
            match register_all_partials_in_dir(&mut engine, &sub) {
                Ok(_) => Ok(engine),
                Err(e) => Err(e),
            }
        },
        Err(_) => Ok(engine),
    }
}


/// The reserved context key exposing the prior content of a file being
/// regenerated.
pub open spec fn prev_key() -> Seq<char> {
    "previous_file_content"@
}

/// The context one file is rendered against: the caller's data, with the
/// prior content of the target file exposed under the reserved key exactly
/// when the target path already exists in the existing tree.
pub open spec fn render_ctx(existing: TreeV, target: Seq<Seq<char>>, data: DataV) -> DataV {
    match file_at(existing, target) {
        Some(prev) => with_field(data, prev_key(), DataV::Text(prev)),
        None => data,
    }
}

/// What rendering one file template produces: the engine's output for the
/// template against the target's render context.
pub open spec fn rendered_file(
    partials: Map<Seq<char>, Seq<char>>,
    existing: TreeV,
    target: Seq<Seq<char>>,
    template: Seq<char>,
    data: DataV,
) -> Seq<char> {
    render_of(partials, template, json_of(render_ctx(existing, target, data)))
}

/// Whether the engine renders a template against a data context: the
/// template defines no inline partials, and the engine succeeds on it.
pub open spec fn tpl_ok(
    partials: Map<Seq<char>, Seq<char>>,
    t: Seq<char>,
    dj: Seq<char>,
) -> bool {
    no_inline_partials(t) && render_ok(partials, t, dj)
}

/// Whether a file template renders against the context of its target path.
pub open spec fn ctx_ok(
    partials: Map<Seq<char>, Seq<char>>,
    existing: TreeV,
    target: Seq<Seq<char>>,
    template: Seq<char>,
    data: DataV,
) -> bool {
    tpl_ok(partials, template, json_of(render_ctx(existing, target, data)))
}

/// Render one file template aimed at `target_path`, exposing that file's
/// prior content from the existing tree under the reserved key when there is
/// one. Succeeds exactly when the engine renders the template against that
/// context; a failure names the offending target path.
pub fn render_template_file(
    h: &RenderEngine,
    existing_app_file_tree: &FileTree,
    target_path: &TreePath,
    template_str: &Text,
    data: &DataValue,
) -> (r: ScaffoldResult<Text>)
    requires
        data.view() is Object,
        h.wf(),
    ensures
        r is Ok <==> ctx_ok(
            h.partials(),
            existing_app_file_tree.view(),
            target_path.deep_view(),
            template_str@,
            data.view(),
        ),
        r is Ok ==> r->Ok_0@ == rendered_file(
            h.partials(),
            existing_app_file_tree.view(),
            target_path.deep_view(),
            template_str@,
            data.view(),
        ),
        r is Err ==> (r->Err_0 matches ScaffoldError::RenderError { path } && path@ == spec_join(
            target_path.deep_view(),
        )),
{
    let rendered = match file_content(existing_app_file_tree, target_path) {
        Ok(prev) => {
            let key = string_to_chars("previous_file_content");
            let augmented = data_with_field(data, &key, &DataValue::Text(prev));
            h.render_template(template_str, &augmented)
        },
        Err(_) => h.render_template(template_str, data),
    };
    match rendered {
        Ok(t) => Ok(t),
        Err(_) => Err(ScaffoldError::RenderError { path: join_path(target_path) }),
    }
}

/// The full path of one template entry as a single string: segments joined
/// with `/`, then the two filename-safe encodings decoded, an inverted
/// exclamation mark standing for a slash and a single quote for a double
/// quote.
pub open spec fn prepared_path(p: Seq<Seq<char>>) -> Seq<char> {
    spec_join(p).map_values(|c: char| if c == '\u{a1}' { '/' } else { c }).map_values(
        |c: char|
            if c == '\'' {
                '"'
            } else {
                c
            },
    )
}

pub fn prepare_path(p: &TreePath) -> (r: Text)
    ensures
        r@ == prepared_path(p.deep_view()),
{
    let joined = join_path(p);
    let decoded_slash = replace_char(&joined, '\u{a1}', '/');
    let decoded_quote = replace_char(&decoded_slash, '\'', '"');
    decoded_quote
}

/// Whether a path string's final segment carries the template extension.
pub open spec fn has_hbs_ext(pstr: Seq<char>) -> bool {
    let segs = spec_split_path(pstr);
    segs.len() > 0 && spec_ends_with(segs.last(), hbs_ext()) && segs.last().len() > hbs_ext().len()
}

fn path_has_hbs_ext(pstr: &Text) -> (r: bool)
    ensures
        r == has_hbs_ext(pstr@),
{
    let segs = split_path_text(pstr);
    let hbs = string_to_chars(".hbs");
    if segs.len() == 0 {
        proof {
            assert(segs.deep_view().len() == 0);
        }
        return false;
    }
    let last = &segs[segs.len() - 1];
    proof {
        assert(segs.deep_view()[segs@.len() - 1] == segs@[segs@.len() - 1].deep_view());
        assert(segs@[segs@.len() - 1].deep_view() =~= segs@[segs@.len() - 1]@);
    }
    ends_with(last, &hbs) && last.len() > hbs.len()
}

/// The string with the extension of its final segment removed: everything
/// from the last dot on, provided that dot is not the segment's first
/// character.
pub open spec fn strip_last_ext(s: Seq<char>) -> Seq<char> {
    let seg_start = match spec_rfind_below(s, seq!['/'], s.len() as int) {
        Some(k) => k + 1,
        None => 0,
    };
    match spec_rfind_below(s, seq!['.'], s.len() as int) {
        Some(p) => {
            if p > seg_start {
                s.take(p)
            } else {
                s
            }
        },
        None => s,
    }
}

fn strip_last_ext_text(s: &Text) -> (r: Text)
    ensures
        r@ == strip_last_ext(s@),
{
    let mut slash: Text = Vec::new();
    slash.push('/');
    let mut dot: Text = Vec::new();
    dot.push('.');
    proof {
        assert(slash@ =~= seq!['/']);
        assert(dot@ =~= seq!['.']);
    }
    let seg_start = match rfind(s, &slash) {
        Some(k) => {
            proof {
                lemma_rfind_bounds(s@, seq!['/'], s@.len() as int);
                assert(k < s.len());
            }
            k + 1
        },
        None => 0,
    };
    match rfind(s, &dot) {
        Some(p) => {
            proof {
                lemma_rfind_bounds(s@, seq!['.'], s@.len() as int);
            }
            if p > seg_start {
                sub_text(s, 0, p)
            } else {
                copy_text(s)
            }
        },
        None => copy_text(s),
    }
}

proof fn lemma_rfind_bounds(s: Seq<char>, pat: Seq<char>, upto: int)
    ensures
        spec_rfind_below(s, pat, upto) is Some ==> {
            let i = spec_rfind_below(s, pat, upto)->Some_0;
            0 <= i < upto && i + pat.len() <= s.len()
        },
    decreases upto,
{
    if upto > 0 && !match_at(s, pat, upto - 1) {
        lemma_rfind_bounds(s, pat, upto - 1);
    }
}


/// The private sentinel inserted between collection iterations so the
/// rendered text can be split back into one fragment per element. Content
/// that itself contains this token would split wrongly; that limitation is
/// accepted.
pub open spec fn delimiter_mark() -> Seq<char> {
    "\n----END_OF_FILE_DELIMITER----\n"@
}

/// The path suffix re-wrapped in its collection loop, with the template
/// extension inside, so that rendering it yields every concrete file name.
pub open spec fn each_wrapped_names(coll: Seq<char>, suffix: Seq<char>) -> Seq<char> {
    "{{#each "@ + coll + " }}"@ + suffix + ".hbs{{/each}}"@
}

/// The path suffix re-wrapped in its condition, extension inside: rendering
/// yields the file name when the condition holds and nothing otherwise.
pub open spec fn if_wrapped_names(cond: Seq<char>, suffix: Seq<char>) -> Seq<char> {
    "{{#if "@ + cond + " }}"@ + suffix + ".hbs{{/if}}"@
}

/// The file body re-wrapped in its collection loop with the sentinel after
/// each iteration.
pub open spec fn each_wrapped_body(coll: Seq<char>, contents: Seq<char>) -> Seq<char> {
    "{{#each "@ + coll + " }}\n"@ + contents + delimiter_mark() + "{{/each}}"@
}

/// The file body re-wrapped in its collection loop and condition, the
/// sentinel inside the condition so that filtered-out elements leave no
/// fragment.
pub open spec fn eachif_wrapped_body(coll: Seq<char>, cond: Seq<char>, contents: Seq<char>) -> Seq<
    char,
> {
    "{{#each "@ + coll + " }}{{#if "@ + cond + " }}\n"@ + contents + delimiter_mark()
        + "{{/if}}{{/each}}"@
}

/// The concrete file names a collection directive expands to, in iteration
/// order: the wrapped suffix is rendered once and split on the extension.
pub open spec fn each_names(
    partials: Map<Seq<char>, Seq<char>>,
    coll: Seq<char>,
    suffix: Seq<char>,
    data: DataV,
) -> Seq<Seq<char>> {
    nonempty_pieces(
        spec_split(
            render_of(partials, each_wrapped_names(coll, suffix), json_of(data)),
            hbs_ext(),
        ),
    )
}

/// The content fragments a collection directive expands to, in iteration
/// order: the wrapped body is rendered once, against the template path's own
/// render context, and split on the sentinel.
pub open spec fn each_pieces(
    partials: Map<Seq<char>, Seq<char>>,
    existing: TreeV,
    pstr: Seq<char>,
    wrapped_body: Seq<char>,
    data: DataV,
) -> Seq<Seq<char>> {
    spec_split(
        rendered_file(partials, existing, spec_split_path(pstr), wrapped_body, data),
        delimiter_mark(),
    )
}

/// File names paired with content fragments under a rendered prefix: element
/// i of the names gets element i of the fragments.
pub open spec fn paired_outputs(
    prefix_r: Seq<char>,
    names: Seq<Seq<char>>,
    pieces: Seq<Seq<char>>,
) -> Seq<(Seq<char>, Option<Seq<char>>)> {
    Seq::new(names.len(), |i: int| (prefix_r + seq!['/'] + names[i], Some(pieces[i])))
}

/// What one flattened template entry contributes to the output, as pairs of
/// path string and content: a directory marker has its path rendered; a
/// template file is expanded according to its directive; a file without the
/// template extension passes through with only its path rendered. `None`
/// exactly when a collection expansion yields fewer content fragments than
/// file names.
pub open spec fn entry_outputs(
    partials: Map<Seq<char>, Seq<char>>,
    existing: TreeV,
    pstr: Seq<char>,
    content: Option<Seq<char>>,
    data: DataV,
) -> Option<Seq<(Seq<char>, Option<Seq<char>>)>> {
    match content {
        None => Some(
            seq![(render_of(partials, pstr, json_of(data)), None::<Seq<char>>)],
        ),
        Some(c) => match spec_parse_directive(pstr) {
            DirV::Each { prefix, coll, suffix } => {
                let names = each_names(partials, coll, suffix, data);
                if names.len() == 0 {
                    Some(Seq::empty())
                } else {
                    let pieces = each_pieces(
                        partials,
                        existing,
                        pstr,
                        each_wrapped_body(coll, c),
                        data,
                    );
                    if pieces.len() >= names.len() {
                        Some(
                            paired_outputs(
                                render_of(partials, prefix, json_of(data)),
                                names,
                                pieces,
                            ),
                        )
                    } else {
                        None
                    }
                }
            },
            DirV::EachIf { prefix, coll, cond, suffix } => {
                let names = each_names(partials, coll, suffix, data);
                if names.len() == 0 {
                    Some(Seq::empty())
                } else {
                    let pieces = each_pieces(
                        partials,
                        existing,
                        pstr,
                        eachif_wrapped_body(coll, cond, c),
                        data,
                    );
                    if pieces.len() >= names.len() {
                        Some(
                            paired_outputs(
                                render_of(partials, prefix, json_of(data)),
                                names,
                                pieces,
                            ),
                        )
                    } else {
                        None
                    }
                }
            },
            DirV::If { prefix, cond, suffix } => {
                let rendered = render_of(partials, if_wrapped_names(cond, suffix), json_of(data));
                if spec_ends_with(rendered, hbs_ext()) {
                    let target = render_of(partials, prefix, json_of(data)) + seq!['/']
                        + rendered.take(rendered.len() - hbs_ext().len());
                    Some(
                        seq![
                            (
                                target,
                                Some(
                                    rendered_file(
                                        partials,
                                        existing,
                                        spec_split_path(target),
                                        c,
                                        data,
                                    ),
                                ),
                            ),
                        ],
                    )
                } else {
                    Some(Seq::empty())
                }
            },
            DirV::Plain => {
                if has_hbs_ext(pstr) {
                    let target = strip_last_ext(render_of(partials, pstr, json_of(data)));
                    Some(
                        seq![
                            (
                                target,
                                Some(
                                    rendered_file(
                                        partials,
                                        existing,
                                        spec_split_path(target),
                                        c,
                                        data,
                                    ),
                                ),
                            ),
                        ],
                    )
                } else {
                    Some(seq![(render_of(partials, pstr, json_of(data)), Some(c))])
                }
            },
        },
    }
}

/// Whether every render call one template entry makes succeeds: the paths
/// and wrapped templates it renders, and, where an output file is owed, its
/// body against the target's context.
pub open spec fn entry_render_ok(
    partials: Map<Seq<char>, Seq<char>>,
    existing: TreeV,
    pstr: Seq<char>,
    content: Option<Seq<char>>,
    data: DataV,
) -> bool {
    let dj = json_of(data);
    match content {
        None => tpl_ok(partials, pstr, dj),
        Some(c) => match spec_parse_directive(pstr) {
            DirV::Each { prefix, coll, suffix } => tpl_ok(partials, prefix, dj) && tpl_ok(
                partials,
                each_wrapped_names(coll, suffix),
                dj,
            ) && (each_names(partials, coll, suffix, data).len() > 0 ==> ctx_ok(
                partials,
                existing,
                spec_split_path(pstr),
                each_wrapped_body(coll, c),
                data,
            )),
            DirV::EachIf { prefix, coll, cond, suffix } => tpl_ok(partials, prefix, dj) && tpl_ok(
                partials,
                each_wrapped_names(coll, suffix),
                dj,
            ) && (each_names(partials, coll, suffix, data).len() > 0 ==> ctx_ok(
                partials,
                existing,
                spec_split_path(pstr),
                eachif_wrapped_body(coll, cond, c),
                data,
            )),
            DirV::If { prefix, cond, suffix } => {
                let rendered = render_of(partials, if_wrapped_names(cond, suffix), dj);
                tpl_ok(partials, prefix, dj) && tpl_ok(partials, if_wrapped_names(cond, suffix), dj)
                    && (spec_ends_with(rendered, hbs_ext()) ==> ctx_ok(
                    partials,
                    existing,
                    spec_split_path(
                        render_of(partials, prefix, dj) + seq!['/'] + rendered.take(
                            rendered.len() - hbs_ext().len(),
                        ),
                    ),
                    c,
                    data,
                ))
            },
            DirV::Plain => {
                if has_hbs_ext(pstr) {
                    tpl_ok(partials, pstr, dj) && ctx_ok(
                        partials,
                        existing,
                        spec_split_path(strip_last_ext(render_of(partials, pstr, dj))),
                        c,
                        data,
                    )
                } else {
                    tpl_ok(partials, pstr, dj)
                }
            },
        },
    }
}

/// Output pairs with their path strings cut into segments.
pub open spec fn split_outputs(outs: Seq<(Seq<char>, Option<Seq<char>>)>) -> Seq<FlatEntryV> {
    outs.map_values(|o: (Seq<char>, Option<Seq<char>>)| (spec_split_path(o.0), o.1))
}

/// Everything the template entries contribute, in traversal order; `None` as
/// soon as one entry misaligns.
pub open spec fn tree_outputs(
    partials: Map<Seq<char>, Seq<char>>,
    existing: TreeV,
    tpl: Seq<FlatEntryV>,
    data: DataV,
) -> Option<Seq<FlatEntryV>>
    decreases tpl.len(),
{
    if tpl.len() == 0 {
        Some(Seq::empty())
    } else {
        match tree_outputs(partials, existing, tpl.drop_last(), data) {
            None => None,
            Some(acc) => {
                let e = tpl.last();
                match entry_outputs(partials, existing, prepared_path(e.0), e.1, data) {
                    None => None,
                    Some(outs) => Some(acc + split_outputs(outs)),
                }
            },
        }
    }
}

/// The tree one render pass produces: every template entry expanded, later
/// outputs overriding earlier ones at the same path, the working map
/// rebuilt into a tree.
pub open spec fn rendered_tree_model(
    partials: Map<Seq<char>, Seq<char>>,
    existing: TreeV,
    templates: TreeV,
    data: DataV,
) -> Option<TreeV> {
    match tree_outputs(partials, existing, flat(templates), data) {
        None => None,
        Some(outs) => unflat(outs),
    }
}

fn push_lit(out: &mut Text, lit: &str)
    ensures
        final(out)@ == old(out)@ + lit@,
{
    let t = string_to_chars(lit);
    push_text(out, &t);
}


fn render_dir_entry(h: &RenderEngine, pstr: &Text, data: &DataValue) -> (r: ScaffoldResult<
    Vec<(TreePath, Option<Text>)>,
>)
    requires
        h.wf(),
    ensures
        r is Ok <==> tpl_ok(h.partials(), pstr@, json_of(data.view())),
        r is Ok ==> fentries_view(r->Ok_0@) == split_outputs(
            seq![(render_of(h.partials(), pstr@, json_of(data.view())), None::<Seq<char>>)],
        ),
        r is Err ==> r->Err_0 is RenderError,
{
    match h.render_template(pstr, data) {
        Ok(rendered) => {
            let ghost rv = rendered@;
            let segs = split_path_text(&rendered);
            let mut out: Vec<(TreePath, Option<Text>)> = Vec::new();
            out.push((segs, None));
            proof {
                assert(fentries_view(out@) =~= split_outputs(
                    seq![(rv, None::<Seq<char>>)],
                ));
            }
            Ok(out)
        },
        Err(_) => Err(ScaffoldError::RenderError { path: copy_text(pstr) }),
    }
}

fn render_plain_entry(
    h: &RenderEngine,
    existing: &FileTree,
    pstr: &Text,
    c: &Text,
    data: &DataValue,
) -> (r: ScaffoldResult<Vec<(TreePath, Option<Text>)>>)
    requires
        data.view() is Object,
        h.wf(),
        spec_parse_directive(pstr@) is Plain,
    ensures
        r is Ok <==> entry_render_ok(h.partials(), existing.view(), pstr@, Some(c@), data.view())
            && entry_outputs(h.partials(), existing.view(), pstr@, Some(c@), data.view()) is Some,
        r is Ok ==> fentries_view(r->Ok_0@) == split_outputs(
            entry_outputs(h.partials(), existing.view(), pstr@, Some(c@), data.view())->Some_0,
        ),
        r is Err ==> r->Err_0 is RenderError && !entry_render_ok(
            h.partials(),
            existing.view(),
            pstr@,
            Some(c@),
            data.view(),
        ),
{
    let ghost eo = entry_outputs(h.partials(), existing.view(), pstr@, Some(c@), data.view());
    if path_has_hbs_ext(pstr) {
        match h.render_template(pstr, data) {
            Ok(rendered_path) => {
                let target_str = strip_last_ext_text(&rendered_path);
                let segs = split_path_text(&target_str);
                match render_template_file(h, existing, &segs, c, data) {
                    Ok(content_r) => {
                        let ghost tv = target_str@;
                        let ghost cv = content_r@;
                        let mut out: Vec<(TreePath, Option<Text>)> = Vec::new();
                        out.push((segs, Some(content_r)));
                        proof {
                            assert(eo is Some);
                            assert(fentries_view(out@) =~= split_outputs(eo->Some_0));
                        }
                        Ok(out)
                    },
                    Err(e) => Err(e),
                }
            },
            Err(_) => Err(ScaffoldError::RenderError { path: copy_text(pstr) }),
        }
    } else {
        match h.render_template(pstr, data) {
            Ok(rendered_path) => {
                let ghost rv = rendered_path@;
                let segs = split_path_text(&rendered_path);
                let mut out: Vec<(TreePath, Option<Text>)> = Vec::new();
                out.push((segs, Some(copy_text(c))));
                proof {
                    assert(eo is Some);
                    assert(fentries_view(out@) =~= split_outputs(eo->Some_0));
                }
                Ok(out)
            },
            Err(_) => Err(ScaffoldError::RenderError { path: copy_text(pstr) }),
        }
    }
}


fn render_if_entry(
    h: &RenderEngine,
    existing: &FileTree,
    pstr: &Text,
    prefix: &Text,
    cond: &Text,
    suffix: &Text,
    c: &Text,
    data: &DataValue,
) -> (r: ScaffoldResult<Vec<(TreePath, Option<Text>)>>)
    requires
        data.view() is Object,
        h.wf(),
        spec_parse_directive(pstr@) == (DirV::If { prefix: prefix@, cond: cond@, suffix: suffix@ }),
    ensures
        r is Ok <==> entry_render_ok(h.partials(), existing.view(), pstr@, Some(c@), data.view())
            && entry_outputs(h.partials(), existing.view(), pstr@, Some(c@), data.view()) is Some,
        r is Ok ==> fentries_view(r->Ok_0@) == split_outputs(
            entry_outputs(h.partials(), existing.view(), pstr@, Some(c@), data.view())->Some_0,
        ),
        r is Err ==> r->Err_0 is RenderError && !entry_render_ok(
            h.partials(),
            existing.view(),
            pstr@,
            Some(c@),
            data.view(),
        ),
{
    let ghost eo = entry_outputs(h.partials(), existing.view(), pstr@, Some(c@), data.view());
    let prefix_r = match h.render_template(prefix, data) {
        Ok(t) => t,
        Err(_) => {
            return Err(ScaffoldError::RenderError { path: copy_text(pstr) });
        },
    };
    let mut wrapped: Text = Vec::new();
    push_lit(&mut wrapped, "{{#if ");
    push_text(&mut wrapped, cond);
    push_lit(&mut wrapped, " }}");
    push_text(&mut wrapped, suffix);
    push_lit(&mut wrapped, ".hbs{{/if}}");
    proof {
        assert(wrapped@ =~= if_wrapped_names(cond@, suffix@));
    }
    let rendered = match h.render_template(&wrapped, data) {
        Ok(t) => t,
        Err(_) => {
            return Err(ScaffoldError::RenderError { path: copy_text(pstr) });
        },
    };
    let hbs = string_to_chars(".hbs");
    if ends_with(&rendered, &hbs) {
        let name = sub_text(&rendered, 0, rendered.len() - hbs.len());
        let mut target = copy_text(&prefix_r);
        target.push('/');
        push_text(&mut target, &name);
        proof {
            assert(name@ =~= rendered@.take(rendered@.len() - hbs_ext().len()));
            assert(target@ =~= prefix_r@ + seq!['/'] + name@);
        }
        let segs = split_path_text(&target);
        match render_template_file(h, existing, &segs, c, data) {
            Ok(content_r) => {
                let mut out: Vec<(TreePath, Option<Text>)> = Vec::new();
                out.push((segs, Some(content_r)));
                proof {
                    assert(eo is Some);
                    assert(fentries_view(out@) =~= split_outputs(eo->Some_0));
                }
                Ok(out)
            },
            Err(e) => Err(e),
        }
    } else {
        let out: Vec<(TreePath, Option<Text>)> = Vec::new();
        proof {
            assert(eo is Some);
            assert(fentries_view(out@) =~= split_outputs(eo->Some_0));
        }
        Ok(out)
    }
}

#[verifier::rlimit(100)]
fn render_each_entry(
    h: &RenderEngine,
    existing: &FileTree,
    pstr: &Text,
    prefix: &Text,
    coll: &Text,
    cond: Option<&Text>,
    suffix: &Text,
    c: &Text,
    data: &DataValue,
) -> (r: ScaffoldResult<Vec<(TreePath, Option<Text>)>>)
    requires
        data.view() is Object,
        h.wf(),
        match cond {
            Some(d) => spec_parse_directive(pstr@) == (DirV::EachIf {
                prefix: prefix@,
                coll: coll@,
                cond: d@,
                suffix: suffix@,
            }),
            None => spec_parse_directive(pstr@) == (DirV::Each {
                prefix: prefix@,
                coll: coll@,
                suffix: suffix@,
            }),
        },
    ensures
        r is Ok <==> entry_render_ok(h.partials(), existing.view(), pstr@, Some(c@), data.view())
            && entry_outputs(h.partials(), existing.view(), pstr@, Some(c@), data.view()) is Some,
        r is Ok ==> fentries_view(r->Ok_0@) == split_outputs(
            entry_outputs(h.partials(), existing.view(), pstr@, Some(c@), data.view())->Some_0,
        ),
        r is Err ==> (match r->Err_0 {
            ScaffoldError::RenderError { .. } => !entry_render_ok(
                h.partials(),
                existing.view(),
                pstr@,
                Some(c@),
                data.view(),
            ),
            ScaffoldError::MalformedTemplate { .. } => entry_render_ok(
                h.partials(),
                existing.view(),
                pstr@,
                Some(c@),
                data.view(),
            ) && entry_outputs(
                h.partials(),
                existing.view(),
                pstr@,
                Some(c@),
                data.view(),
            ) is None,
            _ => false,
        }),
{
    let ghost eo = entry_outputs(h.partials(), existing.view(), pstr@, Some(c@), data.view());
    let prefix_r = match h.render_template(prefix, data) {
        Ok(t) => t,
        Err(_) => {
            return Err(ScaffoldError::RenderError { path: copy_text(pstr) });
        },
    };
    let mut wrapped_names: Text = Vec::new();
    push_lit(&mut wrapped_names, "{{#each ");
    push_text(&mut wrapped_names, coll);
    push_lit(&mut wrapped_names, " }}");
    push_text(&mut wrapped_names, suffix);
    push_lit(&mut wrapped_names, ".hbs{{/each}}");
    proof {
        assert(wrapped_names@ =~= each_wrapped_names(coll@, suffix@));
    }
    let all_names = match h.render_template(&wrapped_names, data) {
        Ok(t) => t,
        Err(_) => {
            return Err(ScaffoldError::RenderError { path: copy_text(pstr) });
        },
    };
    let hbs = string_to_chars(".hbs");
    proof {
        reveal_strlit(".hbs");
        assert(hbs@.len() > 0);
    }
    let names = filter_nonempty(split_text(&all_names, &hbs));
    let ghost namesv = each_names(h.partials(), coll@, suffix@, data.view());
    proof {
        assert(names.deep_view() == namesv);
    }
    if names.len() == 0 {
        let out: Vec<(TreePath, Option<Text>)> = Vec::new();
        proof {
            assert(names.deep_view().len() == 0);
            assert(eo is Some);
            assert(fentries_view(out@) =~= split_outputs(eo->Some_0));
        }
        return Ok(out);
    }
    let mut wrapped_body: Text = Vec::new();
    match cond {
        Some(d) => {
            push_lit(&mut wrapped_body, "{{#each ");
            push_text(&mut wrapped_body, coll);
            push_lit(&mut wrapped_body, " }}{{#if ");
            push_text(&mut wrapped_body, d);
            push_lit(&mut wrapped_body, " }}\n");
            push_text(&mut wrapped_body, c);
            push_lit(&mut wrapped_body, "\n----END_OF_FILE_DELIMITER----\n");
            push_lit(&mut wrapped_body, "{{/if}}{{/each}}");
            proof {
                assert(wrapped_body@ =~= eachif_wrapped_body(coll@, d@, c@));
            }
        },
        None => {
            push_lit(&mut wrapped_body, "{{#each ");
            push_text(&mut wrapped_body, coll);
            push_lit(&mut wrapped_body, " }}\n");
            push_text(&mut wrapped_body, c);
            push_lit(&mut wrapped_body, "\n----END_OF_FILE_DELIMITER----\n");
            push_lit(&mut wrapped_body, "{{/each}}");
            proof {
                assert(wrapped_body@ =~= each_wrapped_body(coll@, c@));
            }
        },
    }
    let tpl_segments = split_path_text(pstr);
    let all_contents = match render_template_file(h, existing, &tpl_segments, &wrapped_body, data) {
        Ok(t) => t,
        Err(e) => {
            return Err(e);
        },
    };
    let delim = string_to_chars("\n----END_OF_FILE_DELIMITER----\n");
    proof {
        assert(delim@ == delimiter_mark());
        reveal_strlit("\n----END_OF_FILE_DELIMITER----\n");
        assert(delim@.len() > 0);
    }
    let pieces = split_text(&all_contents, &delim);
    let ghost piecesv = pieces.deep_view();
    if pieces.len() < names.len() {
        proof {
            assert(eo is None);
        }
        return Err(ScaffoldError::MalformedTemplate { message: copy_text(pstr) });
    }
    let ghost outsv = paired_outputs(prefix_r@, namesv, piecesv);
    proof {
        assert(eo == Some(outsv));
    }
    let mut out: Vec<(TreePath, Option<Text>)> = Vec::new();
    let mut i: usize = 0;
    proof {
        assert(fentries_view(out@) =~= split_outputs(outsv).take(0));
    }
    while i < names.len()
        invariant
            0 <= i <= names@.len(),
            names@.len() == names.len(),
            names.deep_view() == namesv,
            namesv.len() == names@.len(),
            pieces@.len() == pieces.len(),
            pieces.deep_view() == piecesv,
            piecesv.len() == pieces@.len(),
            namesv.len() <= piecesv.len(),
            outsv == paired_outputs(prefix_r@, namesv, piecesv),
            outsv.len() == namesv.len(),
            fentries_view(out@) == split_outputs(outsv).take(i as int),
        decreases names@.len() - i,
    {
        proof {
            assert(names@[i as int].deep_view() =~= names@[i as int]@);
            assert(names.deep_view()[i as int] == names@[i as int].deep_view());
            assert(pieces@[i as int].deep_view() =~= pieces@[i as int]@);
            assert(pieces.deep_view()[i as int] == pieces@[i as int].deep_view());
        }
        let mut target = copy_text(&prefix_r);
        target.push('/');
        push_text(&mut target, &names[i]);
        proof {
            assert(target@ =~= prefix_r@ + seq!['/'] + namesv[i as int]);
        }
        let segs = split_path_text(&target);
        let ghost prev = fentries_view(out@);
        out.push((segs, Some(copy_text(&pieces[i]))));
        proof {
            assert(fentries_view(out@) =~= prev.push(
                (spec_split_path(outsv[i as int].0), outsv[i as int].1),
            ));
            assert(fentries_view(out@) =~= split_outputs(outsv).take(i + 1));
        }
        i = i + 1;
    }
    proof {
        assert(split_outputs(outsv).take(outsv.len() as int) =~= split_outputs(outsv));
    }
    Ok(out)
}


fn render_one_entry(
    h: &RenderEngine,
    existing: &FileTree,
    pstr: &Text,
    content: &Option<Text>,
    data: &DataValue,
) -> (r: ScaffoldResult<Vec<(TreePath, Option<Text>)>>)
    requires
        data.view() is Object,
        h.wf(),
    ensures
        r is Ok <==> entry_render_ok(
            h.partials(),
            existing.view(),
            pstr@,
            opt_text_view(*content),
            data.view(),
        ) && entry_outputs(
            h.partials(),
            existing.view(),
            pstr@,
            opt_text_view(*content),
            data.view(),
        ) is Some,
        r is Ok ==> fentries_view(r->Ok_0@) == split_outputs(
            entry_outputs(
                h.partials(),
                existing.view(),
                pstr@,
                opt_text_view(*content),
                data.view(),
            )->Some_0,
        ),
        r is Err ==> (match r->Err_0 {
            ScaffoldError::RenderError { .. } => !entry_render_ok(
                h.partials(),
                existing.view(),
                pstr@,
                opt_text_view(*content),
                data.view(),
            ),
            ScaffoldError::MalformedTemplate { .. } => entry_render_ok(
                h.partials(),
                existing.view(),
                pstr@,
                opt_text_view(*content),
                data.view(),
            ) && entry_outputs(
                h.partials(),
                existing.view(),
                pstr@,
                opt_text_view(*content),
                data.view(),
            ) is None,
            _ => false,
        }),
{
    match content {
        None => render_dir_entry(h, pstr, data),
        Some(c) => {
            match parse_directive(pstr) {
                Directive::Plain => render_plain_entry(h, existing, pstr, c, data),
                Directive::If { prefix, cond, suffix } => render_if_entry(
                    h,
                    existing,
                    pstr,
                    &prefix,
                    &cond,
                    &suffix,
                    c,
                    data,
                ),
                Directive::Each { prefix, coll, suffix } => render_each_entry(
                    h,
                    existing,
                    pstr,
                    &prefix,
                    &coll,
                    None,
                    &suffix,
                    c,
                    data,
                ),
                Directive::EachIf { prefix, coll, cond, suffix } => render_each_entry(
                    h,
                    existing,
                    pstr,
                    &prefix,
                    &coll,
                    Some(&cond),
                    &suffix,
                    c,
                    data,
                ),
            }
        },
    }
}

/// Whether every render call of every template entry succeeds.
pub open spec fn tree_render_ok(
    partials: Map<Seq<char>, Seq<char>>,
    existing: TreeV,
    entries: Seq<FlatEntryV>,
    data: DataV,
) -> bool {
    forall|i: int|
        0 <= i < entries.len() ==> entry_render_ok(
            partials,
            existing,
            prepared_path((#[trigger] entries[i]).0),
            entries[i].1,
            data,
        )
}

/// One misaligned entry spoils the whole walk.
proof fn lemma_tree_outputs_none(
    partials: Map<Seq<char>, Seq<char>>,
    existing: TreeV,
    entries: Seq<FlatEntryV>,
    data: DataV,
    i: int,
)
    requires
        0 <= i < entries.len(),
        entry_outputs(partials, existing, prepared_path(entries[i].0), entries[i].1, data)
            is None,
    ensures
        tree_outputs(partials, existing, entries, data) is None,
    decreases entries.len(),
{
    assert(entries.last() == entries[entries.len() - 1]);
    if i < entries.len() - 1 {
        assert(entries.drop_last()[i] == entries[i]);
        lemma_tree_outputs_none(partials, existing, entries.drop_last(), data, i);
    }
}

/// Walk the flattened template tree, expand every entry against the data
/// context, and rebuild the outputs into a tree. A later output overrides an
/// earlier one aimed at the same path; a path that would be both file and
/// directory is a conflict. The walk succeeds exactly when every entry's
/// render calls succeed, every collection stays aligned, and the assembled
/// outputs rebuild without conflict; the error variant says which of the
/// three failed.
pub fn render_template_file_tree(
    existing_app_file_tree: &FileTree,
    h: &RenderEngine,
    templates_file_tree: &FileTree,
    data: &DataValue,
) -> (r: ScaffoldResult<FileTree>)
    requires
        data.view() is Object,
        h.wf(),
    ensures
        r is Ok <==> tree_render_ok(
            h.partials(),
            existing_app_file_tree.view(),
            flat(templates_file_tree.view()),
            data.view(),
        ) && tree_outputs(
            h.partials(),
            existing_app_file_tree.view(),
            flat(templates_file_tree.view()),
            data.view(),
        ) is Some && unflat(
            tree_outputs(
                h.partials(),
                existing_app_file_tree.view(),
                flat(templates_file_tree.view()),
                data.view(),
            )->Some_0,
        ) is Some,
        r is Ok ==> rendered_tree_model(
            h.partials(),
            existing_app_file_tree.view(),
            templates_file_tree.view(),
            data.view(),
        ) == Some(r->Ok_0.view()) && wf(r->Ok_0.view()),
        r is Err ==> (match r->Err_0 {
            ScaffoldError::RenderError { .. } => !tree_render_ok(
                h.partials(),
                existing_app_file_tree.view(),
                flat(templates_file_tree.view()),
                data.view(),
            ),
            ScaffoldError::MalformedTemplate { .. } => tree_outputs(
                h.partials(),
                existing_app_file_tree.view(),
                flat(templates_file_tree.view()),
                data.view(),
            ) is None,
            ScaffoldError::TreeConflict { .. } => tree_render_ok(
                h.partials(),
                existing_app_file_tree.view(),
                flat(templates_file_tree.view()),
                data.view(),
            ) && tree_outputs(
                h.partials(),
                existing_app_file_tree.view(),
                flat(templates_file_tree.view()),
                data.view(),
            ) is Some && unflat(
                tree_outputs(
                    h.partials(),
                    existing_app_file_tree.view(),
                    flat(templates_file_tree.view()),
                    data.view(),
                )->Some_0,
            ) is None,
            _ => false,
        }),
{
    let flattened = flatten_file_tree(templates_file_tree);
    let ghost fv = fentries_view(flattened@);
    let ghost pv = h.partials();
    let ghost ev = existing_app_file_tree.view();
    let ghost dv = data.view();
    let mut working: Vec<(TreePath, Option<Text>)> = Vec::new();
    let mut i: usize = 0;
    proof {
        assert(fv.take(0) =~= Seq::<FlatEntryV>::empty());
        assert(fentries_view(working@) =~= Seq::<FlatEntryV>::empty());
    }
    while i < flattened.len()
        invariant
            0 <= i <= flattened@.len(),
            flattened@.len() == flattened.len(),
            fv == fentries_view(flattened@),
            fv.len() == flattened@.len(),
            fv == flat(templates_file_tree.view()),
            pv == h.partials(),
            h.wf(),
            ev == existing_app_file_tree.view(),
            dv == data.view(),
            dv is Object,
            tree_outputs(pv, ev, fv.take(i as int), dv) == Some(fentries_view(working@)),
            forall|k: int|
                0 <= k < i ==> entry_render_ok(
                    pv,
                    ev,
                    prepared_path((#[trigger] fv[k]).0),
                    fv[k].1,
                    dv,
                ),
        decreases flattened@.len() - i,
    {
        proof {
            assert(fv[i as int] == fentry_view(flattened@[i as int]));
        }
        let pstr = prepare_path(&flattened[i].0);
        let mut outs = match render_one_entry(h, existing_app_file_tree, &pstr, &flattened[i].1, data) {
            Ok(v) => v,
            Err(e) => {
                proof {
                    match e {
                        ScaffoldError::RenderError { .. } => {
                            assert(!entry_render_ok(pv, ev, prepared_path(fv[i as int].0), fv[i as int].1, dv));
                            assert(!tree_render_ok(pv, ev, fv, dv));
                        },
                        ScaffoldError::MalformedTemplate { .. } => {
                            lemma_tree_outputs_none(pv, ev, fv, dv, i as int);
                        },
                        _ => {
                            assert(false);
                        },
                    }
                }
                return Err(e);
            },
        };
        let ghost outs_v = fentries_view(outs@);
        let ghost prev_v = fentries_view(working@);
        working.append(&mut outs);
        proof {
            assert(fentries_view(working@) =~= prev_v + outs_v);
            assert(fv.take(i + 1).drop_last() =~= fv.take(i as int));
            assert(fv.take(i + 1).last() == fv[i as int]);
            assert(tree_outputs(pv, ev, fv.take(i + 1), dv) == Some(fentries_view(working@)));
        }
        i = i + 1;
    }
    proof {
        assert(fv.take(fv.len() as int) =~= fv);
    }
    unflatten_file_tree(&working)
}

/// One full render pass merged into the existing tree: render every template
/// against the data, then take the right-biased union with what was already
/// there, so that nothing untouched by this pass is lost. Succeeds exactly
/// when the render pass does and the union is conflict-free.
pub fn render_template_file_tree_and_merge_with_existing(
    app_file_tree: FileTree,
    h: &RenderEngine,
    template_file_tree: &FileTree,
    data: &DataValue,
) -> (r: ScaffoldResult<FileTree>)
    requires
        data.view() is Object,
        h.wf(),
    ensures
        r is Ok <==> tree_render_ok(
            h.partials(),
            app_file_tree.view(),
            flat(template_file_tree.view()),
            data.view(),
        ) && rendered_tree_model(
            h.partials(),
            app_file_tree.view(),
            template_file_tree.view(),
            data.view(),
        ) is Some && crate::merge::merge_model(
            app_file_tree.view(),
            rendered_tree_model(
                h.partials(),
                app_file_tree.view(),
                template_file_tree.view(),
                data.view(),
            )->Some_0,
        ) is Some,
        r is Ok ==> crate::merge::merge_model(
            app_file_tree.view(),
            rendered_tree_model(
                h.partials(),
                app_file_tree.view(),
                template_file_tree.view(),
                data.view(),
            )->Some_0,
        ) == Some(r->Ok_0.view()) && wf(r->Ok_0.view()),
        r is Err ==> (match r->Err_0 {
            ScaffoldError::RenderError { .. } => !tree_render_ok(
                h.partials(),
                app_file_tree.view(),
                flat(template_file_tree.view()),
                data.view(),
            ),
            ScaffoldError::MalformedTemplate { .. } => tree_outputs(
                h.partials(),
                app_file_tree.view(),
                flat(template_file_tree.view()),
                data.view(),
            ) is None,
            ScaffoldError::TreeConflict { .. } => tree_render_ok(
                h.partials(),
                app_file_tree.view(),
                flat(template_file_tree.view()),
                data.view(),
            ) && tree_outputs(
                h.partials(),
                app_file_tree.view(),
                flat(template_file_tree.view()),
                data.view(),
            ) is Some && (rendered_tree_model(
                h.partials(),
                app_file_tree.view(),
                template_file_tree.view(),
                data.view(),
            ) is None || crate::merge::merge_model(
                app_file_tree.view(),
                rendered_tree_model(
                    h.partials(),
                    app_file_tree.view(),
                    template_file_tree.view(),
                    data.view(),
                )->Some_0,
            ) is None),
            _ => false,
        }),
{
    let rendered = match render_template_file_tree(&app_file_tree, h, template_file_tree, data) {
        Ok(t) => t,
        Err(e) => {
            return Err(e);
        },
    };
    crate::merge::merge_file_trees(&app_file_tree, &rendered)
}

/// What one scaffolding operation hands back: the new tree, and an optional
/// message a template produced for the caller to show.
pub struct ScaffoldedTemplate {
    pub file_tree: FileTree,
    pub next_instructions: Option<String>,
}

/// The directory all named templates live under.
pub open spec fn templates_dirname() -> Seq<char> {
    ".templates"@
}

/// The path of the templates directory.
pub fn templates_path() -> (r: TreePath)
    ensures
        r.deep_view() == seq![templates_dirname()],
        r@.len() == 1,
{
    let mut p: TreePath = Vec::new();
    p.push(string_to_chars(".templates"));
    proof {
        assert(p.deep_view() =~~= seq![templates_dirname()]);
    }
    p
}

/// The names of everything under the templates directory, files included;
/// empty when the directory is missing.
pub fn existing_templates_names(file_tree: &FileTree) -> (r: Vec<Text>)
    ensures
        r.deep_view() == (match dir_at(file_tree.view(), seq![templates_dirname()]) {
            Some(es) => Seq::new(es.len(), |i: int| es[i].0),
            None => Seq::<Seq<char>>::empty(),
        }),
{
    let tp = templates_path();
    match crate::file_tree::dir_content(file_tree, &tp) {
        Ok(entries) => {
            let ghost es = dir_at(file_tree.view(), seq![templates_dirname()])->Some_0;
            proof {
                crate::file_tree::lemma_entries_view(entries@);
            }
            let mut out: Vec<Text> = Vec::new();
            let mut i: usize = 0;
            while i < entries.len()
                invariant
                    0 <= i <= entries@.len(),
                    entries@.len() == entries.len(),
                    es == crate::file_tree::entries_view(entries@),
                    es.len() == entries@.len(),
                    forall|k: int|
                        0 <= k < entries@.len() ==> #[trigger] crate::file_tree::entries_view(
                            entries@,
                        )[k] == (entries@[k].0@, entries@[k].1.view()),
                    out@.len() == i,
                    forall|k: int| 0 <= k < i ==> #[trigger] out@[k]@ == es[k].0,
                decreases entries@.len() - i,
            {
                out.push(copy_text(&entries[i].0));
                i = i + 1;
            }
            proof {
                assert(out.deep_view() =~~= Seq::new(es.len(), |i: int| es[i].0));
            }
            out
        },
        Err(_) => {
            let out: Vec<Text> = Vec::new();
            proof {
                assert(out.deep_view() =~~= Seq::<Seq<char>>::empty());
            }
            out
        },
    }
}


/// The names bound to directory subtrees, in entry order.
pub open spec fn dir_names(es: Seq<(Seq<char>, TreeV)>) -> Seq<Seq<char>>
    decreases es.len(),
{
    if es.len() == 0 {
        Seq::empty()
    } else {
        let rest = dir_names(es.drop_first());
        if es[0].1 is Dir {
            seq![es[0].0] + rest
        } else {
            rest
        }
    }
}

/// The names of the template directories under the templates directory;
/// entries that are files are not templates. Missing templates directory:
/// `NoTemplatesFound`.
pub fn template_names(file_tree: &FileTree) -> (r: ScaffoldResult<Vec<Text>>)
    ensures
        match r {
            Ok(names) => dir_at(file_tree.view(), seq![templates_dirname()]) is Some
                && names.deep_view() == dir_names(
                dir_at(file_tree.view(), seq![templates_dirname()])->Some_0,
            ),
            Err(e) => dir_at(file_tree.view(), seq![templates_dirname()]) is None
                && e is NoTemplatesFound,
        },
{
    let tp = templates_path();
    match crate::file_tree::dir_content(file_tree, &tp) {
        Ok(entries) => {
            let ghost es = crate::file_tree::entries_view(entries@);
            let mut out: Vec<Text> = Vec::new();
            proof {
                crate::file_tree::lemma_entries_view(entries@);
                assert(es.skip(0) =~= es);
                assert(out.deep_view() =~~= Seq::<Seq<char>>::empty());
            }
            let mut i: usize = 0;
            while i < entries.len()
                invariant
                    0 <= i <= entries@.len(),
                    entries@.len() == entries.len(),
                    es == crate::file_tree::entries_view(entries@),
                    es.len() == entries@.len(),
                    forall|k: int|
                        0 <= k < entries@.len() ==> #[trigger] es[k] == (
                            entries@[k].0@,
                            entries@[k].1.view(),
                        ),
                    dir_names(es) == out.deep_view() + dir_names(es.skip(i as int)),
                decreases entries@.len() - i,
            {
                proof {
                    assert(es.skip(i as int)[0] == es[i as int]);
                    assert(es.skip(i as int).drop_first() =~= es.skip(i + 1));
                }
                let is_dir = match &entries[i].1 {
                    FileTree::Directory { .. } => true,
                    FileTree::File { .. } => false,
                };
                if is_dir {
                    let ghost prev = out.deep_view();
                    out.push(copy_text(&entries[i].0));
                    proof {
                        assert(out.deep_view() =~~= prev + seq![es[i as int].0]);
                        assert((prev + seq![es[i as int].0]) + dir_names(es.skip(i + 1)) =~= prev
                            + (seq![es[i as int].0] + dir_names(es.skip(i + 1))));
                    }
                }
                i = i + 1;
            }
            proof {
                assert(es.skip(es.len() as int).len() == 0);
                assert(out.deep_view() + dir_names(es.skip(es.len() as int)) =~= out.deep_view());
            }
            Ok(out)
        },
        Err(_) => Err(ScaffoldError::NoTemplatesFound),
    }
}

/// Whether `t` is one of the listed names.
pub open spec fn name_listed(names: Seq<Seq<char>>, t: Seq<char>) -> bool {
    exists|k: int| 0 <= k < names.len() && names[k] == t
}

/// Settle which template to use, given the available names and an optional
/// request: no names is an error; a requested name must be listed; with no
/// request, a single name is taken and several names are left open for the
/// caller to put to its user.
pub fn resolve_template(templates: &Vec<Text>, template: &Option<Text>) -> (r: ScaffoldResult<
    Option<Text>,
>)
    ensures
        match r {
            Ok(chosen) => match chosen {
                Some(name) => templates@.len() > 0 && match template {
                    Some(t) => name@ == t@ && name_listed(templates.deep_view(), t@),
                    None => templates@.len() == 1 && name@ == templates.deep_view()[0],
                },
                None => template is None && templates@.len() > 1,
            },
            Err(e) => match template {
                Some(t) => (templates@.len() == 0 && e is NoTemplatesFound) || (templates@.len()
                    > 0 && !name_listed(templates.deep_view(), t@) && (e matches
                    ScaffoldError::TemplateNotFound { name } && name@ == t@)),
                None => templates@.len() == 0 && e is NoTemplatesFound,
            },
        },
{
    if templates.len() == 0 {
        return Err(ScaffoldError::NoTemplatesFound);
    }
    match template {
        Some(t) => {
            let ghost tv = templates.deep_view();
            let mut k: usize = 0;
            while k < templates.len()
                invariant
                    0 <= k <= templates@.len(),
                    templates@.len() == templates.len(),
                    tv == templates.deep_view(),
                    tv.len() == templates@.len(),
                    match template {
                        Some(tt) => tt@ == t@,
                        None => false,
                    },
                    forall|m: int| 0 <= m < k ==> #[trigger] tv[m] != t@,
                decreases templates@.len() - k,
            {
                proof {
                    assert(tv[k as int] == templates@[k as int].deep_view());
                    assert(templates@[k as int].deep_view() =~= templates@[k as int]@);
                }
                if crate::text::chars_eq(&templates[k], t) {
                    proof {
                        assert((k as int) < tv.len() && tv[k as int] == t@);
                        assert(name_listed(tv, t@));
                    }
                    return Ok(Some(copy_text(t)));
                }
                k = k + 1;
            }
            Err(ScaffoldError::TemplateNotFound { name: copy_text(t) })
        },
        None => {
            if templates.len() == 1 {
                proof {
                    assert(templates.deep_view()[0] == templates@[0].deep_view());
                    assert(templates@[0].deep_view() =~= templates@[0]@);
                }
                Ok(Some(copy_text(&templates[0])))
            } else {
                Ok(None)
            }
        },
    }
}

/// The subtree of the named template under the templates directory.
pub fn template_file_tree(file_tree: &FileTree, name: &Text) -> (r: ScaffoldResult<FileTree>)
    ensures
        match r {
            Ok(t) => dir_at(file_tree.view(), seq![templates_dirname(), name@]) is Some && t.view()
                == TreeV::Dir(dir_at(file_tree.view(), seq![templates_dirname(), name@])->Some_0),
            Err(e) => dir_at(file_tree.view(), seq![templates_dirname(), name@]) is None
                && e is PathNotFound,
        },
{
    let mut p = templates_path();
    let ghost p0 = p.deep_view();
    let ghost pv0 = p@;
    p.push(copy_text(name));
    proof {
        assert(p@.len() == 2);
        assert(p@[0] == pv0[0]);
        assert(p.deep_view()[0] == p@[0].deep_view());
        assert(p0[0] == pv0[0].deep_view());
        assert(p.deep_view()[1] == p@[1].deep_view());
        assert(p@[1].deep_view() =~= p@[1]@);
        assert(p.deep_view() =~~= seq![templates_dirname(), name@]);
    }
    match crate::file_tree::dir_content(file_tree, &p) {
        Ok(entries) => Ok(FileTree::Directory { entries }),
        Err(e) => Err(e),
    }
}

} // verus!
