use vstd::prelude::*;
use crate::data::{json_of, to_json, DataValue};
use crate::text::{chars_to_string, match_at, string_to_chars, Text};

verus! {

#[verifier::external_type_specification]
#[verifier::external_body]
pub struct ExHandlebars<'a>(handlebars::Handlebars<'a>);

#[verifier::external_type_specification]
#[verifier::external_body]
pub struct ExRenderError(handlebars::RenderError);

#[verifier::external_type_specification]
#[verifier::external_body]
pub struct ExTemplateError(handlebars::TemplateError);

/// What the templating engine produces for a template rendered against a
/// data context, given as JSON text, with the named partials registered and
/// escaping disabled. The output is a function of these three alone: the
/// engine holds no other state and consults nothing else.
pub uninterp spec fn render_of(
    partials: Map<Seq<char>, Seq<char>>,
    template: Seq<char>,
    data_json: Seq<char>,
) -> Seq<char>;

/// Whether the engine succeeds in rendering a template against a data
/// context with the given partials. Like the output, success is a function
/// of these three alone.
pub uninterp spec fn render_ok(
    partials: Map<Seq<char>, Seq<char>>,
    template: Seq<char>,
    data_json: Seq<char>,
) -> bool;

/// Whether the engine accepts a fragment as a well-formed template.
pub uninterp spec fn partial_ok(content: Seq<char>) -> bool;

/// The characters the engine's grammar treats as insignificant between the
/// tokens of a tag opening.
pub open spec fn tag_filler(c: char) -> bool {
    c == ' ' || c == '\t' || c == '\n' || c == '\r' || c == '~' || c == '#'
}

/// The first position at or after `k` holding something other than filler.
pub open spec fn tag_scan(s: Seq<char>, k: int) -> Option<int>
    decreases s.len() + 1 - k,
{
    if k < 0 || k >= s.len() {
        None
    } else if tag_filler(s[k]) {
        tag_scan(s, k + 1)
    } else {
        Some(k)
    }
}

/// Whether a partial or decorator tag opens at `i`: a double brace followed,
/// after filler, by the partial marker or the decorator marker. This covers
/// every opening the engine's grammar accepts, and more.
pub open spec fn partial_tag_at(s: Seq<char>, i: int) -> bool {
    match_at(s, seq!['{', '{'], i) && match tag_scan(s, i + 2) {
        Some(k) => s[k] == '>' || s[k] == '*',
        None => false,
    }
}

/// Whether a decorator tag opens at `i`: as above with the decorator marker
/// alone. Inline partial definitions are decorators.
pub open spec fn inline_tag_at(s: Seq<char>, i: int) -> bool {
    match_at(s, seq!['{', '{'], i) && match tag_scan(s, i + 2) {
        Some(k) => s[k] == '*',
        None => false,
    }
}

/// A fragment that expands nothing further: it opens no partial and no
/// decorator tag anywhere.
pub open spec fn no_partial_tags(s: Seq<char>) -> bool {
    forall|i: int| !partial_tag_at(s, i)
}

/// A template that defines no inline partials.
pub open spec fn no_inline_partials(s: Seq<char>) -> bool {
    forall|i: int| !inline_tag_at(s, i)
}

/// Every registered fragment is free of partial and decorator tags. Under
/// this, rendering any template that defines no inline partials terminates:
/// each partial reference the template makes expands a fragment in which the
/// engine meets no further tag to expand.
pub open spec fn partials_wf(partials: Map<Seq<char>, Seq<char>>) -> bool {
    forall|n: Seq<char>| #[trigger] partials.contains_key(n) ==> no_partial_tags(partials[n])
}

proof fn lemma_tag_scan_bounds(s: Seq<char>, k: int)
    ensures
        tag_scan(s, k) is Some ==> {
            let j = tag_scan(s, k)->Some_0;
            k <= j < s.len() && !tag_filler(s[j])
        },
        tag_scan(s, k) is Some ==> forall|m: int|
            k <= m < tag_scan(s, k)->Some_0 ==> tag_filler(s[m]),
    decreases s.len() + 1 - k,
{
    if !(k < 0 || k >= s.len()) && tag_filler(s[k]) {
        lemma_tag_scan_bounds(s, k + 1);
    }
}

fn char_is_filler(c: char) -> (r: bool)
    ensures
        r == tag_filler(c),
{
    c == ' ' || c == '\t' || c == '\n' || c == '\r' || c == '~' || c == '#'
}

fn tag_scan_from(s: &Text, k: usize) -> (r: Option<usize>)
    ensures
        match r {
            Some(j) => tag_scan(s@, k as int) == Some(j as int),
            None => tag_scan(s@, k as int) is None,
        },
{
    let mut i: usize = k;
    while i < s.len()
        invariant
            k <= i,
            tag_scan(s@, k as int) == tag_scan(s@, i as int),
        decreases s@.len() - i,
    {
        if !char_is_filler(s[i]) {
            return Some(i);
        }
        i = i + 1;
    }
    None
}

/// Whether a tag of the scanned kind opens anywhere: the partial marker or,
/// with `star_only`, the decorator marker alone.
fn scan_for_tag(s: &Text, star_only: bool) -> (r: bool)
    ensures
        !star_only ==> r == !no_partial_tags(s@),
        star_only ==> r == !no_inline_partials(s@),
{
    let mut i: usize = 0;
    while i < s.len()
        invariant
            0 <= i <= s@.len(),
            s@.len() == s.len(),
            !star_only ==> forall|j: int| 0 <= j < i ==> !(#[trigger] partial_tag_at(s@, j)),
            star_only ==> forall|j: int| 0 <= j < i ==> !(#[trigger] inline_tag_at(s@, j)),
        decreases s@.len() - i,
    {
        let hit = if i + 1 < s.len() && s[i] == '{' && s[i + 1] == '{' {
            proof {
                assert(s@.subrange(i as int, i + 2) =~= seq!['{', '{']);
            }
            match tag_scan_from(s, i + 2) {
                Some(k) => {
                    proof {
                        lemma_tag_scan_bounds(s@, i + 2);
                    }
                    if star_only {
                        s[k] == '*'
                    } else {
                        s[k] == '>' || s[k] == '*'
                    }
                },
                None => false,
            }
        } else {
            proof {
                if match_at(s@, seq!['{', '{'], i as int) {
                    assert(s@.subrange(i as int, i + 2)[0] == s@[i as int]);
                    assert(s@.subrange(i as int, i + 2)[1] == s@[i + 1]);
                }
            }
            false
        };
        if hit {
            proof {
                if star_only {
                    assert(inline_tag_at(s@, i as int));
                } else {
                    assert(partial_tag_at(s@, i as int));
                }
            }
            return true;
        }
        i = i + 1;
    }
    proof {
        if !star_only && !no_partial_tags(s@) {
            let w = choose|w: int| #[trigger] partial_tag_at(s@, w);
            assert(0 <= w < s@.len());
            assert(false);
        }
        if star_only && !no_inline_partials(s@) {
            let w = choose|w: int| #[trigger] inline_tag_at(s@, w);
            assert(0 <= w < s@.len());
            assert(false);
        }
    }
    false
}

/// The templating engine, frozen before rendering begins: handlebars with
/// escaping disabled, together with the partials registered so far, modelled
/// as a map from partial name to fragment source. Only tag-free fragments
/// are ever registered, so every render call the engine accepts terminates.
pub struct RenderEngine {
    h: handlebars::Handlebars<'static>,
    partials: Ghost<Map<Seq<char>, Seq<char>>>,
}

/// Relies on handlebars::Handlebars::new: a fresh registry with nothing
/// registered.
#[verifier::external_body]
fn hb_new() -> handlebars::Handlebars<'static> {
    handlebars::Handlebars::new()
}

/// Relies on handlebars::Handlebars::register_escape_fn with
/// handlebars::no_escape: rendered expressions are substituted verbatim, not
/// HTML-escaped; the output is source text, not markup.
#[verifier::external_body]
fn hb_disable_escape(h: &mut handlebars::Handlebars<'static>) {
    h.register_escape_fn(handlebars::no_escape);
}

/// Relies on handlebars::Handlebars::register_partial: the fragment is
/// parsed and becomes available under the name exactly when it parses as a
/// template — a fact of the fragment text alone — overwriting any fragment
/// already registered under the same name; on a parse error nothing is
/// registered.
#[verifier::external_body]
fn hb_register_partial(
    h: &mut handlebars::Handlebars<'static>,
    name: &str,
    content: &str,
) -> (r: Result<(), handlebars::TemplateError>)
    ensures
        r is Ok <==> partial_ok(content@),
{
    h.register_partial(name, content)
}

impl RenderEngine {
    /// The partials registered so far, by name.
    pub closed spec fn partials(self) -> Map<Seq<char>, Seq<char>> {
        self.partials@
    }

    /// Every registered fragment is tag-free.
    pub open spec fn wf(self) -> bool {
        partials_wf(self.partials())
    }

    /// A fresh engine: no partials, escaping disabled.
    pub fn new() -> (e: RenderEngine)
        ensures
            e.partials() == Map::<Seq<char>, Seq<char>>::empty(),
            e.wf(),
    {
        let mut h = hb_new();
        hb_disable_escape(&mut h);
        RenderEngine { h, partials: Ghost(Map::empty()) }
    }

    /// Register one template fragment under a name; a later registration
    /// under the same name overwrites this one. A fragment is accepted
    /// exactly when it parses and opens no partial or decorator tag of its
    /// own: fragments are leaves, which keeps every later render call
    /// terminating.
    pub fn register_partial(&mut self, name: &Text, content: &Text) -> (r: Result<(), ()>)
        ensures
            r is Ok <==> partial_ok(content@) && no_partial_tags(content@),
            r is Ok ==> final(self).partials() == old(self).partials().insert(name@, content@),
            r is Err ==> final(self).partials() == old(self).partials(),
            old(self).wf() ==> final(self).wf(),
    {
        if scan_for_tag(content, false) {
            return Err(());
        }
        let ns = chars_to_string(name);
        let cs = chars_to_string(content);
        match hb_register_partial(&mut self.h, ns.as_str(), cs.as_str()) {
            Ok(_) => {
                let ghost updated = self.partials@.insert(name@, content@);
                self.partials = Ghost(updated);
                proof {
                    if partials_wf(old(self).partials@) {
                        assert forall|n: Seq<char>| #[trigger] updated.contains_key(n)
                            implies no_partial_tags(updated[n]) by {
                            if n != name@ {
                                assert(old(self).partials@.contains_key(n));
                            }
                        }
                    }
                }
                Ok(())
            },
            Err(_) => Err(()),
        }
    }

    /// Relies on handlebars::Handlebars::render_template and
    /// serde_json::from_str: the JSON text is parsed into a value, and the
    /// template is rendered against it using this engine's partials. Success
    /// and output are functions of the partials, the template text and the
    /// data alone. The call returns on every admitted input: registered
    /// fragments hold no tag that expands further, and a template without
    /// inline partial definitions can only reference those fragments, so
    /// expansion bottoms out.
    #[verifier::external_body]
    fn render_raw(&self, template: &str, data_json: &str) -> (r: Result<
        String,
        handlebars::RenderError,
    >)
        requires
            partials_wf(self.partials@),
            no_inline_partials(template@),
        ensures
            r is Ok <==> render_ok(self.partials@, template@, data_json@),
            r is Ok ==> r->Ok_0@ == render_of(self.partials@, template@, data_json@),
    {
        match serde_json::from_str::<serde_json::Value>(data_json) {
            Ok(value) => self.h.render_template(template, &value),
            Err(e) => Err(handlebars::RenderErrorReason::SerdeError(e).into()),
        }
    }

    /// Render one template against a data context. Succeeds exactly when the
    /// template defines no inline partials and the engine renders it; the
    /// result is then the engine's output for this engine's partials, the
    /// template text and the JSON form of the data.
    pub fn render_template(&self, template: &Text, data: &DataValue) -> (r: Result<Text, ()>)
        requires
            self.wf(),
        ensures
            r is Ok <==> no_inline_partials(template@) && render_ok(
                self.partials(),
                template@,
                json_of(data.view()),
            ),
            r is Ok ==> r->Ok_0@ == render_of(self.partials(), template@, json_of(data.view())),
    {
        if scan_for_tag(template, true) {
            return Err(());
        }
        let json = to_json(data);
        let ts = chars_to_string(template);
        let js = chars_to_string(&json);
        match self.render_raw(ts.as_str(), js.as_str()) {
            Ok(out) => Ok(string_to_chars(out.as_str())),
            Err(_) => Err(()),
        }
    }
}

} // verus!
