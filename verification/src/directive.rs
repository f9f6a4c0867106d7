use vstd::prelude::*;
use crate::text::{
    ends_with, match_at, spec_ends_with, starts_with_at, string_to_chars, sub_text, Text,
};

verus! {

/// The control-flow classification of one template path: plain, conditional,
/// collection-expanding, or collection-and-conditional combined. Only the
/// final template-extension segment of a path can carry a directive.
pub enum Directive {
    Plain,
    If { prefix: Text, cond: Text, suffix: Text },
    Each { prefix: Text, coll: Text, suffix: Text },
    EachIf { prefix: Text, coll: Text, cond: Text, suffix: Text },
}

/// The mathematical shape of a `Directive`.
pub enum DirV {
    Plain,
    If { prefix: Seq<char>, cond: Seq<char>, suffix: Seq<char> },
    Each { prefix: Seq<char>, coll: Seq<char>, suffix: Seq<char> },
    EachIf { prefix: Seq<char>, coll: Seq<char>, cond: Seq<char>, suffix: Seq<char> },
}

impl Directive {
    pub open spec fn view(self) -> DirV {
        match self {
            Directive::Plain => DirV::Plain,
            Directive::If { prefix, cond, suffix } => DirV::If {
                prefix: prefix@,
                cond: cond@,
                suffix: suffix@,
            },
            Directive::Each { prefix, coll, suffix } => DirV::Each {
                prefix: prefix@,
                coll: coll@,
                suffix: suffix@,
            },
            Directive::EachIf { prefix, coll, cond, suffix } => DirV::EachIf {
                prefix: prefix@,
                coll: coll@,
                cond: cond@,
                suffix: suffix@,
            },
        }
    }
}

pub open spec fn each_open_mark() -> Seq<char> {
    "/{{#each "@
}

pub open spec fn each_close_mark() -> Seq<char> {
    "{{/each}}.hbs"@
}

pub open spec fn if_open_mark() -> Seq<char> {
    "/{{#if "@
}

pub open spec fn if_close_mark() -> Seq<char> {
    "{{/if}}.hbs"@
}

pub open spec fn if_inner_open_mark() -> Seq<char> {
    "{{#if "@
}

pub open spec fn if_end_mark() -> Seq<char> {
    "{{/if}}"@
}

/// Index of the first brace character at or after `from`.
pub open spec fn first_brace(s: Seq<char>, from: int) -> Option<int>
    decreases s.len() + 1 - from,
{
    if from < 0 || from >= s.len() {
        None
    } else if s[from] == '{' || s[from] == '}' {
        Some(from)
    } else {
        first_brace(s, from + 1)
    }
}

/// A block opening: the marker `open` at `i`, then a brace-free expression,
/// then `}}`. Yields the expression bounds.
pub open spec fn open_block(s: Seq<char>, open: Seq<char>, i: int) -> Option<(int, int)> {
    if match_at(s, open, i) {
        match first_brace(s, i + open.len()) {
            Some(j) => {
                if j + 2 <= s.len() && s[j] == '}' && s[j + 1] == '}' {
                    Some((i + open.len(), j))
                } else {
                    None
                }
            },
            None => None,
        }
    } else {
        None
    }
}

/// A block opening at `i` whose `}}` still leaves room for the closing tail
/// of length `tail`.
pub open spec fn block_candidate(s: Seq<char>, open: Seq<char>, tail: int, i: int) -> bool {
    match open_block(s, open, i) {
        Some((e0, e1)) => e1 + 2 <= s.len() - tail,
        None => false,
    }
}

/// The last position strictly below `upto` where a block candidate opens.
pub open spec fn last_candidate_below(s: Seq<char>, open: Seq<char>, tail: int, upto: int) -> Option<
    int,
>
    decreases upto,
{
    if upto <= 0 {
        None
    } else if block_candidate(s, open, tail, upto - 1) {
        Some(upto - 1)
    } else {
        last_candidate_below(s, open, tail, upto - 1)
    }
}

/// The condition of a conditional wrapper spanning the whole of `a`:
/// `{{#if <cond>}}...{{/if}}` with a brace-free condition.
pub open spec fn eachif_cond_of(a: Seq<char>) -> Option<Seq<char>> {
    if match_at(a, if_inner_open_mark(), 0) && spec_ends_with(a, if_end_mark()) {
        match first_brace(a, if_inner_open_mark().len() as int) {
            Some(j) => {
                if j + 2 <= a.len() - if_end_mark().len() && a[j] == '}' && a[j + 1] == '}' {
                    Some(a.subrange(if_inner_open_mark().len() as int, j))
                } else {
                    None
                }
            },
            None => None,
        }
    } else {
        None
    }
}

/// What directive a flattened template path carries. The shapes are tried in
/// priority order: collection with condition, collection, condition, plain;
/// a path matching none of them, template or not, is plain.
pub open spec fn spec_parse_directive(s: Seq<char>) -> DirV {
    let n = s.len() as int;
    if spec_ends_with(s, each_close_mark()) && last_candidate_below(
        s,
        each_open_mark(),
        each_close_mark().len() as int,
        n,
    ) is Some {
        let i = last_candidate_below(s, each_open_mark(), each_close_mark().len() as int, n)->Some_0;
        let (e0, e1) = open_block(s, each_open_mark(), i)->Some_0;
        let prefix = s.take(i);
        let coll = s.subrange(e0, e1);
        let suffix = s.subrange(e1 + 2, n - each_close_mark().len());
        match eachif_cond_of(suffix) {
            Some(cond) => DirV::EachIf { prefix, coll, cond, suffix },
            None => DirV::Each { prefix, coll, suffix },
        }
    } else if spec_ends_with(s, if_close_mark()) && last_candidate_below(
        s,
        if_open_mark(),
        if_close_mark().len() as int,
        n,
    ) is Some {
        let i = last_candidate_below(s, if_open_mark(), if_close_mark().len() as int, n)->Some_0;
        let (e0, e1) = open_block(s, if_open_mark(), i)->Some_0;
        let prefix = s.take(i);
        let cond = s.subrange(e0, e1);
        let suffix = s.subrange(e1 + 2, n - if_close_mark().len());
        DirV::If { prefix, cond, suffix }
    } else {
        DirV::Plain
    }
}

fn find_brace(s: &Text, from: usize) -> (r: Option<usize>)
    ensures
        match r {
            Some(j) => first_brace(s@, from as int) == Some(j as int),
            None => first_brace(s@, from as int) is None,
        },
{
    let mut i: usize = from;
    while i < s.len()
        invariant
            from <= i,
            first_brace(s@, from as int) == first_brace(s@, i as int),
        decreases s@.len() - i,
    {
        let c = s[i];
        if c == '{' || c == '}' {
            return Some(i);
        }
        i = i + 1;
    }
    None
}

fn open_block_at(s: &Text, open: &Text, i: usize) -> (r: Option<(usize, usize)>)
    ensures
        match r {
            Some(p) => open_block(s@, open@, i as int) == Some((p.0 as int, p.1 as int)),
            None => open_block(s@, open@, i as int) is None,
        },
{
    if !starts_with_at(s, open, i) {
        return None;
    }
    let n = s.len();
    proof {
        assert(i + open@.len() <= n);
    }
    match find_brace(s, i + open.len()) {
        None => None,
        Some(j) => {
            proof {
                lemma_first_brace_bounds(s@, i + open@.len());
            }
            if j + 1 < s.len() && s[j] == '}' && s[j + 1] == '}' {
                Some((i + open.len(), j))
            } else {
                None
            }
        },
    }
}

proof fn lemma_first_brace_bounds(s: Seq<char>, from: int)
    ensures
        first_brace(s, from) is Some ==> {
            let j = first_brace(s, from)->Some_0;
            from <= j < s.len()
        },
    decreases s.len() + 1 - from,
{
    if !(from < 0 || from >= s.len()) && !(s[from] == '{' || s[from] == '}') {
        lemma_first_brace_bounds(s, from + 1);
    }
}

fn is_candidate(s: &Text, open: &Text, tail: usize, i: usize) -> (r: bool)
    ensures
        r == block_candidate(s@, open@, tail as int, i as int),
{
    match open_block_at(s, open, i) {
        None => false,
        Some(p) => {
            proof {
                lemma_first_brace_bounds(s@, i + open@.len());
            }
            let (_e0, e1) = p;
            tail <= s.len() && s.len() - tail >= 2 && e1 <= s.len() - tail - 2
        },
    }
}

fn last_candidate(s: &Text, open: &Text, tail: usize) -> (r: Option<usize>)
    ensures
        match r {
            Some(i) => last_candidate_below(s@, open@, tail as int, s@.len() as int) == Some(
                i as int,
            ),
            None => last_candidate_below(s@, open@, tail as int, s@.len() as int) is None,
        },
{
    let mut i: usize = s.len();
    while i > 0
        invariant
            i <= s@.len(),
            last_candidate_below(s@, open@, tail as int, s@.len() as int) == last_candidate_below(
                s@,
                open@,
                tail as int,
                i as int,
            ),
        decreases i,
    {
        i = i - 1;
        if is_candidate(s, open, tail, i) {
            return Some(i);
        }
    }
    None
}

fn eachif_cond_exec(a: &Text) -> (r: Option<Text>)
    ensures
        match r {
            Some(c) => eachif_cond_of(a@) == Some(c@),
            None => eachif_cond_of(a@) is None,
        },
{
    let inner_open = string_to_chars("{{#if ");
    let inner_end = string_to_chars("{{/if}}");
    if !starts_with_at(a, &inner_open, 0) {
        return None;
    }
    if !ends_with(a, &inner_end) {
        return None;
    }
    match find_brace(a, inner_open.len()) {
        None => None,
        Some(j) => {
            proof {
                lemma_first_brace_bounds(a@, inner_open@.len() as int);
            }
            if inner_end.len() <= a.len() && a.len() - inner_end.len() >= 2 && j <= a.len()
                - inner_end.len() - 2 && a[j] == '}' && a[j + 1] == '}' {
                Some(sub_text(a, inner_open.len(), j))
            } else {
                None
            }
        },
    }
}

/// Classify one flattened template path, yielding the captured prefix,
/// expressions and suffix of the matched shape.
pub fn parse_directive(s: &Text) -> (d: Directive)
    ensures
        d.view() == spec_parse_directive(s@),
{
    let each_close = string_to_chars("{{/each}}.hbs");
    let each_open = string_to_chars("/{{#each ");
    let if_close = string_to_chars("{{/if}}.hbs");
    let if_open = string_to_chars("/{{#if ");
    if ends_with(s, &each_close) {
        match last_candidate(s, &each_open, each_close.len()) {
            Some(i) => {
                proof {
                    lemma_last_candidate_is_candidate(
                        s@,
                        each_open@,
                        each_close@.len() as int,
                        s@.len() as int,
                    );
                }
                match open_block_at(s, &each_open, i) {
                    None => {
                        proof {
                            assert(false);
                        }
                        Directive::Plain
                    },
                    Some(p) => {
                        let (e0, e1) = p;
                        proof {
                            assert(block_candidate(
                                s@,
                                each_open@,
                                each_close@.len() as int,
                                i as int,
                            ));
                            assert(open_block(s@, each_open@, i as int) == Some(
                                (e0 as int, e1 as int),
                            ));
                            lemma_first_brace_bounds(s@, i + each_open@.len());
                            assert(e0 <= e1);
                            assert(e1 + 2 <= s@.len() - each_close@.len());
                            assert(each_close@.len() <= s@.len());
                            assert(e1 + 2 <= s.len());
                        }
                        let prefix = sub_text(s, 0, i);
                        let coll = sub_text(s, e0, e1);
                        let suffix = sub_text(s, e1 + 2, s.len() - each_close.len());
                        proof {
                            assert(prefix@ =~= s@.take(i as int));
                        }
                        match eachif_cond_exec(&suffix) {
                            Some(cond) => Directive::EachIf { prefix, coll, cond, suffix },
                            None => Directive::Each { prefix, coll, suffix },
                        }
                    },
                }
            },
            None => parse_if_or_plain(s, &if_close, &if_open),
        }
    } else {
        parse_if_or_plain(s, &if_close, &if_open)
    }
}

fn parse_if_or_plain(s: &Text, if_close: &Text, if_open: &Text) -> (d: Directive)
    requires
        if_close@ == if_close_mark(),
        if_open@ == if_open_mark(),
        !(spec_ends_with(s@, each_close_mark()) && last_candidate_below(
            s@,
            each_open_mark(),
            each_close_mark().len() as int,
            s@.len() as int,
        ) is Some),
    ensures
        d.view() == spec_parse_directive(s@),
{
    if ends_with(s, if_close) {
        match last_candidate(s, if_open, if_close.len()) {
            Some(i) => {
                proof {
                    lemma_last_candidate_is_candidate(
                        s@,
                        if_open@,
                        if_close@.len() as int,
                        s@.len() as int,
                    );
                }
                match open_block_at(s, if_open, i) {
                    None => {
                        proof {
                            assert(false);
                        }
                        Directive::Plain
                    },
                    Some(p) => {
                        let (e0, e1) = p;
                        proof {
                            assert(block_candidate(s@, if_open@, if_close@.len() as int, i as int));
                            assert(open_block(s@, if_open@, i as int) == Some(
                                (e0 as int, e1 as int),
                            ));
                            lemma_first_brace_bounds(s@, i + if_open@.len());
                            assert(e0 <= e1);
                            assert(e1 + 2 <= s@.len() - if_close@.len());
                            assert(if_close@.len() <= s@.len());
                            assert(e1 + 2 <= s.len());
                        }
                        let prefix = sub_text(s, 0, i);
                        let cond = sub_text(s, e0, e1);
                        let suffix = sub_text(s, e1 + 2, s.len() - if_close.len());
                        proof {
                            assert(prefix@ =~= s@.take(i as int));
                        }
                        Directive::If { prefix, cond, suffix }
                    },
                }
            },
            None => Directive::Plain,
        }
    } else {
        Directive::Plain
    }
}

proof fn lemma_last_candidate_is_candidate(s: Seq<char>, open: Seq<char>, tail: int, upto: int)
    ensures
        last_candidate_below(s, open, tail, upto) is Some ==> block_candidate(
            s,
            open,
            tail,
            last_candidate_below(s, open, tail, upto)->Some_0,
        ),
    decreases upto,
{
    if upto > 0 && !block_candidate(s, open, tail, upto - 1) {
        lemma_last_candidate_is_candidate(s, open, tail, upto - 1);
    }
}

} // verus!
