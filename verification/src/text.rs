use vstd::prelude::*;

verus! {

/// Text is handled as a vector of characters, so that every operation on it
/// can be specified over `Seq<char>`.
pub type Text = Vec<char>;

/// Relies on str::chars (std): iterating a string slice yields exactly the
/// characters of its view, in order.
#[verifier::external_body]
pub fn string_to_chars(s: &str) -> (r: Text)
    ensures
        r@ == s@,
{
    s.chars().collect()
}

/// Relies on String::from_iter (std): collecting characters builds the string
/// whose view is exactly that character sequence.
#[verifier::external_body]
pub fn chars_to_string(v: &Text) -> (r: String)
    ensures
        r@ == v@,
{
    v.iter().collect()
}

/// Two characters with the same code point are the same character.
pub proof fn lemma_char_injective(a: char, b: char)
    ensures
        (a as u32) == (b as u32) ==> a == b,
{
    vstd::utf8::char_u32_cast(a, a as u32);
    vstd::utf8::char_u32_cast(b, b as u32);
}

/// Strict lexicographic order on character sequences, by code point.
pub open spec fn seq_lt(a: Seq<char>, b: Seq<char>) -> bool
    decreases a.len(),
{
    if b.len() == 0 {
        false
    } else if a.len() == 0 {
        true
    } else if a[0] != b[0] {
        (a[0] as u32) < (b[0] as u32)
    } else {
        seq_lt(a.skip(1), b.skip(1))
    }
}

pub proof fn lemma_seq_lt_irreflexive(a: Seq<char>)
    ensures
        !seq_lt(a, a),
    decreases a.len(),
{
    if a.len() > 0 {
        lemma_seq_lt_irreflexive(a.skip(1));
    }
}

pub proof fn lemma_seq_lt_total(a: Seq<char>, b: Seq<char>)
    ensures
        seq_lt(a, b) || seq_lt(b, a) || a == b,
    decreases a.len(),
{
    if a.len() == 0 {
        if b.len() == 0 {
            assert(a =~= b);
        }
    } else if b.len() == 0 {
    } else if a[0] == b[0] {
        lemma_seq_lt_total(a.skip(1), b.skip(1));
        if a.skip(1) == b.skip(1) {
            assert(a.skip(1).len() == a.len() - 1);
            assert(b.skip(1).len() == b.len() - 1);
            assert forall|i: int| 0 <= i < a.len() implies a[i] == b[i] by {
                if i >= 1 {
                    assert(a.skip(1)[i - 1] == b.skip(1)[i - 1]);
                }
            }
            assert(a =~= b);
        }
    } else {
        lemma_char_injective(a[0], b[0]);
    }
}

pub proof fn lemma_seq_lt_asymmetric(a: Seq<char>, b: Seq<char>)
    ensures
        !(seq_lt(a, b) && seq_lt(b, a)),
    decreases a.len(),
{
    if a.len() > 0 && b.len() > 0 && a[0] == b[0] {
        lemma_seq_lt_asymmetric(a.skip(1), b.skip(1));
    }
}

pub proof fn lemma_seq_lt_transitive(a: Seq<char>, b: Seq<char>, c: Seq<char>)
    ensures
        seq_lt(a, b) && seq_lt(b, c) ==> seq_lt(a, c),
    decreases a.len(),
{
    if a.len() > 0 && b.len() > 0 && c.len() > 0 {
        lemma_seq_lt_transitive(a.skip(1), b.skip(1), c.skip(1));
    }
}

/// If the first i characters agree and position i differs, the order is
/// decided by position i.
proof fn lemma_seq_lt_prefix(a: Seq<char>, b: Seq<char>, i: int)
    requires
        0 <= i < a.len(),
        i < b.len(),
        forall|k: int| 0 <= k < i ==> a[k] == b[k],
        a[i] != b[i],
    ensures
        seq_lt(a, b) <==> (a[i] as u32) < (b[i] as u32),
    decreases i,
{
    if i == 0 {
    } else {
        assert(a.skip(1)[i - 1] == a[i]);
        assert(b.skip(1)[i - 1] == b[i]);
        assert(forall|k: int| 0 <= k < i - 1 ==> a.skip(1)[k] == b.skip(1)[k]);
        lemma_seq_lt_prefix(a.skip(1), b.skip(1), i - 1);
    }
}

/// If all characters agree up to the shorter length, the shorter sequence
/// comes first.
proof fn lemma_seq_lt_prefix_end(a: Seq<char>, b: Seq<char>, n: int)
    requires
        n == if a.len() < b.len() {
            a.len() as int
        } else {
            b.len() as int
        },
        forall|k: int| 0 <= k < n ==> a[k] == b[k],
    ensures
        a.len() < b.len() ==> seq_lt(a, b),
        b.len() < a.len() ==> seq_lt(b, a),
    decreases n,
{
    if n > 0 {
        assert(forall|k: int| 0 <= k < n - 1 ==> a.skip(1)[k] == b.skip(1)[k]);
        lemma_seq_lt_prefix_end(a.skip(1), b.skip(1), n - 1);
    }
}

/// Compare two texts; returns -1, 0 or 1 for less, equal, greater.
pub fn chars_cmp(a: &Text, b: &Text) -> (r: i8)
    ensures
        r == -1 ==> seq_lt(a@, b@),
        r == 0 ==> a@ == b@,
        r == 1 ==> seq_lt(b@, a@),
        r == -1 || r == 0 || r == 1,
{
    let n = if a.len() < b.len() {
        a.len()
    } else {
        b.len()
    };
    let mut i: usize = 0;
    while i < n
        invariant
            0 <= i <= n,
            n == if a@.len() < b@.len() {
                a@.len()
            } else {
                b@.len()
            },
            forall|k: int| 0 <= k < i ==> a@[k] == b@[k],
        decreases n - i,
    {
        if a[i] != b[i] {
            proof {
                lemma_char_injective(a@[i as int], b@[i as int]);
                lemma_seq_lt_prefix(a@, b@, i as int);
                lemma_seq_lt_prefix(b@, a@, i as int);
            }
            if (a[i] as u32) < (b[i] as u32) {
                return -1;
            } else {
                return 1;
            }
        }
        i = i + 1;
    }
    proof {
        lemma_seq_lt_prefix_end(a@, b@, n as int);
    }
    if a.len() < b.len() {
        -1
    } else if b.len() < a.len() {
        1
    } else {
        proof {
            assert(a@ =~= b@);
        }
        0
    }
}

/// Equality of two texts.
pub fn chars_eq(a: &Text, b: &Text) -> (r: bool)
    ensures
        r == (a@ == b@),
{
    let c = chars_cmp(a, b);
    proof {
        if a@ == b@ {
            lemma_seq_lt_irreflexive(a@);
        }
    }
    c == 0
}

/// A fresh copy of a text.
pub fn copy_text(a: &Text) -> (r: Text)
    ensures
        r@ == a@,
{
    let mut out: Text = Vec::new();
    let mut i: usize = 0;
    while i < a.len()
        invariant
            0 <= i <= a@.len(),
            out@ == a@.take(i as int),
        decreases a@.len() - i,
    {
        out.push(a[i]);
        proof {
            assert(out@ =~= a@.take(i + 1));
        }
        i = i + 1;
    }
    proof {
        assert(a@.take(a@.len() as int) =~= a@);
    }
    out
}

/// Append a copy of `src` onto `dst`.
pub fn push_text(dst: &mut Text, src: &Text)
    ensures
        final(dst)@ == old(dst)@ + src@,
{
    let mut i: usize = 0;
    while i < src.len()
        invariant
            0 <= i <= src@.len(),
            dst@ == old(dst)@ + src@.take(i as int),
        decreases src@.len() - i,
    {
        dst.push(src[i]);
        proof {
            assert(old(dst)@ + src@.take(i + 1) =~= (old(dst)@ + src@.take(i as int)).push(
                src@[i as int],
            ));
        }
        i = i + 1;
    }
    proof {
        assert(src@.take(src@.len() as int) =~= src@);
    }
}

/// Whether `pat` occurs in `s` starting at index `i`.
pub open spec fn match_at(s: Seq<char>, pat: Seq<char>, i: int) -> bool {
    0 <= i && i + pat.len() <= s.len() && s.subrange(i, i + pat.len()) == pat
}

pub fn starts_with_at(s: &Text, pat: &Text, i: usize) -> (r: bool)
    ensures
        r == match_at(s@, pat@, i as int),
{
    if i > s.len() || pat.len() > s.len() - i {
        return false;
    }
    let mut k: usize = 0;
    while k < pat.len()
        invariant
            0 <= k <= pat@.len(),
            i + pat@.len() <= s@.len(),
            s@.len() == s.len(),
            pat@.len() == pat.len(),
            forall|j: int| 0 <= j < k ==> s@[i + j] == pat@[j],
        decreases pat@.len() - k,
    {
        if s[i + k] != pat[k] {
            proof {
                if match_at(s@, pat@, i as int) {
                    assert(s@.subrange(i as int, i + pat@.len())[k as int] == pat@[k as int]);
                }
            }
            return false;
        }
        k = k + 1;
    }
    proof {
        assert(s@.subrange(i as int, i + pat@.len()) =~= pat@);
    }
    true
}

/// Index of the first occurrence of `pat` in `s` at or after `from`.
pub open spec fn spec_find(s: Seq<char>, pat: Seq<char>, from: int) -> Option<int>
    decreases s.len() + 1 - from,
{
    if from < 0 || from + pat.len() > s.len() {
        None
    } else if match_at(s, pat, from) {
        Some(from)
    } else {
        spec_find(s, pat, from + 1)
    }
}

pub proof fn lemma_find_bounds(s: Seq<char>, pat: Seq<char>, from: int)
    ensures
        spec_find(s, pat, from) is Some ==> from <= spec_find(s, pat, from)->Some_0,
        spec_find(s, pat, from) is Some ==> match_at(s, pat, spec_find(s, pat, from)->Some_0),
    decreases s.len() + 1 - from,
{
    if !(from < 0 || from + pat.len() > s.len()) && !match_at(s, pat, from) {
        lemma_find_bounds(s, pat, from + 1);
    }
}

pub fn find_from(s: &Text, pat: &Text, from: usize) -> (r: Option<usize>)
    ensures
        match r {
            Some(i) => spec_find(s@, pat@, from as int) == Some(i as int),
            None => spec_find(s@, pat@, from as int) is None,
        },
{
    let mut i: usize = from;
    while i <= s.len() && pat.len() <= s.len() - i
        invariant
            from <= i,
            spec_find(s@, pat@, from as int) == spec_find(s@, pat@, i as int),
        decreases s@.len() + 1 - i,
    {
        if starts_with_at(s, pat, i) {
            return Some(i);
        }
        proof {
            if pat@.len() == 0 {
                assert(s@.subrange(i as int, i + pat@.len()) =~= pat@);
            }
        }
        i = i + 1;
    }
    None
}

/// Index of the last occurrence of `pat` in `s` strictly below `upto`.
pub open spec fn spec_rfind_below(s: Seq<char>, pat: Seq<char>, upto: int) -> Option<int>
    decreases upto,
{
    if upto <= 0 {
        None
    } else if match_at(s, pat, upto - 1) {
        Some(upto - 1)
    } else {
        spec_rfind_below(s, pat, upto - 1)
    }
}

pub fn rfind(s: &Text, pat: &Text) -> (r: Option<usize>)
    ensures
        match r {
            Some(i) => spec_rfind_below(s@, pat@, s@.len() as int) == Some(i as int),
            None => spec_rfind_below(s@, pat@, s@.len() as int) is None,
        },
{
    let mut i: usize = s.len();
    while i > 0
        invariant
            i <= s@.len(),
            spec_rfind_below(s@, pat@, s@.len() as int) == spec_rfind_below(s@, pat@, i as int),
        decreases i,
    {
        i = i - 1;
        if starts_with_at(s, pat, i) {
            return Some(i);
        }
    }
    None
}

/// The subrange `s[from..to]` as a new text.
pub fn sub_text(s: &Text, from: usize, to: usize) -> (r: Text)
    requires
        from <= to <= s@.len(),
    ensures
        r@ == s@.subrange(from as int, to as int),
{
    let mut out: Text = Vec::new();
    let mut i: usize = from;
    while i < to
        invariant
            from <= i <= to <= s@.len(),
            out@ == s@.subrange(from as int, i as int),
        decreases to - i,
    {
        out.push(s[i]);
        proof {
            assert(out@ =~= s@.subrange(from as int, i + 1));
        }
        i = i + 1;
    }
    out
}

/// Whether `s` ends with `pat`.
pub open spec fn spec_ends_with(s: Seq<char>, pat: Seq<char>) -> bool {
    pat.len() <= s.len() && s.subrange(s.len() - pat.len(), s.len() as int) == pat
}

pub fn ends_with(s: &Text, pat: &Text) -> (r: bool)
    ensures
        r == spec_ends_with(s@, pat@),
{
    if pat.len() > s.len() {
        return false;
    }
    starts_with_at(s, pat, s.len() - pat.len())
}

/// `s` with every occurrence of the character `from` replaced by `to`.
pub fn replace_char(s: &Text, from: char, to: char) -> (r: Text)
    ensures
        r@ == s@.map_values(|c: char| if c == from {
            to
        } else {
            c
        }),
{
    let mut out: Text = Vec::new();
    let mut i: usize = 0;
    while i < s.len()
        invariant
            0 <= i <= s@.len(),
            out@.len() == i,
            forall|k: int|
                0 <= k < i ==> out@[k] == (if s@[k] == from {
                    to
                } else {
                    s@[k]
                }),
        decreases s@.len() - i,
    {
        let c = s[i];
        if c == from {
            out.push(to);
        } else {
            out.push(c);
        }
        i = i + 1;
    }
    proof {
        assert(out@ =~= s@.map_values(|c: char| if c == from {
            to
        } else {
            c
        }));
    }
    out
}

/// The pieces of `s` cut at each occurrence of the delimiter `d`, scanning
/// left to right; the delimiter itself is dropped.
pub open spec fn spec_split(s: Seq<char>, d: Seq<char>) -> Seq<Seq<char>>
    decreases s.len(),
    when d.len() > 0
{
    match spec_find(s, d, 0) {
        None => seq![s],
        Some(i) => {
            if 0 <= i && i + d.len() <= s.len() {
                seq![s.subrange(0, i)] + spec_split(s.skip(i + d.len()), d)
            } else {
                seq![s]
            }
        },
    }
}

pub fn split_text(s: &Text, d: &Text) -> (r: Vec<Text>)
    requires
        d@.len() > 0,
    ensures
        r.deep_view() == spec_split(s@, d@),
{
    let mut out: Vec<Text> = Vec::new();
    let mut rest: Text = copy_text(s);
    loop
        invariant
            d@.len() > 0,
            d@.len() == d.len(),
            rest@.len() == rest.len(),
            spec_split(s@, d@) == out.deep_view() + spec_split(rest@, d@),
        decreases rest@.len(),
    {
        let found = find_from(&rest, d, 0);
        match found {
            None => {
                let ghost r0 = rest@;
                let ghost prev = out.deep_view();
                out.push(rest);
                proof {
                    assert(out.deep_view() =~~= prev + seq![r0]);
                    assert(out.deep_view() =~~= spec_split(s@, d@));
                }
                return out;
            },
            Some(i) => {
                proof {
                    lemma_find_bounds(rest@, d@, 0);
                    assert(match_at(rest@, d@, i as int));
                }
                let ghost r0 = rest@;
                let piece = sub_text(&rest, 0, i);
                let new_rest = sub_text(&rest, i + d.len(), rest.len());
                proof {
                    assert(new_rest@ =~= r0.skip(i + d@.len()));
                }
                let ghost prev = out.deep_view();
                out.push(piece);
                proof {
                    assert(out.deep_view() =~~= prev + seq![r0.subrange(0, i as int)]);
                    assert(spec_split(r0, d@) == seq![r0.subrange(0, i as int)] + spec_split(
                        r0.skip(i + d@.len()),
                        d@,
                    ));
                    assert((prev + seq![r0.subrange(0, i as int)]) + spec_split(
                        r0.skip(i + d@.len()),
                        d@,
                    ) =~= prev + spec_split(r0, d@));
                }
                rest = new_rest;
            },
        }
    }
}


/// The pieces that are not empty, in order.
pub open spec fn nonempty_pieces(ps: Seq<Seq<char>>) -> Seq<Seq<char>>
    decreases ps.len(),
{
    if ps.len() == 0 {
        Seq::empty()
    } else if ps[0].len() > 0 {
        seq![ps[0]] + nonempty_pieces(ps.drop_first())
    } else {
        nonempty_pieces(ps.drop_first())
    }
}

pub fn filter_nonempty(ps: Vec<Text>) -> (r: Vec<Text>)
    ensures
        r.deep_view() == nonempty_pieces(ps.deep_view()),
{
    let ghost pv = ps.deep_view();
    let mut out: Vec<Text> = Vec::new();
    let mut i: usize = 0;
    proof {
        assert(pv.skip(0) =~= pv);
        assert(out.deep_view() =~= Seq::<Seq<char>>::empty());
    }
    while i < ps.len()
        invariant
            0 <= i <= ps@.len(),
            ps@.len() == ps.len(),
            pv == ps.deep_view(),
            pv.len() == ps@.len(),
            nonempty_pieces(pv) == out.deep_view() + nonempty_pieces(pv.skip(i as int)),
        decreases ps@.len() - i,
    {
        proof {
            assert(pv.skip(i as int)[0] == pv[i as int]);
            assert(pv[i as int] == ps@[i as int].deep_view());
            assert(ps@[i as int].deep_view() =~= ps@[i as int]@);
            assert(pv.skip(i as int).drop_first() =~= pv.skip(i + 1));
        }
        if ps[i].len() > 0 {
            let ghost prev = out.deep_view();
            let piece = copy_text(&ps[i]);
            out.push(piece);
            proof {
                assert(out.deep_view() =~~= prev + seq![pv[i as int]]);
            }
        }
        i = i + 1;
    }
    proof {
        assert(pv.skip(pv.len() as int).len() == 0);
        assert(out.deep_view() + nonempty_pieces(pv.skip(pv.len() as int)) =~= out.deep_view());
    }
    out
}

/// The segments of a path string: the pieces between `/` separators, empty
/// pieces dropped.
pub open spec fn spec_split_path(s: Seq<char>) -> Seq<Seq<char>> {
    nonempty_pieces(spec_split(s, seq!['/']))
}

pub fn split_path_text(s: &Text) -> (r: Vec<Text>)
    ensures
        r.deep_view() == spec_split_path(s@),
{
    let mut slash: Text = Vec::new();
    slash.push('/');
    proof {
        assert(slash@ =~= seq!['/']);
    }
    let pieces = split_text(s, &slash);
    filter_nonempty(pieces)
}

} // verus!
