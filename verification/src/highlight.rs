use vstd::prelude::*;

verus! {

/// Mathematical model of one highlight span.
#[verifier::ext_equal]
pub struct SpanView {
    pub matched: bool,
    pub text: Seq<char>,
}

/// A labeled segment of text: a run of plain characters, or a run that
/// matched the search term. Concatenating the spans of a highlight, in
/// order, gives back the highlighted text exactly.
#[derive(Debug, PartialEq)]
pub struct Span {
    pub matched: bool,
    pub text: String,
}

impl View for Span {
    type V = SpanView;

    open spec fn view(&self) -> SpanView {
        SpanView { matched: self.matched, text: self.text@ }
    }
}

/// ASCII case folding of one character: the matching is case-insensitive
/// over the ASCII letters.
pub open spec fn lower_char(c: char) -> char {
    if 'A' <= c && c <= 'Z' {
        ((c as u32 + 32) as u8) as char
    } else {
        c
    }
}

/// `s` with every character case-folded.
pub open spec fn lower_seq(s: Seq<char>) -> Seq<char> {
    Seq::new(s.len(), |i: int| lower_char(s[i]))
}

/// The term matches at position `i` of `text`, ignoring ASCII case.
pub open spec fn match_at(text: Seq<char>, term: Seq<char>, i: int) -> bool {
    0 <= i && i + term.len() <= text.len() && lower_seq(text.subrange(i, i + term.len()))
        == lower_seq(term)
}

/// The term matches somewhere in `text`.
pub open spec fn has_match(text: Seq<char>, term: Seq<char>) -> bool {
    exists|i: int| match_at(text, term, i)
}

/// The leftmost match position (meaningful only when `has_match` holds).
pub open spec fn first_match(text: Seq<char>, term: Seq<char>) -> int
    decreases text.len(),
{
    if match_at(text, term, 0) {
        0
    } else if text.len() == 0 {
        0
    } else {
        1 + first_match(text.drop_first(), term)
    }
}

proof fn lemma_match_shift(text: Seq<char>, term: Seq<char>, j: int)
    requires
        text.len() > 0,
        j >= 0,
    ensures
        match_at(text, term, j + 1) == match_at(text.drop_first(), term, j),
{
    if 0 <= j && j + term.len() <= text.drop_first().len() {
        assert(text.drop_first().subrange(j, j + term.len()) =~= text.subrange(
            j + 1,
            j + 1 + term.len(),
        ));
    }
}

pub proof fn lemma_first_match(text: Seq<char>, term: Seq<char>)
    requires
        has_match(text, term),
    ensures
        0 <= first_match(text, term),
        first_match(text, term) + term.len() <= text.len(),
        match_at(text, term, first_match(text, term)),
        forall|j: int| 0 <= j < first_match(text, term) ==> !match_at(text, term, j),
    decreases text.len(),
{
    if match_at(text, term, 0) {
    } else {
        let w = choose|i: int| match_at(text, term, i);
        assert(w != 0 && text.len() > 0);
        lemma_match_shift(text, term, w - 1);
        assert(match_at(text.drop_first(), term, w - 1));
        lemma_first_match(text.drop_first(), term);
        let f = first_match(text.drop_first(), term);
        lemma_match_shift(text, term, f);
        assert forall|j: int| 0 <= j < 1 + f implies !match_at(text, term, j) by {
            if j > 0 {
                lemma_match_shift(text, term, j - 1);
            }
        }
    }
}

pub proof fn lemma_first_match_unique(text: Seq<char>, term: Seq<char>, i: int)
    requires
        match_at(text, term, i),
        forall|j: int| 0 <= j < i ==> !match_at(text, term, j),
    ensures
        first_match(text, term) == i,
    decreases text.len(),
{
    if i == 0 {
    } else {
        assert(!match_at(text, term, 0));
        assert(text.len() > 0);
        lemma_match_shift(text, term, i - 1);
        assert forall|j: int| 0 <= j < i - 1 implies !match_at(text.drop_first(), term, j) by {
            lemma_match_shift(text, term, j);
        }
        lemma_first_match_unique(text.drop_first(), term, i - 1);
    }
}

/// The spans that highlighting `term` in `text` produces: the leftmost
/// match first, scanning on after each match (matches never overlap). An
/// empty term gives the whole text as one plain span.
pub open spec fn highlight_spec(text: Seq<char>, term: Seq<char>) -> Seq<SpanView>
    decreases text.len(),
        via highlight_spec_dec
{
    if term.len() == 0 {
        seq![SpanView { matched: false, text: text }]
    } else if text.len() == 0 {
        Seq::empty()
    } else if !has_match(text, term) {
        seq![SpanView { matched: false, text: text }]
    } else {
        let i = first_match(text, term);
        let pre: Seq<SpanView> = if i > 0 {
            seq![SpanView { matched: false, text: text.take(i) }]
        } else {
            Seq::empty()
        };
        let m = seq![SpanView { matched: true, text: text.subrange(i, i + term.len()) }];
        let rest = text.skip(i + term.len());
        pre + m + highlight_spec(rest, term)
    }
}

#[via_fn]
proof fn highlight_spec_dec(text: Seq<char>, term: Seq<char>) {
    if term.len() != 0 && text.len() != 0 && has_match(text, term) {
        lemma_first_match(text, term);
    }
}

/// The text that a span sequence spells out, in order.
pub open spec fn concat_spans(spans: Seq<SpanView>) -> Seq<char>
    decreases spans.len(),
{
    if spans.len() == 0 {
        Seq::empty()
    } else {
        spans[0].text + concat_spans(spans.drop_first())
    }
}

proof fn lemma_concat_spans_add(a: Seq<SpanView>, b: Seq<SpanView>)
    ensures
        concat_spans(a + b) == concat_spans(a) + concat_spans(b),
    decreases a.len(),
{
    if a.len() == 0 {
        assert(a + b =~= b);
        assert(concat_spans(a) + concat_spans(b) =~= concat_spans(b));
    } else {
        assert((a + b)[0] == a[0]);
        assert((a + b).drop_first() =~= a.drop_first() + b);
        lemma_concat_spans_add(a.drop_first(), b);
        assert(concat_spans(a + b) =~= concat_spans(a) + concat_spans(b));
    }
}

/// Highlighting is lossless: the spans of `highlight_spec(text, term)`
/// concatenate back to `text` exactly, for every text and term; and an
/// empty term yields a single plain span holding the whole text.
pub proof fn lemma_highlight_lossless(text: Seq<char>, term: Seq<char>)
    ensures
        concat_spans(highlight_spec(text, term)) == text,
        term.len() == 0 ==> highlight_spec(text, term) == seq![
            SpanView { matched: false, text: text },
        ],
    decreases text.len(),
{
    if term.len() == 0 {
        let spans = highlight_spec(text, term);
        assert(spans.drop_first() =~= Seq::<SpanView>::empty());
        assert(concat_spans(spans.drop_first()) == Seq::<char>::empty());
        assert(concat_spans(spans) =~= text);
    } else if text.len() == 0 {
        assert(concat_spans(highlight_spec(text, term)) =~= text);
    } else if !has_match(text, term) {
        let spans = highlight_spec(text, term);
        assert(spans.drop_first() =~= Seq::<SpanView>::empty());
        assert(concat_spans(spans.drop_first()) == Seq::<char>::empty());
        assert(concat_spans(spans) =~= text);
    } else {
        lemma_first_match(text, term);
        let i = first_match(text, term);
        let pre: Seq<SpanView> = if i > 0 {
            seq![SpanView { matched: false, text: text.take(i) }]
        } else {
            Seq::empty()
        };
        let m = seq![SpanView { matched: true, text: text.subrange(i, i + term.len()) }];
        let rest = text.skip(i + term.len());
        lemma_highlight_lossless(rest, term);
        lemma_concat_spans_add(pre + m, highlight_spec(rest, term));
        lemma_concat_spans_add(pre, m);
        if i > 0 {
            assert(pre.drop_first() =~= Seq::<SpanView>::empty());
            assert(concat_spans(pre.drop_first()) == Seq::<char>::empty());
            assert(concat_spans(pre) =~= text.take(i));
        } else {
            assert(concat_spans(pre) =~= text.take(i));
        }
        assert(m.drop_first() =~= Seq::<SpanView>::empty());
        assert(concat_spans(m.drop_first()) == Seq::<char>::empty());
        assert(concat_spans(m) =~= text.subrange(i, i + term.len()));
        assert(text.take(i) + text.subrange(i, i + term.len()) + rest =~= text);
    }
}

/// Case folding of one character, for the scan.
fn lower_exec(c: char) -> (r: char)
    ensures
        r == lower_char(c),
{
    let v = c as u32;
    if 65 <= v && v <= 90 {
        ((v + 32) as u8) as char
    } else {
        c
    }
}

/// Does the term match at position `i` of `text`, ignoring ASCII case?
fn match_at_exec(text: &str, term: &str, i: usize) -> (r: bool)
    requires
        i + term@.len() <= text@.len(),
    ensures
        r == match_at(text@, term@, i as int),
{
    let hl = text.unicode_len();
    let tl = term.unicode_len();
    let mut k: usize = 0;
    while k < tl
        invariant
            hl == text@.len(),
            tl == term@.len(),
            i + tl <= hl,
            k <= tl,
            forall|m: int|
                0 <= m < k ==> lower_char(#[trigger] text@[i + m]) == lower_char(term@[m]),
        decreases tl - k,
    {
        if lower_exec(text.get_char(i + k)) != lower_exec(term.get_char(k)) {
            proof {
                let sub = text@.subrange(i as int, i + tl);
                assert(lower_seq(sub)[k as int] == lower_char(text@[i + k]));
                assert(lower_seq(term@)[k as int] == lower_char(term@[k as int]));
            }
            return false;
        }
        k = k + 1;
    }
    proof {
        assert forall|m: int| 0 <= m < tl implies lower_seq(text@.subrange(i as int, i + tl))[m]
            == lower_seq(term@)[m] by {
            assert(text@.subrange(i as int, i + tl)[m] == text@[i + m]);
        }
        assert(lower_seq(text@.subrange(i as int, i + tl)) =~= lower_seq(term@));
    }
    true
}

/// The leftmost case-insensitive match of `term` in `text`, if any.
fn find_ci(text: &str, term: &str) -> (r: Option<usize>)
    requires
        term@.len() >= 1,
    ensures
        r is None <==> !has_match(text@, term@),
        r is Some ==> has_match(text@, term@) && r->0 == first_match(text@, term@) && r->0
            + term@.len() <= text@.len(),
{
    let hl = text.unicode_len();
    let tl = term.unicode_len();
    if tl > hl {
        proof {
            assert forall|i: int| !match_at(text@, term@, i) by {}
        }
        return None;
    }
    let mut i: usize = 0;
    while tl <= hl - i
        invariant
            hl == text@.len(),
            tl == term@.len(),
            1 <= tl <= hl,
            i <= hl,
            forall|j: int| 0 <= j < i ==> !match_at(text@, term@, j),
        decreases hl - i,
    {
        if match_at_exec(text, term, i) {
            proof {
                lemma_first_match_unique(text@, term@, i as int);
            }
            return Some(i);
        }
        i = i + 1;
    }
    proof {
        assert forall|j: int| !match_at(text@, term@, j) by {
            if 0 <= j && j + tl <= hl {
                assert(j < i);
            }
        }
    }
    None
}

/// Scan `text` and append its spans to `out`; empty text adds nothing.
fn highlight_suffix(text: &str, term: &str, out: &mut Vec<Span>)
    requires
        term@.len() >= 1,
    ensures
        final(out)@.map_values(|s: Span| s@) == old(out)@.map_values(|s: Span| s@)
            + highlight_spec(text@, term@),
    decreases text@.len(),
{
    let ghost pre = out@.map_values(|s: Span| s@);
    let n = text.unicode_len();
    if n == 0 {
        proof {
            assert(pre + highlight_spec(text@, term@) =~= pre);
        }
        return;
    }
    match find_ci(text, term) {
        None => {
            out.push(Span { matched: false, text: String::from_str(text) });
            proof {
                assert(out@.map_values(|s: Span| s@) =~~= pre + highlight_spec(text@, term@));
            }
        },
        Some(i) => {
            let tl = term.unicode_len();
            if i > 0 {
                out.push(Span { matched: false, text: String::from_str(text.substring_char(0, i)) });
            }
            out.push(
                Span { matched: true, text: String::from_str(text.substring_char(i, i + tl)) },
            );
            let ghost mid = out@.map_values(|s: Span| s@);
            let ghost ipos = i as int;
            let ghost spec_pre: Seq<SpanView> = if ipos > 0 {
                seq![SpanView { matched: false, text: text@.take(ipos) }]
            } else {
                Seq::<SpanView>::empty()
            };
            let ghost spec_m = seq![
                SpanView { matched: true, text: text@.subrange(ipos, ipos + term@.len()) },
            ];
            proof {
                assert(mid =~~= pre + (spec_pre + spec_m));
            }
            let rest = text.substring_char(i + tl, n);
            proof {
                assert(rest@ == text@.skip(ipos + term@.len()));
            }
            highlight_suffix(rest, term, out);
            proof {
                assert(pre + (spec_pre + spec_m) + highlight_spec(rest@, term@) =~~= pre
                    + highlight_spec(text@, term@));
            }
        },
    }
}

/// Highlight every non-overlapping, leftmost-first, case-insensitive
/// occurrence of `term` in `text` as a sequence of plain and matched
/// spans. The spans concatenate back to `text` exactly
/// (`lemma_highlight_lossless`); an empty term gives one plain span.
pub fn highlight(text: &str, term: &str) -> (r: Vec<Span>)
    ensures
        r@.map_values(|s: Span| s@) == highlight_spec(text@, term@),
{
    let mut out: Vec<Span> = Vec::new();
    if term.unicode_len() == 0 {
        out.push(Span { matched: false, text: String::from_str(text) });
        proof {
            assert(out@.map_values(|s: Span| s@) =~~= highlight_spec(text@, term@));
        }
        return out;
    }
    proof {
        assert(Seq::<Span>::empty().map_values(|s: Span| s@) =~= Seq::<SpanView>::empty());
    }
    highlight_suffix(text, term, &mut out);
    proof {
        assert(out@.map_values(|s: Span| s@) =~= highlight_spec(text@, term@));
    }
    out
}

} // verus!
