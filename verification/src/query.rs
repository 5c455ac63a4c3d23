use vstd::prelude::*;

use crate::store::tag_in;
use crate::types::{Note, NoteView, Notes};

verus! {

/// True iff `needle` occurs contiguously somewhere in `hay`.
pub open spec fn is_substring(hay: Seq<char>, needle: Seq<char>) -> bool {
    exists|i: int|
        0 <= i && i + needle.len() <= hay.len() && #[trigger] hay.subrange(i, i + needle.len())
            == needle
}

/// True iff some term is a substring of the note's title, body or id.
pub open spec fn note_matches_text(n: NoteView, terms: Seq<Seq<char>>) -> bool {
    exists|t: int|
        0 <= t < terms.len() && (is_substring(n.title, #[trigger] terms[t]) || is_substring(
            n.body,
            terms[t],
        ) || is_substring(n.id, terms[t]))
}

/// True iff the note carries every queried tag.
pub open spec fn note_has_all_tags(n: NoteView, query: Seq<Seq<char>>) -> bool {
    forall|t: int| 0 <= t < query.len() ==> tag_in(n.tags, #[trigger] query[t])
}

/// The notes of `s` matching some term of `terms`, in their original order.
pub open spec fn text_selected(s: Seq<NoteView>, terms: Seq<Seq<char>>) -> Seq<NoteView>
    decreases s.len(),
{
    if s.len() == 0 {
        Seq::empty()
    } else {
        let rest = text_selected(s.drop_first(), terms);
        if note_matches_text(s[0], terms) {
            seq![s[0]] + rest
        } else {
            rest
        }
    }
}

/// The notes of `s` carrying every tag of `query`, in their original order.
pub open spec fn tags_selected(s: Seq<NoteView>, query: Seq<Seq<char>>) -> Seq<NoteView>
    decreases s.len(),
{
    if s.len() == 0 {
        Seq::empty()
    } else {
        let rest = tags_selected(s.drop_first(), query);
        if note_has_all_tags(s[0], query) {
            seq![s[0]] + rest
        } else {
            rest
        }
    }
}

/// Case-sensitive substring test over the characters of two strings.
fn contains_sub(hay: &str, needle: &str) -> (r: bool)
    ensures
        r == is_substring(hay@, needle@),
{
    let hl = hay.unicode_len();
    let nl = needle.unicode_len();
    if nl > hl {
        return false;
    }
    let mut i: usize = 0;
    while nl <= hl - i
        invariant
            hl == hay@.len(),
            nl == needle@.len(),
            nl <= hl,
            i <= hl,
            forall|j: int| 0 <= j < i ==> #[trigger] hay@.subrange(j, j + nl) != needle@,
        decreases hl - i,
    {
        let mut k: usize = 0;
        let mut mismatch = false;
        while k < nl
            invariant
                hl == hay@.len(),
                nl == needle@.len(),
                i + nl <= hl,
                k <= nl,
                !mismatch ==> forall|m: int| 0 <= m < k ==> hay@[i + m] == needle@[m],
                mismatch ==> 0 < nl && hay@.subrange(i as int, i + nl) != needle@,
            decreases nl - k,
        {
            if hay.get_char(i + k) != needle.get_char(k) {
                proof {
                    assert(hay@.subrange(i as int, i + nl)[k as int] != needle@[k as int]);
                }
                mismatch = true;
                k = nl;
            } else {
                k = k + 1;
            }
        }
        if !mismatch {
            proof {
                assert(hay@.subrange(i as int, i + nl) =~= needle@);
            }
            return true;
        }
        i = i + 1;
    }
    proof {
        assert forall|j: int| 0 <= j && j + nl <= hl implies #[trigger] hay@.subrange(j, j + nl)
            != needle@ by {
            assert(j < i);
        }
    }
    false
}

/// True iff the note carries `tag`.
fn has_tag(note: &Note, tag: &String) -> (r: bool)
    ensures
        r == tag_in(note@.tags, tag@),
{
    let mut k: usize = 0;
    let n = note.tags.len();
    while k < n
        invariant
            n == note.tags.len(),
            k <= n,
            forall|j: int| 0 <= j < k ==> note@.tags[j] != tag@,
        decreases n - k,
    {
        if note.tags[k].eq(tag) {
            proof {
                assert(note@.tags[k as int] == tag@);
            }
            return true;
        }
        proof {
            assert(note@.tags[k as int] == note.tags@[k as int]@);
        }
        k = k + 1;
    }
    false
}

/// True iff `note` matches any of `terms` in its title, body or id.
fn matches_text(note: &Note, terms: &Vec<String>) -> (r: bool)
    ensures
        r == note_matches_text(note@, terms.deep_view()),
{
    let mut t: usize = 0;
    let n = terms.len();
    while t < n
        invariant
            n == terms.len(),
            t <= n,
            forall|j: int|
                0 <= j < t ==> !is_substring(note@.title, #[trigger] terms.deep_view()[j])
                    && !is_substring(note@.body, terms.deep_view()[j]) && !is_substring(
                    note@.id,
                    terms.deep_view()[j],
                ),
        decreases n - t,
    {
        let term = &terms[t];
        if contains_sub(note.title.as_str(), term.as_str()) || contains_sub(
            note.body.as_str(),
            term.as_str(),
        ) || contains_sub(note.id.as_str(), term.as_str()) {
            proof {
                assert(terms.deep_view()[t as int] == terms@[t as int]@);
            }
            return true;
        }
        proof {
            assert(terms.deep_view()[t as int] == terms@[t as int]@);
        }
        t = t + 1;
    }
    false
}

/// Free-text search: the notes whose title, body or id has some term of
/// `terms` as a substring, in the order they stand in the notefile.
pub fn search_text(notes: &Notes, terms: &Vec<String>) -> (r: Vec<Note>)
    ensures
        r@.map_values(|n: Note| n@) =~~= text_selected(notes@, terms.deep_view()),
{
    let ghost tv = terms.deep_view();
    let mut r: Vec<Note> = Vec::new();
    let count = notes.0.len();
    proof {
        assert(notes@.skip(0) =~= notes@);
    }
    let mut i: usize = 0;
    while i < count
        invariant
            count == notes.0.len(),
            i <= count,
            tv == terms.deep_view(),
            r@.map_values(|n: Note| n@) + text_selected(notes@.skip(i as int), tv)
                =~~= text_selected(notes@, tv),
        decreases count - i,
    {
        let ghost pre = r@.map_values(|n: Note| n@);
        proof {
            assert(notes@.skip(i as int)[0] == notes@[i as int]);
            assert(notes@.skip(i as int).drop_first() =~= notes@.skip(i as int + 1));
        }
        let m = matches_text(&notes.0[i], terms);
        proof {
            assert(notes@[i as int] == notes.0@[i as int]@);
        }
        if m {
            r.push(notes.0[i].clone());
            proof {
                assert(text_selected(notes@.skip(i as int), tv) == seq![notes@[i as int]]
                    + text_selected(notes@.skip(i as int + 1), tv));
                assert(r@.map_values(|n: Note| n@) =~= pre.push(notes@[i as int]));
                assert(pre.push(notes@[i as int]) + text_selected(notes@.skip(i as int + 1), tv)
                    =~~= pre + text_selected(notes@.skip(i as int), tv));
            }
        } else {
            proof {
                assert(text_selected(notes@.skip(i as int), tv) == text_selected(
                    notes@.skip(i as int + 1),
                    tv,
                ));
            }
        }
        i = i + 1;
    }
    proof {
        assert(notes@.skip(count as int) =~= Seq::<NoteView>::empty());
        assert(r@.map_values(|n: Note| n@) + Seq::<NoteView>::empty() =~= r@.map_values(
            |n: Note| n@,
        ));
    }
    r
}

/// Tag search: the notes carrying every tag of `query`, in the order they
/// stand in the notefile. An empty query matches every note.
pub fn search_tags(notes: &Notes, query: &Vec<String>) -> (r: Vec<Note>)
    ensures
        r@.map_values(|n: Note| n@) =~~= tags_selected(notes@, query.deep_view()),
{
    let ghost qv = query.deep_view();
    let mut r: Vec<Note> = Vec::new();
    let count = notes.0.len();
    proof {
        assert(notes@.skip(0) =~= notes@);
    }
    let mut i: usize = 0;
    while i < count
        invariant
            count == notes.0.len(),
            i <= count,
            qv == query.deep_view(),
            r@.map_values(|n: Note| n@) + tags_selected(notes@.skip(i as int), qv)
                =~~= tags_selected(notes@, qv),
        decreases count - i,
    {
        let ghost pre = r@.map_values(|n: Note| n@);
        proof {
            assert(notes@.skip(i as int)[0] == notes@[i as int]);
            assert(notes@.skip(i as int).drop_first() =~= notes@.skip(i as int + 1));
        }
        let note = &notes.0[i];
        let mut all = true;
        let mut t: usize = 0;
        let nq = query.len();
        while t < nq
            invariant
                nq == query.len(),
                t <= nq,
                qv == query.deep_view(),
                all ==> forall|j: int| 0 <= j < t ==> tag_in(note@.tags, #[trigger] qv[j]),
                !all ==> exists|j: int| 0 <= j < nq && !tag_in(note@.tags, #[trigger] qv[j]),
            decreases nq - t,
        {
            let ht = has_tag(note, &query[t]);
            proof {
                assert(qv[t as int] == query@[t as int]@);
            }
            if !ht {
                all = false;
                t = nq;
            } else {
                t = t + 1;
            }
        }
        proof {
            assert(notes@[i as int] == notes.0@[i as int]@);
            if all {
                assert(note_has_all_tags(notes@[i as int], qv));
            } else {
                let w = choose|j: int| 0 <= j < nq && !tag_in(note@.tags, #[trigger] qv[j]);
                assert(!note_has_all_tags(notes@[i as int], qv));
            }
        }
        if all {
            r.push(notes.0[i].clone());
            proof {
                assert(tags_selected(notes@.skip(i as int), qv) == seq![notes@[i as int]]
                    + tags_selected(notes@.skip(i as int + 1), qv));
                assert(r@.map_values(|n: Note| n@) =~= pre.push(notes@[i as int]));
                assert(pre.push(notes@[i as int]) + tags_selected(notes@.skip(i as int + 1), qv)
                    =~~= pre + tags_selected(notes@.skip(i as int), qv));
            }
        } else {
            proof {
                assert(tags_selected(notes@.skip(i as int), qv) == tags_selected(
                    notes@.skip(i as int + 1),
                    qv,
                ));
            }
        }
        i = i + 1;
    }
    proof {
        assert(notes@.skip(count as int) =~= Seq::<NoteView>::empty());
        assert(r@.map_values(|n: Note| n@) + Seq::<NoteView>::empty() =~= r@.map_values(
            |n: Note| n@,
        ));
    }
    r
}

/// The positions of the notes that a text search keeps, in increasing order.
pub open spec fn text_match_indices(s: Seq<NoteView>, terms: Seq<Seq<char>>) -> Seq<int>
    decreases s.len(),
{
    if s.len() == 0 {
        Seq::empty()
    } else {
        let rest = text_match_indices(s.drop_first(), terms).map_values(|k: int| k + 1);
        if note_matches_text(s[0], terms) {
            seq![0int] + rest
        } else {
            rest
        }
    }
}

/// The positions of the notes that a tag search keeps, in increasing order.
pub open spec fn tags_match_indices(s: Seq<NoteView>, query: Seq<Seq<char>>) -> Seq<int>
    decreases s.len(),
{
    if s.len() == 0 {
        Seq::empty()
    } else {
        let rest = tags_match_indices(s.drop_first(), query).map_values(|k: int| k + 1);
        if note_has_all_tags(s[0], query) {
            seq![0int] + rest
        } else {
            rest
        }
    }
}

/// Text search keeps the notefile's order: its result is the source read
/// at a strictly increasing list of positions, each of which matches.
pub proof fn lemma_search_text_order(s: Seq<NoteView>, terms: Seq<Seq<char>>)
    ensures
        ({
            let idx = text_match_indices(s, terms);
            let sel = text_selected(s, terms);
            &&& idx.len() == sel.len()
            &&& forall|a: int, b: int| 0 <= a < b < idx.len() ==> idx[a] < idx[b]
            &&& forall|a: int|
                0 <= a < idx.len() ==> 0 <= #[trigger] idx[a] < s.len() && sel[a] == s[idx[a]]
                    && note_matches_text(s[idx[a]], terms)
        }),
    decreases s.len(),
{
    if s.len() == 0 {
    } else {
        lemma_search_text_order(s.drop_first(), terms);
        let idx0 = text_match_indices(s.drop_first(), terms);
        let sel0 = text_selected(s.drop_first(), terms);
        let shifted = idx0.map_values(|k: int| k + 1);
        let idx = text_match_indices(s, terms);
        let sel = text_selected(s, terms);
        assert(forall|a: int| 0 <= a < shifted.len() ==> #[trigger] shifted[a] == idx0[a] + 1);
        assert(forall|a: int|
            0 <= a < s.drop_first().len() ==> #[trigger] s.drop_first()[a] == s[a + 1]);
        if note_matches_text(s[0], terms) {
            assert(idx == seq![0int] + shifted && sel == seq![s[0]] + sel0);
            assert forall|a: int| 0 <= a < idx.len() implies 0 <= #[trigger] idx[a] < s.len()
                && sel[a] == s[idx[a]] && note_matches_text(s[idx[a]], terms) by {
                if a > 0 {
                    assert(idx[a] == idx0[a - 1] + 1);
                    assert(sel[a] == sel0[a - 1]);
                }
            }
        } else {
            assert(idx == shifted && sel == sel0);
            assert forall|a: int| 0 <= a < idx.len() implies 0 <= #[trigger] idx[a] < s.len()
                && sel[a] == s[idx[a]] && note_matches_text(s[idx[a]], terms) by {
                assert(idx[a] == idx0[a] + 1);
            }
        }
    }
}

/// Tag search keeps the notefile's order, in the same way.
pub proof fn lemma_search_tags_order(s: Seq<NoteView>, query: Seq<Seq<char>>)
    ensures
        ({
            let idx = tags_match_indices(s, query);
            let sel = tags_selected(s, query);
            &&& idx.len() == sel.len()
            &&& forall|a: int, b: int| 0 <= a < b < idx.len() ==> idx[a] < idx[b]
            &&& forall|a: int|
                0 <= a < idx.len() ==> 0 <= #[trigger] idx[a] < s.len() && sel[a] == s[idx[a]]
                    && note_has_all_tags(s[idx[a]], query)
        }),
    decreases s.len(),
{
    if s.len() == 0 {
    } else {
        lemma_search_tags_order(s.drop_first(), query);
        let idx0 = tags_match_indices(s.drop_first(), query);
        let sel0 = tags_selected(s.drop_first(), query);
        let shifted = idx0.map_values(|k: int| k + 1);
        let idx = tags_match_indices(s, query);
        let sel = tags_selected(s, query);
        assert(forall|a: int| 0 <= a < shifted.len() ==> #[trigger] shifted[a] == idx0[a] + 1);
        assert(forall|a: int|
            0 <= a < s.drop_first().len() ==> #[trigger] s.drop_first()[a] == s[a + 1]);
        if note_has_all_tags(s[0], query) {
            assert(idx == seq![0int] + shifted && sel == seq![s[0]] + sel0);
            assert forall|a: int| 0 <= a < idx.len() implies 0 <= #[trigger] idx[a] < s.len()
                && sel[a] == s[idx[a]] && note_has_all_tags(s[idx[a]], query) by {
                if a > 0 {
                    assert(idx[a] == idx0[a - 1] + 1);
                    assert(sel[a] == sel0[a - 1]);
                }
            }
        } else {
            assert(idx == shifted && sel == sel0);
            assert forall|a: int| 0 <= a < idx.len() implies 0 <= #[trigger] idx[a] < s.len()
                && sel[a] == s[idx[a]] && note_has_all_tags(s[idx[a]], query) by {
                assert(idx[a] == idx0[a] + 1);
            }
        }
    }
}

} // verus!
