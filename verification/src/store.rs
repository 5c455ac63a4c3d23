use vstd::prelude::*;

use crate::NoteError;
use crate::types::{
    Note, NoteView, Notes, contains_id, index_of_id, lemma_index_of_id, lemma_index_of_id_unique,
    note_at, notes_ts_wf, notes_wf, seq_distinct,
};

verus! {

/// True iff some entry of `tags` is the sequence `t`.
pub open spec fn tag_in(tags: Seq<Seq<char>>, t: Seq<char>) -> bool {
    exists|i: int| 0 <= i < tags.len() && tags[i] == t
}

/// Index of the first entry of `tags` equal to `t` (meaningful only when
/// `tag_in(tags, t)` holds).
pub open spec fn index_of_tag(tags: Seq<Seq<char>>, t: Seq<char>) -> int
    decreases tags.len(),
{
    if tags.len() == 0 {
        0
    } else if tags[0] == t {
        0
    } else {
        1 + index_of_tag(tags.drop_first(), t)
    }
}

/// The tag list after one toggle of `t`: if `t` is present its first
/// occurrence leaves, otherwise `t` is appended.
pub open spec fn toggled_tags(tags: Seq<Seq<char>>, t: Seq<char>) -> Seq<Seq<char>> {
    if tag_in(tags, t) {
        tags.remove(index_of_tag(tags, t))
    } else {
        tags.push(t)
    }
}

/// The notefile after one toggle of `t` on the note carrying `id`
/// (meaningful only when that note is present): only that note's tag list
/// changes.
pub open spec fn toggle_spec(s: Seq<NoteView>, id: Seq<char>, t: Seq<char>) -> Seq<NoteView> {
    s.update(
        index_of_id(s, id),
        (NoteView { tags: toggled_tags(note_at(s, id).tags, t), ..note_at(s, id) }),
    )
}

pub proof fn lemma_index_of_tag(tags: Seq<Seq<char>>, t: Seq<char>)
    requires
        tag_in(tags, t),
    ensures
        0 <= index_of_tag(tags, t) < tags.len(),
        tags[index_of_tag(tags, t)] == t,
        forall|j: int| 0 <= j < index_of_tag(tags, t) ==> tags[j] != t,
    decreases tags.len(),
{
    if tags.len() == 0 {
    } else if tags[0] == t {
    } else {
        assert(tag_in(tags.drop_first(), t)) by {
            let i = choose|i: int| 0 <= i < tags.len() && tags[i] == t;
            assert(tags.drop_first()[i - 1] == t);
        }
        lemma_index_of_tag(tags.drop_first(), t);
        assert(forall|j: int| 1 <= j < index_of_tag(tags, t) ==> tags[j] == tags.drop_first()[
            j - 1
        ]);
    }
}

pub proof fn lemma_index_of_tag_unique(tags: Seq<Seq<char>>, t: Seq<char>, i: int)
    requires
        0 <= i < tags.len(),
        tags[i] == t,
        forall|j: int| 0 <= j < i ==> tags[j] != t,
    ensures
        index_of_tag(tags, t) == i,
    decreases tags.len(),
{
    if i == 0 {
    } else {
        assert(tags.drop_first()[i - 1] == t);
        assert(forall|j: int| 0 <= j < i - 1 ==> tags.drop_first()[j] == tags[j + 1]);
        lemma_index_of_tag_unique(tags.drop_first(), t, i - 1);
    }
}

/// Find the index of the note carrying `id`, scanning from the front.
fn find_note(notes: &Notes, id: &String) -> (r: Option<usize>)
    ensures
        r is Some <==> contains_id(notes@, id@),
        r is Some ==> r->0 == index_of_id(notes@, id@) && r->0 < notes.0.len(),
{
    let n = notes.0.len();
    let mut i: usize = 0;
    while i < n
        invariant
            n == notes.0.len(),
            i <= n,
            forall|j: int| 0 <= j < i ==> notes@[j].id != id@,
        decreases n - i,
    {
        if notes.0[i].id.eq(id) {
            proof {
                lemma_index_of_id_unique(notes@, id@, i as int);
            }
            return Some(i);
        }
        i = i + 1;
    }
    None
}

/// True iff a note with the given id is present.
pub fn note_exists(notes: &Notes, id: &String) -> (r: bool)
    ensures
        r == contains_id(notes@, id@),
{
    find_note(notes, id).is_some()
}

/// Look a note up by id; the returned note is an independent copy.
pub fn get_note(notes: &Notes, id: &String) -> (r: Result<Note, NoteError>)
    ensures
        r is Ok <==> contains_id(notes@, id@),
        r is Ok ==> r->Ok_0@ == note_at(notes@, id@),
        r is Err ==> r->Err_0 == NoteError::NotFound,
{
    match find_note(notes, id) {
        Some(i) => Ok(notes.0[i].clone()),
        None => Err(NoteError::NotFound),
    }
}

/// Append a new note, unless the id is already taken.
///
/// On success the new note stands at the end of the sequence with
/// `created == edited == now` and an empty tag set; uniqueness of ids and
/// tag distinctness are preserved.
pub fn insert(notes: &Notes, id: &String, title: &String, body: &String, now: i64) -> (r: Result<
    Notes,
    NoteError,
>)
    ensures
        contains_id(notes@, id@) ==> r == Err::<Notes, NoteError>(NoteError::AlreadyExists),
        !contains_id(notes@, id@) ==> r is Ok && r->Ok_0@ =~~= notes@.push(
            (NoteView {
                id: id@,
                title: title@,
                body: body@,
                edited: now,
                created: now,
                tags: Seq::empty(),
            }),
        ),
        r is Ok && notes_wf(notes@) ==> notes_wf(r->Ok_0@),
        r is Ok && notes_ts_wf(notes@) ==> notes_ts_wf(r->Ok_0@),
{
    if note_exists(notes, id) {
        return Err(NoteError::AlreadyExists);
    }
    let mut out = notes.clone();
    let ghost v0 = out.0@;
    let ghost m0 = out@;
    out.0.push(
        Note {
            id: id.clone(),
            title: title.clone(),
            body: body.clone(),
            edited: now,
            created: now,
            tags: Vec::new(),
        },
    );
    proof {
        assert forall|j: int| 0 <= j < v0.len() implies out@[j] == notes@[j] by {
            assert(out@[j] == out.0@[j]@);
            assert(out.0@[j] == v0[j]);
            assert(m0[j] == v0[j]@);
        }
        assert(out@ =~~= notes@.push(
            (NoteView {
                id: id@,
                title: title@,
                body: body@,
                edited: now,
                created: now,
                tags: Seq::empty(),
            }),
        ));
        let res = out@;
        if notes_wf(notes@) {
            assert forall|i: int, j: int| 0 <= i < j < res.len() implies res[i].id != res[j].id by {
                if j == res.len() - 1 {
                    assert(!contains_id(notes@, id@));
                    assert(res[i] == notes@[i]);
                }
            }
        }
    }
    Ok(out)
}

/// Overwrite the title and body of the note carrying `id`, stamping
/// `edited = now`; its id, creation time, tag set and position are kept.
pub fn replace(notes: &Notes, id: &String, title: &String, body: &String, now: i64) -> (r: Result<
    Notes,
    NoteError,
>)
    ensures
        !contains_id(notes@, id@) ==> r == Err::<Notes, NoteError>(NoteError::NotFound),
        contains_id(notes@, id@) ==> r is Ok && r->Ok_0@ =~= notes@.update(
            index_of_id(notes@, id@),
            (NoteView {
                id: note_at(notes@, id@).id,
                title: title@,
                body: body@,
                edited: now,
                created: note_at(notes@, id@).created,
                tags: note_at(notes@, id@).tags,
            }),
        ),
        r is Ok && notes_wf(notes@) ==> notes_wf(r->Ok_0@),
        r is Ok && notes_ts_wf(notes@) && (now == 0 || note_at(notes@, id@).created <= now)
            ==> notes_ts_wf(r->Ok_0@),
{
    let i = match find_note(notes, id) {
        Some(i) => i,
        None => { return Err(NoteError::NotFound) },
    };
    proof {
        lemma_index_of_id(notes@, id@);
    }
    let old_note = &notes.0[i];
    let new_note = Note {
        id: old_note.id.clone(),
        title: title.clone(),
        body: body.clone(),
        edited: now,
        created: old_note.created,
        tags: old_note.tags.clone(),
    };
    proof {
        assert(new_note.tags.deep_view() =~~= old_note.tags.deep_view());
    }
    let mut out = notes.clone();
    out.0.set(i, new_note);
    proof {
        assert(out@ =~~= notes@.update(
            i as int,
            (NoteView {
                id: note_at(notes@, id@).id,
                title: title@,
                body: body@,
                edited: now,
                created: note_at(notes@, id@).created,
                tags: note_at(notes@, id@).tags,
            }),
        ));
    }
    Ok(out)
}

/// Remove the note carrying `id`, keeping the relative order of the rest.
pub fn remove(notes: &Notes, id: &String) -> (r: Result<Notes, NoteError>)
    ensures
        !contains_id(notes@, id@) ==> r == Err::<Notes, NoteError>(NoteError::NotFound),
        contains_id(notes@, id@) ==> r is Ok && r->Ok_0@ =~= notes@.remove(
            index_of_id(notes@, id@),
        ),
        r is Ok && notes_wf(notes@) ==> notes_wf(r->Ok_0@),
        r is Ok && notes_ts_wf(notes@) ==> notes_ts_wf(r->Ok_0@),
{
    let i = match find_note(notes, id) {
        Some(i) => i,
        None => { return Err(NoteError::NotFound) },
    };
    let mut out = notes.clone();
    out.0.remove(i);
    proof {
        assert(out@ =~= notes@.remove(i as int));
        let res = out@;
        if notes_wf(notes@) {
            assert forall|a: int, b: int| 0 <= a < b < res.len() implies res[a].id != res[b].id by {
                let a0 = if a < i as int {
                    a
                } else {
                    a + 1
                };
                let b0 = if b < i as int {
                    b
                } else {
                    b + 1
                };
                assert(res[a] == notes@[a0] && res[b] == notes@[b0]);
            }
        }
    }
    Ok(out)
}

/// Toggle `tag` on the note carrying `id`: remove it if present, append it
/// otherwise. The second component of the result says whether it was added.
/// This is the sole tag-mutation entry point, which is what keeps tag lists
/// free of duplicates.
pub fn toggle_tag(notes: &Notes, id: &String, tag: &String) -> (r: Result<
    (Notes, bool),
    NoteError,
>)
    ensures
        !contains_id(notes@, id@) ==> r == Err::<(Notes, bool), NoteError>(NoteError::NotFound),
        contains_id(notes@, id@) ==> r is Ok && r->Ok_0.1 == !tag_in(
            note_at(notes@, id@).tags,
            tag@,
        ) && r->Ok_0.0@ =~~= toggle_spec(notes@, id@, tag@),
        r is Ok && notes_wf(notes@) ==> notes_wf(r->Ok_0.0@),
        r is Ok && notes_ts_wf(notes@) ==> notes_ts_wf(r->Ok_0.0@),
{
    let i = match find_note(notes, id) {
        Some(i) => i,
        None => { return Err(NoteError::NotFound) },
    };
    proof {
        lemma_index_of_id(notes@, id@);
    }
    let note = &notes.0[i];
    let ghost tags0 = note.tags.deep_view();
    let mut new_tags: Vec<String> = Vec::new();
    let mut added = true;
    let mut k: usize = 0;
    let ntags = note.tags.len();
    // Copy the tag list, dropping the first occurrence of `tag` if any.
    while k < ntags
        invariant
            ntags == note.tags.len(),
            tags0 == note.tags.deep_view(),
            k <= ntags,
            added ==> new_tags.deep_view() =~= tags0.take(k as int) && forall|j: int|
                0 <= j < k ==> tags0[j] != tag@,
            !added ==> {
                &&& tag_in(tags0, tag@)
                &&& 0 <= index_of_tag(tags0, tag@) < k
                &&& new_tags.deep_view() =~= tags0.subrange(0, index_of_tag(tags0, tag@))
                    + tags0.subrange(index_of_tag(tags0, tag@) + 1, k as int)
            },
        decreases ntags - k,
    {
        if added && note.tags[k].eq(tag) {
            proof {
                lemma_index_of_tag_unique(tags0, tag@, k as int);
                assert(new_tags.deep_view() =~= tags0.subrange(0, k as int) + tags0.subrange(
                    k as int + 1,
                    k as int + 1,
                ));
            }
            added = false;
        } else {
            let ghost dv0 = new_tags.deep_view();
            new_tags.push(note.tags[k].clone());
            proof {
                assert(new_tags.deep_view() =~= dv0.push(tags0[k as int]));
                if added {
                    assert(new_tags.deep_view() =~= tags0.take(k as int + 1));
                } else {
                    let p = index_of_tag(tags0, tag@);
                    assert(tags0.subrange(p + 1, k as int + 1) =~= tags0.subrange(
                        p + 1,
                        k as int,
                    ).push(tags0[k as int]));
                    assert(new_tags.deep_view() =~= tags0.subrange(0, p) + tags0.subrange(
                        p + 1,
                        k as int + 1,
                    ));
                }
            }
        }
        k = k + 1;
    }
    proof {
        assert(tags0.take(ntags as int) =~= tags0);
        if !added {
            let p = index_of_tag(tags0, tag@);
            assert(tags0.remove(p) =~= tags0.subrange(0, p) + tags0.subrange(
                p + 1,
                ntags as int,
            ));
        }
    }
    if added {
        new_tags.push(tag.clone());
        proof {
            assert(!tag_in(tags0, tag@));
            assert(new_tags.deep_view() =~= toggled_tags(tags0, tag@));
        }
    } else {
        proof {
            assert(new_tags.deep_view() =~= toggled_tags(tags0, tag@));
        }
    }
    let new_note = Note {
        id: note.id.clone(),
        title: note.title.clone(),
        body: note.body.clone(),
        edited: note.edited,
        created: note.created,
        tags: new_tags,
    };
    let mut out = notes.clone();
    out.0.set(i, new_note);
    proof {
        let nv = note_at(notes@, id@);
        assert(out@ =~~= toggle_spec(notes@, id@, tag@));
        if notes_wf(notes@) {
            lemma_toggled_tags_distinct(nv.tags, tag@);
        }
    }
    Ok((out, added))
}

/// Toggling keeps a duplicate-free tag list duplicate-free.
pub proof fn lemma_toggled_tags_distinct(tags: Seq<Seq<char>>, t: Seq<char>)
    requires
        seq_distinct(tags),
    ensures
        seq_distinct(toggled_tags(tags, t)),
{
    if tag_in(tags, t) {
        lemma_index_of_tag(tags, t);
        let p = index_of_tag(tags, t);
        let res = tags.remove(p);
        assert forall|i: int, j: int| 0 <= i < j < res.len() implies res[i] != res[j] by {
            let i0 = if i < p {
                i
            } else {
                i + 1
            };
            let j0 = if j < p {
                j
            } else {
                j + 1
            };
            assert(res[i] == tags[i0] && res[j] == tags[j0]);
        }
    } else {
        let res = tags.push(t);
        assert forall|i: int, j: int| 0 <= i < j < res.len() implies res[i] != res[j] by {
            if j == res.len() - 1 {
                assert(res[i] == tags[i]);
                assert(!tag_in(tags, t));
            }
        }
    }
}

/// Tag toggling is an involution: toggling the same tag twice gives back the
/// original tag set. When the tag was absent the whole list is restored
/// exactly; when it was present, the list holds the same tags as before,
/// with the toggled one moved to the end.
pub proof fn lemma_toggle_involution(tags: Seq<Seq<char>>, t: Seq<char>)
    requires
        seq_distinct(tags),
    ensures
        toggled_tags(toggled_tags(tags, t), t).to_set() == tags.to_set(),
        !tag_in(tags, t) ==> toggled_tags(toggled_tags(tags, t), t) =~= tags,
{
    if tag_in(tags, t) {
        lemma_index_of_tag(tags, t);
        let p = index_of_tag(tags, t);
        let removed = tags.remove(p);
        assert(!tag_in(removed, t)) by {
            assert forall|j: int| 0 <= j < removed.len() implies removed[j] != t by {
                let j0 = if j < p {
                    j
                } else {
                    j + 1
                };
                assert(removed[j] == tags[j0]);
            }
        }
        let back = removed.push(t);
        assert(toggled_tags(toggled_tags(tags, t), t) == back);
        assert(back.to_set() =~= tags.to_set()) by {
            assert forall|x: Seq<char>| back.to_set().contains(x) implies tags.to_set().contains(
                x,
            ) by {
                let j = choose|j: int| 0 <= j < back.len() && back[j] == x;
                if j == back.len() - 1 {
                    assert(tags[p] == x);
                } else {
                    let j0 = if j < p {
                        j
                    } else {
                        j + 1
                    };
                    assert(tags[j0] == x);
                }
            }
            assert forall|x: Seq<char>| tags.to_set().contains(x) implies back.to_set().contains(
                x,
            ) by {
                let j = choose|j: int| 0 <= j < tags.len() && tags[j] == x;
                if j == p {
                    assert(back[back.len() - 1] == x);
                } else {
                    let j1 = if j < p {
                        j
                    } else {
                        j - 1
                    };
                    assert(back[j1] == x);
                }
            }
        }
    } else {
        let pushed = tags.push(t);
        assert(tag_in(pushed, t)) by {
            assert(pushed[pushed.len() - 1] == t);
        }
        lemma_index_of_tag_unique(pushed, t, tags.len() as int);
        assert(pushed.remove(tags.len() as int) =~= tags);
    }
}

/// Toggling the same tag twice on the same note gives the notefile back:
/// every other note is untouched, the note's other fields are untouched,
/// and its tag set is the one it started with. When the tag was absent the
/// whole notefile is restored exactly; when it was present, the tag stands
/// at the end of the note's list afterwards, so the list is equal as a set.
pub proof fn lemma_toggle_tag_involution(s: Seq<NoteView>, id: Seq<char>, t: Seq<char>)
    requires
        notes_wf(s),
        contains_id(s, id),
    ensures
        ({
            let i = index_of_id(s, id);
            let s2 = toggle_spec(toggle_spec(s, id, t), id, t);
            &&& s2.len() == s.len()
            &&& forall|k: int| 0 <= k < s.len() && k != i ==> s2[k] == s[k]
            &&& s2[i].id == s[i].id
            &&& s2[i].title == s[i].title
            &&& s2[i].body == s[i].body
            &&& s2[i].created == s[i].created
            &&& s2[i].edited == s[i].edited
            &&& s2[i].tags.to_set() == s[i].tags.to_set()
            &&& !tag_in(s[i].tags, t) ==> s2 =~~= s
        }),
{
    lemma_index_of_id(s, id);
    let i = index_of_id(s, id);
    let s1 = toggle_spec(s, id, t);
    assert(s1[i].id == id);
    assert(forall|j: int| 0 <= j < i ==> s1[j] == s[j]);
    lemma_index_of_id_unique(s1, id, i);
    assert(note_at(s1, id) == s1[i]);
    let tags0 = s[i].tags;
    assert(seq_distinct(tags0));
    lemma_toggle_involution(tags0, t);
    let s2 = toggle_spec(s1, id, t);
    assert(s2[i].tags == toggled_tags(toggled_tags(tags0, t), t));
    if !tag_in(tags0, t) {
        assert(s2[i] =~~= s[i]);
        assert(s2 =~~= s);
    }
}

/// Replacing a note's text preserves its identity: afterwards the note
/// found under `id` still carries that id, its original creation time and
/// its original tag list; only title, body and the edited stamp changed.
pub proof fn lemma_replace_preserves_identity(
    s: Seq<NoteView>,
    id: Seq<char>,
    title: Seq<char>,
    body: Seq<char>,
    now: i64,
)
    requires
        notes_wf(s),
        contains_id(s, id),
    ensures
        ({
            let s2 = s.update(
                index_of_id(s, id),
                (NoteView {
                    id: note_at(s, id).id,
                    title: title,
                    body: body,
                    edited: now,
                    created: note_at(s, id).created,
                    tags: note_at(s, id).tags,
                }),
            );
            &&& contains_id(s2, id)
            &&& note_at(s2, id).id == id
            &&& note_at(s2, id).created == note_at(s, id).created
            &&& note_at(s2, id).tags == note_at(s, id).tags
            &&& note_at(s2, id).title == title
            &&& note_at(s2, id).body == body
            &&& note_at(s2, id).edited == now
        }),
{
    lemma_index_of_id(s, id);
    let i = index_of_id(s, id);
    let s2 = s.update(
        i,
        (NoteView {
            id: note_at(s, id).id,
            title: title,
            body: body,
            edited: now,
            created: note_at(s, id).created,
            tags: note_at(s, id).tags,
        }),
    );
    assert(s2[i].id == id);
    assert(forall|j: int| 0 <= j < i ==> s2[j] == s[j]);
    lemma_index_of_id_unique(s2, id, i);
}

} // verus!
