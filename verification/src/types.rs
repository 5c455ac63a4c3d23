use vstd::prelude::*;

verus! {

/// Mathematical model of one note: every field as a plain spec value.
#[verifier::ext_equal]
pub struct NoteView {
    pub id: Seq<char>,
    pub title: Seq<char>,
    pub body: Seq<char>,
    pub edited: i64,
    pub created: i64,
    pub tags: Seq<Seq<char>>,
}

/// One titled, bodied, tagged, timestamped record.
///
/// `id` is chosen by the user, unique within a notefile, and never changed
/// after creation. `created` and `edited` are seconds since the epoch;
/// `edited == 0` means "never edited". `tags` is insertion-ordered and holds
/// no duplicates as long as tags are only changed through `toggle_tag`.
#[derive(Debug, PartialEq)]
pub struct Note {
    pub id: String,
    pub title: String,
    pub body: String,
    pub edited: i64,
    pub created: i64,
    pub tags: Vec<String>,
}

impl View for Note {
    type V = NoteView;

    open spec fn view(&self) -> NoteView {
        NoteView {
            id: self.id@,
            title: self.title@,
            body: self.body@,
            edited: self.edited,
            created: self.created,
            tags: self.tags.deep_view(),
        }
    }
}

impl Clone for Note {
    fn clone(&self) -> (r: Self)
        ensures
            r@ == self@,
    {
        let r = Note {
            id: self.id.clone(),
            title: self.title.clone(),
            body: self.body.clone(),
            edited: self.edited,
            created: self.created,
            tags: self.tags.clone(),
        };
        proof {
            assert(r.tags.deep_view() =~~= self.tags.deep_view());
            assert(r@ =~~= self@);
        }
        r
    }
}

/// An ordered collection of notes: the unit of persistence.
/// Order is insertion order and is preserved across encode/decode.
#[derive(Debug, PartialEq)]
pub struct Notes(pub Vec<Note>);

impl View for Notes {
    type V = Seq<NoteView>;

    open spec fn view(&self) -> Seq<NoteView> {
        self.0@.map_values(|n: Note| n@)
    }
}

impl Clone for Notes {
    fn clone(&self) -> (r: Self)
        ensures
            r@ == self@,
    {
        let mut out: Vec<Note> = Vec::new();
        let mut i: usize = 0;
        while i < self.0.len()
            invariant
                i <= self.0.len(),
                out@.len() == i,
                forall|k: int| 0 <= k < i ==> #[trigger] out@[k]@ == self@[k],
            decreases self.0.len() - i,
        {
            out.push(self.0[i].clone());
            i = i + 1;
        }
        proof {
            assert(out@.map_values(|n: Note| n@) =~= self@);
        }
        Notes(out)
    }
}

impl Notes {
    /// A freshly initialized notefile: no notes at all.
    pub fn new() -> (r: Notes)
        ensures
            r@ =~= Seq::<NoteView>::empty(),
    {
        Notes(Vec::new())
    }
}

/// No two entries of `s` are the same sequence of characters.
pub open spec fn seq_distinct(s: Seq<Seq<char>>) -> bool {
    forall|i: int, j: int| 0 <= i < j < s.len() ==> s[i] != s[j]
}

/// Well-formedness of one note: its tag set holds no duplicates.
pub open spec fn note_wf(n: NoteView) -> bool {
    seq_distinct(n.tags)
}

/// Well-formedness of a notefile: ids are unique and every note is well formed.
pub open spec fn notes_wf(s: Seq<NoteView>) -> bool {
    &&& forall|i: int, j: int| 0 <= i < j < s.len() ==> s[i].id != s[j].id
    &&& forall|i: int| 0 <= i < s.len() ==> note_wf(#[trigger] s[i])
}

/// Timestamp sanity of one note: a note that was ever edited was not edited
/// before it was created.
pub open spec fn note_ts_wf(n: NoteView) -> bool {
    n.edited != 0 ==> n.created <= n.edited
}

/// Timestamp sanity of a whole notefile.
pub open spec fn notes_ts_wf(s: Seq<NoteView>) -> bool {
    forall|i: int| 0 <= i < s.len() ==> note_ts_wf(#[trigger] s[i])
}

/// True iff some note in `s` has id `id`.
pub open spec fn contains_id(s: Seq<NoteView>, id: Seq<char>) -> bool {
    exists|i: int| 0 <= i < s.len() && s[i].id == id
}

/// Index of the first note in `s` whose id is `id` (meaningful only when
/// `contains_id(s, id)` holds).
pub open spec fn index_of_id(s: Seq<NoteView>, id: Seq<char>) -> int
    decreases s.len(),
{
    if s.len() == 0 {
        0
    } else if s[0].id == id {
        0
    } else {
        1 + index_of_id(s.drop_first(), id)
    }
}

/// The first note in `s` whose id is `id`.
pub open spec fn note_at(s: Seq<NoteView>, id: Seq<char>) -> NoteView {
    s[index_of_id(s, id)]
}

/// `index_of_id` returns the first match: a valid index whose note carries
/// `id`, with no match before it.
pub proof fn lemma_index_of_id(s: Seq<NoteView>, id: Seq<char>)
    requires
        contains_id(s, id),
    ensures
        0 <= index_of_id(s, id) < s.len(),
        s[index_of_id(s, id)].id == id,
        forall|j: int| 0 <= j < index_of_id(s, id) ==> s[j].id != id,
    decreases s.len(),
{
    if s.len() == 0 {
    } else if s[0].id == id {
    } else {
        assert(contains_id(s.drop_first(), id)) by {
            let i = choose|i: int| 0 <= i < s.len() && s[i].id == id;
            assert(s.drop_first()[i - 1].id == id);
        }
        lemma_index_of_id(s.drop_first(), id);
        assert(forall|j: int| 0 <= j < index_of_id(s, id) - 1 ==> s.drop_first()[j].id != id);
        assert(forall|j: int| 1 <= j < index_of_id(s, id) ==> s[j].id == s.drop_first()[j - 1].id);
    }
}

/// If `s[i]` carries `id` and no earlier note does, then `i` is exactly
/// `index_of_id(s, id)`.
pub proof fn lemma_index_of_id_unique(s: Seq<NoteView>, id: Seq<char>, i: int)
    requires
        0 <= i < s.len(),
        s[i].id == id,
        forall|j: int| 0 <= j < i ==> s[j].id != id,
    ensures
        index_of_id(s, id) == i,
    decreases s.len(),
{
    if i == 0 {
    } else {
        assert(s.drop_first()[i - 1].id == id);
        assert(forall|j: int| 0 <= j < i - 1 ==> s.drop_first()[j].id == s[j + 1].id);
        lemma_index_of_id_unique(s.drop_first(), id, i - 1);
    }
}

} // verus!
