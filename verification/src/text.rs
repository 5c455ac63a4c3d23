use vstd::prelude::*;

use crate::NoteError;

verus! {

/// Index of the first occurrence of `c` in `s`, or `s.len()` if absent.
pub open spec fn find_char(s: Seq<char>, c: char) -> int
    decreases s.len(),
{
    if s.len() == 0 {
        0
    } else if s[0] == c {
        0
    } else {
        1 + find_char(s.drop_first(), c)
    }
}

pub proof fn lemma_find_char_unique(s: Seq<char>, c: char, i: int)
    requires
        0 <= i <= s.len(),
        forall|j: int| 0 <= j < i ==> s[j] != c,
        i < s.len() ==> s[i] == c,
    ensures
        find_char(s, c) == i,
    decreases s.len(),
{
    if s.len() == 0 {
    } else if i == 0 {
    } else {
        assert(forall|j: int| 0 <= j < i - 1 ==> s.drop_first()[j] == s[j + 1]);
        lemma_find_char_unique(s.drop_first(), c, i - 1);
    }
}

/// The part of an authored buffer before its first line break: the title.
pub open spec fn title_of(s: Seq<char>) -> Seq<char> {
    s.take(find_char(s, '\n'))
}

/// Everything after the first line break, or nothing if there is none.
pub open spec fn rest_of(s: Seq<char>) -> Seq<char> {
    if find_char(s, '\n') < s.len() {
        s.skip(find_char(s, '\n') + 1)
    } else {
        Seq::empty()
    }
}

/// `s` without its leading line breaks.
pub open spec fn skip_lead_nl(s: Seq<char>) -> Seq<char>
    decreases s.len(),
{
    if s.len() > 0 && s[0] == '\n' {
        skip_lead_nl(s.drop_first())
    } else {
        s
    }
}

/// `s` without its trailing line breaks.
pub open spec fn trim_nl_end(s: Seq<char>) -> Seq<char>
    decreases s.len(),
{
    if s.len() > 0 && s.last() == '\n' {
        trim_nl_end(s.drop_last())
    } else {
        s
    }
}

/// The body of an authored buffer: the lines after the title, with leading
/// and trailing blank lines stripped (interior blank lines kept).
pub open spec fn body_of(s: Seq<char>) -> Seq<char> {
    trim_nl_end(skip_lead_nl(rest_of(s)))
}

/// Split an authored buffer into a title (its first line) and a body (the
/// rest, trimmed of blank lines at either end). A buffer whose title and
/// body are still the unmodified template placeholders carries no content:
/// it is reported as `EmptyContent` so that the caller can treat the edit
/// as cancelled instead of storing the template.
pub fn parse_content(content: &String) -> (r: Result<(String, String), NoteError>)
    ensures
        title_of(content@) == "<title>"@ && body_of(content@) == "<body>"@ ==> r == Err::<
            (String, String),
            NoteError,
        >(NoteError::EmptyContent),
        !(title_of(content@) == "<title>"@ && body_of(content@) == "<body>"@) ==> r is Ok
            && r->Ok_0.0@ == title_of(content@) && r->Ok_0.1@ == body_of(content@),
{
    let s = content.as_str();
    let n = s.unicode_len();
    let mut p: usize = 0;
    while p < n && s.get_char(p) != '\n'
        invariant
            n == s@.len(),
            p <= n,
            s@ == content@,
            forall|j: int| 0 <= j < p ==> s@[j] != '\n',
        decreases n - p,
    {
        p = p + 1;
    }
    proof {
        lemma_find_char_unique(content@, '\n', p as int);
    }
    let title = String::from_str(s.substring_char(0, p));
    let rest: &str = if p < n {
        s.substring_char(p + 1, n)
    } else {
        s.substring_char(n, n)
    };
    proof {
        assert(rest@ =~= rest_of(content@));
    }
    let rl = rest.unicode_len();
    proof {
        assert(rest@.skip(0) =~= rest@);
    }
    let mut a: usize = 0;
    while a < rl && rest.get_char(a) == '\n'
        invariant
            rl == rest@.len(),
            a <= rl,
            skip_lead_nl(rest@) == skip_lead_nl(rest@.skip(a as int)),
        decreases rl - a,
    {
        proof {
            assert(rest@.skip(a as int)[0] == rest@[a as int]);
            assert(rest@.skip(a as int).drop_first() =~= rest@.skip(a as int + 1));
        }
        a = a + 1;
    }
    proof {
        if a < rl {
            assert(rest@.skip(a as int)[0] == rest@[a as int]);
        }
        assert(skip_lead_nl(rest@) == rest@.skip(a as int));
        assert(rest@.skip(a as int) =~= rest@.subrange(a as int, rl as int));
    }
    let mut b: usize = rl;
    while b > a && rest.get_char(b - 1) == '\n'
        invariant
            rl == rest@.len(),
            a <= b <= rl,
            trim_nl_end(rest@.skip(a as int)) == trim_nl_end(
                rest@.subrange(a as int, b as int),
            ),
        decreases b,
    {
        proof {
            assert(rest@.subrange(a as int, b as int).last() == rest@[b - 1]);
            assert(rest@.subrange(a as int, b as int).drop_last() =~= rest@.subrange(
                a as int,
                b as int - 1,
            ));
        }
        b = b - 1;
    }
    proof {
        if b > a {
            assert(rest@.subrange(a as int, b as int).last() == rest@[b - 1]);
        }
        assert(trim_nl_end(rest@.subrange(a as int, b as int)) == rest@.subrange(
            a as int,
            b as int,
        ));
        assert(body_of(content@) == rest@.subrange(a as int, b as int));
    }
    let body = String::from_str(rest.substring_char(a, b));
    let tpl_title = String::from_str("<title>");
    let tpl_body = String::from_str("<body>");
    if title.eq(&tpl_title) && body.eq(&tpl_body) {
        Err(NoteError::EmptyContent)
    } else {
        Ok((title, body))
    }
}

/// True of the blank characters that `truncate` strips from a cut point.
pub open spec fn is_blank(c: char) -> bool {
    c == ' ' || c == '\t' || c == '\n' || c == '\r'
}

/// `s` without its trailing blank characters.
pub open spec fn trim_blank_end(s: Seq<char>) -> Seq<char>
    decreases s.len(),
{
    if s.len() > 0 && is_blank(s.last()) {
        trim_blank_end(s.drop_last())
    } else {
        s
    }
}

/// What `truncate` returns: the text itself when it fits, else its first
/// `length - 3` characters, blank-trimmed, with an ellipsis appended.
pub open spec fn truncate_spec(s: Seq<char>, length: int) -> Seq<char> {
    if s.len() <= length {
        s
    } else {
        trim_blank_end(s.take(length - 3)) + seq!['.', '.', '.']
    }
}

/// Shorten a text to at most `length` characters, marking a cut with "...".
pub fn truncate(text: String, length: usize) -> (r: String)
    requires
        length >= 3 || text@.len() <= length,
    ensures
        r@ == truncate_spec(text@, length as int),
{
    let tl = text.as_str().unicode_len();
    if tl <= length {
        return text;
    }
    let mut j: usize = length - 3;
    while j > 0 && is_blank_exec(text.as_str().get_char(j - 1))
        invariant
            tl == text@.len(),
            j <= length - 3 < tl,
            trim_blank_end(text@.take(length - 3)) == trim_blank_end(text@.take(j as int)),
        decreases j,
    {
        proof {
            assert(text@.take(j as int).last() == text@[j - 1]);
            assert(text@.take(j as int).drop_last() =~= text@.take(j as int - 1));
        }
        j = j - 1;
    }
    proof {
        if j > 0 {
            assert(text@.take(j as int).last() == text@[j - 1]);
        }
        assert(trim_blank_end(text@.take(j as int)) == text@.take(j as int));
    }
    let mut r = String::from_str(text.as_str().substring_char(0, j));
    r.append("...");
    proof {
        reveal_strlit("...");
        assert("..."@ =~= seq!['.', '.', '.']);
        assert(r@ =~= trim_blank_end(text@.take(length - 3)) + seq!['.', '.', '.']);
    }
    r
}

/// Blank test used by `truncate`'s cut trimming.
fn is_blank_exec(c: char) -> (r: bool)
    ensures
        r == is_blank(c),
{
    c == ' ' || c == '\t' || c == '\n' || c == '\r'
}

/// A tag list rendered for a table cell: entries joined by ", ".
pub open spec fn joined_tags(tags: Seq<Seq<char>>) -> Seq<char>
    decreases tags.len(),
{
    if tags.len() == 0 {
        Seq::empty()
    } else if tags.len() == 1 {
        tags[0]
    } else {
        joined_tags(tags.drop_last()) + seq![',', ' '] + tags.last()
    }
}

/// Join a tag list with ", " for display.
pub fn display_tags(tags: &Vec<String>) -> (r: String)
    ensures
        r@ == joined_tags(tags.deep_view()),
{
    let ghost tv = tags.deep_view();
    let mut r = String::new();
    let n = tags.len();
    let mut i: usize = 0;
    while i < n
        invariant
            n == tags.len(),
            i <= n,
            tv == tags.deep_view(),
            r@ == joined_tags(tv.take(i as int)),
        decreases n - i,
    {
        if i > 0 {
            r.append(", ");
            proof {
                reveal_strlit(", ");
                assert(", "@ =~= seq![',', ' ']);
            }
        }
        r.append(tags[i].as_str());
        proof {
            assert(tv.take(i as int + 1).last() == tv[i as int]);
            assert(tv.take(i as int + 1).drop_last() =~= tv.take(i as int));
            assert(tv[i as int] == tags@[i as int]@);
            if i > 0 {
                assert(r@ == joined_tags(tv.take(i as int + 1)));
            } else {
                assert(r@ =~= tv[0]);
                assert(r@ == joined_tags(tv.take(1)));
            }
        }
        i = i + 1;
    }
    proof {
        assert(tv.take(n as int) =~= tv);
    }
    r
}

/// A title shortened for the note table.
pub fn display_short(s: &String) -> (r: String)
    ensures
        r@ == truncate_spec(s@, 20),
{
    truncate(s.clone(), 20)
}

/// The rendering that humantime gives a whole-second duration.
pub uninterp spec fn human_of(secs: u64) -> Seq<char>;

/// Relies on humantime::format_duration: its rendering of a duration of
/// whole seconds is a function of the seconds value alone.
#[verifier::external_body]
fn human_duration(secs: u64) -> (r: String)
    ensures
        r@ == human_of(secs),
{
    format!("{}", humantime::format_duration(std::time::Duration::from_secs(secs)))
}

/// Seconds between `b` and a later instant `a`, saturating like the i64
/// subtraction the display works with.
pub open spec fn secs_between(a: i64, b: i64) -> u64 {
    if a - b > i64::MAX {
        i64::MAX as u64
    } else {
        (a - b) as u64
    }
}

/// What `display_ts` renders: "Never" for the zero timestamp, an "N ago"
/// phrase for a past one, and an "in N" phrase for a future one.
pub open spec fn ts_display(ts: i64, now: i64) -> Seq<char> {
    if ts == 0 {
        "Never"@
    } else if ts <= now {
        human_of(secs_between(now, ts)) + " ago"@
    } else {
        "in "@ + human_of(secs_between(ts, now))
    }
}

/// Render a timestamp relative to `now`: `0` means "Never", a past instant
/// is shown as "N ago" and a future one as "in N".
pub fn display_ts(ts: i64, now: i64) -> (r: String)
    ensures
        r@ == ts_display(ts, now),
{
    if ts == 0 {
        return String::from_str("Never");
    }
    if ts <= now {
        let d = sat_diff(now, ts);
        let mut r = human_duration(d);
        r.append(" ago");
        r
    } else {
        let d = sat_diff(ts, now);
        let mut r = String::from_str("in ");
        r.append(human_duration(d).as_str());
        r
    }
}

/// `a - b` for `b <= a`, saturated to `i64::MAX` and widened to `u64`.
fn sat_diff(a: i64, b: i64) -> (r: u64)
    requires
        b <= a,
    ensures
        r == secs_between(a, b),
{
    let d: i128 = a as i128 - b as i128;
    if d > i64::MAX as i128 {
        i64::MAX as u64
    } else {
        d as u64
    }
}

} // verus!
